//! Backslash escapes: how a stored key or value is written on a line, and how
//! the text of a line is read back.

use vstd::prelude::*;
use crate::text::{chars_of, is_whitespace, is_whitespace_spec};

verus! {

/// Whether a left-to-right scan of `s` ends just behind a backslash that
/// opens an escape: a backslash flips the state, any other character clears
/// it.
pub open spec fn escape_pending(s: Seq<char>) -> bool
    decreases s.len(),
{
    if s.len() == 0 {
        false
    } else {
        s.last() == '\\' && !escape_pending(s.drop_last())
    }
}

/// The character that stands for `c` when `c` follows an escaping backslash.
pub open spec fn unescape(c: char) -> char {
    if c == 't' {
        '\t'
    } else if c == 'f' {
        '\u{c}'
    } else if c == 'r' {
        '\r'
    } else if c == 'n' {
        '\n'
    } else {
        c
    }
}

/// The text that `s` stands for: every escaping backslash is dropped and the
/// character behind it replaced by [`unescape`]; a backslash with nothing
/// behind it is dropped.
pub open spec fn decode_spec(s: Seq<char>) -> Seq<char>
    decreases s.len(),
{
    if s.len() == 0 {
        Seq::empty()
    } else {
        let p = s.drop_last();
        let c = s.last();
        if escape_pending(p) {
            decode_spec(p).push(unescape(c))
        } else if c == '\\' {
            decode_spec(p)
        } else {
            decode_spec(p).push(c)
        }
    }
}

/// Whether every character of `s` is white space.
pub open spec fn all_whitespace(s: Seq<char>) -> bool {
    forall|i: int| 0 <= i < s.len() ==> is_whitespace_spec(#[trigger] s[i])
}

/// Whether `c` is written behind a backslash. `lead` says that only white
/// space came before `c`, `first` that nothing came before it.
pub open spec fn needs_escape(c: char, is_key: bool, lead: bool, first: bool) -> bool {
    if is_whitespace_spec(c) {
        is_key || lead || c == '\r' || c == '\n'
    } else {
        c == '\\' || (is_key && (c == '=' || c == ':' || (first && (c == '#' || c == '!'))))
    }
}

/// The character written behind the backslash when `c` is escaped.
pub open spec fn escape_letter(c: char) -> char {
    if c == '\t' {
        't'
    } else if c == '\u{c}' {
        'f'
    } else if c == '\r' {
        'r'
    } else if c == '\n' {
        'n'
    } else {
        c
    }
}

/// `out` followed by `c` as it is written, escaped or not.
pub open spec fn emit(out: Seq<char>, c: char, escaped: bool) -> Seq<char> {
    if escaped {
        out.push('\\').push(escape_letter(c))
    } else {
        out.push(c)
    }
}

/// How `s` is written on a line, as a key or as a value.
///
/// A backslash is always doubled. In a key every white space character, `=`
/// and `:` is escaped, and so is a leading `#` or `!`. In a value white space
/// is escaped up to the first character that is none; behind it only carriage
/// return and line feed are.
pub open spec fn encode_spec(s: Seq<char>, is_key: bool) -> Seq<char>
    decreases s.len(),
{
    if s.len() == 0 {
        Seq::empty()
    } else {
        let p = s.drop_last();
        let c = s.last();
        emit(encode_spec(p, is_key), c, needs_escape(c, is_key, all_whitespace(p), p.len() == 0))
    }
}

/// Decoding undoes encoding, for keys and for values, whatever the text; and
/// an encoded text never ends inside an escape.
pub proof fn lemma_decode_encode(s: Seq<char>, is_key: bool)
    ensures
        decode_spec(encode_spec(s, is_key)) == s,
        !escape_pending(encode_spec(s, is_key)),
    decreases s.len(),
{
    if s.len() > 0 {
        let p = s.drop_last();
        let c = s.last();
        lemma_decode_encode(p, is_key);
        lemma_decode_emit(
            encode_spec(p, is_key),
            c,
            needs_escape(c, is_key, all_whitespace(p), p.len() == 0),
        );
        assert(p.push(c) =~= s);
    }
}

/// One emitted character decodes to itself, provided that it is escaped where
/// it is a backslash.
pub proof fn lemma_decode_emit(out: Seq<char>, c: char, escaped: bool)
    requires
        !escape_pending(out),
        escaped || c != '\\',
        escaped ==> unescape(escape_letter(c)) == c,
    ensures
        decode_spec(emit(out, c, escaped)) == decode_spec(out).push(c),
        !escape_pending(emit(out, c, escaped)),
{
    if escaped {
        let o1 = out.push('\\');
        let o2 = o1.push(escape_letter(c));
        assert(o1.drop_last() =~= out);
        assert(o2.drop_last() =~= o1);
        assert(escape_pending(o1));
        assert(decode_spec(o1) == decode_spec(out));
    } else {
        assert(out.push(c).drop_last() =~= out);
    }
}

/// Reads the escapes of `v[from..to]`.
pub fn decode_slice(v: &Vec<char>, from: usize, to: usize) -> (r: String)
    requires
        from <= to <= v.len(),
    ensures
        r@ == decode_spec(v@.subrange(from as int, to as int)),
{
    let mut out = String::new();
    let mut pending = false;
    let mut i: usize = from;
    while i < to
        invariant
            from <= i <= to <= v.len(),
            out@ == decode_spec(v@.subrange(from as int, i as int)),
            pending == escape_pending(v@.subrange(from as int, i as int)),
        decreases to - i,
    {
        let c = v[i];
        proof {
            assert(v@.subrange(from as int, i + 1).drop_last() =~= v@.subrange(
                from as int,
                i as int,
            ));
        }
        if pending {
            let d = if c == 't' {
                '\t'
            } else if c == 'f' {
                '\u{c}'
            } else if c == 'r' {
                '\r'
            } else if c == 'n' {
                '\n'
            } else {
                c
            };
            out.push(d);
            pending = false;
        } else if c == '\\' {
            pending = true;
        } else {
            out.push(c);
        }
        i += 1;
    }
    out
}

/// Decodes the escape sequences of `s`: `\t`, `\f`, `\r` and `\n` become the
/// control characters they name, any other escaped character stands for
/// itself, and a backslash at the very end is dropped.
pub fn decode_chars(s: &str) -> (r: String)
    ensures
        r@ == decode_spec(s@),
{
    let v = chars_of(s);
    assert(v@.subrange(0, v@.len() as int) =~= v@);
    decode_slice(&v, 0, v.len())
}

/// [`decode_chars`] for an owned string, under the name it also goes by.
#[allow(non_snake_case)]
pub fn escapeChars(s: String) -> (r: String)
    ensures
        r@ == decode_spec(s@),
{
    decode_chars(s.as_str())
}

/// Encodes `s` so that it can stand on a line as a key (`is_key`) or as a
/// value, and [`decode_chars`] gives `s` back.
pub fn encode_chars(s: &str, is_key: bool) -> (r: String)
    ensures
        r@ == encode_spec(s@, is_key),
        decode_spec(r@) == s@,
{
    let v = chars_of(s);
    let mut out = String::new();
    let mut lead = true;
    let mut i: usize = 0;
    while i < v.len()
        invariant
            i <= v.len(),
            out@ == encode_spec(v@.take(i as int), is_key),
            lead == all_whitespace(v@.take(i as int)),
        decreases v.len() - i,
    {
        let c = v[i];
        let ws = is_whitespace(c);
        proof {
            let p = v@.take(i as int);
            let q = v@.take(i + 1);
            assert(q.drop_last() =~= p);
            assert(q.last() == c);
            if all_whitespace(q) {
                assert forall|j: int| 0 <= j < p.len() implies is_whitespace_spec(
                    #[trigger] p[j],
                ) by {
                    assert(p[j] == q[j]);
                }
            }
            assert(!ws ==> !is_whitespace_spec(q[i as int]));
        }
        let escaped = if ws {
            is_key || lead || c == '\r' || c == '\n'
        } else {
            c == '\\' || (is_key && (c == '=' || c == ':' || (i == 0 && (c == '#' || c == '!'))))
        };
        if escaped {
            let letter = if c == '\t' {
                't'
            } else if c == '\u{c}' {
                'f'
            } else if c == '\r' {
                'r'
            } else if c == '\n' {
                'n'
            } else {
                c
            };
            out.push('\\');
            out.push(letter);
        } else {
            out.push(c);
        }
        if !ws {
            lead = false;
        }
        i += 1;
    }
    proof {
        assert(v@.take(v@.len() as int) =~= v@);
        lemma_decode_encode(s@, is_key);
    }
    out
}

} // verus!
