//! From physical lines to entries: joining continued lines, dropping comments
//! and blank lines, and cutting a logical line into key and value.

use vstd::prelude::*;
use crate::escape::{decode_slice, decode_spec, escape_pending};
use crate::text::{chars_of, is_whitespace, is_whitespace_spec, string_of};

verus! {

/// The first index from `i` on at which `s` holds no white space, or the
/// length of `s` where only white space is left.
pub open spec fn skip_whitespace_spec(s: Seq<char>, i: int) -> int
    decreases s.len() - i,
{
    if 0 <= i < s.len() && is_whitespace_spec(s[i]) {
        skip_whitespace_spec(s, i + 1)
    } else {
        i
    }
}

/// `s` without its leading white space.
pub open spec fn trim_start(s: Seq<char>) -> Seq<char> {
    s.skip(skip_whitespace_spec(s, 0))
}

/// `s` without one line terminator at its end: `\r\n`, `\n` or `\r`.
pub open spec fn strip_line_end(s: Seq<char>) -> Seq<char> {
    let n = s.len() as int;
    if n >= 2 && s[n - 2] == '\r' && s[n - 1] == '\n' {
        s.take(n - 2)
    } else if n >= 1 && (s[n - 1] == '\n' || s[n - 1] == '\r') {
        s.take(n - 1)
    } else {
        s
    }
}

/// What has been gathered once the physical line `line` has joined the
/// pending text `acc`.
pub open spec fn joined(acc: Seq<char>, line: Seq<char>) -> Seq<char> {
    strip_line_end(acc + trim_start(line))
}

/// A comment starts with `#` or `!`.
pub open spec fn is_comment(s: Seq<char>) -> bool {
    s.len() > 0 && (s[0] == '#' || s[0] == '!')
}

/// How many backslashes stand at the end of `s`.
pub open spec fn trailing_backslashes(s: Seq<char>) -> nat
    decreases s.len(),
{
    if s.len() > 0 && s.last() == '\\' {
        1 + trailing_backslashes(s.drop_last())
    } else {
        0
    }
}

/// A line goes on in the next one where it ends with an odd number of
/// backslashes; an even number is that many halves of literal backslashes.
pub open spec fn is_continued(s: Seq<char>) -> bool {
    trailing_backslashes(s) % 2 == 1
}

/// Whether the gathered text `j` is a complete logical line: not blank, no
/// comment, not continued.
pub open spec fn is_entry(j: Seq<char>) -> bool {
    j.len() > 0 && !is_comment(j) && !is_continued(j)
}

/// What of the gathered text `j` is kept for the next physical line: `j`
/// without its last backslash where it is continued, nothing otherwise.
pub open spec fn carry(j: Seq<char>) -> Seq<char> {
    if j.len() > 0 && !is_comment(j) && is_continued(j) {
        j.drop_last()
    } else {
        Seq::empty()
    }
}

/// The pending text after the physical lines `lines` have been read.
pub open spec fn pending_after(lines: Seq<Seq<char>>) -> Seq<char>
    decreases lines.len(),
{
    if lines.len() == 0 {
        Seq::empty()
    } else {
        carry(joined(pending_after(lines.drop_last()), lines.last()))
    }
}

/// The logical lines that the physical lines `lines` hold, in order. Text
/// that is still pending behind the last line is not among them.
pub open spec fn logical_lines_spec(lines: Seq<Seq<char>>) -> Seq<Seq<char>>
    decreases lines.len(),
{
    if lines.len() == 0 {
        Seq::empty()
    } else {
        let before = logical_lines_spec(lines.drop_last());
        let j = joined(pending_after(lines.drop_last()), lines.last());
        if is_entry(j) {
            before.push(j)
        } else {
            before
        }
    }
}

/// Whether a key ends in front of `s[i]`: an unescaped white space, `=` or
/// `:` stands there.
pub open spec fn is_key_end(s: Seq<char>, i: int) -> bool {
    (is_whitespace_spec(s[i]) || s[i] == '=' || s[i] == ':') && !escape_pending(s.take(i))
}

/// The first index from `i` on in front of which a key ends, or the length
/// of `s`.
pub open spec fn key_end_from(s: Seq<char>, i: int) -> int
    decreases s.len() - i,
{
    if 0 <= i < s.len() && !is_key_end(s, i) {
        key_end_from(s, i + 1)
    } else {
        i
    }
}

/// The length of the key at the start of the logical line `s`.
pub open spec fn key_len(s: Seq<char>) -> int {
    key_end_from(s, 0)
}

/// Where the value starts in the logical line `s`: behind the key, the white
/// space after it, one `=` or `:` if it comes next, and the white space after
/// that.
pub open spec fn value_start(s: Seq<char>) -> int {
    let j = skip_whitespace_spec(s, key_len(s));
    if j < s.len() && (s[j] == '=' || s[j] == ':') {
        skip_whitespace_spec(s, j + 1)
    } else {
        j
    }
}

/// The key of the logical line `s`, escapes not yet read.
pub open spec fn raw_key(s: Seq<char>) -> Seq<char> {
    s.take(key_len(s))
}

/// The value of the logical line `s`, escapes not yet read.
pub open spec fn raw_value(s: Seq<char>) -> Seq<char> {
    s.skip(value_start(s))
}

/// The key that the logical line `s` defines.
pub open spec fn entry_key(s: Seq<char>) -> Seq<char> {
    decode_spec(raw_key(s))
}

/// The value that the logical line `s` gives its key.
pub open spec fn entry_value(s: Seq<char>) -> Seq<char> {
    decode_spec(raw_value(s))
}

/// Where `s[i..]` is all backslashes and no backslash stands in front of
/// them, `s` ends with as many backslashes as `s[i..]` is long.
pub proof fn lemma_trailing_backslashes(s: Seq<char>, i: int)
    requires
        0 <= i <= s.len(),
        forall|k: int| i <= k < s.len() ==> s[k] == '\\',
        i == 0 || s[i - 1] != '\\',
    ensures
        trailing_backslashes(s) == s.len() - i,
    decreases s.len(),
{
    if i < s.len() {
        lemma_trailing_backslashes(s.drop_last(), i);
    }
}

/// A line is continued exactly where a scan of it ends inside an escape.
pub proof fn lemma_continued_is_pending(s: Seq<char>)
    ensures
        is_continued(s) == escape_pending(s),
    decreases s.len(),
{
    if s.len() > 0 {
        lemma_continued_is_pending(s.drop_last());
    }
}

/// The first index from `from` on at which `v` holds no white space.
pub fn skip_whitespace(v: &Vec<char>, from: usize) -> (j: usize)
    requires
        from <= v.len(),
    ensures
        j == skip_whitespace_spec(v@, from as int),
        from <= j <= v.len(),
{
    let mut j: usize = from;
    while j < v.len() && is_whitespace(v[j])
        invariant
            from <= j <= v.len(),
            skip_whitespace_spec(v@, from as int) == skip_whitespace_spec(v@, j as int),
        decreases v.len() - j,
    {
        j += 1;
    }
    j
}

/// Whether `v` ends with an odd number of backslashes.
pub fn ends_continued(v: &Vec<char>) -> (b: bool)
    ensures
        b == is_continued(v@),
{
    let mut odd = false;
    let mut i: usize = v.len();
    while i > 0 && v[i - 1] == '\\'
        invariant
            i <= v.len(),
            forall|k: int| i <= k < v.len() ==> v@[k] == '\\',
            odd == ((v.len() - i) % 2 == 1),
        decreases i,
    {
        odd = !odd;
        i -= 1;
    }
    proof {
        lemma_trailing_backslashes(v@, i as int);
    }
    odd
}

/// The length of the key at the start of the logical line `v`.
pub fn key_length(v: &Vec<char>) -> (k: usize)
    ensures
        k == key_len(v@),
        k <= v.len(),
{
    let mut i: usize = 0;
    let mut pending = false;
    let mut found = false;
    while i < v.len() && !found
        invariant
            i <= v.len(),
            pending == escape_pending(v@.take(i as int)),
            key_len(v@) == key_end_from(v@, i as int),
            found ==> i < v.len() && is_key_end(v@, i as int),
        decreases v.len() - i + if found { 0int } else { 1int },
    {
        let c = v[i];
        if !pending && (is_whitespace(c) || c == '=' || c == ':') {
            found = true;
        } else {
            proof {
                assert(v@.take(i + 1).drop_last() =~= v@.take(i as int));
            }
            pending = c == '\\' && !pending;
            i += 1;
        }
    }
    i
}

/// Where the value starts in the logical line `v`.
pub fn value_offset(v: &Vec<char>) -> (j: usize)
    ensures
        j == value_start(v@),
        key_len(v@) <= j <= v.len(),
{
    let k = key_length(v);
    let j = skip_whitespace(v, k);
    if j < v.len() && (v[j] == '=' || v[j] == ':') {
        skip_whitespace(v, j + 1)
    } else {
        j
    }
}

/// Cuts the logical line `line` into its key and its value and reads the
/// escapes of both. Every line has a key and a value, either of which may be
/// empty.
pub fn parse_entry(line: &Vec<char>) -> (kv: (String, String))
    ensures
        kv.0@ == entry_key(line@),
        kv.1@ == entry_value(line@),
{
    let k = key_length(line);
    let start = value_offset(line);
    let key = decode_slice(line, 0, k);
    let value = decode_slice(line, start, line.len());
    (key, value)
}

/// Cuts the logical line `line` into its key and its value as they are
/// written, escapes included.
pub fn split_key_value(line: &str) -> (kv: (String, String))
    ensures
        kv.0@ == raw_key(line@),
        kv.1@ == raw_value(line@),
{
    let v = chars_of(line);
    let k = key_length(&v);
    let start = value_offset(&v);
    (string_of(&v, 0, k), string_of(&v, start, v.len()))
}

/// Takes in one physical line. `pending` holds what earlier lines left
/// unfinished; the line joins it without its leading white space and its
/// line terminator. A complete logical line is handed out and `pending` left
/// empty; a continued line stays in `pending` without its last backslash; a
/// comment or a blank line is dropped.
pub fn feed_line(pending: &mut Vec<char>, line: &str) -> (r: Option<Vec<char>>)
    ensures
        final(pending)@ == carry(joined(old(pending)@, line@)),
        match r {
            Some(l) => is_entry(joined(old(pending)@, line@)) && l@ == joined(
                old(pending)@,
                line@,
            ),
            None => !is_entry(joined(old(pending)@, line@)),
        },
{
    let v = chars_of(line);
    let start = skip_whitespace(&v, 0);
    let mut i: usize = start;
    while i < v.len()
        invariant
            start <= i <= v.len(),
            pending@ == old(pending)@ + v@.subrange(start as int, i as int),
        decreases v.len() - i,
    {
        pending.push(v[i]);
        i += 1;
        assert(pending@ =~= old(pending)@ + v@.subrange(start as int, i as int));
    }
    let ghost whole = pending@;
    assert(whole == old(pending)@ + trim_start(line@));
    let n = pending.len();
    if n >= 2 && pending[n - 2] == '\r' && pending[n - 1] == '\n' {
        pending.truncate(n - 2);
    } else if n >= 1 && (pending[n - 1] == '\n' || pending[n - 1] == '\r') {
        pending.truncate(n - 1);
    }
    assert(pending@ =~= strip_line_end(whole));
    if pending.len() == 0 {
        return None;
    }
    if pending[0] == '#' || pending[0] == '!' {
        pending.clear();
        return None;
    }
    if ends_continued(pending) {
        pending.pop();
        return None;
    }
    let mut out: Vec<char> = Vec::new();
    core::mem::swap(pending, &mut out);
    Some(out)
}

/// Joins the physical lines `lines` into logical lines. What is still
/// pending when the lines run out is dropped.
pub fn logical_lines(lines: &Vec<String>) -> (r: Vec<String>)
    ensures
        r.deep_view() == logical_lines_spec(lines.deep_view()),
{
    let mut out: Vec<String> = Vec::new();
    let mut pending: Vec<char> = Vec::new();
    let mut i: usize = 0;
    while i < lines.len()
        invariant
            i <= lines.len(),
            pending@ == pending_after(lines.deep_view().take(i as int)),
            out.deep_view() == logical_lines_spec(lines.deep_view().take(i as int)),
        decreases lines.len() - i,
    {
        proof {
            let t = lines.deep_view().take(i + 1);
            assert(t.drop_last() =~= lines.deep_view().take(i as int));
            assert(t.last() == lines[i as int]@);
        }
        let ghost before = out.deep_view();
        match feed_line(&mut pending, lines[i].as_str()) {
            Some(l) => {
                let s = string_of(&l, 0, l.len());
                assert(l@.subrange(0, l@.len() as int) =~= l@);
                out.push(s);
                assert(out.deep_view() =~= before.push(l@));
            },
            None => {},
        }
        i += 1;
    }
    assert(lines.deep_view().take(lines.len() as int) =~= lines.deep_view());
    out
}

} // verus!
