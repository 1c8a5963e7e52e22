//! What is written out is read back: the lines that a property list is
//! stored as load into the same mapping, with the keys in the same order.

use vstd::prelude::*;
use crate::escape::{
    all_whitespace, decode_spec, emit, encode_spec, escape_pending, lemma_decode_encode,
    needs_escape, unescape,
};
use crate::lines::{is_terminated_line, lemma_split_join, split_lines_spec};
use crate::listing::{distinct_keys, entries_map, has_key, lemma_distinct_drop_last, Listing};
use crate::parse::{
    carry, entry_key, entry_value, is_comment, is_continued, is_entry, is_key_end, joined,
    key_end_from, key_len, lemma_continued_is_pending, logical_lines_spec, pending_after,
    raw_key, raw_value, skip_whitespace_spec, strip_line_end, trim_start, value_start,
};
use crate::properties::{
    entry_line, entry_text, load_lines_spec, load_spec, put_lines, store_lines_spec, store_spec,
    store_texts,
};
use crate::text::is_whitespace_spec;

verus! {

/// Behind a text that does not end inside an escape, a second text is read
/// as if it stood alone.
pub proof fn lemma_decode_append(a: Seq<char>, b: Seq<char>)
    requires
        !escape_pending(a),
    ensures
        escape_pending(a + b) == escape_pending(b),
        decode_spec(a + b) == decode_spec(a) + decode_spec(b),
    decreases b.len(),
{
    if b.len() == 0 {
        assert(a + b =~= a);
        assert(decode_spec(a) + decode_spec(b) =~= decode_spec(a));
    } else {
        let bp = b.drop_last();
        let c = b.last();
        lemma_decode_append(a, bp);
        assert((a + b).drop_last() =~= a + bp);
        assert((a + b).last() == c);
        assert((decode_spec(a) + decode_spec(bp)).push(c) =~= decode_spec(a) + decode_spec(
            bp,
        ).push(c));
        assert((decode_spec(a) + decode_spec(bp)).push(unescape(c))
            =~= decode_spec(a) + decode_spec(bp).push(unescape(c)));
    }
}

/// An encoded text starts with no white space, and an encoded key with
/// neither `#` nor `!`.
pub proof fn lemma_encode_first(s: Seq<char>, is_key: bool)
    requires
        s.len() > 0,
    ensures
        encode_spec(s, is_key).len() > 0,
        !is_whitespace_spec(encode_spec(s, is_key)[0]),
        is_key ==> encode_spec(s, is_key)[0] != '#' && encode_spec(s, is_key)[0] != '!',
    decreases s.len(),
{
    let p = s.drop_last();
    if p.len() > 0 {
        lemma_encode_first(p, is_key);
    } else {
        assert(all_whitespace(p));
        assert(encode_spec(p, is_key) =~= Seq::<char>::empty());
    }
}

/// An encoded text holds neither a carriage return nor a line feed.
pub proof fn lemma_encode_no_line_end(s: Seq<char>, is_key: bool)
    ensures
        forall|i: int|
            0 <= i < encode_spec(s, is_key).len() ==> (#[trigger] encode_spec(s, is_key)[i])
                != '\r' && encode_spec(s, is_key)[i] != '\n',
    decreases s.len(),
{
    if s.len() > 0 {
        let p = s.drop_last();
        let o = encode_spec(p, is_key);
        let e = encode_spec(s, is_key);
        lemma_encode_no_line_end(p, is_key);
        assert forall|i: int| 0 <= i < e.len() implies (#[trigger] e[i]) != '\r' && e[i]
            != '\n' by {
            if i < o.len() {
                assert(e[i] == o[i]);
            }
        }
    }
}

/// Inside an encoded key no key ends: each white space, `=` and `:` in it
/// stands behind an escaping backslash.
pub proof fn lemma_encoded_key_guarded(s: Seq<char>)
    ensures
        forall|i: int|
            0 <= i < encode_spec(s, true).len() ==> !#[trigger] is_key_end(
                encode_spec(s, true),
                i,
            ),
    decreases s.len(),
{
    if s.len() > 0 {
        let p = s.drop_last();
        let c = s.last();
        let o = encode_spec(p, true);
        let e = encode_spec(s, true);
        let escaped = needs_escape(c, true, all_whitespace(p), p.len() == 0);
        lemma_encoded_key_guarded(p);
        lemma_decode_encode(p, true);
        assert(e == emit(o, c, escaped));
        assert forall|i: int| 0 <= i < e.len() implies !#[trigger] is_key_end(e, i) by {
            if i < o.len() {
                assert(e.take(i) =~= o.take(i));
                assert(e[i] == o[i]);
                assert(!is_key_end(o, i));
            } else if escaped {
                let o1 = o.push('\\');
                assert(o1.drop_last() =~= o);
                assert(escape_pending(o1));
                if i == o.len() {
                    assert(e[i] == '\\');
                } else {
                    assert(e.take(i) =~= o1);
                }
            } else {
                assert(e[i] == c);
            }
        }
    }
}

/// The key ends at the first index in front of which a key ends.
pub proof fn lemma_key_end_is(s: Seq<char>, i: int, k: int)
    requires
        0 <= i <= k <= s.len(),
        forall|j: int| i <= j < k ==> !#[trigger] is_key_end(s, j),
        k == s.len() || is_key_end(s, k),
    ensures
        key_end_from(s, i) == k,
    decreases k - i,
{
    if i < k {
        assert(!is_key_end(s, i));
        lemma_key_end_is(s, i + 1, k);
    }
}

/// The line written for one property is read as one complete logical line,
/// and that line gives back the property's key and value.
pub proof fn lemma_entry_line_read(k: Seq<char>, v: Seq<char>)
    ensures
        joined(Seq::empty(), entry_line(k, v)) == entry_text(k, v),
        is_entry(entry_text(k, v)),
        carry(entry_text(k, v)) == Seq::<char>::empty(),
        entry_key(entry_text(k, v)) == k,
        entry_value(entry_text(k, v)) == v,
{
    let ek = encode_spec(k, true);
    let ev = encode_spec(v, false);
    let a = ek.push('=');
    let j = entry_text(k, v);
    let l = entry_line(k, v);
    let n = ek.len() as int;
    lemma_decode_encode(k, true);
    lemma_decode_encode(v, false);
    assert(a.drop_last() =~= ek);
    assert(!escape_pending(a));
    lemma_decode_append(a, ev);
    lemma_continued_is_pending(j);
    assert(!is_continued(j));
    // the first character
    if k.len() > 0 {
        lemma_encode_first(k, true);
        assert(j[0] == ek[0]);
    } else {
        assert(ek =~= Seq::<char>::empty());
        assert(j[0] == '=');
    }
    assert(!is_comment(j));
    assert(!is_whitespace_spec(j[0]));
    // the physical line
    assert(l[0] == j[0]);
    assert(skip_whitespace_spec(l, 0) == 0);
    assert(trim_start(l) =~= l);
    assert(Seq::<char>::empty() + l =~= l);
    lemma_encode_no_line_end(v, false);
    if v.len() > 0 {
        lemma_encode_first(v, false);
        assert(j.last() == ev.last());
        assert(ev.last() == ev[ev.len() - 1]);
    } else {
        assert(ev =~= Seq::<char>::empty());
        assert(j.last() == '=');
    }
    assert(l[l.len() - 2] == j.last());
    assert(strip_line_end(l) =~= j);
    // the key
    lemma_encoded_key_guarded(k);
    assert forall|i: int| 0 <= i < n implies !#[trigger] is_key_end(j, i) by {
        assert(j.take(i) =~= ek.take(i));
        assert(j[i] == ek[i]);
        assert(!is_key_end(ek, i));
    }
    assert(j.take(n) =~= ek);
    assert(j[n] == '=');
    assert(is_key_end(j, n));
    lemma_key_end_is(j, 0, n);
    assert(key_len(j) == n);
    assert(raw_key(j) =~= ek);
    // the value
    assert(skip_whitespace_spec(j, n) == n);
    if v.len() > 0 {
        assert(j[n + 1] == ev[0]);
        assert(skip_whitespace_spec(j, n + 1) == n + 1);
    } else {
        assert(skip_whitespace_spec(j, n + 1) == n + 1);
    }
    assert(value_start(j) == n + 1);
    assert(raw_value(j) =~= ev);
}

/// The lines written for a property list are read as one logical line per
/// property, and nothing is left pending behind them.
pub proof fn lemma_store_logical(e: Listing)
    ensures
        pending_after(store_lines_spec(e)) == Seq::<char>::empty(),
        logical_lines_spec(store_lines_spec(e)) == store_texts(e),
    decreases e.len(),
{
    let lines = store_lines_spec(e);
    if e.len() > 0 {
        let p = e.drop_last();
        lemma_store_logical(p);
        lemma_entry_line_read(e.last().0, e.last().1);
        assert(lines.drop_last() =~= store_lines_spec(p));
        assert(lines.last() == entry_line(e.last().0, e.last().1));
        assert(store_texts(p).push(entry_text(e.last().0, e.last().1)) =~= store_texts(e));
    } else {
        assert(lines =~= Seq::<Seq<char>>::empty());
        assert(store_texts(e) =~= Seq::<Seq<char>>::empty());
    }
}

/// Writing a property list out as lines and loading the lines into an empty
/// list gives the same mapping, whatever characters the keys and values
/// hold.
pub proof fn lemma_store_load_lines(e: Listing)
    ensures
        load_lines_spec(Map::empty(), store_lines_spec(e)) == entries_map(e),
    decreases e.len(),
{
    lemma_store_logical(e);
    if e.len() > 0 {
        let p = e.drop_last();
        lemma_store_load_lines(p);
        lemma_store_logical(p);
        lemma_entry_line_read(e.last().0, e.last().1);
        assert(store_texts(e).drop_last() =~= store_texts(p));
    }
}

/// Writing a property list out as lines and loading the lines into an empty
/// list gives the same entries in the same order.
pub proof fn lemma_store_load_order(e: Listing)
    requires
        distinct_keys(e),
    ensures
        put_lines(Listing::empty(), logical_lines_spec(store_lines_spec(e))) == e,
    decreases e.len(),
{
    lemma_store_logical(e);
    if e.len() > 0 {
        let p = e.drop_last();
        let k = e.last().0;
        lemma_distinct_drop_last(e);
        lemma_store_load_order(p);
        lemma_store_logical(p);
        lemma_entry_line_read(k, e.last().1);
        assert(store_texts(e).drop_last() =~= store_texts(p));
        if has_key(p, k) {
            let i = choose|i: int| 0 <= i < p.len() && (#[trigger] p[i]).0 == k;
            assert(e[i].0 == e[e.len() - 1].0);
        }
        assert(p.push(e.last()) =~= e);
    } else {
        assert(store_texts(e) =~= Seq::<Seq<char>>::empty());
        assert(e =~= Listing::empty());
    }
}

/// The line written for one property ends with its line feed and holds no
/// other.
pub proof fn lemma_entry_line_terminated(k: Seq<char>, v: Seq<char>)
    ensures
        is_terminated_line(entry_line(k, v)),
{
    let ek = encode_spec(k, true);
    let ev = encode_spec(v, false);
    let l = entry_line(k, v);
    lemma_encode_no_line_end(k, true);
    lemma_encode_no_line_end(v, false);
    assert forall|i: int| 0 <= i < l.len() - 1 implies l[i] != '\n' by {
        if i < ek.len() {
            assert(l[i] == ek[i]);
        } else if i == ek.len() {
            assert(l[i] == '=');
        } else {
            assert(l[i] == ev[i - ek.len() - 1]);
        }
    }
}

/// The text written for a property list, cut into physical lines, is the
/// lines written for it.
pub proof fn lemma_store_split(e: Listing)
    ensures
        split_lines_spec(store_spec(e)) == store_lines_spec(e),
{
    let lines = store_lines_spec(e);
    assert forall|i: int| 0 <= i < lines.len() implies is_terminated_line(#[trigger] lines[i]) by {
        lemma_entry_line_terminated(e[i].0, e[i].1);
    }
    lemma_split_join(lines);
}

/// Writing a property list out as text and loading the text into an empty
/// list gives the same mapping, whatever characters the keys and values
/// hold.
pub proof fn lemma_store_load(e: Listing)
    ensures
        load_spec(Map::empty(), store_spec(e)) == entries_map(e),
{
    lemma_store_split(e);
    lemma_store_load_lines(e);
}

} // verus!
