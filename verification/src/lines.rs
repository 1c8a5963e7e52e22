//! A text as physical lines: cutting it behind each line feed, and putting
//! lines together again.

use vstd::prelude::*;
use vstd::string::StringExecFns;
use crate::text::chars_of;

verus! {

/// What stands behind the last line feed of `s`: the line that is not yet
/// terminated.
pub open spec fn open_line(s: Seq<char>) -> Seq<char>
    decreases s.len(),
{
    if s.len() == 0 || s.last() == '\n' {
        Seq::empty()
    } else {
        open_line(s.drop_last()).push(s.last())
    }
}

/// The lines of `s` that a line feed terminates, each with its line feed.
pub open spec fn closed_lines(s: Seq<char>) -> Seq<Seq<char>>
    decreases s.len(),
{
    if s.len() == 0 {
        Seq::empty()
    } else if s.last() == '\n' {
        closed_lines(s.drop_last()).push(open_line(s.drop_last()).push('\n'))
    } else {
        closed_lines(s.drop_last())
    }
}

/// The physical lines of `s`: the text is cut behind each line feed, which
/// stays with its line; what follows the last line feed is a line too unless
/// it is empty.
pub open spec fn split_lines_spec(s: Seq<char>) -> Seq<Seq<char>> {
    if open_line(s).len() > 0 {
        closed_lines(s).push(open_line(s))
    } else {
        closed_lines(s)
    }
}

/// The lines one after the other as one text.
pub open spec fn join_lines(lines: Seq<Seq<char>>) -> Seq<char>
    decreases lines.len(),
{
    if lines.len() == 0 {
        Seq::empty()
    } else {
        join_lines(lines.drop_last()) + lines.last()
    }
}

/// A line that ends with a line feed and holds no other.
pub open spec fn is_terminated_line(l: Seq<char>) -> bool {
    &&& l.len() > 0
    &&& l.last() == '\n'
    &&& forall|i: int| 0 <= i < l.len() - 1 ==> l[i] != '\n'
}

/// The terminated lines of a text and its open line make up the text.
pub proof fn lemma_closed_open(s: Seq<char>)
    ensures
        join_lines(closed_lines(s)) + open_line(s) == s,
    decreases s.len(),
{
    if s.len() == 0 {
        assert(join_lines(closed_lines(s)) + open_line(s) =~= s);
    } else {
        let p = s.drop_last();
        lemma_closed_open(p);
        if s.last() == '\n' {
            let l = open_line(p).push('\n');
            assert(closed_lines(s).drop_last() =~= closed_lines(p));
            assert(join_lines(closed_lines(s)) == join_lines(closed_lines(p)) + l);
            assert(join_lines(closed_lines(p)) + l + Seq::<char>::empty() =~= (join_lines(
                closed_lines(p),
            ) + open_line(p)).push('\n'));
            assert(p.push('\n') =~= s);
        } else {
            assert(join_lines(closed_lines(p)) + open_line(p).push(s.last()) =~= (join_lines(
                closed_lines(p),
            ) + open_line(p)).push(s.last()));
            assert(p.push(s.last()) =~= s);
        }
    }
}

/// Cutting a text into lines loses nothing: the lines put together are the
/// text.
pub proof fn lemma_join_split(s: Seq<char>)
    ensures
        join_lines(split_lines_spec(s)) == s,
{
    lemma_closed_open(s);
    if open_line(s).len() > 0 {
        assert(split_lines_spec(s).drop_last() =~= closed_lines(s));
    } else {
        assert(join_lines(closed_lines(s)) + open_line(s) =~= join_lines(closed_lines(s)));
    }
}

/// Behind a text with no open line, text without a line feed is the open
/// line and closes no line.
pub proof fn lemma_append_open(t: Seq<char>, body: Seq<char>)
    requires
        open_line(t).len() == 0,
        forall|i: int| 0 <= i < body.len() ==> body[i] != '\n',
    ensures
        open_line(t + body) == body,
        closed_lines(t + body) == closed_lines(t),
    decreases body.len(),
{
    if body.len() == 0 {
        assert(t + body =~= t);
        assert(open_line(t) =~= body);
    } else {
        let bp = body.drop_last();
        lemma_append_open(t, bp);
        assert((t + body).drop_last() =~= t + bp);
        assert((t + body).last() == body.last());
        assert(bp.push(body.last()) =~= body);
    }
}

/// Terminated lines put together and cut again are the same lines.
pub proof fn lemma_split_join(lines: Seq<Seq<char>>)
    requires
        forall|i: int| 0 <= i < lines.len() ==> is_terminated_line(#[trigger] lines[i]),
    ensures
        split_lines_spec(join_lines(lines)) == lines,
        open_line(join_lines(lines)).len() == 0,
        closed_lines(join_lines(lines)) == lines,
    decreases lines.len(),
{
    if lines.len() == 0 {
        assert(closed_lines(join_lines(lines)) =~= lines);
    } else {
        let before = lines.drop_last();
        let l = lines.last();
        let body = l.drop_last();
        let t = join_lines(before);
        assert forall|i: int| 0 <= i < before.len() implies is_terminated_line(
            #[trigger] before[i],
        ) by {
            assert(before[i] == lines[i]);
        }
        lemma_split_join(before);
        assert(is_terminated_line(l));
        lemma_append_open(t, body);
        let s = t + l;
        assert(s.drop_last() =~= t + body);
        assert(s.last() == '\n');
        assert(body.push('\n') =~= l);
        assert(closed_lines(s) == closed_lines(t + body).push(open_line(t + body).push('\n')));
        assert(before.push(l) =~= lines);
    }
}

/// Cuts `text` into its physical lines. Each line keeps its line feed; the
/// last line may have none.
pub fn split_lines(text: &str) -> (lines: Vec<String>)
    ensures
        lines.deep_view() == split_lines_spec(text@),
        join_lines(lines.deep_view()) == text@,
{
    proof {
        lemma_join_split(text@);
    }
    let v = chars_of(text);
    let mut lines: Vec<String> = Vec::new();
    let mut line = String::new();
    let mut i: usize = 0;
    while i < v.len()
        invariant
            i <= v.len(),
            lines.deep_view() == closed_lines(v@.take(i as int)),
            line@ == open_line(v@.take(i as int)),
        decreases v.len() - i,
    {
        let c = v[i];
        proof {
            assert(v@.take(i + 1).drop_last() =~= v@.take(i as int));
        }
        line.push(c);
        if c == '\n' {
            let ghost before = lines.deep_view();
            lines.push(line);
            assert(lines.deep_view() =~= before.push(line@));
            line = String::new();
        }
        i += 1;
    }
    assert(v@.take(v.len() as int) =~= v@);
    if !line.as_str().is_empty() {
        let ghost before = lines.deep_view();
        lines.push(line);
        assert(lines.deep_view() =~= before.push(line@));
    }
    lines
}

/// Puts `lines` together as one text.
pub fn concat_lines(lines: &Vec<String>) -> (text: String)
    ensures
        text@ == join_lines(lines.deep_view()),
{
    let mut text = String::new();
    let mut i: usize = 0;
    while i < lines.len()
        invariant
            i <= lines.len(),
            text@ == join_lines(lines.deep_view().take(i as int)),
        decreases lines.len() - i,
    {
        proof {
            let t = lines.deep_view().take(i + 1);
            assert(t.drop_last() =~= lines.deep_view().take(i as int));
            assert(t.last() == lines[i as int]@);
        }
        text.append(lines[i].as_str());
        i += 1;
    }
    assert(lines.deep_view().take(lines.len() as int) =~= lines.deep_view());
    text
}

} // verus!
