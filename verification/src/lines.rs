//! Text as a sequence of lines, and back.

use crate::text::{chars_of, string_of};
use vstd::prelude::*;

verus! {

/// The number of scalars of `s` in front of its first line feed; the length
/// of `s` where it holds none.
pub open spec fn line_end(s: Seq<char>) -> int
    decreases s.len(),
{
    if s.len() == 0 || s[0] == '\n' {
        0
    } else {
        1 + line_end(s.drop_first())
    }
}

/// `line` without the carriage return at its end, if it ends in one.
pub open spec fn without_return(line: Seq<char>) -> Seq<char> {
    if line.len() > 0 && line.last() == '\r' {
        line.drop_last()
    } else {
        line
    }
}

/// The lines of `s`. A line ends at a line feed, or at a carriage return
/// directly followed by a line feed; the line ending is no part of the
/// line. Text behind the last line feed is a line of its own, and a text
/// that ends in a line feed has no empty line at its end.
pub open spec fn lines_of(s: Seq<char>) -> Seq<Seq<char>>
    decreases s.len(),
    via lines_of_decreases
{
    if s.len() == 0 {
        Seq::empty()
    } else {
        let end = line_end(s);
        if end >= s.len() {
            seq![s]
        } else {
            seq![without_return(s.take(end))] + lines_of(s.skip(end + 1))
        }
    }
}

#[via_fn]
proof fn lines_of_decreases(s: Seq<char>) {
    lemma_line_end_bounds(s);
}

/// The text that holds `lines`, each followed by one line feed.
pub open spec fn saved_text(lines: Seq<Seq<char>>) -> Seq<char> {
    lines.map_values(|line: Seq<char>| line.push('\n')).flatten()
}

/// `line` holds no line feed.
pub open spec fn is_single_line(line: Seq<char>) -> bool {
    forall|k: int| 0 <= k < line.len() ==> line[k] != '\n'
}

/// `line` can be saved and loaded again as it is: it holds no line feed and
/// does not end in a carriage return.
pub open spec fn is_plain_line(line: Seq<char>) -> bool {
    &&& is_single_line(line)
    &&& !(line.len() > 0 && line.last() == '\r')
}

/// The first line of a text ends inside the text, at a line feed or at the
/// end, and holds no line feed.
pub proof fn lemma_line_end_bounds(s: Seq<char>)
    ensures
        0 <= line_end(s) <= s.len(),
        line_end(s) < s.len() ==> s[line_end(s)] == '\n',
        forall|k: int| 0 <= k < line_end(s) ==> s[k] != '\n',
    decreases s.len(),
{
    if s.len() == 0 || s[0] == '\n' {
    } else {
        let rest = s.drop_first();
        lemma_line_end_bounds(rest);
        assert forall|k: int| 0 <= k < line_end(s) implies s[k] != '\n' by {
            if k > 0 {
                assert(s[k] == rest[k - 1]);
            }
        }
    }
}

/// The first place that is a line feed or the end of the text is where the
/// first line ends.
pub proof fn lemma_line_end_is(s: Seq<char>, end: int)
    requires
        0 <= end <= s.len(),
        forall|k: int| 0 <= k < end ==> s[k] != '\n',
        end < s.len() ==> s[end] == '\n',
    ensures
        line_end(s) == end,
{
    lemma_line_end_bounds(s);
    let e = line_end(s);
    if e < end {
        assert(s[e] != '\n');
    } else if end < e {
        assert(s[end] != '\n');
    }
}

/// Splits `contents` into its lines.
pub fn split_lines(contents: &str) -> (lines: Vec<String>)
    ensures
        lines.deep_view() == lines_of(contents@),
{
    let chars = chars_of(contents);
    let mut lines: Vec<String> = Vec::new();
    let mut from: usize = 0;
    let ghost all = chars@;
    proof {
        assert(all.skip(0) =~= all);
        assert(lines.deep_view() + lines_of(all) =~= lines_of(all));
    }
    while from < chars.len()
        invariant
            from <= chars.len(),
            all == chars@,
            all == contents@,
            lines.deep_view() + lines_of(all.skip(from as int)) == lines_of(all),
        decreases chars.len() - from,
    {
        let ghost rest = all.skip(from as int);
        let ghost done = lines.deep_view();
        let mut end: usize = from;
        while end < chars.len() && chars[end] != '\n'
            invariant
                from <= end <= chars.len(),
                forall|k: int| from <= k < end ==> chars@[k] != '\n',
            decreases chars.len() - end,
        {
            end += 1;
        }
        proof {
            lemma_line_end_is(rest, end - from);
        }
        if end == chars.len() {
            let line = string_of(&chars, from, end);
            lines.push(line);
            proof {
                assert(all.subrange(from as int, end as int) =~= rest);
                assert(lines.deep_view() =~= done.push(rest));
                assert(done.push(rest) =~= done + seq![rest]);
                assert(all.skip(end as int) =~= Seq::<char>::empty());
                assert(lines.deep_view() + lines_of(all.skip(end as int)) =~= lines.deep_view());
            }
            from = end;
        } else {
            let stop = if end > from && chars[end - 1] == '\r' {
                end - 1
            } else {
                end
            };
            let line = string_of(&chars, from, stop);
            lines.push(line);
            proof {
                let first = rest.take(end - from);
                assert(first =~= all.subrange(from as int, end as int));
                assert(line@ =~= without_return(first));
                assert(rest.skip(end - from + 1) =~= all.skip(end + 1));
                assert(lines.deep_view() =~= done.push(line@));
                assert(done + (seq![line@] + lines_of(all.skip(end + 1))) =~= done.push(line@)
                    + lines_of(all.skip(end + 1)));
            }
            from = end + 1;
        }
    }
    proof {
        assert(all.skip(from as int) =~= Seq::<char>::empty());
        assert(lines.deep_view() + Seq::<Seq<char>>::empty() =~= lines.deep_view());
    }
    lines
}

/// One more line adds itself and a line feed to the saved text.
pub proof fn lemma_saved_text_push(lines: Seq<Seq<char>>, line: Seq<char>)
    ensures
        saved_text(lines.push(line)) == saved_text(lines) + line.push('\n'),
{
    let ended = |line: Seq<char>| line.push('\n');
    assert(lines.push(line).map_values(ended) =~= lines.map_values(ended).push(line.push('\n')));
    lines.map_values(ended).lemma_flatten_push(line.push('\n'));
}

/// No line of a text holds a line feed.
pub proof fn lemma_lines_are_single(s: Seq<char>)
    ensures
        forall|i: int| 0 <= i < lines_of(s).len() ==> is_single_line(#[trigger] lines_of(s)[i]),
    decreases s.len(),
{
    if s.len() > 0 {
        lemma_line_end_bounds(s);
        let end = line_end(s);
        if end < s.len() {
            let rest = lines_of(s.skip(end + 1));
            lemma_lines_are_single(s.skip(end + 1));
            assert forall|i: int| 0 <= i < lines_of(s).len() implies is_single_line(
                #[trigger] lines_of(s)[i],
            ) by {
                if i > 0 {
                    assert(lines_of(s)[i] == rest[i - 1]);
                }
            }
        }
    }
}

/// Lines that hold no line feed and do not end in a carriage return come
/// back unchanged when the text that was saved from them is split again.
pub proof fn saved_lines_load_unchanged(lines: Seq<Seq<char>>)
    requires
        forall|i: int| 0 <= i < lines.len() ==> is_plain_line(#[trigger] lines[i]),
    ensures
        lines_of(saved_text(lines)) == lines,
    decreases lines.len(),
{
    let ended = |line: Seq<char>| line.push('\n');
    if lines.len() == 0 {
        assert(saved_text(lines) =~= Seq::<char>::empty());
    } else {
        let first = lines.first();
        let rest = lines.drop_first();
        assert forall|i: int| 0 <= i < rest.len() implies is_plain_line(#[trigger] rest[i]) by {
            assert(rest[i] == lines[i + 1]);
        }
        saved_lines_load_unchanged(rest);
        let text = saved_text(lines);
        assert(lines.map_values(ended).drop_first() =~= rest.map_values(ended));
        assert(text == first.push('\n') + saved_text(rest));
        assert(is_plain_line(first));
        lemma_line_end_is(text, first.len() as int);
        assert(text.take(first.len() as int) =~= first);
        assert(text.skip(first.len() as int + 1) =~= saved_text(rest));
        assert(lines_of(text) == seq![first] + rest);
        assert(seq![first] + rest =~= lines);
    }
}

/// Saving the lines of a text and splitting what was saved gives the same
/// lines again, unless one of them still ends in a carriage return.
pub proof fn reload_restores_lines(contents: Seq<char>)
    requires
        forall|i: int|
            0 <= i < lines_of(contents).len() ==> !((#[trigger] lines_of(contents)[i]).len() > 0
                && lines_of(contents)[i].last() == '\r'),
    ensures
        lines_of(saved_text(lines_of(contents))) == lines_of(contents),
{
    lemma_lines_are_single(contents);
    saved_lines_load_unchanged(lines_of(contents));
}

} // verus!
