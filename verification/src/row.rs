//! One line of a document.

use crate::editing::{clusters_before, clusters_from, deleted, inserted};
use crate::highlighting::{classify, highlighted, match_starts, Type};
use crate::render::{render_clusters, rendered_from};
use crate::search::{
    find_first, find_in, find_last, lemma_find_in_bounds, position_of, SearchDirection,
};
use crate::segmentation::{
    byte_starts, cluster_count, cluster_offsets_of, clusters_of, grapheme_clusters,
    is_separable_ascii, lemma_flatten_split, lemma_pieces_bounded, segmented,
};
use crate::text::{as_ints, join_range, lemma_encoding_no_shorter, lemma_encoding_of_joined};
use vstd::utf8::encode_utf8;
use vstd::prelude::*;
use vstd::std_specs::convert::FromSpecImpl;
use vstd::string::StringExecFns;

verus! {

/// One line of text, its highlighting, and the cached number of its grapheme
/// clusters.
pub struct Row {
    string: String,
    highlighting: Vec<Type>,
    len: usize,
}

/// What a [`Row`] stands for: its scalars, and the highlight classes last
/// computed for it.
pub struct RowView {
    pub text: Seq<char>,
    pub highlighting: Seq<Type>,
}

impl View for Row {
    type V = RowView;

    closed spec fn view(&self) -> RowView {
        RowView { text: self.string@, highlighting: self.highlighting@ }
    }
}

/// The display text of clusters `start` up to `end` of a row. `end` is first
/// cut down to the number of bytes of the text, then `start` to `end`.
pub open spec fn rendered(row: RowView, start: int, end: int) -> Seq<char> {
    let bytes = encode_utf8(row.text).len() as int;
    let end = if end <= bytes { end } else { bytes };
    let start = if start <= end { start } else { end };
    rendered_from(grapheme_clusters(row.text), row.highlighting, start, end, Type::Plain)
}

impl Default for Row {
    /// An empty row, not yet highlighted.
    fn default() -> (row: Row)
        ensures
            row@.text == Seq::<char>::empty(),
            row@.highlighting == Seq::<Type>::empty(),
            segmented(row@.text),
    {
        proof {
            reveal_strlit("");
        }
        Row::from("")
    }
}

impl From<&str> for Row {
    /// A row that holds `slice`, not yet highlighted.
    fn from(slice: &str) -> (row: Row)
        ensures
            row@.text == slice@,
            row@.highlighting == Seq::<Type>::empty(),
            segmented(row@.text),
    {
        let clusters = clusters_of(slice);
        Row { string: slice.to_owned(), highlighting: Vec::new(), len: clusters.len() }
    }
}

impl FromSpecImpl<&str> for Row {
    open spec fn obeys_from_spec() -> bool {
        false
    }

    open spec fn from_spec(v: &str) -> Row {
        arbitrary()
    }
}

impl Row {
    #[verifier::type_invariant]
    spec fn cache_is_current(self) -> bool {
        &&& self.len == cluster_count(self.string@)
        &&& segmented(self.string@)
    }

    /// The text to display for clusters `start` up to `end`, with a colour
    /// sequence wherever the highlight class changes and the reset sequence
    /// at the end. A range that reaches past the row is cut down to it.
    pub fn render(&self, start: usize, end: usize) -> (out: String)
        ensures
            out@ == rendered(self@, start as int, end as int),
    {
        let clusters = clusters_of(self.string.as_str());
        let bytes = self.string.as_str().as_bytes().len();
        let end = if end <= bytes { end } else { bytes };
        let start = if start <= end { start } else { end };
        render_clusters(&clusters, &self.highlighting, start, end)
    }

    /// The number of grapheme clusters in the row. In ASCII text that is the
    /// number of characters, unless a carriage return stands directly before
    /// a line feed. The clusters of a row always join to its text, none of
    /// them empty.
    pub fn len(&self) -> (n: usize)
        ensures
            n == cluster_count(self@.text),
            is_separable_ascii(self@.text) ==> n == self@.text.len(),
            segmented(self@.text),
    {
        proof {
            use_type_invariant(self);
        }
        self.len
    }

    /// Whether the row holds no text.
    pub fn is_empty(&self) -> (b: bool)
        ensures
            b == (self@.text.len() == 0),
    {
        self.string.as_str().is_empty()
    }

    /// The highlight classes of the row, as last computed.
    pub fn highlighting(&self) -> (classes: &Vec<Type>)
        ensures
            classes@ == self@.highlighting,
    {
        &self.highlighting
    }

    /// The row's text. Its clusters join to it, none of them empty.
    pub fn as_str(&self) -> (text: &str)
        ensures
            text@ == self@.text,
            segmented(self@.text),
    {
        proof {
            use_type_invariant(self);
        }
        self.string.as_str()
    }

    /// The UTF-8 encoding of the row's text.
    pub fn as_bytes(&self) -> (bytes: &[u8])
        ensures
            bytes@ == encode_utf8(self@.text),
    {
        self.string.as_str().as_bytes()
    }

    /// Replaces the text and counts its clusters anew; the highlighting
    /// stays as it is.
    fn update_len(&mut self, string: String)
        ensures
            final(self)@.text == string@,
            final(self)@.highlighting == old(self)@.highlighting,
    {
        let clusters = clusters_of(string.as_str());
        let mut highlighting: Vec<Type> = Vec::new();
        proof {
            use_type_invariant(&*self);
        }
        core::mem::swap(&mut highlighting, &mut self.highlighting);
        *self = Row { string, highlighting, len: clusters.len() };
    }

    /// Puts `c` in front of the cluster at index `at`, or at the end of the
    /// row where `at` is no index of a cluster. The highlighting is left as
    /// it is.
    pub fn insert(&mut self, at: usize, c: char)
        ensures
            final(self)@.text == inserted(old(self)@.text, at as nat, c),
            final(self)@.highlighting == old(self)@.highlighting,
    {
        proof {
            use_type_invariant(&*self);
        }
        let mut result: String;
        if at >= self.len {
            result = self.string.clone();
            result.push(c);
        } else {
            let clusters = clusters_of(self.string.as_str());
            result = join_range(&clusters, 0, at);
            let remainder = join_range(&clusters, at, clusters.len());
            result.push(c);
            result.append(remainder.as_str());
            proof {
                let all = clusters.deep_view();
                assert(all.subrange(0, at as int) == all.take(at as int));
                assert(all.subrange(at as int, all.len() as int) == all.skip(at as int));
            }
        }
        self.update_len(result);
    }

    /// Removes the cluster at index `at`; does nothing where there is none.
    /// The highlighting is left as it is.
    pub fn delete(&mut self, at: usize)
        ensures
            final(self)@.text == deleted(old(self)@.text, at as nat),
            final(self)@.highlighting == old(self)@.highlighting,
    {
        proof {
            use_type_invariant(&*self);
        }
        if at >= self.len {
            return ;
        }
        let clusters = clusters_of(self.string.as_str());
        let mut result = join_range(&clusters, 0, at);
        let remainder = join_range(&clusters, at + 1, clusters.len());
        result.append(remainder.as_str());
        proof {
            let all = clusters.deep_view();
            assert(all.subrange(0, at as int) == all.take(at as int));
            assert(all.subrange(at + 1, all.len() as int) == all.skip(at + 1));
            if at + 1 >= all.len() {
                assert(all.skip(at + 1) =~= Seq::<Seq<char>>::empty());
            }
        }
        self.update_len(result);
    }

    /// Joins the text of `new` to the end of this row. The highlighting is
    /// left as it is.
    pub fn append(&mut self, new: &Row)
        ensures
            final(self)@.text == old(self)@.text + new@.text,
            final(self)@.highlighting == old(self)@.highlighting,
    {
        let mut result = self.string.clone();
        result.append(new.string.as_str());
        self.update_len(result);
    }

    /// The starts of the occurrences of `word` in the row, scanned from the
    /// left, each search resuming behind the occurrence found before.
    fn occurrences(&self, word: &str, width: usize) -> (matches: Vec<usize>)
        requires
            width == cluster_count(word@),
            segmented(word@),
        ensures
            as_ints(matches@) == match_starts(self@.text, word@, 0),
    {
        let mut matches: Vec<usize> = Vec::new();
        let mut search_index: usize = 0;
        let ghost text = self@.text;
        loop
            invariant_except_break
                match_starts(text, word@, 0) == as_ints(matches@) + match_starts(
                    text,
                    word@,
                    search_index as int,
                ),
            invariant
                text == self@.text,
                width == cluster_count(word@),
                segmented(word@),
            ensures
                match_starts(text, word@, 0) == as_ints(matches@),
            decreases
                (if search_index <= cluster_count(text) {
                    cluster_count(text) + 1 - search_index
                } else {
                    0
                }),
        {
            let ghost found = as_ints(matches@);
            proof {
                use_type_invariant(self);
                lemma_find_in_bounds(text, word@, search_index as int, SearchDirection::Forward);
            }
            match self.find(word, search_index, SearchDirection::Forward) {
                Some(search_match) => {
                    matches.push(search_match);
                    proof {
                        assert(width > 0) by {
                            if grapheme_clusters(word@).len() == 0 {
                                assert(grapheme_clusters(word@).flatten() =~= Seq::<char>::empty());
                            }
                        }
                        let rest = match_starts(text, word@, search_match + width);
                        assert(as_ints(matches@) =~= found.push(search_match as int));
                        assert(found + (seq![search_match as int] + rest) =~= found.push(
                            search_match as int,
                        ) + rest);
                    }
                    match search_match.checked_add(width) {
                        Some(next_index) => {
                            search_index = next_index;
                        },
                        None => {
                            proof {
                                let rest = match_starts(text, word@, search_match + width);
                                assert(rest =~= Seq::<int>::empty());
                                assert(as_ints(matches@) + rest =~= as_ints(matches@));
                            }
                            break ;
                        },
                    }
                },
                None => {
                    proof {
                        assert(found + Seq::<int>::empty() =~= found);
                    }
                    break ;
                },
            }
        }
        matches
    }

    /// Computes the highlighting anew, with one class per cluster. The
    /// occurrences of `word` are recorded from the left, never overlapping;
    /// their clusters are search matches, and of the other clusters those
    /// that begin with an ASCII digit are numbers.
    pub fn highlight(&mut self, word: Option<&str>)
        ensures
            final(self)@.text == old(self)@.text,
            final(self)@.highlighting == highlighted(old(self)@.text, word.deep_view()),
            final(self)@.highlighting.len() == cluster_count(old(self)@.text),
    {
        let clusters = clusters_of(self.string.as_str());
        let mut matches: Vec<usize> = Vec::new();
        let mut width: usize = 0;
        if let Some(word) = word {
            width = clusters_of(word).len();
            matches = self.occurrences(word, width);
        } else {
            assert(as_ints(matches@) =~= Seq::<int>::empty());
        }
        let highlighting = classify(&clusters, &matches, width);
        proof {
            use_type_invariant(&*self);
        }
        self.highlighting = highlighting;
    }

    /// Keeps the first `at` clusters and hands the rest out as a row of its
    /// own, not yet highlighted. The highlighting of this row is left as it
    /// is.
    pub fn split(&mut self, at: usize) -> (rest: Row)
        ensures
            final(self)@.text == clusters_before(old(self)@.text, at as nat),
            final(self)@.highlighting == old(self)@.highlighting,
            rest@.text == clusters_from(old(self)@.text, at as nat),
            rest@.highlighting == Seq::<Type>::empty(),
    {
        let clusters = clusters_of(self.string.as_str());
        let cut = if at < clusters.len() {
            at
        } else {
            clusters.len()
        };
        let beginning = join_range(&clusters, 0, cut);
        let remainder = join_range(&clusters, cut, clusters.len());
        proof {
            let all = clusters.deep_view();
            assert(all.subrange(0, cut as int) == all.take(cut as int));
            assert(all.subrange(cut as int, all.len() as int) == all.skip(cut as int));
            assert(all.take(all.len() as int) == all);
            assert(all.skip(all.len() as int).flatten() == Seq::<char>::empty());
        }
        self.update_len(beginning);
        Row::from(remainder.as_str())
    }

    /// Searches the row for `query`, forward from cluster `at` to the end or
    /// backward through the clusters before `at`, and gives the index of the
    /// cluster at which the match starts. An empty query, an `at` beyond the
    /// end of the row, and a match that starts inside a cluster find
    /// nothing.
    #[allow(unused_variables)]
    pub fn find(&self, query: &str, at: usize, direction: SearchDirection) -> (r: Option<usize>)
        ensures
            match r {
                Some(g) => find_in(self@.text, query@, at as int, direction) == Some(g as int),
                None => find_in(self@.text, query@, at as int, direction) is None,
            },
    {
        proof {
            use_type_invariant(self);
        }
        if at > self.len || query.is_empty() {
            return None;
        }
        let clusters = clusters_of(self.string.as_str());
        let start = match direction {
            SearchDirection::Forward => at,
            SearchDirection::Backward => 0,
        };
        let end = match direction {
            SearchDirection::Forward => self.len,
            SearchDirection::Backward => at,
        };
        let substring = join_range(&clusters, start, end);
        let hay = substring.as_str().as_bytes();
        let needle = query.as_bytes();
        let hit = match direction {
            SearchDirection::Forward => find_first(hay, needle),
            SearchDirection::Backward => find_last(hay, needle),
        };
        let offset = match hit {
            Some(offset) => offset,
            None => {
                return None;
            },
        };
        let offsets = cluster_offsets_of(substring.as_str());
        proof {
            assert(as_ints(offsets@) =~= byte_starts(grapheme_clusters(substring@)));
        }
        match position_of(&offsets, offset) {
            Some(g) => {
                let limit = self.string.as_str().as_bytes().len();
                // The window's own clusters bound the index that was found.
                let pieces = clusters_of(substring.as_str());
                proof {
                    let all = clusters.deep_view();
                    let head = all.take(start as int);
                    let rest = all.skip(end as int);
                    let sub = pieces.deep_view();
                    assert forall|i: int| 0 <= i < g implies (#[trigger] sub.take(
                        g as int,
                    )[i]).len() > 0 by {
                        assert(sub.take(g as int)[i] == sub[i]);
                    }
                    lemma_pieces_bounded(sub.take(g as int));
                    lemma_encoding_no_shorter(sub.take(g as int).flatten());
                    assert forall|i: int| 0 <= i < start implies (#[trigger] head[i]).len() > 0 by {
                        assert(head[i] == all[i]);
                    }
                    lemma_pieces_bounded(head);
                    lemma_encoding_no_shorter(head.flatten());
                    lemma_flatten_split(all, start as int);
                    lemma_flatten_split(all.skip(start as int), end - start);
                    assert(all.skip(start as int).take(end - start) == all.subrange(
                        start as int,
                        end as int,
                    ));
                    assert(all.skip(start as int).skip(end - start) == rest);
                    lemma_encoding_of_joined(head.flatten(), substring@ + rest.flatten());
                    lemma_encoding_of_joined(substring@, rest.flatten());
                    assert(g <= offset <= hay@.len());
                    assert(start <= encode_utf8(head.flatten()).len());
                    assert(encode_utf8(head.flatten()).len() + hay@.len() <= limit);
                }
                Some(start + g)
            },
            None => None,
        }
    }
}

} // verus!
