//! Substring search: over plain byte sequences, and over a text read in
//! grapheme clusters.

use crate::segmentation::{
    byte_start_of, byte_starts, cluster_count, grapheme_clusters, lemma_byte_starts_increase,
    segmented,
};
use crate::text::as_ints;
use vstd::prelude::*;
use vstd::utf8::encode_utf8;

verus! {

/// The way a search walks through the text.
#[derive(Clone, Copy, Debug, PartialEq, Eq, Structural)]
pub enum SearchDirection {
    Forward,
    Backward,
}

/// `needle` stands in `hay` at index `i`.
pub open spec fn occurs_at(hay: Seq<u8>, needle: Seq<u8>, i: int) -> bool {
    &&& 0 <= i
    &&& i + needle.len() <= hay.len()
    &&& hay.subrange(i, i + needle.len()) == needle
}

/// `i` is the leftmost place at which `needle` stands in `hay`.
pub open spec fn is_first_occurrence(hay: Seq<u8>, needle: Seq<u8>, i: int) -> bool {
    &&& occurs_at(hay, needle, i)
    &&& forall|j: int| j < i ==> !occurs_at(hay, needle, j)
}

/// `i` is the rightmost place at which `needle` stands in `hay`.
pub open spec fn is_last_occurrence(hay: Seq<u8>, needle: Seq<u8>, i: int) -> bool {
    &&& occurs_at(hay, needle, i)
    &&& forall|j: int| i < j ==> !occurs_at(hay, needle, j)
}

/// The leftmost place at which `needle` stands in `hay`, if it stands there
/// at all.
pub open spec fn first_occurrence(hay: Seq<u8>, needle: Seq<u8>) -> Option<int> {
    if exists|i: int| is_first_occurrence(hay, needle, i) {
        Some(choose|i: int| is_first_occurrence(hay, needle, i))
    } else {
        None
    }
}

/// The rightmost place at which `needle` stands in `hay`, if it stands there
/// at all.
pub open spec fn last_occurrence(hay: Seq<u8>, needle: Seq<u8>) -> Option<int> {
    if exists|i: int| is_last_occurrence(hay, needle, i) {
        Some(choose|i: int| is_last_occurrence(hay, needle, i))
    } else {
        None
    }
}

/// A leftmost occurrence is the value of `first_occurrence`.
pub proof fn lemma_first_occurrence(hay: Seq<u8>, needle: Seq<u8>, i: int)
    requires
        is_first_occurrence(hay, needle, i),
    ensures
        first_occurrence(hay, needle) == Some(i),
{
    let k = choose|k: int| is_first_occurrence(hay, needle, k);
    assert(is_first_occurrence(hay, needle, k));
    if k < i {
        assert(!occurs_at(hay, needle, k));
    } else if i < k {
        assert(!occurs_at(hay, needle, i));
    }
}

/// A rightmost occurrence is the value of `last_occurrence`.
pub proof fn lemma_last_occurrence(hay: Seq<u8>, needle: Seq<u8>, i: int)
    requires
        is_last_occurrence(hay, needle, i),
    ensures
        last_occurrence(hay, needle) == Some(i),
{
    let k = choose|k: int| is_last_occurrence(hay, needle, k);
    assert(is_last_occurrence(hay, needle, k));
    if k < i {
        assert(!occurs_at(hay, needle, i));
    } else if i < k {
        assert(!occurs_at(hay, needle, k));
    }
}

/// Whether `needle` stands in `hay` at index `i`.
pub fn matches_at(hay: &[u8], needle: &[u8], i: usize) -> (b: bool)
    ensures
        b == occurs_at(hay@, needle@, i as int),
{
    if needle.len() > hay.len() || i > hay.len() - needle.len() {
        return false;
    }
    let mut j: usize = 0;
    while j < needle.len()
        invariant
            j <= needle.len(),
            i + needle.len() <= hay.len(),
            hay@.subrange(i as int, i + j) == needle@.take(j as int),
        decreases needle.len() - j,
    {
        if hay[i + j] != needle[j] {
            proof {
                let window = hay@.subrange(i as int, i + needle.len());
                assert(window[j as int] == hay@[i + j]);
            }
            return false;
        }
        proof {
            assert(hay@.subrange(i as int, i + j + 1) =~= hay@.subrange(i as int, i + j).push(
                hay@[i + j],
            ));
            assert(needle@.take(j + 1) =~= needle@.take(j as int).push(needle@[j as int]));
        }
        j += 1;
    }
    proof {
        assert(needle@.take(needle.len() as int) =~= needle@);
    }
    true
}

/// Searches `hay` from the left for `needle`.
pub fn find_first(hay: &[u8], needle: &[u8]) -> (r: Option<usize>)
    ensures
        match r {
            Some(i) => first_occurrence(hay@, needle@) == Some(i as int) && is_first_occurrence(
                hay@,
                needle@,
                i as int,
            ),
            None => first_occurrence(hay@, needle@) is None && forall|j: int|
                !occurs_at(hay@, needle@, j),
        },
{
    if needle.len() > hay.len() {
        return None;
    }
    let last: usize = hay.len() - needle.len();
    let mut i: usize = 0;
    loop
        invariant
            i <= last,
            last == hay.len() - needle.len(),
            forall|j: int| j < i ==> !occurs_at(hay@, needle@, j),
        decreases last - i,
    {
        if matches_at(hay, needle, i) {
            proof {
                lemma_first_occurrence(hay@, needle@, i as int);
            }
            return Some(i);
        }
        if i == last {
            return None;
        }
        i += 1;
    }
}

/// Searches `hay` from the right for `needle`.
pub fn find_last(hay: &[u8], needle: &[u8]) -> (r: Option<usize>)
    ensures
        match r {
            Some(i) => last_occurrence(hay@, needle@) == Some(i as int) && is_last_occurrence(
                hay@,
                needle@,
                i as int,
            ),
            None => last_occurrence(hay@, needle@) is None && forall|j: int|
                !occurs_at(hay@, needle@, j),
        },
{
    if needle.len() > hay.len() {
        return None;
    }
    let mut i: usize = hay.len() - needle.len();
    loop
        invariant
            i + needle.len() <= hay.len(),
            forall|j: int| i < j ==> !occurs_at(hay@, needle@, j),
        decreases i,
    {
        if matches_at(hay, needle, i) {
            proof {
                lemma_last_occurrence(hay@, needle@, i as int);
            }
            return Some(i);
        }
        if i == 0 {
            return None;
        }
        i -= 1;
    }
}

/// The first place in `offsets` that holds `offset`.
pub fn position_of(offsets: &Vec<usize>, offset: usize) -> (r: Option<usize>)
    ensures
        match r {
            Some(g) => {
                &&& as_ints(offsets@).index_of_first(offset as int) == Some(g as int)
                &&& g < offsets@.len()
                &&& offsets@[g as int] == offset
            },
            None => as_ints(offsets@).index_of_first(offset as int) is None,
        },
{
    let ghost all = as_ints(offsets@);
    let mut g: usize = 0;
    while g < offsets.len()
        invariant
            g <= offsets.len(),
            all == as_ints(offsets@),
            forall|h: int| 0 <= h < g ==> all[h] != offset,
        decreases offsets.len() - g,
    {
        assert(all[g as int] == offsets@[g as int]);
        if offsets[g] == offset {
            proof {
                all.index_of_first_ensures(offset as int);
                assert(all.contains(offset as int));
            }
            return Some(g);
        }
        g += 1;
    }
    proof {
        all.index_of_first_ensures(offset as int);
    }
    None
}

/// Where a search for `query` that starts at cluster `at` of `text` comes
/// out, as the index of a cluster of `text`.
///
/// An empty query and an `at` beyond the number of clusters find nothing.
/// The search window is the clusters from `at` to the end (forward) or the
/// clusters before `at` (backward), joined. The search goes over the UTF-8
/// bytes of window and query and takes the leftmost (forward) or rightmost
/// (backward) place at which the query stands. That place counts only if a
/// cluster of the window, segmented on its own, starts at that byte; the
/// first such cluster is the one found.
pub open spec fn find_in(
    text: Seq<char>,
    query: Seq<char>,
    at: int,
    direction: SearchDirection,
) -> Option<int> {
    let clusters = grapheme_clusters(text);
    if at < 0 || at > clusters.len() || query.len() == 0 {
        None
    } else {
        let start = if direction == SearchDirection::Forward { at } else { 0 };
        let end = if direction == SearchDirection::Forward { clusters.len() as int } else { at };
        let window = clusters.subrange(start, end).flatten();
        let hit = if direction == SearchDirection::Forward {
            first_occurrence(encode_utf8(window), encode_utf8(query))
        } else {
            last_occurrence(encode_utf8(window), encode_utf8(query))
        };
        match hit {
            Some(offset) => match byte_starts(grapheme_clusters(window)).index_of_first(offset) {
                Some(g) => Some(start + g),
                None => None,
            },
            None => None,
        }
    }
}

/// A match lies in the window that was searched: at or behind the cluster a
/// forward search began at, and the search began at a cluster of the text or
/// at its end, with a query that is not empty.
pub proof fn lemma_find_in_bounds(
    text: Seq<char>,
    query: Seq<char>,
    at: int,
    direction: SearchDirection,
)
    ensures
        match find_in(text, query, at, direction) {
            Some(m) => {
                &&& 0 <= at <= cluster_count(text)
                &&& query.len() > 0
                &&& 0 <= m
                &&& direction == SearchDirection::Forward ==> at <= m
            },
            None => true,
        },
{
    if let Some(m) = find_in(text, query, at, direction) {
        let clusters = grapheme_clusters(text);
        let start = if direction == SearchDirection::Forward { at } else { 0 };
        let end = if direction == SearchDirection::Forward { clusters.len() as int } else { at };
        let window = clusters.subrange(start, end).flatten();
        let hit = if direction == SearchDirection::Forward {
            first_occurrence(encode_utf8(window), encode_utf8(query))
        } else {
            last_occurrence(encode_utf8(window), encode_utf8(query))
        };
        byte_starts(grapheme_clusters(window)).index_of_first_ensures(hit->0);
    }
}

/// A query whose bytes a text holds exactly once, from the first byte of one
/// of its clusters on, is found at that cluster: by a forward search from
/// the start of the text, and by a backward search from its end.
pub proof fn single_occurrence_is_found(text: Seq<char>, query: Seq<char>, offset: int, g: int)
    requires
        segmented(text),
        query.len() > 0,
        occurs_at(encode_utf8(text), encode_utf8(query), offset),
        forall|j: int| occurs_at(encode_utf8(text), encode_utf8(query), j) ==> j == offset,
        0 <= g < cluster_count(text),
        byte_start_of(grapheme_clusters(text), g) == offset,
    ensures
        find_in(text, query, 0, SearchDirection::Forward) == Some(g),
        find_in(text, query, cluster_count(text) as int, SearchDirection::Backward) == Some(g),
{
    let clusters = grapheme_clusters(text);
    let starts = byte_starts(clusters);
    assert(clusters.subrange(0, clusters.len() as int) =~= clusters);
    lemma_first_occurrence(encode_utf8(text), encode_utf8(query), offset);
    lemma_last_occurrence(encode_utf8(text), encode_utf8(query), offset);
    starts.index_of_first_ensures(offset);
    assert(starts[g] == offset);
    assert(starts.contains(offset));
    let first = starts.index_of_first(offset)->0;
    if first < g {
        lemma_byte_starts_increase(clusters, first, g);
    }
}

} // verus!
