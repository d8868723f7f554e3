//! Highlight classes: what they are, and how the clusters of a line come by
//! them.

use crate::search::{find_in, lemma_find_in_bounds, SearchDirection};
use crate::segmentation::{cluster_count, grapheme_clusters};
use crate::text::as_ints;
use vstd::prelude::*;
use vstd::string::StrSliceExecFns;

verus! {

/// A 24-bit colour.
#[derive(Clone, Copy, Debug, PartialEq, Eq, Structural)]
pub struct Rgb {
    pub r: u8,
    pub g: u8,
    pub b: u8,
}

/// How one grapheme cluster of a line is drawn.
#[derive(Clone, Copy, Debug, PartialEq, Eq, Structural)]
pub enum Type {
    /// Ordinary text.
    Plain,
    /// A cluster that begins with an ASCII digit.
    Number,
    /// A cluster inside an occurrence of the search word.
    Search,
}

impl Type {
    /// The colour of this class.
    pub open spec fn color(self) -> Rgb {
        match self {
            Type::Number => (Rgb { r: 220, g: 163, b: 163 }),
            Type::Search => (Rgb { r: 38, g: 139, b: 210 }),
            Type::Plain => (Rgb { r: 255, g: 255, b: 255 }),
        }
    }

    /// The colour in which a cluster of this class is drawn.
    pub fn to_color(&self) -> (c: Rgb)
        ensures
            c == self.color(),
    {
        match self {
            Type::Number => Rgb { r: 220, g: 163, b: 163 },
            Type::Search => Rgb { r: 38, g: 139, b: 210 },
            Type::Plain => Rgb { r: 255, g: 255, b: 255 },
        }
    }
}

/// The class of a cluster that no search match covers: a number where its
/// first scalar is an ASCII digit, plain text otherwise.
pub open spec fn class_of(cluster: Seq<char>) -> Type {
    if cluster.len() > 0 && '0' <= cluster[0] && cluster[0] <= '9' {
        Type::Number
    } else {
        Type::Plain
    }
}

/// Cluster `i` lies inside one of the occurrences that start at `starts` and
/// are `width` clusters wide.
pub open spec fn is_covered(starts: Seq<int>, width: int, i: int) -> bool {
    exists|j: int| 0 <= j < starts.len() && (#[trigger] starts[j]) <= i < starts[j] + width
}

/// One class for each of `clusters`: a search match where an occurrence
/// covers the cluster, the cluster's own class otherwise.
pub open spec fn classified(clusters: Seq<Seq<char>>, starts: Seq<int>, width: int) -> Seq<Type> {
    Seq::new(
        clusters.len(),
        |i: int|
            if is_covered(starts, width, i) {
                Type::Search
            } else {
                class_of(clusters[i])
            },
    )
}

/// The clusters at which the occurrences of `word` start that a scan of
/// `text` records from cluster `from` on: the first one that a forward search
/// from `from` finds, then those recorded from behind the clusters it
/// covers.
pub open spec fn match_starts(text: Seq<char>, word: Seq<char>, from: int) -> Seq<int>
    decreases
        (if from <= cluster_count(text) {
            cluster_count(text) + 1 - from
        } else {
            0
        }),
    via match_starts_decreases
{
    let width = cluster_count(word);
    match find_in(text, word, from, SearchDirection::Forward) {
        Some(m) => if width > 0 {
            seq![m] + match_starts(text, word, m + width)
        } else {
            seq![m]
        },
        None => Seq::empty(),
    }
}

#[via_fn]
proof fn match_starts_decreases(text: Seq<char>, word: Seq<char>, from: int) {
    lemma_find_in_bounds(text, word, from, SearchDirection::Forward);
}

/// The highlighting of `text`, one class per cluster: the clusters of every
/// recorded occurrence of `word` are search matches, any other cluster goes
/// by its first scalar.
pub open spec fn highlighted(text: Seq<char>, word: Option<Seq<char>>) -> Seq<Type> {
    match word {
        Some(word) => classified(
            grapheme_clusters(text),
            match_starts(text, word, 0),
            cluster_count(word) as int,
        ),
        None => classified(grapheme_clusters(text), Seq::empty(), 0),
    }
}

/// Recorded occurrences start at or behind the cluster the scan began at,
/// come in rising order, and do not overlap.
pub proof fn occurrences_do_not_overlap(text: Seq<char>, word: Seq<char>, from: int)
    ensures
        forall|j: int|
            0 <= j < match_starts(text, word, from).len() ==> from <= #[trigger] match_starts(
                text,
                word,
                from,
            )[j],
        forall|j: int, k: int|
            0 <= j < k < match_starts(text, word, from).len() ==> (#[trigger] match_starts(
                text,
                word,
                from,
            )[j]) + cluster_count(word) <= #[trigger] match_starts(text, word, from)[k],
    decreases
        (if from <= cluster_count(text) {
            cluster_count(text) + 1 - from
        } else {
            0
        }),
{
    let width = cluster_count(word);
    lemma_find_in_bounds(text, word, from, SearchDirection::Forward);
    if let Some(m) = find_in(text, word, from, SearchDirection::Forward) {
        if width > 0 {
            occurrences_do_not_overlap(text, word, m + width);
            let rest = match_starts(text, word, m + width);
            let all = match_starts(text, word, from);
            assert(all == seq![m] + rest);
            assert forall|j: int| 0 <= j < all.len() implies from <= #[trigger] all[j] by {
                if j > 0 {
                    assert(all[j] == rest[j - 1]);
                }
            }
            assert forall|j: int, k: int| 0 <= j < k < all.len() implies (#[trigger] all[j])
                + width <= #[trigger] all[k] by {
                assert(all[k] == rest[k - 1]);
                if j > 0 {
                    assert(all[j] == rest[j - 1]);
                }
            }
        }
    }
}

/// Whether one of the occurrences that start at `matches` and are `width`
/// clusters wide covers cluster `index`.
pub fn covers(matches: &Vec<usize>, width: usize, index: usize) -> (b: bool)
    ensures
        b == is_covered(as_ints(matches@), width as int, index as int),
{
    let ghost starts = as_ints(matches@);
    let mut j: usize = 0;
    while j < matches.len()
        invariant
            j <= matches.len(),
            starts == as_ints(matches@),
            forall|k: int| 0 <= k < j ==> !((#[trigger] starts[k]) <= index < starts[k] + width),
        decreases matches.len() - j,
    {
        let start = matches[j];
        assert(starts[j as int] == start);
        if start <= index && index - start < width {
            return true;
        }
        j += 1;
    }
    false
}

/// Gives each of `clusters` its class: a search match where one of the
/// occurrences that start at `matches` and are `width` clusters wide covers
/// it, a number where it begins with an ASCII digit, plain text otherwise.
pub fn classify(clusters: &Vec<String>, matches: &Vec<usize>, width: usize) -> (classes: Vec<Type>)
    ensures
        classes@ == classified(clusters.deep_view(), as_ints(matches@), width as int),
{
    let ghost wanted = classified(clusters.deep_view(), as_ints(matches@), width as int);
    let mut classes: Vec<Type> = Vec::new();
    let mut index: usize = 0;
    while index < clusters.len()
        invariant
            index <= clusters.len(),
            wanted == classified(clusters.deep_view(), as_ints(matches@), width as int),
            classes@ == wanted.take(index as int),
        decreases clusters.len() - index,
    {
        assert(clusters.deep_view()[index as int] == clusters[index as int]@);
        let class = if covers(matches, width, index) {
            Type::Search
        } else {
            let cluster = clusters[index].as_str();
            if cluster.is_empty() {
                Type::Plain
            } else {
                let c = cluster.get_char(0);
                if '0' <= c && c <= '9' {
                    Type::Number
                } else {
                    Type::Plain
                }
            }
        };
        classes.push(class);
        assert(wanted.take(index + 1) =~= wanted.take(index as int).push(wanted[index as int]));
        index += 1;
    }
    assert(wanted.take(clusters.len() as int) =~= wanted);
    classes
}

} // verus!
