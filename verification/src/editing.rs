//! What the edits of a line do to its text, cluster by cluster.

use crate::segmentation::{
    cluster_count, grapheme_clusters, is_separable_ascii, lemma_flatten_split,
    lemma_one_scalar_each, segmented, start_of,
};
use vstd::prelude::*;

verus! {

/// The first `at` clusters of `text`, joined; all of `text` where it has no
/// more than `at` clusters.
pub open spec fn clusters_before(text: Seq<char>, at: nat) -> Seq<char> {
    let clusters = grapheme_clusters(text);
    if at >= clusters.len() {
        text
    } else {
        clusters.take(at as int).flatten()
    }
}

/// The clusters of `text` from index `at` on, joined; nothing where `text` has
/// no more than `at`.
pub open spec fn clusters_from(text: Seq<char>, at: nat) -> Seq<char> {
    let clusters = grapheme_clusters(text);
    if at >= clusters.len() {
        Seq::empty()
    } else {
        clusters.skip(at as int).flatten()
    }
}

/// `text` with `c` put in front of cluster `at`, or at the end where there is
/// no such cluster.
pub open spec fn inserted(text: Seq<char>, at: nat, c: char) -> Seq<char> {
    if at >= cluster_count(text) {
        text.push(c)
    } else {
        clusters_before(text, at).push(c) + clusters_from(text, at)
    }
}

/// `text` without cluster `at`; `text` itself where there is no such cluster.
pub open spec fn deleted(text: Seq<char>, at: nat) -> Seq<char> {
    if at >= cluster_count(text) {
        text
    } else {
        clusters_before(text, at) + clusters_from(text, at + 1)
    }
}

/// In the text that `inserted(text, at, c)` gives, the scalar `c` is a
/// cluster of its own and the cluster at index `at`, in the place where it
/// was put.
pub open spec fn stands_alone(text: Seq<char>, at: nat, c: char) -> bool {
    let clusters = grapheme_clusters(inserted(text, at, c));
    &&& at < clusters.len()
    &&& clusters[at as int].len() == 1
    &&& start_of(clusters, at as int) == clusters_before(text, at).len()
}

/// In ASCII text a scalar that is inserted stands alone, as long as the
/// insertion puts no carriage return directly before a line feed: every
/// scalar of such text is a cluster of its own, before the insertion and
/// after it.
pub proof fn ascii_scalar_stands_alone(text: Seq<char>, at: nat, c: char)
    requires
        segmented(text),
        segmented(inserted(text, at, c)),
        is_separable_ascii(text),
        is_separable_ascii(inserted(text, at, c)),
        at <= cluster_count(text),
    ensures
        stands_alone(text, at, c),
{
    let old_clusters = grapheme_clusters(text);
    let new = inserted(text, at, c);
    let clusters = grapheme_clusters(new);
    split_then_append_restores(text, at);
    assert(new.len() == text.len() + 1);
    lemma_one_scalar_each(old_clusters, at as int);
    lemma_one_scalar_each(clusters, at as int);
}

/// A line that is split and then given back what was split off holds the
/// text it held before, wherever it was split.
pub proof fn split_then_append_restores(text: Seq<char>, at: nat)
    requires
        segmented(text),
    ensures
        clusters_before(text, at) + clusters_from(text, at) == text,
{
    let clusters = grapheme_clusters(text);
    if at < clusters.len() {
        lemma_flatten_split(clusters, at as int);
    }
}

/// A scalar that is inserted at a cluster index of a line, or at the line's
/// end, and deleted again at the same index leaves the text as it was,
/// provided the scalar came to stand as a cluster of its own at that index.
/// (A scalar that joins a neighbouring cluster, as a combining mark joins
/// the letter before it, is not deleted alone.)
pub proof fn insert_then_delete_restores(text: Seq<char>, at: nat, c: char)
    requires
        segmented(text),
        segmented(inserted(text, at, c)),
        at <= cluster_count(text),
        stands_alone(text, at, c),
    ensures
        deleted(inserted(text, at, c), at) == text,
{
    let before = clusters_before(text, at);
    let after = clusters_from(text, at);
    let new = inserted(text, at, c);
    let clusters = grapheme_clusters(new);
    let at = at as int;
    split_then_append_restores(text, at as nat);
    assert(new =~= before.push(c) + after);
    lemma_flatten_split(clusters, at);
    lemma_flatten_split(clusters, at + 1);
    let head = clusters.take(at).flatten();
    let tail = clusters.skip(at + 1).flatten();
    assert(clusters.take(at + 1).flatten() == head + clusters[at]) by {
        assert(clusters.take(at + 1) =~= clusters.take(at).push(clusters[at]));
        clusters.take(at).lemma_flatten_push(clusters[at]);
    }
    assert(new == head + clusters[at] + tail);
    assert(head =~= before) by {
        assert(head =~= new.take(before.len() as int));
    }
    assert(tail =~= after) by {
        assert(tail =~= new.skip(before.len() as int + 1));
    }
    if at + 1 >= clusters.len() {
        assert(clusters.skip(at + 1) =~= Seq::<Seq<char>>::empty());
    }
    assert(deleted(new, at as nat) =~= head + tail);
}

} // verus!
