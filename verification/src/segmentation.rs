//! Segmentation of text into extended grapheme clusters.
//!
//! The rules that decide where one user-perceived character ends and the
//! next begins fill pages of tables, so they are not restated here: the
//! segmentation of a text is a named, uninterpreted value, and the few facts
//! the buffer relies on are stated beside the two functions that compute it.

use crate::text::{lemma_encoding_no_shorter, lemma_encoding_of_joined};
use unicode_segmentation::UnicodeSegmentation;
use vstd::prelude::*;
use vstd::utf8::encode_utf8;

verus! {

/// The extended grapheme clusters of `s`, in order.
pub uninterp spec fn grapheme_clusters(s: Seq<char>) -> Seq<Seq<char>>;

/// The number of grapheme clusters of `s`.
pub open spec fn cluster_count(s: Seq<char>) -> nat {
    grapheme_clusters(s).len()
}

/// `parts` cuts `s` into consecutive, non-empty pieces.
pub open spec fn is_partition(parts: Seq<Seq<char>>, s: Seq<char>) -> bool {
    &&& parts.flatten() == s
    &&& forall|i: int| 0 <= i < parts.len() ==> (#[trigger] parts[i]).len() > 0
}

/// Every scalar of `s` is ASCII and no carriage return stands directly before
/// a line feed.
pub open spec fn is_separable_ascii(s: Seq<char>) -> bool {
    &&& forall|i: int| 0 <= i < s.len() ==> (#[trigger] s[i]) <= '\x7f'
    &&& forall|i: int| 0 <= i < s.len() - 1 ==> !(#[trigger] s[i] == '\r' && s[i + 1] == '\n')
}

/// What is known of the segmentation of `s` once the segmenter has run on it:
/// the clusters cut `s` into non-empty pieces, and in ASCII text every scalar
/// is a cluster of its own unless a carriage return joins the line feed that
/// follows it.
pub open spec fn segmented(s: Seq<char>) -> bool {
    &&& is_partition(grapheme_clusters(s), s)
    &&& is_separable_ascii(s) ==> grapheme_clusters(s).len() == s.len()
}

/// The number of scalars in the first `g` pieces of `parts`: the scalar at
/// which piece `g` starts.
pub open spec fn start_of(parts: Seq<Seq<char>>, g: int) -> int {
    parts.take(g).flatten().len() as int
}

/// The number of bytes that encode the first `g` pieces of `parts`: the byte
/// at which piece `g` starts.
pub open spec fn byte_start_of(parts: Seq<Seq<char>>, g: int) -> int {
    encode_utf8(parts.take(g).flatten()).len() as int
}

/// The byte at which each piece of `parts` starts.
pub open spec fn byte_starts(parts: Seq<Seq<char>>) -> Seq<int> {
    Seq::new(parts.len(), |g: int| byte_start_of(parts, g))
}

/// Runs `unicode_segmentation::UnicodeSegmentation::graphemes` in extended
/// mode over `s` and collects the clusters it yields, each as a string of its
/// own.
///
/// Trusted, not proved: the result is the segmentation named by
/// [`grapheme_clusters`]; the iterator hands out consecutive, non-empty
/// slices that together cover the whole of `s`; and between two ASCII
/// scalars the segmenter breaks everywhere except inside a carriage return,
/// line feed pair.
#[verifier::external_body]
pub(crate) fn clusters_of(s: &str) -> (out: Vec<String>)
    ensures
        out.deep_view() == grapheme_clusters(s@),
        is_partition(out.deep_view(), s@),
        is_separable_ascii(s@) ==> out.len() == s@.len(),
{
    s.graphemes(true).map(String::from).collect()
}

/// Runs `unicode_segmentation::UnicodeSegmentation::grapheme_indices` in
/// extended mode over `s` and collects the byte offset it gives for each
/// cluster.
///
/// Trusted, not proved: the iterator walks the same clusters as `graphemes`
/// does, so there is one offset for each cluster named by
/// [`grapheme_clusters`]; and each offset is the number of bytes of `s` in
/// front of its cluster.
#[verifier::external_body]
pub(crate) fn cluster_offsets_of(s: &str) -> (out: Vec<usize>)
    ensures
        out@.len() == grapheme_clusters(s@).len(),
        forall|g: int|
            0 <= g < out@.len() ==> #[trigger] out@[g] == byte_start_of(grapheme_clusters(s@), g),
{
    s.grapheme_indices(true).map(|(offset, _)| offset).collect()
}

/// Cutting the pieces at `g` cuts what they join to in two.
pub proof fn lemma_flatten_split(parts: Seq<Seq<char>>, g: int)
    requires
        0 <= g <= parts.len(),
    ensures
        parts.take(g).flatten() + parts.skip(g).flatten() == parts.flatten(),
{
    assert(parts.take(g) + parts.skip(g) =~= parts);
    vstd::seq_lib::lemma_flatten_concat(parts.take(g), parts.skip(g));
}

/// Non-empty pieces are no more numerous than the scalars they hold.
pub proof fn lemma_pieces_bounded(parts: Seq<Seq<char>>)
    requires
        forall|i: int| 0 <= i < parts.len() ==> (#[trigger] parts[i]).len() > 0,
    ensures
        parts.len() <= parts.flatten().len(),
    decreases parts.len(),
{
    if parts.len() > 0 {
        let rest = parts.drop_first();
        assert forall|i: int| 0 <= i < rest.len() implies (#[trigger] rest[i]).len() > 0 by {
            assert(rest[i] == parts[i + 1]);
        }
        lemma_pieces_bounded(rest);
    }
}

/// Where non-empty pieces are as many as the scalars they hold, each piece
/// is one scalar and starts at its own index.
pub proof fn lemma_one_scalar_each(parts: Seq<Seq<char>>, g: int)
    requires
        forall|i: int| 0 <= i < parts.len() ==> (#[trigger] parts[i]).len() > 0,
        parts.len() == parts.flatten().len(),
        0 <= g <= parts.len(),
    ensures
        start_of(parts, g) == g,
        g < parts.len() ==> parts[g].len() == 1,
{
    let head = parts.take(g);
    let tail = parts.skip(g);
    assert forall|i: int| 0 <= i < head.len() implies (#[trigger] head[i]).len() > 0 by {
        assert(head[i] == parts[i]);
    }
    assert forall|i: int| 0 <= i < tail.len() implies (#[trigger] tail[i]).len() > 0 by {
        assert(tail[i] == parts[g + i]);
    }
    lemma_pieces_bounded(head);
    lemma_pieces_bounded(tail);
    lemma_flatten_split(parts, g);
    if g < parts.len() {
        let longer = parts.take(g + 1);
        let shorter = parts.skip(g + 1);
        assert forall|i: int| 0 <= i < longer.len() implies (#[trigger] longer[i]).len() > 0 by {
            assert(longer[i] == parts[i]);
        }
        assert forall|i: int| 0 <= i < shorter.len() implies (#[trigger] shorter[i]).len()
            > 0 by {
            assert(shorter[i] == parts[g + 1 + i]);
        }
        lemma_pieces_bounded(longer);
        lemma_pieces_bounded(shorter);
        lemma_flatten_split(parts, g + 1);
        assert(longer =~= head.push(parts[g]));
        head.lemma_flatten_push(parts[g]);
    }
}

/// Among non-empty pieces each starts at a later byte than the one before
/// it.
pub proof fn lemma_byte_starts_increase(parts: Seq<Seq<char>>, h: int, g: int)
    requires
        forall|i: int| 0 <= i < parts.len() ==> (#[trigger] parts[i]).len() > 0,
        0 <= h < g <= parts.len(),
    ensures
        byte_start_of(parts, h) < byte_start_of(parts, g),
    decreases g - h,
{
    let before = parts.take(g - 1).flatten();
    assert(parts.take(g) =~= parts.take(g - 1).push(parts[g - 1]));
    parts.take(g - 1).lemma_flatten_push(parts[g - 1]);
    lemma_encoding_of_joined(before, parts[g - 1]);
    lemma_encoding_no_shorter(parts[g - 1]);
    if h < g - 1 {
        lemma_byte_starts_increase(parts, h, g - 1);
    }
}

} // verus!
