//! The display text of a line: its clusters, with colour control sequences where
//! the highlight class changes.

use crate::highlighting::{Rgb, Type};
use vstd::prelude::*;
use vstd::string::{StrSliceExecFns, StringExecFns};

verus! {

/// The ten decimal digits.
pub open spec fn digits() -> Seq<char> {
    seq!['0', '1', '2', '3', '4', '5', '6', '7', '8', '9']
}

/// `n` written in decimal, without leading zeros.
pub open spec fn decimal(n: nat) -> Seq<char>
    decreases n,
{
    if n < 10 {
        seq![digits()[n as int]]
    } else {
        decimal(n / 10).push(digits()[(n % 10) as int])
    }
}

/// The control sequence that sets the foreground to `color`: the escape
/// character, `[38;2;`, the three components in decimal with `;` between
/// them, and `m`.
pub open spec fn fg_sequence(color: Rgb) -> Seq<char> {
    seq!['\x1b', '[', '3', '8', ';', '2', ';'] + decimal(color.r as nat) + seq![';'] + decimal(
        color.g as nat,
    ) + seq![';'] + decimal(color.b as nat) + seq!['m']
}

/// The control sequence that sets the foreground back to the terminal's
/// default: the escape character and `[39m`.
pub open spec fn reset_sequence() -> Seq<char> {
    seq!['\x1b', '[', '3', '9', 'm']
}

/// Formats `termion::color::Fg(termion::color::Rgb(r, g, b))`.
///
/// Trusted, not proved: termion writes the true-colour foreground sequence
/// with each component in decimal.
#[verifier::external_body]
pub(crate) fn fg(color: Rgb) -> (out: String)
    ensures
        out@ == fg_sequence(color),
{
    format!("{}", termion::color::Fg(termion::color::Rgb(color.r, color.g, color.b)))
}

/// Formats `termion::color::Fg(termion::color::Reset)`.
///
/// Trusted, not proved: termion writes the sequence that resets the
/// foreground colour.
#[verifier::external_body]
pub(crate) fn fg_reset() -> (out: String)
    ensures
        out@ == reset_sequence(),
{
    format!("{}", termion::color::Fg(termion::color::Reset))
}

/// What is drawn for a cluster: four spaces where it is a tab, all of its
/// scalars otherwise.
pub open spec fn drawn(cluster: Seq<char>) -> Seq<char> {
    if cluster.len() > 0 && cluster[0] == '\t' {
        seq![' ', ' ', ' ', ' ']
    } else {
        cluster
    }
}

/// The class in which cluster `i` is drawn: the one recorded for it, plain
/// where none is recorded.
pub open spec fn class_at(highlighting: Seq<Type>, i: int) -> Type {
    if 0 <= i < highlighting.len() {
        highlighting[i]
    } else {
        Type::Plain
    }
}

/// The display text of clusters `i` up to `end`, drawn after a cluster of
/// class `current`. Each cluster is drawn whole, a tab as four spaces, and
/// is led by a colour sequence where its class differs from that of the
/// cluster drawn before it; a cluster without scalars gives nothing. Drawing
/// stops with the last cluster there is, and the reset sequence closes the
/// text.
pub open spec fn rendered_from(
    clusters: Seq<Seq<char>>,
    highlighting: Seq<Type>,
    i: int,
    end: int,
    current: Type,
) -> Seq<char>
    decreases end - i,
{
    if i < 0 || i >= end || i >= clusters.len() {
        reset_sequence()
    } else if clusters[i].len() == 0 {
        rendered_from(clusters, highlighting, i + 1, end, current)
    } else {
        let class = class_at(highlighting, i);
        let marker = if class != current {
            fg_sequence(class.color())
        } else {
            Seq::empty()
        };
        marker + drawn(clusters[i]) + rendered_from(clusters, highlighting, i + 1, end, class)
    }
}

/// Draws clusters `start` up to `end` of `clusters` in the classes of
/// `highlighting`, beginning in the plain class.
pub fn render_clusters(
    clusters: &Vec<String>,
    highlighting: &Vec<Type>,
    start: usize,
    end: usize,
) -> (out: String)
    ensures
        out@ == rendered_from(
            clusters.deep_view(),
            highlighting@,
            start as int,
            end as int,
            Type::Plain,
        ),
{
    let ghost all = clusters.deep_view();
    let ghost whole = rendered_from(all, highlighting@, start as int, end as int, Type::Plain);
    let mut result = String::new();
    let mut current = Type::Plain;
    let mut index = start;
    while index < end && index < clusters.len()
        invariant
            all == clusters.deep_view(),
            result@ + rendered_from(all, highlighting@, index as int, end as int, current)
                == whole,
        decreases end - index,
    {
        let ghost before = result@;
        assert(all[index as int] == clusters[index as int]@);
        let cluster = clusters[index].as_str();
        if !cluster.is_empty() {
            let c = cluster.get_char(0);
            let class = if index < highlighting.len() {
                highlighting[index]
            } else {
                Type::Plain
            };
            let ghost rest = rendered_from(all, highlighting@, index + 1, end as int, class);
            if class != current {
                current = class;
                let marker = fg(class.to_color());
                result.append(marker.as_str());
            }
            let ghost marked = result@;
            if c == '\t' {
                proof {
                    reveal_strlit("    ");
                    assert("    "@ =~= drawn(cluster@));
                }
                result.append("    ");
            } else {
                result.append(cluster);
            }
            proof {
                assert(result@ =~= marked + drawn(cluster@));
                assert(result@ + rest =~= before + ((marked.subrange(
                    before.len() as int,
                    marked.len() as int,
                ) + drawn(cluster@)) + rest));
            }
        }
        index += 1;
    }
    let reset = fg_reset();
    result.append(reset.as_str());
    result
}

} // verus!
