//! The median-cut quantizer: a pixel sequence is recursively split along
//! the channel with the widest range — ties broken with R over G over B —
//! by sorting on that channel and halving at the midpoint, until the target
//! depth, where each subset collapses to its average color.

use crate::backend::Backend;
use crate::color::spec_average;
use crate::color::spec_chan;
use crate::color::Color;
use crate::color::ColorOrderBy;
use vstd::prelude::*;

verus! {

/// The largest value of one channel across a pixel sequence; meaningful
/// when the sequence is non-empty.
pub open spec fn seq_max(s: Seq<Color>, axis: ColorOrderBy) -> int
    decreases s.len(),
{
    if s.len() <= 1 {
        spec_chan(s[0], axis) as int
    } else {
        let rest = seq_max(s.drop_last(), axis);
        if spec_chan(s.last(), axis) > rest {
            spec_chan(s.last(), axis) as int
        } else {
            rest
        }
    }
}

/// The smallest value of one channel across a pixel sequence; meaningful
/// when the sequence is non-empty.
pub open spec fn seq_min(s: Seq<Color>, axis: ColorOrderBy) -> int
    decreases s.len(),
{
    if s.len() <= 1 {
        spec_chan(s[0], axis) as int
    } else {
        let rest = seq_min(s.drop_last(), axis);
        if spec_chan(s.last(), axis) < rest {
            spec_chan(s.last(), axis) as int
        } else {
            rest
        }
    }
}

/// The split axis: the channel with the largest range, with R winning ties
/// against both others and G winning ties against B.
pub open spec fn choose_axis(s: Seq<Color>) -> ColorOrderBy {
    let rr = seq_max(s, ColorOrderBy::R) - seq_min(s, ColorOrderBy::R);
    let gr = seq_max(s, ColorOrderBy::G) - seq_min(s, ColorOrderBy::G);
    let br = seq_max(s, ColorOrderBy::B) - seq_min(s, ColorOrderBy::B);
    if rr >= gr && rr >= br {
        ColorOrderBy::R
    } else if gr >= rr && gr >= br {
        ColorOrderBy::G
    } else {
        ColorOrderBy::B
    }
}

/// Stable insertion on one channel: `x` goes in front of the first element
/// whose channel value exceeds it, so equal-valued elements keep their
/// relative order.
pub open spec fn insert_by(s: Seq<Color>, x: Color, axis: ColorOrderBy) -> Seq<Color>
    decreases s.len(),
{
    if s.len() == 0 {
        seq![x]
    } else if spec_chan(s[0], axis) <= spec_chan(x, axis) {
        seq![s[0]] + insert_by(s.drop_first(), x, axis)
    } else {
        seq![x] + s
    }
}

/// Stable insertion sort on one channel.
pub open spec fn sort_by_spec(s: Seq<Color>, axis: ColorOrderBy) -> Seq<Color>
    decreases s.len(),
{
    if s.len() == 0 {
        Seq::empty()
    } else {
        insert_by(sort_by_spec(s.drop_last(), axis), s.last(), axis)
    }
}

/// How many representative colors a run from `depth` up to `max_depth`
/// produces: one per leaf of the binary split, doubling each level as the
/// depth doubles.
pub open spec fn leaf_count(depth: int, max_depth: int) -> int
    decreases (if depth < max_depth {
        max_depth - depth
    } else {
        0int
    }),
{
    if depth <= 0 || depth >= max_depth {
        1
    } else {
        2 * leaf_count(2 * depth, max_depth)
    }
}

/// What the median-cut recursion returns: at the target depth the average
/// of the subset, above it the concatenation of the two halves of the
/// subset sorted on the chosen axis, left half first.
pub open spec fn mc_spec(s: Seq<Color>, depth: int, max_depth: int) -> Seq<Color>
    decreases (if depth < max_depth {
        max_depth - depth
    } else {
        0int
    }),
{
    if depth <= 0 || depth >= max_depth {
        seq![spec_average(s)]
    } else {
        let sorted = sort_by_spec(s, choose_axis(s));
        let half = s.len() as int / 2;
        mc_spec(sorted.take(half), 2 * depth, max_depth) + mc_spec(
            sorted.skip(half),
            2 * depth,
            max_depth,
        )
    }
}

/// A run always produces at least one color.
proof fn lemma_leaf_count_pos(depth: int, max_depth: int)
    ensures
        leaf_count(depth, max_depth) >= 1,
    decreases (if depth < max_depth {
        max_depth - depth
    } else {
        0int
    }),
{
    if !(depth <= 0 || depth >= max_depth) {
        lemma_leaf_count_pos(2 * depth, max_depth);
    }
}

/// Inserting adds exactly one element.
proof fn lemma_insert_by_len(s: Seq<Color>, x: Color, axis: ColorOrderBy)
    ensures
        insert_by(s, x, axis).len() == s.len() + 1,
    decreases s.len(),
{
    if s.len() != 0 && spec_chan(s[0], axis) <= spec_chan(x, axis) {
        lemma_insert_by_len(s.drop_first(), x, axis);
    }
}

/// Sorting keeps the length.
proof fn lemma_sort_by_len(s: Seq<Color>, axis: ColorOrderBy)
    ensures
        sort_by_spec(s, axis).len() == s.len(),
    decreases s.len(),
{
    if s.len() != 0 {
        lemma_sort_by_len(s.drop_last(), axis);
        lemma_insert_by_len(sort_by_spec(s.drop_last(), axis), s.last(), axis);
    }
}

/// Ordered ascending on one channel.
pub open spec fn sorted_on(s: Seq<Color>, axis: ColorOrderBy) -> bool {
    forall|i: int, j: int|
        0 <= i < j < s.len() ==> spec_chan(s[i], axis) <= spec_chan(s[j], axis)
}

/// Insertion keeps the order, and the head of the result is the inserted
/// element or the old head.
proof fn lemma_insert_by_sorted(s: Seq<Color>, x: Color, axis: ColorOrderBy)
    requires
        sorted_on(s, axis),
    ensures
        sorted_on(insert_by(s, x, axis), axis),
        insert_by(s, x, axis).len() == s.len() + 1,
        insert_by(s, x, axis)[0] == x || (s.len() > 0 && insert_by(s, x, axis)[0] == s[0]),
    decreases s.len(),
{
    lemma_insert_by_len(s, x, axis);
    if s.len() == 0 {
    } else if spec_chan(s[0], axis) <= spec_chan(x, axis) {
        let rest = s.drop_first();
        assert(forall|k: int| 0 <= k < rest.len() ==> rest[k] == s[k + 1]);
        lemma_insert_by_sorted(rest, x, axis);
        let r = insert_by(s, x, axis);
        let tail = insert_by(rest, x, axis);
        assert(forall|k: int| 0 <= k < tail.len() ==> r[k + 1] == tail[k]);
        assert(spec_chan(tail[0], axis) >= spec_chan(s[0], axis));
        assert forall|i: int, j: int|
            0 <= i < j < r.len() implies spec_chan(r[i], axis) <= spec_chan(r[j], axis) by {
            if i == 0 {
                assert(spec_chan(r[j], axis) >= spec_chan(tail[0], axis));
            }
        }
    } else {
    }
}

/// Insertion adds exactly the inserted element to the contents.
proof fn lemma_insert_by_multiset(s: Seq<Color>, x: Color, axis: ColorOrderBy)
    ensures
        insert_by(s, x, axis).to_multiset() == s.to_multiset().insert(x),
    decreases s.len(),
{
    broadcast use vstd::seq_lib::group_to_multiset_ensures;

    if s.len() == 0 {
        assert(insert_by(s, x, axis) =~= Seq::empty().push(x));
        assert(insert_by(s, x, axis).to_multiset() =~= s.to_multiset().insert(x));
    } else if spec_chan(s[0], axis) <= spec_chan(x, axis) {
        let rest = s.drop_first();
        lemma_insert_by_multiset(rest, x, axis);
        vstd::seq_lib::lemma_multiset_commutative(seq![s[0]], insert_by(rest, x, axis));
        vstd::seq_lib::lemma_multiset_commutative(seq![s[0]], rest);
        assert(seq![s[0]] + rest =~= s);
        assert(insert_by(s, x, axis) =~= seq![s[0]] + insert_by(rest, x, axis));
        assert(insert_by(s, x, axis).to_multiset() =~= s.to_multiset().insert(x));
    } else {
        vstd::seq_lib::lemma_multiset_commutative(seq![x], s);
        assert(seq![x] =~= Seq::empty().push(x));
        assert(insert_by(s, x, axis).to_multiset() =~= s.to_multiset().insert(x));
    }
}

/// The sort the quantizer's specification relies on really sorts: its
/// result is ordered ascending on the chosen channel and holds exactly the
/// input's pixels.
pub proof fn lemma_sort_by_spec_ensures(s: Seq<Color>, axis: ColorOrderBy)
    ensures
        sorted_on(sort_by_spec(s, axis), axis),
        sort_by_spec(s, axis).to_multiset() == s.to_multiset(),
    decreases s.len(),
{
    broadcast use vstd::seq_lib::group_to_multiset_ensures;

    if s.len() != 0 {
        lemma_sort_by_spec_ensures(s.drop_last(), axis);
        lemma_insert_by_sorted(sort_by_spec(s.drop_last(), axis), s.last(), axis);
        lemma_insert_by_multiset(sort_by_spec(s.drop_last(), axis), s.last(), axis);
        assert(s =~= s.drop_last().push(s.last()));
        assert(sort_by_spec(s, axis).to_multiset() =~= s.to_multiset());
    }
}

/// Where the first `j` elements do not exceed `x` on the axis and the one
/// at `j` (if any) does, insertion puts `x` exactly at index `j`.
proof fn lemma_insert_by_at(s: Seq<Color>, x: Color, axis: ColorOrderBy, j: int)
    requires
        0 <= j <= s.len(),
        forall|k: int| 0 <= k < j ==> spec_chan(s[k], axis) <= spec_chan(x, axis),
        j < s.len() ==> spec_chan(s[j], axis) > spec_chan(x, axis),
    ensures
        insert_by(s, x, axis) == s.take(j) + seq![x] + s.skip(j),
    decreases j,
{
    if j == 0 {
        assert(insert_by(s, x, axis) =~= s.take(0) + seq![x] + s.skip(0));
    } else {
        let rest = s.drop_first();
        assert(forall|k: int| 0 <= k < j - 1 ==> rest[k] == s[k + 1]);
        lemma_insert_by_at(rest, x, axis, j - 1);
        assert(seq![s[0]] + (rest.take(j - 1) + seq![x] + rest.skip(j - 1)) =~= s.take(j)
            + seq![x] + s.skip(j));
        assert(insert_by(s, x, axis) =~= s.take(j) + seq![x] + s.skip(j));
    }
}

/// The channel value that a given ordering reads from a color.
fn chan_value(c: Color, axis: ColorOrderBy) -> (r: u8)
    ensures
        r == spec_chan(c, axis),
{
    match axis {
        ColorOrderBy::R => c.r,
        ColorOrderBy::G => c.g,
        ColorOrderBy::B => c.b,
    }
}

/// Stable insertion sort of the pixels on one channel.
fn sort_colors(v: &Vec<Color>, axis: ColorOrderBy) -> (out: Vec<Color>)
    ensures
        out@ == sort_by_spec(v@, axis),
        out@.len() == v@.len(),
{
    let mut out: Vec<Color> = Vec::new();
    let mut i: usize = 0;
    while i < v.len()
        invariant
            0 <= i <= v@.len(),
            out@ == sort_by_spec(v@.take(i as int), axis),
            out@.len() == i,
        decreases v@.len() - i,
    {
        let x = v[i];
        let mut j: usize = 0;
        while j < out.len() && chan_value(out[j], axis) <= chan_value(x, axis)
            invariant
                0 <= j <= out@.len(),
                forall|k: int| 0 <= k < j ==> spec_chan(out@[k], axis) <= spec_chan(x, axis),
            decreases out@.len() - j,
        {
            j += 1;
        }
        proof {
            lemma_insert_by_at(out@, x, axis, j as int);
            assert(v@.take(i + 1).drop_last() =~= v@.take(i as int));
            assert(v@.take(i + 1).last() == v@[i as int]);
            assert(out@.insert(j as int, x) =~= out@.take(j as int) + seq![x] + out@.skip(
                j as int,
            ));
        }
        out.insert(j, x);
        i += 1;
    }
    proof {
        assert(v@.take(v@.len() as int) =~= v@);
    }
    out
}

/// The per-channel ranges (max minus min) of a non-empty pixel sequence,
/// as (R range, G range, B range).
pub fn get_ranges(pixels: &Vec<Color>) -> (r: (u8, u8, u8))
    requires
        pixels@.len() >= 1,
    ensures
        r.0 == seq_max(pixels@, ColorOrderBy::R) - seq_min(pixels@, ColorOrderBy::R),
        r.1 == seq_max(pixels@, ColorOrderBy::G) - seq_min(pixels@, ColorOrderBy::G),
        r.2 == seq_max(pixels@, ColorOrderBy::B) - seq_min(pixels@, ColorOrderBy::B),
{
    let first = pixels[0];
    let mut min_r = first.r;
    let mut min_g = first.g;
    let mut min_b = first.b;
    let mut max_r = first.r;
    let mut max_g = first.g;
    let mut max_b = first.b;
    let mut i: usize = 1;
    proof {
        assert(pixels@.take(1)[0] == pixels@[0]);
    }
    while i < pixels.len()
        invariant
            1 <= i <= pixels@.len(),
            min_r == seq_min(pixels@.take(i as int), ColorOrderBy::R),
            min_g == seq_min(pixels@.take(i as int), ColorOrderBy::G),
            min_b == seq_min(pixels@.take(i as int), ColorOrderBy::B),
            max_r == seq_max(pixels@.take(i as int), ColorOrderBy::R),
            max_g == seq_max(pixels@.take(i as int), ColorOrderBy::G),
            max_b == seq_max(pixels@.take(i as int), ColorOrderBy::B),
        decreases pixels@.len() - i,
    {
        let p = pixels[i];
        proof {
            assert(pixels@.take(i + 1).drop_last() =~= pixels@.take(i as int));
            assert(pixels@.take(i + 1).last() == pixels@[i as int]);
        }
        if p.r < min_r {
            min_r = p.r;
        }
        if p.g < min_g {
            min_g = p.g;
        }
        if p.b < min_b {
            min_b = p.b;
        }
        if p.r > max_r {
            max_r = p.r;
        }
        if p.g > max_g {
            max_g = p.g;
        }
        if p.b > max_b {
            max_b = p.b;
        }
        i += 1;
    }
    proof {
        assert(pixels@.take(pixels@.len() as int) =~= pixels@);
    }
    (max_r - min_r, max_g - min_g, max_b - min_b)
}

/// One median-cut run: collapse to the average at the target depth, else
/// sort on the widest channel, halve, and recurse on both halves, left
/// results first. Depth doubles per level, so a run from depth 1 to
/// `max_depth` 16 yields exactly 16 colors.
pub fn split_into_buckets(pixels: &Vec<Color>, depth: u32, max_depth: u32) -> (r: Vec<Color>)
    requires
        1 <= depth,
        max_depth <= 0x4000_0000,
        pixels@.len() >= leaf_count(depth as int, max_depth as int),
    ensures
        r@ == mc_spec(pixels@, depth as int, max_depth as int),
        r@.len() == leaf_count(depth as int, max_depth as int),
    decreases (if depth < max_depth {
        max_depth as int - depth as int
    } else {
        0int
    }),
{
    let mut result: Vec<Color> = Vec::new();
    if depth >= max_depth {
        let color = Color::average_color(pixels);
        result.push(color);
        proof {
            assert(result@ =~= mc_spec(pixels@, depth as int, max_depth as int));
        }
    } else {
        proof {
            lemma_leaf_count_pos(2 * depth as int, max_depth as int);
        }
        let (r_range, g_range, b_range) = get_ranges(pixels);
        let axis = if r_range >= g_range && r_range >= b_range {
            ColorOrderBy::R
        } else if g_range >= r_range && g_range >= b_range {
            ColorOrderBy::G
        } else {
            ColorOrderBy::B
        };
        proof {
            assert(axis == choose_axis(pixels@));
        }
        let mut left = sort_colors(pixels, axis);
        let half = left.len() / 2;
        let right = left.split_off(half);
        proof {
            let sorted = sort_by_spec(pixels@, axis);
            assert(left@ =~= sorted.take(pixels@.len() as int / 2));
            assert(right@ =~= sorted.skip(pixels@.len() as int / 2));
        }
        let mut left_result = split_into_buckets(&left, depth * 2, max_depth);
        let mut right_result = split_into_buckets(&right, depth * 2, max_depth);
        result.append(&mut left_result);
        result.append(&mut right_result);
    }
    result
}

/// Law: a quantizer run over any pixel sequence from depth 1 to depth 16
/// yields exactly 16 representative colors.
pub proof fn lemma_quantizer_output_length(s: Seq<Color>)
    ensures
        mc_spec(s, 1, 16).len() == 16,
        leaf_count(1, 16) == 16,
{
    lemma_mc_len(s, 1, 16);
    assert(leaf_count(16, 16) == 1);
    assert(leaf_count(8, 16) == 2);
    assert(leaf_count(4, 16) == 4);
    assert(leaf_count(2, 16) == 8);
    assert(leaf_count(1, 16) == 16);
}

/// The recursion yields one color per leaf.
proof fn lemma_mc_len(s: Seq<Color>, depth: int, max_depth: int)
    ensures
        mc_spec(s, depth, max_depth).len() == leaf_count(depth, max_depth),
    decreases (if depth < max_depth {
        max_depth - depth
    } else {
        0int
    }),
{
    if !(depth <= 0 || depth >= max_depth) {
        let sorted = sort_by_spec(s, choose_axis(s));
        let half = s.len() as int / 2;
        lemma_mc_len(sorted.take(half), 2 * depth, max_depth);
        lemma_mc_len(sorted.skip(half), 2 * depth, max_depth);
    }
}

/// Law: the quantizer is deterministic — its result is a function of the
/// input sequence alone, with no hidden source of variation, so identical
/// input sequences always quantize to identical output sequences.
pub proof fn lemma_median_cut_deterministic(
    s1: Seq<Color>,
    s2: Seq<Color>,
    depth: int,
    max_depth: int,
)
    requires
        s1 == s2,
    ensures
        mc_spec(s1, depth, max_depth) == mc_spec(s2, depth, max_depth),
{
}

/// The in-process extraction strategy: median-cut quantization of the
/// decoded pixels.
pub struct MedianCutBackend {}

impl Backend for MedianCutBackend {
    /// Quantizes the pixels with one median-cut run from depth 1 to depth
    /// 16, always returning exactly 16 colors.
    fn generate_colors(&self, pixels: &Vec<Color>) -> (r: Vec<Color>)
        ensures
            r@ == mc_spec(pixels@, 1, 16),
            r@.len() == 16,
    {
        proof {
            assert(leaf_count(16, 16) == 1);
            assert(leaf_count(8, 16) == 2);
            assert(leaf_count(4, 16) == 4);
            assert(leaf_count(2, 16) == 8);
            assert(leaf_count(1, 16) == 16);
        }
        split_into_buckets(pixels, 1, 16)
    }
}

} // verus!
