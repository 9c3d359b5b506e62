use vstd::prelude::*;
use crate::histogram::{ints, seq_sum, zeros, BinDomain};
use vstd::arithmetic::div_mod::{lemma_div_is_ordered, lemma_div_nonincreasing, lemma_fundamental_div_mod};

verus! {

pub open spec fn all_nonneg(s: Seq<int>) -> bool {
    forall|i: int| 0 <= i < s.len() ==> s[i] >= 0
}

pub proof fn lemma_ints_nonneg(s: Seq<u64>)
    ensures
        all_nonneg(ints(s)),
        ints(s).len() == s.len(),
{
}

pub proof fn lemma_sum_take_succ(s: Seq<int>, i: int)
    requires
        0 <= i < s.len(),
    ensures
        seq_sum(s.take(i + 1)) == seq_sum(s.take(i)) + s[i],
{
    assert(s.take(i + 1).drop_last() =~= s.take(i));
}

/// Sums of longer prefixes of a non-negative sequence are not smaller.
pub proof fn lemma_prefix_sum_mono(s: Seq<int>, i: int, j: int)
    requires
        all_nonneg(s),
        0 <= i <= j <= s.len(),
    ensures
        seq_sum(s.take(i)) <= seq_sum(s.take(j)),
        seq_sum(s.take(j)) <= seq_sum(s),
    decreases s.len() - i,
{
    assert(s.take(s.len() as int) =~= s);
    if i < j {
        lemma_sum_take_succ(s, i);
        lemma_prefix_sum_mono(s, i + 1, j);
    } else if j < s.len() {
        lemma_sum_take_succ(s, j);
        lemma_prefix_sum_mono(s, j + 1, s.len() as int);
    }
}

pub proof fn lemma_elem_le_sum(s: Seq<int>, i: int)
    requires
        all_nonneg(s),
        0 <= i < s.len(),
    ensures
        s[i] <= seq_sum(s),
        seq_sum(s) >= 0,
{
    lemma_prefix_sum_mono(s, 0, i);
    lemma_sum_take_succ(s, i);
    lemma_prefix_sum_mono(s, i + 1, s.len() as int);
    assert(s.take(0) =~= Seq::<int>::empty());
}

/// The smallest and the largest value of a slice (`u64::MAX` and `0` when empty).
pub fn minmax(slice: &[u64]) -> (r: (u64, u64))
    ensures
        forall|i: int| 0 <= i < slice@.len() ==> r.0 <= slice@[i] && slice@[i] <= r.1,
        slice@.len() == 0 ==> r.0 == u64::MAX && r.1 == 0,
        slice@.len() > 0 ==> (exists|i: int| 0 <= i < slice@.len() && slice@[i] == r.0),
        slice@.len() > 0 ==> (exists|i: int| 0 <= i < slice@.len() && slice@[i] == r.1),
{
    let mut min_value = u64::MAX;
    let mut max_value = 0u64;
    let mut i: usize = 0;
    let count = slice.len();
    while i < count
        invariant
            count == slice@.len(),
            i <= count,
            forall|j: int| 0 <= j < i ==> min_value <= slice@[j] && slice@[j] <= max_value,
            i == 0 ==> min_value == u64::MAX && max_value == 0,
            i > 0 ==> (exists|j: int| 0 <= j < i && slice@[j] == min_value),
            i > 0 ==> (exists|j: int| 0 <= j < i && slice@[j] == max_value),
        decreases count - i,
    {
        let value = slice[i];
        if value < min_value {
            min_value = value;
        }
        if value > max_value {
            max_value = value;
        }
        i += 1;
    }
    (min_value, max_value)
}

/// Running totals: entry `i` is the sum of entries `0..=i`.
pub open spec fn cumulative(s: Seq<int>) -> Seq<int> {
    Seq::new(s.len(), |i: int| seq_sum(s.take(i + 1)))
}

pub proof fn lemma_cumulative_mono(s: Seq<int>)
    requires
        all_nonneg(s),
    ensures
        forall|i: int, j: int| 0 <= i <= j < s.len() ==> 0 <= #[trigger] cumulative(s)[i] <= #[trigger] cumulative(s)[j],
        forall|i: int| 0 <= i < s.len() ==> cumulative(s)[i] <= seq_sum(s),
{
    assert forall|i: int, j: int| 0 <= i <= j < s.len() implies 0 <= #[trigger] cumulative(s)[i] <= #[trigger] cumulative(s)[j] by {
        lemma_prefix_sum_mono(s, 0, i + 1);
        lemma_prefix_sum_mono(s, i + 1, j + 1);
        assert(s.take(0) =~= Seq::<int>::empty());
    }
    assert forall|i: int| 0 <= i < s.len() implies cumulative(s)[i] <= seq_sum(s) by {
        lemma_prefix_sum_mono(s, i + 1, s.len() as int);
    }
}

/// Replaces each entry by the running total up to it.
pub fn cdf(arr: &mut [u64])
    requires
        seq_sum(ints(old(arr)@)) <= u64::MAX,
    ensures
        ints(final(arr)@) == cumulative(ints(old(arr)@)),
        final(arr)@.len() == old(arr)@.len(),
        forall|i: int, j: int| 0 <= i <= j < final(arr)@.len() ==> final(arr)@[i] <= final(arr)@[j],
{
    let ghost s = ints(arr@);
    proof {
        lemma_ints_nonneg(arr@);
        lemma_cumulative_mono(s);
    }
    let mut sum: u64 = 0u64;
    let mut i: usize = 0;
    while i < arr.len()
        invariant
            s == ints(old(arr)@),
            all_nonneg(s),
            seq_sum(s) <= u64::MAX,
            arr@.len() == s.len(),
            i <= arr@.len(),
            sum == seq_sum(s.take(i as int)),
            forall|j: int| 0 <= j < i ==> arr@[j] == cumulative(s)[j],
            forall|j: int| i <= j < s.len() ==> arr@[j] == s[j],
        decreases arr@.len() - i,
    {
        proof {
            lemma_sum_take_succ(s, i as int);
            lemma_prefix_sum_mono(s, i as int + 1, s.len() as int);
        }
        sum = sum + arr[i];
        arr[i] = sum;
        i += 1;
    }
    proof {
        assert(ints(arr@) =~= cumulative(s));
        assert forall|i: int, j: int| 0 <= i <= j < arr@.len() implies arr@[i] <= arr@[j] by {
            assert(cumulative(s)[i] <= cumulative(s)[j]);
        }
    }
}

/// The mean count of a histogram, rounded to the nearest integer.
pub open spec fn mean_of(s: Seq<int>) -> int {
    (2 * seq_sum(s) + s.len()) / (2 * s.len() as int)
}

/// The clip limit for a threshold given in thousandths:
/// the mean plus the mean times the threshold, rounded.
pub open spec fn clip_limit(s: Seq<int>, milli: int) -> int {
    mean_of(s) + (mean_of(s) * milli + 500) / 1000
}

/// How far the entries of `s` rise above `c`, summed.
pub open spec fn excess_over(s: Seq<int>, c: int) -> int
    decreases s.len(),
{
    if s.len() == 0 {
        0
    } else {
        excess_over(s.drop_last(), c) + if s.last() > c {
            s.last() - c
        } else {
            0
        }
    }
}

/// The excess spread evenly over all bins, rounded down.
pub open spec fn mean_excess(s: Seq<int>, milli: int) -> int {
    excess_over(s, clip_limit(s, milli)) / (s.len() as int)
}

/// Entries at or above `c` become `c + me`; the others grow by `me`.
pub open spec fn clip_with(s: Seq<int>, c: int, me: int) -> Seq<int> {
    Seq::new(
        s.len(),
        |i: int|
            if s[i] >= c {
                c + me
            } else {
                s[i] + me
            },
    )
}

/// A histogram after contrast limiting with the excess redistributed.
pub open spec fn clipped(s: Seq<int>, milli: int) -> Seq<int> {
    clip_with(s, clip_limit(s, milli), mean_excess(s, milli))
}

proof fn lemma_excess_take_succ(s: Seq<int>, c: int, i: int)
    requires
        0 <= i < s.len(),
    ensures
        excess_over(s.take(i + 1), c) == excess_over(s.take(i), c) + if s[i] > c {
            s[i] - c
        } else {
            0
        },
{
    assert(s.take(i + 1).drop_last() =~= s.take(i));
}

proof fn lemma_excess_le_sum(s: Seq<int>, c: int)
    requires
        all_nonneg(s),
        c >= 0,
    ensures
        0 <= excess_over(s, c) <= seq_sum(s),
    decreases s.len(),
{
    if s.len() > 0 {
        lemma_excess_le_sum(s.drop_last(), c);
    }
}

proof fn lemma_clip_with_sum(s: Seq<int>, c: int, me: int)
    ensures
        seq_sum(clip_with(s, c, me)) + excess_over(s, c) == seq_sum(s) + s.len() * me,
    decreases s.len(),
{
    if s.len() > 0 {
        lemma_clip_with_sum(s.drop_last(), c, me);
        assert(clip_with(s, c, me).drop_last() =~= clip_with(s.drop_last(), c, me));
        assert(s.len() * me == (s.len() - 1) * me + me) by (nonlinear_arith);
    }
}

/// Clipping with redistribution never adds counts, and keeps them non-negative.
pub proof fn lemma_clipped_sum(s: Seq<int>, milli: int)
    requires
        all_nonneg(s),
        s.len() > 0,
        milli >= 0,
    ensures
        all_nonneg(clipped(s, milli)),
        0 <= seq_sum(clipped(s, milli)) <= seq_sum(s),
        clipped(s, milli).len() == s.len(),
        mean_of(s) >= 0,
        clip_limit(s, milli) >= mean_of(s),
        mean_excess(s, milli) >= 0,
{
    lemma_elem_le_sum(s, 0);
    let n = s.len() as int;
    let m = mean_of(s);
    assert(m >= 0) by {
        lemma_div_is_ordered(0, 2 * seq_sum(s) + n, 2 * n);
    }
    assert(m * milli + 500 >= 0) by (nonlinear_arith)
        requires m >= 0, milli >= 0;
    lemma_div_is_ordered(0, m * milli + 500, 1000);
    let c = clip_limit(s, milli);
    lemma_excess_le_sum(s, c);
    let e = excess_over(s, c);
    lemma_div_is_ordered(0, e, n);
    let me = e / n;
    lemma_fundamental_div_mod(e, n);
    assert(e % n >= 0);
    assert(n * me <= e) by (nonlinear_arith)
        requires e == n * me + e % n, e % n >= 0;
    lemma_clip_with_sum(s, c, me);
}

/// Caps each bin at the clip limit and spreads the clipped excess over all
/// bins; `milli` is the threshold in thousandths.
pub fn clip_hist_clahe(bins: &mut [u64], milli: u32)
    requires
        old(bins)@.len() > 0,
        seq_sum(ints(old(bins)@)) <= u64::MAX,
    ensures
        ints(final(bins)@) == clipped(ints(old(bins)@), milli as int),
        final(bins)@.len() == old(bins)@.len(),
        seq_sum(ints(final(bins)@)) <= seq_sum(ints(old(bins)@)),
        forall|i: int|
            0 <= i < final(bins)@.len() ==> final(bins)@[i] <= clip_limit(ints(old(bins)@), milli as int)
                + mean_excess(ints(old(bins)@), milli as int),
{
    let ghost s = ints(bins@);
    proof {
        lemma_ints_nonneg(bins@);
        lemma_clipped_sum(s, milli as int);
    }
    let n = bins.len();
    let mut sums: u64 = 0;
    let mut i: usize = 0;
    while i < n
        invariant
            s == ints(old(bins)@),
            bins@ == old(bins)@,
            all_nonneg(s),
            seq_sum(s) <= u64::MAX,
            n == s.len(),
            i <= n,
            sums == seq_sum(s.take(i as int)),
        decreases n - i,
    {
        proof {
            lemma_sum_take_succ(s, i as int);
            lemma_prefix_sum_mono(s, i as int + 1, n as int);
        }
        sums = sums + bins[i];
        i += 1;
    }
    proof {
        assert(s.take(n as int) =~= s);
    }
    let n128 = n as u128;
    let mean: u128 = (2 * sums as u128 + n128) / (2 * n128);
    proof {
        lemma_div_nonincreasing(2 * sums + n, 2 * n);
        assert(mean * milli <= 0x4_0000_0000_0000_0000 * 0xffff_ffff) by (nonlinear_arith)
            requires mean <= 0x4_0000_0000_0000_0000, milli <= 0xffff_ffff, mean >= 0, milli >= 0;
    }
    let clip: u128 = mean + (mean * milli as u128 + 500) / 1000;
    proof {
        lemma_div_nonincreasing(mean * milli + 500, 1000);
    }
    let ghost c = clip as int;
    assert(c == clip_limit(s, milli as int));
    let mut excess: u64 = 0;
    i = 0;
    while i < n
        invariant
            s == ints(old(bins)@),
            bins@ == old(bins)@,
            all_nonneg(s),
            seq_sum(s) <= u64::MAX,
            n == s.len(),
            i <= n,
            c == clip,
            c >= 0,
            excess == excess_over(s.take(i as int), c),
        decreases n - i,
    {
        proof {
            lemma_excess_take_succ(s, c, i as int);
            lemma_excess_le_sum(s.take(i as int + 1), c);
            lemma_prefix_sum_mono(s, i as int + 1, n as int);
        }
        if bins[i] as u128 > clip {
            excess = excess + (bins[i] - clip as u64);
        }
        i += 1;
    }
    proof {
        assert(s.take(n as int) =~= s);
    }
    let share: u64 = excess / n as u64;
    let ghost cl = clipped(s, milli as int);
    assert(share == mean_excess(s, milli as int));
    i = 0;
    while i < n
        invariant
            s == ints(old(bins)@),
            cl == clipped(s, milli as int),
            all_nonneg(cl),
            seq_sum(cl) <= seq_sum(s),
            seq_sum(s) <= u64::MAX,
            n == s.len(),
            cl.len() == n,
            bins@.len() == n,
            i <= n,
            c == clip,
            c == clip_limit(s, milli as int),
            share == mean_excess(s, milli as int),
            forall|j: int| 0 <= j < i ==> bins@[j] == cl[j],
            forall|j: int| i <= j < n ==> bins@[j] == s[j],
        decreases n - i,
    {
        proof {
            lemma_elem_le_sum(cl, i as int);
        }
        if bins[i] as u128 >= clip {
            bins[i] = (clip + share as u128) as u64;
        } else {
            bins[i] = bins[i] + share;
        }
        i += 1;
    }
    proof {
        assert(ints(bins@) =~= cl);
        assert forall|i: int| 0 <= i < n implies bins@[i] <= c + share by {
            assert(bins@[i] == cl[i]);
        }
    }
}

pub open spec fn first_positive_from(c: Seq<int>, i: int) -> int
    decreases c.len() - i,
{
    if i < 0 || i >= c.len() {
        0
    } else if c[i] > 0 {
        c[i]
    } else {
        first_positive_from(c, i + 1)
    }
}

/// The running total at the darkest populated bin (0 when none is populated).
pub open spec fn darkest(c: Seq<int>) -> int {
    first_positive_from(c, 0)
}

/// One entry of a rescaled table: `round(out_max * (ci - m) / (count - m))`,
/// clamped to `[0, out_max]`, or `i` itself where `count - m` is not positive.
pub open spec fn rescaled_entry(ci: int, m: int, count: int, out_max: int, i: int) -> int {
    let den = count - m;
    if den <= 0 {
        i
    } else if ci <= m {
        0
    } else if (2 * out_max * (ci - m) + den) / (2 * den) > out_max {
        out_max
    } else {
        (2 * out_max * (ci - m) + den) / (2 * den)
    }
}

/// Stretches running totals onto `[0, out_max]`, measured from `m`, the
/// running total at the darkest populated bin. Where `count - m` is zero
/// (every pixel in one bin) the table is the identity.
pub open spec fn rescaled(c: Seq<int>, count: int, out_max: int) -> Seq<int> {
    Seq::new(c.len(), |i: int| rescaled_entry(c[i], darkest(c), count, out_max, i))
}

/// The mapping table of one tile: the histogram, clipped when asked, turned
/// into running totals and stretched onto the domain's output range.
pub open spec fn tile_table(hist: Seq<int>, count: int, d: BinDomain, milli: int, clip: bool) -> Seq<int> {
    rescaled(
        cumulative(
            if clip {
                clipped(hist, milli)
            } else {
                hist
            },
        ),
        count,
        d.out_max(),
    )
}

proof fn lemma_first_positive_skip(c: Seq<int>, i: int)
    requires
        0 <= i < c.len(),
        c[i] <= 0,
    ensures
        first_positive_from(c, i) == first_positive_from(c, i + 1),
{
}

fn rescale_entry(ci: u64, m: u64, count: u64, out_max: u64, i: usize) -> (r: u64)
    requires
        out_max <= 255,
        i <= out_max,
    ensures
        r == rescaled_entry(ci as int, m as int, count as int, out_max as int, i as int),
        r <= out_max,
{
    if count <= m {
        i as u64
    } else if ci <= m {
        0
    } else {
        let den: u128 = (count - m) as u128;
        proof {
            assert(2 * out_max * (ci - m) <= 2 * 255 * 0xffff_ffff_ffff_ffff) by (nonlinear_arith)
                requires out_max <= 255, 0 <= ci - m <= 0xffff_ffff_ffff_ffff;
            let num = 2 * out_max * (ci - m) + den;
            assert(num >= 0) by (nonlinear_arith)
                requires num == 2 * out_max * (ci - m) + den, out_max >= 0, ci > m, den > 0;
            lemma_div_is_ordered(0, num, 2 * den);
        }
        let v: u128 = (2 * out_max as u128 * (ci - m) as u128 + den) / (2 * den);
        if v > out_max as u128 {
            out_max
        } else {
            v as u64
        }
    }
}

/// Turns running totals into an output table on `[0, out_max]`.
fn rescale(bins: &mut [u64], pixel_count: u64, out_max: u64)
    requires
        out_max <= 255,
        old(bins)@.len() <= out_max + 1,
    ensures
        ints(final(bins)@) == rescaled(ints(old(bins)@), pixel_count as int, out_max as int),
        final(bins)@.len() == old(bins)@.len(),
        forall|i: int| 0 <= i < final(bins)@.len() ==> final(bins)@[i] <= out_max,
{
    let ghost c = ints(bins@);
    let n = bins.len();
    let mut k: usize = 0;
    while k < n && bins[k] == 0
        invariant
            c == ints(bins@),
            n == c.len(),
            k <= n,
            darkest(c) == first_positive_from(c, k as int),
        decreases n - k,
    {
        proof {
            lemma_first_positive_skip(c, k as int);
        }
        k += 1;
    }
    let m: u64 = if k < n {
        bins[k]
    } else {
        0
    };
    assert(m == darkest(c));
    let ghost r = rescaled(c, pixel_count as int, out_max as int);
    let mut i: usize = 0;
    while i < n
        invariant
            c == ints(old(bins)@),
            r == rescaled(c, pixel_count as int, out_max as int),
            m == darkest(c),
            n == c.len(),
            n <= out_max + 1,
            out_max <= 255,
            bins@.len() == n,
            i <= n,
            forall|j: int| 0 <= j < i ==> bins@[j] == r[j] && bins@[j] <= out_max,
            forall|j: int| i <= j < n ==> bins@[j] == c[j],
        decreases n - i,
    {
        let e = rescale_entry(bins[i], m, pixel_count, out_max, i);
        bins[i] = e;
        i += 1;
    }
    proof {
        assert(ints(bins@) =~= r);
        assert forall|j: int| 0 <= j < bins@.len() implies bins@[j] <= out_max by {
            assert(bins@[j] == r[j] && bins@[j] <= out_max);
        }
    }
}

/// Builds a tile's mapping table in place from its histogram: optional
/// clipping (`clip`, threshold `milli` in thousandths), running totals, then
/// rescaling onto the domain's output range. `pixel_count` is the tile's area.
pub fn normalize_histogram(bins: &mut [u64], domain: BinDomain, pixel_count: u64, milli: u32, clip: bool)
    requires
        old(bins)@.len() == domain.bins(),
        seq_sum(ints(old(bins)@)) <= u64::MAX,
    ensures
        ints(final(bins)@) == tile_table(ints(old(bins)@), pixel_count as int, domain, milli as int, clip),
        final(bins)@.len() == domain.bins(),
        forall|i: int| 0 <= i < final(bins)@.len() ==> final(bins)@[i] <= domain.out_max(),
{
    let ghost h = ints(bins@);
    proof {
        lemma_ints_nonneg(bins@);
    }
    if clip {
        clip_hist_clahe(bins, milli);
        proof {
            lemma_clipped_sum(h, milli as int);
        }
    }
    assert(ints(bins@) == if clip { clipped(h, milli as int) } else { h });
    cdf(bins);
    let out_max: u64 = domain.bin_count() as u64 - 1;
    rescale(bins, pixel_count, out_max);
}

/// Every rescaled entry lies in `[0, out_max]`.
pub proof fn lemma_rescaled_range(c: Seq<int>, count: int, out_max: int)
    requires
        out_max >= 0,
        c.len() <= out_max + 1,
    ensures
        forall|i: int| 0 <= i < c.len() ==> 0 <= #[trigger] rescaled(c, count, out_max)[i] <= out_max,
{
    let m = darkest(c);
    let den = count - m;
    assert forall|i: int| 0 <= i < c.len() implies 0 <= #[trigger] rescaled(c, count, out_max)[i] <= out_max by {
        if den > 0 && c[i] > m {
            let num = 2 * out_max * (c[i] - m) + den;
            assert(num >= 0) by (nonlinear_arith)
                requires num == 2 * out_max * (c[i] - m) + den, out_max >= 0, c[i] > m, den > 0;
            lemma_div_is_ordered(0, num, 2 * den);
        }
    }
}

proof fn lemma_single_bin_prefix(n: int, b: int, area: int, i: int)
    requires
        0 <= b < n,
        0 <= i <= n,
    ensures
        seq_sum(zeros(n).update(b, area).take(i)) == if i <= b {
            0
        } else {
            area
        },
    decreases i,
{
    let s = zeros(n).update(b, area);
    if i == 0 {
        assert(s.take(0) =~= Seq::<int>::empty());
    } else {
        lemma_single_bin_prefix(n, b, area, i - 1);
        lemma_sum_take_succ(s, i - 1);
    }
}

proof fn lemma_single_bin_darkest(c: Seq<int>, b: int, j: int)
    requires
        0 <= j <= b < c.len(),
        c[b] > 0,
        forall|i: int| 0 <= i < b ==> c[i] == 0,
    ensures
        first_positive_from(c, j) == c[b],
    decreases b - j,
{
    if j < b {
        lemma_single_bin_darkest(c, b, j + 1);
    }
}

/// When every count sits in bin `b`, the rescaled table maps `b` to itself.
pub proof fn lemma_single_bin_table(n: int, b: int, area: int, out_max: int)
    requires
        0 <= b < n,
        area > 0,
    ensures
        rescaled(cumulative(zeros(n).update(b, area)), area, out_max)[b] == b,
{
    let s = zeros(n).update(b, area);
    let c = cumulative(s);
    assert forall|i: int| 0 <= i < b implies c[i] == 0 by {
        lemma_single_bin_prefix(n, b, area, i + 1);
    }
    lemma_single_bin_prefix(n, b, area, b + 1);
    lemma_single_bin_darkest(c, b, 0);
}

} // verus!
