use vstd::prelude::*;

verus! {

/// The scalar domain of a plane: which samples it holds and how many bins
/// its histograms have.
#[derive(Clone, Copy, PartialEq, Eq, Debug)]
pub enum BinDomain {
    /// 8-bit luma: samples 0..=255, one bin per value.
    Luma,
    /// Lightness in hundredths of a percent: samples 0..=10000 nominally,
    /// 101 bins of whole percents.
    Percent,
}

impl BinDomain {
    pub open spec fn bins(self) -> int {
        match self {
            BinDomain::Luma => 256,
            BinDomain::Percent => 101,
        }
    }

    /// The largest value a mapping table holds.
    pub open spec fn out_max(self) -> int {
        self.bins() - 1
    }

    /// How many sample units make one bin.
    pub open spec fn scale(self) -> int {
        match self {
            BinDomain::Luma => 1,
            BinDomain::Percent => 100,
        }
    }

    pub fn bin_count(&self) -> (r: usize)
        ensures
            r == self.bins(),
    {
        match self {
            BinDomain::Luma => 256,
            BinDomain::Percent => 101,
        }
    }

    pub fn sample_scale(&self) -> (r: u16)
        ensures
            r == self.scale(),
    {
        match self {
            BinDomain::Luma => 1,
            BinDomain::Percent => 100,
        }
    }
}

/// The bin of a sample: rounded to the nearest whole bin, clamped to the last.
pub open spec fn bin_of(d: BinDomain, v: u16) -> int {
    let b = (v + d.scale() / 2) / d.scale();
    if b > d.out_max() {
        d.out_max()
    } else {
        b
    }
}

pub fn bin_index(d: BinDomain, v: u16) -> (r: usize)
    ensures
        r == bin_of(d, v),
        r < d.bins(),
{
    let s = d.sample_scale();
    let b: u32 = (v as u32 + (s / 2) as u32) / s as u32;
    let top = d.bin_count() - 1;
    if b as usize > top {
        top
    } else {
        b as usize
    }
}

pub open spec fn zeros(n: int) -> Seq<int> {
    Seq::new(n as nat, |i: int| 0int)
}

/// Adds one count to bin `b`.
pub open spec fn bump(h: Seq<int>, b: int) -> Seq<int> {
    h.update(b, h[b] + 1)
}

pub open spec fn seq_sum(s: Seq<int>) -> int
    decreases s.len(),
{
    if s.len() == 0 {
        0
    } else {
        seq_sum(s.drop_last()) + s.last()
    }
}

pub open spec fn ints(s: Seq<u64>) -> Seq<int> {
    s.map_values(|v: u64| v as int)
}

/// Counts of the samples `start + x0 .. start + x` added to `acc`.
pub open spec fn row_hist(p: Seq<u16>, d: BinDomain, start: int, x0: int, x: int, acc: Seq<int>) -> Seq<int>
    decreases x - x0,
{
    if x <= x0 {
        acc
    } else {
        bump(row_hist(p, d, start, x0, x - 1, acc), bin_of(d, p[start + x - 1]))
    }
}

/// The histogram of the rectangle `[x0, x1) x [y0, y)` of a plane whose rows
/// start every `stride` samples.
pub open spec fn region_hist(p: Seq<u16>, d: BinDomain, stride: int, x0: int, x1: int, y0: int, y: int) -> Seq<int>
    decreases y - y0,
{
    if y <= y0 {
        zeros(d.bins())
    } else {
        row_hist(p, d, (y - 1) * stride, x0, x1, region_hist(p, d, stride, x0, x1, y0, y - 1))
    }
}

pub proof fn lemma_sum_bump(s: Seq<int>, b: int)
    requires
        0 <= b < s.len(),
    ensures
        seq_sum(bump(s, b)) == seq_sum(s) + 1,
    decreases s.len(),
{
    let t = bump(s, b);
    if b == s.len() - 1 {
        assert(t.drop_last() =~= s.drop_last());
    } else {
        lemma_sum_bump(s.drop_last(), b);
        assert(t.drop_last() =~= bump(s.drop_last(), b));
    }
}

pub proof fn lemma_sum_zeros(n: int)
    requires
        n >= 0,
    ensures
        seq_sum(zeros(n)) == 0,
    decreases n,
{
    if n > 0 {
        assert(zeros(n).drop_last() =~= zeros(n - 1));
        lemma_sum_zeros(n - 1);
    }
}

proof fn lemma_row_hist(p: Seq<u16>, d: BinDomain, start: int, x0: int, x: int, acc: Seq<int>)
    requires
        x0 <= x,
        acc.len() == d.bins(),
    ensures
        row_hist(p, d, start, x0, x, acc).len() == d.bins(),
        seq_sum(row_hist(p, d, start, x0, x, acc)) == seq_sum(acc) + (x - x0),
    decreases x - x0,
{
    if x > x0 {
        lemma_row_hist(p, d, start, x0, x - 1, acc);
        let prev = row_hist(p, d, start, x0, x - 1, acc);
        let b = bin_of(d, p[start + x - 1]);
        assert(0 <= b < d.bins()) by {
            assert(d.scale() >= 1);
            assert(0 <= (p[start + x - 1] + d.scale() / 2) / d.scale());
        }
        lemma_sum_bump(prev, b);
    }
}

/// The histogram of a region counts each of its pixels once.
pub proof fn lemma_region_hist(p: Seq<u16>, d: BinDomain, stride: int, x0: int, x1: int, y0: int, y: int)
    requires
        x0 <= x1,
        y0 <= y,
    ensures
        region_hist(p, d, stride, x0, x1, y0, y).len() == d.bins(),
        seq_sum(region_hist(p, d, stride, x0, x1, y0, y)) == (x1 - x0) * (y - y0),
    decreases y - y0,
{
    if y <= y0 {
        lemma_sum_zeros(d.bins());
    } else {
        lemma_region_hist(p, d, stride, x0, x1, y0, y - 1);
        lemma_row_hist(p, d, (y - 1) * stride, x0, x1, region_hist(p, d, stride, x0, x1, y0, y - 1));
        assert((x1 - x0) * (y - y0) == (x1 - x0) * (y - 1 - y0) + (x1 - x0)) by (nonlinear_arith);
    }
}

/// Counts the bins of the samples in `[x0, x1) x [y0, y1)`.
pub fn make_histogram_region(
    plane: &[u16],
    domain: BinDomain,
    stride: u32,
    x0: u32,
    x1: u32,
    y0: u32,
    y1: u32,
) -> (r: Vec<u64>)
    requires
        x0 <= x1 <= stride,
        y0 <= y1,
        y0 == y1 || (y1 - 1) * stride + x1 <= plane@.len(),
    ensures
        ints(r@) == region_hist(plane@, domain, stride as int, x0 as int, x1 as int, y0 as int, y1 as int),
        seq_sum(ints(r@)) == (x1 - x0) * (y1 - y0),
        r@.len() == domain.bins(),
{
    let n = domain.bin_count();
    let mut bins: Vec<u64> = vec![0u64; n];
    let ghost p = plane@;
    let ghost s = stride as int;
    proof {
        assert(ints(bins@) =~= zeros(domain.bins()));
    }
    let mut y: u32 = y0;
    while y < y1
        invariant
            y0 <= y <= y1,
            x0 <= x1 <= stride,
            y0 == y1 || (y1 - 1) * stride + x1 <= p.len(),
            p == plane@,
            s == stride,
            n == domain.bins(),
            bins@.len() == n,
            ints(bins@) == region_hist(p, domain, s, x0 as int, x1 as int, y0 as int, y as int),
            forall|i: int| 0 <= i < n ==> bins@[i] <= (x1 - x0) * (y - y0),
        decreases y1 - y,
    {
        let ghost done = (x1 - x0) * (y - y0);
        proof {
            assert(y as int * s <= (y1 as int - 1) * s) by (nonlinear_arith)
                requires y < y1, s >= 0;
            assert(0 <= y as int * s) by (nonlinear_arith)
                requires y >= 0, s >= 0;
            assert(done + (x1 - x0) <= y as int * s + x1) by (nonlinear_arith)
                requires done == (x1 - x0) * (y - y0), x0 <= x1 <= s, y0 <= y, y0 >= 0, x0 >= 0;
            assert(p.len() <= usize::MAX) by {
                let l = plane.len();
            }
        }
        let start: usize = y as usize * stride as usize;
        let ghost acc = region_hist(p, domain, s, x0 as int, x1 as int, y0 as int, y as int);
        let mut x: u32 = x0;
        while x < x1
            invariant
                y0 <= y < y1,
                x0 <= x <= x1 <= stride,
                start == y * s,
                start + x1 <= p.len(),
                p.len() <= usize::MAX,
                s == stride,
                p == plane@,
                n == domain.bins(),
                bins@.len() == n,
                done == (x1 - x0) * (y - y0),
                done + (x1 - x0) <= p.len(),
                ints(bins@) == row_hist(p, domain, start as int, x0 as int, x as int, acc),
                forall|i: int| 0 <= i < n ==> bins@[i] <= done + (x - x0),
            decreases x1 - x,
        {
            let b = bin_index(domain, plane[start + x as usize]);
            let old_bins = Ghost(bins@);
            bins[b] = bins[b] + 1;
            proof {
                assert(ints(bins@) =~= bump(ints(old_bins@), b as int));
            }
            x = x + 1;
        }
        proof {
            assert((x1 - x0) * (y + 1 - y0) == done + (x1 - x0)) by (nonlinear_arith)
                requires done == (x1 - x0) * (y - y0);
        }
        y = y + 1;
    }
    proof {
        lemma_region_hist(p, domain, s, x0 as int, x1 as int, y0 as int, y1 as int);
    }
    bins
}

proof fn lemma_flat_row(p: Seq<u16>, d: BinDomain, start: int, x0: int, x: int, acc: Seq<int>, v: u16)
    requires
        x0 <= x,
        0 <= start + x0,
        start + x <= p.len(),
        forall|i: int| 0 <= i < p.len() ==> p[i] == v,
        0 <= bin_of(d, v) < acc.len(),
    ensures
        row_hist(p, d, start, x0, x, acc) == acc.update(bin_of(d, v), acc[bin_of(d, v)] + (x - x0)),
    decreases x - x0,
{
    let b = bin_of(d, v);
    if x <= x0 {
        assert(acc.update(b, acc[b] + 0) =~= acc);
    } else {
        lemma_flat_row(p, d, start, x0, x - 1, acc, v);
        assert(bump(acc.update(b, acc[b] + (x - 1 - x0)), b) =~= acc.update(b, acc[b] + (x - x0)));
    }
}

/// A region of a plane whose samples all hold `v` has all its counts in
/// the bin of `v`.
pub proof fn lemma_flat_region(p: Seq<u16>, d: BinDomain, stride: int, x0: int, x1: int, y0: int, y: int, v: u16)
    requires
        0 <= x0 <= x1 <= stride,
        0 <= y0 <= y,
        y * stride <= p.len(),
        forall|i: int| 0 <= i < p.len() ==> p[i] == v,
    ensures
        region_hist(p, d, stride, x0, x1, y0, y) == zeros(d.bins()).update(bin_of(d, v), (x1 - x0) * (y - y0)),
    decreases y - y0,
{
    let b = bin_of(d, v);
    assert(0 <= b < d.bins()) by {
        assert(0 <= (v + d.scale() / 2) / d.scale());
    }
    if y <= y0 {
        assert((x1 - x0) * (y - y0) == 0) by (nonlinear_arith)
            requires y == y0;
        assert(zeros(d.bins()).update(b, 0) =~= zeros(d.bins()));
    } else {
        assert((y - 1) * stride <= y * stride) by (nonlinear_arith)
            requires stride >= 0;
        lemma_flat_region(p, d, stride, x0, x1, y0, y - 1, v);
        assert((y - 1) * stride + x1 <= y * stride) by (nonlinear_arith)
            requires x1 <= stride;
        assert(0 <= (y - 1) * stride) by (nonlinear_arith)
            requires y >= 1, stride >= 0;
        let prev = zeros(d.bins()).update(b, (x1 - x0) * (y - 1 - y0));
        lemma_flat_row(p, d, (y - 1) * stride, x0, x1, prev, v);
        assert((x1 - x0) * (y - 1 - y0) + (x1 - x0) == (x1 - x0) * (y - y0)) by (nonlinear_arith);
        assert(prev.update(b, prev[b] + (x1 - x0)) =~= zeros(d.bins()).update(b, (x1 - x0) * (y - y0)));
    }
}

} // verus!
