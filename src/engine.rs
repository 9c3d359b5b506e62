use vstd::prelude::*;
use vstd::arithmetic::div_mod::{lemma_fundamental_div_mod, lemma_div_is_ordered};
use crate::blend::{
    axis_cell, axis_cell_of, axis_weight, axis_weight_of, blend, lemma_blend_bounds, lemma_scaled_blend_bound,
    next_cell,
};
use crate::grid::{
    grid_fits, lemma_axis_basics, lemma_axis_tile_bounds, tile_count, tile_end, tile_len, tile_start,
    ClaheGridSize,
};
use crate::histogram::{
    bin_index, bin_of, ints, lemma_flat_region, lemma_region_hist, make_histogram_region, region_hist, BinDomain,
};
use crate::transfer::{cumulative, lemma_rescaled_range, lemma_single_bin_table, normalize_histogram, tile_table};
use crate::blend::lemma_blend_equal;
use crate::blend::lemma_cancel;

verus! {

/// Why an equalization request was refused.
#[derive(Clone, Copy, PartialEq, Eq, Debug)]
pub enum AheError {
    /// The grid has no tiles along some axis.
    ZeroGrid,
    /// The grid asks for more tiles along an axis than the image has pixels.
    GridExceedsImage,
    /// A channel-count selector other than the known ones.
    UnsupportedChannels,
    /// An algorithm selector other than the known ones.
    UnsupportedMode,
    /// The buffer is too small for the dimensions and stride given.
    BufferTooSmall,
    /// A clip threshold that is negative or not a number.
    InvalidThreshold,
    /// The colour conversion library refused the planes.
    Conversion,
}

/// Adaptive equalization with or without contrast limiting.
#[derive(Clone, Copy, PartialEq, Eq, Debug)]
pub enum AheImplementation {
    Ahe,
    Clahe,
}

impl AheImplementation {
    /// Reads a selector: 1 is plain adaptive, 2 is contrast limited.
    pub fn try_from_u8(value: u8) -> (r: Result<AheImplementation, AheError>)
        ensures
            value == 1 ==> r == Ok::<AheImplementation, AheError>(AheImplementation::Ahe),
            value == 2 ==> r == Ok::<AheImplementation, AheError>(AheImplementation::Clahe),
            value != 1 && value != 2 ==> r == Err::<AheImplementation, AheError>(AheError::UnsupportedMode),
    {
        match value {
            1 => Ok(AheImplementation::Ahe),
            2 => Ok(AheImplementation::Clahe),
            _ => Err(AheError::UnsupportedMode),
        }
    }

    /// Whether histograms are clipped before building tables.
    pub fn clips(&self) -> (r: bool)
        ensures
            r == (*self == AheImplementation::Clahe),
    {
        match self {
            AheImplementation::Ahe => false,
            AheImplementation::Clahe => true,
        }
    }
}

/// The pixel count of the tile at row `r`, column `c`.
pub open spec fn tile_area(w: int, h: int, g: ClaheGridSize, r: int, c: int) -> int {
    (tile_end(w, g.w as int, c) - tile_start(w, g.w as int, c)) * (tile_end(h, g.h as int, r) - tile_start(
        h,
        g.h as int,
        r,
    ))
}

/// The mapping table of the tile at row `r`, column `c` of a `w`-wide plane.
pub open spec fn table_at(
    p: Seq<u16>,
    w: int,
    h: int,
    g: ClaheGridSize,
    d: BinDomain,
    milli: int,
    clip: bool,
    r: int,
    c: int,
) -> Seq<int> {
    tile_table(
        region_hist(
            p,
            d,
            w,
            tile_start(w, g.w as int, c),
            tile_end(w, g.w as int, c),
            tile_start(h, g.h as int, r),
            tile_end(h, g.h as int, r),
        ),
        tile_area(w, h, g, r, c),
        d,
        milli,
        clip,
    )
}

/// The equalized value of sample `k`: the four nearest tiles' tables, looked
/// up at the sample's bin, blended bilinearly by the sample's position
/// between their centers, scaled back to sample units and rounded down.
pub open spec fn equalized_sample(
    p: Seq<u16>,
    w: int,
    h: int,
    g: ClaheGridSize,
    d: BinDomain,
    milli: int,
    clip: bool,
    k: int,
) -> int {
    let x = k % w;
    let y = k / w;
    let tx = tile_len(w, g.w as int);
    let ty = tile_len(h, g.h as int);
    let nx = tile_count(w, g.w as int);
    let ny = tile_count(h, g.h as int);
    let c = axis_cell(x, tx, nx);
    let r = axis_cell(y, ty, ny);
    let c1 = next_cell(c, nx);
    let r1 = next_cell(r, ny);
    let b = bin_of(d, p[k]);
    (d.scale() * blend(
        table_at(p, w, h, g, d, milli, clip, r, c)[b],
        table_at(p, w, h, g, d, milli, clip, r, c1)[b],
        table_at(p, w, h, g, d, milli, clip, r1, c)[b],
        table_at(p, w, h, g, d, milli, clip, r1, c1)[b],
        axis_weight(x, tx, nx),
        2 * tx,
        axis_weight(y, ty, ny),
        2 * ty,
    )) / (4 * tx * ty)
}

/// The tables built for every tile, addressed `[row][column]`.
pub open spec fn tables_ok(
    t: Seq<Vec<Vec<u64>>>,
    p: Seq<u16>,
    w: int,
    h: int,
    g: ClaheGridSize,
    d: BinDomain,
    milli: int,
    clip: bool,
) -> bool {
    &&& t.len() == tile_count(h, g.h as int)
    &&& forall|r: int| 0 <= r < t.len() ==> #[trigger] t[r]@.len() == tile_count(w, g.w as int)
    &&& forall|r: int, c: int|
        0 <= r < t.len() && 0 <= c < tile_count(w, g.w as int) ==> {
            &&& ints(#[trigger] t[r]@[c]@) == table_at(p, w, h, g, d, milli, clip, r, c)
            &&& t[r]@[c]@.len() == d.bins()
            &&& forall|i: int| 0 <= i < d.bins() ==> #[trigger] t[r]@[c]@[i] <= d.out_max()
        }
}

fn tile_bounds(len: u32, parts: u32, i: u32) -> (r: (u32, u32))
    requires
        1 <= parts <= len,
        i < tile_count(len as int, parts as int),
    ensures
        r.0 == tile_start(len as int, parts as int, i as int),
        r.1 == tile_end(len as int, parts as int, i as int),
        r.0 < r.1 <= len,
{
    proof {
        lemma_axis_tile_bounds(len as int, parts as int, i as int);
        lemma_axis_basics(len as int, parts as int);
    }
    let t = len / parts;
    let n = len / t;
    let start = i * t;
    let end = if i + 1 == n {
        len
    } else {
        (i + 1) * t
    };
    (start, end)
}

fn build_tables(
    plane: &[u16],
    width: u32,
    height: u32,
    grid: ClaheGridSize,
    domain: BinDomain,
    milli: u32,
    clip: bool,
) -> (t: Vec<Vec<Vec<u64>>>)
    requires
        grid_fits(grid, width as int, height as int),
        plane@.len() == width * height,
    ensures
        tables_ok(t@, plane@, width as int, height as int, grid, domain, milli as int, clip),
{
    proof {
        lemma_axis_basics(width as int, grid.w as int);
        lemma_axis_basics(height as int, grid.h as int);
    }
    let nx = width / (width / grid.w);
    let ny = height / (height / grid.h);
    let ghost p = plane@;
    let mut tables: Vec<Vec<Vec<u64>>> = Vec::new();
    let mut r: u32 = 0;
    while r < ny
        invariant
            p == plane@,
            grid_fits(grid, width as int, height as int),
            p.len() == width * height,
            nx == tile_count(width as int, grid.w as int),
            ny == tile_count(height as int, grid.h as int),
            r <= ny,
            tables@.len() == r,
            forall|i: int| 0 <= i < r ==> #[trigger] tables@[i]@.len() == nx,
            forall|i: int, c: int|
                0 <= i < r && 0 <= c < nx ==> {
                    &&& ints(#[trigger] tables@[i]@[c]@) == table_at(
                        p,
                        width as int,
                        height as int,
                        grid,
                        domain,
                        milli as int,
                        clip,
                        i,
                        c,
                    )
                    &&& tables@[i]@[c]@.len() == domain.bins()
                    &&& forall|j: int| 0 <= j < domain.bins() ==> #[trigger] tables@[i]@[c]@[j] <= domain.out_max()
                },
        decreases ny - r,
    {
        let (y0, y1) = tile_bounds(height, grid.h, r);
        let mut row: Vec<Vec<u64>> = Vec::new();
        let mut c: u32 = 0;
        while c < nx
            invariant
                p == plane@,
                grid_fits(grid, width as int, height as int),
                p.len() == width * height,
                nx == tile_count(width as int, grid.w as int),
                ny == tile_count(height as int, grid.h as int),
                r < ny,
                y0 == tile_start(height as int, grid.h as int, r as int),
                y1 == tile_end(height as int, grid.h as int, r as int),
                y0 < y1 <= height,
                c <= nx,
                row@.len() == c,
                forall|j: int|
                    0 <= j < c ==> {
                        &&& ints(#[trigger] row@[j]@) == table_at(
                            p,
                            width as int,
                            height as int,
                            grid,
                            domain,
                            milli as int,
                            clip,
                            r as int,
                            j,
                        )
                        &&& row@[j]@.len() == domain.bins()
                        &&& forall|i: int| 0 <= i < domain.bins() ==> #[trigger] row@[j]@[i] <= domain.out_max()
                    },
            decreases nx - c,
        {
            let (x0, x1) = tile_bounds(width, grid.w, c);
            proof {
                assert((y1 - 1) * width + x1 <= width * height) by (nonlinear_arith)
                    requires y1 <= height, x1 <= width;
                assert((x1 - x0) * (y1 - y0) <= 0xffff_ffff * 0xffff_ffff) by (nonlinear_arith)
                    requires x1 - x0 <= 0xffff_ffff, y1 - y0 <= 0xffff_ffff, x0 <= x1, y0 <= y1;
            }
            let mut bins = make_histogram_region(plane, domain, width, x0, x1, y0, y1);
            let area: u64 = (x1 - x0) as u64 * (y1 - y0) as u64;
            normalize_histogram(bins.as_mut_slice(), domain, area, milli, clip);
            row.push(bins);
            c += 1;
        }
        tables.push(row);
        r += 1;
    }
    tables
}

fn blend_of(v00: u64, v10: u64, v01: u64, v11: u64, a: u64, dx: u64, b: u64, dy: u64, m: u64) -> (r: u128)
    requires
        m <= 255,
        v00 <= m,
        v10 <= m,
        v01 <= m,
        v11 <= m,
        a <= dx <= 0x2_0000_0000,
        b <= dy <= 0x2_0000_0000,
    ensures
        r == blend(v00 as int, v10 as int, v01 as int, v11 as int, a as int, dx as int, b as int, dy as int),
        r <= m * dx * dy,
{
    proof {
        lemma_blend_bounds(
            v00 as int,
            v10 as int,
            v01 as int,
            v11 as int,
            a as int,
            dx as int,
            b as int,
            dy as int,
            m as int,
        );
        assert(m * dx * dy <= 255 * 0x2_0000_0000 * 0x2_0000_0000) by (nonlinear_arith)
            requires m <= 255, dx <= 0x2_0000_0000, dy <= 0x2_0000_0000;
        assert(m * (dx - a) * (dy - b) <= m * dx * dy && m * a * (dy - b) <= m * dx * dy && m * (dx - a) * b
            <= m * dx * dy && m * a * b <= m * dx * dy) by (nonlinear_arith)
            requires 0 <= a <= dx, 0 <= b <= dy, m >= 0;
        assert(v00 * (dx - a) <= 255 * 0x2_0000_0000 && v10 * a <= 255 * 0x2_0000_0000 && v01 * (dx - a) <= 255
            * 0x2_0000_0000 && v11 * a <= 255 * 0x2_0000_0000) by (nonlinear_arith)
            requires v00 <= 255, v10 <= 255, v01 <= 255, v11 <= 255, a <= dx <= 0x2_0000_0000, a >= 0;
    }
    let t00: u128 = v00 as u128 * (dx - a) as u128 * (dy - b) as u128;
    let t10: u128 = v10 as u128 * a as u128 * (dy - b) as u128;
    let t01: u128 = v01 as u128 * (dx - a) as u128 * b as u128;
    let t11: u128 = v11 as u128 * a as u128 * b as u128;
    t00 + t10 + t01 + t11
}

fn reconstruct(
    plane: &mut [u16],
    width: u32,
    height: u32,
    grid: ClaheGridSize,
    domain: BinDomain,
    milli: u32,
    clip: bool,
    tables: &Vec<Vec<Vec<u64>>>,
)
    requires
        grid_fits(grid, width as int, height as int),
        old(plane)@.len() == width * height,
        tables_ok(tables@, old(plane)@, width as int, height as int, grid, domain, milli as int, clip),
    ensures
        final(plane)@.len() == old(plane)@.len(),
        forall|k: int|
            0 <= k < final(plane)@.len() ==> final(plane)@[k] == equalized_sample(
                old(plane)@,
                width as int,
                height as int,
                grid,
                domain,
                milli as int,
                clip,
                k,
            ),
        forall|k: int| 0 <= k < final(plane)@.len() ==> final(plane)@[k] <= domain.scale() * domain.out_max(),
{
    proof {
        lemma_axis_basics(width as int, grid.w as int);
        lemma_axis_basics(height as int, grid.h as int);
    }
    let ghost p = plane@;
    let tx = width / grid.w;
    let ty = height / grid.h;
    let nx = width / tx;
    let ny = height / ty;
    let scale = domain.sample_scale();
    let out_max: u64 = domain.bin_count() as u64 - 1;
    let n = plane.len();
    let w = width as usize;
    let mut k: usize = 0;
    while k < n
        invariant
            p == old(plane)@,
            grid_fits(grid, width as int, height as int),
            tables_ok(tables@, p, width as int, height as int, grid, domain, milli as int, clip),
            n == p.len(),
            n == width * height,
            w == width,
            tx == tile_len(width as int, grid.w as int),
            ty == tile_len(height as int, grid.h as int),
            nx == tile_count(width as int, grid.w as int),
            ny == tile_count(height as int, grid.h as int),
            tx >= 1,
            ty >= 1,
            nx >= 1,
            ny >= 1,
            scale == domain.scale(),
            out_max == domain.out_max(),
            plane@.len() == n,
            k <= n,
            forall|j: int|
                0 <= j < k ==> plane@[j] == equalized_sample(
                    p,
                    width as int,
                    height as int,
                    grid,
                    domain,
                    milli as int,
                    clip,
                    j,
                ),
            forall|j: int| k <= j < n ==> plane@[j] == p[j],
            forall|j: int| 0 <= j < k ==> plane@[j] <= domain.scale() * domain.out_max(),
        decreases n - k,
    {
        proof {
            lemma_fundamental_div_mod(k as int, w as int);
            assert(k / w < height) by (nonlinear_arith)
                requires k == w * (k / w) + k % w, k % w >= 0, k < w * height, w >= 1;
            lemma_div_is_ordered(0, k as int, w as int);
        }
        let x = (k % w) as u32;
        let y = (k / w) as u32;
        let c = axis_cell_of(x, tx, nx);
        let r = axis_cell_of(y, ty, ny);
        let c1 = if c + 1 > nx - 1 {
            nx - 1
        } else {
            c + 1
        };
        let r1 = if r + 1 > ny - 1 {
            ny - 1
        } else {
            r + 1
        };
        let b = bin_index(domain, plane[k]);
        let v00 = tables[r as usize][c as usize][b];
        let v10 = tables[r as usize][c1 as usize][b];
        let v01 = tables[r1 as usize][c as usize][b];
        let v11 = tables[r1 as usize][c1 as usize][b];
        let a = axis_weight_of(x, tx, nx);
        let bw = axis_weight_of(y, ty, ny);
        let dx: u64 = 2 * tx as u64;
        let dy: u64 = 2 * ty as u64;
        let bl = blend_of(v00, v10, v01, v11, a, dx, bw, dy, out_max);
        proof {
            lemma_scaled_blend_bound(scale as int, bl as int, out_max as int, dx as int, dy as int);
            assert(scale * bl <= 100 * (255 * 0x2_0000_0000 * 0x2_0000_0000)) by (nonlinear_arith)
                requires scale <= 100, bl <= out_max * dx * dy, out_max <= 255, dx <= 0x2_0000_0000, dy
                    <= 0x2_0000_0000, bl >= 0;
            assert(dx * dy == 4 * tx * ty) by (nonlinear_arith)
                requires dx == 2 * tx, dy == 2 * ty;
            assert(1 <= dx * dy <= 0x2_0000_0000 * 0x2_0000_0000) by (nonlinear_arith)
                requires 1 <= dx <= 0x2_0000_0000, 1 <= dy <= 0x2_0000_0000;
            assert(scale * out_max <= 10000) by {
                assert(domain.scale() * domain.out_max() <= 10000);
            }
        }
        let out: u128 = scale as u128 * bl / (dx as u128 * dy as u128);
        plane[k] = out as u16;
        k += 1;
    }
}

/// Equalizes a plane of `width * height` samples in place by tiles: each
/// tile of the grid gets a mapping table (contrast limited when `clip`, with
/// the threshold `milli` in thousandths), and every sample is replaced by the
/// bilinear blend of its four nearest tables.
pub fn equalize_plane(
    plane: &mut [u16],
    width: u32,
    height: u32,
    grid: ClaheGridSize,
    domain: BinDomain,
    milli: u32,
    clip: bool,
) -> (r: Result<(), AheError>)
    requires
        old(plane)@.len() == width * height,
    ensures
        r == Err::<(), AheError>(AheError::ZeroGrid) <==> grid.w == 0 || grid.h == 0,
        r == Err::<(), AheError>(AheError::GridExceedsImage) <==> grid.w != 0 && grid.h != 0 && (grid.w > width
            || grid.h > height),
        r is Ok <==> grid_fits(grid, width as int, height as int),
        r is Err ==> final(plane)@ == old(plane)@,
        final(plane)@.len() == old(plane)@.len(),
        r is Ok ==> forall|k: int|
            0 <= k < final(plane)@.len() ==> final(plane)@[k] == equalized_sample(
                old(plane)@,
                width as int,
                height as int,
                grid,
                domain,
                milli as int,
                clip,
                k,
            ),
        r is Ok ==> forall|k: int|
            0 <= k < final(plane)@.len() ==> final(plane)@[k] <= domain.scale() * domain.out_max(),
{
    if grid.w == 0 || grid.h == 0 {
        return Err(AheError::ZeroGrid);
    }
    if grid.w > width || grid.h > height {
        return Err(AheError::GridExceedsImage);
    }
    let tables = build_tables(plane, width, height, grid, domain, milli, clip);
    reconstruct(plane, width, height, grid, domain, milli, clip, &tables);
    Ok(())
}

/// The single mapping table of global equalization: the whole plane's
/// histogram, unclipped, as one tile.
pub open spec fn global_table(p: Seq<u16>, w: int, h: int, d: BinDomain) -> Seq<int> {
    tile_table(region_hist(p, d, w, 0, w, 0, h), w * h, d, 0, false)
}

/// The globally equalized value of sample `k`, in sample units.
pub open spec fn global_sample(p: Seq<u16>, w: int, h: int, d: BinDomain, k: int) -> int {
    d.scale() * global_table(p, w, h, d)[bin_of(d, p[k])]
}

proof fn lemma_table_range(hist: Seq<int>, count: int, d: BinDomain, milli: int, clip: bool)
    requires
        hist.len() == d.bins(),
    ensures
        tile_table(hist, count, d, milli, clip).len() == d.bins(),
        forall|i: int| 0 <= i < d.bins() ==> 0 <= #[trigger] tile_table(hist, count, d, milli, clip)[i] <= d.out_max(),
{
    let s = if clip {
        crate::transfer::clipped(hist, milli)
    } else {
        hist
    };
    lemma_rescaled_range(cumulative(s), count, d.out_max());
}

/// Equalizes a plane of `width * height` samples in place with a single
/// histogram of the whole plane, without clipping.
pub fn equalize_plane_global(plane: &mut [u16], width: u32, height: u32, domain: BinDomain)
    requires
        old(plane)@.len() == width * height,
    ensures
        final(plane)@.len() == old(plane)@.len(),
        forall|k: int|
            0 <= k < final(plane)@.len() ==> final(plane)@[k] == global_sample(
                old(plane)@,
                width as int,
                height as int,
                domain,
                k,
            ),
        forall|k: int| 0 <= k < final(plane)@.len() ==> final(plane)@[k] <= domain.scale() * domain.out_max(),
{
    let ghost p = plane@;
    proof {
        assert(height == 0 || (height - 1) * width + width == width * height) by (nonlinear_arith);
        assert(width * height <= 0xffff_ffff * 0xffff_ffff) by (nonlinear_arith)
            requires width <= 0xffff_ffff, height <= 0xffff_ffff;
    }
    let mut table = make_histogram_region(plane, domain, width, 0, width, 0, height);
    let area: u64 = width as u64 * height as u64;
    normalize_histogram(table.as_mut_slice(), domain, area, 0, false);
    assert(ints(table@) == global_table(p, width as int, height as int, domain));
    let scale = domain.sample_scale();
    let n = plane.len();
    let mut k: usize = 0;
    while k < n
        invariant
            p == old(plane)@,
            n == p.len(),
            plane@.len() == n,
            ints(table@) == global_table(p, width as int, height as int, domain),
            table@.len() == domain.bins(),
            forall|i: int| 0 <= i < domain.bins() ==> table@[i] <= domain.out_max(),
            scale == domain.scale(),
            k <= n,
            forall|j: int|
                0 <= j < k ==> plane@[j] == global_sample(p, width as int, height as int, domain, j),
            forall|j: int| k <= j < n ==> plane@[j] == p[j],
            forall|j: int| 0 <= j < k ==> plane@[j] <= domain.scale() * domain.out_max(),
        decreases n - k,
    {
        let b = bin_index(domain, plane[k]);
        let v = table[b];
        proof {
            assert(scale * v <= domain.scale() * domain.out_max()) by (nonlinear_arith)
                requires v <= domain.out_max(), scale == domain.scale(), scale >= 0, v >= 0;
            assert(domain.scale() * domain.out_max() <= 10000);
        }
        plane[k] = (scale as u64 * v) as u16;
        k += 1;
    }
}

/// Sample `k` mapped through one table built from the whole plane's
/// histogram, clipped when `clip`.
pub open spec fn single_table_sample(
    p: Seq<u16>,
    w: int,
    h: int,
    d: BinDomain,
    milli: int,
    clip: bool,
    k: int,
) -> int {
    d.scale() * tile_table(region_hist(p, d, w, 0, w, 0, h), w * h, d, milli, clip)[bin_of(d, p[k])]
}

/// With a single tile, adaptive equalization maps every sample through the
/// one table of the whole plane, clipped or not; without clipping this is
/// exactly global equalization.
pub proof fn lemma_single_tile_is_global(p: Seq<u16>, w: int, h: int, d: BinDomain, milli: int, clip: bool)
    requires
        w >= 1,
        h >= 1,
        p.len() == w * h,
    ensures
        forall|k: int|
            0 <= k < p.len() ==> #[trigger] equalized_sample(p, w, h, ClaheGridSize { w: 1, h: 1 }, d, milli, clip, k)
                == single_table_sample(p, w, h, d, milli, clip, k),
        !clip ==> forall|k: int|
            0 <= k < p.len() ==> #[trigger] equalized_sample(p, w, h, ClaheGridSize { w: 1, h: 1 }, d, milli, clip, k)
                == global_sample(p, w, h, d, k),
{
    let g = ClaheGridSize { w: 1, h: 1 };
    assert(tile_len(w, 1) == w);
    assert(tile_len(h, 1) == h);
    assert(tile_count(w, 1) == 1) by {
        vstd::arithmetic::div_mod::lemma_div_by_self(w);
    }
    assert(tile_count(h, 1) == 1) by {
        vstd::arithmetic::div_mod::lemma_div_by_self(h);
    }
    let hist = region_hist(p, d, w, 0, w, 0, h);
    let table = tile_table(hist, w * h, d, milli, clip);
    lemma_region_hist(p, d, w, 0, w, 0, h);
    lemma_table_range(hist, w * h, d, milli, clip);
    assert(table_at(p, w, h, g, d, milli, clip, 0, 0) == table);
    assert(!clip ==> table == global_table(p, w, h, d));
    assert forall|k: int| 0 <= k < p.len() implies #[trigger] equalized_sample(p, w, h, g, d, milli, clip, k)
        == single_table_sample(p, w, h, d, milli, clip, k) by {
        let x = k % w;
        let y = k / w;
        assert(axis_cell(x, w, 1) == 0) by {
            if 2 * x >= w {
                lemma_div_is_ordered(0, 2 * x - w, 2 * w);
            }
        }
        assert(axis_cell(y, h, 1) == 0) by {
            if 2 * y >= h {
                lemma_div_is_ordered(0, 2 * y - h, 2 * h);
            }
        }
        let b = bin_of(d, p[k]);
        assert(0 <= b < d.bins()) by {
            assert(0 <= (p[k] + d.scale() / 2) / d.scale());
        }
        let v = table[b];
        let a = axis_weight(x, w, 1);
        let bw = axis_weight(y, h, 1);
        lemma_blend_equal(v, a, 2 * w, bw, 2 * h);
        lemma_cancel(d.scale(), v, 2 * w, 2 * h);
        assert(4 * w * h == (2 * w) * (2 * h)) by (nonlinear_arith);
    }
}

proof fn lemma_flat_tile(p: Seq<u16>, w: int, h: int, g: ClaheGridSize, milli: int, v: u16, r: int, c: int)
    requires
        grid_fits(g, w, h),
        p.len() == w * h,
        forall|i: int| 0 <= i < p.len() ==> p[i] == v,
        v <= 255,
        0 <= r < tile_count(h, g.h as int),
        0 <= c < tile_count(w, g.w as int),
    ensures
        table_at(p, w, h, g, BinDomain::Luma, milli, false, r, c)[v as int] == v,
{
    let xs = tile_start(w, g.w as int, c);
    let xe = tile_end(w, g.w as int, c);
    let ys = tile_start(h, g.h as int, r);
    let ye = tile_end(h, g.h as int, r);
    lemma_axis_tile_bounds(w, g.w as int, c);
    lemma_axis_tile_bounds(h, g.h as int, r);
    assert(ye * w <= w * h) by (nonlinear_arith)
        requires ye <= h, w >= 0;
    lemma_flat_region(p, BinDomain::Luma, w, xs, xe, ys, ye, v);
    assert(tile_area(w, h, g, r, c) > 0) by (nonlinear_arith)
        requires tile_area(w, h, g, r, c) == (xe - xs) * (ye - ys), xs < xe, ys < ye;
    assert((xe - xs) * (ye - ys) == tile_area(w, h, g, r, c));
    lemma_single_bin_table(256, v as int, tile_area(w, h, g, r, c), 255);
}

proof fn lemma_cell_range(p: int, t: int, n: int)
    requires
        p >= 0,
        t >= 1,
        n >= 1,
    ensures
        0 <= axis_cell(p, t, n) < n,
        0 <= next_cell(axis_cell(p, t, n), n) < n,
        0 <= axis_weight(p, t, n) <= 2 * t,
{
    if 2 * p >= t {
        lemma_div_is_ordered(0, 2 * p - t, 2 * t);
    }
}

proof fn lemma_flat_adaptive(p: Seq<u16>, w: int, h: int, g: ClaheGridSize, milli: int, v: u16)
    requires
        grid_fits(g, w, h),
        p.len() == w * h,
        forall|i: int| 0 <= i < p.len() ==> p[i] == v,
        v <= 255,
    ensures
        forall|k: int|
            0 <= k < p.len() ==> #[trigger] equalized_sample(p, w, h, g, BinDomain::Luma, milli, false, k) == v,
{
    let d = BinDomain::Luma;
    lemma_axis_basics(w, g.w as int);
    lemma_axis_basics(h, g.h as int);
    let tx = tile_len(w, g.w as int);
    let ty = tile_len(h, g.h as int);
    let nx = tile_count(w, g.w as int);
    let ny = tile_count(h, g.h as int);
    assert forall|k: int| 0 <= k < p.len() implies #[trigger] equalized_sample(p, w, h, g, d, milli, false, k)
        == v by {
        let x = k % w;
        let y = k / w;
        lemma_fundamental_div_mod(k, w);
        lemma_div_is_ordered(0, k, w);
        let c = axis_cell(x, tx, nx);
        let r = axis_cell(y, ty, ny);
        lemma_cell_range(x, tx, nx);
        lemma_cell_range(y, ty, ny);
        let c1 = next_cell(c, nx);
        let r1 = next_cell(r, ny);
        assert(bin_of(d, p[k]) == v);
        lemma_flat_tile(p, w, h, g, milli, v, r, c);
        lemma_flat_tile(p, w, h, g, milli, v, r, c1);
        lemma_flat_tile(p, w, h, g, milli, v, r1, c);
        lemma_flat_tile(p, w, h, g, milli, v, r1, c1);
        let a = axis_weight(x, tx, nx);
        let bw = axis_weight(y, ty, ny);
        lemma_blend_equal(v as int, a, 2 * tx, bw, 2 * ty);
        lemma_cancel(1, v as int, 2 * tx, 2 * ty);
        assert(4 * tx * ty == (2 * tx) * (2 * ty)) by (nonlinear_arith);
    }
}

/// A plane of luma samples that all hold one value is left unchanged by
/// global equalization, and by adaptive equalization without clipping for
/// any grid that fits the plane.
pub proof fn lemma_flat_plane_unchanged(p: Seq<u16>, w: int, h: int, g: ClaheGridSize, milli: int, v: u16)
    requires
        grid_fits(g, w, h),
        p.len() == w * h,
        forall|i: int| 0 <= i < p.len() ==> p[i] == v,
        v <= 255,
    ensures
        forall|k: int|
            0 <= k < p.len() ==> #[trigger] equalized_sample(p, w, h, g, BinDomain::Luma, milli, false, k) == v,
        forall|k: int| 0 <= k < p.len() ==> #[trigger] global_sample(p, w, h, BinDomain::Luma, k) == v,
{
    let g1 = ClaheGridSize { w: 1, h: 1 };
    lemma_flat_adaptive(p, w, h, g, milli, v);
    lemma_flat_adaptive(p, w, h, g1, milli, v);
    lemma_single_tile_is_global(p, w, h, BinDomain::Luma, milli, false);
    assert forall|k: int| 0 <= k < p.len() implies #[trigger] global_sample(p, w, h, BinDomain::Luma, k) == v by {
        assert(equalized_sample(p, w, h, g1, BinDomain::Luma, milli, false, k) == v);
    }
}

/// The tile along an axis that holds position `p` (the last tile runs to the edge).
pub open spec fn tile_of(p: int, t: int, n: int) -> int {
    if p / t > n - 1 {
        n - 1
    } else {
        p / t
    }
}

/// Sample `k` equalized by the table of its own tile alone, unclipped.
pub open spec fn square_sample(p: Seq<u16>, w: int, h: int, g: ClaheGridSize, d: BinDomain, k: int) -> int {
    let c = tile_of(k % w, tile_len(w, g.w as int), tile_count(w, g.w as int));
    let r = tile_of(k / w, tile_len(h, g.h as int), tile_count(h, g.h as int));
    d.scale() * table_at(p, w, h, g, d, 0, false, r, c)[bin_of(d, p[k])]
}

fn tile_of_exec(p: u32, t: u32, n: u32) -> (r: u32)
    requires
        t >= 1,
        n >= 1,
    ensures
        r == tile_of(p as int, t as int, n as int),
        r < n,
{
    let q = p / t;
    if q > n - 1 {
        n - 1
    } else {
        q
    }
}

/// Equalizes each tile of the grid on its own, with its own unclipped
/// histogram and no blending across tile borders.
pub fn equalize_plane_squares(plane: &mut [u16], width: u32, height: u32, grid: ClaheGridSize, domain: BinDomain) -> (r:
    Result<(), AheError>)
    requires
        old(plane)@.len() == width * height,
    ensures
        r == Err::<(), AheError>(AheError::ZeroGrid) <==> grid.w == 0 || grid.h == 0,
        r == Err::<(), AheError>(AheError::GridExceedsImage) <==> grid.w != 0 && grid.h != 0 && (grid.w > width
            || grid.h > height),
        r is Ok <==> grid_fits(grid, width as int, height as int),
        r is Err ==> final(plane)@ == old(plane)@,
        final(plane)@.len() == old(plane)@.len(),
        r is Ok ==> forall|k: int|
            0 <= k < final(plane)@.len() ==> final(plane)@[k] == square_sample(
                old(plane)@,
                width as int,
                height as int,
                grid,
                domain,
                k,
            ),
        r is Ok ==> forall|k: int|
            0 <= k < final(plane)@.len() ==> final(plane)@[k] <= domain.scale() * domain.out_max(),
{
    if grid.w == 0 || grid.h == 0 {
        return Err(AheError::ZeroGrid);
    }
    if grid.w > width || grid.h > height {
        return Err(AheError::GridExceedsImage);
    }
    let tables = build_tables(plane, width, height, grid, domain, 0, false);
    proof {
        lemma_axis_basics(width as int, grid.w as int);
        lemma_axis_basics(height as int, grid.h as int);
    }
    let ghost p = plane@;
    let tx = width / grid.w;
    let ty = height / grid.h;
    let nx = width / tx;
    let ny = height / ty;
    let scale = domain.sample_scale();
    let n = plane.len();
    let w = width as usize;
    let mut k: usize = 0;
    while k < n
        invariant
            p == old(plane)@,
            grid_fits(grid, width as int, height as int),
            tables_ok(tables@, p, width as int, height as int, grid, domain, 0, false),
            n == p.len(),
            n == width * height,
            w == width,
            tx == tile_len(width as int, grid.w as int),
            ty == tile_len(height as int, grid.h as int),
            nx == tile_count(width as int, grid.w as int),
            ny == tile_count(height as int, grid.h as int),
            tx >= 1,
            ty >= 1,
            nx >= 1,
            ny >= 1,
            scale == domain.scale(),
            plane@.len() == n,
            k <= n,
            forall|j: int|
                0 <= j < k ==> plane@[j] == square_sample(p, width as int, height as int, grid, domain, j),
            forall|j: int| k <= j < n ==> plane@[j] == p[j],
            forall|j: int| 0 <= j < k ==> plane@[j] <= domain.scale() * domain.out_max(),
        decreases n - k,
    {
        proof {
            lemma_fundamental_div_mod(k as int, w as int);
            assert(k / w < height) by (nonlinear_arith)
                requires k == w * (k / w) + k % w, k % w >= 0, k < w * height, w >= 1;
            lemma_div_is_ordered(0, k as int, w as int);
        }
        let c = tile_of_exec((k % w) as u32, tx, nx);
        let r = tile_of_exec((k / w) as u32, ty, ny);
        let b = bin_index(domain, plane[k]);
        let v = tables[r as usize][c as usize][b];
        proof {
            assert(scale * v <= domain.scale() * domain.out_max()) by (nonlinear_arith)
                requires v <= domain.out_max(), scale == domain.scale(), scale >= 0, v >= 0;
            assert(domain.scale() * domain.out_max() <= 10000);
        }
        plane[k] = (scale as u64 * v) as u16;
        k += 1;
    }
    Ok(())
}

} // verus!
