use vstd::prelude::*;
use vstd::arithmetic::div_mod::{lemma_div_is_ordered, lemma_fundamental_div_mod, lemma_div_by_multiple};

verus! {

/// How many tiles the image is split into along each axis.
#[derive(Clone, Copy, PartialEq, Eq, Debug)]
pub struct ClaheGridSize {
    pub w: u32,
    pub h: u32,
}

impl ClaheGridSize {
    pub fn new(w: u32, h: u32) -> (r: ClaheGridSize)
        ensures
            r.w == w,
            r.h == h,
    {
        ClaheGridSize { w, h }
    }
}

/// A grid can split an image when it has at least one tile per axis and no
/// more tiles than pixels along either axis.
pub open spec fn grid_fits(g: ClaheGridSize, width: int, height: int) -> bool {
    1 <= g.w <= width && 1 <= g.h <= height
}

/// The nominal extent of a tile along an axis of `len` pixels cut in `parts`.
pub open spec fn tile_len(len: int, parts: int) -> int {
    len / parts
}

/// How many tiles lie along the axis.
pub open spec fn tile_count(len: int, parts: int) -> int {
    len / tile_len(len, parts)
}

pub open spec fn tile_start(len: int, parts: int, i: int) -> int {
    i * tile_len(len, parts)
}

/// The end of tile `i`; the last tile runs to the edge of the image.
pub open spec fn tile_end(len: int, parts: int, i: int) -> int {
    if i + 1 == tile_count(len, parts) {
        len
    } else {
        (i + 1) * tile_len(len, parts)
    }
}

pub open spec fn in_axis_tile(len: int, parts: int, i: int, p: int) -> bool {
    tile_start(len, parts, i) <= p < tile_end(len, parts, i)
}

pub proof fn lemma_axis_basics(len: int, parts: int)
    requires
        1 <= parts <= len,
    ensures
        tile_len(len, parts) >= 1,
        tile_count(len, parts) >= 1,
        tile_count(len, parts) * tile_len(len, parts) <= len,
        len < (tile_count(len, parts) + 1) * tile_len(len, parts),
        tile_count(len, parts) <= len,
{
    let t = len / parts;
    lemma_div_is_ordered(parts, len, parts);
    lemma_div_by_multiple(1, parts);
    let n = len / t;
    lemma_div_is_ordered(t, len, t);
    lemma_div_by_multiple(1, t);
    lemma_fundamental_div_mod(len, t);
    assert(len % t < t);
    assert(t * n <= len);
    assert(n * t <= len) by (nonlinear_arith)
        requires t * n <= len;
    assert(len < (n + 1) * t) by (nonlinear_arith)
        requires len == t * n + len % t, len % t < t;
    assert(n <= len) by (nonlinear_arith)
        requires n * t <= len, t >= 1, n >= 0;
}

/// Every tile of an axis is a non-empty interval inside `[0, len)`.
pub proof fn lemma_axis_tile_bounds(len: int, parts: int, i: int)
    requires
        1 <= parts <= len,
        0 <= i < tile_count(len, parts),
    ensures
        0 <= tile_start(len, parts, i) < tile_end(len, parts, i) <= len,
{
    lemma_axis_basics(len, parts);
    let t = tile_len(len, parts);
    let n = tile_count(len, parts);
    assert(0 <= i * t < (i + 1) * t) by (nonlinear_arith)
        requires i >= 0, t >= 1;
    if i + 1 < n {
        assert((i + 1) * t <= n * t) by (nonlinear_arith)
            requires i + 1 < n, t >= 1;
    } else {
        assert(i * t < len) by (nonlinear_arith)
            requires i + 1 == n, n * t <= len, t >= 1;
    }
}

/// Each position of an axis lies in exactly one tile.
pub proof fn lemma_axis_cover(len: int, parts: int, p: int)
    requires
        1 <= parts <= len,
        0 <= p < len,
    ensures
        exists|i: int| 0 <= i < tile_count(len, parts) && in_axis_tile(len, parts, i, p),
        forall|i: int, j: int|
            0 <= i < tile_count(len, parts) && 0 <= j < tile_count(len, parts) && in_axis_tile(len, parts, i, p)
                && in_axis_tile(len, parts, j, p) ==> i == j,
{
    lemma_axis_basics(len, parts);
    let t = tile_len(len, parts);
    let n = tile_count(len, parts);
    let q = p / t;
    lemma_fundamental_div_mod(p, t);
    assert(p % t >= 0 && p % t < t);
    assert(q >= 0) by {
        lemma_div_is_ordered(0, p, t);
    }
    let c = if q > n - 1 {
        n - 1
    } else {
        q
    };
    assert(in_axis_tile(len, parts, c, p)) by {
        assert(c * t <= q * t) by (nonlinear_arith)
            requires c <= q, t >= 1;
        assert(q * t <= p) by (nonlinear_arith)
            requires p == t * q + p % t, p % t >= 0;
        if c + 1 != n {
            assert(p < (q + 1) * t) by (nonlinear_arith)
                requires p == t * q + p % t, p % t < t;
        }
    }
    assert forall|i: int, j: int|
        0 <= i < n && 0 <= j < n && in_axis_tile(len, parts, i, p) && in_axis_tile(len, parts, j, p) implies i
        == j by {
        if i < j {
            assert((i + 1) * t <= j * t) by (nonlinear_arith)
                requires i + 1 <= j, t >= 1;
        } else if j < i {
            assert((j + 1) * t <= i * t) by (nonlinear_arith)
                requires j + 1 <= i, t >= 1;
        }
    }
}

/// Whether pixel `(x, y)` lies in the tile at row `r`, column `c`.
pub open spec fn in_tile(width: int, height: int, g: ClaheGridSize, r: int, c: int, x: int, y: int) -> bool {
    &&& 0 <= r < tile_count(height, g.h as int)
    &&& 0 <= c < tile_count(width, g.w as int)
    &&& in_axis_tile(width, g.w as int, c, x)
    &&& in_axis_tile(height, g.h as int, r, y)
}

/// Whether some tile holds pixel `(x, y)`.
pub open spec fn covered(width: int, height: int, g: ClaheGridSize, x: int, y: int) -> bool {
    exists|r: int, c: int| in_tile(width, height, g, r, c, x, y)
}

/// The tiles cover the image exactly: every pixel lies in one tile and in no
/// other, and every tile is a non-empty rectangle inside the image.
pub proof fn lemma_grid_coverage(width: int, height: int, g: ClaheGridSize)
    requires
        grid_fits(g, width, height),
    ensures
        forall|x: int, y: int|
            0 <= x < width && 0 <= y < height ==> #[trigger] covered(width, height, g, x, y),
        forall|x: int, y: int, r1: int, c1: int, r2: int, c2: int|
            #[trigger] in_tile(width, height, g, r1, c1, x, y) && #[trigger] in_tile(width, height, g, r2, c2, x, y)
                ==> r1 == r2 && c1 == c2,
        forall|c: int|
            0 <= c < tile_count(width, g.w as int) ==> 0 <= #[trigger] tile_start(width, g.w as int, c) < tile_end(
                width,
                g.w as int,
                c,
            ) <= width,
        forall|r: int|
            0 <= r < tile_count(height, g.h as int) ==> 0 <= #[trigger] tile_start(height, g.h as int, r) < tile_end(
                height,
                g.h as int,
                r,
            ) <= height,
{
    assert forall|x: int, y: int| 0 <= x < width && 0 <= y < height implies #[trigger] covered(
        width,
        height,
        g,
        x,
        y,
    ) by {
        lemma_axis_cover(width, g.w as int, x);
        lemma_axis_cover(height, g.h as int, y);
        let c = choose|c: int| 0 <= c < tile_count(width, g.w as int) && in_axis_tile(width, g.w as int, c, x);
        let r = choose|r: int| 0 <= r < tile_count(height, g.h as int) && in_axis_tile(height, g.h as int, r, y);
        assert(in_tile(width, height, g, r, c, x, y));
    }
    assert forall|x: int, y: int, r1: int, c1: int, r2: int, c2: int|
        #[trigger] in_tile(width, height, g, r1, c1, x, y) && #[trigger] in_tile(width, height, g, r2, c2, x, y)
        implies r1 == r2 && c1 == c2 by {
        lemma_axis_basics(width, g.w as int);
        lemma_axis_basics(height, g.h as int);
        assert(0 <= x < width) by {
            lemma_axis_tile_bounds(width, g.w as int, c1);
        }
        assert(0 <= y < height) by {
            lemma_axis_tile_bounds(height, g.h as int, r1);
        }
        lemma_axis_cover(width, g.w as int, x);
        lemma_axis_cover(height, g.h as int, y);
    }
    assert forall|c: int| 0 <= c < tile_count(width, g.w as int) implies 0 <= #[trigger] tile_start(
        width,
        g.w as int,
        c,
    ) < tile_end(width, g.w as int, c) <= width by {
        lemma_axis_tile_bounds(width, g.w as int, c);
    }
    assert forall|r: int| 0 <= r < tile_count(height, g.h as int) implies 0 <= #[trigger] tile_start(
        height,
        g.h as int,
        r,
    ) < tile_end(height, g.h as int, r) <= height by {
        lemma_axis_tile_bounds(height, g.h as int, r);
    }
}

} // verus!
