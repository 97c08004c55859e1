//! Erosion of the mask of differing pixels.

use vstd::prelude::*;

verus! {

/// Whether `(x, y)` lies on the `w` × `h` raster and is set in `m`.
pub open spec fn set_at(m: Seq<bool>, w: int, h: int, x: int, y: int) -> bool {
    0 <= x < w && 0 <= y < h && m[y * w + x]
}

/// 1 when `(x, y)` is a set pixel of the raster, else 0.
pub open spec fn one_if_set(m: Seq<bool>, w: int, h: int, x: int, y: int) -> int {
    if set_at(m, w, h, x, y) { 1 } else { 0 }
}

/// Number of set pixels among the eight neighbours of `(x, y)`.
pub open spec fn neighbour_count(m: Seq<bool>, w: int, h: int, x: int, y: int) -> int {
    one_if_set(m, w, h, x - 1, y - 1) + one_if_set(m, w, h, x, y - 1) + one_if_set(m, w, h, x + 1, y - 1)
        + one_if_set(m, w, h, x - 1, y) + one_if_set(m, w, h, x + 1, y)
        + one_if_set(m, w, h, x - 1, y + 1) + one_if_set(m, w, h, x, y + 1) + one_if_set(m, w, h, x + 1, y + 1)
}

/// A differing pixel survives erosion when at least two of its eight
/// neighbours differ too.
pub open spec fn survives_erosion(m: Seq<bool>, w: int, h: int, x: int, y: int) -> bool {
    m[y * w + x] && neighbour_count(m, w, h, x, y) >= 2
}

pub proof fn lemma_index_in_raster(w: int, h: int, x: int, y: int)
    requires
        0 <= x < w,
        0 <= y < h,
    ensures
        0 <= y * w + x < w * h,
{
    assert(0 <= y * w) by (nonlinear_arith)
        requires
            0 <= y,
            0 <= w,
    ;
    assert(y * w + x < w * h) by (nonlinear_arith)
        requires
            0 <= x < w,
            0 <= y < h,
    ;
}

/// Whether the neighbour of `(x, y)` at offset `(ox, oy)` (each -1, 0 or 1)
/// is a set pixel.
fn neighbour_set(m: &Vec<bool>, w: usize, h: usize, x: usize, y: usize, ox: i8, oy: i8) -> (b: bool)
    requires
        m@.len() == w * h,
        x < w,
        y < h,
        -1 <= ox <= 1,
        -1 <= oy <= 1,
    ensures
        b == set_at(m@, w as int, h as int, x + ox, y + oy),
{
    let nx: usize = if ox < 0 {
        if x == 0 {
            return false;
        }
        x - 1
    } else if ox > 0 {
        if x + 1 >= w {
            return false;
        }
        x + 1
    } else {
        x
    };
    let ny: usize = if oy < 0 {
        if y == 0 {
            return false;
        }
        y - 1
    } else if oy > 0 {
        if y + 1 >= h {
            return false;
        }
        y + 1
    } else {
        y
    };
    let n = m.len();
    proof {
        lemma_index_in_raster(w as int, h as int, nx as int, ny as int);
    }
    m[ny * w + nx]
}

/// Erode a mask of differing pixels: a set pixel stays set only when at
/// least two of its eight neighbours are set as well, which removes the
/// thin fringes left by anti-aliased re-rendering.
pub fn erode_mask(diffs: &Vec<bool>, w: usize, h: usize) -> (mask: Vec<bool>)
    requires
        diffs@.len() == w * h,
    ensures
        mask@.len() == diffs@.len(),
        forall|x: int, y: int|
            0 <= x < w && 0 <= y < h ==> #[trigger] mask@[y * w + x] == survives_erosion(
                diffs@,
                w as int,
                h as int,
                x,
                y,
            ),
{
    let mut mask: Vec<bool> = Vec::new();
    let ghost d = diffs@;
    let n = diffs.len();
    assert(0 * w == 0);
    for y in 0..h
        invariant
            d == diffs@,
            d.len() == w * h,
            n == w * h,
            mask@.len() == y * w,
            forall|px: int, py: int|
                0 <= px < w && 0 <= py < y ==> #[trigger] mask@[py * w + px] == survives_erosion(
                    d,
                    w as int,
                    h as int,
                    px,
                    py,
                ),
    {
        for x in 0..w
            invariant
                d == diffs@,
                d.len() == w * h,
                n == w * h,
                y < h,
                mask@.len() == y * w + x,
                forall|px: int, py: int|
                    0 <= px < w && 0 <= py < y ==> #[trigger] mask@[py * w + px] == survives_erosion(
                        d,
                        w as int,
                        h as int,
                        px,
                        py,
                    ),
                forall|px: int| 0 <= px < x ==> #[trigger] mask@[y * w + px] == survives_erosion(
                    d,
                    w as int,
                    h as int,
                    px,
                    y as int,
                ),
        {
            proof {
                lemma_index_in_raster(w as int, h as int, x as int, y as int);
            }
            let idx = y * w + x;
            let mut keep = false;
            if diffs[idx] {
                let mut count: u8 = 0;
                if neighbour_set(diffs, w, h, x, y, -1, -1) { count = count + 1; }
                if neighbour_set(diffs, w, h, x, y, 0, -1) { count = count + 1; }
                if neighbour_set(diffs, w, h, x, y, 1, -1) { count = count + 1; }
                if neighbour_set(diffs, w, h, x, y, -1, 0) { count = count + 1; }
                if neighbour_set(diffs, w, h, x, y, 1, 0) { count = count + 1; }
                if neighbour_set(diffs, w, h, x, y, -1, 1) { count = count + 1; }
                if neighbour_set(diffs, w, h, x, y, 0, 1) { count = count + 1; }
                if neighbour_set(diffs, w, h, x, y, 1, 1) { count = count + 1; }
                keep = count >= 2;
            }
            let ghost before = mask@;
            mask.push(keep);
            proof {
                assert(mask@[y * w + x] == survives_erosion(d, w as int, h as int, x as int, y as int));
                assert forall|px: int, py: int|
                    0 <= px < w && 0 <= py < y implies #[trigger] mask@[py * w + px] == survives_erosion(
                        d,
                        w as int,
                        h as int,
                        px,
                        py,
                    ) by {
                    assert(py * w + px < y * w) by (nonlinear_arith)
                        requires
                            0 <= px < w,
                            0 <= py < y,
                    ;
                    assert(mask@[py * w + px] == before[py * w + px]);
                }
                assert forall|px: int| 0 <= px < x + 1 implies #[trigger] mask@[y * w + px] == survives_erosion(
                    d,
                    w as int,
                    h as int,
                    px,
                    y as int,
                ) by {
                    if px < x {
                        assert(mask@[y * w + px] == before[y * w + px]);
                    }
                }
            }
        }
        proof {
            assert forall|px: int, py: int|
                0 <= px < w && 0 <= py < y + 1 implies #[trigger] mask@[py * w + px] == survives_erosion(
                    d,
                    w as int,
                    h as int,
                    px,
                    py,
                ) by {
                if py == y {
                } else {
                }
            }
            assert((y + 1) * w == y * w + w) by (nonlinear_arith);
        }
    }
    assert(h * w == w * h) by (nonlinear_arith);
    mask
}

/// Erosion only removes pixels: whatever survives was set before.
pub proof fn law_erosion_only_removes(m: Seq<bool>, w: int, h: int, x: int, y: int)
    requires
        survives_erosion(m, w, h, x, y),
    ensures
        m[y * w + x],
{
}

/// A set pixel with no set neighbour never survives erosion.
pub proof fn law_isolated_pixel_is_removed(m: Seq<bool>, w: int, h: int, x: int, y: int)
    requires
        neighbour_count(m, w, h, x, y) == 0,
    ensures
        !survives_erosion(m, w, h, x, y),
{
}

} // verus!
