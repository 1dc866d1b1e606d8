//! Marking a point of a raster with a filled disc.

use vstd::prelude::*;
use crate::color::Pixel;
use crate::raster::{before, lemma_index_in_range, lemma_position_of_index, Grid, Image};

verus! {

/// The colour of a marked point: opaque magenta.
pub open spec fn marker() -> Pixel {
    Pixel { r: 255, g: 0, b: 255, a: 255 }
}

/// Whether the coordinate `u` lies in the window of the given radius around
/// `centre`.
pub open spec fn near(centre: int, radius: int, u: int) -> bool {
    -radius <= u - centre < radius
}

/// Whether `(u, v)` belongs to the mark of the given radius around `(x, y)`:
/// its offset lies in the window `-radius <= i, j < radius` and within the
/// circle of that radius.
pub open spec fn in_mark(x: int, y: int, radius: int, u: int, v: int) -> bool {
    &&& near(x, radius, u)
    &&& near(y, radius, v)
    &&& (u - x) * (u - x) + (v - y) * (v - y) <= radius * radius
}

/// The raster with the part of the mark that comes before `(column, row)`
/// drawn.
spec fn marked_until(grid: Grid, x: int, y: int, radius: int, column: int, row: int) -> Grid {
    Grid {
        width: grid.width,
        height: grid.height,
        pixels: Seq::new(
            grid.pixels.len(),
            |k: int|
                if in_mark(x, y, radius, k % (grid.width as int), k / (grid.width as int))
                    && before(k % (grid.width as int), k / (grid.width as int), column, row) {
                    marker()
                } else {
                    grid.pixels[k]
                },
        ),
    }
}

/// The raster with the whole mark drawn: every position of the mark that
/// lies inside the raster holds the marker colour, and every other position
/// is as it was.
pub open spec fn marked(grid: Grid, x: int, y: int, radius: int) -> Grid {
    Grid {
        width: grid.width,
        height: grid.height,
        pixels: Seq::new(
            grid.pixels.len(),
            |k: int|
                if in_mark(x, y, radius, k % (grid.width as int), k / (grid.width as int)) {
                    marker()
                } else {
                    grid.pixels[k]
                },
        ),
    }
}

/// The first and one past the last coordinate below `extent` that lies
/// within `radius` of `centre`; an empty range where there is none.
fn clip(centre: usize, radius: isize, extent: u32) -> (range: (u32, u32))
    requires
        radius > 0,
    ensures
        range.0 <= range.1 <= extent,
        forall|u: int|
            0 <= u < extent ==> (range.0 <= u < range.1 <==> #[trigger] near(
                centre as int,
                radius as int,
                u,
            )),
{
    let c: i128 = centre as i128;
    let r: i128 = radius as i128;
    let e: i128 = extent as i128;
    let lo: i128 = if c - r > 0 {
        c - r
    } else {
        0
    };
    let hi: i128 = if c + r < e {
        c + r
    } else {
        e
    };
    if lo >= hi {
        (0, 0)
    } else {
        (lo as u32, hi as u32)
    }
}

/// Whether the offset from `(x, y)` to `(u, v)` lies within the circle of
/// the given radius.
fn within(x: usize, y: usize, radius: isize, u: u32, v: u32) -> (inside: bool)
    requires
        radius > 0,
        near(x as int, radius as int, u as int),
        near(y as int, radius as int, v as int),
    ensures
        inside == in_mark(x as int, y as int, radius as int, u as int, v as int),
{
    let i: i128 = u as i128 - x as i128;
    let j: i128 = v as i128 - y as i128;
    let r: i128 = radius as i128;
    assert(0 <= i * i <= 0x8000_0000_0000_0000 * 0x8000_0000_0000_0000) by (nonlinear_arith)
        requires
            -0x8000_0000_0000_0000 <= i <= 0x8000_0000_0000_0000,
    ;
    assert(0 <= j * j <= 0x8000_0000_0000_0000 * 0x8000_0000_0000_0000) by (nonlinear_arith)
        requires
            -0x8000_0000_0000_0000 <= j <= 0x8000_0000_0000_0000,
    ;
    assert(0 <= r * r <= 0x8000_0000_0000_0000 * 0x8000_0000_0000_0000) by (nonlinear_arith)
        requires
            0 <= r <= 0x8000_0000_0000_0000,
    ;
    (i * i) as u128 + (j * j) as u128 <= (r * r) as u128
}

/// Draws a filled disc of the marker colour around `(x, y)`: every position
/// of the raster whose offset from `(x, y)` lies in the window
/// `-radius <= i, j < radius` and within the circle of that radius is set to
/// opaque magenta. Nothing is drawn for a radius of zero or less, nor
/// outside the raster.
pub fn draw_point(img: &mut Image, x: usize, y: usize, radius: isize)
    requires
        old(img).wf(),
    ensures
        final(img).wf(),
        final(img)@ == marked(old(img)@, x as int, y as int, radius as int),
{
    proof {
        img.lemma_view_wf();
    }
    let ghost start = img@;
    let ghost cx = x as int;
    let ghost cy = y as int;
    let ghost r = radius as int;
    let width: u32 = img.width();
    let height: u32 = img.height();
    if radius <= 0 {
        assert(img@.pixels =~= marked(start, cx, cy, r).pixels);
        return ;
    }
    let (u_lo, u_hi) = clip(x, radius, width);
    let (v_lo, v_hi) = clip(y, radius, height);
    if u_lo >= u_hi {
        proof {
            let target = marked(start, cx, cy, r);
            assert forall|k: int| 0 <= k < start.pixels.len() implies #[trigger] img@.pixels[k]
                == target.pixels[k] by {
                lemma_position_of_index(width as int, height as int, k);
                assert(!near(cx, r, k % (width as int)));
            }
            assert(img@.pixels =~= target.pixels);
        }
        return ;
    }
    proof {
        let target = marked_until(start, cx, cy, r, 0, v_lo as int);
        assert forall|k: int| 0 <= k < start.pixels.len() implies #[trigger] img@.pixels[k]
            == target.pixels[k] by {
            lemma_position_of_index(width as int, height as int, k);
            if k / (width as int) < v_lo {
                assert(!near(cy, r, k / (width as int)));
            }
        }
        assert(img@.pixels =~= target.pixels);
    }
    let mut v: u32 = v_lo;
    while v < v_hi
        invariant
            img.wf(),
            start.wf(),
            width == start.width,
            height == start.height,
            r == radius > 0,
            cx == x,
            cy == y,
            u_lo < u_hi <= width,
            v_lo <= v <= v_hi <= height,
            forall|u: int| 0 <= u < width ==> (u_lo <= u < u_hi <==> #[trigger] near(cx, r, u)),
            forall|w: int| 0 <= w < height ==> (v_lo <= w < v_hi <==> #[trigger] near(cy, r, w)),
            img@ == marked_until(start, cx, cy, r, 0, v as int),
        decreases v_hi - v,
    {
        proof {
            let target = marked_until(start, cx, cy, r, u_lo as int, v as int);
            assert forall|k: int| 0 <= k < start.pixels.len() implies #[trigger] img@.pixels[k]
                == target.pixels[k] by {
                lemma_position_of_index(width as int, height as int, k);
                if k % (width as int) < u_lo {
                    assert(!near(cx, r, k % (width as int)));
                }
            }
            assert(img@.pixels =~= target.pixels);
        }
        let mut u: u32 = u_lo;
        while u < u_hi
            invariant
                img.wf(),
                start.wf(),
                width == start.width,
                height == start.height,
                r == radius > 0,
                cx == x,
                cy == y,
                u_lo <= u <= u_hi <= width,
                v_lo <= v < v_hi <= height,
                forall|t: int| 0 <= t < width ==> (u_lo <= t < u_hi <==> #[trigger] near(cx, r, t)),
                forall|w: int|
                    0 <= w < height ==> (v_lo <= w < v_hi <==> #[trigger] near(cy, r, w)),
                img@ == marked_until(start, cx, cy, r, u as int, v as int),
            decreases u_hi - u,
        {
            let ghost current = img@;
            proof {
                assert(near(cx, r, u as int));
                assert(near(cy, r, v as int));
            }
            if within(x, y, radius, u, v) {
                img.put_pixel(u, v, Pixel { r: 255, g: 0, b: 255, a: 255 });
            }
            proof {
                lemma_index_in_range(width as int, height as int, u as int, v as int);
                let target = marked_until(start, cx, cy, r, u + 1, v as int);
                assert forall|k: int| 0 <= k < start.pixels.len() implies #[trigger] img@.pixels[k]
                    == target.pixels[k] by {
                    lemma_position_of_index(width as int, height as int, k);
                    if k != v * width + u {
                        assert(img@.pixels[k] == current.pixels[k]);
                    }
                }
                assert(img@.pixels =~= target.pixels);
            }
            u += 1;
        }
        proof {
            let target = marked_until(start, cx, cy, r, 0, v + 1);
            assert forall|k: int| 0 <= k < start.pixels.len() implies #[trigger] img@.pixels[k]
                == target.pixels[k] by {
                lemma_position_of_index(width as int, height as int, k);
                if k % (width as int) >= u_hi {
                    assert(!near(cx, r, k % (width as int)));
                }
            }
            assert(img@.pixels =~= target.pixels);
        }
        v += 1;
    }
    proof {
        let target = marked(start, cx, cy, r);
        assert forall|k: int| 0 <= k < start.pixels.len() implies #[trigger] img@.pixels[k]
            == target.pixels[k] by {
            lemma_position_of_index(width as int, height as int, k);
            if k / (width as int) >= v_hi {
                assert(!near(cy, r, k / (width as int)));
            }
        }
        assert(img@.pixels =~= target.pixels);
    }
}

} // verus!
