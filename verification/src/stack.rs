//! Stacking rasters into one: each below the one before, aligned to the
//! left edge, on a dark background.

use vstd::prelude::*;
use crate::color::{dark, Pixel};
use crate::raster::{before, lemma_index_in_range, lemma_position_of_index, Grid, Image};

verus! {

/// The views of a sequence of rasters.
pub open spec fn views_of(images: Seq<Image>) -> Seq<Grid> {
    Seq::new(images.len(), |i: int| images[i]@)
}

/// The width of a stack: the largest width of its rasters.
pub open spec fn stacked_width(grids: Seq<Grid>) -> nat
    decreases grids.len(),
{
    if grids.len() == 0 {
        0
    } else if stacked_width(grids.drop_last()) >= grids.last().width {
        stacked_width(grids.drop_last())
    } else {
        grids.last().width
    }
}

/// The height of a stack: the sum of the heights of its rasters.
pub open spec fn stacked_height(grids: Seq<Grid>) -> nat
    decreases grids.len(),
{
    if grids.len() == 0 {
        0
    } else {
        stacked_height(grids.drop_last()) + grids.last().height
    }
}

/// The pixel at `(u, v)` of a stack: that of the raster whose rows span `v`,
/// where that raster is wide enough, and dark elsewhere.
pub open spec fn stacked_pixel(grids: Seq<Grid>, u: int, v: int) -> Pixel
    decreases grids.len(),
{
    if grids.len() == 0 {
        dark()
    } else {
        let rest = grids.drop_last();
        let last = grids.last();
        let top = stacked_height(rest);
        if v < top {
            stacked_pixel(rest, u, v)
        } else if v < top + last.height && 0 <= u < last.width {
            last.at(u, v - top)
        } else {
            dark()
        }
    }
}

/// The first `count` rasters of `grids` drawn on the canvas of the whole
/// stack.
spec fn stacked_until(grids: Seq<Grid>, count: int) -> Grid {
    Grid {
        width: stacked_width(grids),
        height: stacked_height(grids),
        pixels: Seq::new(
            stacked_width(grids) * stacked_height(grids),
            |k: int|
                stacked_pixel(
                    grids.take(count),
                    k % (stacked_width(grids) as int),
                    k / (stacked_width(grids) as int),
                ),
        ),
    }
}

/// The stack of a sequence of rasters.
pub open spec fn stacked(grids: Seq<Grid>) -> Grid {
    Grid {
        width: stacked_width(grids),
        height: stacked_height(grids),
        pixels: Seq::new(
            stacked_width(grids) * stacked_height(grids),
            |k: int|
                stacked_pixel(
                    grids,
                    k % (stacked_width(grids) as int),
                    k / (stacked_width(grids) as int),
                ),
        ),
    }
}

/// Below its last row a stack is dark.
pub proof fn lemma_stacked_pixel_below(grids: Seq<Grid>, u: int, v: int)
    requires
        v >= stacked_height(grids),
    ensures
        stacked_pixel(grids, u, v) == dark(),
{
}

/// A longer stack is at least as wide and as high as a shorter one, and as
/// wide as each of its rasters.
pub proof fn lemma_stack_grows(grids: Seq<Grid>, count: int)
    requires
        0 <= count <= grids.len(),
    ensures
        stacked_width(grids.take(count)) <= stacked_width(grids),
        stacked_height(grids.take(count)) <= stacked_height(grids),
        count < grids.len() ==> grids[count].width <= stacked_width(grids),
        count < grids.len() ==> stacked_height(grids.take(count)) + grids[count].height
            <= stacked_height(grids),
    decreases grids.len() - count,
{
    if count == grids.len() {
        assert(grids.take(count) =~= grids);
    } else {
        assert(grids.take(count + 1).drop_last() =~= grids.take(count));
        lemma_stack_grows(grids, count + 1);
    }
}

/// The canvas of the whole stack with the first `count` rasters drawn, and
/// of raster `count` the part that comes before `(column, row)`.
spec fn stacked_partly(grids: Seq<Grid>, count: int, column: int, row: int) -> Grid {
    let width = stacked_width(grids) as int;
    let top = stacked_height(grids.take(count)) as int;
    Grid {
        width: stacked_width(grids),
        height: stacked_height(grids),
        pixels: Seq::new(
            stacked_width(grids) * stacked_height(grids),
            |k: int|
                if grids[count].contains(k % width, k / width - top) && before(
                    k % width,
                    k / width - top,
                    column,
                    row,
                ) {
                    grids[count].at(k % width, k / width - top)
                } else {
                    stacked_pixel(grids.take(count), k % width, k / width)
                },
        ),
    }
}

/// The stack of the given rasters: as wide as the widest, as high as all
/// of them together, each raster below the one before and aligned to the
/// left edge, the rest dark. There is no stack where the height exceeds 32
/// bits or the samples do not fit in a buffer.
pub fn stack(images: &Vec<Image>) -> (res: Option<Image>)
    requires
        forall|i: int| 0 <= i < images@.len() ==> (#[trigger] images@[i]).wf(),
    ensures
        res is Some <==> stacked_height(views_of(images@)) <= u32::MAX && 4 * (stacked_width(
            views_of(images@),
        ) * stacked_height(views_of(images@))) <= isize::MAX,
        res matches Some(out) ==> out.wf() && out@ == stacked(views_of(images@)),
{
    let ghost grids = views_of(images@);
    let count: usize = images.len();
    let mut width: u32 = 0;
    let mut total: u128 = 0;
    let mut n: usize = 0;
    while n < count
        invariant
            count == images@.len() == grids.len(),
            grids == views_of(images@),
            n <= count,
            width == stacked_width(grids.take(n as int)),
            total == stacked_height(grids.take(n as int)),
            total <= n * 0x1_0000_0000,
        decreases count - n,
    {
        let w: u32 = images[n].width();
        let h: u32 = images[n].height();
        proof {
            assert(grids.take(n + 1).drop_last() =~= grids.take(n as int));
            assert(grids.take(n + 1).last() == images@[n as int]@);
        }
        if w > width {
            width = w;
        }
        total = total + h as u128;
        n += 1;
    }
    proof {
        assert(grids.take(count as int) =~= grids);
    }
    if total > u32::MAX as u128 {
        return None;
    }
    let height: u32 = total as u32;
    let mut canvas: Image = match Image::filled(width, height, Pixel { r: 0, g: 0, b: 0, a: 255 }) {
        Some(canvas) => canvas,
        None => {
            return None;
        },
    };
    proof {
        canvas.lemma_view_wf();
        assert(grids.take(0) =~= Seq::<Grid>::empty());
        assert(canvas@.pixels =~= stacked_until(grids, 0).pixels);
    }
    let mut top: u32 = 0;
    let mut n: usize = 0;
    while n < count
        invariant
            count == images@.len() == grids.len(),
            grids == views_of(images@),
            forall|i: int| 0 <= i < images@.len() ==> (#[trigger] images@[i]).wf(),
            n <= count,
            canvas.wf(),
            width == stacked_width(grids),
            height == stacked_height(grids),
            top == stacked_height(grids.take(n as int)),
            canvas@ == stacked_until(grids, n as int),
        decreases count - n,
    {
        let img: &Image = &images[n];
        let w: u32 = img.width();
        let h: u32 = img.height();
        let ghost grid = grids[n as int];
        proof {
            img.lemma_view_wf();
            canvas.lemma_view_wf();
            lemma_stack_grows(grids, n as int);
            assert(grids.take(n + 1).drop_last() =~= grids.take(n as int));
            assert(grids.take(n + 1).last() == grid);
            assert(grid == img@);
            let target = stacked_partly(grids, n as int, 0, 0);
            assert(canvas@.pixels =~= target.pixels);
        }
        let mut v: u32 = 0;
        while v < h
            invariant
                grids == views_of(images@),
                n < count == grids.len(),
                img.wf(),
                grid == img@,
                grid == grids[n as int],
                grid.wf(),
                w == grid.width <= width,
                h == grid.height,
                top + h <= height,
                v <= h,
                canvas.wf(),
                width == stacked_width(grids),
                height == stacked_height(grids),
                top == stacked_height(grids.take(n as int)),
                canvas@ == stacked_partly(grids, n as int, 0, v as int),
            decreases h - v,
        {
            let mut u: u32 = 0;
            while u < w
                invariant
                    grids == views_of(images@),
                    n < count == grids.len(),
                    img.wf(),
                    grid == img@,
                grid == grids[n as int],
                    grid.wf(),
                    w == grid.width <= width,
                    h == grid.height,
                    top + h <= height,
                    v < h,
                    u <= w,
                    canvas.wf(),
                    width == stacked_width(grids),
                    height == stacked_height(grids),
                    top == stacked_height(grids.take(n as int)),
                    canvas@ == stacked_partly(grids, n as int, u as int, v as int),
                decreases w - u,
            {
                let p: Pixel = img.get_pixel(u, v);
                let ghost current = canvas@;
                canvas.put_pixel(u, top + v, p);
                proof {
                    lemma_index_in_range(width as int, height as int, u as int, top + v);
                    let target = stacked_partly(grids, n as int, u + 1, v as int);
                    assert forall|k: int|
                        0 <= k < target.pixels.len() implies #[trigger] canvas@.pixels[k]
                        == target.pixels[k] by {
                        lemma_position_of_index(width as int, height as int, k);
                        if k != (top + v) * width + u {
                            assert(canvas@.pixels[k] == current.pixels[k]);
                        }
                    }
                    assert(canvas@.pixels =~= target.pixels);
                }
                u += 1;
            }
            proof {
                let target = stacked_partly(grids, n as int, 0, v + 1);
                assert(canvas@.pixels =~= target.pixels);
            }
            v += 1;
        }
        proof {
            let target = stacked_until(grids, n + 1);
            assert forall|k: int| 0 <= k < target.pixels.len() implies #[trigger] canvas@.pixels[k]
                == target.pixels[k] by {
                if k / (width as int) >= top {
                    lemma_stacked_pixel_below(
                        grids.take(n as int),
                        k % (width as int),
                        k / (width as int),
                    );
                }
            }
            assert(canvas@.pixels =~= target.pixels);
        }
        top = top + h;
        n += 1;
    }
    proof {
        assert(grids.take(count as int) =~= grids);
        assert(canvas@.pixels =~= stacked(grids).pixels);
    }
    Some(canvas)
}

} // verus!
