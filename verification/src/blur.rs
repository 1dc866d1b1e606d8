//! Gaussian blur: every pixel becomes the weighted sum of the pixels in a
//! square window around it.
//!
//! The window of a kernel of radius `r` holds the offsets `-r <= i, j < r`.
//! Positions of the window that lie outside the raster contribute nothing,
//! and the weights are not renormalised, so the result darkens toward the
//! border of the raster.
//!
//! In the spec functions of this module a standard deviation `fine` is in
//! 65536ths of a pixel.

use vstd::prelude::*;
use crate::color::{component_level, dark, opaque, vector_to_color, weigh, ColorVector, Pixel, ONE};
use crate::error::DogError;
use crate::kernel::{
    fine_of, fine_radius, gaussian_weight, lemma_squared_distance, lemma_weight_limit,
    lemma_weight_monotone, lemma_window_cap, radius_of, row_cap, squared_distance, tap_cap,
    weight_at, window_cap, Kernel, WINDOW_LIMIT,
};
use crate::raster::{lemma_index_in_range, push_pixel, sample, unpack, unpacked, Grid, Image};
use crate::sums::{lemma_sum_bounds, lemma_sum_clip, lemma_sum_factor, lemma_sum_zero, sum_range};

verus! {

/// What the source position at offset `(i, j)` from `(x, y)` adds to colour
/// channel `c` of the blurred pixel at `(x, y)`: its sample times the weight
/// of the offset, or nothing where the position lies outside the raster.
pub open spec fn tap(grid: Grid, c: int, x: int, y: int, i: int, j: int, fine: int) -> int {
    if grid.contains(x + i, y + j) {
        sample(grid.at(x + i, y + j), c) * gaussian_weight(squared_distance(i, j), fine)
    } else {
        0
    }
}

/// The terms of row `j` of the window, by their column offset.
pub open spec fn row_taps(grid: Grid, c: int, x: int, y: int, j: int, fine: int) -> spec_fn(
    int,
) -> int {
    |i: int| tap(grid, c, x, y, i, j, fine)
}

/// The sum of row `j` of the window.
pub open spec fn row_sum(grid: Grid, c: int, x: int, y: int, j: int, fine: int) -> int {
    sum_range(row_taps(grid, c, x, y, j, fine), -radius_of(fine), radius_of(fine))
}

/// The row sums of the window, by their row offset.
pub open spec fn window_rows(grid: Grid, c: int, x: int, y: int, fine: int) -> spec_fn(
    int,
) -> int {
    |j: int| row_sum(grid, c, x, y, j, fine)
}

/// The weighted sum of channel `c` over the whole window around `(x, y)`, in
/// units of `1 / ONE` of an 8-bit level.
pub open spec fn window_sum(grid: Grid, c: int, x: int, y: int, fine: int) -> int {
    sum_range(window_rows(grid, c, x, y, fine), -radius_of(fine), radius_of(fine))
}

/// The blurred pixel at `(x, y)`: the window sums of the three colour
/// channels, limited to full intensity and truncated to 8-bit levels.
pub open spec fn blurred_pixel(grid: Grid, x: int, y: int, fine: int) -> Pixel {
    Pixel {
        r: component_level(window_sum(grid, 0, x, y, fine)) as u8,
        g: component_level(window_sum(grid, 1, x, y, fine)) as u8,
        b: component_level(window_sum(grid, 2, x, y, fine)) as u8,
        a: 255,
    }
}

/// The blurred raster: same extent, every pixel blurred.
pub open spec fn blurred(grid: Grid, fine: int) -> Grid {
    Grid {
        width: grid.width,
        height: grid.height,
        pixels: Seq::new(
            grid.pixels.len(),
            |k: int| blurred_pixel(grid, k % (grid.width as int), k / (grid.width as int), fine),
        ),
    }
}

/// A term of a window sum lies between zero and a full sample at the centre.
pub proof fn lemma_tap_bounds(grid: Grid, c: int, x: int, y: int, i: int, j: int, fine: int)
    ensures
        0 <= tap(grid, c, x, y, i, j, fine) <= tap_cap(fine),
{
    lemma_squared_distance(i, j);
    lemma_weight_limit(squared_distance(i, j), fine);
    lemma_weight_monotone(0, squared_distance(i, j), fine);
    let s = sample(grid.at(x + i, y + j), c) as int;
    let w = gaussian_weight(squared_distance(i, j), fine);
    let top = gaussian_weight(0, fine);
    assert(0 <= s * w <= 255 * top) by (nonlinear_arith)
        requires
            0 <= s <= 255,
            0 <= w <= top,
    ;
}

/// A stretch of a window row sums to at most a full sample at the centre
/// per term.
pub proof fn lemma_row_bounds(
    grid: Grid,
    c: int,
    x: int,
    y: int,
    j: int,
    fine: int,
    lo: int,
    hi: int,
)
    requires
        lo <= hi,
    ensures
        0 <= sum_range(row_taps(grid, c, x, y, j, fine), lo, hi) <= (hi - lo) * tap_cap(fine),
{
    let f = row_taps(grid, c, x, y, j, fine);
    assert forall|i: int| lo <= i < hi implies 0 <= #[trigger] f(i) <= tap_cap(fine) by {
        lemma_tap_bounds(grid, c, x, y, i, j, fine);
    }
    lemma_sum_bounds(f, lo, hi, tap_cap(fine));
}

/// A stretch of window rows sums to at most a full row per row.
pub proof fn lemma_rows_bounds(grid: Grid, c: int, x: int, y: int, fine: int, lo: int, hi: int)
    requires
        lo <= hi,
        0 <= fine,
    ensures
        0 <= sum_range(window_rows(grid, c, x, y, fine), lo, hi) <= (hi - lo) * row_cap(fine),
{
    let f = window_rows(grid, c, x, y, fine);
    let r = radius_of(fine);
    assert forall|j: int| lo <= j < hi implies 0 <= #[trigger] f(j) <= row_cap(fine) by {
        lemma_row_bounds(grid, c, x, y, j, fine, -r, r);
    }
    lemma_sum_bounds(f, lo, hi, row_cap(fine));
}

/// The table of a kernel covers the window of every pixel of the raster.
spec fn covers(kernel: &Kernel, grid: Grid) -> bool {
    let reach = radius_of(kernel.spec_fine()) + 1;
    &&& kernel.span_x() == if reach <= grid.width { reach } else { grid.width as int }
    &&& kernel.span_y() == if reach <= grid.height { reach } else { grid.height as int }
}

/// The distance between two coordinates.
fn distance(a: u32, b: u32) -> (d: u32)
    ensures
        d == a - b || d == b - a,
        d >= 0,
{
    if a >= b {
        a - b
    } else {
        b - a
    }
}

/// The part of `centre - radius .. centre + radius` that lies below
/// `extent`.
fn reach(centre: u32, radius: u64, extent: u32) -> (range: (u32, u32))
    requires
        centre < extent,
        radius < 0x8_0000_0000_0000,
    ensures
        range.0 <= centre <= range.1 <= extent,
        range.0 == if centre >= radius { centre - radius } else { 0 },
        range.1 == if centre + radius < extent { centre + radius } else { extent as int },
{
    let lo: u32 = if centre as u64 >= radius {
        (centre as u64 - radius) as u32
    } else {
        0
    };
    let hi: u32 = if (centre as u64) + radius < extent as u64 {
        ((centre as u64) + radius) as u32
    } else {
        extent
    };
    (lo, hi)
}

/// Adds to `acc` the sum of the window row that lies on row `v` of the
/// raster, for the window around `(x, y)`.
fn accumulate_row(image: &Image, kernel: &Kernel, x: u32, y: u32, v: u32, acc: ColorVector) -> (out:
    ColorVector)
    requires
        image.wf(),
        kernel.wf(),
        covers(kernel, image@),
        image@.contains(x as int, y as int),
        v < image@.height,
        -radius_of(kernel.spec_fine()) <= v - y < radius_of(kernel.spec_fine()),
        0 <= acc.x <= WINDOW_LIMIT,
        0 <= acc.y <= WINDOW_LIMIT,
        0 <= acc.z <= WINDOW_LIMIT,
    ensures
        out.x == acc.x + row_sum(image@, 0, x as int, y as int, v - y, kernel.spec_fine()),
        out.y == acc.y + row_sum(image@, 1, x as int, y as int, v - y, kernel.spec_fine()),
        out.z == acc.z + row_sum(image@, 2, x as int, y as int, v - y, kernel.spec_fine()),
{
    proof {
        image.lemma_view_wf();
        kernel.lemma_fine_range();
        lemma_window_cap(kernel.spec_fine());
    }
    let width: u32 = image.width();
    let radius: u64 = kernel.radius();
    let (u_lo, u_hi) = reach(x, radius, width);
    let b: u32 = distance(v, y);
    let ghost grid = image@;
    let ghost fine = kernel.spec_fine();
    let ghost j = v - y;
    let ghost r = radius as int;
    let ghost f0 = row_taps(grid, 0, x as int, y as int, j, fine);
    let ghost f1 = row_taps(grid, 1, x as int, y as int, j, fine);
    let ghost f2 = row_taps(grid, 2, x as int, y as int, j, fine);
    let mut cur: ColorVector = acc;
    let mut u: u32 = u_lo;
    while u < u_hi
        invariant
            image.wf(),
            kernel.wf(),
            covers(kernel, image@),
            grid == image@,
            grid.wf(),
            fine == kernel.spec_fine(),
            fine > 0,
            r == radius_of(fine),
            1 <= r,
            0 <= tap_cap(fine) <= row_cap(fine) <= WINDOW_LIMIT,
            j == v - y,
            -r <= j < r,
            b == j || b == -j,
            b >= 0,
            width == grid.width,
            grid.contains(x as int, y as int),
            v < grid.height,
            u_lo <= u <= u_hi <= width,
            x - r <= u_lo,
            u_hi <= x + r,
            f0 == row_taps(grid, 0, x as int, y as int, j, fine),
            f1 == row_taps(grid, 1, x as int, y as int, j, fine),
            f2 == row_taps(grid, 2, x as int, y as int, j, fine),
            0 <= acc.x <= WINDOW_LIMIT,
            0 <= acc.y <= WINDOW_LIMIT,
            0 <= acc.z <= WINDOW_LIMIT,
            cur.x == acc.x + sum_range(f0, u_lo - x, u - x),
            cur.y == acc.y + sum_range(f1, u_lo - x, u - x),
            cur.z == acc.z + sum_range(f2, u_lo - x, u - x),
        decreases u_hi - u,
    {
        let p: Pixel = image.get_pixel(u, v);
        let a: u32 = distance(u, x);
        let w: u128 = kernel.weight(a, b);
        proof {
            let i = u - x;
            lemma_squared_distance(i, j);
            lemma_squared_distance(a as int, j);
            lemma_squared_distance(a as int, b as int);
            assert(squared_distance(a as int, b as int) == squared_distance(i, j));
            lemma_weight_limit(squared_distance(i, j), fine);
            lemma_tap_bounds(grid, 0, x as int, y as int, i, j, fine);
            lemma_tap_bounds(grid, 1, x as int, y as int, i, j, fine);
            lemma_tap_bounds(grid, 2, x as int, y as int, i, j, fine);
            lemma_row_bounds(grid, 0, x as int, y as int, j, fine, u_lo - x, i);
            lemma_row_bounds(grid, 1, x as int, y as int, j, fine, u_lo - x, i);
            lemma_row_bounds(grid, 2, x as int, y as int, j, fine, u_lo - x, i);
            assert((i - (u_lo - x)) * tap_cap(fine) <= row_cap(fine)) by (nonlinear_arith)
                requires
                    0 <= i - (u_lo - x) <= 2 * r,
                    0 <= tap_cap(fine),
                    row_cap(fine) == 2 * r * tap_cap(fine),
            ;
        }
        let term: ColorVector = weigh(&p, w);
        proof {
            let i = u - x;
            assert(f0(i) == p.r * w);
            assert(f1(i) == p.g * w);
            assert(f2(i) == p.b * w);
        }
        cur = cur.add(term);
        u += 1;
    }
    proof {
        assert forall|i: int| -r <= i < u_lo - x || u_hi - x <= i < r implies #[trigger] f0(i)
            == 0 by {}
        assert forall|i: int| -r <= i < u_lo - x || u_hi - x <= i < r implies #[trigger] f1(i)
            == 0 by {}
        assert forall|i: int| -r <= i < u_lo - x || u_hi - x <= i < r implies #[trigger] f2(i)
            == 0 by {}
        lemma_sum_clip(f0, -r, r, u_lo - x, u_hi - x);
        lemma_sum_clip(f1, -r, r, u_lo - x, u_hi - x);
        lemma_sum_clip(f2, -r, r, u_lo - x, u_hi - x);
    }
    cur
}

/// A window row that lies above or below the raster sums to zero.
pub proof fn lemma_row_outside(grid: Grid, c: int, x: int, y: int, j: int, fine: int)
    requires
        y + j < 0 || y + j >= grid.height,
    ensures
        row_sum(grid, c, x, y, j, fine) == 0,
{
    let f = row_taps(grid, c, x, y, j, fine);
    let r = radius_of(fine);
    assert forall|i: int| -r <= i < r implies #[trigger] f(i) == 0 by {}
    lemma_sum_zero(f, -r, r);
}

/// Where the weight at the centre is zero, every blurred pixel is dark.
pub proof fn lemma_blurred_pixel_dark(grid: Grid, x: int, y: int, fine: int)
    requires
        gaussian_weight(0, fine) == 0,
    ensures
        blurred_pixel(grid, x, y, fine) == dark(),
{
    let r = radius_of(fine);
    assert forall|c: int| #[trigger] window_sum(grid, c, x, y, fine) == 0 by {
        let g = window_rows(grid, c, x, y, fine);
        assert forall|j: int| -r <= j < r implies #[trigger] g(j) == 0 by {
            let f = row_taps(grid, c, x, y, j, fine);
            assert forall|i: int| -r <= i < r implies #[trigger] f(i) == 0 by {
                lemma_squared_distance(i, j);
                lemma_weight_monotone(0, squared_distance(i, j), fine);
                lemma_weight_limit(squared_distance(i, j), fine);
                assert(sample(grid.at(x + i, y + j), c) * 0 == 0) by (nonlinear_arith);
            }
            lemma_sum_zero(f, -r, r);
        }
        lemma_sum_zero(g, -r, r);
    }
    assert(window_sum(grid, 0, x, y, fine) == 0);
    assert(window_sum(grid, 1, x, y, fine) == 0);
    assert(window_sum(grid, 2, x, y, fine) == 0);
}

/// Where the weight at the centre is zero, the blurred raster is dark
/// throughout. This holds from `FINE_VANISHING` on.
pub proof fn lemma_blurred_dark(grid: Grid, fine: int)
    requires
        gaussian_weight(0, fine) == 0,
    ensures
        blurred(grid, fine) == (Grid {
            width: grid.width,
            height: grid.height,
            pixels: Seq::new(grid.pixels.len(), |k: int| dark()),
        }),
{
    assert forall|k: int| 0 <= k < grid.pixels.len() implies #[trigger] blurred(
        grid,
        fine,
    ).pixels[k] == dark() by {
        lemma_blurred_pixel_dark(grid, k % (grid.width as int), k / (grid.width as int), fine);
    }
    assert(blurred(grid, fine).pixels =~= Seq::new(grid.pixels.len(), |k: int| dark()));
}

/// The weight of the offset `(i, j)` from `(x, y)` where that position lies
/// inside a raster of the given extent, and zero elsewhere.
pub open spec fn mass_tap(
    width: nat,
    height: nat,
    x: int,
    y: int,
    i: int,
    j: int,
    fine: int,
) -> int {
    if 0 <= x + i < width && 0 <= y + j < height {
        gaussian_weight(squared_distance(i, j), fine)
    } else {
        0
    }
}

pub open spec fn mass_row_taps(width: nat, height: nat, x: int, y: int, j: int, fine: int)
    -> spec_fn(int) -> int {
    |i: int| mass_tap(width, height, x, y, i, j, fine)
}

pub open spec fn row_mass(width: nat, height: nat, x: int, y: int, j: int, fine: int) -> int {
    sum_range(mass_row_taps(width, height, x, y, j, fine), -radius_of(fine), radius_of(fine))
}

pub open spec fn mass_rows(width: nat, height: nat, x: int, y: int, fine: int) -> spec_fn(
    int,
) -> int {
    |j: int| row_mass(width, height, x, y, j, fine)
}

/// The part of the kernel that falls inside the raster when it is centred
/// on `(x, y)`: the sum of the weights of the window positions inside the
/// raster, in units of `1 / ONE`.
pub open spec fn window_mass(width: nat, height: nat, x: int, y: int, fine: int) -> int {
    sum_range(mass_rows(width, height, x, y, fine), -radius_of(fine), radius_of(fine))
}

/// On a raster of one colour every window sum is the sample of that colour
/// times the part of the kernel inside the raster.
pub proof fn lemma_window_sum_uniform(grid: Grid, p: Pixel, c: int, x: int, y: int, fine: int)
    requires
        grid.wf(),
        grid.uniform(p),
    ensures
        window_sum(grid, c, x, y, fine) == sample(p, c) * window_mass(
            grid.width,
            grid.height,
            x,
            y,
            fine,
        ),
{
    let r = radius_of(fine);
    let level = sample(p, c) as int;
    let rows = window_rows(grid, c, x, y, fine);
    let masses = mass_rows(grid.width, grid.height, x, y, fine);
    assert forall|j: int| -r <= j < r implies #[trigger] rows(j) == level * #[trigger] masses(
        j,
    ) by {
        let taps = row_taps(grid, c, x, y, j, fine);
        let weights = mass_row_taps(grid.width, grid.height, x, y, j, fine);
        assert forall|i: int| -r <= i < r implies #[trigger] taps(i) == level * #[trigger] weights(
            i,
        ) by {
            if grid.contains(x + i, y + j) {
                lemma_index_in_range(grid.width as int, grid.height as int, x + i, y + j);
                assert(grid.at(x + i, y + j) == grid.pixels[grid.index_of(x + i, y + j)]);
            } else {
                assert(level * 0 == 0) by (nonlinear_arith);
            }
        }
        lemma_sum_factor(weights, taps, level, -r, r);
    }
    lemma_sum_factor(masses, rows, level, -r, r);
}

/// The blur of a raster of one colour: at every position the colour is
/// scaled by the part of the kernel that falls inside the raster there.
pub proof fn lemma_blurred_uniform(grid: Grid, p: Pixel, x: int, y: int, fine: int)
    requires
        grid.wf(),
        grid.uniform(p),
        grid.contains(x, y),
    ensures
        blurred(grid, fine).at(x, y) == blurred_pixel(grid, x, y, fine),
        blurred_pixel(grid, x, y, fine) == (Pixel {
            r: component_level(p.r * window_mass(grid.width, grid.height, x, y, fine)) as u8,
            g: component_level(p.g * window_mass(grid.width, grid.height, x, y, fine)) as u8,
            b: component_level(p.b * window_mass(grid.width, grid.height, x, y, fine)) as u8,
            a: 255,
        }),
{
    lemma_index_in_range(grid.width as int, grid.height as int, x, y);
    lemma_window_sum_uniform(grid, p, 0, x, y, fine);
    lemma_window_sum_uniform(grid, p, 1, x, y, fine);
    lemma_window_sum_uniform(grid, p, 2, x, y, fine);
}

/// Around the only position of a raster of one pixel, the part of the
/// kernel inside the raster is the weight at the centre.
pub proof fn lemma_window_mass_single(fine: int)
    requires
        fine > 0,
    ensures
        window_mass(1, 1, 0, 0, fine) == gaussian_weight(0, fine),
{
    let r = radius_of(fine);
    assert(r >= 1);
    let masses = mass_rows(1, 1, 0, 0, fine);
    let centre = mass_row_taps(1, 1, 0, 0, 0, fine);
    assert forall|i: int| -r <= i < 0 || 1 <= i < r implies #[trigger] centre(i) == 0 by {}
    lemma_sum_clip(centre, -r, r, 0, 1);
    assert(sum_range(centre, 0, 1) == centre(0)) by {
        assert(sum_range(centre, 0, 0) == 0);
    }
    assert(squared_distance(0, 0) == 0) by (nonlinear_arith);
    assert(masses(0) == gaussian_weight(0, fine));
    assert forall|j: int| -r <= j < 0 || 1 <= j < r implies #[trigger] masses(j) == 0 by {
        let taps = mass_row_taps(1, 1, 0, 0, j, fine);
        assert forall|i: int| -r <= i < r implies #[trigger] taps(i) == 0 by {}
        lemma_sum_zero(taps, -r, r);
    }
    lemma_sum_clip(masses, -r, r, 0, 1);
    assert(sum_range(masses, 0, 1) == masses(0)) by {
        assert(sum_range(masses, 0, 0) == 0);
    }
}

/// The blur of a raster of one pixel: no neighbour contributes, and the
/// pixel is scaled by the weight at the centre of the kernel. Where that
/// weight is one, up to less than a 254th, the pixel comes back unchanged
/// but for its alpha sample.
pub proof fn lemma_blurred_single(grid: Grid, fine: int)
    requires
        grid.wf(),
        grid.width == 1,
        grid.height == 1,
        fine > 0,
    ensures
        blurred(grid, fine).pixels.len() == 1,
        blurred(grid, fine).at(0, 0) == (Pixel {
            r: component_level(grid.at(0, 0).r * gaussian_weight(0, fine)) as u8,
            g: component_level(grid.at(0, 0).g * gaussian_weight(0, fine)) as u8,
            b: component_level(grid.at(0, 0).b * gaussian_weight(0, fine)) as u8,
            a: 255,
        }),
        ONE <= gaussian_weight(0, fine) && 254 * gaussian_weight(0, fine) < 255 * ONE
            ==> blurred(grid, fine).at(0, 0) == opaque(grid.at(0, 0)),
{
    let p = grid.at(0, 0);
    assert(grid.pixels.len() == 1) by (nonlinear_arith)
        requires
            grid.pixels.len() == grid.width * grid.height,
            grid.width == 1,
            grid.height == 1,
    ;
    assert(grid.uniform(p));
    lemma_window_mass_single(fine);
    lemma_blurred_uniform(grid, p, 0, 0, fine);
    let w = gaussian_weight(0, fine);
    if ONE <= w && 254 * w < 255 * ONE {
        lemma_level_kept(p.r as int, w);
        lemma_level_kept(p.g as int, w);
        lemma_level_kept(p.b as int, w);
    }
}

/// A weight of one, up to less than a 254th, keeps every 8-bit level.
pub proof fn lemma_level_kept(level: int, w: int)
    requires
        0 <= level <= 255,
        ONE <= w,
        254 * w < 255 * ONE,
    ensures
        component_level(level * w) == level,
{
    if level == 255 {
        assert(level * w >= 255 * ONE) by (nonlinear_arith)
            requires
                level == 255,
                ONE <= w,
        ;
    } else {
        assert(level * ONE <= level * w < (level + 1) * ONE) by (nonlinear_arith)
            requires
                0 <= level <= 254,
                ONE <= w,
                254 * w < 255 * ONE,
        ;
    }
}

/// The blurred pixel at `(x, y)`.
fn blur_pixel_at(image: &Image, kernel: &Kernel, x: u32, y: u32) -> (p: Pixel)
    requires
        image.wf(),
        kernel.wf(),
        covers(kernel, image@),
        image@.contains(x as int, y as int),
    ensures
        p == blurred_pixel(image@, x as int, y as int, kernel.spec_fine()),
{
    proof {
        image.lemma_view_wf();
        kernel.lemma_fine_range();
        lemma_window_cap(kernel.spec_fine());
    }
    let height: u32 = image.height();
    let radius: u64 = kernel.radius();
    let (v_lo, v_hi) = reach(y, radius, height);
    let ghost grid = image@;
    let ghost fine = kernel.spec_fine();
    let ghost r = radius as int;
    let ghost g0 = window_rows(grid, 0, x as int, y as int, fine);
    let ghost g1 = window_rows(grid, 1, x as int, y as int, fine);
    let ghost g2 = window_rows(grid, 2, x as int, y as int, fine);
    let mut acc: ColorVector = ColorVector::zero();
    let mut v: u32 = v_lo;
    while v < v_hi
        invariant
            image.wf(),
            kernel.wf(),
            covers(kernel, image@),
            grid == image@,
            fine == kernel.spec_fine(),
            0 < fine,
            r == radius_of(fine),
            1 <= r,
            0 <= row_cap(fine) <= window_cap(fine) <= WINDOW_LIMIT,
            height == grid.height,
            grid.contains(x as int, y as int),
            v_lo <= v <= v_hi <= height,
            y - r <= v_lo,
            v_hi <= y + r,
            g0 == window_rows(grid, 0, x as int, y as int, fine),
            g1 == window_rows(grid, 1, x as int, y as int, fine),
            g2 == window_rows(grid, 2, x as int, y as int, fine),
            acc.x == sum_range(g0, v_lo - y, v - y),
            acc.y == sum_range(g1, v_lo - y, v - y),
            acc.z == sum_range(g2, v_lo - y, v - y),
        decreases v_hi - v,
    {
        proof {
            let j = v - y;
            lemma_rows_bounds(grid, 0, x as int, y as int, fine, v_lo - y, j);
            lemma_rows_bounds(grid, 1, x as int, y as int, fine, v_lo - y, j);
            lemma_rows_bounds(grid, 2, x as int, y as int, fine, v_lo - y, j);
            assert((j - (v_lo - y)) * row_cap(fine) <= window_cap(fine)) by (nonlinear_arith)
                requires
                    0 <= j - (v_lo - y) <= 2 * r,
                    0 <= row_cap(fine),
                    window_cap(fine) == 2 * r * row_cap(fine),
            ;
            assert(g0(j) == row_sum(grid, 0, x as int, y as int, j, fine));
            assert(g1(j) == row_sum(grid, 1, x as int, y as int, j, fine));
            assert(g2(j) == row_sum(grid, 2, x as int, y as int, j, fine));
        }
        acc = accumulate_row(image, kernel, x, y, v, acc);
        v += 1;
    }
    proof {
        assert forall|j: int| -r <= j < v_lo - y || v_hi - y <= j < r implies #[trigger] g0(j)
            == 0 by {
            lemma_row_outside(grid, 0, x as int, y as int, j, fine);
        }
        assert forall|j: int| -r <= j < v_lo - y || v_hi - y <= j < r implies #[trigger] g1(j)
            == 0 by {
            lemma_row_outside(grid, 1, x as int, y as int, j, fine);
        }
        assert forall|j: int| -r <= j < v_lo - y || v_hi - y <= j < r implies #[trigger] g2(j)
            == 0 by {
            lemma_row_outside(grid, 2, x as int, y as int, j, fine);
        }
        lemma_sum_clip(g0, -r, r, v_lo - y, v_hi - y);
        lemma_sum_clip(g1, -r, r, v_lo - y, v_hi - y);
        lemma_sum_clip(g2, -r, r, v_lo - y, v_hi - y);
    }
    vector_to_color(&acc)
}

/// The raster blurred by the Gaussian kernel of standard deviation
/// `sigma / SIGMA_ONE` pixels. A zero `sigma` is refused.
pub fn blur(image: &Image, sigma: u32) -> (res: Result<Image, DogError>)
    requires
        image.wf(),
    ensures
        sigma == 0 ==> (res matches Err(e) && e == DogError::InvalidParameter),
        sigma > 0 ==> (res matches Ok(out) && out.wf() && out@ == blurred(
            image@,
            fine_of(sigma as int),
        ) && out@.width == image@.width && out@.height == image@.height),
{
    blur_fine(image, (sigma as u64) * 256)
}

/// The raster blurred by the Gaussian kernel of standard deviation
/// `fine / FINE_ONE` pixels. A zero `fine` is refused.
pub fn blur_fine(image: &Image, fine: u64) -> (res: Result<Image, DogError>)
    requires
        image.wf(),
    ensures
        fine == 0 ==> (res matches Err(e) && e == DogError::InvalidParameter),
        fine > 0 ==> (res matches Ok(out) && out.wf() && out@ == blurred(image@, fine as int)
            && out@.width == image@.width && out@.height == image@.height),
{
    proof {
        image.lemma_view_wf();
    }
    let width: u32 = image.width();
    let height: u32 = image.height();
    if fine == 0 {
        return Err(DogError::InvalidParameter);
    }
    if weight_at(0, fine) == 0 {
        proof {
            lemma_blurred_dark(image@, fine as int);
        }
        return Ok(image.filled_like(Pixel { r: 0, g: 0, b: 0, a: 255 }));
    }
    let radius: u64 = fine_radius(fine);
    let span_x: u32 = if radius < width as u64 {
        (radius + 1) as u32
    } else {
        width
    };
    let span_y: u32 = if radius < height as u64 {
        (radius + 1) as u32
    } else {
        height
    };
    let kernel: Kernel = match Kernel::new(fine, span_x, span_y) {
        Ok(kernel) => kernel,
        Err(e) => {
            return Err(e);
        },
    };
    let ghost grid = image@;
    let mut data: Vec<u8> = Vec::new();
    let mut y: u32 = 0;
    while y < height
        invariant
            image.wf(),
            kernel.wf(),
            covers(&kernel, image@),
            kernel.spec_fine() == fine,
            grid == image@,
            grid.wf(),
            width == grid.width,
            height == grid.height,
            y <= height,
            data@.len() == 4 * (y * width),
            forall|k: int|
                0 <= k < y * width ==> unpack(data@, k) == blurred_pixel(
                    grid,
                    k % (width as int),
                    k / (width as int),
                    fine as int,
                ),
        decreases height - y,
    {
        let mut x: u32 = 0;
        while x < width
            invariant
                image.wf(),
                kernel.wf(),
                covers(&kernel, image@),
                kernel.spec_fine() == fine,
                grid == image@,
                grid.wf(),
                width == grid.width,
                height == grid.height,
                y < height,
                x <= width,
                data@.len() == 4 * (y * width + x),
                forall|k: int|
                    0 <= k < y * width + x ==> unpack(data@, k) == blurred_pixel(
                        grid,
                        k % (width as int),
                        k / (width as int),
                        fine as int,
                    ),
            decreases width - x,
        {
            let p: Pixel = blur_pixel_at(image, &kernel, x, y);
            let ghost before = data@;
            push_pixel(&mut data, p);
            proof {
                lemma_index_in_range(width as int, height as int, x as int, y as int);
                assert forall|k: int| 0 <= k < y * width + x + 1 implies unpack(data@, k)
                    == blurred_pixel(
                    grid,
                    k % (width as int),
                    k / (width as int),
                    fine as int,
                ) by {
                    if k < y * width + x {
                        assert(unpack(before, k) == unpack(data@, k));
                    }
                }
            }
            x += 1;
        }
        proof {
            assert(y * width + width == (y + 1) * width) by (nonlinear_arith);
        }
        y += 1;
    }
    proof {
        assert(y * width == width * height) by (nonlinear_arith)
            requires
                y == height,
        ;
        assert(unpacked(data@, (width * height) as nat) =~= blurred(grid, fine as int).pixels);
    }
    Ok(Image::assemble(width, height, data))
}

} // verus!
