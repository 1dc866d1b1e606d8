//! Rasters of 8-bit RGBA pixels in row-major order.

use vstd::prelude::*;
use crate::color::Pixel;

verus! {

/// The mathematical content of a raster: its extent and its pixels, row by
/// row from the top.
pub struct Grid {
    pub width: nat,
    pub height: nat,
    pub pixels: Seq<Pixel>,
}

impl Grid {
    /// There is one pixel for every position.
    pub open spec fn wf(self) -> bool {
        self.pixels.len() == self.width * self.height
    }

    pub open spec fn contains(self, x: int, y: int) -> bool {
        0 <= x < self.width && 0 <= y < self.height
    }

    /// The position of `(x, y)` in the sequence of pixels.
    pub open spec fn index_of(self, x: int, y: int) -> int {
        y * self.width + x
    }

    /// The pixel in column `x` of row `y`.
    pub open spec fn at(self, x: int, y: int) -> Pixel {
        self.pixels[self.index_of(x, y)]
    }

    /// Every pixel of the raster equals `p`.
    pub open spec fn uniform(self, p: Pixel) -> bool {
        forall|k: int| 0 <= k < self.pixels.len() ==> #[trigger] self.pixels[k] == p
    }
}

/// Whether `(u, v)` comes before `(column, row)` in row-major order.
pub open spec fn before(u: int, v: int, column: int, row: int) -> bool {
    v < row || (v == row && u < column)
}

/// The pixel that four consecutive samples starting at `4 * k` make up.
pub open spec fn unpack(data: Seq<u8>, k: int) -> Pixel {
    Pixel { r: data[4 * k], g: data[4 * k + 1], b: data[4 * k + 2], a: data[4 * k + 3] }
}

/// The pixels that a buffer of RGBA samples holds.
pub open spec fn unpacked(data: Seq<u8>, count: nat) -> Seq<Pixel> {
    Seq::new(count, |k: int| unpack(data, k))
}

/// Sample `c` of a pixel in the order red, green, blue, alpha.
pub open spec fn sample(p: Pixel, c: int) -> u8 {
    if c == 0 {
        p.r
    } else if c == 1 {
        p.g
    } else if c == 2 {
        p.b
    } else {
        p.a
    }
}

/// The RGBA samples of a sequence of pixels, in order.
pub open spec fn packed(pixels: Seq<Pixel>) -> Seq<u8> {
    Seq::new(4 * pixels.len(), |i: int| sample(pixels[i / 4], i % 4))
}

/// A position inside a raster has an index inside its sequence of pixels,
/// and the index determines the position.
pub proof fn lemma_index_in_range(width: int, height: int, x: int, y: int)
    requires
        0 <= x < width,
        0 <= y < height,
    ensures
        0 <= y * width <= y * width + x < width * height,
        (y * width + x) / width == y,
        (y * width + x) % width == x,
{
    assert(0 <= y * width && y * width + width <= width * height) by (nonlinear_arith)
        requires
            0 <= x < width,
            0 <= y < height,
    ;
    vstd::arithmetic::div_mod::lemma_fundamental_div_mod_converse(y * width + x, width, y, x);
}

/// An index inside the sequence of pixels belongs to a position inside the
/// raster.
pub proof fn lemma_position_of_index(width: int, height: int, k: int)
    requires
        0 <= k < width * height,
        0 <= height,
        0 <= width,
    ensures
        0 <= k % width < width,
        0 <= k / width < height,
        (k / width) * width + k % width == k,
{
    assert(0 < width) by (nonlinear_arith)
        requires
            0 < width * height,
            0 <= width,
    ;
    vstd::arithmetic::div_mod::lemma_fundamental_div_mod(k, width);
    let q = k / width;
    assert(width * q == q * width) by (nonlinear_arith);
    assert(0 <= q < height) by (nonlinear_arith)
        requires
            0 <= k < width * height,
            0 < width,
            k == q * width + k % width,
            0 <= k % width < width,
    ;
}

/// A raster of 8-bit RGBA pixels.
#[derive(Debug)]
pub struct Image {
    width: u32,
    height: u32,
    data: Vec<u8>,
}

impl View for Image {
    type V = Grid;

    closed spec fn view(&self) -> Grid {
        Grid {
            width: self.width as nat,
            height: self.height as nat,
            pixels: unpacked(self.data@, (self.width * self.height) as nat),
        }
    }
}

/// Appends the four samples of `p` to `data`.
pub fn push_pixel(data: &mut Vec<u8>, p: Pixel)
    ensures
        final(data)@ == old(data)@.push(p.r).push(p.g).push(p.b).push(p.a),
{
    data.push(p.r);
    data.push(p.g);
    data.push(p.b);
    data.push(p.a);
}

impl Image {
    /// The buffer holds four samples for every position, and no more than
    /// a buffer can hold.
    pub closed spec fn wf(&self) -> bool {
        self.data@.len() == 4 * (self.width * self.height) <= isize::MAX
    }

    /// The view of a well-formed raster is well formed, and its samples fit
    /// in memory.
    pub proof fn lemma_view_wf(&self)
        requires
            self.wf(),
        ensures
            self@.wf(),
            4 * (self@.width * self@.height) <= isize::MAX,
            self@.width <= u32::MAX,
            self@.height <= u32::MAX,
    {
    }

    /// The raster of the given extent over a buffer of RGBA samples in
    /// row-major order, if the buffer has exactly four samples for every
    /// position and no more than `isize::MAX` in all.
    pub fn from_raw(width: u32, height: u32, data: Vec<u8>) -> (res: Option<Image>)
        ensures
            res is Some <==> data@.len() == 4 * (width * height) <= isize::MAX,
            res matches Some(img) ==> img.wf() && img@ == (Grid {
                width: width as nat,
                height: height as nat,
                pixels: unpacked(data@, (width * height) as nat),
            }),
    {
        assert(0 <= width * height <= 0xffff_ffff * 0xffff_ffff) by (nonlinear_arith)
            requires
                0 <= width <= 0xffff_ffff,
                0 <= height <= 0xffff_ffff,
        ;
        let need: u128 = 4 * ((width as u128) * (height as u128));
        if data.len() as u128 == need && need <= isize::MAX as u128 {
            Some(Image { width, height, data })
        } else {
            None
        }
    }

    /// The raster of the given extent over a buffer that is known to hold
    /// four samples for every position.
    pub(crate) fn assemble(width: u32, height: u32, data: Vec<u8>) -> (img: Image)
        requires
            data@.len() == 4 * (width * height) <= isize::MAX,
        ensures
            img.wf(),
            img@ == (Grid {
                width: width as nat,
                height: height as nat,
                pixels: unpacked(data@, (width * height) as nat),
            }),
    {
        Image { width, height, data }
    }

    /// The raster of the given extent with every pixel equal to `p`, if its
    /// samples fit in a buffer.
    pub fn filled(width: u32, height: u32, p: Pixel) -> (res: Option<Image>)
        ensures
            res is Some <==> 4 * (width * height) <= isize::MAX,
            res matches Some(img) ==> img.wf() && img@ == (Grid {
                width: width as nat,
                height: height as nat,
                pixels: Seq::new((width * height) as nat, |k: int| p),
            }),
    {
        assert(0 <= width * height <= 0xffff_ffff * 0xffff_ffff) by (nonlinear_arith)
            requires
                0 <= width <= 0xffff_ffff,
                0 <= height <= 0xffff_ffff,
        ;
        if 4 * ((width as u128) * (height as u128)) > isize::MAX as u128 {
            None
        } else {
            Some(Image::fill(width, height, p))
        }
    }

    /// The raster of the extent of this one with every pixel equal to `p`.
    pub fn filled_like(&self, p: Pixel) -> (img: Image)
        requires
            self.wf(),
        ensures
            img.wf(),
            img@ == (Grid {
                width: self@.width,
                height: self@.height,
                pixels: Seq::new(self@.pixels.len(), |k: int| p),
            }),
    {
        Image::fill(self.width, self.height, p)
    }

    fn fill(width: u32, height: u32, p: Pixel) -> (img: Image)
        requires
            4 * (width * height) <= isize::MAX,
        ensures
            img.wf(),
            img@ == (Grid {
                width: width as nat,
                height: height as nat,
                pixels: Seq::new((width * height) as nat, |k: int| p),
            }),
    {
        assert(0 <= width * height) by (nonlinear_arith)
            requires
                0 <= width,
                0 <= height,
        ;
        let total: usize = (width as usize) * (height as usize);
        let mut data: Vec<u8> = Vec::new();
        let mut done: usize = 0;
        while done < total
            invariant
                done <= total,
                4 * total <= isize::MAX,
                data@.len() == 4 * done,
                forall|k: int| 0 <= k < done ==> unpack(data@, k) == p,
            decreases total - done,
        {
            let ghost earlier = data@;
            push_pixel(&mut data, p);
            assert forall|k: int| 0 <= k < done + 1 implies unpack(data@, k) == p by {
                if k < done {
                    assert(unpack(earlier, k) == p);
                }
            }
            done += 1;
        }
        let img = Image { width, height, data };
        assert(img@.pixels =~= Seq::new((width * height) as nat, |k: int| p));
        img
    }

    pub fn width(&self) -> (w: u32)
        ensures
            w == self@.width,
    {
        self.width
    }

    pub fn height(&self) -> (h: u32)
        ensures
            h == self@.height,
    {
        self.height
    }

    /// The pixel in column `x` of row `y`.
    pub fn get_pixel(&self, x: u32, y: u32) -> (p: Pixel)
        requires
            self.wf(),
            self@.contains(x as int, y as int),
        ensures
            p == self@.at(x as int, y as int),
    {
        proof {
            lemma_index_in_range(self.width as int, self.height as int, x as int, y as int);
        }
        let k: usize = (y as usize) * (self.width as usize) + (x as usize);
        Pixel {
            r: self.data[4 * k],
            g: self.data[4 * k + 1],
            b: self.data[4 * k + 2],
            a: self.data[4 * k + 3],
        }
    }

    /// Replaces the pixel in column `x` of row `y` by `p`.
    pub fn put_pixel(&mut self, x: u32, y: u32, p: Pixel)
        requires
            old(self).wf(),
            old(self)@.contains(x as int, y as int),
        ensures
            final(self).wf(),
            final(self)@ == (Grid {
                pixels: old(self)@.pixels.update(old(self)@.index_of(x as int, y as int), p),
                ..old(self)@
            }),
    {
        proof {
            lemma_index_in_range(self.width as int, self.height as int, x as int, y as int);
        }
        let k: usize = (y as usize) * (self.width as usize) + (x as usize);
        let ghost before = self.data@;
        self.data.set(4 * k, p.r);
        self.data.set(4 * k + 1, p.g);
        self.data.set(4 * k + 2, p.b);
        self.data.set(4 * k + 3, p.a);
        proof {
            let count = (self.width * self.height) as nat;
            assert forall|i: int| 0 <= i < count implies #[trigger] unpacked(self.data@, count)[i]
                == unpacked(before, count).update(k as int, p)[i] by {}
            assert(unpacked(self.data@, count) =~= unpacked(before, count).update(k as int, p));
        }
    }

    /// The RGBA samples of the raster in row-major order.
    pub fn into_raw(self) -> (data: Vec<u8>)
        requires
            self.wf(),
        ensures
            data@ == packed(self@.pixels),
    {
        self.data
    }
}

} // verus!
