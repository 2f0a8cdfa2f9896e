use vstd::prelude::*;
use crate::color::Rgba;

verus! {

/// Size of a raster in pixels.
#[derive(Clone, Copy, Debug, PartialEq, Eq, Structural)]
pub struct RasterDimensions {
    pub width: u32,
    pub height: u32,
}

/// The color computed for the pixel at column `x`, row `y`.
#[derive(Clone, Copy, Debug, PartialEq, Eq, Structural)]
pub struct PixelResult {
    pub x: u32,
    pub y: u32,
    pub color: Rgba,
}

/// Position of pixel `(x, y)` in a row-major raster `width` pixels wide.
pub open spec fn cell_index(width: nat, x: nat, y: nat) -> nat {
    y * width + x
}

/// A finished `width` x `height` raster, stored row-major.
pub struct RasterBuffer {
    width: u32,
    height: u32,
    pixels: Vec<Rgba>,
}

impl RasterBuffer {
    pub closed spec fn width_spec(&self) -> nat {
        self.width as nat
    }

    pub closed spec fn height_spec(&self) -> nat {
        self.height as nat
    }

    /// The pixels, row after row.
    pub closed spec fn cells(&self) -> Seq<Rgba> {
        self.pixels@
    }

    pub open spec fn wf(&self) -> bool {
        &&& self.cells().len() == self.width_spec() * self.height_spec()
        &&& 4 * self.cells().len() <= usize::MAX
    }

    pub(crate) fn from_parts(width: u32, height: u32, pixels: Vec<Rgba>) -> (r: RasterBuffer)
        ensures
            r.width_spec() == width,
            r.height_spec() == height,
            r.cells() == pixels@,
    {
        RasterBuffer { width, height, pixels }
    }

    pub fn width(&self) -> (r: u32)
        ensures
            r == self.width_spec(),
    {
        self.width
    }

    pub fn height(&self) -> (r: u32)
        ensures
            r == self.height_spec(),
    {
        self.height
    }

    /// The color of pixel `(x, y)`.
    pub fn pixel(&self, x: u32, y: u32) -> (c: Rgba)
        requires
            self.wf(),
            x < self.width_spec(),
            y < self.height_spec(),
        ensures
            c == self.cells()[cell_index(self.width_spec(), x as nat, y as nat) as int],
    {
        proof {
            lemma_cell_index_bound(self.width as nat, self.height as nat, x as nat, y as nat);
        }
        let i: usize = y as usize * self.width as usize + x as usize;
        self.pixels[i]
    }

    /// The pixels as a flat row-major sequence of 8-bit `r, g, b, a` components.
    pub fn to_rgba_bytes(&self) -> (bytes: Vec<u8>)
        requires
            self.wf(),
        ensures
            bytes@.len() == 4 * self.cells().len(),
            forall|i: int|
                0 <= i < self.cells().len() ==> {
                    &&& bytes@[4 * i] == #[trigger] self.cells()[i].r
                    &&& bytes@[4 * i + 1] == self.cells()[i].g
                    &&& bytes@[4 * i + 2] == self.cells()[i].b
                    &&& bytes@[4 * i + 3] == self.cells()[i].a
                },
    {
        let mut bytes: Vec<u8> = Vec::new();
        let mut i: usize = 0;
        while i < self.pixels.len()
            invariant
                self.wf(),
                i <= self.pixels@.len(),
                bytes@.len() == 4 * i,
                forall|k: int|
                    0 <= k < i ==> {
                        &&& bytes@[4 * k] == #[trigger] self.pixels@[k].r
                        &&& bytes@[4 * k + 1] == self.pixels@[k].g
                        &&& bytes@[4 * k + 2] == self.pixels@[k].b
                        &&& bytes@[4 * k + 3] == self.pixels@[k].a
                    },
            decreases self.pixels@.len() - i,
        {
            let p = self.pixels[i];
            let ghost before = bytes@;
            bytes.push(p.r);
            bytes.push(p.g);
            bytes.push(p.b);
            bytes.push(p.a);
            assert forall|k: int| 0 <= k < i + 1 implies {
                &&& bytes@[4 * k] == #[trigger] self.pixels@[k].r
                &&& bytes@[4 * k + 1] == self.pixels@[k].g
                &&& bytes@[4 * k + 2] == self.pixels@[k].b
                &&& bytes@[4 * k + 3] == self.pixels@[k].a
            } by {
                if k < i {
                    assert(bytes@[4 * k] == before[4 * k]);
                    assert(bytes@[4 * k + 1] == before[4 * k + 1]);
                    assert(bytes@[4 * k + 2] == before[4 * k + 2]);
                    assert(bytes@[4 * k + 3] == before[4 * k + 3]);
                } else {
                    assert(k == i);
                    assert(bytes@[4 * k] == p.r);
                    assert(bytes@[4 * k + 1] == p.g);
                    assert(bytes@[4 * k + 2] == p.b);
                    assert(bytes@[4 * k + 3] == p.a);
                }
            }
            i = i + 1;
        }
        bytes
    }
}

/// Every pixel of a `width` x `height` raster has its own cell inside the raster.
pub proof fn lemma_cell_index_bound(width: nat, height: nat, x: nat, y: nat)
    requires
        x < width,
        y < height,
    ensures
        cell_index(width, x, y) < width * height,
{
    assert(y * width + x < width * height) by (nonlinear_arith)
        requires
            x < width,
            y < height,
    ;
}

/// Distinct pixels of a raster have distinct cells.
pub proof fn lemma_cell_index_injective(width: nat, x1: nat, y1: nat, x2: nat, y2: nat)
    requires
        x1 < width,
        x2 < width,
        cell_index(width, x1, y1) == cell_index(width, x2, y2),
    ensures
        x1 == x2,
        y1 == y2,
{
    assert(y1 == y2) by (nonlinear_arith)
        requires
            x1 < width,
            x2 < width,
            y1 * width + x1 == y2 * width + x2,
    ;
}

} // verus!
