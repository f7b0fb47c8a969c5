//! Tightly packed 8-bit RGBA frame buffers.
use vstd::prelude::*;

verus! {

/// Byte offset of channel `c` of pixel `(x, y)` in a tightly packed RGBA buffer of width `w`.
pub open spec fn byte_index(w: int, x: int, y: int, c: int) -> int {
    (y * w + x) * 4 + c
}

/// An 8-bit RGBA image stored row by row, four bytes per pixel.
pub struct RgbaFrame {
    width: u32,
    height: u32,
    data: Vec<u8>,
}

impl RgbaFrame {
    #[verifier::type_invariant]
    spec fn inv(self) -> bool {
        self.data@.len() == self.width as int * self.height as int * 4
    }

    /// Width in pixels.
    pub closed spec fn w(&self) -> nat {
        self.width as nat
    }

    /// Height in pixels.
    pub closed spec fn h(&self) -> nat {
        self.height as nat
    }

    /// The raw bytes, row by row, `[r, g, b, a]` per pixel.
    pub closed spec fn bytes(&self) -> Seq<u8> {
        self.data@
    }

    /// Channel `c` of pixel `(x, y)`.
    pub open spec fn at(&self, x: int, y: int, c: int) -> u8 {
        self.bytes()[byte_index(self.w() as int, x, y, c)]
    }

    /// The frame holds exactly `width * height` pixels.
    pub open spec fn sized(&self) -> bool {
        self.bytes().len() == self.w() * self.h() * 4
    }

    /// A frame of the given size with every byte zero (transparent black).
    pub fn new(width: u32, height: u32) -> (f: Self)
        requires
            width as int * height as int * 4 <= usize::MAX,
        ensures
            f.w() == width,
            f.h() == height,
            f.sized(),
            forall|i: int| 0 <= i < f.bytes().len() ==> f.bytes()[i] == 0,
    {
        let n: usize = (width as usize) * (height as usize) * 4;
        let data = vec![0u8; n];
        RgbaFrame { width, height, data }
    }

    /// A frame of the given size with every pixel set to `pixel`.
    pub fn from_pixel(width: u32, height: u32, pixel: [u8; 4]) -> (f: Self)
        requires
            width as int * height as int * 4 <= usize::MAX,
        ensures
            f.w() == width,
            f.h() == height,
            f.sized(),
            forall|i: int| 0 <= i < f.bytes().len() ==> f.bytes()[i] == pixel[i % 4],
    {
        let n: usize = (width as usize) * (height as usize);
        let mut data: Vec<u8> = Vec::with_capacity(n * 4);
        let mut k: usize = 0;
        while k < n
            invariant
                n == width as int * height as int,
                n * 4 <= usize::MAX,
                k <= n,
                data@.len() == k * 4,
                forall|i: int| 0 <= i < data@.len() ==> data@[i] == pixel[i % 4],
            decreases n - k,
        {
            data.push(pixel[0]);
            data.push(pixel[1]);
            data.push(pixel[2]);
            data.push(pixel[3]);
            k = k + 1;
        }
        RgbaFrame { width, height, data }
    }

    /// Wraps a raw RGBA buffer; `None` unless it holds exactly `width * height` pixels.
    pub fn from_raw(width: u32, height: u32, data: Vec<u8>) -> (f: Option<Self>)
        ensures
            f is Some <==> data@.len() == width as int * height as int * 4,
            f matches Some(fr) ==> fr.w() == width && fr.h() == height && fr.bytes() == data@,
    {
        assert((width as int) * (height as int) <= u64::MAX) by (nonlinear_arith)
            requires
                width <= u32::MAX,
                height <= u32::MAX,
        ;
        let n: u64 = (width as u64) * (height as u64);
        let _len: usize = data.len();
        if n <= (usize::MAX / 4) as u64 && data.len() == (n as usize) * 4 {
            Some(RgbaFrame { width, height, data })
        } else {
            None
        }
    }

    /// Width in pixels.
    pub fn width(&self) -> (r: u32)
        ensures
            r == self.w(),
            self.sized(),
    {
        proof {
            use_type_invariant(self);
        }
        self.width
    }

    /// Height in pixels.
    pub fn height(&self) -> (r: u32)
        ensures
            r == self.h(),
            self.sized(),
    {
        proof {
            use_type_invariant(self);
        }
        self.height
    }

    /// The raw RGBA bytes.
    pub fn as_raw(&self) -> (r: &Vec<u8>)
        ensures
            r@ == self.bytes(),
            self.sized(),
    {
        proof {
            use_type_invariant(self);
        }
        &self.data
    }

    /// Gives up the frame and returns its raw RGBA bytes.
    pub fn into_raw(self) -> (r: Vec<u8>)
        ensures
            r@ == self.bytes(),
            self.sized(),
    {
        proof {
            use_type_invariant(&self);
        }
        self.data
    }

    /// The pixel at `(x, y)`.
    pub fn get_pixel(&self, x: u32, y: u32) -> (p: [u8; 4])
        requires
            x < self.w(),
            y < self.h(),
        ensures
            forall|c: int| 0 <= c < 4 ==> p[c] == self.at(x as int, y as int, c),
    {
        proof {
            use_type_invariant(self);
            lemma_pixel_in_bounds(self.width as int, self.height as int, x as int, y as int);
        }
        let _len: usize = self.data.len();
        let i: usize = ((y as usize) * (self.width as usize) + (x as usize)) * 4;
        [self.data[i], self.data[i + 1], self.data[i + 2], self.data[i + 3]]
    }

    /// Overwrites the pixel at `(x, y)`; every other byte is kept.
    pub fn put_pixel(&mut self, x: u32, y: u32, p: [u8; 4])
        requires
            x < old(self).w(),
            y < old(self).h(),
        ensures
            final(self).w() == old(self).w(),
            final(self).h() == old(self).h(),
            final(self).bytes().len() == old(self).bytes().len(),
            forall|i: int|
                0 <= i < old(self).bytes().len() ==> final(self).bytes()[i] == (if byte_index(
                    old(self).w() as int,
                    x as int,
                    y as int,
                    0,
                ) <= i < byte_index(old(self).w() as int, x as int, y as int, 4) {
                    p[i - byte_index(old(self).w() as int, x as int, y as int, 0)]
                } else {
                    old(self).bytes()[i]
                }),
        no_unwind
    {
        proof {
            use_type_invariant(&*self);
            lemma_pixel_in_bounds(self.width as int, self.height as int, x as int, y as int);
        }
        let _len: usize = self.data.len();
        let i: usize = ((y as usize) * (self.width as usize) + (x as usize)) * 4;
        write_byte(&mut self.data, i, p[0]);
        write_byte(&mut self.data, i + 1, p[1]);
        write_byte(&mut self.data, i + 2, p[2]);
        write_byte(&mut self.data, i + 3, p[3]);
    }

    /// The pixel at `(x, y)`, or transparent black `[0, 0, 0, 0]` outside the frame.
    pub fn safe_pixel(&self, x: i32, y: i32) -> (p: [u8; 4])
        ensures
            (0 <= x < self.w() && 0 <= y < self.h()) ==> forall|c: int|
                0 <= c < 4 ==> p[c] == self.at(x as int, y as int, c),
            !(0 <= x < self.w() && 0 <= y < self.h()) ==> p == [0u8, 0u8, 0u8, 0u8],
    {
        proof {
            use_type_invariant(self);
        }
        if x < 0 || y < 0 || x as u32 >= self.width || y as u32 >= self.height {
            [0, 0, 0, 0]
        } else {
            self.get_pixel(x as u32, y as u32)
        }
    }
}

impl Clone for RgbaFrame {
    /// A copy of the frame.
    fn clone(&self) -> (r: Self)
        ensures
            r.w() == self.w(),
            r.h() == self.h(),
            r.bytes() == self.bytes(),
    {
        proof {
            use_type_invariant(self);
        }
        RgbaFrame { width: self.width, height: self.height, data: self.data.clone() }
    }
}

impl RgbaFrame {
    /// Whether every pixel is fully opaque (alpha 255).
    pub fn all_opaque(&self) -> (r: bool)
        ensures
            r == forall|p: int| 0 <= p < self.w() * self.h() ==> #[trigger] self.bytes()[4 * p + 3] == 255,
    {
        proof {
            use_type_invariant(self);
        }
        let n: usize = self.data.len() / 4;
        let mut p: usize = 0;
        while p < n
            invariant
                self.data@.len() == self.w() * self.h() * 4,
                self.data@.len() <= usize::MAX,
                n == self.w() * self.h(),
                p <= n,
                forall|q: int| 0 <= q < p ==> #[trigger] self.data@[4 * q + 3] == 255,
            decreases n - p,
        {
            if self.data[4 * p + 3] != 255 {
                assert(self.bytes()[4 * p + 3] != 255);
                return false;
            }
            p = p + 1;
        }
        true
    }

    /// The red, green and blue bytes of every pixel, row by row, without alpha.
    pub fn rgb_bytes(&self) -> (r: Vec<u8>)
        ensures
            r@.len() == self.w() * self.h() * 3,
            forall|p: int, c: int|
                0 <= p < self.w() * self.h() && 0 <= c < 3 ==> #[trigger] r@[3 * p + c] == self.bytes()[4 * p + c],
    {
        proof {
            use_type_invariant(self);
        }
        let n: usize = self.data.len() / 4;
        let mut rgb: Vec<u8> = Vec::with_capacity(n * 3);
        let mut p: usize = 0;
        while p < n
            invariant
                self.data@.len() == self.w() * self.h() * 4,
                self.data@.len() <= usize::MAX,
                n == self.w() * self.h(),
                p <= n,
                rgb@.len() == 3 * p,
                forall|q: int, c: int| 0 <= q < p && 0 <= c < 3 ==> #[trigger] rgb@[3 * q + c] == self.data@[4 * q + c],
            decreases n - p,
        {
            rgb.push(self.data[4 * p]);
            rgb.push(self.data[4 * p + 1]);
            rgb.push(self.data[4 * p + 2]);
            p = p + 1;
        }
        rgb
    }
}

impl RgbaFrame {
    /// Sets every pixel's alpha to 255, keeping the colours.
    pub fn make_opaque(&mut self)
        ensures
            final(self).w() == old(self).w(),
            final(self).h() == old(self).h(),
            final(self).bytes().len() == old(self).bytes().len(),
            forall|i: int|
                0 <= i < old(self).bytes().len() ==> #[trigger] final(self).bytes()[i] == if i % 4 == 3 {
                    255u8
                } else {
                    old(self).bytes()[i]
                },
    {
        proof {
            use_type_invariant(&*self);
        }
        let ghost before = self.data@;
        let n: usize = self.data.len() / 4;
        let mut p: usize = 0;
        while p < n
            invariant
                self.data@.len() == before.len(),
                self.width == old(self).width,
                self.height == old(self).height,
                before == old(self).data@,
                before.len() == self.width as int * self.height as int * 4,
                before.len() <= usize::MAX,
                n == before.len() / 4,
                p <= n,
                forall|i: int|
                    0 <= i < before.len() ==> #[trigger] self.data@[i] == if i % 4 == 3 && i < 4 * p {
                        255u8
                    } else {
                        before[i]
                    },
            decreases n - p,
        {
            write_byte(&mut self.data, 4 * p + 3, 255);
            p = p + 1;
        }
    }
}

/// Overwrites byte `i` of `v`.
pub fn write_byte(v: &mut Vec<u8>, i: usize, b: u8)
    requires
        i < old(v)@.len(),
    ensures
        final(v)@ == old(v)@.update(i as int, b),
    no_unwind
{
    v[i] = b;
}

/// The bytes of pixel `(x, y)` of a `w` by `h` frame lie inside its `w * h * 4` bytes.
pub proof fn lemma_pixel_in_bounds(w: int, h: int, x: int, y: int)
    requires
        0 <= x < w,
        0 <= y < h,
    ensures
        0 <= y * w,
        y * w + x < w * h,
        0 <= byte_index(w, x, y, 0),
        byte_index(w, x, y, 4) <= w * h * 4,
{
    assert(y * w + x < w * h) by (nonlinear_arith)
        requires
            0 <= x < w,
            0 <= y < h,
    ;
    assert(0 <= y * w) by (nonlinear_arith)
        requires
            0 <= y,
            0 <= w,
    ;
}

} // verus!
