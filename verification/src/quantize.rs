//! Median-cut colour quantization with an inverse colour map and
//! Floyd-Steinberg dithering.
//!
//! Colours are counted in a 32 x 64 x 32 histogram (5 bits of red, 6 of green,
//! 5 of blue). The median cut splits the occupied part of that space into at
//! most 256 boxes whose mean colours form the palette; the histogram is then
//! reused as a cache that maps each cell to its nearest palette entry plus one.
use vstd::prelude::*;
use crate::frame::{RgbaFrame, byte_index};

verus! {

/// Histogram cells along channel 0 (red, 5 bits).
pub const HIST_C0_ELEMS: usize = 32;
/// Histogram cells along channel 1 (green, 6 bits).
pub const HIST_C1_ELEMS: usize = 64;
/// Histogram cells along channel 2 (blue, 5 bits).
pub const HIST_C2_ELEMS: usize = 32;
/// Number of histogram cells, `32 * 64 * 32`.
pub const HIST_ELEMS: usize = 65536;

/// Bits dropped from channel 0 when a colour is binned.
pub const C0_SHIFT: usize = 3;
/// Bits dropped from channel 1 when a colour is binned.
pub const C1_SHIFT: usize = 2;
/// Bits dropped from channel 2 when a colour is binned.
pub const C2_SHIFT: usize = 3;

/// Weight of the channel 0 difference in the colour distance.
pub const C0_SCALE: i32 = 2;
/// Weight of the channel 1 difference in the colour distance.
pub const C1_SCALE: i32 = 3;
/// Weight of the channel 2 difference in the colour distance.
pub const C2_SCALE: i32 = 1;

/// Cells along channel 0 of one inverse-colour-map block.
pub const BOX_C0_ELEMS: usize = 4;
/// Cells along channel 1 of one inverse-colour-map block.
pub const BOX_C1_ELEMS: usize = 8;
/// Cells along channel 2 of one inverse-colour-map block.
pub const BOX_C2_ELEMS: usize = 4;
/// Number of histogram cells one `fill_inverse_cmap` call resolves.
pub const BOX_ELEMS: usize = 128;

/// Largest channel value.
pub const MAXJSAMPLE: i32 = 255;
/// Largest number of palette entries.
pub const MAXNUMCOLORS: usize = 256;

// ---------------------------------------------------------------------------
// The colour space model
// ---------------------------------------------------------------------------

/// A cell `(c0, c1, c2)` of the histogram.
pub open spec fn valid_cell(c0: int, c1: int, c2: int) -> bool {
    0 <= c0 < 32 && 0 <= c1 < 64 && 0 <= c2 < 32
}

/// Position of cell `(c0, c1, c2)` in the flat histogram.
pub open spec fn cell_index(c0: int, c1: int, c2: int) -> int {
    (c0 * 64 + c1) * 32 + c2
}

/// The colour at the centre of a cell, channel by channel.
pub open spec fn center0(c0: int) -> int {
    c0 * 8 + 4
}

/// The centre of cell `c1` along channel 1.
pub open spec fn center1(c1: int) -> int {
    c1 * 4 + 2
}

/// The centre of cell `c2` along channel 2.
pub open spec fn center2(c2: int) -> int {
    c2 * 8 + 4
}

/// Weighted squared distance from colour `(r, g, b)` to the centre of a cell.
pub open spec fn color_dist(r: int, g: int, b: int, c0: int, c1: int, c2: int) -> int {
    let d0 = (center0(c0) - r) * 2;
    let d1 = (center1(c1) - g) * 3;
    let d2 = center2(c2) - b;
    d0 * d0 + d1 * d1 + d2 * d2
}

/// Distance from palette entry `i` to the centre of a cell.
pub open spec fn pal_dist(p: Palette, i: int, c0: int, c1: int, c2: int) -> int {
    color_dist(p.red[i] as int, p.green[i] as int, p.blue[i] as int, c0, c1, c2)
}

/// The first of the palette entries `0..k` that lies nearest to the cell.
pub open spec fn nearest_upto(p: Palette, k: nat, c0: int, c1: int, c2: int) -> int
    decreases k,
{
    if k <= 1 {
        0
    } else {
        let b = nearest_upto(p, (k - 1) as nat, c0, c1, c2);
        if pal_dist(p, k - 1, c0, c1, c2) < pal_dist(p, b, c0, c1, c2) {
            k - 1
        } else {
            b
        }
    }
}

/// The palette index that a cell maps to: the lowest-numbered entry among
/// those nearest to the cell's centre (0 for an empty palette).
pub open spec fn nearest_color(p: Palette, c0: int, c1: int, c2: int) -> int {
    nearest_upto(p, p.colors_total as nat, c0, c1, c2)
}

/// Entry `j` of the palette is as near to the cell as every other entry.
pub open spec fn is_nearest(p: Palette, j: int, c0: int, c1: int, c2: int) -> bool {
    &&& 0 <= j < p.colors_total
    &&& forall|k: int| 0 <= k < p.colors_total ==> pal_dist(p, j, c0, c1, c2) <= #[trigger] pal_dist(p, k, c0, c1, c2)
}

/// `m` is the first of the entries `0..k` at least as near as every other.
pub open spec fn is_first_nearest(p: Palette, k: int, m: int, c0: int, c1: int, c2: int) -> bool {
    &&& 0 <= m < k
    &&& forall|j: int| 0 <= j < k ==> pal_dist(p, m, c0, c1, c2) <= #[trigger] pal_dist(p, j, c0, c1, c2)
    &&& forall|j: int| 0 <= j < m ==> pal_dist(p, m, c0, c1, c2) < #[trigger] pal_dist(p, j, c0, c1, c2)
}

/// `nearest_upto` finds the first nearest of the entries `0..k`.
pub proof fn lemma_nearest_upto(p: Palette, k: nat, c0: int, c1: int, c2: int)
    requires
        1 <= k <= 256,
    ensures
        is_first_nearest(p, k as int, nearest_upto(p, k, c0, c1, c2), c0, c1, c2),
    decreases k,
{
    if k > 1 {
        lemma_nearest_upto(p, (k - 1) as nat, c0, c1, c2);
    }
}

/// Cell indices of the flat histogram are distinct and in range.
pub proof fn lemma_cell_index(a0: int, a1: int, a2: int, b0: int, b1: int, b2: int)
    requires
        valid_cell(a0, a1, a2),
        valid_cell(b0, b1, b2),
    ensures
        0 <= cell_index(a0, a1, a2) < 65536,
        cell_index(a0, a1, a2) == cell_index(b0, b1, b2) ==> (a0 == b0 && a1 == b1 && a2 == b2),
{
    assert(0 <= cell_index(a0, a1, a2) < 65536) by (nonlinear_arith)
        requires
            valid_cell(a0, a1, a2),
    ;
    if cell_index(a0, a1, a2) == cell_index(b0, b1, b2) {
        let x = a0 * 64 + a1;
        let y = b0 * 64 + b1;
        assert(x == y) by (nonlinear_arith)
            requires
                x * 32 + a2 == y * 32 + b2,
                0 <= a2 < 32,
                0 <= b2 < 32,
        ;
    }
}

// ---------------------------------------------------------------------------
// Palette
// ---------------------------------------------------------------------------

/// Up to 256 colours, channel by channel; the first `colors_total` are in use.
#[derive(Clone, Copy)]
pub struct Palette {
    pub red: [u8; 256],
    pub green: [u8; 256],
    pub blue: [u8; 256],
    pub alpha: [u8; 256],
    pub colors_total: usize,
}

impl Default for Palette {
    /// An empty palette (see `Palette::new`).
    fn default() -> (p: Self)
        ensures
            p.colors_total == 0,
            forall|i: int|
                0 <= i < 256 ==> p.red[i] == 0 && p.green[i] == 0 && p.blue[i] == 0 && p.alpha[i]
                    == 255,
    {
        Palette::new()
    }
}

impl Palette {
    /// An empty palette: no colours in use, every slot opaque black.
    pub fn new() -> (p: Self)
        ensures
            p.colors_total == 0,
            forall|i: int|
                0 <= i < 256 ==> p.red[i] == 0 && p.green[i] == 0 && p.blue[i] == 0 && p.alpha[i]
                    == 255,
    {
        Palette {
            red: [0u8; 256],
            green: [0u8; 256],
            blue: [0u8; 256],
            alpha: [255u8; 256],
            colors_total: 0,
        }
    }

    /// The `(red, green, blue, alpha)` of slot `idx`.
    pub fn get(&self, idx: usize) -> (c: (u8, u8, u8, u8))
        requires
            idx < 256,
        ensures
            c == (self.red[idx as int], self.green[idx as int], self.blue[idx as int], self.alpha[idx as int]),
    {
        (self.red[idx], self.green[idx], self.blue[idx], self.alpha[idx])
    }

    /// Stores an opaque colour in slot `idx`; every other slot and the count are kept.
    pub fn set(&mut self, idx: usize, r: u8, g: u8, b: u8)
        requires
            idx < 256,
        ensures
            final(self).red@ == old(self).red@.update(idx as int, r),
            final(self).green@ == old(self).green@.update(idx as int, g),
            final(self).blue@ == old(self).blue@.update(idx as int, b),
            final(self).alpha@ == old(self).alpha@.update(idx as int, 255u8),
            final(self).colors_total == old(self).colors_total,
    {
        self.red[idx] = r;
        self.green[idx] = g;
        self.blue[idx] = b;
        self.alpha[idx] = 255;
    }
}

// ---------------------------------------------------------------------------
// Error limiting for Floyd-Steinberg dithering
// ---------------------------------------------------------------------------

/// Magnitude of a limited error: 1:1 below 16, 1:2 up to 48, then capped at 32.
pub open spec fn limit_magnitude(a: int) -> int {
    if a < 16 {
        a
    } else if a < 48 {
        16 + (a - 15) / 2
    } else {
        32
    }
}

/// The error that is propagated for a raw error `v`.
pub open spec fn error_limit(v: int) -> int {
    if v >= 0 {
        limit_magnitude(v)
    } else {
        -limit_magnitude(-v)
    }
}

// ---------------------------------------------------------------------------
// Pixel counting
// ---------------------------------------------------------------------------

/// Histogram position of pixel `p` of a raw RGBA buffer.
pub open spec fn pixel_cell(bytes: Seq<u8>, p: int) -> int {
    cell_index(bytes[4 * p] as int / 8, bytes[4 * p + 1] as int / 4, bytes[4 * p + 2] as int / 8)
}

/// Number of the pixels `0..k` that fall in histogram position `t`.
pub open spec fn count_upto(bytes: Seq<u8>, k: int, t: int) -> int
    decreases k,
{
    if k <= 0 {
        0
    } else {
        count_upto(bytes, k - 1, t) + if pixel_cell(bytes, k - 1) == t {
            1int
        } else {
            0int
        }
    }
}

/// The histogram of a frame: per cell, the number of its pixels there,
/// saturated at 65535.
pub open spec fn frame_histogram(bytes: Seq<u8>) -> Seq<u16> {
    Seq::new(
        65536,
        |t: int|
            if count_upto(bytes, bytes.len() as int / 4, t) < 65535 {
                count_upto(bytes, bytes.len() as int / 4, t) as u16
            } else {
                65535u16
            },
    )
}

/// Every pixel of a buffer falls in a cell of the histogram.
pub proof fn lemma_pixel_cell(bytes: Seq<u8>, p: int)
    requires
        0 <= p,
        4 * p + 3 < bytes.len(),
    ensures
        valid_cell(bytes[4 * p] as int / 8, bytes[4 * p + 1] as int / 4, bytes[4 * p + 2] as int / 8),
        0 <= pixel_cell(bytes, p) < 65536,
{
    let r = bytes[4 * p] as int / 8;
    let g = bytes[4 * p + 1] as int / 4;
    let b = bytes[4 * p + 2] as int / 8;
    lemma_cell_index(r, g, b, r, g, b);
}

/// Shifting a channel right drops its low bits.
pub proof fn lemma_shift_channel(x: usize)
    requires
        x < 256,
    ensures
        x >> 3usize == x / 8,
        x >> 2usize == x / 4,
{
    assert(x >> 3usize == x / 8) by (bit_vector);
    assert(x >> 2usize == x / 4) by (bit_vector);
}

// ---------------------------------------------------------------------------
// Occupancy bitmap
// ---------------------------------------------------------------------------

/// Whether histogram cell `(c0, c1, c2)` holds any pixel.
pub open spec fn occupied(h: Seq<u16>, c0: int, c1: int, c2: int) -> bool {
    h[cell_index(c0, c1, c2)] != 0
}

/// Bit `j` of `x`.
pub open spec fn bit(x: u32, j: u32) -> bool {
    (x >> j) & 1u32 == 1u32
}

proof fn lemma_set_bit(x: u32, c: u32, j: u32)
    requires
        c < 32,
        j < 32,
    ensures
        bit(x | (1u32 << c), j) == (j == c || bit(x, j)),
        bit(0u32, j) == false,
{
    assert(((x | (1u32 << c)) >> j) & 1u32 == 1u32 <==> (j == c || (x >> j) & 1u32 == 1u32))
        by (bit_vector)
        requires
            c < 32,
            j < 32,
    ;
    assert((0u32 >> j) & 1u32 == 0u32) by (bit_vector);
}

/// Bitmap of the occupied histogram cells, one `u32` per `(c0, c1)` row.
///
/// A whole row of 32 cells fits in one word, so the 128 KB histogram
/// condenses to 8 KB. The histogram does not change while boxes are split,
/// so the bitmap is built once and serves every split.
struct Occupancy {
    rows: Vec<u32>,
}

impl Occupancy {
    /// The bitmap describes histogram `h`.
    spec fn describes(&self, h: Seq<u16>) -> bool {
        &&& self.rows@.len() == 2048
        &&& h.len() == 65536
        &&& forall|c0: int, c1: int, c2: int|
            #![trigger bit(self.rows@[c0 * 64 + c1], c2 as u32)]
            valid_cell(c0, c1, c2) ==> (bit(self.rows@[c0 * 64 + c1], c2 as u32) <==> occupied(
                h,
                c0,
                c1,
                c2,
            ))
    }

    fn from_histogram(histogram: &Vec<u16>) -> (occ: Self)
        requires
            histogram@.len() == 65536,
        ensures
            occ.describes(histogram@),
    {
        let mut rows: Vec<u32> = Vec::with_capacity(2048);
        let mut r: usize = 0;
        while r < 2048
            invariant
                histogram@.len() == 65536,
                r <= 2048,
                rows@.len() == r,
                forall|q: int, c2: int|
                    #![trigger bit(rows@[q], c2 as u32)]
                    0 <= q < r && 0 <= c2 < 32 ==> (bit(rows@[q], c2 as u32) <==> histogram@[q
                        * 32 + c2] != 0),
            decreases 2048 - r,
        {
            let mut row: u32 = 0;
            let mut c2: usize = 0;
            assert forall|j: int| 0 <= j < 32 implies !#[trigger] bit(row, j as u32) by {
                lemma_set_bit(0u32, 0u32, j as u32);
            }
            while c2 < 32
                invariant
                    histogram@.len() == 65536,
                    r < 2048,
                    c2 <= 32,
                    forall|j: int|
                        #![trigger bit(row, j as u32)]
                        0 <= j < 32 ==> (bit(row, j as u32) <==> (j < c2 && histogram@[r * 32
                            + j] != 0)),
                decreases 32 - c2,
            {
                if histogram[r * 32 + c2] != 0 {
                    let ghost old_row = row;
                    row = row | (1u32 << c2 as u32);
                    proof {
                        assert forall|j: int| 0 <= j < 32 implies #[trigger] bit(row, j as u32)
                            == (j == c2 || bit(old_row, j as u32)) by {
                            lemma_set_bit(old_row, c2 as u32, j as u32);
                        }
                    }
                }
                c2 = c2 + 1;
            }
            rows.push(row);
            r = r + 1;
        }
        let occ = Occupancy { rows };
        assert forall|c0: int, c1: int, c2: int|
            #![trigger bit(occ.rows@[c0 * 64 + c1], c2 as u32)]
            valid_cell(c0, c1, c2) implies (bit(occ.rows@[c0 * 64 + c1], c2 as u32) <==> occupied(
            histogram@,
            c0,
            c1,
            c2,
        )) by {
            let q = c0 * 64 + c1;
            assert(0 <= q < 2048);
            assert(q * 32 + c2 == cell_index(c0, c1, c2));
        }
        occ
    }

    /// The occupancy word of row `(c0, c1)`.
    fn row(&self, c0: i32, c1: i32) -> (r: u32)
        requires
            self.rows@.len() == 2048,
            0 <= c0 < 32,
            0 <= c1 < 64,
        ensures
            r == self.rows@[c0 * 64 + c1],
    {
        self.rows[(c0 as usize) * 64 + (c1 as usize)]
    }
}

/// Copies the palette `from` over `to`.
pub fn sync_palette(from: &Palette, to: &mut Palette)
    ensures
        *final(to) == *from,
{
    *to = from.clone();
}

} // verus!

verus! {

// ---------------------------------------------------------------------------
// Colour boxes
// ---------------------------------------------------------------------------

/// A box of histogram cells, inclusive on every side, with its squared
/// weighted diagonal (`volume`) and its number of occupied cells.
#[derive(Clone, Copy)]
struct ColorBox {
    c0min: i32,
    c0max: i32,
    c1min: i32,
    c1max: i32,
    c2min: i32,
    c2max: i32,
    volume: i64,
    colorcount: i64,
}

/// Cell `(c0, c1, c2)` lies in box `b`.
pub open spec fn in_box(b: (int, int, int, int, int, int), c0: int, c1: int, c2: int) -> bool {
    b.0 <= c0 <= b.1 && b.2 <= c1 <= b.3 && b.4 <= c2 <= b.5
}

/// A box whose bounds lie inside the histogram, minimum not above maximum.
pub open spec fn box_in_range(b: (int, int, int, int, int, int)) -> bool {
    0 <= b.0 <= b.1 < 32 && 0 <= b.2 <= b.3 < 64 && 0 <= b.4 <= b.5 < 32
}

/// Two boxes share no cell: they are apart along some axis.
pub open spec fn boxes_apart(a: (int, int, int, int, int, int), b: (int, int, int, int, int, int)) -> bool {
    a.1 < b.0 || b.1 < a.0 || a.3 < b.2 || b.3 < a.2 || a.5 < b.4 || b.5 < a.4
}

/// `a` lies within `b`.
pub open spec fn box_within(a: (int, int, int, int, int, int), b: (int, int, int, int, int, int)) -> bool {
    b.0 <= a.0 && a.1 <= b.1 && b.2 <= a.2 && a.3 <= b.3 && b.4 <= a.4 && a.5 <= b.5
}

/// Squared weighted diagonal of a box.
pub open spec fn box_volume(b: (int, int, int, int, int, int)) -> int {
    let d0 = (b.1 - b.0) * 16;
    let d1 = (b.3 - b.2) * 12;
    let d2 = (b.5 - b.4) * 8;
    d0 * d0 + d1 * d1 + d2 * d2
}

/// Weight `k` of a cell: its pixel count (`k == 0`), its count times the
/// centre of channel `k - 1` (`k` from 1 to 3), or whether it is occupied
/// (`k == 4`, one or zero).
pub open spec fn cell_weight(h: Seq<u16>, k: int, c0: int, c1: int, c2: int) -> int {
    let n = h[cell_index(c0, c1, c2)] as int;
    if k == 0 {
        n
    } else if k == 1 {
        n * center0(c0)
    } else if k == 2 {
        n * center1(c1)
    } else if k == 3 {
        n * center2(c2)
    } else if n != 0 {
        1
    } else {
        0
    }
}

/// Sum of weight `k` over the cells `(c0, c1, lo2..=hi2)`.
pub open spec fn row_sum(h: Seq<u16>, k: int, c0: int, c1: int, lo2: int, hi2: int) -> int
    decreases hi2 - lo2 + 1,
{
    if hi2 < lo2 {
        0
    } else {
        row_sum(h, k, c0, c1, lo2, hi2 - 1) + cell_weight(h, k, c0, c1, hi2)
    }
}

/// Sum of weight `k` over the cells `(c0, lo1..=hi1, lo2..=hi2)`.
pub open spec fn plane_sum(h: Seq<u16>, k: int, c0: int, lo1: int, hi1: int, lo2: int, hi2: int) -> int
    decreases hi1 - lo1 + 1,
{
    if hi1 < lo1 {
        0
    } else {
        plane_sum(h, k, c0, lo1, hi1 - 1, lo2, hi2) + row_sum(h, k, c0, hi1, lo2, hi2)
    }
}

/// Sum of weight `k` over the cells `(lo0..=hi0, lo1..=hi1, lo2..=hi2)`.
pub open spec fn block_sum(
    h: Seq<u16>,
    k: int,
    lo0: int,
    hi0: int,
    lo1: int,
    hi1: int,
    lo2: int,
    hi2: int,
) -> int
    decreases hi0 - lo0 + 1,
{
    if hi0 < lo0 {
        0
    } else {
        block_sum(h, k, lo0, hi0 - 1, lo1, hi1, lo2, hi2) + plane_sum(h, k, hi0, lo1, hi1, lo2, hi2)
    }
}

/// Sum of weight `k` over a box.
pub open spec fn box_sum(h: Seq<u16>, k: int, b: (int, int, int, int, int, int)) -> int {
    block_sum(h, k, b.0, b.1, b.2, b.3, b.4, b.5)
}

/// The colour of a box: the pixel-weighted mean of its cell centres, rounded
/// to nearest; white for a box without pixels.
pub open spec fn box_color(h: Seq<u16>, b: (int, int, int, int, int, int)) -> (int, int, int) {
    let t = box_sum(h, 0, b);
    if t > 0 {
        (
            (box_sum(h, 1, b) + t / 2) / t,
            (box_sum(h, 2, b) + t / 2) / t,
            (box_sum(h, 3, b) + t / 2) / t,
        )
    } else {
        (255, 255, 255)
    }
}

/// Entries `0..colors_total` of `p` are the colours of the partition `boxes`
/// of the occupied cells of `h`.
pub open spec fn palette_of_boxes(h: Seq<u16>, p: Palette, boxes: Seq<(int, int, int, int, int, int)>) -> bool {
    &&& 1 <= p.colors_total <= 256
    &&& is_partition(h, boxes, p.colors_total as int)
    &&& forall|i: int|
        0 <= i < p.colors_total ==> {
            &&& p.red[i] as int == box_color(h, #[trigger] boxes[i]).0
            &&& p.green[i] as int == box_color(h, boxes[i]).1
            &&& p.blue[i] as int == box_color(h, boxes[i]).2
            &&& p.alpha[i] == 255
        }
}

/// The slots of `p` past its colours are opaque black.
pub open spec fn unused_slots_blank(p: Palette) -> bool {
    forall|i: int|
        p.colors_total <= i < 256 ==> #[trigger] p.red[i] == 0 && p.green[i] == 0 && p.blue[i] == 0 && p.alpha[i] == 255
}

/// Slots `q.colors_total..256` of `q` are those of `p`.
pub open spec fn palette_tail_kept(p: Palette, q: Palette) -> bool {
    forall|i: int|
        q.colors_total <= i < 256 ==> {
            &&& #[trigger] q.red[i] == p.red[i]
            &&& q.green[i] == p.green[i]
            &&& q.blue[i] == p.blue[i]
            &&& q.alpha[i] == p.alpha[i]
        }
}

/// Number of occupied cells in box `b`.
pub open spec fn occupied_count(h: Seq<u16>, b: (int, int, int, int, int, int)) -> int {
    box_sum(h, 4, b)
}

/// Some occupied cell of `b` has coordinate `v` on axis `axis`.
pub open spec fn face_touched(h: Seq<u16>, b: (int, int, int, int, int, int), axis: int, v: int) -> bool {
    exists|c0: int, c1: int, c2: int|
        #![trigger occupied(h, c0, c1, c2)]
        valid_cell(c0, c1, c2) && in_box(b, c0, c1, c2) && occupied(h, c0, c1, c2) && (if axis == 0 {
            c0 == v
        } else if axis == 1 {
            c1 == v
        } else {
            c2 == v
        })
}

/// `t` is the bounding box of the occupied cells of `b`: it lies in `b`,
/// holds each of them, and each of its six faces touches one.
pub open spec fn bounds_occupied(h: Seq<u16>, b: (int, int, int, int, int, int), t: (int, int, int, int, int, int)) -> bool {
    &&& box_within(t, b)
    &&& forall|c0: int, c1: int, c2: int|
        valid_cell(c0, c1, c2) && in_box(b, c0, c1, c2) && #[trigger] occupied(h, c0, c1, c2) ==> in_box(t, c0, c1, c2)
    &&& face_touched(h, b, 0, t.0)
    &&& face_touched(h, b, 0, t.1)
    &&& face_touched(h, b, 1, t.2)
    &&& face_touched(h, b, 1, t.3)
    &&& face_touched(h, b, 2, t.4)
    &&& face_touched(h, b, 2, t.5)
}

/// Box `b` shrunk to the bounding box of its occupied cells; `b` itself when
/// it has none.
pub open spec fn shrink(h: Seq<u16>, b: (int, int, int, int, int, int)) -> (int, int, int, int, int, int) {
    if exists|t: (int, int, int, int, int, int)| bounds_occupied(h, b, t) {
        choose|t: (int, int, int, int, int, int)| bounds_occupied(h, b, t)
    } else {
        b
    }
}

/// The bounding box of the occupied cells of a box is unique.
pub proof fn lemma_bounds_occupied_unique(
    h: Seq<u16>,
    b: (int, int, int, int, int, int),
    t: (int, int, int, int, int, int),
    u: (int, int, int, int, int, int),
)
    requires
        bounds_occupied(h, b, t),
        bounds_occupied(h, b, u),
    ensures
        t == u,
{
    let (a0, a1, a2) = choose|c0: int, c1: int, c2: int|
        #![trigger occupied(h, c0, c1, c2)]
        valid_cell(c0, c1, c2) && in_box(b, c0, c1, c2) && occupied(h, c0, c1, c2) && c0 == t.0;
    assert(in_box(u, a0, a1, a2));
    let (a0, a1, a2) = choose|c0: int, c1: int, c2: int|
        #![trigger occupied(h, c0, c1, c2)]
        valid_cell(c0, c1, c2) && in_box(b, c0, c1, c2) && occupied(h, c0, c1, c2) && c0 == u.0;
    assert(in_box(t, a0, a1, a2));
    let (a0, a1, a2) = choose|c0: int, c1: int, c2: int|
        #![trigger occupied(h, c0, c1, c2)]
        valid_cell(c0, c1, c2) && in_box(b, c0, c1, c2) && occupied(h, c0, c1, c2) && c0 == t.1;
    assert(in_box(u, a0, a1, a2));
    let (a0, a1, a2) = choose|c0: int, c1: int, c2: int|
        #![trigger occupied(h, c0, c1, c2)]
        valid_cell(c0, c1, c2) && in_box(b, c0, c1, c2) && occupied(h, c0, c1, c2) && c0 == u.1;
    assert(in_box(t, a0, a1, a2));
    let (a0, a1, a2) = choose|c0: int, c1: int, c2: int|
        #![trigger occupied(h, c0, c1, c2)]
        valid_cell(c0, c1, c2) && in_box(b, c0, c1, c2) && occupied(h, c0, c1, c2) && c1 == t.2;
    assert(in_box(u, a0, a1, a2));
    let (a0, a1, a2) = choose|c0: int, c1: int, c2: int|
        #![trigger occupied(h, c0, c1, c2)]
        valid_cell(c0, c1, c2) && in_box(b, c0, c1, c2) && occupied(h, c0, c1, c2) && c1 == u.2;
    assert(in_box(t, a0, a1, a2));
    let (a0, a1, a2) = choose|c0: int, c1: int, c2: int|
        #![trigger occupied(h, c0, c1, c2)]
        valid_cell(c0, c1, c2) && in_box(b, c0, c1, c2) && occupied(h, c0, c1, c2) && c1 == t.3;
    assert(in_box(u, a0, a1, a2));
    let (a0, a1, a2) = choose|c0: int, c1: int, c2: int|
        #![trigger occupied(h, c0, c1, c2)]
        valid_cell(c0, c1, c2) && in_box(b, c0, c1, c2) && occupied(h, c0, c1, c2) && c1 == u.3;
    assert(in_box(t, a0, a1, a2));
    let (a0, a1, a2) = choose|c0: int, c1: int, c2: int|
        #![trigger occupied(h, c0, c1, c2)]
        valid_cell(c0, c1, c2) && in_box(b, c0, c1, c2) && occupied(h, c0, c1, c2) && c2 == t.4;
    assert(in_box(u, a0, a1, a2));
    let (a0, a1, a2) = choose|c0: int, c1: int, c2: int|
        #![trigger occupied(h, c0, c1, c2)]
        valid_cell(c0, c1, c2) && in_box(b, c0, c1, c2) && occupied(h, c0, c1, c2) && c2 == u.4;
    assert(in_box(t, a0, a1, a2));
    let (a0, a1, a2) = choose|c0: int, c1: int, c2: int|
        #![trigger occupied(h, c0, c1, c2)]
        valid_cell(c0, c1, c2) && in_box(b, c0, c1, c2) && occupied(h, c0, c1, c2) && c2 == t.5;
    assert(in_box(u, a0, a1, a2));
    let (a0, a1, a2) = choose|c0: int, c1: int, c2: int|
        #![trigger occupied(h, c0, c1, c2)]
        valid_cell(c0, c1, c2) && in_box(b, c0, c1, c2) && occupied(h, c0, c1, c2) && c2 == u.5;
    assert(in_box(t, a0, a1, a2));
}

/// Cells `f0lo`..`f2hi` are occupied cells of `b`, one on each face of `t`.
pub open spec fn faces_found(
    h: Seq<u16>,
    b: (int, int, int, int, int, int),
    t: (int, int, int, int, int, int),
    f0lo: (int, int, int),
    f0hi: (int, int, int),
    f1lo: (int, int, int),
    f1hi: (int, int, int),
    f2lo: (int, int, int),
    f2hi: (int, int, int),
) -> bool {
    &&& occupied_cell_of(h, b, f0lo) && f0lo.0 == t.0
    &&& occupied_cell_of(h, b, f0hi) && f0hi.0 == t.1
    &&& occupied_cell_of(h, b, f1lo) && f1lo.1 == t.2
    &&& occupied_cell_of(h, b, f1hi) && f1hi.1 == t.3
    &&& occupied_cell_of(h, b, f2lo) && f2lo.2 == t.4
    &&& occupied_cell_of(h, b, f2hi) && f2hi.2 == t.5
}

/// `c` is an occupied cell of `b`.
pub open spec fn occupied_cell_of(h: Seq<u16>, b: (int, int, int, int, int, int), c: (int, int, int)) -> bool {
    valid_cell(c.0, c.1, c.2) && in_box(b, c.0, c.1, c.2) && occupied(h, c.0, c.1, c.2)
}

/// Bounds within `b` that hold every occupied cell of `b` and have an
/// occupied cell on each face bound those cells.
pub proof fn lemma_faces_found(
    h: Seq<u16>,
    b: (int, int, int, int, int, int),
    t: (int, int, int, int, int, int),
    f0lo: (int, int, int),
    f0hi: (int, int, int),
    f1lo: (int, int, int),
    f1hi: (int, int, int),
    f2lo: (int, int, int),
    f2hi: (int, int, int),
)
    requires
        faces_found(h, b, t, f0lo, f0hi, f1lo, f1hi, f2lo, f2hi),
        box_within(t, b),
        forall|c0: int, c1: int, c2: int|
            valid_cell(c0, c1, c2) && in_box(b, c0, c1, c2) && #[trigger] occupied(h, c0, c1, c2) ==> in_box(t, c0, c1, c2),
    ensures
        bounds_occupied(h, b, t),
{
    assert(occupied(h, f0lo.0, f0lo.1, f0lo.2));
    assert(occupied(h, f0hi.0, f0hi.1, f0hi.2));
    assert(occupied(h, f1lo.0, f1lo.1, f1lo.2));
    assert(occupied(h, f1hi.0, f1hi.1, f1hi.2));
    assert(occupied(h, f2lo.0, f2lo.1, f2lo.2));
    assert(occupied(h, f2hi.0, f2hi.1, f2hi.2));
}

/// A box without occupied cells keeps its bounds when shrunk.
pub proof fn lemma_shrink_empty(h: Seq<u16>, b: (int, int, int, int, int, int))
    requires
        forall|c0: int, c1: int, c2: int|
            valid_cell(c0, c1, c2) && in_box(b, c0, c1, c2) ==> !#[trigger] occupied(h, c0, c1, c2),
    ensures
        shrink(h, b) == b,
{
    assert forall|t: (int, int, int, int, int, int)| !bounds_occupied(h, b, t) by {
        if bounds_occupied(h, b, t) {
            assert(face_touched(h, b, 0, t.0));
        }
    }
}

/// A box whose occupied cells are bounded by `t` shrinks to `t`.
pub proof fn lemma_shrink_is(h: Seq<u16>, b: (int, int, int, int, int, int), t: (int, int, int, int, int, int))
    requires
        bounds_occupied(h, b, t),
    ensures
        shrink(h, b) == t,
{
    let u = choose|u: (int, int, int, int, int, int)| bounds_occupied(h, b, u);
    lemma_bounds_occupied_unique(h, b, t, u);
}

/// Entries from `q.colors_total` on, unchanged from `p` in `mid` and copied
/// from `mid` into `q`, are kept from `p` to `q`.
proof fn lemma_tail_kept(p: Palette, mid: Palette, q: Palette)
    requires
        q.red == mid.red && q.green == mid.green && q.blue == mid.blue && q.alpha == mid.alpha,
        forall|j: int| q.colors_total <= j < 256 ==> {
            &&& #[trigger] mid.red[j] == p.red[j]
            &&& mid.green[j] == p.green[j]
            &&& mid.blue[j] == p.blue[j]
            &&& mid.alpha[j] == p.alpha[j]
        },
    ensures
        palette_tail_kept(p, q),
{
    assert forall|j: int| q.colors_total <= j < 256 implies {
        &&& #[trigger] q.red[j] == p.red[j]
        &&& q.green[j] == p.green[j]
        &&& q.blue[j] == p.blue[j]
        &&& q.alpha[j] == p.alpha[j]
    } by {
        assert(mid.red[j] == p.red[j]);
        assert(q.red[j] == mid.red[j]);
        assert(q.green[j] == mid.green[j]);
        assert(q.blue[j] == mid.blue[j]);
        assert(q.alpha[j] == mid.alpha[j]);
    }
    assert(forall|j: int| q.colors_total <= j < 256 ==> #[trigger] q.red[j] == p.red[j]);
}

/// `p` is the palette the median cut of `h` into at most 256 boxes gives:
/// one entry per box (see `median_cut_boxes`), the box's mean colour.
pub open spec fn is_median_cut_palette(h: Seq<u16>, p: Palette) -> bool {
    &&& p.colors_total == median_cut_boxes(h, 256).len()
    &&& palette_of_boxes(h, p, median_cut_bounds(h, 256))
}

/// A rounded mean of values in `0..=254` fits in a byte.
pub proof fn lemma_rounded_mean_bound(s: int, t: int)
    requires
        t > 0,
        0 <= s <= 254 * t,
    ensures
        0 <= (s + t / 2) / t <= 254,
{
    assert(0 <= (s + t / 2) / t <= 254) by (nonlinear_arith)
        requires
            t > 0,
            0 <= s <= 254 * t,
            0 <= t / 2 <= t,
    ;
}

/// Cell `(c0, c1, c2)` belongs to the inverse-map block whose first cell
/// centre is `(minc0, minc1, minc2)` (4 x 8 x 4 cells).
pub open spec fn in_cmap_block(minc0: int, minc1: int, minc2: int, c0: int, c1: int, c2: int) -> bool {
    minc0 <= center0(c0) <= minc0 + 24 && minc1 <= center1(c1) <= minc1 + 28 && minc2 <= center2(c2)
        <= minc2 + 24
}

/// `e` (at list position `q`) is the first of `list[0..t]` nearest to the
/// cell, and `d` is its distance; with no entries seen yet, `d` is the
/// largest `i32`.
pub open spec fn best_prefix(p: Palette, list: Seq<u8>, t: int, d: int, e: int, q: int, c0: int, c1: int, c2: int) -> bool {
    if t == 0 {
        d == i32::MAX && e == 0
    } else {
        &&& 0 <= q < t
        &&& e == list[q] as int
        &&& d == pal_dist(p, e, c0, c1, c2)
        &&& forall|u: int| 0 <= u < t ==> d <= #[trigger] pal_dist(p, list[u] as int, c0, c1, c2)
        &&& forall|u: int| 0 <= u < q ==> d < #[trigger] pal_dist(p, list[u] as int, c0, c1, c2)
    }
}

/// `e` (at list position `q`) is the first of `list[0..n]` nearest to the cell.
pub open spec fn best_of_list(p: Palette, list: Seq<u8>, n: int, e: int, q: int, c0: int, c1: int, c2: int) -> bool {
    &&& 0 <= q < n
    &&& e == list[q] as int
    &&& forall|u: int| 0 <= u < n ==> pal_dist(p, e, c0, c1, c2) <= #[trigger] pal_dist(p, list[u] as int, c0, c1, c2)
    &&& forall|u: int| 0 <= u < q ==> pal_dist(p, e, c0, c1, c2) < #[trigger] pal_dist(p, list[u] as int, c0, c1, c2)
}

/// One more list entry compared with a cell: the entry replaces the best so
/// far exactly when it is strictly nearer.
pub proof fn lemma_best_prefix_step(
    p: Palette,
    list: Seq<u8>,
    i: int,
    d: int,
    e: int,
    q: int,
    dn: int,
    c0: int,
    c1: int,
    c2: int,
)
    requires
        0 <= i < list.len(),
        best_prefix(p, list, i, d, e, q, c0, c1, c2),
        dn == pal_dist(p, list[i] as int, c0, c1, c2),
        0 <= dn < i32::MAX,
    ensures
        dn < d ==> best_prefix(p, list, i + 1, dn, list[i] as int, i, c0, c1, c2),
        !(dn < d) ==> best_prefix(p, list, i + 1, d, e, q, c0, c1, c2),
{
}

/// Flat histogram position of cell `t` (in scan order) of the inverse-map
/// block whose first cell is `(b0, b1, b2)`.
pub open spec fn block_index(b0: int, b1: int, b2: int, t: int) -> int {
    cell_index(b0 + t / 32, b1 + (t / 4) % 8, b2 + t % 4)
}

/// Cells `d` and `c` lie in the same 4 by 8 by 4 block of the inverse map.
pub open spec fn same_block(d0: int, d1: int, d2: int, c0: int, c1: int, c2: int) -> bool {
    d0 / 4 == c0 / 4 && d1 / 8 == c1 / 8 && d2 / 4 == c2 / 4
}

/// The cache `h0` with the block of cell `(c0, c1, c2)` refilled: each cell of
/// that block holds its nearest palette entry plus one, every other cell is
/// kept.
pub open spec fn refill(h0: Seq<u16>, p: Palette, c0: int, c1: int, c2: int) -> Seq<u16> {
    Seq::new(
        65536,
        |t: int|
            {
                let d0 = t / 2048;
                let d1 = (t / 32) % 64;
                let d2 = t % 32;
                if same_block(d0, d1, d2, c0, c1, c2) {
                    (nearest_color(p, d0, d1, d2) + 1) as u16
                } else {
                    h0[t]
                }
            },
    )
}

/// A cache that keeps every cell outside the block of `(c0, c1, c2)` and has
/// that whole block filled is the block refilled.
pub proof fn lemma_refilled(h0: Seq<u16>, h: Seq<u16>, p: Palette, c0: int, c1: int, c2: int, b0: int, b1: int, b2: int)
    requires
        h0.len() == 65536,
        h.len() == 65536,
        p.colors_total <= 256,
        valid_cell(c0, c1, c2),
        b0 == (c0 / 4) * 4 && b1 == (c1 / 8) * 8 && b2 == (c2 / 4) * 4,
        block_filled(h, p, b0, b1, b2, 128),
        forall|d0: int, d1: int, d2: int|
            valid_cell(d0, d1, d2) && !same_block(d0, d1, d2, c0, c1, c2) ==> #[trigger] h[cell_index(d0, d1, d2)]
                == h0[cell_index(d0, d1, d2)],
    ensures
        h == refill(h0, p, c0, c1, c2),
{
    let r = refill(h0, p, c0, c1, c2);
    assert forall|t: int| 0 <= t < 65536 implies h[t] == r[t] by {
        lemma_cell_of_index(t);
        let (d0, d1, d2) = (t / 2048, (t / 32) % 64, t % 32);
        if same_block(d0, d1, d2, c0, c1, c2) {
            let k = (d0 - b0) * 32 + (d1 - b1) * 4 + (d2 - b2);
            assert(k / 32 == d0 - b0 && (k / 4) % 8 == d1 - b1 && k % 4 == d2 - b2);
            assert(h[block_index(b0, b1, b2, k)] == nearest_color(p, d0, d1, d2) + 1);
            lemma_nearest_in_use(p, d0, d1, d2);
        } else {
            assert(h[cell_index(d0, d1, d2)] == h0[cell_index(d0, d1, d2)]);
        }
    }
    assert(h =~= r);
}

/// The histogram cell of pixel `k` of a raw RGBA buffer.
pub open spec fn pixel_channels(bytes: Seq<u8>, k: int) -> (int, int, int) {
    (bytes[4 * k] as int / 8, bytes[4 * k + 1] as int / 4, bytes[4 * k + 2] as int / 8)
}

/// Looking cell `c` up in cache `h`: a cached cell gives its entry and
/// leaves the cache; an empty one first has its block refilled (see
/// `refill`) and gives its nearest entry. Returns the cache after the lookup
/// and the entry.
pub open spec fn cache_lookup(h: Seq<u16>, p: Palette, c: (int, int, int)) -> (Seq<u16>, int) {
    let t = cell_index(c.0, c.1, c.2);
    if h[t] != 0 {
        (h, h[t] - 1)
    } else {
        (refill(h, p, c.0, c.1, c.2), nearest_color(p, c.0, c.1, c.2))
    }
}

/// With a consistent cache, a lookup gives the cell's nearest palette entry
/// and leaves the cache consistent.
pub proof fn lemma_lookup_nearest(h: Seq<u16>, p: Palette, c: (int, int, int))
    requires
        h.len() == 65536,
        p.colors_total <= 256,
        cache_holds(h, p),
        valid_cell(c.0, c.1, c.2),
    ensures
        cache_lookup(h, p, c).1 == nearest_color(p, c.0, c.1, c.2),
        cache_holds(cache_lookup(h, p, c).0, p),
{
    let t = cell_index(c.0, c.1, c.2);
    if h[t] == 0 {
        let r = refill(h, p, c.0, c.1, c.2);
        assert forall|d0: int, d1: int, d2: int|
            valid_cell(d0, d1, d2) && #[trigger] r[cell_index(d0, d1, d2)] != 0 implies r[cell_index(d0, d1, d2)]
                == nearest_color(p, d0, d1, d2) + 1 by {
            let u = cell_index(d0, d1, d2);
            lemma_cell_index(d0, d1, d2, d0, d1, d2);
            lemma_cell_of_index(u);
            lemma_cell_index(u / 2048, (u / 32) % 64, u % 32, d0, d1, d2);
            lemma_nearest_in_use(p, d0, d1, d2);
        }
    }
}

/// The cache and the palette indices after looking up the first `k` pixels
/// of `bytes`, in order, starting from cache `h0`.
pub open spec fn plain_pass(h0: Seq<u16>, p: Palette, bytes: Seq<u8>, k: nat) -> (Seq<u16>, Seq<u8>)
    decreases k,
{
    if k == 0 {
        (h0, Seq::empty())
    } else {
        let prev = plain_pass(h0, p, bytes, (k - 1) as nat);
        let r = cache_lookup(prev.0, p, pixel_channels(bytes, k - 1));
        (r.0, prev.1.push(r.1 as u8))
    }
}

/// Every position of the flat histogram is the cell its quotients name.
pub proof fn lemma_cell_of_index(t: int)
    requires
        0 <= t < 65536,
    ensures
        valid_cell(t / 2048, (t / 32) % 64, t % 32),
        cell_index(t / 2048, (t / 32) % 64, t % 32) == t,
{
    let q = t / 32;
    assert(t == q * 32 + t % 32);
    assert(q == (q / 64) * 64 + q % 64);
    assert(q / 64 == t / 2048) by {
        vstd::arithmetic::div_mod::lemma_div_denominator(t, 32, 64);
    }
}

/// `h` is a histogram cache that differs from `h0` only in cells that now
/// hold their nearest palette entry plus one.
pub open spec fn cache_update(h0: Seq<u16>, h: Seq<u16>, p: Palette) -> bool {
    &&& h.len() == 65536
    &&& forall|j: int| 0 <= j < 65536 ==> #[trigger] h[j] <= 256
    &&& forall|c0: int, c1: int, c2: int|
        valid_cell(c0, c1, c2) ==> #[trigger] h[cell_index(c0, c1, c2)] == h0[cell_index(c0, c1, c2)]
            || h[cell_index(c0, c1, c2)] == nearest_color(p, c0, c1, c2) + 1
}

/// The first `n` cells of the block starting at `(b0, b1, b2)` hold their
/// nearest palette entry plus one.
pub open spec fn block_filled(h: Seq<u16>, p: Palette, b0: int, b1: int, b2: int, n: int) -> bool {
    forall|t: int|
        0 <= t < n ==> #[trigger] h[block_index(b0, b1, b2, t)] == nearest_color(p, b0 + t / 32, b1 + (t / 4) % 8, b2 + t % 4)
            + 1
}

/// The nearest entry of an empty palette is entry 0; otherwise it is in use.
pub proof fn lemma_nearest_in_use(p: Palette, c0: int, c1: int, c2: int)
    requires
        p.colors_total <= 256,
    ensures
        0 <= nearest_color(p, c0, c1, c2) < 256,
        p.colors_total == 0 ==> nearest_color(p, c0, c1, c2) == 0,
        p.colors_total >= 1 ==> nearest_color(p, c0, c1, c2) < p.colors_total,
{
    if p.colors_total >= 1 {
        lemma_nearest_upto(p, p.colors_total as nat, c0, c1, c2);
    }
}

/// When a list of distinct, increasing palette indices contains the nearest
/// entry of the whole palette, the first nearest entry of the list is that
/// entry.
pub proof fn lemma_best_is_nearest(
    p: Palette,
    list: Seq<u8>,
    n: int,
    a: int,
    e: int,
    q: int,
    c0: int,
    c1: int,
    c2: int,
)
    requires
        1 <= p.colors_total <= 256,
        n <= list.len(),
        forall|k: int| 0 <= k < n ==> (#[trigger] list[k] as int) < p.colors_total,
        forall|k1: int, k2: int| 0 <= k1 < k2 < n ==> #[trigger] list[k1] < #[trigger] list[k2],
        0 <= a < n,
        list[a] as int == nearest_color(p, c0, c1, c2),
        best_of_list(p, list, n, e, q, c0, c1, c2),
    ensures
        e == nearest_color(p, c0, c1, c2),
{
    let m = nearest_color(p, c0, c1, c2);
    lemma_nearest_upto(p, p.colors_total as nat, c0, c1, c2);
    assert(pal_dist(p, e, c0, c1, c2) <= pal_dist(p, list[a] as int, c0, c1, c2));
    assert((list[q] as int) < p.colors_total);
    assert(pal_dist(p, m, c0, c1, c2) <= pal_dist(p, e, c0, c1, c2));
    if q < a {
        assert(list[q] < list[a]);
        assert(pal_dist(p, m, c0, c1, c2) < pal_dist(p, e, c0, c1, c2));
    } else if a < q {
        assert(pal_dist(p, e, c0, c1, c2) < pal_dist(p, list[a] as int, c0, c1, c2));
    }
}

/// Writing the nearest entry plus one into the next cell of a block keeps a
/// cache update and fills one more cell.
pub proof fn lemma_fill_step(h0: Seq<u16>, prev: Seq<u16>, h: Seq<u16>, p: Palette, b0: int, b1: int, b2: int, n: int)
    requires
        p.colors_total <= 256,
        0 <= b0 && b0 + 3 < 32 && 0 <= b1 && b1 + 7 < 64 && 0 <= b2 && b2 + 3 < 32,
        0 <= n < 128,
        cache_update(h0, prev, p),
        block_filled(prev, p, b0, b1, b2, n),
        h == prev.update(
            block_index(b0, b1, b2, n),
            (nearest_color(p, b0 + n / 32, b1 + (n / 4) % 8, b2 + n % 4) + 1) as u16,
        ),
    ensures
        cache_update(h0, h, p),
        block_filled(h, p, b0, b1, b2, n + 1),
{
    let (x0, x1, x2) = (b0 + n / 32, b1 + (n / 4) % 8, b2 + n % 4);
    lemma_nearest_in_use(p, x0, x1, x2);
    lemma_cell_index(x0, x1, x2, x0, x1, x2);
    assert forall|d0: int, d1: int, d2: int| valid_cell(d0, d1, d2) implies #[trigger] h[cell_index(d0, d1, d2)]
        == h0[cell_index(d0, d1, d2)] || h[cell_index(d0, d1, d2)] == nearest_color(p, d0, d1, d2) + 1 by {
        lemma_cell_index(d0, d1, d2, x0, x1, x2);
        assert(prev[cell_index(d0, d1, d2)] == prev[cell_index(d0, d1, d2)]);
    }
    assert forall|t: int| 0 <= t < n + 1 implies #[trigger] h[block_index(b0, b1, b2, t)] == nearest_color(
        p,
        b0 + t / 32,
        b1 + (t / 4) % 8,
        b2 + t % 4,
    ) + 1 by {
        if t < n {
            assert(prev[block_index(b0, b1, b2, t)] == prev[block_index(b0, b1, b2, t)]);
            lemma_cell_index(b0 + t / 32, b1 + (t / 4) % 8, b2 + t % 4, x0, x1, x2);
        }
    }
    assert forall|j: int| 0 <= j < 65536 implies #[trigger] h[j] <= 256 by {
        assert(prev[j] <= 256);
    }
}

/// The entries chosen for the 128 cells of a block from the nearby list are
/// the cells' nearest palette entries.
pub proof fn lemma_block_choices(
    p: Palette,
    list: Seq<u8>,
    n: int,
    at: Seq<int>,
    best: Seq<u8>,
    pos: Seq<int>,
    minc0: int,
    minc1: int,
    minc2: int,
    b0: int,
    b1: int,
    b2: int,
)
    requires
        p.colors_total <= 256,
        0 <= n <= p.colors_total,
        n <= list.len(),
        best.len() == 128,
        0 <= b0 && b0 + 3 < 32 && 0 <= b1 && b1 + 7 < 64 && 0 <= b2 && b2 + 3 < 32,
        minc0 == center0(b0) && minc1 == center1(b1) && minc2 == center2(b2),
        forall|k: int| 0 <= k < n ==> (#[trigger] list[k] as int) < p.colors_total,
        forall|k1: int, k2: int| 0 <= k1 < k2 < n ==> #[trigger] list[k1] < #[trigger] list[k2],
        forall|c0: int, c1: int, c2: int|
            valid_cell(c0, c1, c2) && in_cmap_block(minc0, minc1, minc2, c0, c1, c2) && p.colors_total >= 1
                ==> 0 <= #[trigger] at[nearest_color(p, c0, c1, c2)] < n && list[at[nearest_color(p, c0, c1, c2)]] as int
                == nearest_color(p, c0, c1, c2),
        n == 0 ==> forall|k: int| 0 <= k < 128 ==> #[trigger] best[k] == 0,
        n >= 1 ==> forall|k: int|
            #![trigger best[k]]
            0 <= k < 128 ==> best_of_list(p, list, n, best[k] as int, pos[k], b0 + k / 32, b1 + (k / 4) % 8, b2 + k % 4),
    ensures
        forall|t: int| 0 <= t < 128 ==> #[trigger] best[t] as int == nearest_color(p, b0 + t / 32, b1 + (t / 4) % 8, b2 + t % 4),
{
    assert forall|t: int| 0 <= t < 128 implies #[trigger] best[t] as int == nearest_color(
        p,
        b0 + t / 32,
        b1 + (t / 4) % 8,
        b2 + t % 4,
    ) by {
        let (x0, x1, x2) = (b0 + t / 32, b1 + (t / 4) % 8, b2 + t % 4);
        assert(valid_cell(x0, x1, x2));
        assert(in_cmap_block(minc0, minc1, minc2, x0, x1, x2));
        lemma_nearest_in_use(p, x0, x1, x2);
        if p.colors_total >= 1 {
            let a = at[nearest_color(p, x0, x1, x2)];
            assert(0 <= a < n);
            assert(best_of_list(p, list, n, best[t] as int, pos[t], x0, x1, x2));
            lemma_best_is_nearest(p, list, n, a, best[t] as int, pos[t], x0, x1, x2);
        } else {
            assert(n == 0);
            assert(best[t] == 0);
            assert(nearest_color(p, x0, x1, x2) == 0);
        }
    }
}

/// Every nonzero cell of `h` holds its nearest entry of `p` plus one.
pub open spec fn cache_holds(h: Seq<u16>, p: Palette) -> bool {
    forall|c0: int, c1: int, c2: int|
        valid_cell(c0, c1, c2) && #[trigger] h[cell_index(c0, c1, c2)] != 0 ==> h[cell_index(c0, c1, c2)]
            == nearest_color(p, c0, c1, c2) + 1
}

/// The palette index that pixel `k` of a raw RGBA buffer maps to.
pub open spec fn pixel_nearest(p: Palette, bytes: Seq<u8>, k: int) -> int {
    nearest_color(p, bytes[4 * k] as int / 8, bytes[4 * k + 1] as int / 4, bytes[4 * k + 2] as int / 8)
}

/// What a pixel may be mapped to from the cache `h0`: its nearest entry, or
/// the entry that its cell held in `h0` (which differs only when the palette
/// changed after the cell was cached).
pub open spec fn cached_or_nearest(h0: Seq<u16>, p: Palette, bytes: Seq<u8>, k: int, v: int) -> bool {
    v == pixel_nearest(p, bytes, k) || (h0[pixel_cell(bytes, k)] != 0 && v == h0[pixel_cell(bytes, k)] - 1)
}

/// Cache updates compose.
pub proof fn lemma_cache_update_trans(h0: Seq<u16>, h1: Seq<u16>, h2: Seq<u16>, p: Palette)
    requires
        cache_update(h0, h1, p),
        cache_update(h1, h2, p),
    ensures
        cache_update(h0, h2, p),
{
    assert forall|c0: int, c1: int, c2: int| valid_cell(c0, c1, c2) implies #[trigger] h2[cell_index(c0, c1, c2)]
        == h0[cell_index(c0, c1, c2)] || h2[cell_index(c0, c1, c2)] == nearest_color(p, c0, c1, c2) + 1 by {
        assert(h1[cell_index(c0, c1, c2)] == h1[cell_index(c0, c1, c2)]);
    }
}

/// A cache update of a consistent cache is consistent.
pub proof fn lemma_cache_update_holds(h0: Seq<u16>, h: Seq<u16>, p: Palette)
    requires
        cache_update(h0, h, p),
        cache_holds(h0, p),
    ensures
        cache_holds(h, p),
{
    assert forall|c0: int, c1: int, c2: int| valid_cell(c0, c1, c2) && #[trigger] h[cell_index(c0, c1, c2)] != 0 implies h[cell_index(
        c0,
        c1,
        c2,
    )] == nearest_color(p, c0, c1, c2) + 1 by {
        assert(h0[cell_index(c0, c1, c2)] == h0[cell_index(c0, c1, c2)]);
    }
}

/// Nothing changed is a cache update.
pub proof fn lemma_cache_update_refl(h: Seq<u16>, p: Palette)
    requires
        h.len() == 65536,
        forall|j: int| 0 <= j < 65536 ==> #[trigger] h[j] <= 256,
    ensures
        cache_update(h, h, p),
{
}

// ---------------------------------------------------------------------------
// Floyd-Steinberg dithering model
// ---------------------------------------------------------------------------

/// `v` clamped to `0..=255`.
pub open spec fn clamp255(v: int) -> int {
    if v < 0 {
        0
    } else if v > 255 {
        255
    } else {
        v
    }
}

/// The value looked up for one channel of a pixel: the carried error `cur`
/// and the stored error `stored` are summed, scaled down by 16 (rounding to
/// nearest), limited, added to the channel value `x` and clamped.
pub open spec fn fs_target(cur: int, stored: int, x: int) -> int {
    clamp255(error_limit((cur + stored + 8) / 16) + x)
}

/// Column of the `j`-th pixel visited in row `y`: even rows run left to
/// right, odd rows right to left.
pub open spec fn fs_col(w: int, y: int, j: int) -> int {
    if y % 2 == 0 {
        j
    } else {
        w - 1 - j
    }
}

/// Slot of the error row written for the `j`-th pixel visited in row `y`
/// (the slot of the column behind it); at `j == w`, the slot past the row.
pub open spec fn fs_ptr(w: int, y: int, j: int) -> int {
    if y % 2 == 0 {
        3 * j
    } else {
        3 * (w + 1 - j)
    }
}

/// One Floyd-Steinberg pixel: pixel `(x, y)` is read with the stored error of
/// slot `ep`, looked up in the cache (see `cache_lookup`), and its error is
/// spread: 7/16 carried on (`cur`), 1/16 kept for the pixel below-ahead
/// (`below`), 5/16 for the pixel below (`bprev`) and 3/16 stored in slot `e`
/// for the pixel below-behind.
pub open spec fn fs_pixel(
    p: Palette,
    bytes: Seq<u8>,
    w: int,
    y: int,
    x: int,
    e: int,
    ep: int,
    st: ((int, int, int), (int, int, int), (int, int, int), Seq<i16>, Seq<u8>, Seq<u16>),
) -> ((int, int, int), (int, int, int), (int, int, int), Seq<i16>, Seq<u8>, Seq<u16>) {
    let v0 = fs_target(st.0.0, st.3[ep] as int, bytes[byte_index(w, x, y, 0)] as int);
    let v1 = fs_target(st.0.1, st.3[ep + 1] as int, bytes[byte_index(w, x, y, 1)] as int);
    let v2 = fs_target(st.0.2, st.3[ep + 2] as int, bytes[byte_index(w, x, y, 2)] as int);
    let looked = cache_lookup(st.5, p, (v0 / 8, v1 / 4, v2 / 8));
    let pix = looked.1;
    let e0 = v0 - p.red[pix] as int;
    let e1 = v1 - p.green[pix] as int;
    let e2 = v2 - p.blue[pix] as int;
    (
        (7 * e0, 7 * e1, 7 * e2),
        (e0, e1, e2),
        (st.1.0 + 5 * e0, st.1.1 + 5 * e1, st.1.2 + 5 * e2),
        st.3.update(e, (st.2.0 + 3 * e0) as i16).update(e + 1, (st.2.1 + 3 * e1) as i16).update(
            e + 2,
            (st.2.2 + 3 * e2) as i16,
        ),
        st.4.update(y * w + x, pix as u8),
        looked.0,
    )
}

/// The dithering state after the first `j` pixels of row `y`, starting from
/// the error row `errs`, output `out` and cache `cache`.
pub open spec fn fs_row(
    p: Palette,
    bytes: Seq<u8>,
    w: int,
    y: int,
    j: nat,
    errs: Seq<i16>,
    out: Seq<u8>,
    cache: Seq<u16>,
) -> ((int, int, int), (int, int, int), (int, int, int), Seq<i16>, Seq<u8>, Seq<u16>)
    decreases j,
{
    if j == 0 {
        ((0, 0, 0), (0, 0, 0), (0, 0, 0), errs, out, cache)
    } else {
        let k = j - 1;
        let x = fs_col(w, y, k);
        fs_pixel(p, bytes, w, y, x, fs_ptr(w, y, k), 3 * (x + 1), fs_row(p, bytes, w, y, (j - 1) as nat, errs, out, cache))
    }
}

/// The error row, output and cache after the first `r` rows of a `w` by `h`
/// frame, starting from cache `h0`. At the end of each row the accumulated
/// green and blue errors are stored in the slot past its last pixel.
pub open spec fn fs_rows(p: Palette, bytes: Seq<u8>, w: int, h: int, h0: Seq<u16>, r: nat) -> (Seq<i16>, Seq<u8>, Seq<u16>)
    decreases r,
{
    if r == 0 {
        (Seq::new(((w + 2) * 3) as nat, |i: int| 0i16), Seq::new((w * h) as nat, |i: int| 0u8), h0)
    } else {
        let prev = fs_rows(p, bytes, w, h, h0, (r - 1) as nat);
        let st = fs_row(p, bytes, w, r - 1, w as nat, prev.0, prev.1, prev.2);
        let e = fs_ptr(w, r - 1, w);
        (st.3.update(e + 1, st.2.1 as i16).update(e + 2, st.2.2 as i16), st.4, st.5)
    }
}

/// Dithering part of a row from two consistent caches gives the same
/// accumulators, error row and output, and leaves both caches consistent.
pub proof fn lemma_fs_row_cache_free(
    p: Palette,
    bytes: Seq<u8>,
    w: int,
    y: int,
    j: nat,
    errs: Seq<i16>,
    out: Seq<u8>,
    c1: Seq<u16>,
    c2: Seq<u16>,
)
    requires
        p.colors_total <= 256,
        c1.len() == 65536,
        c2.len() == 65536,
        cache_holds(c1, p),
        cache_holds(c2, p),
    ensures
        ({
            let a = fs_row(p, bytes, w, y, j, errs, out, c1);
            let b = fs_row(p, bytes, w, y, j, errs, out, c2);
            &&& a.0 == b.0 && a.1 == b.1 && a.2 == b.2 && a.3 == b.3 && a.4 == b.4
            &&& a.5.len() == 65536 && b.5.len() == 65536
            &&& cache_holds(a.5, p) && cache_holds(b.5, p)
        }),
    decreases j,
{
    if j > 0 {
        lemma_fs_row_cache_free(p, bytes, w, y, (j - 1) as nat, errs, out, c1, c2);
        let sa = fs_row(p, bytes, w, y, (j - 1) as nat, errs, out, c1);
        let sb = fs_row(p, bytes, w, y, (j - 1) as nat, errs, out, c2);
        let k = j - 1;
        let x = fs_col(w, y, k);
        let ep = 3 * (x + 1);
        let v0 = fs_target(sa.0.0, sa.3[ep] as int, bytes[byte_index(w, x, y, 0)] as int);
        let v1 = fs_target(sa.0.1, sa.3[ep + 1] as int, bytes[byte_index(w, x, y, 1)] as int);
        let v2 = fs_target(sa.0.2, sa.3[ep + 2] as int, bytes[byte_index(w, x, y, 2)] as int);
        let c = (v0 / 8, v1 / 4, v2 / 8);
        assert(valid_cell(c.0, c.1, c.2));
        lemma_lookup_nearest(sa.5, p, c);
        lemma_lookup_nearest(sb.5, p, c);
    }
}

/// Dithering the first `r` rows from two consistent caches gives the same
/// error row and output, and leaves both caches consistent.
pub proof fn lemma_fs_rows_cache_free(p: Palette, bytes: Seq<u8>, w: int, h: int, c1: Seq<u16>, c2: Seq<u16>, r: nat)
    requires
        p.colors_total <= 256,
        c1.len() == 65536,
        c2.len() == 65536,
        cache_holds(c1, p),
        cache_holds(c2, p),
    ensures
        fs_rows(p, bytes, w, h, c1, r).0 == fs_rows(p, bytes, w, h, c2, r).0,
        fs_rows(p, bytes, w, h, c1, r).1 == fs_rows(p, bytes, w, h, c2, r).1,
        fs_rows(p, bytes, w, h, c1, r).2.len() == 65536,
        fs_rows(p, bytes, w, h, c2, r).2.len() == 65536,
        cache_holds(fs_rows(p, bytes, w, h, c1, r).2, p),
        cache_holds(fs_rows(p, bytes, w, h, c2, r).2, p),
    decreases r,
{
    if r > 0 {
        lemma_fs_rows_cache_free(p, bytes, w, h, c1, c2, (r - 1) as nat);
        let pa = fs_rows(p, bytes, w, h, c1, (r - 1) as nat);
        let pb = fs_rows(p, bytes, w, h, c2, (r - 1) as nat);
        lemma_fs_row_cache_free(p, bytes, w, r - 1, w as nat, pa.0, pa.1, pa.2, pb.2);
    }
}

/// Arithmetic shift right by 4 is division by 16 rounding down.
pub proof fn lemma_shr4(x: i32)
    requires
        -8192 <= x <= 8192,
    ensures
        (x >> 4i32) as int == (x as int) / 16,
{
    assert((x >> 4i32) as int == (x as int) / 16) by (bit_vector)
        requires
            -8192 <= x <= 8192,
    ;
}

/// The dithering state held in machine integers, read as a model state.
pub open spec fn fs_state_of(
    cur: (i32, i32, i32),
    below: (i32, i32, i32),
    bprev: (i32, i32, i32),
    errs: Seq<i16>,
    out: Seq<u8>,
    cache: Seq<u16>,
) -> ((int, int, int), (int, int, int), (int, int, int), Seq<i16>, Seq<u8>, Seq<u16>) {
    (
        (cur.0 as int, cur.1 as int, cur.2 as int),
        (below.0 as int, below.1 as int, below.2 as int),
        (bprev.0 as int, bprev.1 as int, bprev.2 as int),
        errs,
        out,
        cache,
    )
}

/// Bounds of the dithering accumulators between pixels.
pub open spec fn fs_bounded(cur: (i32, i32, i32), below: (i32, i32, i32), bprev: (i32, i32, i32)) -> bool {
    &&& -1785 <= cur.0 <= 1785 && -1785 <= cur.1 <= 1785 && -1785 <= cur.2 <= 1785
    &&& -255 <= below.0 <= 255 && -255 <= below.1 <= 255 && -255 <= below.2 <= 255
    &&& -1530 <= bprev.0 <= 1530 && -1530 <= bprev.1 <= 1530 && -1530 <= bprev.2 <= 1530
}

/// Every stored error lies within the range that one pixel can produce.
pub open spec fn errors_bounded(errs: Seq<i16>) -> bool {
    forall|i: int| 0 <= i < errs.len() ==> -2295 <= #[trigger] errs[i] <= 2295
}

/// Number of list entries a cell has been compared with.
pub open spec fn seen(i: int, done: bool) -> int {
    if done {
        i + 1
    } else {
        i
    }
}

/// Squares of values up to 800 in magnitude stay below 640000.
pub proof fn lemma_sq_bound(x: int)
    requires
        -800 <= x <= 800,
    ensures
        0 <= sq(x) <= 640000,
{
    assert(0 <= x * x <= 640000) by (nonlinear_arith)
        requires
            -800 <= x <= 800,
    ;
}

/// `(a + s)^2 - a^2 == a * 2s + s^2`.
pub proof fn lemma_first_difference(a: int, s: int)
    ensures
        sq(a + s * 1) - sq(a + s * 0) == a * (2 * s) + s * s,
        sq(a + s) - sq(a) == a * (2 * s) + s * s,
{
    assert(sq(a + s * 1) - sq(a + s * 0) == a * (2 * s) + s * s) by (nonlinear_arith);
    assert(sq(a + s) - sq(a) == a * (2 * s) + s * s) by (nonlinear_arith);
}

/// Successive differences of squares along a step `s` grow by `2 s^2`.
pub proof fn lemma_second_difference(a: int, s: int, t: int)
    ensures
        sq(a + s * (t + 2)) - sq(a + s * (t + 1)) == sq(a + s * (t + 1)) - sq(a + s * t) + 2 * s * s,
{
    assert(sq(a + s * (t + 2)) - sq(a + s * (t + 1)) == sq(a + s * (t + 1)) - sq(a + s * t) + 2 * s * s)
        by (nonlinear_arith);
}

/// The square of an integer.
pub open spec fn sq(x: int) -> int {
    x * x
}

/// Distance from `x` to the nearest value of `lo..=hi` (0 inside it).
pub open spec fn gap_near(x: int, lo: int, hi: int) -> int {
    if x < lo {
        lo - x
    } else if x > hi {
        x - hi
    } else {
        0
    }
}

/// Distance from `x` to the farthest value of `lo..=hi`.
pub open spec fn gap_far(x: int, lo: int, hi: int) -> int {
    if x - lo > hi - x {
        x - lo
    } else {
        hi - x
    }
}

/// A negated value has the same square.
pub proof fn lemma_sq_neg(x: int)
    ensures
        sq(x) == sq(-x),
        sq(x) == x * x,
        sq(x) >= 0,
{
    assert(x * x == (-x) * (-x)) by (nonlinear_arith);
    assert(x * x >= 0) by (nonlinear_arith);
}

/// Squares grow with the magnitude: `a <= b <= c` (all non-negative)
/// gives `a^2 <= b^2 <= c^2 <= 765^2`.
pub proof fn lemma_square_between(a: int, b: int, c: int)
    requires
        0 <= a <= b <= c <= 765,
    ensures
        0 <= a * a <= b * b <= c * c <= 585225,
        0 <= sq(a) <= sq(b) <= sq(c) <= 585225,
{
    assert(0 <= a * a <= b * b <= c * c <= 585225) by (nonlinear_arith)
        requires
            0 <= a <= b <= c <= 765,
    ;
}

/// A box of a single cell has no volume.
pub proof fn lemma_flat_box_volume(b: (int, int, int, int, int, int))
    requires
        b.0 == b.1,
        b.2 == b.3,
        b.4 == b.5,
    ensures
        box_volume(b) == 0,
{
    assert((b.1 - b.0) * 16 == 0);
    assert((b.3 - b.2) * 12 == 0);
    assert((b.5 - b.4) * 8 == 0);
    assert(0int * 0int == 0) by (nonlinear_arith);
}

impl ColorBox {
    spec fn bounds(self) -> (int, int, int, int, int, int) {
        (
            self.c0min as int,
            self.c0max as int,
            self.c1min as int,
            self.c1max as int,
            self.c2min as int,
            self.c2max as int,
        )
    }
}

/// Boxes `0..n` lie in the histogram, are pairwise apart, carry their volume,
/// and every occupied cell lies in one of them.
pub open spec fn is_partition(h: Seq<u16>, boxes: Seq<(int, int, int, int, int, int)>, n: int) -> bool {
    &&& 0 <= n <= boxes.len()
    &&& forall|i: int| 0 <= i < n ==> box_in_range(#[trigger] boxes[i])
    &&& forall|i: int, j: int|
        0 <= i < n && 0 <= j < n && i != j ==> boxes_apart(#[trigger] boxes[i], #[trigger] boxes[j])
    &&& forall|c0: int, c1: int, c2: int|
        valid_cell(c0, c1, c2) && #[trigger] occupied(h, c0, c1, c2) ==> exists|i: int|
            0 <= i < n && in_box(#[trigger] boxes[i], c0, c1, c2)
}

spec fn box_seq(v: Seq<ColorBox>) -> Seq<(int, int, int, int, int, int)> {
    v.map_values(|b: ColorBox| b.bounds())
}

/// The first `n` boxes of `v` with their numbers of occupied cells.
spec fn box_entries(v: Seq<ColorBox>, n: int) -> Seq<((int, int, int, int, int, int), int)> {
    Seq::new(n as nat, |i: int| (v[i].bounds(), v[i].colorcount as int))
}

/// Box `i` of `s` is the first of those with the most occupied cells among
/// the boxes of positive volume, and it has occupied cells.
pub open spec fn first_most_populated(s: Seq<((int, int, int, int, int, int), int)>, i: int) -> bool {
    &&& 0 <= i < s.len()
    &&& s[i].1 > 0 && box_volume(s[i].0) > 0
    &&& forall|j: int| 0 <= j < s.len() && box_volume(#[trigger] s[j].0) > 0 ==> s[j].1 <= s[i].1
    &&& forall|j: int| 0 <= j < i && box_volume(#[trigger] s[j].0) > 0 ==> s[j].1 < s[i].1
}

/// Box `i` of `s` is the first of those with the largest volume, which is
/// positive.
pub open spec fn first_largest(s: Seq<((int, int, int, int, int, int), int)>, i: int) -> bool {
    &&& 0 <= i < s.len()
    &&& box_volume(s[i].0) > 0
    &&& forall|j: int| 0 <= j < s.len() ==> box_volume(#[trigger] s[j].0) <= box_volume(s[i].0)
    &&& forall|j: int| 0 <= j < i ==> box_volume(#[trigger] s[j].0) < box_volume(s[i].0)
}

/// The box the median cut splits next while aiming at `desired` boxes: by
/// population while at most half of them exist, by volume afterwards;
/// `None` when no box can be split.
pub open spec fn box_to_split(s: Seq<((int, int, int, int, int, int), int)>, desired: int) -> Option<int> {
    if s.len() * 2 <= desired {
        if exists|i: int| first_most_populated(s, i) {
            Some(choose|i: int| first_most_populated(s, i))
        } else {
            None
        }
    } else {
        if exists|i: int| first_largest(s, i) {
            Some(choose|i: int| first_largest(s, i))
        } else {
            None
        }
    }
}

/// The axis along which a box is cut: the longest side once channel 0 is
/// weighted 16 per cell, channel 1 12 and channel 2 8 (ties go to channel 1,
/// then 2).
pub open spec fn split_axis(b: (int, int, int, int, int, int)) -> int {
    let d0 = (b.1 - b.0) * 16;
    let d1 = (b.3 - b.2) * 12;
    let d2 = (b.5 - b.4) * 8;
    if d2 > d1 {
        if d0 > d2 {
            0
        } else {
            2
        }
    } else if d0 > d1 {
        0
    } else {
        1
    }
}

/// The half of `b` up to the midpoint of its cut axis.
pub open spec fn lower_half(b: (int, int, int, int, int, int)) -> (int, int, int, int, int, int) {
    let axis = split_axis(b);
    if axis == 0 {
        (b.0, (b.0 + b.1) / 2, b.2, b.3, b.4, b.5)
    } else if axis == 1 {
        (b.0, b.1, b.2, (b.2 + b.3) / 2, b.4, b.5)
    } else {
        (b.0, b.1, b.2, b.3, b.4, (b.4 + b.5) / 2)
    }
}

/// The half of `b` after the midpoint of its cut axis.
pub open spec fn upper_half(b: (int, int, int, int, int, int)) -> (int, int, int, int, int, int) {
    let axis = split_axis(b);
    if axis == 0 {
        ((b.0 + b.1) / 2 + 1, b.1, b.2, b.3, b.4, b.5)
    } else if axis == 1 {
        (b.0, b.1, (b.2 + b.3) / 2 + 1, b.3, b.4, b.5)
    } else {
        (b.0, b.1, b.2, b.3, (b.4 + b.5) / 2 + 1, b.5)
    }
}

/// A new box of the median cut: the part `b` shrunk to its occupied cells,
/// with the number of those cells.
pub open spec fn cut_entry(h: Seq<u16>, b: (int, int, int, int, int, int)) -> ((int, int, int, int, int, int), int) {
    (shrink(h, b), occupied_count(h, b))
}

/// The boxes the median cut reaches from `s`, splitting one box at a time
/// (see `box_to_split`) until there are `desired` or none can be split.
pub open spec fn median_cut_from(h: Seq<u16>, desired: int, s: Seq<((int, int, int, int, int, int), int)>) -> Seq<
    ((int, int, int, int, int, int), int),
>
    decreases desired - s.len(),
{
    if s.len() >= desired {
        s
    } else {
        match box_to_split(s, desired) {
            None => s,
            Some(i) => if 0 <= i < s.len() {
                median_cut_from(
                    h,
                    desired,
                    s.update(i, cut_entry(h, lower_half(s[i].0))).push(cut_entry(h, upper_half(s[i].0))),
                )
            } else {
                s
            },
        }
    }
}

/// The boxes of the median cut of histogram `h` into at most `desired`
/// boxes, starting from the whole colour space, with their numbers of
/// occupied cells.
pub open spec fn median_cut_boxes(h: Seq<u16>, desired: int) -> Seq<((int, int, int, int, int, int), int)> {
    median_cut_from(h, desired, seq![cut_entry(h, (0, 31, 0, 63, 0, 31))])
}

/// The bounds of the boxes of `median_cut_boxes`.
pub open spec fn median_cut_bounds(h: Seq<u16>, desired: int) -> Seq<(int, int, int, int, int, int)> {
    median_cut_boxes(h, desired).map_values(|e: ((int, int, int, int, int, int), int)| e.0)
}

/// The population rule picks box `i` exactly when it is the first most
/// populated box.
proof fn lemma_pick_by_population(s: Seq<((int, int, int, int, int, int), int)>, desired: int, i: int)
    requires
        s.len() * 2 <= desired,
        first_most_populated(s, i),
    ensures
        box_to_split(s, desired) == Some(i),
{
    let k = choose|k: int| first_most_populated(s, k);
    if k < i {
        assert(s[k].1 < s[i].1);
    } else if i < k {
        assert(s[i].1 < s[k].1);
    }
}

/// The volume rule picks box `i` exactly when it is the first largest box.
proof fn lemma_pick_by_volume(s: Seq<((int, int, int, int, int, int), int)>, desired: int, i: int)
    requires
        s.len() * 2 > desired,
        first_largest(s, i),
    ensures
        box_to_split(s, desired) == Some(i),
{
    let k = choose|k: int| first_largest(s, k);
    if k < i {
        assert(box_volume(s[k].0) < box_volume(s[i].0));
    } else if i < k {
        assert(box_volume(s[i].0) < box_volume(s[k].0));
    }
}

/// Two box lists that agree on their first `n` boxes partition alike.
proof fn lemma_partition_prefix(
    h: Seq<u16>,
    bs: Seq<(int, int, int, int, int, int)>,
    cs: Seq<(int, int, int, int, int, int)>,
    n: int,
)
    requires
        is_partition(h, bs, n),
        n <= cs.len(),
        forall|i: int| 0 <= i < n ==> cs[i] == bs[i],
    ensures
        is_partition(h, cs, n),
{
    assert forall|i: int| 0 <= i < n implies box_in_range(#[trigger] cs[i]) by {
        assert(cs[i] == bs[i]);
    }
    assert forall|i: int, j: int| 0 <= i < n && 0 <= j < n && i != j implies boxes_apart(
        #[trigger] cs[i],
        #[trigger] cs[j],
    ) by {
        assert(cs[i] == bs[i]);
        assert(cs[j] == bs[j]);
    }
    assert forall|c0: int, c1: int, c2: int|
        valid_cell(c0, c1, c2) && #[trigger] occupied(h, c0, c1, c2) implies exists|i: int|
        0 <= i < n && in_box(#[trigger] cs[i], c0, c1, c2) by {
        let i = choose|i: int| 0 <= i < n && in_box(#[trigger] bs[i], c0, c1, c2);
        assert(cs[i] == bs[i]);
    }
}

} // verus!

verus! {

/// Cell `a` comes before cell `c` in the scan order (c0, then c1, then c2).
pub open spec fn lex_before(a0: int, a1: int, a2: int, c0: int, c1: int, c2: int) -> bool {
    a0 < c0 || (a0 == c0 && (a1 < c1 || (a1 == c1 && a2 < c2)))
}

/// Median-cut state: the histogram cache and Floyd-Steinberg error rows.
pub struct Quantizer {
    histogram: Vec<u16>,
    fserrors: Vec<i16>,
    error_limiter: Vec<i32>,
    on_odd_row: bool,
    palette: Palette,
}

impl Quantizer {
    /// The histogram, or after construction the cache of nearest palette entries plus one.
    pub closed spec fn hist(&self) -> Seq<u16> {
        self.histogram@
    }

    /// The palette in use.
    pub closed spec fn pal(&self) -> Palette {
        self.palette
    }

    /// The error-limiting table, offset by 255.
    pub closed spec fn limiter(&self) -> Seq<i32> {
        self.error_limiter@
    }

    /// The Floyd-Steinberg error row.
    pub closed spec fn errors(&self) -> Seq<i16> {
        self.fserrors@
    }

    /// Structural validity: full-size histogram whose entries are cache values
    /// (0 or a palette index plus one), the exact error-limiting table, and a
    /// palette count within its 256 slots.
    pub closed spec fn wf(&self) -> bool {
        &&& self.histogram@.len() == 65536
        &&& forall|t: int| 0 <= t < 65536 ==> #[trigger] self.histogram@[t] <= 256
        &&& self.error_limiter@.len() == 511
        &&& forall|i: int| 0 <= i < 511 ==> #[trigger] self.error_limiter@[i] == error_limit(i - 255)
        &&& self.palette.colors_total <= 256
    }

    /// Every cached cell holds its nearest palette index plus one.
    pub open spec fn cache_ok(&self) -> bool {
        cache_holds(self.hist(), self.pal())
    }

    fn init_error_limit(&mut self)
        ensures
            final(self).error_limiter@.len() == 511,
            forall|i: int| 0 <= i < 511 ==> #[trigger] final(self).error_limiter@[i] == error_limit(i - 255),
            final(self).histogram == old(self).histogram,
            final(self).palette == old(self).palette,
            final(self).fserrors == old(self).fserrors,
            final(self).on_odd_row == old(self).on_odd_row,
    {
        let mut lim: Vec<i32> = vec![0i32; 511];
        let table_offset: usize = 255;
        let mut out: i32 = 0;
        let mut inp: i32 = 0;
        // 1:1 up to +- MAXJSAMPLE/16
        while inp < 16
            invariant
                0 <= inp <= 16,
                out == inp,
                lim@.len() == 511,
                table_offset == 255,
                forall|i: int| 0 <= i < 511 && -inp < i - 255 < inp ==> #[trigger] lim@[i] == error_limit(i - 255),
            decreases 16 - inp,
        {
            lim.set(table_offset + inp as usize, out);
            lim.set(table_offset - inp as usize, -out);
            out = out + 1;
            inp = inp + 1;
        }
        // 1:2 up to +- 3*MAXJSAMPLE/16
        while inp < 48
            invariant
                16 <= inp <= 48,
                out == 16 + (inp - 15) / 2,
                lim@.len() == 511,
                table_offset == 255,
                forall|i: int| 0 <= i < 511 && -inp < i - 255 < inp ==> #[trigger] lim@[i] == error_limit(i - 255),
            decreases 48 - inp,
        {
            lim.set(table_offset + inp as usize, out);
            lim.set(table_offset - inp as usize, -out);
            if inp & 1 == 0 {
                out = out + 1;
            }
            proof {
                assert(inp & 1 == 0 <==> inp % 2 == 0) by (bit_vector);
            }
            inp = inp + 1;
        }
        // Clamp the rest
        while inp <= MAXJSAMPLE
            invariant
                48 <= inp <= 256,
                out == 32,
                lim@.len() == 511,
                table_offset == 255,
                forall|i: int| 0 <= i < 511 && -inp < i - 255 < inp ==> #[trigger] lim@[i] == error_limit(i - 255),
            decreases 256 - inp,
        {
            lim.set(table_offset + inp as usize, out);
            lim.set(table_offset - inp as usize, -out);
            inp = inp + 1;
        }
        self.error_limiter = lim;
    }

    fn zero_histogram(&mut self)
        requires
            old(self).histogram@.len() == 65536,
        ensures
            final(self).histogram@.len() == 65536,
            forall|t: int| 0 <= t < 65536 ==> #[trigger] final(self).histogram@[t] == 0,
            final(self).palette == old(self).palette,
            final(self).error_limiter == old(self).error_limiter,
            final(self).fserrors == old(self).fserrors,
            final(self).on_odd_row == old(self).on_odd_row,
    {
        self.histogram = vec![0u16; HIST_ELEMS];
    }

    /// Counts the pixels of `img` into the (zeroed) histogram, saturating at 65535.
    fn prescan_quantize(&mut self, img: &RgbaFrame)
        requires
            old(self).histogram@.len() == 65536,
            forall|t: int| 0 <= t < 65536 ==> #[trigger] old(self).histogram@[t] == 0,
        ensures
            final(self).histogram@ == frame_histogram(img.bytes()),
            final(self).palette == old(self).palette,
            final(self).error_limiter == old(self).error_limiter,
            final(self).fserrors == old(self).fserrors,
            final(self).on_odd_row == old(self).on_odd_row,
    {
        let raw = img.as_raw();
        let npix: usize = raw.len() / 4;
        let ghost bytes = raw@;
        let mut p: usize = 0;
        while p < npix
            invariant
                bytes == img.bytes(),
                raw@ == bytes,
                npix == bytes.len() / 4,
                bytes.len() <= usize::MAX,
                p <= npix,
                self.histogram@.len() == 65536,
                forall|t: int|
                    0 <= t < 65536 ==> #[trigger] self.histogram@[t] == if count_upto(bytes, p as int, t)
                        < 65535 {
                        count_upto(bytes, p as int, t)
                    } else {
                        65535
                    },
                self.palette == old(self).palette,
                self.error_limiter == old(self).error_limiter,
                self.fserrors == old(self).fserrors,
                self.on_odd_row == old(self).on_odd_row,
            decreases npix - p,
        {
            let pixel = [raw[4 * p], raw[4 * p + 1], raw[4 * p + 2], raw[4 * p + 3]];
            let idx: usize = Self::histogram_index_of(pixel);
            assert(idx == pixel_cell(bytes, p as int));
            let ghost prev = self.histogram@;
            let cell: u16 = self.histogram[idx];
            if cell < u16::MAX {
                self.histogram.set(idx, cell + 1);
            }
            assert forall|t: int| 0 <= t < 65536 implies #[trigger] self.histogram@[t] == if count_upto(
                bytes,
                p + 1,
                t,
            ) < 65535 {
                count_upto(bytes, p + 1, t)
            } else {
                65535
            } by {
                assert(count_upto(bytes, p + 1, t) == count_upto(bytes, p as int, t) + if pixel_cell(
                    bytes,
                    p as int,
                ) == t {
                    1int
                } else {
                    0int
                });
                if t != idx {
                    assert(self.histogram@[t] == prev[t]);
                }
            }
            p = p + 1;
        }
        assert(self.histogram@ =~= frame_histogram(bytes));
    }

    /// Shrinks a box to the bounds of the occupied cells inside it, counts
    /// those cells, and recomputes its volume. A box without occupied cells
    /// keeps its bounds.
    fn update_box(&self, occupancy: &Occupancy, boxp: &mut ColorBox)
        requires
            occupancy.describes(self.histogram@),
            box_in_range(old(boxp).bounds()),
        ensures
            box_in_range(final(boxp).bounds()),
            box_within(final(boxp).bounds(), old(boxp).bounds()),
            forall|c0: int, c1: int, c2: int|
                valid_cell(c0, c1, c2) && in_box(old(boxp).bounds(), c0, c1, c2) && #[trigger] occupied(
                    self.histogram@,
                    c0,
                    c1,
                    c2,
                ) ==> in_box(final(boxp).bounds(), c0, c1, c2),
            final(boxp).colorcount == occupied_count(self.histogram@, old(boxp).bounds()),
            final(boxp).colorcount >= 0,
            final(boxp).colorcount == 0 <==> (forall|c0: int, c1: int, c2: int|
                valid_cell(c0, c1, c2) && in_box(old(boxp).bounds(), c0, c1, c2) ==> !#[trigger] occupied(
                    self.histogram@,
                    c0,
                    c1,
                    c2,
                )),
            final(boxp).bounds() == shrink(self.histogram@, old(boxp).bounds()),
            final(boxp).volume == box_volume(final(boxp).bounds()),
    {
        let given = *boxp;
        let ghost h = self.histogram@;
        let ghost ob = given.bounds();
        let mut colorcount: i64 = 0;
        let mut lo0: i32 = given.c0max;
        let mut hi0: i32 = given.c0min;
        let mut lo1: i32 = given.c1max;
        let mut hi1: i32 = given.c1min;
        let mut lo2: i32 = given.c2max;
        let mut hi2: i32 = given.c2min;
        // An occupied cell on each face of the bounds found so far.
        let ghost mut f0lo: (int, int, int) = (0, 0, 0);
        let ghost mut f0hi: (int, int, int) = (0, 0, 0);
        let ghost mut f1lo: (int, int, int) = (0, 0, 0);
        let ghost mut f1hi: (int, int, int) = (0, 0, 0);
        let ghost mut f2lo: (int, int, int) = (0, 0, 0);
        let ghost mut f2hi: (int, int, int) = (0, 0, 0);
        let mut c0: i32 = given.c0min;
        while c0 <= given.c0max
            invariant
                colorcount > 0 ==> faces_found(h, ob, (lo0 as int, hi0 as int, lo1 as int, hi1 as int, lo2 as int, hi2 as int), f0lo, f0hi, f1lo, f1hi, f2lo, f2hi),
                box_in_range(ob),
                ob == given.bounds(),
                occupancy.describes(h),
                ob.0 <= c0 <= ob.1 + 1,
                0 <= colorcount <= cell_index(c0 as int, ob.2, ob.4),
                colorcount == block_sum(h, 4, ob.0, c0 - 1, ob.2, ob.3, ob.4, ob.5),
                colorcount == 0 ==> (lo0 == ob.1 && hi0 == ob.0 && lo1 == ob.3 && hi1 == ob.2 && lo2
                    == ob.5 && hi2 == ob.4),
                colorcount > 0 ==> (ob.0 <= lo0 <= hi0 <= ob.1 && ob.2 <= lo1 <= hi1 <= ob.3 && ob.4
                    <= lo2 <= hi2 <= ob.5),
                forall|a0: int, a1: int, a2: int|
                    in_box(ob, a0, a1, a2) && a0 < c0 && #[trigger] occupied(h, a0, a1, a2) ==> (
                    colorcount > 0 && lo0 <= a0 <= hi0 && lo1 <= a1 <= hi1 && lo2 <= a2 <= hi2),
            decreases ob.1 + 1 - c0,
        {
            let mut c1: i32 = given.c1min;
            while c1 <= given.c1max
                invariant
                    colorcount > 0 ==> faces_found(h, ob, (lo0 as int, hi0 as int, lo1 as int, hi1 as int, lo2 as int, hi2 as int), f0lo, f0hi, f1lo, f1hi, f2lo, f2hi),
                    box_in_range(ob),
                    ob == given.bounds(),
                    occupancy.describes(h),
                    ob.0 <= c0 <= ob.1,
                    ob.2 <= c1 <= ob.3 + 1,
                    0 <= colorcount <= cell_index(c0 as int, c1 as int, ob.4),
                    colorcount == block_sum(h, 4, ob.0, c0 - 1, ob.2, ob.3, ob.4, ob.5) + plane_sum(h, 4, c0 as int, ob.2, c1 - 1, ob.4, ob.5),
                    colorcount == 0 ==> (lo0 == ob.1 && hi0 == ob.0 && lo1 == ob.3 && hi1 == ob.2
                        && lo2 == ob.5 && hi2 == ob.4),
                    colorcount > 0 ==> (ob.0 <= lo0 <= hi0 <= ob.1 && ob.2 <= lo1 <= hi1 <= ob.3
                        && ob.4 <= lo2 <= hi2 <= ob.5),
                    forall|a0: int, a1: int, a2: int|
                        in_box(ob, a0, a1, a2) && lex_before(a0, a1, a2, c0 as int, c1 as int, ob.4)
                            && #[trigger] occupied(h, a0, a1, a2) ==> (colorcount > 0 && lo0 <= a0
                            <= hi0 && lo1 <= a1 <= hi1 && lo2 <= a2 <= hi2),
                decreases ob.3 + 1 - c1,
            {
                let row: u32 = occupancy.row(c0, c1);
                let mut c2: i32 = given.c2min;
                while c2 <= given.c2max
                    invariant
                        colorcount > 0 ==> faces_found(h, ob, (lo0 as int, hi0 as int, lo1 as int, hi1 as int, lo2 as int, hi2 as int), f0lo, f0hi, f1lo, f1hi, f2lo, f2hi),
                        box_in_range(ob),
                        ob == given.bounds(),
                        occupancy.describes(h),
                        row == occupancy.rows@[c0 * 64 + c1],
                        ob.0 <= c0 <= ob.1,
                        ob.2 <= c1 <= ob.3,
                        ob.4 <= c2 <= ob.5 + 1,
                        0 <= colorcount <= cell_index(c0 as int, c1 as int, c2 as int),
                        colorcount == block_sum(h, 4, ob.0, c0 - 1, ob.2, ob.3, ob.4, ob.5) + plane_sum(h, 4, c0 as int, ob.2, c1 - 1, ob.4, ob.5) + row_sum(h, 4, c0 as int, c1 as int, ob.4, c2 - 1),
                        colorcount == 0 ==> (lo0 == ob.1 && hi0 == ob.0 && lo1 == ob.3 && hi1
                            == ob.2 && lo2 == ob.5 && hi2 == ob.4),
                        colorcount > 0 ==> (ob.0 <= lo0 <= hi0 <= ob.1 && ob.2 <= lo1 <= hi1
                            <= ob.3 && ob.4 <= lo2 <= hi2 <= ob.5),
                        forall|a0: int, a1: int, a2: int|
                            in_box(ob, a0, a1, a2) && lex_before(
                                a0,
                                a1,
                                a2,
                                c0 as int,
                                c1 as int,
                                c2 as int,
                            ) && #[trigger] occupied(h, a0, a1, a2) ==> (colorcount > 0 && lo0
                                <= a0 <= hi0 && lo1 <= a1 <= hi1 && lo2 <= a2 <= hi2),
                    decreases ob.5 + 1 - c2,
                {
                    assert(bit(occupancy.rows@[c0 * 64 + c1], c2 as u32) <==> occupied(
                        h,
                        c0 as int,
                        c1 as int,
                        c2 as int,
                    ));
                    if (row >> c2 as u32) & 1u32 == 1u32 {
                        proof {
                            let cell = (c0 as int, c1 as int, c2 as int);
                            if colorcount == 0 || c0 < lo0 {
                                f0lo = cell;
                            }
                            if colorcount == 0 || c0 > hi0 {
                                f0hi = cell;
                            }
                            if colorcount == 0 || c1 < lo1 {
                                f1lo = cell;
                            }
                            if colorcount == 0 || c1 > hi1 {
                                f1hi = cell;
                            }
                            if colorcount == 0 || c2 < lo2 {
                                f2lo = cell;
                            }
                            if colorcount == 0 || c2 > hi2 {
                                f2hi = cell;
                            }
                        }
                        colorcount = colorcount + 1;
                        if c0 < lo0 {
                            lo0 = c0;
                        }
                        if c0 > hi0 {
                            hi0 = c0;
                        }
                        if c1 < lo1 {
                            lo1 = c1;
                        }
                        if c1 > hi1 {
                            hi1 = c1;
                        }
                        if c2 < lo2 {
                            lo2 = c2;
                        }
                        if c2 > hi2 {
                            hi2 = c2;
                        }
                    }
                    c2 = c2 + 1;
                }
                c1 = c1 + 1;
            }
            c0 = c0 + 1;
        }
        if colorcount != 0 {
            boxp.c0min = lo0;
            boxp.c0max = hi0;
            boxp.c1min = lo1;
            boxp.c1max = hi1;
            boxp.c2min = lo2;
            boxp.c2max = hi2;
            proof {
                let t = boxp.bounds();
                lemma_faces_found(h, ob, t, f0lo, f0hi, f1lo, f1hi, f2lo, f2hi);
                lemma_shrink_is(h, ob, t);
            }
        } else {
            proof {
                lemma_shrink_empty(h, ob);
            }
        }
        let dist0: i64 = ((boxp.c0max - boxp.c0min) as i64) * 16;
        let dist1: i64 = ((boxp.c1max - boxp.c1min) as i64) * 12;
        let dist2: i64 = ((boxp.c2max - boxp.c2min) as i64) * 8;
        assert(0 <= dist0 * dist0 <= 496 * 496 && 0 <= dist1 * dist1 <= 756 * 756 && 0 <= dist2 * dist2 <= 248 * 248)
            by (nonlinear_arith)
            requires
                0 <= dist0 <= 496,
                0 <= dist1 <= 756,
                0 <= dist2 <= 248,
        ;
        boxp.volume = dist0 * dist0 + dist1 * dist1 + dist2 * dist2;
        boxp.colorcount = colorcount;
    }

    /// The first box with the most occupied cells among those with a positive volume.
    fn find_biggest_color_pop(boxlist: &Vec<ColorBox>, numboxes: usize) -> (r: Option<usize>)
        requires
            numboxes <= boxlist@.len(),
        ensures
            r matches Some(i) ==> (i < numboxes && boxlist@[i as int].colorcount > 0
                && boxlist@[i as int].volume > 0
                && (forall|j: int|
                0 <= j < numboxes && boxlist@[j].volume > 0 ==> boxlist@[j].colorcount <= boxlist@[i as int].colorcount)
                && (forall|j: int|
                0 <= j < i && boxlist@[j].volume > 0 ==> boxlist@[j].colorcount < boxlist@[i as int].colorcount)),
            r is None ==> forall|j: int|
                0 <= j < numboxes ==> !(boxlist@[j].colorcount > 0 && boxlist@[j].volume > 0),
    {
        let mut maxc: i64 = 0;
        let mut which: Option<usize> = None;
        let mut i: usize = 0;
        while i < numboxes
            invariant
                numboxes <= boxlist@.len(),
                i <= numboxes,
                maxc >= 0,
                which matches Some(w) ==> (w < i && boxlist@[w as int].colorcount == maxc && maxc > 0
                    && boxlist@[w as int].volume > 0 && (forall|j: int|
                    0 <= j < w && boxlist@[j].volume > 0 ==> boxlist@[j].colorcount < maxc)),
                which is None ==> maxc == 0,
                forall|j: int| 0 <= j < i && boxlist@[j].volume > 0 ==> boxlist@[j].colorcount <= maxc,
            decreases numboxes - i,
        {
            let bx = boxlist[i];
            if bx.colorcount > maxc && bx.volume > 0 {
                which = Some(i);
                maxc = bx.colorcount;
            }
            i = i + 1;
        }
        which
    }

    /// The first box with the largest volume, if any volume is positive.
    fn find_biggest_volume(boxlist: &Vec<ColorBox>, numboxes: usize) -> (r: Option<usize>)
        requires
            numboxes <= boxlist@.len(),
        ensures
            r matches Some(i) ==> (i < numboxes && boxlist@[i as int].volume > 0
                && (forall|j: int| 0 <= j < numboxes ==> boxlist@[j].volume <= boxlist@[i as int].volume)
                && (forall|j: int| 0 <= j < i ==> boxlist@[j].volume < boxlist@[i as int].volume)),
            r is None ==> forall|j: int| 0 <= j < numboxes ==> boxlist@[j].volume <= 0,
    {
        let mut maxv: i64 = 0;
        let mut which: Option<usize> = None;
        let mut i: usize = 0;
        while i < numboxes
            invariant
                numboxes <= boxlist@.len(),
                i <= numboxes,
                maxv >= 0,
                which matches Some(w) ==> (w < i && boxlist@[w as int].volume == maxv && maxv > 0
                    && (forall|j: int| 0 <= j < w ==> boxlist@[j].volume < maxv)),
                which is None ==> maxv == 0,
                forall|j: int| 0 <= j < i ==> boxlist@[j].volume <= maxv,
            decreases numboxes - i,
        {
            let bx = boxlist[i];
            if bx.volume > maxv {
                which = Some(i);
                maxv = bx.volume;
            }
            i = i + 1;
        }
        which
    }

    /// Which box `find_biggest_color_pop` or `find_biggest_volume` picks is
    /// the one the median cut splits next.
    proof fn lemma_picked(
        v: Seq<ColorBox>,
        numboxes: int,
        desired: int,
        pick: Option<usize>,
    )
        requires
            0 <= numboxes <= v.len(),
            forall|i: int| 0 <= i < numboxes ==> #[trigger] v[i].volume == box_volume(v[i].bounds()),
            numboxes * 2 <= desired ==> match pick {
                Some(i) => (i < numboxes && v[i as int].colorcount > 0 && v[i as int].volume > 0
                    && (forall|j: int|
                    0 <= j < numboxes && v[j].volume > 0 ==> v[j].colorcount <= v[i as int].colorcount)
                    && (forall|j: int|
                    0 <= j < i && v[j].volume > 0 ==> v[j].colorcount < v[i as int].colorcount)),
                None => forall|j: int| 0 <= j < numboxes ==> !(v[j].colorcount > 0 && v[j].volume > 0),
            },
            numboxes * 2 > desired ==> match pick {
                Some(i) => (i < numboxes && v[i as int].volume > 0
                    && (forall|j: int| 0 <= j < numboxes ==> v[j].volume <= v[i as int].volume)
                    && (forall|j: int| 0 <= j < i ==> v[j].volume < v[i as int].volume)),
                None => forall|j: int| 0 <= j < numboxes ==> v[j].volume <= 0,
            },
        ensures
            box_to_split(box_entries(v, numboxes), desired) == match pick {
                Some(i) => Some(i as int),
                None => None::<int>,
            },
    {
        let s = box_entries(v, numboxes);
        assert forall|j: int| 0 <= j < numboxes implies #[trigger] s[j].0 == v[j].bounds() && s[j].1
            == v[j].colorcount && box_volume(s[j].0) == v[j].volume by {}
        if numboxes * 2 <= desired {
            match pick {
                Some(i) => {
                    lemma_pick_by_population(s, desired, i as int);
                },
                None => {
                    assert forall|i: int| !first_most_populated(s, i) by {
                        if 0 <= i < numboxes {
                            assert(s[i].0 == v[i].bounds());
                        }
                    }
                },
            }
        } else {
            match pick {
                Some(i) => {
                    lemma_pick_by_volume(s, desired, i as int);
                },
                None => {
                    assert forall|i: int| !first_largest(s, i) by {
                        if 0 <= i < numboxes {
                            assert(s[i].0 == v[i].bounds());
                        }
                    }
                },
            }
        }
    }

    /// Splits box `b1_idx` of the first `numboxes` boxes at the midpoint of
    /// its cut axis: the lower half replaces it and the upper half is added
    /// at `numboxes`, each shrunk to its occupied cells.
    #[verifier::spinoff_prover]
    fn split_box(&self, occupancy: &Occupancy, boxlist: &mut Vec<ColorBox>, b1_idx: usize, numboxes: usize)
        requires
            occupancy.describes(self.histogram@),
            b1_idx < numboxes < old(boxlist)@.len(),
            is_partition(self.histogram@, box_seq(old(boxlist)@), numboxes as int),
            forall|i: int| 0 <= i < numboxes ==> #[trigger] old(boxlist)@[i].volume == box_volume(old(boxlist)@[i].bounds()),
            old(boxlist)@[b1_idx as int].volume > 0,
        ensures
            final(boxlist)@.len() == old(boxlist)@.len(),
            is_partition(self.histogram@, box_seq(final(boxlist)@), numboxes + 1),
            forall|i: int| 0 <= i < numboxes + 1 ==> #[trigger] final(boxlist)@[i].volume == box_volume(final(boxlist)@[i].bounds()),
            box_entries(final(boxlist)@, numboxes + 1) == box_entries(old(boxlist)@, numboxes as int).update(
                b1_idx as int,
                cut_entry(self.histogram@, lower_half(old(boxlist)@[b1_idx as int].bounds())),
            ).push(cut_entry(self.histogram@, upper_half(old(boxlist)@[b1_idx as int].bounds()))),
    {
        let ghost h = self.histogram@;
        let ghost old_list = boxlist@;
        let ghost bs = box_seq(old_list);
        let b1 = boxlist[b1_idx];
        let b2_idx: usize = numboxes;
        assert(bs[b1_idx as int] == b1.bounds());
        assert(box_in_range(b1.bounds()));
        assert(b1.volume == box_volume(b1.bounds()));

        let c0: i32 = (b1.c0max - b1.c0min) * 8 * C0_SCALE;
        let c1: i32 = (b1.c1max - b1.c1min) * 4 * C1_SCALE;
        let c2: i32 = (b1.c2max - b1.c2min) * 8 * C2_SCALE;

        let mut cmax: i32 = c1;
        let mut n: u8 = 1;
        if c2 > cmax {
            cmax = c2;
            n = 2;
        }
        if c0 > cmax {
            n = 0;
        }
        proof {
            assert(n == split_axis(b1.bounds()));
            if b1.c0max == b1.c0min && b1.c1max == b1.c1min && b1.c2max == b1.c2min {
                lemma_flat_box_volume(b1.bounds());
            }
            if n == 0 {
                assert(b1.c0max > b1.c0min);
            } else if n == 1 {
                assert(b1.c1max > b1.c1min);
            } else {
                assert(b1.c2max > b1.c2min);
            }
        }

        let mut first = b1;
        let mut second = b1;
        if n == 0 {
            let lb: i32 = (b1.c0max + b1.c0min) / 2;
            first.c0max = lb;
            second.c0min = lb + 1;
        } else if n == 1 {
            let lb: i32 = (b1.c1max + b1.c1min) / 2;
            first.c1max = lb;
            second.c1min = lb + 1;
        } else {
            let lb: i32 = (b1.c2max + b1.c2min) / 2;
            first.c2max = lb;
            second.c2min = lb + 1;
        }
        let ghost cut1 = first.bounds();
        let ghost cut2 = second.bounds();
        assert(cut1 == lower_half(b1.bounds()));
        assert(cut2 == upper_half(b1.bounds()));
        assert(boxes_apart(cut1, cut2));
        self.update_box(occupancy, &mut first);
        self.update_box(occupancy, &mut second);
        boxlist.set(b1_idx, first);
        boxlist.set(b2_idx, second);
        let ghost nbs = box_seq(boxlist@);
        proof {
            assert(nbs[b1_idx as int] == first.bounds());
            assert(nbs[b2_idx as int] == second.bounds());
            assert forall|i: int| 0 <= i < numboxes + 1 implies box_in_range(#[trigger] nbs[i]) by {
                if i != b1_idx && i != b2_idx {
                    assert(nbs[i] == bs[i]);
                }
            }
            assert forall|i: int, j: int|
                0 <= i < numboxes + 1 && 0 <= j < numboxes + 1 && i != j implies boxes_apart(
                #[trigger] nbs[i],
                #[trigger] nbs[j],
            ) by {
                if i != b1_idx && i != b2_idx {
                    assert(nbs[i] == bs[i]);
                }
                if j != b1_idx && j != b2_idx {
                    assert(nbs[j] == bs[j]);
                }
                if i != b1_idx && i != b2_idx && j != b1_idx && j != b2_idx {
                    assert(boxes_apart(bs[i], bs[j]));
                } else if i != b1_idx && i != b2_idx {
                    assert(boxes_apart(bs[i], bs[b1_idx as int]));
                } else if j != b1_idx && j != b2_idx {
                    assert(boxes_apart(bs[b1_idx as int], bs[j]));
                }
            }
            assert forall|a0: int, a1: int, a2: int|
                valid_cell(a0, a1, a2) && #[trigger] occupied(h, a0, a1, a2) implies exists|i: int|
                0 <= i < numboxes + 1 && in_box(#[trigger] nbs[i], a0, a1, a2) by {
                let i = choose|i: int| 0 <= i < numboxes && in_box(#[trigger] bs[i], a0, a1, a2);
                if i == b1_idx {
                    if in_box(cut1, a0, a1, a2) {
                        assert(in_box(nbs[b1_idx as int], a0, a1, a2));
                    } else {
                        assert(in_box(cut2, a0, a1, a2));
                        assert(in_box(nbs[b2_idx as int], a0, a1, a2));
                    }
                } else {
                    assert(nbs[i] == bs[i]);
                    assert(in_box(nbs[i], a0, a1, a2));
                }
            }
            assert forall|i: int| 0 <= i < numboxes + 1 implies #[trigger] boxlist@[i].volume
                == box_volume(boxlist@[i].bounds()) by {
                if i != b1_idx && i != b2_idx {
                    assert(boxlist@[i] == old_list[i]);
                }
            }
            let e0 = box_entries(old_list, numboxes as int);
            let e1 = box_entries(boxlist@, numboxes + 1);
            let expect = e0.update(b1_idx as int, cut_entry(h, cut1)).push(cut_entry(h, cut2));
            assert forall|i: int| 0 <= i < numboxes + 1 implies #[trigger] e1[i] == expect[i] by {
                if i != b1_idx && i != b2_idx {
                    assert(boxlist@[i] == old_list[i]);
                }
            }
            assert(e1 =~= expect);
        }
    }

    /// Splits boxes until there are `desired_colors` of them or none can be
    /// split: by population while at most half the boxes exist, by volume
    /// afterwards, each time at the midpoint of the box's longest weighted
    /// side (see `median_cut_from`).
    fn median_cut(
        &self,
        occupancy: &Occupancy,
        boxlist: &mut Vec<ColorBox>,
        numboxes: usize,
        desired_colors: usize,
    ) -> (n: usize)
        requires
            occupancy.describes(self.histogram@),
            1 <= numboxes <= desired_colors <= old(boxlist)@.len(),
            desired_colors <= MAXNUMCOLORS,
            is_partition(self.histogram@, box_seq(old(boxlist)@), numboxes as int),
            forall|i: int| 0 <= i < numboxes ==> #[trigger] old(boxlist)@[i].volume == box_volume(old(boxlist)@[i].bounds()),
        ensures
            numboxes <= n <= desired_colors,
            final(boxlist)@.len() == old(boxlist)@.len(),
            is_partition(self.histogram@, box_seq(final(boxlist)@), n as int),
            box_entries(final(boxlist)@, n as int) == median_cut_from(
                self.histogram@,
                desired_colors as int,
                box_entries(old(boxlist)@, numboxes as int),
            ),
    {
        let ghost h = self.histogram@;
        let ghost start = numboxes;
        let ghost target = median_cut_from(h, desired_colors as int, box_entries(boxlist@, numboxes as int));
        let mut numboxes: usize = numboxes;
        while numboxes < desired_colors
            invariant
                start <= numboxes,
                desired_colors <= MAXNUMCOLORS,
                occupancy.describes(h),
                h == self.histogram@,
                1 <= numboxes <= desired_colors <= boxlist@.len(),
                boxlist@.len() == old(boxlist)@.len(),
                is_partition(h, box_seq(boxlist@), numboxes as int),
                forall|i: int| 0 <= i < numboxes ==> #[trigger] boxlist@[i].volume == box_volume(boxlist@[i].bounds()),
                median_cut_from(h, desired_colors as int, box_entries(boxlist@, numboxes as int)) == target,
            ensures
                start <= numboxes <= desired_colors,
                boxlist@.len() == old(boxlist)@.len(),
                is_partition(h, box_seq(boxlist@), numboxes as int),
                box_entries(boxlist@, numboxes as int) == target,
            decreases desired_colors - numboxes,
        {
            // Select box to split
            let pick = if numboxes * 2 <= desired_colors {
                Self::find_biggest_color_pop(boxlist, numboxes)
            } else {
                Self::find_biggest_volume(boxlist, numboxes)
            };
            let ghost entries = box_entries(boxlist@, numboxes as int);
            proof {
                Self::lemma_picked(boxlist@, numboxes as int, desired_colors as int, pick);
            }
            let b1_idx = match pick {
                Some(idx) => idx,
                None => {
                    assert(median_cut_from(h, desired_colors as int, entries) == entries);
                    break;
                },
            };
            let ghost b = boxlist@[b1_idx as int].bounds();
            assert(entries[b1_idx as int].0 == b);
            self.split_box(occupancy, boxlist, b1_idx, numboxes);
            assert(median_cut_from(h, desired_colors as int, entries) == median_cut_from(
                h,
                desired_colors as int,
                entries.update(b1_idx as int, cut_entry(h, lower_half(b))).push(cut_entry(h, upper_half(b))),
            ));
            numboxes = numboxes + 1;
        }
        numboxes
    }

    /// The pixel-weighted mean colour of a box (white if it holds no pixels).
    fn compute_color(&self, occupancy: &Occupancy, boxp: &ColorBox) -> (c: (u8, u8, u8))
        requires
            occupancy.describes(self.histogram@),
            box_in_range(boxp.bounds()),
        ensures
            c.0 as int == box_color(self.histogram@, boxp.bounds()).0,
            c.1 as int == box_color(self.histogram@, boxp.bounds()).1,
            c.2 as int == box_color(self.histogram@, boxp.bounds()).2,
    {
        let ghost h = self.histogram@;
        let ghost b = boxp.bounds();
        let mut total: i64 = 0;
        let mut c0total: i64 = 0;
        let mut c1total: i64 = 0;
        let mut c2total: i64 = 0;
        let mut c0: i32 = boxp.c0min;
        while c0 <= boxp.c0max
            invariant
                occupancy.describes(h),
                h == self.histogram@,
                b == boxp.bounds(),
                box_in_range(b),
                b.0 <= c0 <= b.1 + 1,
                0 <= total <= 65535 * cell_index(c0 as int, b.2, b.4),
                0 <= c0total <= 254 * total,
                0 <= c1total <= 254 * total,
                0 <= c2total <= 254 * total,
                total == block_sum(h, 0, b.0, c0 - 1, b.2, b.3, b.4, b.5),
                c0total == block_sum(h, 1, b.0, c0 - 1, b.2, b.3, b.4, b.5),
                c1total == block_sum(h, 2, b.0, c0 - 1, b.2, b.3, b.4, b.5),
                c2total == block_sum(h, 3, b.0, c0 - 1, b.2, b.3, b.4, b.5),
            decreases b.1 + 1 - c0,
        {
            let mut c1: i32 = boxp.c1min;
            while c1 <= boxp.c1max
                invariant
                    occupancy.describes(h),
                    h == self.histogram@,
                    b == boxp.bounds(),
                    box_in_range(b),
                    b.0 <= c0 <= b.1,
                    b.2 <= c1 <= b.3 + 1,
                    0 <= total <= 65535 * cell_index(c0 as int, c1 as int, b.4),
                    0 <= c0total <= 254 * total,
                    0 <= c1total <= 254 * total,
                    0 <= c2total <= 254 * total,
                    total == block_sum(h, 0, b.0, c0 - 1, b.2, b.3, b.4, b.5) + plane_sum(h, 0, c0 as int, b.2, c1 - 1, b.4, b.5),
                    c0total == block_sum(h, 1, b.0, c0 - 1, b.2, b.3, b.4, b.5) + plane_sum(h, 1, c0 as int, b.2, c1 - 1, b.4, b.5),
                    c1total == block_sum(h, 2, b.0, c0 - 1, b.2, b.3, b.4, b.5) + plane_sum(h, 2, c0 as int, b.2, c1 - 1, b.4, b.5),
                    c2total == block_sum(h, 3, b.0, c0 - 1, b.2, b.3, b.4, b.5) + plane_sum(h, 3, c0 as int, b.2, c1 - 1, b.4, b.5),
                decreases b.3 + 1 - c1,
            {
                // Only the occupied cells of the row contribute.
                let row: u32 = occupancy.row(c0, c1);
                let mut c2: i32 = boxp.c2min;
                while c2 <= boxp.c2max
                    invariant
                        occupancy.describes(h),
                        h == self.histogram@,
                        h.len() == 65536,
                        row == occupancy.rows@[c0 * 64 + c1],
                        b == boxp.bounds(),
                        box_in_range(b),
                        b.0 <= c0 <= b.1,
                        b.2 <= c1 <= b.3,
                        b.4 <= c2 <= b.5 + 1,
                        0 <= total <= 65535 * cell_index(c0 as int, c1 as int, c2 as int),
                        0 <= c0total <= 254 * total,
                        0 <= c1total <= 254 * total,
                        0 <= c2total <= 254 * total,
                        total == block_sum(h, 0, b.0, c0 - 1, b.2, b.3, b.4, b.5) + plane_sum(h, 0, c0 as int, b.2, c1 - 1, b.4, b.5) + row_sum(h, 0, c0 as int, c1 as int, b.4, c2 - 1),
                        c0total == block_sum(h, 1, b.0, c0 - 1, b.2, b.3, b.4, b.5) + plane_sum(h, 1, c0 as int, b.2, c1 - 1, b.4, b.5) + row_sum(h, 1, c0 as int, c1 as int, b.4, c2 - 1),
                        c1total == block_sum(h, 2, b.0, c0 - 1, b.2, b.3, b.4, b.5) + plane_sum(h, 2, c0 as int, b.2, c1 - 1, b.4, b.5) + row_sum(h, 2, c0 as int, c1 as int, b.4, c2 - 1),
                        c2total == block_sum(h, 3, b.0, c0 - 1, b.2, b.3, b.4, b.5) + plane_sum(h, 3, c0 as int, b.2, c1 - 1, b.4, b.5) + row_sum(h, 3, c0 as int, c1 as int, b.4, c2 - 1),
                    decreases b.5 + 1 - c2,
                {
                    proof {
                        lemma_cell_index(c0 as int, c1 as int, c2 as int, c0 as int, c1 as int, c2 as int);
                    }
                    assert(bit(occupancy.rows@[c0 * 64 + c1], c2 as u32) <==> occupied(
                        h,
                        c0 as int,
                        c1 as int,
                        c2 as int,
                    ));
                    if (row >> c2 as u32) & 1u32 == 1u32 {
                        let idx: usize = Self::histogram_index(c0 as usize, c1 as usize, c2 as usize);
                        let count: i64 = self.histogram[idx] as i64;
                        assert(count * (c0 * 8 + 4) <= 254 * 65535 && count * (c1 * 4 + 2) <= 254 * 65535
                            && count * (c2 * 8 + 4) <= 254 * 65535) by (nonlinear_arith)
                            requires
                                0 <= c0 < 32,
                                0 <= c1 < 64,
                                0 <= c2 < 32,
                                0 <= count <= 65535,
                        ;
                        let w0: i64 = count * ((c0 * 8 + 4) as i64);
                        let w1: i64 = count * ((c1 * 4 + 2) as i64);
                        let w2: i64 = count * ((c2 * 8 + 4) as i64);
                        assert(w0 <= 254 * count && w1 <= 254 * count && w2 <= 254 * count
                            && 0 <= w0 && 0 <= w1 && 0 <= w2) by (nonlinear_arith)
                            requires
                                w0 == count * (c0 * 8 + 4),
                                w1 == count * (c1 * 4 + 2),
                                w2 == count * (c2 * 8 + 4),
                                0 <= c0 < 32,
                                0 <= c1 < 64,
                                0 <= c2 < 32,
                                0 <= count,
                        ;
                        total = total + count;
                        c0total = c0total + w0;
                        c1total = c1total + w1;
                        c2total = c2total + w2;
                    } else {
                        assert(cell_weight(h, 1, c0 as int, c1 as int, c2 as int) == 0);
                        assert(cell_weight(h, 2, c0 as int, c1 as int, c2 as int) == 0);
                        assert(cell_weight(h, 3, c0 as int, c1 as int, c2 as int) == 0);
                    }
                    c2 = c2 + 1;
                }
                c1 = c1 + 1;
            }
            c0 = c0 + 1;
        }
        if total > 0 {
            let half: i64 = total / 2;
            proof {
                lemma_rounded_mean_bound(c0total as int, total as int);
                lemma_rounded_mean_bound(c1total as int, total as int);
                lemma_rounded_mean_bound(c2total as int, total as int);
            }
            (
                ((c0total + half) / total) as u8,
                ((c1total + half) / total) as u8,
                ((c2total + half) / total) as u8,
            )
        } else {
            (255, 255, 255)
        }
    }

    /// Sets palette entries `0..numboxes` to the colours of the first
    /// `numboxes` boxes and the count to `numboxes`; the other entries are
    /// kept.
    #[verifier::spinoff_prover]
    fn set_box_colors(&mut self, occupancy: &Occupancy, boxlist: &Vec<ColorBox>, numboxes: usize)
        requires
            occupancy.describes(old(self).histogram@),
            numboxes <= boxlist@.len(),
            numboxes <= 256,
            forall|i: int| 0 <= i < numboxes ==> box_in_range(#[trigger] boxlist@[i].bounds()),
        ensures
            final(self).histogram == old(self).histogram,
            final(self).error_limiter == old(self).error_limiter,
            final(self).fserrors == old(self).fserrors,
            final(self).on_odd_row == old(self).on_odd_row,
            final(self).palette.colors_total == numboxes,
            palette_tail_kept(old(self).palette, final(self).palette),
            forall|j: int|
                0 <= j < numboxes ==> {
                    &&& final(self).palette.red[j] as int == box_color(old(self).histogram@, #[trigger] boxlist@[j].bounds()).0
                    &&& final(self).palette.green[j] as int == box_color(old(self).histogram@, boxlist@[j].bounds()).1
                    &&& final(self).palette.blue[j] as int == box_color(old(self).histogram@, boxlist@[j].bounds()).2
                    &&& final(self).palette.alpha[j] == 255
                },
            forall|j: int| numboxes <= j < 256 ==> {
                &&& #[trigger] final(self).palette.red[j] == old(self).palette.red[j]
                &&& final(self).palette.green[j] == old(self).palette.green[j]
                &&& final(self).palette.blue[j] == old(self).palette.blue[j]
                &&& final(self).palette.alpha[j] == old(self).palette.alpha[j]
            },
    {
        let ghost h = self.histogram@;
        let ghost old_pal = self.palette;
        let mut pal = self.palette;
        let mut i: usize = 0;
        while i < numboxes
            invariant
                occupancy.describes(h),
                h == self.histogram@,
                numboxes <= boxlist@.len(),
                numboxes <= 256,
                forall|j: int| 0 <= j < numboxes ==> box_in_range(#[trigger] boxlist@[j].bounds()),
                i <= numboxes,
                pal.colors_total == old_pal.colors_total,
                forall|j: int|
                    0 <= j < i ==> {
                        &&& pal.red[j] as int == box_color(h, #[trigger] boxlist@[j].bounds()).0
                        &&& pal.green[j] as int == box_color(h, boxlist@[j].bounds()).1
                        &&& pal.blue[j] as int == box_color(h, boxlist@[j].bounds()).2
                        &&& pal.alpha[j] == 255
                    },
                forall|j: int| i <= j < 256 ==> {
                    &&& #[trigger] pal.red[j] == old_pal.red[j]
                    &&& pal.green[j] == old_pal.green[j]
                    &&& pal.blue[j] == old_pal.blue[j]
                    &&& pal.alpha[j] == old_pal.alpha[j]
                },
            decreases numboxes - i,
        {
            let bx = boxlist[i];
            let (r, g, b) = self.compute_color(occupancy, &bx);
            let ghost prev = pal;
            pal.set(i, r, g, b);
            assert forall|j: int| i + 1 <= j < 256 implies {
                &&& #[trigger] pal.red[j] == old_pal.red[j]
                &&& pal.green[j] == old_pal.green[j]
                &&& pal.blue[j] == old_pal.blue[j]
                &&& pal.alpha[j] == old_pal.alpha[j]
            } by {
                assert(pal.red[j] == prev.red[j]);
                assert(pal.green[j] == prev.green[j]);
                assert(pal.blue[j] == prev.blue[j]);
                assert(pal.alpha[j] == prev.alpha[j]);
            }
            assert forall|j: int| 0 <= j < i + 1 implies {
                &&& pal.red[j] as int == box_color(h, #[trigger] boxlist@[j].bounds()).0
                &&& pal.green[j] as int == box_color(h, boxlist@[j].bounds()).1
                &&& pal.blue[j] as int == box_color(h, boxlist@[j].bounds()).2
                &&& pal.alpha[j] == 255
            } by {
                if j < i {
                    assert(pal.red[j] == prev.red[j]);
                    assert(pal.green[j] == prev.green[j]);
                    assert(pal.blue[j] == prev.blue[j]);
                    assert(pal.alpha[j] == prev.alpha[j]);
                }
            }
            i = i + 1;
        }
        let ghost before = pal;
        pal.colors_total = numboxes;
        proof {
            lemma_tail_kept(old_pal, before, pal);
        }
        self.palette = pal;
    }

    /// Chooses up to `desired_colors` palette entries by median cut over the
    /// histogram: the mean colours of the boxes of `median_cut_boxes`.
    #[verifier::spinoff_prover]
    fn select_colors(&mut self, desired_colors: usize)
        requires
            old(self).histogram@.len() == 65536,
            1 <= desired_colors <= MAXNUMCOLORS,
        ensures
            final(self).histogram == old(self).histogram,
            final(self).error_limiter == old(self).error_limiter,
            final(self).fserrors == old(self).fserrors,
            final(self).on_odd_row == old(self).on_odd_row,
            final(self).palette.colors_total == median_cut_boxes(old(self).histogram@, desired_colors as int).len(),
            1 <= final(self).palette.colors_total <= desired_colors,
            palette_of_boxes(old(self).histogram@, final(self).palette, median_cut_bounds(old(self).histogram@, desired_colors as int)),
            palette_tail_kept(old(self).palette, final(self).palette),
    {
        let ghost h = self.histogram@;
        let empty = ColorBox {
            c0min: 0,
            c0max: 31,
            c1min: 0,
            c1max: 63,
            c2min: 0,
            c2max: 31,
            volume: 0,
            colorcount: 0,
        };
        let mut boxlist: Vec<ColorBox> = Vec::with_capacity(desired_colors);
        let mut k: usize = 0;
        while k < desired_colors
            invariant
                k <= desired_colors,
                boxlist@.len() == k,
            decreases desired_colors - k,
        {
            boxlist.push(empty);
            k = k + 1;
        }
        // One box holding the whole colour space
        let occupancy = Occupancy::from_histogram(&self.histogram);
        let mut whole = empty;
        self.update_box(&occupancy, &mut whole);
        boxlist.set(0, whole);
        proof {
            let bs = box_seq(boxlist@);
            assert(bs[0] == whole.bounds());
            assert forall|a0: int, a1: int, a2: int|
                valid_cell(a0, a1, a2) && #[trigger] occupied(h, a0, a1, a2) implies exists|i: int|
                0 <= i < 1 && in_box(#[trigger] bs[i], a0, a1, a2) by {
                assert(in_box(bs[0], a0, a1, a2));
            }
            assert(box_entries(boxlist@, 1) =~= seq![cut_entry(h, (0, 31, 0, 63, 0, 31))]);
        }
        let numboxes: usize = self.median_cut(&occupancy, &mut boxlist, 1, desired_colors);
        let ghost bs = box_seq(boxlist@);
        let ghost boxes = median_cut_boxes(h, desired_colors as int);
        let ghost bounds = median_cut_bounds(h, desired_colors as int);
        proof {
            assert(box_entries(boxlist@, numboxes as int) == boxes);
            assert forall|j: int| 0 <= j < numboxes implies #[trigger] bounds[j] == bs[j] by {
                assert(boxes[j] == box_entries(boxlist@, numboxes as int)[j]);
            }
            assert forall|j: int| 0 <= j < numboxes implies box_in_range(#[trigger] boxlist@[j].bounds()) by {
                assert(bs[j] == boxlist@[j].bounds());
            }
            lemma_partition_prefix(h, bs, bounds, numboxes as int);
        }
        self.set_box_colors(&occupancy, &boxlist, numboxes);
        proof {
            assert forall|j: int| 0 <= j < numboxes implies {
                &&& self.palette.red[j] as int == box_color(h, #[trigger] bounds[j]).0
                &&& self.palette.green[j] as int == box_color(h, bounds[j]).1
                &&& self.palette.blue[j] as int == box_color(h, bounds[j]).2
                &&& self.palette.alpha[j] == 255
            } by {
                assert(bounds[j] == bs[j]);
                assert(bs[j] == boxlist@[j].bounds());
            }
            assert(palette_of_boxes(h, self.palette, bounds));
        }
    }

    /// Builds the palette of `reference` by median cut; the histogram is then
    /// cleared for use as the cache of nearest palette entries.
    pub fn new(reference: &RgbaFrame) -> (q: Self)
        requires
            (reference.w() + 2) * 3 <= usize::MAX,
        ensures
            q.wf(),
            forall|t: int| 0 <= t < 65536 ==> #[trigger] q.hist()[t] == 0,
            q.cache_ok(),
            is_median_cut_palette(frame_histogram(reference.bytes()), q.pal()),
            unused_slots_blank(q.pal()),
            q.errors().len() == (reference.w() + 2) * 3,
            forall|i: int| 0 <= i < q.errors().len() ==> #[trigger] q.errors()[i] == 0,
    {
        let mut q = Quantizer {
            histogram: vec![0u16; HIST_ELEMS],
            fserrors: Vec::new(),
            error_limiter: Vec::new(),
            on_odd_row: false,
            palette: Palette::new(),
        };
        let ghost empty = q.palette;

        q.init_error_limit();

        let width: usize = reference.width() as usize;
        q.fserrors = vec![0i16; (width + 2) * 3];

        q.prescan_quantize(reference);
        q.select_colors(MAXNUMCOLORS);
        q.zero_histogram();
        assert(palette_tail_kept(empty, q.palette));
        q
    }

    /// The bounds of `((x - c) * scale)^2` for `c` between `minc` and `maxc`.
    fn compute_dist_component(x: i32, minc: i32, maxc: i32, centerc: i32, scale: i32) -> (r: (i32, i32))
        requires
            0 <= x <= 255,
            0 <= minc <= maxc <= 255,
            centerc == (minc + maxc) / 2,
            1 <= scale <= 3,
        ensures
            r.0 == sq(gap_near(x as int, minc as int, maxc as int) * scale),
            r.1 == sq(gap_far(x as int, minc as int, maxc as int) * scale),
            0 <= r.0 <= r.1 <= 585225,
            forall|c: int|
                minc <= c <= maxc ==> r.0 <= #[trigger] sq((x - c) * scale) <= r.1,
    {
        if x < minc {
            let tdist: i32 = (x - minc) * scale;
            let tdist2: i32 = (x - maxc) * scale;
            proof {
                lemma_sq_neg(tdist as int);
                lemma_sq_neg(tdist2 as int);
                assert(-tdist == (minc - x) * scale && -tdist2 == (maxc - x) * scale) by (nonlinear_arith)
                    requires
                        tdist == (x - minc) * scale,
                        tdist2 == (x - maxc) * scale,
                ;
                lemma_square_between(-tdist, -tdist, -tdist2);
                assert forall|c: int| minc <= c <= maxc implies sq(tdist as int) <= #[trigger] sq((x - c) * scale) <= sq(tdist2 as int) by {
                    lemma_sq_neg((x - c) * scale);
                    lemma_square_between(-tdist, -((x - c) * scale), -tdist2);
                }
            }
            let min_dist: i32 = tdist * tdist;
            let max_dist: i32 = tdist2 * tdist2;
            (min_dist, max_dist)
        } else if x > maxc {
            let tdist: i32 = (x - maxc) * scale;
            let tdist2: i32 = (x - minc) * scale;
            proof {
                lemma_square_between(tdist as int, tdist as int, tdist2 as int);
                assert forall|c: int| minc <= c <= maxc implies sq(tdist as int) <= #[trigger] sq((x - c) * scale) <= sq(tdist2 as int) by {
                    lemma_square_between(tdist as int, (x - c) * scale, tdist2 as int);
                }
            }
            let min_dist: i32 = tdist * tdist;
            let max_dist: i32 = tdist2 * tdist2;
            (min_dist, max_dist)
        } else {
            let tdist: i32 = if x <= centerc {
                (x - maxc) * scale
            } else {
                (x - minc) * scale
            };
            proof {
                let m: int = if x <= centerc { (maxc - x) * scale } else { (x - minc) * scale };
                lemma_sq_neg(tdist as int);
                assert(x <= centerc ==> -tdist == (maxc - x) * scale) by (nonlinear_arith)
                    requires
                        x <= centerc ==> tdist == (x - maxc) * scale,
                ;
                assert(sq(0int * scale) == 0) by (nonlinear_arith);
                assert(sq(tdist as int) == sq(m));
                lemma_square_between(0, 0, m);
                assert forall|c: int| minc <= c <= maxc implies 0 <= #[trigger] sq((x - c) * scale) <= sq(m) by {
                    lemma_sq_neg((x - c) * scale);
                    if c <= x {
                        lemma_square_between(0, (x - c) * scale, m);
                    } else {
                        lemma_square_between(0, (c - x) * scale, m);
                    }
                }
            }
            (0, tdist * tdist)
        }
    }

    /// Lists, in increasing order, the palette entries that can be nearest to
    /// some cell of the inverse-map block whose first cell centre is
    /// `(minc0, minc1, minc2)`: those whose least distance to the block is
    /// within the smallest greatest distance of any entry.
    fn find_nearby_colors(
        &self,
        minc0: i32,
        minc1: i32,
        minc2: i32,
        colorlist: &mut [u8; 256],
    ) -> (res: (usize, Ghost<Seq<int>>))
        requires
            self.palette.colors_total <= 256,
            4 <= minc0 <= 228,
            2 <= minc1 <= 226,
            4 <= minc2 <= 228,
        ensures
            res.0 <= self.palette.colors_total,
            forall|k: int| 0 <= k < res.0 ==> (#[trigger] final(colorlist)[k] as int) < self.palette.colors_total,
            forall|k1: int, k2: int| 0 <= k1 < k2 < res.0 ==> #[trigger] final(colorlist)[k1] < #[trigger] final(colorlist)[k2],
            forall|c0: int, c1: int, c2: int|
                valid_cell(c0, c1, c2) && in_cmap_block(minc0 as int, minc1 as int, minc2 as int, c0, c1, c2)
                    && self.palette.colors_total >= 1 ==> 0 <= #[trigger] res.1@[nearest_color(self.palette, c0, c1, c2)] < res.0
                    && final(colorlist)[res.1@[nearest_color(self.palette, c0, c1, c2)]] as int == nearest_color(self.palette, c0, c1, c2),
            forall|j: int, c0: int, c1: int, c2: int|
                valid_cell(c0, c1, c2) && in_cmap_block(minc0 as int, minc1 as int, minc2 as int, c0, c1, c2)
                    && #[trigger] is_nearest(self.palette, j, c0, c1, c2) ==> 0 <= res.1@[j] < res.0
                    && final(colorlist)[res.1@[j]] as int == j,
    {
        let numcolors: usize = self.palette.colors_total;
        let ghost p = self.palette;

        let maxc0: i32 = minc0 + 24;
        let centerc0: i32 = (minc0 + maxc0) / 2;
        let maxc1: i32 = minc1 + 28;
        let centerc1: i32 = (minc1 + maxc1) / 2;
        let maxc2: i32 = minc2 + 24;
        let centerc2: i32 = (minc2 + maxc2) / 2;

        // A weighted squared distance never exceeds (255 * 3)^2 * 3, so the
        // whole computation fits in an i32.
        let mut mindist = [0i32; 256];
        let mut minmaxdist: i32 = i32::MAX;
        let ghost mut best_j: int = 0;

        let mut i: usize = 0;
        while i < numcolors
            invariant
                numcolors == p.colors_total,
                p == self.palette,
                numcolors <= 256,
                i <= numcolors,
                maxc0 == minc0 + 24,
                maxc1 == minc1 + 28,
                maxc2 == minc2 + 24,
                centerc0 == (minc0 + maxc0) / 2,
                centerc1 == (minc1 + maxc1) / 2,
                centerc2 == (minc2 + maxc2) / 2,
                4 <= minc0 <= 228,
                2 <= minc1 <= 226,
                4 <= minc2 <= 228,
                i > 0 ==> 0 <= best_j < i,
                i == 0 ==> minmaxdist == i32::MAX,
                i > 0 ==> minmaxdist <= 3 * 585225,
                i > 0 ==> forall|c0: int, c1: int, c2: int|
                    valid_cell(c0, c1, c2) && in_cmap_block(minc0 as int, minc1 as int, minc2 as int, c0, c1, c2)
                        ==> #[trigger] pal_dist(p, best_j, c0, c1, c2) <= minmaxdist,
                forall|j: int| 0 <= j < i ==> 0 <= #[trigger] mindist[j] <= 3 * 585225,
                forall|j: int, c0: int, c1: int, c2: int|
                    0 <= j < i && valid_cell(c0, c1, c2) && in_cmap_block(minc0 as int, minc1 as int, minc2 as int, c0, c1, c2)
                        ==> mindist[j] <= #[trigger] pal_dist(p, j, c0, c1, c2),
            decreases numcolors - i,
        {
            let x0: i32 = self.palette.red[i] as i32;
            let (min_dist0, max_dist0) = Self::compute_dist_component(x0, minc0, maxc0, centerc0, C0_SCALE);
            let x1: i32 = self.palette.green[i] as i32;
            let (min_dist1, max_dist1) = Self::compute_dist_component(x1, minc1, maxc1, centerc1, C1_SCALE);
            let x2: i32 = self.palette.blue[i] as i32;
            let (min_dist2, max_dist2) = Self::compute_dist_component(x2, minc2, maxc2, centerc2, C2_SCALE);

            let ghost prev_min = mindist;
            mindist[i] = min_dist0 + min_dist1 + min_dist2;
            let max_dist: i32 = max_dist0 + max_dist1 + max_dist2;
            proof {
                assert forall|c0: int, c1: int, c2: int|
                    valid_cell(c0, c1, c2) && in_cmap_block(minc0 as int, minc1 as int, minc2 as int, c0, c1, c2)
                    implies mindist[i as int] <= #[trigger] pal_dist(p, i as int, c0, c1, c2) <= max_dist by {
                    let e0 = sq((x0 - center0(c0)) * 2);
                    let e1 = sq((x1 - center1(c1)) * 3);
                    let e2 = sq((x2 - center2(c2)) * 1);
                    assert(min_dist0 <= e0 <= max_dist0);
                    assert(min_dist1 <= e1 <= max_dist1);
                    assert(min_dist2 <= e2 <= max_dist2);
                    lemma_sq_neg((x0 - center0(c0)) * 2);
                    lemma_sq_neg((x1 - center1(c1)) * 3);
                    lemma_sq_neg((x2 - center2(c2)) * 1);
                    assert(-((x0 - center0(c0)) * 2) == (center0(c0) - x0) * 2);
                    assert(-((x1 - center1(c1)) * 3) == (center1(c1) - x1) * 3);
                    assert(-((x2 - center2(c2)) * 1) == center2(c2) - x2);
                    assert(pal_dist(p, i as int, c0, c1, c2) == e0 + e1 + e2);
                }
                assert forall|j: int| 0 <= j < i + 1 implies 0 <= #[trigger] mindist[j] <= 3 * 585225 by {
                    if j < i {
                        assert(mindist[j] == prev_min[j]);
                    }
                }
                assert forall|j: int, c0: int, c1: int, c2: int|
                    0 <= j < i + 1 && valid_cell(c0, c1, c2) && in_cmap_block(minc0 as int, minc1 as int, minc2 as int, c0, c1, c2)
                    implies mindist[j] <= #[trigger] pal_dist(p, j, c0, c1, c2) by {
                    if j < i {
                        assert(mindist[j] == prev_min[j]);
                    }
                }
            }
            if max_dist < minmaxdist {
                minmaxdist = max_dist;
                proof {
                    best_j = i as int;
                }
            }
            i = i + 1;
        }

        let mut ncolors: usize = 0;
        let ghost mut at: Seq<int> = Seq::new(256, |j: int| 0);
        let mut i: usize = 0;
        while i < numcolors
            invariant
                numcolors == p.colors_total,
                p == self.palette,
                numcolors <= 256,
                i <= numcolors,
                ncolors <= i,
                at.len() == 256,
                numcolors > 0 ==> 0 <= best_j < numcolors,
                numcolors > 0 ==> forall|c0: int, c1: int, c2: int|
                    valid_cell(c0, c1, c2) && in_cmap_block(minc0 as int, minc1 as int, minc2 as int, c0, c1, c2)
                        ==> #[trigger] pal_dist(p, best_j, c0, c1, c2) <= minmaxdist,
                forall|j: int, c0: int, c1: int, c2: int|
                    0 <= j < numcolors && valid_cell(c0, c1, c2) && in_cmap_block(minc0 as int, minc1 as int, minc2 as int, c0, c1, c2)
                        ==> mindist[j] <= #[trigger] pal_dist(p, j, c0, c1, c2),
                forall|k: int| 0 <= k < ncolors ==> (#[trigger] colorlist[k] as int) < i,
                forall|k1: int, k2: int| 0 <= k1 < k2 < ncolors ==> #[trigger] colorlist[k1] < #[trigger] colorlist[k2],
                forall|j: int|
                    0 <= j < i && mindist[j] <= minmaxdist ==> 0 <= #[trigger] at[j] < ncolors && colorlist[at[j]] as int == j,
            decreases numcolors - i,
        {
            if mindist[i] <= minmaxdist {
                let ghost prev = *colorlist;
                colorlist[ncolors] = i as u8;
                proof {
                    assert forall|k: int| 0 <= k < ncolors implies colorlist[k] == prev[k] by {}
                    at = at.update(i as int, ncolors as int);
                }
                ncolors = ncolors + 1;
            }
            i = i + 1;
        }
        proof {
            assert forall|c0: int, c1: int, c2: int|
                valid_cell(c0, c1, c2) && in_cmap_block(minc0 as int, minc1 as int, minc2 as int, c0, c1, c2)
                    && p.colors_total >= 1 implies 0 <= #[trigger] at[nearest_color(p, c0, c1, c2)] < ncolors
                && colorlist[at[nearest_color(p, c0, c1, c2)]] as int == nearest_color(p, c0, c1, c2) by {
                let m = nearest_color(p, c0, c1, c2);
                lemma_nearest_upto(p, p.colors_total as nat, c0, c1, c2);
                assert(pal_dist(p, m, c0, c1, c2) <= pal_dist(p, best_j, c0, c1, c2));
                assert(mindist[m] <= pal_dist(p, m, c0, c1, c2));
                assert(mindist[m] <= minmaxdist);
            }
            assert forall|j: int, c0: int, c1: int, c2: int|
                valid_cell(c0, c1, c2) && in_cmap_block(minc0 as int, minc1 as int, minc2 as int, c0, c1, c2)
                    && #[trigger] is_nearest(p, j, c0, c1, c2) implies 0 <= at[j] < ncolors
                && colorlist[at[j]] as int == j by {
                assert(pal_dist(p, j, c0, c1, c2) <= pal_dist(p, best_j, c0, c1, c2));
                assert(mindist[j] <= pal_dist(p, j, c0, c1, c2));
            }
        }
        (ncolors, Ghost(at))
    }

    /// For each of the 128 cells of the inverse-map block starting at cell
    /// `(b0, b1, b2)`, the first entry of `colorlist[0..numcolors]` nearest
    /// to the cell. Distances are stepped incrementally through the block.
    fn find_best_colors(
        &self,
        minc0: i32,
        minc1: i32,
        minc2: i32,
        Ghost(b0): Ghost<int>,
        Ghost(b1): Ghost<int>,
        Ghost(b2): Ghost<int>,
        numcolors: usize,
        colorlist: &[u8; 256],
        bestcolor: &mut [u8; 128],
    ) -> (pos: Ghost<Seq<int>>)
        requires
            self.palette.colors_total <= 256,
            numcolors <= self.palette.colors_total,
            forall|k: int| 0 <= k < numcolors ==> (#[trigger] colorlist[k] as int) < self.palette.colors_total,
            0 <= b0 && b0 + 3 < 32,
            0 <= b1 && b1 + 7 < 64,
            0 <= b2 && b2 + 3 < 32,
            minc0 == center0(b0),
            minc1 == center1(b1),
            minc2 == center2(b2),
        ensures
            pos@.len() == 128,
            numcolors == 0 ==> forall|k: int| 0 <= k < 128 ==> #[trigger] final(bestcolor)[k] == 0,
            numcolors >= 1 ==> forall|k: int|
                #![trigger final(bestcolor)[k]]
                0 <= k < 128 ==> best_of_list(
                    self.palette,
                    colorlist@,
                    numcolors as int,
                    final(bestcolor)[k] as int,
                    pos@[k],
                    b0 + k / 32,
                    b1 + (k / 4) % 8,
                    b2 + k % 4,
                ),
    {
        let ghost p = self.palette;
        let ghost list = colorlist@;
        // Keeping the winning colour as an i32 next to the distance lets the
        // compare-and-select run on two same-width lanes; it is narrowed back
        // to u8 once, at the end.
        let mut bestdist = [i32::MAX; 128];
        let mut bestindex = [0i32; 128];
        let ghost mut pos: Seq<int> = Seq::new(128, |k: int| 0);

        let mut i: usize = 0;
        while i < numcolors
            invariant
                p == self.palette,
                list == colorlist@,
                p.colors_total <= 256,
                numcolors <= p.colors_total,
                forall|k: int| 0 <= k < numcolors ==> (#[trigger] colorlist[k] as int) < p.colors_total,
                0 <= b0 && b0 + 3 < 32,
                0 <= b1 && b1 + 7 < 64,
                0 <= b2 && b2 + 3 < 32,
                minc0 == center0(b0),
                minc1 == center1(b1),
                minc2 == center2(b2),
                i <= numcolors,
                pos.len() == 128,
                forall|k: int|
                    #![trigger pos[k]]
                    0 <= k < 128 ==> best_prefix(
                        p,
                        list,
                        seen(i as int, false),
                        bestdist[k] as int,
                        bestindex[k] as int,
                        pos[k],
                        b0 + k / 32,
                        b1 + (k / 4) % 8,
                        b2 + k % 4,
                    ),
            decreases numcolors - i,
        {
            let icolor: i32 = colorlist[i] as i32;
            let r: i32 = self.palette.red[icolor as usize] as i32;
            let g: i32 = self.palette.green[icolor as usize] as i32;
            let b: i32 = self.palette.blue[icolor as usize] as i32;

            let mut inc0: i32 = (minc0 - r) * C0_SCALE;
            let ghost a0: int = inc0 as int;
            proof { lemma_sq_bound(a0); }
            let mut dist0: i32 = inc0 * inc0;
            let mut inc1: i32 = (minc1 - g) * C1_SCALE;
            let ghost a1: int = inc1 as int;
            proof { lemma_sq_bound(a1); }
            dist0 = dist0 + inc1 * inc1;
            let mut inc2: i32 = (minc2 - b) * C2_SCALE;
            let ghost a2: int = inc2 as int;
            proof { lemma_sq_bound(a2); }
            dist0 = dist0 + inc2 * inc2;

            // Steps between neighbouring cell centres, weighted: 8 * 2, 4 * 3, 8 * 1.
            proof {
                lemma_first_difference(a0, 16);
                lemma_first_difference(a1, 12);
                lemma_first_difference(a2, 8);
            }
            inc0 = inc0 * (2 * 16) + 16 * 16;
            inc1 = inc1 * (2 * 12) + 12 * 12;
            inc2 = inc2 * (2 * 8) + 8 * 8;

            let ghost prev_dist = bestdist;
            let ghost prev_index = bestindex;
            let ghost prev_pos = pos;
            let mut bptr_idx: usize = 0;
            let mut xx0: i32 = inc0;
            let mut ic0: usize = 0;
            while ic0 < BOX_C0_ELEMS
                invariant
                    p == self.palette,
                    list == colorlist@,
                    p.colors_total <= 256,
                    i < numcolors <= p.colors_total,
                    icolor == list[i as int],
                    (icolor as int) < p.colors_total,
                    0 <= b0 && b0 + 3 < 32,
                    0 <= b1 && b1 + 7 < 64,
                    0 <= b2 && b2 + 3 < 32,
                    -502 <= a0 <= 456 && -759 <= a1 <= 678 && -251 <= a2 <= 228,
                    a0 == (center0(b0) - p.red[icolor as int]) * 2,
                    a1 == (center1(b1) - p.green[icolor as int]) * 3,
                    a2 == center2(b2) - p.blue[icolor as int],
                    ic0 <= 4,
                    bptr_idx == ic0 * 32,
                    dist0 == sq(a0 + 16 * ic0) + sq(a1) + sq(a2),
                    xx0 == sq(a0 + 16 * (ic0 + 1)) - sq(a0 + 16 * ic0),
                    inc1 == sq(a1 + 12) - sq(a1),
                    inc2 == sq(a2 + 8) - sq(a2),
                    pos.len() == 128,
                    forall|k: int|
                        #![trigger pos[k]]
                        0 <= k < 128 ==> best_prefix(
                            p,
                            list,
                            seen(i as int, k < bptr_idx),
                            bestdist[k] as int,
                            bestindex[k] as int,
                            pos[k],
                            b0 + k / 32,
                            b1 + (k / 4) % 8,
                            b2 + k % 4,
                        ),
                decreases 4 - ic0,
            {
                let mut dist1: i32 = dist0;
                let mut xx1: i32 = inc1;
                let mut ic1: usize = 0;
                while ic1 < BOX_C1_ELEMS
                    invariant
                        p == self.palette,
                        list == colorlist@,
                        p.colors_total <= 256,
                        i < numcolors <= p.colors_total,
                        icolor == list[i as int],
                        (icolor as int) < p.colors_total,
                        0 <= b0 && b0 + 3 < 32,
                        0 <= b1 && b1 + 7 < 64,
                        0 <= b2 && b2 + 3 < 32,
                        -502 <= a0 <= 456 && -759 <= a1 <= 678 && -251 <= a2 <= 228,
                        a0 == (center0(b0) - p.red[icolor as int]) * 2,
                        a1 == (center1(b1) - p.green[icolor as int]) * 3,
                        a2 == center2(b2) - p.blue[icolor as int],
                        ic0 < 4,
                        ic1 <= 8,
                        bptr_idx == ic0 * 32 + ic1 * 4,
                        dist0 == sq(a0 + 16 * ic0) + sq(a1) + sq(a2),
                        xx0 == sq(a0 + 16 * (ic0 + 1)) - sq(a0 + 16 * ic0),
                        dist1 == sq(a0 + 16 * ic0) + sq(a1 + 12 * ic1) + sq(a2),
                        xx1 == sq(a1 + 12 * (ic1 + 1)) - sq(a1 + 12 * ic1),
                        inc2 == sq(a2 + 8) - sq(a2),
                        pos.len() == 128,
                        forall|k: int|
                            #![trigger pos[k]]
                            0 <= k < 128 ==> best_prefix(
                                p,
                                list,
                                seen(i as int, k < bptr_idx),
                                bestdist[k] as int,
                                bestindex[k] as int,
                                pos[k],
                                b0 + k / 32,
                                b1 + (k / 4) % 8,
                                b2 + k % 4,
                            ),
                    decreases 8 - ic1,
                {
                    let mut dist2: i32 = dist1;
                    let mut xx2: i32 = inc2;
                    let mut ic2: usize = 0;
                    while ic2 < BOX_C2_ELEMS
                        invariant
                            p == self.palette,
                            list == colorlist@,
                            p.colors_total <= 256,
                            i < numcolors <= p.colors_total,
                            icolor == list[i as int],
                            (icolor as int) < p.colors_total,
                            0 <= b0 && b0 + 3 < 32,
                            0 <= b1 && b1 + 7 < 64,
                            0 <= b2 && b2 + 3 < 32,
                            -502 <= a0 <= 456 && -759 <= a1 <= 678 && -251 <= a2 <= 228,
                            a0 == (center0(b0) - p.red[icolor as int]) * 2,
                            a1 == (center1(b1) - p.green[icolor as int]) * 3,
                            a2 == center2(b2) - p.blue[icolor as int],
                            ic0 < 4,
                            ic1 < 8,
                            ic2 <= 4,
                            bptr_idx == ic0 * 32 + ic1 * 4 + ic2,
                            dist1 == sq(a0 + 16 * ic0) + sq(a1 + 12 * ic1) + sq(a2),
                            xx1 == sq(a1 + 12 * (ic1 + 1)) - sq(a1 + 12 * ic1),
                            dist2 == sq(a0 + 16 * ic0) + sq(a1 + 12 * ic1) + sq(a2 + 8 * ic2),
                            xx2 == sq(a2 + 8 * (ic2 + 1)) - sq(a2 + 8 * ic2),
                            pos.len() == 128,
                            forall|k: int|
                                #![trigger pos[k]]
                                0 <= k < 128 ==> best_prefix(
                                    p,
                                    list,
                                    seen(i as int, k < bptr_idx),
                                    bestdist[k] as int,
                                    bestindex[k] as int,
                                    pos[k],
                                    b0 + k / 32,
                                    b1 + (k / 4) % 8,
                                    b2 + k % 4,
                                ),
                        decreases 4 - ic2,
                    {
                        let ghost k = bptr_idx as int;
                        proof {
                            lemma_sq_bound(a0 + 16 * ic0);
                            lemma_sq_bound(a1 + 12 * ic1);
                            lemma_sq_bound(a2 + 8 * ic2);
                            lemma_sq_bound(a2 + 8 * (ic2 + 1));
                            assert(k / 32 == ic0 && (k / 4) % 8 == ic1 && k % 4 == ic2);
                            assert(dist2 == pal_dist(p, icolor as int, b0 + ic0, b1 + ic1, b2 + ic2));
                            assert(pos[k] == pos[k]);
                        }
                        let ghost before_d = bestdist;
                        let ghost before_i = bestindex;
                        let ghost before_p = pos;
                        proof {
                            lemma_best_prefix_step(
                                p,
                                list,
                                i as int,
                                bestdist[k] as int,
                                bestindex[k] as int,
                                pos[k],
                                dist2 as int,
                                b0 + k / 32,
                                b1 + (k / 4) % 8,
                                b2 + k % 4,
                            );
                        }
                        let closer: bool = dist2 < bestdist[bptr_idx];
                        if closer {
                            bestdist[bptr_idx] = dist2;
                            bestindex[bptr_idx] = icolor;
                            proof {
                                pos = pos.update(k, i as int);
                            }
                        }
                        proof {
                            assert forall|t: int|
                                #![trigger pos[t]]
                                0 <= t < 128 implies best_prefix(
                                    p,
                                    list,
                                    seen(i as int, t < k + 1),
                                    bestdist[t] as int,
                                    bestindex[t] as int,
                                    pos[t],
                                    b0 + t / 32,
                                    b1 + (t / 4) % 8,
                                    b2 + t % 4,
                                ) by {
                                assert(before_p[t] == before_p[t]);
                                if t != k {
                                    assert(bestdist[t] == before_d[t]);
                                    assert(bestindex[t] == before_i[t]);
                                    assert(pos[t] == before_p[t]);
                                }
                            }
                            lemma_second_difference(a2, 8, ic2 as int);
                        }
                        dist2 = dist2 + xx2;
                        xx2 = xx2 + 2 * 8 * 8;
                        bptr_idx = bptr_idx + 1;
                        ic2 = ic2 + 1;
                    }
                    proof {
                        lemma_sq_bound(a0 + 16 * ic0);
                        lemma_sq_bound(a1 + 12 * (ic1 + 1));
                        lemma_sq_bound(a1 + 12 * (ic1 + 2));
                        lemma_sq_bound(a1 + 12 * ic1);
                        lemma_sq_bound(a2);
                        lemma_second_difference(a1, 12, ic1 as int);
                    }
                    dist1 = dist1 + xx1;
                    xx1 = xx1 + 2 * 12 * 12;
                    ic1 = ic1 + 1;
                }
                proof {
                    lemma_sq_bound(a0 + 16 * (ic0 + 1));
                    lemma_sq_bound(a0 + 16 * (ic0 + 2));
                    lemma_sq_bound(a0 + 16 * ic0);
                    lemma_sq_bound(a1);
                    lemma_sq_bound(a2);
                    lemma_second_difference(a0, 16, ic0 as int);
                }
                dist0 = dist0 + xx0;
                xx0 = xx0 + 2 * 16 * 16;
                ic0 = ic0 + 1;
            }
            i = i + 1;
        }

        let mut k: usize = 0;
        while k < BOX_ELEMS
            invariant
                k <= 128,
                i == numcolors,
                p.colors_total <= 256,
                forall|j: int| 0 <= j < numcolors ==> (#[trigger] colorlist[j] as int) < p.colors_total,
                pos.len() == 128,
                forall|t: int|
                    #![trigger pos[t]]
                    0 <= t < 128 ==> best_prefix(
                        p,
                        list,
                        i as int,
                        bestdist[t] as int,
                        bestindex[t] as int,
                        pos[t],
                        b0 + t / 32,
                        b1 + (t / 4) % 8,
                        b2 + t % 4,
                    ),
                forall|t: int| 0 <= t < k ==> #[trigger] bestcolor[t] as int == bestindex[t] as int,
            decreases 128 - k,
        {
            assert(best_prefix(p, list, i as int, bestdist[k as int] as int, bestindex[k as int] as int, pos[k as int],
                b0 + k / 32, b1 + (k / 4) % 8, b2 + k % 4));
            if i > 0 {
                assert(bestindex[k as int] == list[pos[k as int]]);
            }
            assert(0 <= bestindex[k as int] < 256);
            let ghost prev = *bestcolor;
            let v: u8 = bestindex[k] as u8;
            assert(v as int == bestindex[k as int]);
            bestcolor[k] = v;
            assert(bestcolor[k as int] == v);
            assert forall|t: int| 0 <= t < k + 1 implies #[trigger] bestcolor[t] as int == bestindex[t] as int by {
                if t < k {
                    assert(bestcolor[t] == prev[t]);
                }
            }
            k = k + 1;
        }
        assert forall|t: int|
            #![trigger bestcolor[t]]
            0 <= t < 128 && numcolors >= 1 implies best_of_list(p, list, numcolors as int, bestcolor[t] as int, pos[t], b0 + t / 32, b1 + (t / 4) % 8, b2 + t % 4) by {
            assert(pos[t] == pos[t]);
        }
        assert forall|t: int| 0 <= t < 128 && numcolors == 0 implies #[trigger] bestcolor[t] == 0 by {
            assert(best_prefix(p, list, i as int, bestdist[t] as int, bestindex[t] as int, pos[t], b0 + t / 32, b1 + (t / 4) % 8, b2 + t % 4));
            assert(i == 0);
            assert(bestindex[t] == 0);
            assert(bestcolor[t] as int == bestindex[t] as int);
        }
        Ghost(pos)
    }

    /// Resolves the inverse-map block that holds cell `(c0, c1, c2)`: each of
    /// its 4 x 8 x 4 cells is set to its nearest palette entry plus one.
    fn fill_inverse_cmap(&mut self, c0: i32, c1: i32, c2: i32)
        requires
            old(self).wf(),
            valid_cell(c0 as int, c1 as int, c2 as int),
        ensures
            final(self).wf(),
            final(self).pal() == old(self).pal(),
            final(self).errors() == old(self).errors(),
            final(self).on_odd_row == old(self).on_odd_row,
            cache_update(old(self).hist(), final(self).hist(), old(self).pal()),
            final(self).hist()[cell_index(c0 as int, c1 as int, c2 as int)] == nearest_color(
                old(self).pal(),
                c0 as int,
                c1 as int,
                c2 as int,
            ) + 1,
            final(self).hist() == refill(old(self).hist(), old(self).pal(), c0 as int, c1 as int, c2 as int),
    {
        let ghost p = self.palette;
        let ghost h0 = self.histogram@;
        // Small, fixed-size and dead by the end of the call: kept on the stack.
        let mut colorlist = [0u8; 256];
        let mut bestcolor = [0u8; 128];

        let bc0: i32 = c0 / 4;
        let bc1: i32 = c1 / 8;
        let bc2: i32 = c2 / 4;

        let minc0: i32 = bc0 * 32 + 4;
        let minc1: i32 = bc1 * 32 + 2;
        let minc2: i32 = bc2 * 32 + 4;
        let ghost b0: int = bc0 * 4;
        let ghost b1: int = bc1 * 8;
        let ghost b2: int = bc2 * 4;

        let (numcolors, Ghost(at)) = self.find_nearby_colors(minc0, minc1, minc2, &mut colorlist);
        let Ghost(pos) = self.find_best_colors(
            minc0,
            minc1,
            minc2,
            Ghost(b0),
            Ghost(b1),
            Ghost(b2),
            numcolors,
            &colorlist,
            &mut bestcolor,
        );

        proof {
            lemma_block_choices(p, colorlist@, numcolors as int, at, bestcolor@, pos, minc0 as int, minc1 as int, minc2 as int, b0, b1, b2);
        }

        let base_c0: usize = (bc0 * 4) as usize;
        let base_c1: usize = (bc1 * 8) as usize;
        let base_c2: usize = (bc2 * 4) as usize;

        let mut cptr: usize = 0;
        let mut ic0: usize = 0;
        while ic0 < BOX_C0_ELEMS
            invariant
                self.wf(),
                self.palette == p,
                ic0 <= 4,
                cptr == ic0 * 32,
                base_c0 == b0 && base_c1 == b1 && base_c2 == b2,
                0 <= b0 && b0 + 3 < 32 && 0 <= b1 && b1 + 7 < 64 && 0 <= b2 && b2 + 3 < 32,
                forall|t: int| 0 <= t < 128 ==> #[trigger] bestcolor[t] as int == nearest_color(
                    p,
                    b0 + t / 32,
                    b1 + (t / 4) % 8,
                    b2 + t % 4,
                ),
                cache_update(h0, self.histogram@, p),
                block_filled(self.histogram@, p, b0, b1, b2, cptr as int),
                forall|d0: int, d1: int, d2: int|
                    valid_cell(d0, d1, d2) && !same_block(d0, d1, d2, c0 as int, c1 as int, c2 as int) ==> #[trigger] self.histogram@[cell_index(d0, d1, d2)]
                        == h0[cell_index(d0, d1, d2)],
                valid_cell(c0 as int, c1 as int, c2 as int),
                b0 == (c0 / 4) * 4 && b1 == (c1 / 8) * 8 && b2 == (c2 / 4) * 4,
                self.fserrors == old(self).fserrors,
                self.on_odd_row == old(self).on_odd_row,
            decreases 4 - ic0,
        {
            let mut ic1: usize = 0;
            while ic1 < BOX_C1_ELEMS
                invariant
                    self.wf(),
                    self.palette == p,
                    ic0 < 4,
                    ic1 <= 8,
                    cptr == ic0 * 32 + ic1 * 4,
                    base_c0 == b0 && base_c1 == b1 && base_c2 == b2,
                    0 <= b0 && b0 + 3 < 32 && 0 <= b1 && b1 + 7 < 64 && 0 <= b2 && b2 + 3 < 32,
                    forall|t: int| 0 <= t < 128 ==> #[trigger] bestcolor[t] as int == nearest_color(
                        p,
                        b0 + t / 32,
                        b1 + (t / 4) % 8,
                        b2 + t % 4,
                    ),
                    cache_update(h0, self.histogram@, p),
                    block_filled(self.histogram@, p, b0, b1, b2, cptr as int),
                    forall|d0: int, d1: int, d2: int|
                        valid_cell(d0, d1, d2) && !same_block(d0, d1, d2, c0 as int, c1 as int, c2 as int) ==> #[trigger] self.histogram@[cell_index(d0, d1, d2)]
                            == h0[cell_index(d0, d1, d2)],
                    valid_cell(c0 as int, c1 as int, c2 as int),
                    b0 == (c0 / 4) * 4 && b1 == (c1 / 8) * 8 && b2 == (c2 / 4) * 4,
                    self.fserrors == old(self).fserrors,
                    self.on_odd_row == old(self).on_odd_row,
                decreases 8 - ic1,
            {
                let mut ic2: usize = 0;
                while ic2 < BOX_C2_ELEMS
                    invariant
                        self.wf(),
                        self.palette == p,
                        ic0 < 4,
                        ic1 < 8,
                        ic2 <= 4,
                        cptr == ic0 * 32 + ic1 * 4 + ic2,
                        base_c0 == b0 && base_c1 == b1 && base_c2 == b2,
                        0 <= b0 && b0 + 3 < 32 && 0 <= b1 && b1 + 7 < 64 && 0 <= b2 && b2 + 3 < 32,
                        forall|t: int| 0 <= t < 128 ==> #[trigger] bestcolor[t] as int == nearest_color(
                            p,
                            b0 + t / 32,
                            b1 + (t / 4) % 8,
                            b2 + t % 4,
                        ),
                        cache_update(h0, self.histogram@, p),
                        block_filled(self.histogram@, p, b0, b1, b2, cptr as int),
                        forall|d0: int, d1: int, d2: int|
                            valid_cell(d0, d1, d2) && !same_block(d0, d1, d2, c0 as int, c1 as int, c2 as int) ==> #[trigger] self.histogram@[cell_index(d0, d1, d2)]
                                == h0[cell_index(d0, d1, d2)],
                        valid_cell(c0 as int, c1 as int, c2 as int),
                        b0 == (c0 / 4) * 4 && b1 == (c1 / 8) * 8 && b2 == (c2 / 4) * 4,
                        self.fserrors == old(self).fserrors,
                        self.on_odd_row == old(self).on_odd_row,
                    decreases 4 - ic2,
                {
                    let idx: usize = Self::histogram_index(base_c0 + ic0, base_c1 + ic1, base_c2 + ic2);
                    let ghost (x0, x1, x2) = (b0 + ic0, b1 + ic1, b2 + ic2);
                    proof {
                        assert(cptr / 32 == ic0 && (cptr / 4) % 8 == ic1 && cptr % 4 == ic2);
                        assert(idx == block_index(b0, b1, b2, cptr as int));
                        assert(bestcolor[cptr as int] as int == nearest_color(p, x0, x1, x2));
                        lemma_nearest_in_use(p, x0, x1, x2);
                    }
                    let ghost prev = self.histogram@;
                    self.histogram.set(idx, bestcolor[cptr] as u16 + 1);
                    proof {
                        lemma_fill_step(h0, prev, self.histogram@, p, b0, b1, b2, cptr as int);
                        assert(same_block(x0, x1, x2, c0 as int, c1 as int, c2 as int));
                        assert forall|d0: int, d1: int, d2: int|
                            valid_cell(d0, d1, d2) && !same_block(d0, d1, d2, c0 as int, c1 as int, c2 as int) implies #[trigger] self.histogram@[cell_index(d0, d1, d2)]
                                == h0[cell_index(d0, d1, d2)] by {
                            lemma_cell_index(d0, d1, d2, x0, x1, x2);
                            assert(prev[cell_index(d0, d1, d2)] == h0[cell_index(d0, d1, d2)]);
                        }
                    }
                    cptr = cptr + 1;
                    ic2 = ic2 + 1;
                }
                ic1 = ic1 + 1;
            }
            ic0 = ic0 + 1;
        }
        proof {
            let t = (c0 - b0) * 32 + (c1 - b1) * 4 + (c2 - b2);
            assert(t / 32 == c0 - b0 && (t / 4) % 8 == c1 - b1 && t % 4 == c2 - b2);
            assert(self.histogram@[block_index(b0, b1, b2, t)] == nearest_color(p, c0 as int, c1 as int, c2 as int) + 1);
            lemma_refilled(h0, self.histogram@, p, c0 as int, c1 as int, c2 as int, b0, b1, b2);
        }
    }

    /// Maps every pixel of `img` (row by row) to a palette index through the
    /// cache, resolving an inverse-map block whenever a pixel falls in a cell
    /// that is not cached yet.
    pub fn quantize_no_dither(&mut self, img: &RgbaFrame) -> (out: Vec<u8>)
        requires
            old(self).wf(),
        ensures
            final(self).wf(),
            final(self).pal() == old(self).pal(),
            final(self).errors() == old(self).errors(),
            cache_update(old(self).hist(), final(self).hist(), old(self).pal()),
            out@.len() == img.w() * img.h(),
            forall|k: int|
                0 <= k < out@.len() ==> cached_or_nearest(old(self).hist(), old(self).pal(), img.bytes(), k, #[trigger] out@[k] as int),
            old(self).cache_ok() ==> final(self).cache_ok(),
            old(self).cache_ok() ==> forall|k: int|
                0 <= k < out@.len() ==> #[trigger] out@[k] as int == pixel_nearest(old(self).pal(), img.bytes(), k),
            (final(self).hist(), out@) == plain_pass(old(self).hist(), old(self).pal(), img.bytes(), (img.w() * img.h()) as nat),
    {
        let ghost p0 = self.palette;
        let ghost h0 = self.histogram@;
        let raw = img.as_raw();
        let ghost bytes = raw@;
        let npix: usize = raw.len() / 4;
        proof {
            lemma_cache_update_refl(h0, p0);
        }
        let mut output: Vec<u8> = Vec::with_capacity(npix);
        let mut k: usize = 0;
        while k < npix
            invariant
                bytes == img.bytes(),
                raw@ == bytes,
                npix == bytes.len() / 4,
                bytes.len() == img.w() * img.h() * 4,
                bytes.len() <= usize::MAX,
                k <= npix,
                self.wf(),
                self.palette == p0,
                self.fserrors@ == old(self).fserrors@,
                cache_update(h0, self.histogram@, p0),
                output@.len() == k,
                forall|j: int| 0 <= j < k ==> cached_or_nearest(h0, p0, bytes, j, #[trigger] output@[j] as int),
                cache_holds(h0, p0) ==> forall|j: int|
                    0 <= j < k ==> #[trigger] output@[j] as int == pixel_nearest(p0, bytes, j),
                (self.histogram@, output@) == plain_pass(h0, p0, bytes, k as nat),
            decreases npix - k,
        {
            let r: usize = raw[4 * k] as usize;
            let g: usize = raw[4 * k + 1] as usize;
            let b: usize = raw[4 * k + 2] as usize;
            proof {
                lemma_shift_channel(r);
                lemma_shift_channel(g);
                lemma_shift_channel(b);
                lemma_pixel_cell(bytes, k as int);
                lemma_nearest_in_use(p0, r as int / 8, g as int / 4, b as int / 8);
            }
            let c0: usize = r >> C0_SHIFT;
            let c1: usize = g >> C1_SHIFT;
            let c2: usize = b >> C2_SHIFT;

            let idx: usize = Self::histogram_index(c0, c1, c2);
            let ghost before = self.histogram@;
            let ghost looked = cache_lookup(before, p0, pixel_channels(bytes, k as int));
            let mut cached: u16 = self.histogram[idx];
            if cached == 0 {
                let ghost h1 = self.histogram@;
                self.fill_inverse_cmap(c0 as i32, c1 as i32, c2 as i32);
                proof {
                    lemma_cache_update_trans(h0, h1, self.histogram@, p0);
                }
                cached = self.histogram[idx];
            }
            proof {
                assert(self.histogram@[cell_index(c0 as int, c1 as int, c2 as int)] == cached);
                if cache_holds(h0, p0) {
                    lemma_cache_update_holds(h0, self.histogram@, p0);
                }
            }
            let ghost out_before = output@;
            output.push((cached - 1) as u8);
            proof {
                assert(looked.0 == self.histogram@);
                assert(looked.1 == cached - 1);
                assert(output@ == out_before.push(looked.1 as u8));
            }
            k = k + 1;
        }
        proof {
            if cache_holds(h0, p0) {
                lemma_cache_update_holds(h0, self.histogram@, p0);
            }
        }
        output
    }

    /// One channel of the value looked up for a pixel: see `fs_target`.
    fn fs_adjust(&self, cur: i32, stored: i16, x: u8) -> (v: i32)
        requires
            self.wf(),
            -1785 <= cur <= 1785,
            -2295 <= stored <= 2295,
        ensures
            v == fs_target(cur as int, stored as int, x as int),
            0 <= v <= 255,
    {
        let s: i32 = cur + stored as i32 + 8;
        proof {
            lemma_shr4(s);
        }
        let t: i32 = s >> 4;
        let lim: i32 = self.error_limiter[(255 + t) as usize];
        let v: i32 = lim + x as i32;
        if v < 0 {
            0
        } else if v > 255 {
            255
        } else {
            v
        }
    }

    /// Spreads the quantization error `err` of one channel: returns the value
    /// stored for the pixel below-behind (`bprev + 3 err`), the new
    /// accumulator for the pixel below (`below + 5 err`), the new error kept
    /// for the pixel below-ahead (`err`) and the error carried on (`7 err`).
    fn spread_error(err: i32, below: i32, bprev: i32) -> (r: (i16, i32, i32, i32))
        requires
            -255 <= err <= 255,
            -255 <= below <= 255,
            -1530 <= bprev <= 1530,
        ensures
            r.0 == (bprev + 3 * err) as i16,
            r.0 as int == bprev + 3 * err,
            r.1 == below + 5 * err,
            r.2 == err,
            r.3 == 7 * err,
    {
        let bnexterr: i32 = err;
        let delta: i32 = err * 2;
        let mut cur: i32 = err + delta;  // 3x
        let stored: i16 = (bprev + cur) as i16;
        cur = cur + delta;  // 5x
        let new_bprev: i32 = below + cur;
        let new_below: i32 = bnexterr;
        cur = cur + delta;  // 7x
        (stored, new_bprev, new_below, cur)
    }

    /// Dithers pixel `(x, row)`: looks it up with the stored errors of slot
    /// `ep`, writes its palette index to the output and spreads its error,
    /// storing into slot `e`. Returns the new accumulators.
    fn dither_pixel(
        &mut self,
        img: &RgbaFrame,
        output: &mut Vec<u8>,
        row: usize,
        x: usize,
        e: usize,
        ep: usize,
        cur: (i32, i32, i32),
        below: (i32, i32, i32),
        bprev: (i32, i32, i32),
    ) -> (r: ((i32, i32, i32), (i32, i32, i32), (i32, i32, i32)))
        requires
            old(self).wf(),
            x < img.w(),
            row < img.h(),
            old(output)@.len() == img.w() * img.h(),
            e + 2 < old(self).errors().len(),
            ep + 2 < old(self).errors().len(),
            e + 3 == ep || ep + 3 == e,
            errors_bounded(old(self).errors()),
            fs_bounded(cur, below, bprev),
        ensures
            final(self).wf(),
            final(self).pal() == old(self).pal(),
            final(self).on_odd_row == old(self).on_odd_row,
            cache_update(old(self).hist(), final(self).hist(), old(self).pal()),
            final(self).errors().len() == old(self).errors().len(),
            errors_bounded(final(self).errors()),
            final(output)@.len() == old(output)@.len(),
            fs_bounded(r.0, r.1, r.2),
            fs_state_of(r.0, r.1, r.2, final(self).errors(), final(output)@, final(self).hist()) == fs_pixel(
                old(self).pal(),
                img.bytes(),
                img.w() as int,
                row as int,
                x as int,
                e as int,
                ep as int,
                fs_state_of(cur, below, bprev, old(self).errors(), old(output)@, old(self).hist()),
            ),
    {
        let ghost p0 = self.palette;
        let ghost h0 = self.histogram@;
        let ghost errs0 = self.fserrors@;
        let ghost out0 = output@;
        let width: usize = img.width() as usize;
        let raw = img.as_raw();
        let _len: usize = raw.len();
        let _elen: usize = self.fserrors.len();
        proof {
            crate::frame::lemma_pixel_in_bounds(img.w() as int, img.h() as int, x as int, row as int);
        }
        let base: usize = (row * width + x) * 4;
        let v0: i32 = self.fs_adjust(cur.0, self.fserrors[ep], raw[base]);
        let v1: i32 = self.fs_adjust(cur.1, self.fserrors[ep + 1], raw[base + 1]);
        let v2: i32 = self.fs_adjust(cur.2, self.fserrors[ep + 2], raw[base + 2]);

        proof {
            lemma_shift_channel(v0 as usize);
            lemma_shift_channel(v1 as usize);
            lemma_shift_channel(v2 as usize);
            lemma_nearest_in_use(p0, v0 / 8, v1 / 4, v2 / 8);
        }
        let c0: usize = (v0 as usize) >> C0_SHIFT;
        let c1: usize = (v1 as usize) >> C1_SHIFT;
        let c2: usize = (v2 as usize) >> C2_SHIFT;

        let idx: usize = Self::histogram_index(c0, c1, c2);
        let ghost looked = cache_lookup(h0, p0, (v0 / 8, v1 / 4, v2 / 8));
        let mut cached: u16 = self.histogram[idx];
        if cached == 0 {
            let ghost h1 = self.histogram@;
            self.fill_inverse_cmap(c0 as i32, c1 as i32, c2 as i32);
            proof {
                lemma_cache_update_trans(h0, h1, self.histogram@, p0);
            }
            cached = self.histogram[idx];
        }
        proof {
            assert(self.histogram@[cell_index(c0 as int, c1 as int, c2 as int)] == cached);
            assert(self.histogram@ == looked.0);
            assert(cached - 1 == looked.1);
        }
        let pixcode: usize = (cached - 1) as usize;
        output.set(row * width + x, pixcode as u8);

        let err0: i32 = v0 - self.palette.red[pixcode] as i32;
        let err1: i32 = v1 - self.palette.green[pixcode] as i32;
        let err2: i32 = v2 - self.palette.blue[pixcode] as i32;

        let (s0, p0n, b0n, c0n) = Self::spread_error(err0, below.0, bprev.0);
        self.fserrors.set(e, s0);
        let (s1, p1n, b1n, c1n) = Self::spread_error(err1, below.1, bprev.1);
        self.fserrors.set(e + 1, s1);
        let (s2, p2n, b2n, c2n) = Self::spread_error(err2, below.2, bprev.2);
        self.fserrors.set(e + 2, s2);

        proof {
            assert forall|i: int| 0 <= i < self.fserrors@.len() implies -2295 <= #[trigger] self.fserrors@[i] <= 2295 by {
                if i != e && i != e + 1 && i != e + 2 {
                    assert(self.fserrors@[i] == errs0[i]);
                }
            }
        }
        ((c0n, c1n, c2n), (b0n, b1n, b2n), (p0n, p1n, p2n))
    }

    /// Maps every pixel of `img` to a palette index with Floyd-Steinberg error
    /// diffusion, running even rows left to right and odd rows right to left;
    /// cells not cached yet are resolved on demand.
    #[verifier::rlimit(60)]
    pub fn quantize_fs_dither(&mut self, img: &RgbaFrame) -> (out: Vec<u8>)
        requires
            old(self).wf(),
            (img.w() + 2) * 3 <= usize::MAX,
        ensures
            final(self).wf(),
            final(self).pal() == old(self).pal(),
            cache_update(old(self).hist(), final(self).hist(), old(self).pal()),
            out@.len() == img.w() * img.h(),
            final(self).errors().len() == (img.w() + 2) * 3,
            errors_bounded(final(self).errors()),
            old(self).cache_ok() ==> final(self).cache_ok(),
            (final(self).errors(), out@, final(self).hist()) == fs_rows(
                old(self).pal(),
                img.bytes(),
                img.w() as int,
                img.h() as int,
                old(self).hist(),
                img.h(),
            ),
    {
        let ghost p0 = self.palette;
        let ghost h0 = self.histogram@;
        let ghost bytes = img.bytes();
        let width: usize = img.width() as usize;
        let height: usize = img.height() as usize;
        let _len: usize = img.as_raw().len();
        let ghost w = width as int;
        let ghost h = height as int;
        proof {
            lemma_cache_update_refl(h0, p0);
            assert(w * h * 4 == bytes.len());
            assert(w * h <= w * h * 4) by (nonlinear_arith)
                requires
                    w >= 0,
                    h >= 0,
            ;
        }
        let mut output: Vec<u8> = vec![0u8; width * height];
        self.fserrors = vec![0i16; (width + 2) * 3];
        self.on_odd_row = false;
        proof {
            assert(output@ == fs_rows(p0, bytes, w, h, h0, 0).1);
            assert(self.fserrors@ == fs_rows(p0, bytes, w, h, h0, 0).0);
        }

        let mut row: usize = 0;
        while row < height
            invariant
                bytes == img.bytes(),
                width == img.w(),
                height == img.h(),
                w == width,
                h == height,
                (w + 2) * 3 <= usize::MAX,
                row <= height,
                self.wf(),
                self.palette == p0,
                cache_update(h0, self.histogram@, p0),
                self.on_odd_row == (row % 2 == 1),
                self.fserrors@.len() == (w + 2) * 3,
                errors_bounded(self.fserrors@),
                output@.len() == w * h,
                (self.fserrors@, output@, self.histogram@) == fs_rows(p0, bytes, w, h, h0, row as nat),
            decreases height - row,
        {
            let forward: bool = !self.on_odd_row;
            let mut cur: (i32, i32, i32) = (0, 0, 0);
            let mut below: (i32, i32, i32) = (0, 0, 0);
            let mut bprev: (i32, i32, i32) = (0, 0, 0);
            let mut errorptr: usize = if forward {
                0
            } else {
                (width + 1) * 3
            };
            let ghost errs_start = self.fserrors@;
            let ghost out_start = output@;
            let ghost hist_start = self.histogram@;

            let mut j: usize = 0;
            while j < width
                invariant
                    bytes == img.bytes(),
                    width == img.w(),
                    height == img.h(),
                    w == width,
                    h == height,
                    (w + 2) * 3 <= usize::MAX,
                    row < height,
                    j <= width,
                    forward == (row % 2 == 0),
                    errorptr == fs_ptr(w, row as int, j as int),
                    self.wf(),
                    self.palette == p0,
                    cache_update(h0, self.histogram@, p0),
                    self.on_odd_row == (row % 2 == 1),
                    self.fserrors@.len() == (w + 2) * 3,
                    errors_bounded(self.fserrors@),
                    output@.len() == w * h,
                    fs_bounded(cur, below, bprev),
                    (errs_start, out_start, hist_start) == fs_rows(p0, bytes, w, h, h0, row as nat),
                    fs_state_of(cur, below, bprev, self.fserrors@, output@, self.histogram@) == fs_row(
                        p0,
                        bytes,
                        w,
                        row as int,
                        j as nat,
                        errs_start,
                        out_start,
                        hist_start,
                    ),
                decreases width - j,
            {
                let x: usize = if forward {
                    j
                } else {
                    width - 1 - j
                };
                let ep: usize = if forward {
                    errorptr + 3
                } else {
                    errorptr - 3
                };
                let ghost hprev = self.histogram@;
                let ghost st = fs_state_of(cur, below, bprev, self.fserrors@, output@, self.histogram@);
                proof {
                    assert(x == fs_col(w, row as int, j as int));
                    assert(ep == 3 * (x + 1));
                }
                let r = self.dither_pixel(img, &mut output, row, x, errorptr, ep, cur, below, bprev);
                cur = r.0;
                below = r.1;
                bprev = r.2;
                proof {
                    lemma_cache_update_trans(h0, hprev, self.histogram@, p0);
                }
                errorptr = if forward {
                    errorptr + 3
                } else {
                    errorptr - 3
                };
                j = j + 1;
            }
            let ghost st = fs_state_of(cur, below, bprev, self.fserrors@, output@, self.histogram@);
            self.fserrors.set(errorptr + 1, bprev.1 as i16);
            self.fserrors.set(errorptr + 2, bprev.2 as i16);
            proof {
                assert forall|i: int| 0 <= i < self.fserrors@.len() implies -2295 <= #[trigger] self.fserrors@[i] <= 2295 by {
                    if i != errorptr + 1 && i != errorptr + 2 {
                        assert(self.fserrors@[i] == st.3[i]);
                    }
                }
            }
            self.on_odd_row = !self.on_odd_row;
            row = row + 1;
        }
        proof {
            if cache_holds(h0, p0) {
                lemma_cache_update_holds(h0, self.histogram@, p0);
            }
        }
        output
    }

    /// Quantizes `img`, with Floyd-Steinberg dithering when `dither` is set.
    pub fn quantize(&mut self, img: &RgbaFrame, dither: bool) -> (out: Vec<u8>)
        requires
            old(self).wf(),
            (img.w() + 2) * 3 <= usize::MAX,
        ensures
            final(self).wf(),
            final(self).pal() == old(self).pal(),
            cache_update(old(self).hist(), final(self).hist(), old(self).pal()),
            out@.len() == img.w() * img.h(),
            old(self).cache_ok() ==> final(self).cache_ok(),
            !dither ==> final(self).errors() == old(self).errors(),
            !dither ==> forall|k: int|
                0 <= k < out@.len() ==> cached_or_nearest(old(self).hist(), old(self).pal(), img.bytes(), k, #[trigger] out@[k] as int),
            !dither && old(self).cache_ok() ==> forall|k: int|
                0 <= k < out@.len() ==> #[trigger] out@[k] as int == pixel_nearest(old(self).pal(), img.bytes(), k),
            dither ==> final(self).errors().len() == (img.w() + 2) * 3,
            !dither ==> (final(self).hist(), out@) == plain_pass(old(self).hist(), old(self).pal(), img.bytes(), (img.w() * img.h()) as nat),
            dither ==> (final(self).errors(), out@, final(self).hist()) == fs_rows(
                old(self).pal(),
                img.bytes(),
                img.w() as int,
                img.h() as int,
                old(self).hist(),
                img.h(),
            ),
    {
        if dither {
            self.quantize_fs_dither(img)
        } else {
            self.quantize_no_dither(img)
        }
    }

    /// The palette in use.
    pub fn palette(&self) -> (p: &Palette)
        ensures
            *p == self.pal(),
    {
        &self.palette
    }

    /// Mutable access to the palette. The cache is left as it is: entries
    /// cached before a change keep the old nearest colours.
    pub fn palette_mut(&mut self) -> (p: &mut Palette)
        ensures
            *p == old(self).pal(),
            final(self).pal() == *final(p),
            final(self).hist() == old(self).hist(),
            final(self).errors() == old(self).errors(),
            final(self).limiter() == old(self).limiter(),
            old(self).wf() && final(p).colors_total <= 256 ==> final(self).wf(),
    {
        &mut self.palette
    }

    /// Replaces the palette with a copy of `other`; the cache is left as it is.
    pub fn sync_palette_from(&mut self, other: &Palette)
        ensures
            final(self).pal() == *other,
            final(self).hist() == old(self).hist(),
            final(self).errors() == old(self).errors(),
            final(self).limiter() == old(self).limiter(),
            old(self).wf() && other.colors_total <= 256 ==> final(self).wf(),
    {
        self.palette = other.clone();
    }

    /// Flat histogram position of cell `(c0, c1, c2)`.
    fn histogram_index(c0: usize, c1: usize, c2: usize) -> (r: usize)
        requires
            valid_cell(c0 as int, c1 as int, c2 as int),
        ensures
            r == cell_index(c0 as int, c1 as int, c2 as int),
            r < 65536,
    {
        proof {
            lemma_cell_index(c0 as int, c1 as int, c2 as int, c0 as int, c1 as int, c2 as int);
        }
        (c0 * HIST_C1_ELEMS + c1) * HIST_C2_ELEMS + c2
    }

    /// Flat histogram position of the cell that an RGBA pixel falls in.
    fn histogram_index_of(pixel: [u8; 4]) -> (r: usize)
        ensures
            r == cell_index(pixel[0] as int / 8, pixel[1] as int / 4, pixel[2] as int / 8),
            r < 65536,
    {
        proof {
            lemma_shift_channel(pixel[0] as usize);
            lemma_shift_channel(pixel[1] as usize);
            lemma_shift_channel(pixel[2] as usize);
        }
        Self::histogram_index(
            (pixel[0] as usize) >> C0_SHIFT,
            (pixel[1] as usize) >> C1_SHIFT,
            (pixel[2] as usize) >> C2_SHIFT,
        )
    }
}

/// Dithering depends on the palette and the image alone: two well-formed
/// quantizers with the same palette and consistent caches dither any image
/// to the same indices and leave the same error row. Since
/// `quantize_fs_dither` keeps the palette and a consistent cache, repeated
/// calls on one image give the same output.
pub proof fn law_fs_dither_ignores_cache(q1: Quantizer, q2: Quantizer, img: RgbaFrame)
    requires
        q1.wf(),
        q2.wf(),
        q1.cache_ok(),
        q2.cache_ok(),
        q1.pal() == q2.pal(),
    ensures
        fs_rows(q1.pal(), img.bytes(), img.w() as int, img.h() as int, q1.hist(), img.h()).0 == fs_rows(
            q2.pal(),
            img.bytes(),
            img.w() as int,
            img.h() as int,
            q2.hist(),
            img.h(),
        ).0,
        fs_rows(q1.pal(), img.bytes(), img.w() as int, img.h() as int, q1.hist(), img.h()).1 == fs_rows(
            q2.pal(),
            img.bytes(),
            img.w() as int,
            img.h() as int,
            q2.hist(),
            img.h(),
        ).1,
{
    lemma_fs_rows_cache_free(q1.pal(), img.bytes(), img.w() as int, img.h() as int, q1.hist(), q2.hist(), img.h());
}

/// A histogram has one median-cut palette once the unused slots are blank:
/// two quantizers made from the same reference image get the same palette,
/// and so (with `law_fs_dither_ignores_cache`) dither alike.
pub proof fn law_median_cut_palette_unique(h: Seq<u16>, p1: Palette, p2: Palette)
    requires
        is_median_cut_palette(h, p1),
        is_median_cut_palette(h, p2),
        unused_slots_blank(p1),
        unused_slots_blank(p2),
    ensures
        p1 == p2,
{
    let boxes = median_cut_bounds(h, 256);
    assert forall|i: int| 0 <= i < 256 implies p1.red[i] == p2.red[i] && p1.green[i] == p2.green[i]
        && p1.blue[i] == p2.blue[i] && p1.alpha[i] == p2.alpha[i] by {
        if i < p1.colors_total {
            assert(p1.red[i] as int == box_color(h, boxes[i]).0);
            assert(p2.red[i] as int == box_color(h, boxes[i]).0);
        }
    }
    assert(p1.red =~= p2.red);
    assert(p1.green =~= p2.green);
    assert(p1.blue =~= p2.blue);
    assert(p1.alpha =~= p2.alpha);
}

} // verus!
