//! The integer side of compositing an input into a template frame.
//!
//! A template frame comes as five images: the frame lit (`light`) and unlit
//! (`dark`), a coordinate map (`map1`) giving for each pixel the point of the
//! input it shows, a selection map (`map2`) giving the input layer of each
//! pixel (channel 0) and where edges are smoothed (channel 2), and the
//! neutral frame the output starts from. Sampling the input at the mapped
//! points is floating-point work done by the caller; what it samples is
//! blended here between `dark` and `light`, and the edges are smoothed here.
use vstd::prelude::*;
use crate::frame::RgbaFrame;
use crate::quantize::clamp255;

verus! {

/// How a frame is rendered.
#[derive(Debug, Clone, Copy, PartialEq, Eq, Structural)]
pub enum RenderQuality {
    /// Only the template's neutral frame.
    Neutral,
    /// One sample per pixel.
    Simple,
    /// Nine antialiased samples per pixel.
    Sampled,
}

impl Default for RenderQuality {
    fn default() -> (q: Self)
        ensures
            q == RenderQuality::Sampled,
    {
        RenderQuality::Sampled
    }
}

/// The images of one template frame.
pub struct Mapping {
    pub light: RgbaFrame,
    pub dark: RgbaFrame,
    pub map1: RgbaFrame,
    pub map2: RgbaFrame,
    pub neutral: RgbaFrame,
    pub scale: i32,
    pub light_name: String,
    pub dark_name: String,
    pub map1_name: String,
    pub map2_name: String,
    pub neutral_name: String,
    /// The answer of `has_nonzero_smoothing`, kept from its first call;
    /// `None` until then.
    pub smooth_cache: Option<bool>,
}

/// Some pixel of `sel` asks for edge smoothing (a nonzero channel 2).
pub open spec fn smoothing_requested(sel: RgbaFrame) -> bool {
    exists|p: int| 0 <= p < sel.bytes().len() / 4 && #[trigger] sel.bytes()[4 * p + 2] != 0
}

/// A 1 by 1 transparent black image.
pub open spec fn blank_frame(f: RgbaFrame) -> bool {
    f.w() == 1 && f.h() == 1 && f.bytes() == seq![0u8, 0u8, 0u8, 0u8]
}

/// A new 1 by 1 transparent black image.
fn blank() -> (f: RgbaFrame)
    ensures
        blank_frame(f),
{
    let f = RgbaFrame::new(1, 1);
    assert(f.bytes() =~= seq![0u8, 0u8, 0u8, 0u8]);
    f
}

/// `a` and `b` are the same image.
pub open spec fn same_frame(a: RgbaFrame, b: RgbaFrame) -> bool {
    a.w() == b.w() && a.h() == b.h() && a.bytes() == b.bytes()
}

impl Clone for Mapping {
    /// A copy of the mapping: the same images, scale and names.
    fn clone(&self) -> (m: Self)
        ensures
            same_frame(m.light, self.light),
            same_frame(m.dark, self.dark),
            same_frame(m.map1, self.map1),
            same_frame(m.map2, self.map2),
            same_frame(m.neutral, self.neutral),
            m.scale == self.scale,
            m.light_name@ == self.light_name@,
            m.dark_name@ == self.dark_name@,
            m.map1_name@ == self.map1_name@,
            m.map2_name@ == self.map2_name@,
            m.neutral_name@ == self.neutral_name@,
            m.smooth_cache == self.smooth_cache,
    {
        Mapping {
            light: self.light.clone(),
            dark: self.dark.clone(),
            map1: self.map1.clone(),
            map2: self.map2.clone(),
            neutral: self.neutral.clone(),
            scale: self.scale,
            light_name: self.light_name.clone(),
            dark_name: self.dark_name.clone(),
            map1_name: self.map1_name.clone(),
            map2_name: self.map2_name.clone(),
            neutral_name: self.neutral_name.clone(),
            smooth_cache: self.smooth_cache,
        }
    }
}

impl Mapping {
    /// A mapping of 1 by 1 transparent black images, scale 1 and no names.
    pub fn new() -> (m: Self)
        ensures
            blank_frame(m.light),
            blank_frame(m.dark),
            blank_frame(m.map1),
            blank_frame(m.map2),
            blank_frame(m.neutral),
            m.scale == 1,
            m.light_name@.len() == 0,
            m.dark_name@.len() == 0,
            m.map1_name@.len() == 0,
            m.map2_name@.len() == 0,
            m.neutral_name@.len() == 0,
            m.smooth_cache is None,
    {
        Mapping {
            light: blank(),
            dark: blank(),
            map1: blank(),
            map2: blank(),
            neutral: blank(),
            scale: 1,
            light_name: String::new(),
            dark_name: String::new(),
            map1_name: String::new(),
            map2_name: String::new(),
            neutral_name: String::new(),
            smooth_cache: None,
        }
    }

    /// Width of the frame (of its `light` image).
    pub fn width(&self) -> (w: u32)
        ensures
            w == self.light.w(),
    {
        self.light.width()
    }

    /// Height of the frame (of its `light` image).
    pub fn height(&self) -> (h: u32)
        ensures
            h == self.light.h(),
    {
        self.light.height()
    }

    /// Whether the selection map asks for edge smoothing anywhere; when it
    /// does not, the smoothing pass changes nothing and can be skipped.
    /// The answer is worked out on the first call and kept: later calls give
    /// it again, even after `map2` has been replaced.
    pub fn has_nonzero_smoothing(&mut self) -> (r: bool)
        ensures
            r == match old(self).smooth_cache {
                Some(v) => v,
                None => smoothing_requested(old(self).map2),
            },
            final(self).smooth_cache == Some(r),
            same_frame(final(self).light, old(self).light),
            same_frame(final(self).dark, old(self).dark),
            same_frame(final(self).map1, old(self).map1),
            same_frame(final(self).map2, old(self).map2),
            same_frame(final(self).neutral, old(self).neutral),
            final(self).scale == old(self).scale,
            final(self).light_name@ == old(self).light_name@,
            final(self).dark_name@ == old(self).dark_name@,
            final(self).map1_name@ == old(self).map1_name@,
            final(self).map2_name@ == old(self).map2_name@,
            final(self).neutral_name@ == old(self).neutral_name@,
    {
        if let Some(v) = self.smooth_cache {
            return v;
        }
        let r = selection_requests_smoothing(&self.map2);
        self.smooth_cache = Some(r);
        r
    }
}

/// Whether some pixel of `sel` has a nonzero channel 2.
fn selection_requests_smoothing(sel: &RgbaFrame) -> (r: bool)
    ensures
        r == smoothing_requested(*sel),
{
    let raw = sel.as_raw();
    let n: usize = raw.len() / 4;
    let mut p: usize = 0;
    while p < n
        invariant
            raw@ == sel.bytes(),
            n == raw@.len() / 4,
            raw@.len() <= usize::MAX,
            p <= n,
            forall|q: int| 0 <= q < p ==> #[trigger] raw@[4 * q + 2] == 0,
        decreases n - p,
    {
        if raw[4 * p + 2] != 0 {
            return true;
        }
        p = p + 1;
    }
    false
}

// ---------------------------------------------------------------------------
// Blending
// ---------------------------------------------------------------------------

/// `a / 255` rounded toward zero.
pub open spec fn tdiv255(a: int) -> int {
    if a >= 0 {
        a / 255
    } else {
        -((-a) / 255)
    }
}

/// One channel lit to the fraction `m / 255` between `dark` and `light`.
pub open spec fn lit(light: int, dark: int, m: int) -> int {
    dark + tdiv255((light - dark) * m)
}

/// `dst` moved toward `src` by the fraction `a / 255`, clamped.
pub open spec fn over(dst: int, src: int, a: int) -> int {
    clamp255(dst + tdiv255((src - dst) * a))
}

/// The output pixel after compositing a sample `m` (RGBA, each a machine
/// integer from the sampler) over `out`: the colour is `m`'s channels lit
/// between `dark` and `light`, its opacity `m`'s alpha capped by `dark`'s.
/// An opacity above 250 replaces the colour, a smaller positive one blends
/// toward it, and none leaves the pixel; alpha is never changed.
pub open spec fn composite(out: [u8; 4], light: [u8; 4], dark: [u8; 4], m: [i32; 4]) -> Seq<int> {
    let a = if (dark[3] as int) < m[3] {
        dark[3] as int
    } else {
        m[3] as int
    };
    Seq::new(
        4,
        |c: int|
            if c == 3 || a <= 0 {
                out[c] as int
            } else if a > 250 {
                clamp255(lit(light[c] as int, dark[c] as int, m[c] as int))
            } else {
                over(out[c] as int, lit(light[c] as int, dark[c] as int, m[c] as int), a)
            },
    )
}

/// Composites the sample `m` over the output pixel `out` (see `composite`).
pub fn composite_pixel(out: [u8; 4], light: [u8; 4], dark: [u8; 4], m: [i32; 4]) -> (r: [u8; 4])
    requires
        -8421504 <= m[0] <= 8421504,
        -8421504 <= m[1] <= 8421504,
        -8421504 <= m[2] <= 8421504,
    ensures
        forall|c: int| 0 <= c < 4 ==> r[c] as int == #[trigger] composite(out, light, dark, m)[c],
{
    let mut r = out;
    let mut result_a: i32 = m[3];
    if (dark[3] as i32) < result_a {
        result_a = dark[3] as i32;
    }
    if result_a > 0 {
        let mut c: usize = 0;
        while c < 3
            invariant
                c <= 3,
                0 < result_a <= 255,
                result_a == if (dark[3] as int) < m[3] {
                    dark[3] as int
                } else {
                    m[3] as int
                },
                -8421504 <= m[0] <= 8421504,
                -8421504 <= m[1] <= 8421504,
                -8421504 <= m[2] <= 8421504,
                r[3] == out[3],
                forall|k: int| c <= k < 4 ==> r[k] == out[k],
                forall|k: int| 0 <= k < c ==> r[k] as int == #[trigger] composite(out, light, dark, m)[k],
            decreases 3 - c,
        {
            let diff: i32 = light[c] as i32 - dark[c] as i32;
            assert(-2147483648 <= diff * m[c as int] <= 2147483647) by (nonlinear_arith)
                requires
                    -255 <= diff <= 255,
                    -8421504 <= m[c as int] <= 8421504,
            ;
            let result: i32 = dark[c] as i32 + (diff * m[c]) / 255;
            let v: i32 = if result_a > 250 {
                result
            } else {
                let base: i32 = r[c] as i32;
                assert(-2147483648 <= (result - base) * result_a <= 2147483647) by (nonlinear_arith)
                    requires
                        -8421760 <= result - base <= 8421760,
                        0 < result_a <= 250,
                ;
                base + ((result - base) * result_a) / 255
            };
            let clamped: u8 = if v < 0 {
                0
            } else if v > 255 {
                255
            } else {
                v as u8
            };
            r[c] = clamped;
            c = c + 1;
        }
    }
    assert forall|c: int| 0 <= c < 4 implies r[c] as int == #[trigger] composite(out, light, dark, m)[c] by {}
    r
}

/// A fully lit sample shows the lit frame and an unlit one the dark frame,
/// where the sample is opaque enough to replace the pixel.
pub proof fn lemma_composite_extremes(out: [u8; 4], light: [u8; 4], dark: [u8; 4], m: [i32; 4], c: int)
    requires
        0 <= c < 3,
        m[3] > 250,
        dark[3] > 250,
    ensures
        m[c] == 255 ==> composite(out, light, dark, m)[c] == light[c] as int,
        m[c] == 0 ==> composite(out, light, dark, m)[c] == dark[c] as int,
{
    if m[c] == 255 {
        let d = light[c] as int - dark[c] as int;
        assert(d * 255 / 255 == d) by (nonlinear_arith);
        assert((-(d * 255)) / 255 == -d) by (nonlinear_arith);
    }
}

// ---------------------------------------------------------------------------
// Coordinate maps
// ---------------------------------------------------------------------------

/// The input point that pixel `(x, y)` of a coordinate map encodes, centred
/// on the 4096 by 4096 coordinate range: red and green hold the low bytes of
/// x and y, the low and high nibbles of blue their high bits.
pub open spec fn map_point(f: RgbaFrame, x: int, y: int) -> (int, int) {
    (
        f.at(x, y, 0) + 256 * (f.at(x, y, 2) % 16) - 2048,
        f.at(x, y, 1) + 256 * (f.at(x, y, 2) / 16) - 2048,
    )
}

/// Squared distance between two points.
pub open spec fn dist2(a: (int, int), b: (int, int)) -> int {
    (a.0 - b.0) * (a.0 - b.0) + (a.1 - b.1) * (a.1 - b.1)
}

/// The point a map pixel encodes.
fn decode_point(map1: &RgbaFrame, x: u32, y: u32) -> (p: (i32, i32))
    requires
        x < map1.w(),
        y < map1.h(),
    ensures
        p.0 == map_point(*map1, x as int, y as int).0,
        p.1 == map_point(*map1, x as int, y as int).1,
        -2048 <= p.0 <= 2047 && -2048 <= p.1 <= 2047,
{
    let px = map1.get_pixel(x, y);
    let b_val: i32 = px[2] as i32;
    let ymod: i32 = b_val / 16;
    let xmod: i32 = b_val % 16;
    (px[0] as i32 + 256 * xmod - 2048, px[1] as i32 + 256 * ymod - 2048)
}

/// What pixel `(x, y)` of the output samples from input layer `layer`, read
/// at row `map_y` of the maps: `None` unless the selection map gives the
/// pixel to that layer and the coordinate map marks it active (alpha above
/// 25). Otherwise the pixel's input point and the points of its right and
/// lower neighbours, which span the area the pixel covers. The neighbours
/// are used only inside the `w` by `h` frame, when both are active (alpha
/// above 127) and on the same layer, and not when either is more than 400
/// from the pixel's point (a seam in the map); failing that, the pixel's own
/// point stands for them.
pub open spec fn sample_points(
    map1: RgbaFrame,
    map2: RgbaFrame,
    x: int,
    y: int,
    map_y: int,
    w: int,
    h: int,
    layer: int,
) -> Option<((int, int), (int, int), (int, int))> {
    if map2.at(x, map_y, 0) != layer || map1.at(x, map_y, 3) <= 25 {
        None
    } else {
        let p1 = map_point(map1, x, map_y);
        if x < w - 1 && y < h - 1 && map1.at(x + 1, map_y, 3) > 127 && map1.at(x, map_y + 1, 3) > 127 {
            let same = map2.at(x + 1, map_y, 0) == layer && map2.at(x, map_y + 1, 0) == layer;
            let p2 = if same {
                map_point(map1, x + 1, map_y)
            } else {
                p1
            };
            let p3 = if same {
                map_point(map1, x, map_y + 1)
            } else {
                p1
            };
            if dist2(p1, p2) > 160000 || dist2(p1, p3) > 160000 {
                Some((p1, p1, p1))
            } else {
                Some((p1, p2, p3))
            }
        } else {
            Some((p1, p1, p1))
        }
    }
}

/// How an output pixel samples the input. Write `own`, `right` and `lower`
/// for the points that the coordinate map encodes at the pixel and at its
/// right and lower neighbours (x from red and the low nibble of blue, y from
/// green and the high nibble, each less 2048). The pixel samples iff the
/// selection map gives it to `layer` and the map's alpha there is above 25;
/// it then samples `own` first. Inside the frame, with both neighbours
/// active (alpha above 127) and on the same layer, it spans `own`, `right`
/// and `lower`, unless either neighbour lies more than 400 from `own` (a
/// seam), when all three are `own`. In every other case all three are `own`.
/// So the sampled area never spans more than 400 in either direction.
pub proof fn law_sample_points(
    map1: RgbaFrame,
    map2: RgbaFrame,
    x: int,
    y: int,
    map_y: int,
    w: int,
    h: int,
    layer: int,
)
    ensures
        ({
            let r = sample_points(map1, map2, x, y, map_y, w, h, layer);
            let own = (
                map1.at(x, map_y, 0) as int + 256 * (map1.at(x, map_y, 2) as int % 16) - 2048,
                map1.at(x, map_y, 1) as int + 256 * (map1.at(x, map_y, 2) as int / 16) - 2048,
            );
            let right = (
                map1.at(x + 1, map_y, 0) as int + 256 * (map1.at(x + 1, map_y, 2) as int % 16) - 2048,
                map1.at(x + 1, map_y, 1) as int + 256 * (map1.at(x + 1, map_y, 2) as int / 16) - 2048,
            );
            let lower = (
                map1.at(x, map_y + 1, 0) as int + 256 * (map1.at(x, map_y + 1, 2) as int % 16) - 2048,
                map1.at(x, map_y + 1, 1) as int + 256 * (map1.at(x, map_y + 1, 2) as int / 16) - 2048,
            );
            let spans = x < w - 1 && y < h - 1 && map1.at(x + 1, map_y, 3) > 127 && map1.at(x, map_y + 1, 3) > 127
                && map2.at(x + 1, map_y, 0) == layer && map2.at(x, map_y + 1, 0) == layer;
            let far_right = (own.0 - right.0) * (own.0 - right.0) + (own.1 - right.1) * (own.1 - right.1) > 400 * 400;
            let far_lower = (own.0 - lower.0) * (own.0 - lower.0) + (own.1 - lower.1) * (own.1 - lower.1) > 400 * 400;
            &&& (r is Some <==> (map2.at(x, map_y, 0) == layer && map1.at(x, map_y, 3) > 25))
            &&& (r matches Some(t) ==> t.0 == own)
            &&& (r matches Some(t) ==> (spans && !far_right && !far_lower ==> t.1 == right && t.2 == lower))
            &&& (r matches Some(t) ==> (spans && (far_right || far_lower) ==> t.1 == own && t.2 == own))
            &&& (r matches Some(t) ==> (!spans ==> t.1 == own && t.2 == own))
            &&& (r matches Some(t) ==> (t.0.0 - t.1.0) * (t.0.0 - t.1.0) + (t.0.1 - t.1.1) * (t.0.1 - t.1.1) <= 400 * 400
                && (t.0.0 - t.2.0) * (t.0.0 - t.2.0) + (t.0.1 - t.2.1) * (t.0.1 - t.2.1) <= 400 * 400)
        }),
{
}

/// The sample points of output pixel `(x, y)` (see `sample_points`), as
/// `(x1, y1, x12, y12, x13, y13)`.
pub fn mapped_points(
    map1: &RgbaFrame,
    map2: &RgbaFrame,
    x: u32,
    y: u32,
    map_y: u32,
    w: u32,
    h: u32,
    layer: u8,
) -> (r: Option<(i32, i32, i32, i32, i32, i32)>)
    requires
        x < map1.w(),
        x < map2.w(),
        map_y < map1.h(),
        map_y < map2.h(),
        x + 1 < w && y + 1 < h ==> x + 1 < map1.w() && x + 1 < map2.w() && map_y + 1 < map1.h() && map_y + 1
            < map2.h(),
    ensures
        match sample_points(*map1, *map2, x as int, y as int, map_y as int, w as int, h as int, layer as int) {
            None => r is None,
            Some(t) => r matches Some(v) && v.0 == t.0.0 && v.1 == t.0.1 && v.2 == t.1.0 && v.3 == t.1.1 && v.4
                == t.2.0 && v.5 == t.2.1,
        },
{
    let sel = map2.get_pixel(x, map_y);
    let act = map1.get_pixel(x, map_y);
    if sel[0] != layer || act[3] <= 25 {
        return None;
    }
    let (x1, y1) = decode_point(map1, x, map_y);
    let mut x12: i32 = x1;
    let mut y12: i32 = y1;
    let mut x13: i32 = x1;
    let mut y13: i32 = y1;
    let _mh: u32 = map1.height();
    let _mw: u32 = map1.width();
    if (x as u64) + 1 < w as u64 && (y as u64) + 1 < h as u64 {
        let mdx = map1.get_pixel(x + 1, map_y);
        let mdy = map1.get_pixel(x, map_y + 1);
        if mdx[3] > 127 && mdy[3] > 127 {
            let idx2 = map2.get_pixel(x + 1, map_y);
            let idx3 = map2.get_pixel(x, map_y + 1);
            if idx2[0] == layer && idx3[0] == layer {
                let (a, b) = decode_point(map1, x + 1, map_y);
                x12 = a;
                y12 = b;
                let (c, d) = decode_point(map1, x, map_y + 1);
                x13 = c;
                y13 = d;
            }
            let dax: i32 = x1 - x12;
            let day: i32 = y1 - y12;
            let dbx: i32 = x1 - x13;
            let dby: i32 = y1 - y13;
            assert(0 <= dax * dax <= 16777216 && 0 <= day * day <= 16777216 && 0 <= dbx * dbx <= 16777216 && 0
                <= dby * dby <= 16777216) by (nonlinear_arith)
                requires
                    -4096 <= dax <= 4096,
                    -4096 <= day <= 4096,
                    -4096 <= dbx <= 4096,
                    -4096 <= dby <= 4096,
            ;
            if dax * dax + day * day > 160000 || dbx * dbx + dby * dby > 160000 {
                x12 = x1;
                y12 = y1;
                x13 = x1;
                y13 = y1;
            }
        }
    }
    Some((x1, y1, x12, y12, x13, y13))
}

// ---------------------------------------------------------------------------
// Edge smoothing
// ---------------------------------------------------------------------------

/// Neighbour `(x, y)` takes part in smoothing: the selection map does not
/// mark it as an edge (channel 2 below 127).
pub open spec fn smooth_source(sel: RgbaFrame, x: int, y: int) -> bool {
    sel.at(x, y, 2) < 127
}

/// Channel `c` of neighbour `(x, y)` if it takes part, else nothing.
pub open spec fn smooth_term(pre: RgbaFrame, sel: RgbaFrame, x: int, y: int, c: int) -> (int, int) {
    if smooth_source(sel, x, y) {
        (pre.at(x, y, c) as int, 1)
    } else {
        (0, 0)
    }
}

/// Sum of channel `c` over the taking part neighbours of `(x, y)` among
/// left, right, up and down, and their number.
pub open spec fn smooth_total(pre: RgbaFrame, sel: RgbaFrame, x: int, y: int, c: int) -> (int, int) {
    let l = smooth_term(pre, sel, x - 1, y, c);
    let r = smooth_term(pre, sel, x + 1, y, c);
    let u = smooth_term(pre, sel, x, y - 1, c);
    let d = smooth_term(pre, sel, x, y + 1, c);
    (l.0 + r.0 + u.0 + d.0, l.1 + r.1 + u.1 + d.1)
}

/// Channel `c` of pixel `(x, y)` after smoothing `pre`: an interior pixel
/// that the selection map marks (channel 2 nonzero) takes, for red, green
/// and blue, the mean (rounded down) over its taking part neighbours, if it
/// has any; everything else is kept.
pub open spec fn smoothed(pre: RgbaFrame, sel: RgbaFrame, x: int, y: int, c: int) -> int {
    let t = smooth_total(pre, sel, x, y, c);
    if c < 3 && 0 < x < pre.w() - 1 && 0 < y < pre.h() - 1 && sel.at(x, y, 2) > 0 && t.1 > 0 {
        t.0 / t.1
    } else {
        pre.at(x, y, c) as int
    }
}

/// Smoothing a pixel: a marked interior pixel (selection channel 2 above 0)
/// with at least one unmarked neighbour (selection channel 2 below 127)
/// among left, right, up and down gets, in each of red, green and blue, the
/// mean of that same channel over those neighbours in the frame before
/// smoothing, rounded down. Its alpha, and every other pixel, is kept.
pub proof fn law_smoothing_mean(pre: RgbaFrame, sel: RgbaFrame, x: int, y: int, c: int)
    requires
        0 <= x < pre.w(),
        0 <= y < pre.h(),
        0 <= c < 4,
    ensures
        ({
            let uses_l = sel.at(x - 1, y, 2) < 127;
            let uses_r = sel.at(x + 1, y, 2) < 127;
            let uses_u = sel.at(x, y - 1, 2) < 127;
            let uses_d = sel.at(x, y + 1, 2) < 127;
            let count = (if uses_l { 1int } else { 0 }) + (if uses_r { 1int } else { 0 }) + (if uses_u { 1int } else { 0 })
                + (if uses_d { 1int } else { 0 });
            let sum = (if uses_l { pre.at(x - 1, y, c) as int } else { 0 }) + (if uses_r { pre.at(x + 1, y, c) as int } else { 0 })
                + (if uses_u { pre.at(x, y - 1, c) as int } else { 0 }) + (if uses_d { pre.at(x, y + 1, c) as int } else { 0 });
            let changes = c < 3 && 0 < x < pre.w() - 1 && 0 < y < pre.h() - 1 && sel.at(x, y, 2) > 0 && count > 0;
            &&& (changes ==> smoothed(pre, sel, x, y, c) == sum / count)
            &&& (!changes ==> smoothed(pre, sel, x, y, c) == pre.at(x, y, c) as int)
        }),
{
}

/// Smoothing keeps a colour that all the neighbours taking part agree on:
/// if every unmarked neighbour of a pixel has `v` in channel `c` before
/// smoothing, the pixel has `v` there after it, or keeps its own value.
pub proof fn law_smoothing_uniform(pre: RgbaFrame, sel: RgbaFrame, x: int, y: int, c: int, v: int)
    requires
        0 <= x < pre.w(),
        0 <= y < pre.h(),
        0 <= c < 4,
        sel.at(x - 1, y, 2) < 127 ==> pre.at(x - 1, y, c) == v,
        sel.at(x + 1, y, 2) < 127 ==> pre.at(x + 1, y, c) == v,
        sel.at(x, y - 1, 2) < 127 ==> pre.at(x, y - 1, c) == v,
        sel.at(x, y + 1, 2) < 127 ==> pre.at(x, y + 1, c) == v,
    ensures
        smoothed(pre, sel, x, y, c) == v || smoothed(pre, sel, x, y, c) == pre.at(x, y, c) as int,
        sel.at(x, y, 2) > 0 && 0 < x < pre.w() - 1 && 0 < y < pre.h() - 1 && c < 3 && (sel.at(x - 1, y, 2) < 127
            || sel.at(x + 1, y, 2) < 127 || sel.at(x, y - 1, 2) < 127 || sel.at(x, y + 1, 2) < 127) ==> smoothed(
            pre,
            sel,
            x,
            y,
            c,
        ) == v,
{
    law_smoothing_mean(pre, sel, x, y, c);
    let t = smooth_total(pre, sel, x, y, c);
    if t.1 > 0 {
        let l = smooth_term(pre, sel, x - 1, y, c);
        let r = smooth_term(pre, sel, x + 1, y, c);
        let u = smooth_term(pre, sel, x, y - 1, c);
        let d = smooth_term(pre, sel, x, y + 1, c);
        assert(l.0 == l.1 * v && r.0 == r.1 * v && u.0 == u.1 * v && d.0 == d.1 * v);
        assert(l.0 + r.0 + u.0 + d.0 == (l.1 + r.1 + u.1 + d.1) * v) by (nonlinear_arith)
            requires
                l.0 == l.1 * v && r.0 == r.1 * v && u.0 == u.1 * v && d.0 == d.1 * v,
        ;
        assert(t.0 == t.1 * v);
        assert((t.1 * v) / t.1 == v) by (nonlinear_arith)
            requires
                t.1 > 0,
        ;
    }
}

/// Pixel `(px, py)` comes before `(x, y)` in row-major order.
pub open spec fn scanned_before(px: int, py: int, x: int, y: int) -> bool {
    py < y || (py == y && px < x)
}

/// What neighbour `(x, y)` adds to the smoothing sums: its red, green and
/// blue and a count of one if it takes part, else nothing.
fn smooth_term_of(pre: &RgbaFrame, sel: &RgbaFrame, x: u32, y: u32) -> (r: ([u32; 3], u32))
    requires
        x < pre.w(),
        y < pre.h(),
        pre.w() <= sel.w(),
        pre.h() <= sel.h(),
    ensures
        forall|c: int| 0 <= c < 3 ==> r.0[c] as int == #[trigger] smooth_term(*pre, *sel, x as int, y as int, c).0,
        forall|c: int| 0 <= c < 3 ==> r.1 as int == #[trigger] smooth_term(*pre, *sel, x as int, y as int, c).1,
        r.1 <= 1,
        forall|c: int| 0 <= c < 3 ==> #[trigger] r.0[c] <= 255 * r.1,
{
    let idx = sel.get_pixel(x, y);
    if idx[2] < 127 {
        let back = pre.get_pixel(x, y);
        ([back[0] as u32, back[1] as u32, back[2] as u32], 1)
    } else {
        ([0, 0, 0], 0)
    }
}

/// The smoothed value of pixel `(x, y)` of `pre` when smoothing changes it
/// (see `smoothed`), else `None`.
fn smoothed_pixel(pre: &RgbaFrame, sel: &RgbaFrame, x: u32, y: u32) -> (r: Option<[u8; 4]>)
    requires
        x < pre.w(),
        y < pre.h(),
        pre.w() <= sel.w(),
        pre.h() <= sel.h(),
    ensures
        r is None ==> forall|c: int| 0 <= c < 4 ==> #[trigger] smoothed(*pre, *sel, x as int, y as int, c) == pre.at(
            x as int,
            y as int,
            c,
        ),
        r matches Some(p) ==> forall|c: int| 0 <= c < 4 ==> p[c] as int == #[trigger] smoothed(*pre, *sel, x as int, y as int, c),
{
    let w: u32 = pre.width();
    let h: u32 = pre.height();
    let sel_pixel = sel.get_pixel(x, y);
    if sel_pixel[2] > 0 && x > 0 && y > 0 && x < w - 1 && y < h - 1 {
        let (t1, n1) = smooth_term_of(pre, sel, x - 1, y);
        let (t2, n2) = smooth_term_of(pre, sel, x + 1, y);
        let (t3, n3) = smooth_term_of(pre, sel, x, y - 1);
        let (t4, n4) = smooth_term_of(pre, sel, x, y + 1);
        let total: [u32; 3] = [
            t1[0] + t2[0] + t3[0] + t4[0],
            t1[1] + t2[1] + t3[1] + t4[1],
            t1[2] + t2[2] + t3[2] + t4[2],
        ];
        let ct: u32 = n1 + n2 + n3 + n4;
        if ct > 0 {
            proof {
                assert forall|c: int| 0 <= c < 3 implies total[c] as int == #[trigger] smooth_total(
                    *pre,
                    *sel,
                    x as int,
                    y as int,
                    c,
                ).0 && ct == smooth_total(*pre, *sel, x as int, y as int, c).1 && (total[c] as int) / (ct as int) <= 255 by {
                    assert(total[c] <= 255 * ct);
                    assert((total[c] as int) / (ct as int) <= 255) by (nonlinear_arith)
                        requires
                            0 <= total[c] <= 255 * ct,
                            ct > 0,
                    ;
                }
            }
            let cur = pre.get_pixel(x, y);
            let r: u8 = (total[0] / ct) as u8;
            let g: u8 = (total[1] / ct) as u8;
            let b: u8 = (total[2] / ct) as u8;
            return Some([r, g, b, cur[3]]);
        } else {
            proof {
                assert(forall|c: int| 0 <= c < 3 ==> #[trigger] smooth_total(*pre, *sel, x as int, y as int, c).1 == 0);
            }
        }
    }
    None
}

/// Smooths the marked edges of `out` (see `smoothed`), reading every
/// neighbour from the frame as it was before. The mean is that of the
/// neighbours' byte values; dividing the integer sum equals dividing it in
/// floating point and truncating, as sums stay below 1024.
pub fn smooth_edges(out: &mut RgbaFrame, sel: &RgbaFrame)
    requires
        old(out).w() <= sel.w(),
        old(out).h() <= sel.h(),
    ensures
        final(out).w() == old(out).w(),
        final(out).h() == old(out).h(),
        forall|x: int, y: int, c: int|
            0 <= x < old(out).w() && 0 <= y < old(out).h() && 0 <= c < 4 ==> #[trigger] final(out).at(x, y, c) as int
                == smoothed(*old(out), *sel, x, y, c),
{
    let pre = out.clone();
    let w: u32 = out.width();
    let h: u32 = out.height();
    let mut y: u32 = 0;
    while y < h
        invariant
            w == pre.w(),
            h == pre.h(),
            pre.w() <= sel.w(),
            pre.h() <= sel.h(),
            out.w() == pre.w(),
            out.h() == pre.h(),
            y <= h,
            forall|px: int, py: int, c: int|
                0 <= px < pre.w() && 0 <= py < pre.h() && 0 <= c < 4 ==> #[trigger] out.at(px, py, c) as int == if py
                    < y {
                    smoothed(pre, *sel, px, py, c)
                } else {
                    pre.at(px, py, c) as int
                },
        decreases h - y,
    {
        let mut x: u32 = 0;
        while x < w
            invariant
                w == pre.w(),
                h == pre.h(),
                pre.w() <= sel.w(),
                pre.h() <= sel.h(),
                out.w() == pre.w(),
                out.h() == pre.h(),
                y < h,
                x <= w,
                forall|px: int, py: int, c: int|
                    0 <= px < pre.w() && 0 <= py < pre.h() && 0 <= c < 4 ==> #[trigger] out.at(px, py, c) as int == if scanned_before(
                        px,
                        py,
                        x as int,
                        y as int,
                    ) {
                        smoothed(pre, *sel, px, py, c)
                    } else {
                        pre.at(px, py, c) as int
                    },
            decreases w - x,
        {
            match smoothed_pixel(&pre, sel, x, y) {
                Some(p) => {
                    let _ow: u32 = out.width();
                    let ghost before = *out;
                    out.put_pixel(x, y, p);
                    proof {
                        assert forall|px: int, py: int, c: int|
                            0 <= px < pre.w() && 0 <= py < pre.h() && 0 <= c < 4 implies #[trigger] out.at(px, py, c) as int
                            == if scanned_before(px, py, x + 1, y as int) {
                            smoothed(pre, *sel, px, py, c)
                        } else {
                            pre.at(px, py, c) as int
                        } by {
                            lemma_same_pixel(*out, before, x as int, y as int, px, py, c);
                            if px == x && py == y {
                                crate::frame::lemma_pixel_in_bounds(pre.w() as int, pre.h() as int, x as int, y as int);
                                let bk = crate::frame::byte_index(pre.w() as int, x as int, y as int, 0);
                                assert(out.at(px, py, c) == out.bytes()[bk + c]);
                            }
                        }
                    }
                },
                None => {},
            }
            x = x + 1;
        }
        y = y + 1;
    }
}

/// After `put_pixel` at `(x, y)`, channel `c` of any other pixel is kept and
/// of `(x, y)` is the one written.
proof fn lemma_same_pixel(after: RgbaFrame, before: RgbaFrame, x: int, y: int, px: int, py: int, c: int)
    requires
        before.sized(),
        after.w() == before.w(),
        after.h() == before.h(),
        after.bytes().len() == before.bytes().len(),
        0 <= x < before.w(),
        0 <= y < before.h(),
        0 <= px < before.w(),
        0 <= py < before.h(),
        0 <= c < 4,
        forall|i: int|
            0 <= i < before.bytes().len() ==> after.bytes()[i] == (if crate::frame::byte_index(before.w() as int, x, y, 0)
                <= i < crate::frame::byte_index(before.w() as int, x, y, 4) {
                after.bytes()[i]
            } else {
                before.bytes()[i]
            }),
    ensures
        (px != x || py != y) ==> after.at(px, py, c) == before.at(px, py, c),
{
    let w = before.w() as int;
    crate::frame::lemma_pixel_in_bounds(w, before.h() as int, px, py);
    crate::frame::lemma_pixel_in_bounds(w, before.h() as int, x, y);
    if px != x || py != y {
        let bi = crate::frame::byte_index(w, px, py, c);
        let bk = crate::frame::byte_index(w, x, y, 0);
        assert(bi < bk || bi >= bk + 4) by (nonlinear_arith)
            requires
                bi == (py * w + px) * 4 + c,
                bk == (y * w + x) * 4,
                0 <= c < 4,
                0 <= px < w,
                0 <= x < w,
                px != x || py != y,
        ;
    }
}

/// Whether the maps of `mapping` line up with its neutral frame so that the
/// input can be composited and edges smoothed: the coordinate map at least as
/// wide as the lit frame, and both maps as wide as the neutral frame.
pub open spec fn maps_aligned(mapping: Mapping) -> bool {
    mapping.map1.w() >= mapping.light.w() && mapping.map1.w() == mapping.neutral.w() && mapping.map2.w()
        == mapping.neutral.w()
}

/// The smoothing pass over a rendered frame `out` of `mapping`: when the
/// maps line up (see `maps_aligned`), the marked edges are smoothed (see
/// `smooth_edges`); otherwise the frame is kept.
pub fn post_process(out: &mut RgbaFrame, mapping: &Mapping)
    requires
        maps_aligned(*mapping) ==> old(out).w() <= mapping.map2.w() && old(out).h() <= mapping.map2.h(),
    ensures
        final(out).w() == old(out).w(),
        final(out).h() == old(out).h(),
        !maps_aligned(*mapping) ==> final(out).bytes() == old(out).bytes(),
        maps_aligned(*mapping) ==> forall|x: int, y: int, c: int|
            0 <= x < old(out).w() && 0 <= y < old(out).h() && 0 <= c < 4 ==> #[trigger] final(out).at(x, y, c) as int
                == smoothed(*old(out), mapping.map2, x, y, c),
{
    if mapping.map1.width() < mapping.light.width() {
        return;
    }
    if mapping.map1.width() != mapping.neutral.width() {
        return;
    }
    if mapping.map2.width() != mapping.neutral.width() {
        return;
    }
    smooth_edges(out, &mapping.map2);
}

// ---------------------------------------------------------------------------
// Fitting to a requested size
// ---------------------------------------------------------------------------

/// Channel `c` of pixel `(px, py)` of `src` fitted into a `w` by `h` canvas:
/// the area from `(xo, yo)` spanning `xs.len()` by `ys.len()` pixels shows
/// the source pixel `(xs[dx], ys[dy])` (clamped to the source) for its
/// offset `(dx, dy)`; the rest is white. Every pixel is opaque.
pub open spec fn letterboxed(src: RgbaFrame, xo: int, yo: int, xs: Seq<u32>, ys: Seq<u32>, px: int, py: int, c: int) -> int {
    if c == 3 {
        255
    } else if xo <= px < xo + xs.len() && yo <= py < yo + ys.len() {
        let sx = if xs[px - xo] < src.w() - 1 {
            xs[px - xo] as int
        } else {
            src.w() - 1
        };
        let sy = if ys[py - yo] < src.h() - 1 {
            ys[py - yo] as int
        } else {
            src.h() - 1
        };
        src.at(sx, sy, c) as int
    } else {
        255
    }
}

/// Fitting a frame: inside the fitted area, the output pixel at offset
/// `(dx, dy)` from `(xo, yo)` shows, in red, green and blue, source pixel
/// `(xs[dx], ys[dy])`, each coordinate clamped to the last column or row of
/// the source; outside it the output is white; every output pixel is opaque.
pub proof fn law_letterbox(src: RgbaFrame, xo: int, yo: int, xs: Seq<u32>, ys: Seq<u32>, px: int, py: int, c: int)
    requires
        0 <= c < 4,
    ensures
        c == 3 ==> letterboxed(src, xo, yo, xs, ys, px, py, c) == 255,
        c < 3 && !(xo <= px < xo + xs.len() && yo <= py < yo + ys.len()) ==> letterboxed(src, xo, yo, xs, ys, px, py, c)
            == 255,
        c < 3 && xo <= px < xo + xs.len() && yo <= py < yo + ys.len() ==> letterboxed(src, xo, yo, xs, ys, px, py, c)
            == src.at(
            if xs[px - xo] as int >= src.w() { src.w() - 1 } else { xs[px - xo] as int },
            if ys[py - yo] as int >= src.h() { src.h() - 1 } else { ys[py - yo] as int },
            c,
        ) as int,
{
}

/// Before the alpha is made opaque: channel `c` of pixel `(px, py)` once
/// the offsets scanned before `(dx, dy)` have been copied.
spec fn letterbox_partial(
    src: RgbaFrame,
    xo: int,
    yo: int,
    xs: Seq<u32>,
    ys: Seq<u32>,
    dx: int,
    dy: int,
    px: int,
    py: int,
    c: int,
) -> int {
    if xo <= px < xo + xs.len() && yo <= py < yo + ys.len() && scanned_before(px - xo, py - yo, dx, dy) {
        if c == 3 {
            src.at(
                if xs[px - xo] < src.w() - 1 {
                    xs[px - xo] as int
                } else {
                    src.w() - 1
                },
                if ys[py - yo] < src.h() - 1 {
                    ys[py - yo] as int
                } else {
                    src.h() - 1
                },
                3,
            ) as int
        } else {
            letterboxed(src, xo, yo, xs, ys, px, py, c)
        }
    } else if c == 3 {
        0
    } else {
        255
    }
}

/// `src` fitted into a `w` by `h` canvas (see `letterboxed`); `xs` and `ys`
/// give the source column of each output column and the source row of each
/// output row of the fitted area.
pub fn letterbox(src: &RgbaFrame, w: u32, h: u32, xo: u32, yo: u32, xs: &Vec<u32>, ys: &Vec<u32>) -> (r: RgbaFrame)
    requires
        src.w() >= 1,
        src.h() >= 1,
        xo + xs@.len() <= w,
        yo + ys@.len() <= h,
        w * h * 4 <= usize::MAX,
    ensures
        r.w() == w,
        r.h() == h,
        forall|px: int, py: int, c: int|
            0 <= px < w && 0 <= py < h && 0 <= c < 4 ==> #[trigger] r.at(px, py, c) as int == letterboxed(
                *src,
                xo as int,
                yo as int,
                xs@,
                ys@,
                px,
                py,
                c,
            ),
{
    let mut scaled = RgbaFrame::from_pixel(w, h, [255, 255, 255, 0]);
    let sw: u32 = src.width();
    let sh: u32 = src.height();
    let wo: usize = xs.len();
    let ho: usize = ys.len();
    proof {
        assert forall|px: int, py: int, c: int| 0 <= px < w && 0 <= py < h && 0 <= c < 4 implies #[trigger] scaled.at(
            px,
            py,
            c,
        ) as int == letterbox_partial(*src, xo as int, yo as int, xs@, ys@, 0, 0, px, py, c) by {
            crate::frame::lemma_pixel_in_bounds(w as int, h as int, px, py);
            assert(crate::frame::byte_index(w as int, px, py, c) % 4 == c);
        }
    }
    let mut dy: usize = 0;
    while dy < ho
        invariant
            scaled.w() == w,
            scaled.h() == h,
            scaled.sized(),
            sw == src.w(),
            sh == src.h(),
            sw >= 1,
            sh >= 1,
            wo == xs@.len(),
            ho == ys@.len(),
            xo + wo <= w,
            yo + ho <= h,
            dy <= ho,
            forall|px: int, py: int, c: int|
                0 <= px < w && 0 <= py < h && 0 <= c < 4 ==> #[trigger] scaled.at(px, py, c) as int == letterbox_partial(
                    *src,
                    xo as int,
                    yo as int,
                    xs@,
                    ys@,
                    0,
                    dy as int,
                    px,
                    py,
                    c,
                ),
        decreases ho - dy,
    {
        let mut dx: usize = 0;
        while dx < wo
            invariant
                scaled.w() == w,
                scaled.h() == h,
                scaled.sized(),
                sw == src.w(),
                sh == src.h(),
                sw >= 1,
                sh >= 1,
                wo == xs@.len(),
                ho == ys@.len(),
                xo + wo <= w,
                yo + ho <= h,
                dy < ho,
                dx <= wo,
                forall|px: int, py: int, c: int|
                    0 <= px < w && 0 <= py < h && 0 <= c < 4 ==> #[trigger] scaled.at(px, py, c) as int == letterbox_partial(
                        *src,
                        xo as int,
                        yo as int,
                        xs@,
                        ys@,
                        dx as int,
                        dy as int,
                        px,
                        py,
                        c,
                    ),
            decreases wo - dx,
        {
            let sx: u32 = if xs[dx] < sw - 1 {
                xs[dx]
            } else {
                sw - 1
            };
            let sy: u32 = if ys[dy] < sh - 1 {
                ys[dy]
            } else {
                sh - 1
            };
            let pixel = src.get_pixel(sx, sy);
            let tx: u32 = xo + dx as u32;
            let ty: u32 = yo + dy as u32;
            let ghost before = scaled;
            scaled.put_pixel(tx, ty, pixel);
            proof {
                assert forall|px: int, py: int, c: int| 0 <= px < w && 0 <= py < h && 0 <= c < 4 implies #[trigger] scaled.at(
                    px,
                    py,
                    c,
                ) as int == letterbox_partial(*src, xo as int, yo as int, xs@, ys@, dx + 1, dy as int, px, py, c) by {
                    lemma_same_pixel(scaled, before, tx as int, ty as int, px, py, c);
                    if px == tx && py == ty {
                        crate::frame::lemma_pixel_in_bounds(w as int, h as int, px, py);
                        let bk = crate::frame::byte_index(w as int, px, py, 0);
                        assert(scaled.at(px, py, c) == scaled.bytes()[bk + c]);
                    }
                }
            }
            dx = dx + 1;
        }
        proof {
            assert forall|px: int, py: int, c: int| 0 <= px < w && 0 <= py < h && 0 <= c < 4 implies #[trigger] scaled.at(
                px,
                py,
                c,
            ) as int == letterbox_partial(*src, xo as int, yo as int, xs@, ys@, 0, dy + 1, px, py, c) by {
                assert(letterbox_partial(*src, xo as int, yo as int, xs@, ys@, wo as int, dy as int, px, py, c)
                    == letterbox_partial(*src, xo as int, yo as int, xs@, ys@, 0, dy + 1, px, py, c));
            }
        }
        dy = dy + 1;
    }
    let ghost before = scaled;
    scaled.make_opaque();
    proof {
        assert forall|px: int, py: int, c: int| 0 <= px < w && 0 <= py < h && 0 <= c < 4 implies #[trigger] scaled.at(
            px,
            py,
            c,
        ) as int == letterboxed(*src, xo as int, yo as int, xs@, ys@, px, py, c) by {
            crate::frame::lemma_pixel_in_bounds(w as int, h as int, px, py);
            let bi = crate::frame::byte_index(w as int, px, py, c);
            assert(bi % 4 == c);
            assert(scaled.at(px, py, c) == scaled.bytes()[bi]);
            assert(before.at(px, py, c) == before.bytes()[bi]);
        }
    }
    scaled
}

// ---------------------------------------------------------------------------
// Pixels that guide automatic placement
// ---------------------------------------------------------------------------

/// `|a - b|` of two bytes.
pub open spec fn byte_gap(a: u8, b: u8) -> int {
    if a >= b {
        a - b
    } else {
        b - a
    }
}

/// A template pixel that shows some input (selection channel 0 nonzero,
/// active in the coordinate map) and whose lit and dark versions are both
/// fairly opaque (alpha above 100) and differ by more than 5 in some colour
/// channel: where the input would visibly show.
pub fn is_cloud_pixel(light: [u8; 4], dark: [u8; 4], map: [u8; 4], sel: [u8; 4]) -> (r: bool)
    ensures
        r == (sel[0] != 0 && map[3] > 25 && (byte_gap(light[0], dark[0]) > 5 || byte_gap(light[1], dark[1]) > 5
            || byte_gap(light[2], dark[2]) > 5) && dark[3] > 100 && light[3] > 100),
{
    if sel[0] != 0 && map[3] as i32 > 25 {
        let del: i32 = 5;
        let r_diff: i32 = light[0] as i32 - dark[0] as i32;
        let g_diff: i32 = light[1] as i32 - dark[1] as i32;
        let b_diff: i32 = light[2] as i32 - dark[2] as i32;
        let r_abs: i32 = if r_diff < 0 { -r_diff } else { r_diff };
        let g_abs: i32 = if g_diff < 0 { -g_diff } else { g_diff };
        let b_abs: i32 = if b_diff < 0 { -b_diff } else { b_diff };
        (r_abs > del || g_abs > del || b_abs > del) && dark[3] > 100 && light[3] > 100
    } else {
        false
    }
}

/// An input pixel that counts as content: not nearly transparent (alpha
/// above 25) and not near white (some colour channel below 250).
pub fn is_active(pixel: [u8; 4]) -> (r: bool)
    ensures
        r == (pixel[3] > 25 && (pixel[0] < 250 || pixel[1] < 250 || pixel[2] < 250)),
{
    pixel[3] > 25 && (pixel[0] < 250 || pixel[1] < 250 || pixel[2] < 250)
}

} // verus!
