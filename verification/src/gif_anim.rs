//! Planning and encoding of animated GIFs.
//!
//! The frames are quantized against one palette; consecutive frames whose
//! palette indices do not change are merged into one GIF frame whose delay
//! covers them all.
use vstd::prelude::*;
use crate::error::Error;
use crate::frame::RgbaFrame;
use crate::quantize::Palette;

verus! {

// ---------------------------------------------------------------------------
// The gif crate's encoder
// ---------------------------------------------------------------------------

/// A `gif::Encoder` writing into a vector, held as an opaque value: the
/// encoder's writer parameter is bound by `std::io::Write`, so the encoder
/// type cannot be declared on its own.
#[verifier::external_body]
pub struct GifWriter {
    encoder: gif::Encoder<Vec<u8>>,
}

/// The bytes that the encoder of `w` has written into its vector so far.
pub uninterp spec fn gif_written(w: GifWriter) -> Seq<u8>;

/// Size field of a GIF colour table of `n` colours: the table is padded
/// to `2^(k + 1)` colours for the smallest such `k` (at most 7).
pub open spec fn gif_table_bits(n: int) -> int {
    if n <= 2 {
        0
    } else if n <= 4 {
        1
    } else if n <= 8 {
        2
    } else if n <= 16 {
        3
    } else if n <= 32 {
        4
    } else if n <= 64 {
        5
    } else if n <= 128 {
        6
    } else {
        7
    }
}

/// Number of colours a GIF colour table of `n` colours is padded to.
pub open spec fn gif_table_slots(n: int) -> int {
    if n <= 2 {
        2
    } else if n <= 4 {
        4
    } else if n <= 8 {
        8
    } else if n <= 16 {
        16
    } else if n <= 32 {
        32
    } else if n <= 64 {
        64
    } else if n <= 128 {
        128
    } else {
        256
    }
}

/// What `gif::Encoder::new` writes first: the `GIF89a` signature, the
/// logical screen descriptor (canvas size little-endian, the global table
/// flag with the table size, background 0, aspect 0), then the whole
/// colours of `table` as the global colour table, padded with black to its
/// size.
pub open spec fn gif_header(width: u16, height: u16, table: Seq<u8>) -> Seq<u8> {
    let n: int = table.len() as int / 3;
    let k = gif_table_bits(n);
    seq![
        0x47u8, 0x49u8, 0x46u8, 0x38u8, 0x39u8, 0x61u8,
        (width % 256) as u8, (width / 256) as u8, (height % 256) as u8, (height / 256) as u8,
        (0x80 + 16 * k + k) as u8, 0u8, 0u8,
    ] + table.take(3 * n) + Seq::new((3 * (gif_table_slots(n) - n)) as nat, |i: int| 0u8)
}

/// What `gif::Encoder::write_frame` writes for a full-canvas frame of palette
/// indices `data`, `width` by `height`, kept on screen until replaced, without
/// local palette or transparency, shown for `delay` hundredths of a second:
/// its graphic control extension, image descriptor and LZW-compressed data.
pub uninterp spec fn gif_frame_block(data: Seq<u8>, width: u16, height: u16, delay: u16) -> Seq<u8>;

/// The application extension that makes a GIF loop forever
/// (`NETSCAPE2.0`, repeat count 0).
pub open spec fn gif_loop_block() -> Seq<u8> {
    seq![
        0x21u8, 0xFFu8, 0x0Bu8,
        0x4Eu8, 0x45u8, 0x54u8, 0x53u8, 0x43u8, 0x41u8, 0x50u8, 0x45u8, 0x32u8, 0x2Eu8, 0x30u8,
        0x03u8, 0x01u8, 0x00u8, 0x00u8, 0x00u8,
    ]
}

/// The GIF trailer byte.
pub open spec fn gif_trailer() -> Seq<u8> {
    seq![0x3Bu8]
}

/// `gif::EncodingError`, carried through as an opaque value.
#[verifier::external_type_specification]
#[verifier::external_body]
pub struct ExGifEncodingError(gif::EncodingError);

/// `std::io::Error`, carried through as an opaque value.
#[verifier::external_type_specification]
#[verifier::external_body]
pub struct ExIoError(std::io::Error);

/// `gif::Encoder::new` writing into a fresh `Vec<u8>`: writes the header,
/// the screen descriptor and `table` as the global colour table. It fails
/// exactly when the table holds more than 256 colours (writing to a vector
/// cannot fail).
#[verifier::external_body]
fn gif_encoder_new(width: u16, height: u16, table: &[u8]) -> (r: Result<GifWriter, gif::EncodingError>)
    ensures
        r is Ok <==> table@.len() / 3 <= 256,
        r matches Ok(w) ==> gif_written(w) == gif_header(width, height, table@),
{
    gif::Encoder::new(Vec::new(), width, height, table).map(|encoder| GifWriter { encoder })
}

/// `gif::Encoder::set_repeat` with `Repeat::Infinite`: appends the looping
/// extension, which into a vector always succeeds.
#[verifier::external_body]
fn gif_set_repeat_infinite(writer: &mut GifWriter) -> (r: Result<(), gif::EncodingError>)
    ensures
        r is Ok,
        gif_written(*final(writer)) == gif_written(*old(writer)) + gif_loop_block(),
{
    writer.encoder.set_repeat(gif::Repeat::Infinite)
}

/// `gif::Encoder::write_frame` for a full-canvas frame of palette indices
/// `data` (`width` by `height`, no local palette, no transparency, kept on
/// screen until replaced) shown for `delay` hundredths of a second; on
/// success it has appended the frame's bytes. It fails when `data` holds
/// fewer than `width * height` indices, and also when memory for the
/// compressed data cannot be reserved: whether that happens depends on the
/// machine, so success is not stated, nor what was written before a failure.
/// A frame without pixels must come without indices: the encoder asserts so
/// in debug builds.
#[verifier::external_body]
fn gif_write_frame(
    writer: &mut GifWriter,
    data: &[u8],
    width: u16,
    height: u16,
    delay: u16,
) -> (r: Result<(), gif::EncodingError>)
    requires
        (width > 0 && height > 0) || data@.len() == 0,
    ensures
        data@.len() < width * height ==> r is Err,
        r is Ok ==> gif_written(*final(writer)) == gif_written(*old(writer)) + gif_frame_block(data@, width, height, delay),
{
    let frame = gif::Frame {
        delay,
        dispose: gif::DisposalMethod::Keep,
        transparent: None,
        needs_user_input: false,
        top: 0,
        left: 0,
        width,
        height,
        interlaced: false,
        palette: None,
        buffer: std::borrow::Cow::Borrowed(data),
    };
    writer.encoder.write_frame(&frame)
}

/// `gif::Encoder::into_inner`: appends the trailer and hands back the vector,
/// which always succeeds.
#[verifier::external_body]
fn gif_finish(writer: GifWriter) -> (r: Result<Vec<u8>, std::io::Error>)
    ensures
        r is Ok,
        r matches Ok(b) ==> b@ == gif_written(writer) + gif_trailer(),
{
    writer.encoder.into_inner()
}

/// The message of a `gif::EncodingError` (its `Display` text).
#[verifier::external_body]
fn encoding_error_message(e: &gif::EncodingError) -> String {
    e.to_string()
}

/// The message of a `std::io::Error` (its `Display` text).
#[verifier::external_body]
fn io_error_message(e: &std::io::Error) -> String {
    e.to_string()
}

/// `r` failed with the GIF error `m`.
pub open spec fn gif_fails_with<T>(r: Result<T, Error>, m: Seq<char>) -> bool {
    r matches Err(e) && e matches Error::GifEncode(s) && s@ == m
}

/// An error of the GIF encoder with the given message.
pub fn gif_error(message: &str) -> (e: Error)
    ensures
        e matches Error::GifEncode(m) && m@ == message@,
{
    Error::GifEncode(message.to_string())
}

/// The GIF encoder's error, as an error of this library.
fn from_encoding_error(e: gif::EncodingError) -> (r: Error)
    ensures
        r is GifEncode,
{
    Error::GifEncode(encoding_error_message(&e))
}

// ---------------------------------------------------------------------------
// Frames and blocks
// ---------------------------------------------------------------------------

/// One GIF frame: palette indices of a `width` by `height` canvas, shown for
/// `delay` hundredths of a second.
pub struct GifBlock {
    pub data: Vec<u8>,
    pub delay: u16,
    pub width: u16,
    pub height: u16,
}

/// Index of the `base`-th frame shown when playback starts at frame
/// `first_frame` and wraps around (from frame 0 when `first_frame` is
/// negative).
pub fn frame_order(base: i32, first_frame: i32, frames: i32) -> (i: i32)
    requires
        0 <= base < frames,
        first_frame < 0 || base + first_frame <= i32::MAX,
    ensures
        i == if first_frame >= 0 {
            (base + first_frame) % (frames as int)
        } else {
            base as int
        },
        0 <= i < frames,
{
    if first_frame >= 0 {
        (base + first_frame) % frames
    } else {
        base
    }
}

/// Whether two index rows differ somewhere in their common length.
pub open spec fn indices_differ(a: Seq<u8>, b: Seq<u8>) -> bool {
    exists|k: int| 0 <= k < a.len() && k < b.len() && #[trigger] a[k] != b[k]
}

/// Compares two index rows over their common length.
pub fn differs(a: &Vec<u8>, b: &Vec<u8>) -> (r: bool)
    ensures
        r == indices_differ(a@, b@),
{
    let n: usize = if a.len() < b.len() {
        a.len()
    } else {
        b.len()
    };
    let mut k: usize = 0;
    while k < n
        invariant
            n <= a@.len(),
            n <= b@.len(),
            n == a@.len() || n == b@.len(),
            k <= n,
            forall|j: int| 0 <= j < k ==> a@[j] == b@[j],
        decreases n - k,
    {
        if a[k] != b[k] {
            return true;
        }
        k = k + 1;
    }
    false
}

/// Sum of the delays of the first `k` blocks.
pub open spec fn total_delay(blocks: Seq<GifBlock>, k: nat) -> int
    decreases k,
{
    if k == 0 {
        0
    } else {
        total_delay(blocks, (k - 1) as nat) + blocks[k - 1].delay
    }
}

/// Each block's indices differ from the next block's.
pub open spec fn neighbours_differ(blocks: Seq<GifBlock>) -> bool {
    forall|j: int| 0 <= j < blocks.len() - 1 ==> indices_differ(#[trigger] blocks[j].data@, blocks[j + 1].data@)
}

/// Delays add up to a non-negative total.
proof fn lemma_total_delay_nonneg(blocks: Seq<GifBlock>, k: nat)
    requires
        k <= blocks.len(),
    ensures
        total_delay(blocks, k) >= 0,
    decreases k,
{
    if k > 0 {
        lemma_total_delay_nonneg(blocks, (k - 1) as nat);
    }
}

/// Sums of the delays of two block lists that agree on a prefix are equal.
proof fn lemma_total_delay_prefix(a: Seq<GifBlock>, b: Seq<GifBlock>, k: nat)
    requires
        k <= a.len(),
        k <= b.len(),
        forall|j: int| 0 <= j < k ==> a[j].delay == b[j].delay,
    ensures
        total_delay(a, k) == total_delay(b, k),
    decreases k,
{
    if k > 0 {
        lemma_total_delay_prefix(a, b, (k - 1) as nat);
    }
}

/// Decides which frames of an animation become GIF frames and for how long
/// each is shown. Frames are fed in playback order as palette indices; a
/// frame whose indices equal the pending frame's extends it, a changed frame
/// emits the pending frame with the delay accumulated so far. Delays are in
/// hundredths of a second and saturate at 65535.
pub struct GifTimeline {
    blocks: Vec<GifBlock>,
    prev_indices: Vec<u8>,
    step: u16,
    last_step: u16,
    step_pending: u16,
    pal_index: i32,
    frames: i32,
    width: u16,
    height: u16,
    seen: i32,
    elapsed: Ghost<int>,
    uniform: Ghost<bool>,
    row_len: Ghost<int>,
}

impl GifTimeline {
    /// The frames emitted so far.
    pub closed spec fn emitted(&self) -> Seq<GifBlock> {
        self.blocks@
    }

    /// The indices of the pending frame.
    pub closed spec fn pending(&self) -> Seq<u8> {
        self.prev_indices@
    }

    /// Delay accumulated for the pending frame.
    pub closed spec fn pending_delay(&self) -> u16 {
        self.step_pending
    }

    /// Number of frames fed so far.
    pub closed spec fn fed(&self) -> int {
        self.seen as int
    }

    /// Number of frames in the animation.
    pub closed spec fn frame_count(&self) -> int {
        self.frames as int
    }

    /// The frame quantized for the palette, whose indices are not fed again.
    pub closed spec fn palette_frame(&self) -> int {
        self.pal_index as int
    }

    /// Delay of one frame, and extra delay after the animation's last frame.
    pub closed spec fn steps(&self) -> (u16, u16) {
        (self.step, self.last_step)
    }

    /// Size of the canvas.
    pub closed spec fn canvas(&self) -> (u16, u16) {
        (self.width, self.height)
    }

    /// Total delay of the frames fed so far, without saturation.
    pub closed spec fn elapsed(&self) -> int {
        self.elapsed@
    }

    /// Whether every index row seen so far had the length of the first.
    pub closed spec fn uniform(&self) -> bool {
        self.uniform@
    }

    /// Internal consistency: emitted frames have the canvas size, delays add
    /// up while nothing saturated, and with rows of one length each emitted
    /// frame differs from the next one and from the pending frame.
    pub closed spec fn wf(&self) -> bool {
        &&& 0 <= self.seen <= self.frames
        &&& self.elapsed@ >= 0
        &&& forall|j: int|
            0 <= j < self.blocks@.len() ==> (#[trigger] self.blocks@[j]).width == self.width
                && self.blocks@[j].height == self.height
        &&& self.elapsed@ <= 65535 ==> total_delay(self.blocks@, self.blocks@.len()) + self.step_pending == self.elapsed@
        &&& self.seen == 0 ==> self.blocks@.len() == 0 && self.step_pending == 0
        &&& self.uniform@ ==> self.prev_indices@.len() == self.row_len@
        &&& self.uniform@ ==> forall|j: int|
            0 <= j < self.blocks@.len() ==> (#[trigger] self.blocks@[j]).data@.len() == self.row_len@
        &&& self.uniform@ ==> neighbours_differ(self.blocks@)
        &&& self.uniform@ && self.blocks@.len() > 0 ==> indices_differ(self.blocks@.last().data@, self.prev_indices@)
    }

    /// A timeline starting from the palette frame's indices `first_indices`:
    /// `step` per frame, `last_step` extra after frame `frames - 1`, for
    /// `frames` frames on a `width` by `height` canvas.
    pub fn new(
        first_indices: Vec<u8>,
        step: u16,
        last_step: u16,
        pal_index: i32,
        frames: i32,
        width: u16,
        height: u16,
    ) -> (t: Self)
        requires
            frames >= 0,
        ensures
            t.wf(),
            t.emitted().len() == 0,
            t.pending() == first_indices@,
            t.pending_delay() == 0,
            t.fed() == 0,
            t.frame_count() == frames,
            t.palette_frame() == pal_index,
            t.steps() == (step, last_step),
            t.canvas() == (width, height),
            t.elapsed() == 0,
            t.uniform(),
    {
        let ghost n = first_indices@.len() as int;
        GifTimeline {
            blocks: Vec::new(),
            prev_indices: first_indices,
            step,
            last_step,
            step_pending: 0,
            pal_index,
            frames,
            width,
            height,
            seen: 0,
            elapsed: Ghost(0),
            uniform: Ghost(true),
            row_len: Ghost(n),
        }
    }

    /// Whether frame `i` must be rendered and quantized to be fed: every
    /// frame but the palette frame.
    pub fn needs_render(&self, i: i32) -> (r: bool)
        ensures
            r == (i != self.palette_frame()),
    {
        i != self.pal_index
    }

    /// Feeds frame `i`: its indices `curr`, or `None` for the palette frame,
    /// which repeats the pending frame's indices. The frame's step is added
    /// to the pending delay; when the frame changed (from the second frame
    /// on), the pending frame is emitted with the delay accumulated before
    /// this frame and the frame becomes pending. After frame `frames - 1`
    /// the extra `last_step` is added.
    pub fn advance(&mut self, i: i32, curr: Option<Vec<u8>>)
        requires
            old(self).wf(),
            old(self).fed() < old(self).frame_count(),
            curr is None <==> i == old(self).palette_frame(),
        ensures
            final(self).wf(),
            final(self).fed() == old(self).fed() + 1,
            final(self).frame_count() == old(self).frame_count(),
            final(self).palette_frame() == old(self).palette_frame(),
            final(self).steps() == old(self).steps(),
            final(self).canvas() == old(self).canvas(),
            final(self).elapsed() == old(self).elapsed() + old(self).steps().0 + if i == old(self).frame_count() - 1 {
                old(self).steps().1 as int
            } else {
                0
            },
            ({
                let c = match curr {
                    Some(v) => v@,
                    None => old(self).pending(),
                };
                let step = old(self).steps().0;
                let sp = if old(self).pending_delay() + step > 65535 {
                    65535
                } else {
                    old(self).pending_delay() + step
                };
                let change = old(self).fed() > 0 && indices_differ(old(self).pending(), c);
                let sp2 = if change {
                    step as int
                } else {
                    sp
                };
                &&& final(self).pending() == c
                &&& change ==> final(self).emitted().len() == old(self).emitted().len() + 1
                    && final(self).emitted().drop_last() == old(self).emitted()
                    && final(self).emitted().last().data@ == old(self).pending()
                    && final(self).emitted().last().delay == sp - step
                    && final(self).emitted().last().width == old(self).canvas().0
                    && final(self).emitted().last().height == old(self).canvas().1
                &&& !change ==> final(self).emitted() == old(self).emitted()
                &&& final(self).pending_delay() == if i == old(self).frame_count() - 1 {
                    if sp2 + old(self).steps().1 > 65535 {
                        65535
                    } else {
                        sp2 + old(self).steps().1
                    }
                } else {
                    sp2
                }
            }),
            final(self).uniform() == (old(self).uniform() && match curr {
                Some(v) => v@.len() == old(self).pending().len(),
                None => true,
            }),
    {
        let ghost old_blocks = self.blocks@;
        let ghost old_prev = self.prev_indices@;
        let ghost old_sp = self.step_pending;
        proof {
            lemma_total_delay_nonneg(old_blocks, old_blocks.len());
        }
        let curr_indices: Vec<u8> = match curr {
            Some(v) => v,
            None => self.prev_indices.clone(),
        };
        proof {
            if self.uniform@ {
                assert(old_prev.len() == self.row_len@);
            }
        }
        self.step_pending = self.step_pending.saturating_add(self.step);
        let change: bool = self.seen > 0 && differs(&self.prev_indices, &curr_indices);
        let ghost new_uniform = self.uniform@ && curr_indices@.len() == self.row_len@;
        if change {
            let delay: u16 = self.step_pending.saturating_sub(self.step);
            let mut emitted = curr_indices;
            std::mem::swap(&mut emitted, &mut self.prev_indices);
            self.blocks.push(GifBlock { data: emitted, delay, width: self.width, height: self.height });
            self.step_pending = self.step;
            proof {
                lemma_total_delay_prefix(old_blocks, self.blocks@, old_blocks.len());
                assert(self.blocks@.drop_last() =~= old_blocks);
                if new_uniform {
                    assert forall|j: int| 0 <= j < self.blocks@.len() - 1 implies indices_differ(
                        #[trigger] self.blocks@[j].data@,
                        self.blocks@[j + 1].data@,
                    ) by {
                        if j < old_blocks.len() - 1 {
                            assert(self.blocks@[j] == old_blocks[j]);
                            assert(self.blocks@[j + 1] == old_blocks[j + 1]);
                        } else {
                            assert(self.blocks@[j] == old_blocks.last());
                        }
                    }
                }
            }
        } else {
            self.prev_indices = curr_indices;
            proof {
                if new_uniform && old_blocks.len() > 0 {
                    assert(self.prev_indices@ =~= old_prev);
                }
            }
        }
        if i == self.frames - 1 {
            self.step_pending = self.step_pending.saturating_add(self.last_step);
        }
        proof {
            self.elapsed@ = self.elapsed@ + self.step + if i == self.frames - 1 {
                self.last_step as int
            } else {
                0
            };
            self.uniform@ = new_uniform;
        }
        self.seen = self.seen + 1;
    }

    /// Ends the timeline: when the animation has frames, the pending frame
    /// is emitted with its accumulated delay. Returns the GIF frames.
    pub fn finish(self) -> (blocks: Vec<GifBlock>)
        requires
            self.wf(),
        ensures
            self.frame_count() > 0 ==> blocks@.len() == self.emitted().len() + 1 && blocks@.drop_last() == self.emitted()
                && blocks@.last().data@ == self.pending() && blocks@.last().delay == self.pending_delay()
                && blocks@.last().width == self.canvas().0 && blocks@.last().height == self.canvas().1,
            self.frame_count() <= 0 ==> blocks@ == self.emitted(),
            forall|j: int|
                0 <= j < blocks@.len() ==> (#[trigger] blocks@[j]).width == self.canvas().0 && blocks@[j].height
                    == self.canvas().1,
            self.elapsed() <= 65535 ==> total_delay(blocks@, blocks@.len()) == self.elapsed(),
            self.uniform() ==> neighbours_differ(blocks@),
    {
        let mut blocks = self.blocks;
        let ghost old_blocks = blocks@;
        if self.frames > 0 {
            blocks.push(
                GifBlock { data: self.prev_indices, delay: self.step_pending, width: self.width, height: self.height },
            );
            proof {
                lemma_total_delay_prefix(old_blocks, blocks@, old_blocks.len());
                assert(blocks@.drop_last() =~= old_blocks);
                if self.uniform@ {
                    assert forall|j: int| 0 <= j < blocks@.len() - 1 implies indices_differ(
                        #[trigger] blocks@[j].data@,
                        blocks@[j + 1].data@,
                    ) by {
                        if j < old_blocks.len() - 1 {
                            assert(blocks@[j] == old_blocks[j]);
                            assert(blocks@[j + 1] == old_blocks[j + 1]);
                        } else {
                            assert(blocks@[j] == old_blocks.last());
                        }
                    }
                }
            }
        }
        blocks
    }
}

/// Two indices `i + p * q` apart by less than `p` with the same residue are equal.
proof fn lemma_congruent_before(i: int, j: int, k: int, p: int, t: int)
    requires
        p >= 1,
        i <= j,
        (j - i) % p == 0,
        k == i + p * t,
        t >= 0,
        j < k + p,
        j != k,
    ensures
        j < k,
{
    vstd::arithmetic::div_mod::lemma_fundamental_div_mod(j - i, p);
    let q = (j - i) / p;
    assert(j - i == p * q);
    assert(j < k) by (nonlinear_arith)
        requires
            j - i == p * q,
            k == i + p * t,
            j < k + p,
            j != k,
            p >= 1,
    ;
}

/// Copies into the palette image every `pals`-th pixel of `img` (in row-major
/// order, counting in `img`'s width) from pixel `i` on, so that several
/// frames contribute interleaved pixels to the colours the palette is built
/// from. Every other pixel is kept.
pub fn merge_palette_frame(pal_img: &mut RgbaFrame, img: &RgbaFrame, i: usize, pals: usize)
    requires
        pals >= 1,
        img.w() <= old(pal_img).w(),
        img.h() <= old(pal_img).h(),
    ensures
        final(pal_img).w() == old(pal_img).w(),
        final(pal_img).h() == old(pal_img).h(),
        forall|x: int, y: int, c: int|
            0 <= x < old(pal_img).w() && 0 <= y < old(pal_img).h() && 0 <= c < 4 ==> #[trigger] final(pal_img).at(x, y, c)
                == if x < img.w() && y < img.h() && y * img.w() + x >= i && (y * img.w() + x - i) % (pals as int) == 0 {
                img.at(x, y, c)
            } else {
                old(pal_img).at(x, y, c)
            },
{
    let w: usize = img.width() as usize;
    let h: usize = img.height() as usize;
    let _len: usize = img.as_raw().len();
    let _pw: u32 = pal_img.width();
    let ghost before = *pal_img;
    proof {
        assert(w * h <= w * h * 4) by (nonlinear_arith)
            requires
                w >= 0,
                h >= 0,
        ;
    }
    let n: usize = w * h;
    let mut k: usize = i;
    let ghost mut t: int = 0;
    let mut done: bool = i >= n;
    while !done
        invariant
            n == img.w() * img.h(),
            w == img.w(),
            h == img.h(),
            w <= u32::MAX,
            h <= u32::MAX,
            pals >= 1,
            k >= i,
            !done ==> k < n,
            t >= 0,
            k == i + pals * t,
            img.w() <= pal_img.w(),
            img.h() <= pal_img.h(),
            pal_img.w() == before.w(),
            pal_img.h() == before.h(),
            pal_img.bytes().len() == before.bytes().len(),
            before.sized(),
            forall|x: int, y: int, c: int|
                0 <= x < before.w() && 0 <= y < before.h() && 0 <= c < 4 ==> #[trigger] pal_img.at(x, y, c) == if x < w
                    && y < h && i <= y * w + x < (if done {
                    n as int
                } else {
                    k as int
                }) && (y * w + x - i) % (pals as int) == 0 {
                    img.at(x, y, c)
                } else {
                    before.at(x, y, c)
                },
        decreases n - k + if done {
            0int
        } else {
            1int
        },
    {
        let xx: usize = k % w;
        let yy: usize = k / w;
        proof {
            vstd::arithmetic::div_mod::lemma_fundamental_div_mod(k as int, w as int);
            assert(yy < h) by (nonlinear_arith)
                requires
                    k < w * h,
                    k == w * yy + xx,
                    0 <= xx < w,
            ;
        }
        let pixel = img.get_pixel(xx as u32, yy as u32);
        let ghost mid = *pal_img;
        pal_img.put_pixel(xx as u32, yy as u32, pixel);
        let last: bool = n - k <= pals;
        proof {
            assert forall|x: int, y: int, c: int|
                0 <= x < before.w() && 0 <= y < before.h() && 0 <= c < 4 implies #[trigger] pal_img.at(x, y, c) == if x
                < w && y < h && i <= y * w + x < (if last {
                n as int
            } else {
                k + pals
            }) && (y * w + x - i) % (pals as int) == 0 {
                img.at(x, y, c)
            } else {
                before.at(x, y, c)
            } by {
                let pw = before.w() as int;
                crate::frame::lemma_pixel_in_bounds(pw, before.h() as int, x, y);
                crate::frame::lemma_pixel_in_bounds(pw, before.h() as int, xx as int, yy as int);
                let bi = crate::frame::byte_index(pw, x, y, c);
                let bk = crate::frame::byte_index(pw, xx as int, yy as int, 0);
                assert(mid.at(x, y, c) == mid.bytes()[bi]);
                if x == xx && y == yy {
                    assert(bi - bk == c);
                    assert(y * w + x == k) by (nonlinear_arith)
                        requires
                            k == w * yy + xx,
                            x == xx,
                            y == yy,
                    ;
                    vstd::arithmetic::div_mod::lemma_fundamental_div_mod_converse(k - i, pals as int, t, 0);
                } else {
                    assert(bi < bk || bi >= bk + 4) by (nonlinear_arith)
                        requires
                            bi == (y * pw + x) * 4 + c,
                            bk == (yy * pw + xx) * 4,
                            0 <= c < 4,
                            0 <= x < pw,
                            0 <= xx < pw,
                            x != xx || y != yy,
                    ;
                    if x < w && y < h {
                        assert(y * w + x != k) by (nonlinear_arith)
                            requires
                                k == w * yy + xx,
                                0 <= x < w,
                                0 <= xx < w,
                                x != xx || y != yy,
                        ;
                        assert(y * w + x < n) by (nonlinear_arith)
                            requires
                                0 <= x < w,
                                0 <= y < h,
                                n == w * h,
                        ;
                        if i <= y * w + x && (y * w + x - i) % (pals as int) == 0 && (y * w + x < k + pals
                            || last) {
                            lemma_congruent_before(i as int, y * w + x, k as int, pals as int, t);
                        }
                    }
                }
            }
        }
        if last {
            done = true;
        } else {
            k = k + pals;
            proof {
                t = t + 1;
                assert(k == i + pals * t) by (nonlinear_arith)
                    requires
                        k == i + pals * (t - 1) + pals,
                ;
            }
        }
    }
    proof {
        assert forall|x: int, y: int, c: int|
            0 <= x < before.w() && 0 <= y < before.h() && 0 <= c < 4 implies #[trigger] pal_img.at(x, y, c) == if x < img.w()
                && y < img.h() && y * img.w() + x >= i && (y * img.w() + x - i) % (pals as int) == 0 {
                img.at(x, y, c)
            } else {
                before.at(x, y, c)
            } by {
            if x < w && y < h {
                assert(y * w + x < n) by (nonlinear_arith)
                    requires
                        0 <= x < w,
                        0 <= y < h,
                        n == w * h,
                ;
            }
        }
    }
}

/// The image the GIF palette is built from, gathered from the palette
/// frames: with one palette frame, that frame; with several, the first one
/// with every `n`-th pixel (`n` the number of palette frames) from pixel `i`
/// taken from the `i`-th.
pub struct PaletteImage {
    frames: usize,
    image: Option<RgbaFrame>,
}

impl PaletteImage {
    /// Number of palette frames.
    pub closed spec fn frame_count(&self) -> nat {
        self.frames as nat
    }

    /// The image gathered so far.
    pub closed spec fn image(&self) -> Option<RgbaFrame> {
        self.image
    }

    /// Gathering from `frames` palette frames; at least one is needed.
    pub fn new(frames: usize) -> (r: Result<Self, Error>)
        ensures
            frames < 1 ==> (r matches Err(e) && e matches Error::MissingData(m) && m@ == "No palette frames specified"@),
            frames >= 1 ==> (r matches Ok(p) && p.frame_count() == frames && p.image() is None),
    {
        if frames < 1 {
            return Err(Error::MissingData("No palette frames specified".to_string()));
        }
        Ok(PaletteImage { frames, image: None })
    }

    /// Adds the `i`-th palette frame: the first frame added is taken whole,
    /// later ones contribute their share of pixels (see
    /// `merge_palette_frame`).
    pub fn add_frame(&mut self, i: usize, img: &RgbaFrame)
        requires
            old(self).frame_count() >= 1,
            old(self).image() matches Some(p) ==> img.w() <= p.w() && img.h() <= p.h(),
        ensures
            final(self).frame_count() == old(self).frame_count(),
            old(self).image() is None ==> (final(self).image() matches Some(p) && p.w() == img.w() && p.h() == img.h()
                && p.bytes() == img.bytes()),
            old(self).image() matches Some(p) ==> final(self).image() matches Some(q) && q.w() == p.w() && q.h()
                == p.h() && forall|x: int, y: int, c: int|
                0 <= x < p.w() && 0 <= y < p.h() && 0 <= c < 4 ==> #[trigger] q.at(x, y, c) == if x < img.w() && y
                    < img.h() && y * img.w() + x >= i && (y * img.w() + x - i) % (old(self).frame_count() as int) == 0 {
                    img.at(x, y, c)
                } else {
                    p.at(x, y, c)
                },
    {
        match self.image.take() {
            None => {
                self.image = Some(img.clone());
            },
            Some(mut pal_img) => {
                merge_palette_frame(&mut pal_img, img, i, self.frames);
                self.image = Some(pal_img);
            },
        }
    }

    /// The gathered image; fails when no frame was added.
    pub fn finish(self) -> (r: Result<RgbaFrame, Error>)
        ensures
            self.image() matches Some(p) ==> r matches Ok(q) && q.w() == p.w() && q.h() == p.h() && q.bytes()
                == p.bytes(),
            self.image() is None ==> (r matches Err(e) && e matches Error::MissingData(m) && m@ == "No palette image"@),
    {
        match self.image {
            Some(p) => Ok(p),
            None => Err(Error::MissingData("No palette image".to_string())),
        }
    }
}

/// The GIF colour table of a palette: the first `colors_total` colours as
/// `r, g, b` triples, padded with zeros to 256 colours.
pub open spec fn color_table(p: Palette) -> Seq<u8> {
    Seq::new(
        768,
        |k: int|
            if k < 3 * p.colors_total {
                if k % 3 == 0 {
                    p.red[k / 3]
                } else if k % 3 == 1 {
                    p.green[k / 3]
                } else {
                    p.blue[k / 3]
                }
            } else {
                0u8
            },
    )
}

/// The colour table holds the palette: 256 colours of three bytes, colour
/// `i` below `colors_total` being the palette's red, green and blue of
/// entry `i`, and every colour after them black.
pub proof fn law_color_table_holds_palette(p: Palette, i: int)
    requires
        0 <= i < 256,
    ensures
        color_table(p).len() == 768,
        i < p.colors_total ==> color_table(p)[3 * i] == p.red[i] && color_table(p)[3 * i + 1] == p.green[i]
            && color_table(p)[3 * i + 2] == p.blue[i],
        i >= p.colors_total ==> color_table(p)[3 * i] == 0 && color_table(p)[3 * i + 1] == 0 && color_table(p)[3
            * i + 2] == 0,
{
    assert((3 * i) / 3 == i && (3 * i + 1) / 3 == i && (3 * i + 2) / 3 == i);
    assert((3 * i) % 3 == 0 && (3 * i + 1) % 3 == 1 && (3 * i + 2) % 3 == 2);
}

/// The canvas size (from the first block) and the colour table for writing
/// `blocks` with `palette`; fails without blocks or without a palette.
pub fn build_palette_table(blocks: &Vec<GifBlock>, palette: &Option<Palette>) -> (r: Result<(u16, u16, Vec<u8>), Error>)
    requires
        palette matches Some(p) ==> p.colors_total <= 256,
    ensures
        blocks@.len() == 0 ==> gif_fails_with(r, "No frames to save"@),
        blocks@.len() > 0 && palette is None ==> gif_fails_with(r, "No palette available"@),
        blocks@.len() > 0 && palette is Some ==> (r matches Ok(t) && t.0 == blocks@[0].width && t.1 == blocks@[0].height
            && t.2@ == color_table(palette->0)),
{
    if blocks.len() == 0 {
        return Err(gif_error("No frames to save"));
    }
    let palette: &Palette = match palette {
        Some(p) => p,
        None => {
            return Err(gif_error("No palette available"));
        },
    };
    let width: u16 = blocks[0].width;
    let height: u16 = blocks[0].height;
    let colors: usize = palette.colors_total;
    let mut color_table: Vec<u8> = Vec::with_capacity(colors * 3);
    let mut i: usize = 0;
    while i < colors
        invariant
            colors == palette.colors_total,
            colors <= 256,
            i <= colors,
            color_table@.len() == 3 * i,
            forall|k: int| 0 <= k < 3 * i ==> #[trigger] color_table@[k] == self::color_table(*palette)[k],
        decreases colors - i,
    {
        color_table.push(palette.red[i]);
        color_table.push(palette.green[i]);
        color_table.push(palette.blue[i]);
        proof {
            assert forall|k: int| 0 <= k < 3 * (i + 1) implies #[trigger] color_table@[k] == self::color_table(*palette)[k] by {
                if k >= 3 * i {
                    assert(k / 3 == i);
                }
            }
        }
        i = i + 1;
    }
    while color_table.len() < 768
        invariant
            colors == palette.colors_total,
            colors <= 256,
            3 * colors <= color_table@.len() <= 768,
            forall|k: int| 0 <= k < color_table@.len() ==> #[trigger] color_table@[k] == self::color_table(*palette)[k],
        decreases 768 - color_table@.len(),
    {
        color_table.push(0);
    }
    assert(color_table@ =~= self::color_table(*palette));
    Ok((width, height, color_table))
}

/// Every block holds exactly its canvas of indices.
pub open spec fn blocks_sized(blocks: Seq<GifBlock>) -> bool {
    forall|j: int| 0 <= j < blocks.len() ==> (#[trigger] blocks[j]).data@.len() == blocks[j].width * blocks[j].height
}

/// The frames of the first `n` blocks, one after another.
pub open spec fn gif_frames(blocks: Seq<GifBlock>, n: nat) -> Seq<u8>
    decreases n,
{
    if n == 0 {
        Seq::empty()
    } else {
        let b = blocks[n - 1];
        gif_frames(blocks, (n - 1) as nat) + gif_frame_block(b.data@, b.width, b.height, b.delay)
    }
}

/// The GIF file of `blocks` on a `width` by `height` canvas with the global
/// colour table `table`: header, looping extension, one frame per block and
/// the trailer.
pub open spec fn gif_file(width: u16, height: u16, table: Seq<u8>, blocks: Seq<GifBlock>) -> Seq<u8> {
    gif_header(width, height, table) + gif_loop_block() + gif_frames(blocks, blocks.len()) + gif_trailer()
}

/// Encodes `blocks` as a looping GIF with `palette` as its global colour
/// table, each block a full-canvas frame kept until replaced, on the canvas
/// of the first block. Fails without blocks, without a palette, or when the
/// GIF encoder fails; the bytes it returns are the whole file.
pub fn encode_gif(blocks: &Vec<GifBlock>, palette: &Option<Palette>) -> (r: Result<Vec<u8>, Error>)
    requires
        palette matches Some(p) ==> p.colors_total <= 256,
        blocks_sized(blocks@),
    ensures
        blocks@.len() == 0 ==> gif_fails_with(r, "No frames to save"@),
        blocks@.len() > 0 && palette is None ==> gif_fails_with(r, "No palette available"@),
        r matches Err(e) ==> e is GifEncode,
        r matches Ok(b) ==> blocks@.len() > 0 && palette is Some && b@ == gif_file(
            blocks@[0].width,
            blocks@[0].height,
            color_table(palette->0),
            blocks@,
        ),
{
    let (width, height, color_table) = build_palette_table(blocks, palette)?;
    let mut writer = match gif_encoder_new(width, height, color_table.as_slice()) {
        Ok(w) => w,
        Err(e) => {
            return Err(from_encoding_error(e));
        },
    };
    match gif_set_repeat_infinite(&mut writer) {
        Ok(()) => {},
        Err(e) => {
            return Err(from_encoding_error(e));
        },
    }
    let ghost start = gif_written(writer);
    let mut j: usize = 0;
    while j < blocks.len()
        invariant
            j <= blocks@.len(),
            blocks@.len() > 0,
            palette is Some,
            blocks_sized(blocks@),
            start == gif_header(width, height, color_table@) + gif_loop_block(),
            gif_written(writer) == start + gif_frames(blocks@, j as nat),
        decreases blocks@.len() - j,
    {
        let block = &blocks[j];
        proof {
            let (bw, bh) = (block.width as int, block.height as int);
            assert(block.data@.len() == bw * bh);
            if bw == 0 || bh == 0 {
                assert(bw * bh == 0) by (nonlinear_arith)
                    requires
                        bw == 0 || bh == 0,
                ;
            }
        }
        match gif_write_frame(&mut writer, block.data.as_slice(), block.width, block.height, block.delay) {
            Ok(()) => {},
            Err(e) => {
                return Err(from_encoding_error(e));
            },
        }
        proof {
            assert(gif_written(writer) =~= start + gif_frames(blocks@, (j + 1) as nat));
        }
        j = j + 1;
    }
    match gif_finish(writer) {
        Ok(bytes) => {
            assert(bytes@ =~= gif_file(width, height, color_table@, blocks@));
            Ok(bytes)
        },
        Err(e) => Err(Error::GifEncode(io_error_message(&e))),
    }
}

} // verus!
