//! Validation and frame planning for animated WebP output.
//!
//! The native encoder itself is driven from outside the library; everything
//! decided before a frame reaches it is here: canvas and frame sizes,
//! timestamps and durations, keyframe settings, the rectangle of a frame that
//! changed, how unchanged frames are merged, and how many frames are encoded
//! at once.
use vstd::prelude::*;
use crate::error::Error;
use crate::cli::{digits_of, push_digits, string_from_chars};

verus! {

/// Balanced libwebp method used by the published encoder.
pub const DEFAULT_WEBP_METHOD: usize = 4;

/// Largest canvas side WebP supports.
pub const MAX_WEBP_DIMENSION: u32 = 16383;

/// Longest frame WebP can store: `2^24 - 1` milliseconds.
pub const MAX_WEBP_FRAME_DURATION_MS: i64 = 16777215;

/// Native memory that the frames encoded at once may take together.
pub const PARALLEL_ENCODER_MEMORY_BUDGET: usize = 268435456;

/// Estimate of the native memory one pixel of a frame takes while encoding.
pub const ESTIMATED_NATIVE_BYTES_PER_PIXEL: usize = 16;

/// Animation-level WebP options.
#[derive(Debug, Clone, Copy, Default, PartialEq, Eq, Structural)]
pub struct WebpAnimationOptions {
    /// Number of animation loops. Zero means infinite.
    pub loop_count: u16,
    /// Spend additional time minimizing the complete animation size.
    pub minimize_size: bool,
    /// Minimum distance between keyframes.
    pub kmin: i32,
    /// Maximum distance between keyframes. Zero disables keyframe insertion.
    pub kmax: i32,
    /// Permit libwebp to choose lossy or lossless compression per frame.
    pub allow_mixed: bool,
}

/// One borrowed RGBA frame in an animation timeline.
#[derive(Debug, Clone, Copy)]
pub struct WebpFrame<'a> {
    /// Tightly packed RGBA pixels for the complete canvas.
    pub rgba: &'a [u8],
    /// Start time in milliseconds. Frame timestamps must strictly increase.
    pub timestamp_ms: i32,
}

impl<'a> WebpFrame<'a> {
    /// The frame of the given pixels starting at `timestamp_ms`.
    pub fn new(rgba: &'a [u8], timestamp_ms: i32) -> (f: Self)
        ensures
            f.rgba@ == rgba@,
            f.timestamp_ms == timestamp_ms,
    {
        WebpFrame { rgba, timestamp_ms }
    }
}

/// An error of the WebP encoder with the given message.
pub fn webp_error(message: &str) -> (e: Error)
    ensures
        e matches Error::WebpEncode(m) && m@ == message@,
{
    Error::WebpEncode(message.to_string())
}

/// `e` is a WebP error with message `m`.
pub open spec fn is_webp_error(e: Error, m: Seq<char>) -> bool {
    e matches Error::WebpEncode(s) && s@ == m
}

/// `r` failed with the WebP error `m`.
pub open spec fn fails_with<T>(r: Result<T, Error>, m: Seq<char>) -> bool {
    r matches Err(e) && is_webp_error(e, m)
}

/// Message for a frame buffer of `got` bytes where `expected` are needed.
pub open spec fn frame_size_text(got: nat, expected: nat) -> Seq<char> {
    "RGBA frame has "@ + digits_of(got) + " bytes; expected "@ + digits_of(expected)
}

/// `n` in decimal.
fn decimal_string(n: usize) -> (s: String)
    ensures
        s@ == digits_of(n as nat),
{
    let mut digits: Vec<char> = Vec::new();
    push_digits(&mut digits, n as u64);
    string_from_chars(&digits)
}

/// The message for a frame buffer of the wrong size (see `frame_size_text`).
fn frame_size_message(got: usize, expected: usize) -> (s: String)
    ensures
        s@ == frame_size_text(got as nat, expected as nat),
{
    let mut s = String::from_str("RGBA frame has ");
    let got_digits = decimal_string(got);
    s.append(got_digits.as_str());
    s.append(" bytes; expected ");
    let expected_digits = decimal_string(expected);
    s.append(expected_digits.as_str());
    s
}

/// Bytes of one tightly packed RGBA frame of the given size: positive sides
/// of at most 16383 pixels.
pub fn frame_bytes(dimensions: (u32, u32)) -> (r: Result<usize, Error>)
    ensures
        r is Ok <==> (0 < dimensions.0 <= MAX_WEBP_DIMENSION && 0 < dimensions.1 <= MAX_WEBP_DIMENSION),
        r matches Ok(n) ==> n == dimensions.0 * dimensions.1 * 4,
        (dimensions.0 == 0 || dimensions.1 == 0) ==> fails_with(r, "dimensions must be positive"@),
        (dimensions.0 != 0 && dimensions.1 != 0 && (dimensions.0 > MAX_WEBP_DIMENSION || dimensions.1 > MAX_WEBP_DIMENSION))
            ==> fails_with(r, "dimensions exceed WebP's 16383px limit"@),
{
    let (width, height) = dimensions;
    if width == 0 || height == 0 {
        return Err(webp_error("dimensions must be positive"));
    }
    if width > MAX_WEBP_DIMENSION || height > MAX_WEBP_DIMENSION {
        return Err(webp_error("dimensions exceed WebP's 16383px limit"));
    }
    assert(width as int * height as int <= 16383 * 16383) by (nonlinear_arith)
        requires
            width <= 16383,
            height <= 16383,
    ;
    match (width as usize).checked_mul(height as usize) {
        Some(pixels) => match pixels.checked_mul(4) {
            Some(n) => Ok(n),
            None => Err(webp_error("RGBA frame size overflowed")),
        },
        None => Err(webp_error("RGBA frame size overflowed")),
    }
}

/// The duration from `timestamp_ms` to `next_timestamp_ms`: never negative
/// and at most WebP's longest frame.
pub fn validate_frame_duration(timestamp_ms: i32, next_timestamp_ms: i32) -> (r: Result<i64, Error>)
    ensures
        r is Ok <==> 0 <= next_timestamp_ms - timestamp_ms <= MAX_WEBP_FRAME_DURATION_MS,
        r matches Ok(d) ==> d == next_timestamp_ms - timestamp_ms,
        next_timestamp_ms < timestamp_ms ==> fails_with(r, "frame timestamps must be non-decreasing"@),
        next_timestamp_ms - timestamp_ms > MAX_WEBP_FRAME_DURATION_MS ==> fails_with(r, "frame duration exceeds WebP's limit"@),
{
    let duration: i64 = next_timestamp_ms as i64 - timestamp_ms as i64;
    if duration < 0 {
        Err(webp_error("frame timestamps must be non-decreasing"))
    } else if duration > MAX_WEBP_FRAME_DURATION_MS {
        Err(webp_error("frame duration exceeds WebP's limit"))
    } else {
        Ok(duration)
    }
}

/// Keyframe settings libwebp accepts: insertion disabled (`kmax <= 0`),
/// every frame a keyframe (`kmax == 1`), or `kmax / 2 < kmin < kmax`.
pub open spec fn valid_keyframes(options: WebpAnimationOptions) -> bool {
    options.kmax <= 0 || options.kmax == 1 || (options.kmin > options.kmax / 2 && options.kmin < options.kmax)
}

/// Accepts exactly the animation options with valid keyframe settings.
pub fn validate_animation_options(options: WebpAnimationOptions) -> (r: Result<(), Error>)
    ensures
        r is Ok <==> valid_keyframes(options),
        r matches Err(e) ==> is_webp_error(e, "invalid keyframe interval"@),
{
    let valid_keyframes: bool = options.kmax <= 0 || options.kmax == 1 || (options.kmin > options.kmax / 2
        && options.kmin < options.kmax);
    if !valid_keyframes {
        return Err(webp_error("invalid keyframe interval"));
    }
    Ok(())
}

/// Start of the frame after frame `i`, or `final_ms` after the last one.
pub open spec fn next_timestamp(frames: Seq<WebpFrame>, final_ms: i32, i: int) -> int {
    if i + 1 < frames.len() {
        frames[i + 1].timestamp_ms as int
    } else {
        final_ms as int
    }
}

/// How long frame `i` is shown.
pub open spec fn frame_duration(frames: Seq<WebpFrame>, final_ms: i32, i: int) -> int {
    next_timestamp(frames, final_ms, i) - frames[i].timestamp_ms
}

/// Every frame holds `n` bytes.
pub open spec fn frames_sized(frames: Seq<WebpFrame>, n: int) -> bool {
    forall|i: int| 0 <= i < frames.len() ==> (#[trigger] frames[i]).rgba@.len() == n
}

/// Each frame starts strictly after the one before it.
pub open spec fn timestamps_increase(frames: Seq<WebpFrame>) -> bool {
    forall|i: int| 0 <= i < frames.len() - 1 ==> (#[trigger] frames[i]).timestamp_ms < frames[i + 1].timestamp_ms
}

/// No frame lasts longer than WebP allows.
pub open spec fn durations_fit(frames: Seq<WebpFrame>, final_ms: i32) -> bool {
    forall|i: int| 0 <= i < frames.len() ==> #[trigger] frame_duration(frames, final_ms, i) <= MAX_WEBP_FRAME_DURATION_MS
}

/// A timeline the batch encoder accepts.
pub open spec fn valid_timeline(frames: Seq<WebpFrame>, final_ms: i32, n: int) -> bool {
    &&& frames.len() > 0
    &&& frames_sized(frames, n)
    &&& timestamps_increase(frames)
    &&& final_ms >= frames.last().timestamp_ms
    &&& durations_fit(frames, final_ms)
}

/// Checks a batch of frames, in this order: at least one frame, every frame
/// of `expected_frame_bytes` bytes, strictly increasing timestamps, a final
/// timestamp not before the last frame, and no duration beyond WebP's limit.
/// Returns each frame's duration.
pub fn validate_frames(frames: &[WebpFrame<'_>], final_timestamp_ms: i32, expected_frame_bytes: usize) -> (r: Result<
    Vec<i64>,
    Error,
>)
    ensures
        r is Ok <==> valid_timeline(frames@, final_timestamp_ms, expected_frame_bytes as int),
        r matches Ok(d) ==> d@.len() == frames@.len() && forall|i: int|
            0 <= i < d@.len() ==> #[trigger] d@[i] == frame_duration(frames@, final_timestamp_ms, i),
        frames@.len() == 0 ==> fails_with(r, "no frames were provided"@),
        frames@.len() > 0 && !frames_sized(frames@, expected_frame_bytes as int) ==> exists|k: int|
            0 <= k < frames@.len() && (#[trigger] frames@[k]).rgba@.len() != expected_frame_bytes && (forall|j: int|
                0 <= j < k ==> (#[trigger] frames@[j]).rgba@.len() == expected_frame_bytes) && fails_with(
                r,
                frame_size_text(frames@[k].rgba@.len(), expected_frame_bytes as nat),
            ),
        frames@.len() > 0 && frames_sized(frames@, expected_frame_bytes as int) && !timestamps_increase(frames@)
            ==> fails_with(r, "frame timestamps must be strictly increasing"@),
        frames@.len() > 0 && frames_sized(frames@, expected_frame_bytes as int) && timestamps_increase(frames@)
            && final_timestamp_ms < frames@.last().timestamp_ms ==> fails_with(r, "final timestamp must not precede the last frame"@),
        frames@.len() > 0 && frames_sized(frames@, expected_frame_bytes as int) && timestamps_increase(frames@)
            && final_timestamp_ms >= frames@.last().timestamp_ms && !durations_fit(frames@, final_timestamp_ms)
            ==> fails_with(r, "frame duration exceeds WebP's limit"@),
{
    let n: usize = frames.len();
    if n == 0 {
        return Err(webp_error("no frames were provided"));
    }
    let mut i: usize = 0;
    while i < n
        invariant
            n == frames@.len(),
            i <= n,
            forall|j: int| 0 <= j < i ==> (#[trigger] frames@[j]).rgba@.len() == expected_frame_bytes,
        decreases n - i,
    {
        let len: usize = frames[i].rgba.len();
        if len != expected_frame_bytes {
            return Err(Error::WebpEncode(frame_size_message(len, expected_frame_bytes)));
        }
        i = i + 1;
    }
    let mut i: usize = 0;
    while i + 1 < n
        invariant
            n == frames@.len(),
            n > 0,
            i + 1 <= n,
            frames_sized(frames@, expected_frame_bytes as int),
            forall|j: int| 0 <= j < i ==> (#[trigger] frames@[j]).timestamp_ms < frames@[j + 1].timestamp_ms,
        decreases n - i,
    {
        if frames[i + 1].timestamp_ms <= frames[i].timestamp_ms {
            return Err(webp_error("frame timestamps must be strictly increasing"));
        }
        i = i + 1;
    }
    if final_timestamp_ms < frames[n - 1].timestamp_ms {
        return Err(webp_error("final timestamp must not precede the last frame"));
    }
    let mut durations: Vec<i64> = Vec::with_capacity(n);
    let mut i: usize = 0;
    while i < n
        invariant
            n == frames@.len(),
            i <= n,
            valid_timeline(frames@, final_timestamp_ms, expected_frame_bytes as int) <==> durations_fit(frames@, final_timestamp_ms),
            frames_sized(frames@, expected_frame_bytes as int),
            timestamps_increase(frames@),
            n > 0,
            final_timestamp_ms >= frames@.last().timestamp_ms,
            durations@.len() == i,
            forall|j: int| 0 <= j < i ==> #[trigger] durations@[j] == frame_duration(frames@, final_timestamp_ms, j),
            forall|j: int| 0 <= j < i ==> #[trigger] frame_duration(frames@, final_timestamp_ms, j) <= MAX_WEBP_FRAME_DURATION_MS,
        decreases n - i,
    {
        let next_timestamp: i32 = if i + 1 < n {
            frames[i + 1].timestamp_ms
        } else {
            final_timestamp_ms
        };
        let duration: i64 = next_timestamp as i64 - frames[i].timestamp_ms as i64;
        assert(duration == frame_duration(frames@, final_timestamp_ms, i as int));
        if duration > MAX_WEBP_FRAME_DURATION_MS {
            return Err(webp_error("frame duration exceeds WebP's limit"));
        }
        durations.push(duration);
        i = i + 1;
    }
    Ok(durations)
}

/// A rectangle of the canvas, in pixels.
#[derive(Debug, Clone, Copy)]
pub struct FrameRect {
    pub x: usize,
    pub y: usize,
    pub width: usize,
    pub height: usize,
}

impl FrameRect {
    /// The whole `width` by `height` canvas.
    pub fn full(width: usize, height: usize) -> (r: Self)
        ensures
            r.x == 0 && r.y == 0 && r.width == width && r.height == height,
    {
        FrameRect { x: 0, y: 0, width, height }
    }
}

/// Byte `i` differs between the two buffers.
pub open spec fn byte_changed(a: Seq<u8>, b: Seq<u8>, i: int) -> bool {
    a[i] != b[i]
}

/// Row of byte `i` in rows of `row_bytes` bytes.
pub open spec fn byte_row(i: int, row_bytes: int) -> int {
    i / row_bytes
}

/// Pixel column of byte `i` in rows of `row_bytes` bytes.
pub open spec fn byte_col(i: int, row_bytes: int) -> int {
    (i % row_bytes) / 4
}

/// Number of whole rows of `row_bytes` bytes that both buffers hold.
pub open spec fn common_rows(a: Seq<u8>, b: Seq<u8>, row_bytes: int) -> int {
    (if a.len() <= b.len() {
        a.len() as int
    } else {
        b.len() as int
    }) / row_bytes
}

/// A byte between rows `lo` and `hi` lies in one of those rows.
pub proof fn lemma_byte_row(j: int, rb: int, lo: int, hi: int)
    requires
        rb > 0,
        0 <= lo,
        lo * rb <= j < hi * rb,
    ensures
        lo <= byte_row(j, rb) < hi,
        j == byte_row(j, rb) * rb + j % rb,
        0 <= j % rb < rb,
{
    vstd::arithmetic::div_mod::lemma_fundamental_div_mod(j, rb);
    let q = j / rb;
    let m = j % rb;
    assert(j == rb * q + m);
    assert(j == q * rb + m && lo <= q < hi) by (nonlinear_arith)
        requires
            rb > 0,
            lo * rb <= j < hi * rb,
            j == rb * q + m,
            0 <= m < rb,
    ;
}

/// Byte `y * rb + k` of a row lies in row `y` at offset `k`.
pub proof fn lemma_row_offset(y: int, rb: int, k: int)
    requires
        rb > 0,
        0 <= y,
        0 <= k < rb,
    ensures
        byte_row(y * rb + k, rb) == y,
        (y * rb + k) % rb == k,
        byte_col(y * rb + k, rb) == k / 4,
{
    vstd::arithmetic::div_mod::lemma_fundamental_div_mod_converse(y * rb + k, rb, y, k);
}

/// The first byte in `start..end` that differs.
fn first_change(a: &[u8], b: &[u8], start: usize, end: usize) -> (r: Option<usize>)
    requires
        start <= end,
        end <= a@.len(),
        end <= b@.len(),
    ensures
        r is None ==> forall|j: int| start <= j < end ==> !#[trigger] byte_changed(a@, b@, j),
        r matches Some(i) ==> start <= i < end && byte_changed(a@, b@, i as int) && forall|j: int|
            start <= j < i ==> !#[trigger] byte_changed(a@, b@, j),
{
    let mut i: usize = start;
    while i < end
        invariant
            start <= i <= end,
            end <= a@.len(),
            end <= b@.len(),
            forall|j: int| start <= j < i ==> !#[trigger] byte_changed(a@, b@, j),
        decreases end - i,
    {
        if a[i] != b[i] {
            return Some(i);
        }
        i = i + 1;
    }
    None
}

/// The last byte in `start..end` that differs.
fn last_change(a: &[u8], b: &[u8], start: usize, end: usize) -> (r: Option<usize>)
    requires
        start <= end,
        end <= a@.len(),
        end <= b@.len(),
    ensures
        r is None ==> forall|j: int| start <= j < end ==> !#[trigger] byte_changed(a@, b@, j),
        r matches Some(i) ==> start <= i < end && byte_changed(a@, b@, i as int) && forall|j: int|
            i < j < end ==> !#[trigger] byte_changed(a@, b@, j),
{
    let mut i: usize = end;
    while i > start
        invariant
            start <= i <= end,
            end <= a@.len(),
            end <= b@.len(),
            forall|j: int| i <= j < end ==> !#[trigger] byte_changed(a@, b@, j),
        decreases i - start,
    {
        if a[i - 1] != b[i - 1] {
            return Some(i - 1);
        }
        i = i - 1;
    }
    None
}

/// The first of the first `rows` rows in which the buffers differ.
fn first_changed_row(a: &[u8], b: &[u8], row_bytes: usize, rows: usize) -> (r: Option<usize>)
    requires
        row_bytes > 0,
        rows * row_bytes <= a@.len(),
        rows * row_bytes <= b@.len(),
    ensures
        r is None ==> forall|j: int| 0 <= j < rows * row_bytes ==> !#[trigger] byte_changed(a@, b@, j),
        r matches Some(y) ==> {
            &&& y < rows
            &&& forall|j: int| 0 <= j < y * row_bytes ==> !#[trigger] byte_changed(a@, b@, j)
            &&& exists|j: int| y * row_bytes <= j < (y + 1) * row_bytes && #[trigger] byte_changed(a@, b@, j)
        },
{
    let _alen: usize = a.len();
    let mut y: usize = 0;
    while y < rows
        invariant
            row_bytes > 0,
            rows * row_bytes <= a@.len(),
            rows * row_bytes <= b@.len(),
            a@.len() <= usize::MAX,
            y <= rows,
            forall|j: int| 0 <= j < y * row_bytes ==> !#[trigger] byte_changed(a@, b@, j),
        decreases rows - y,
    {
        assert((y + 1) * row_bytes <= rows * row_bytes && y * row_bytes + row_bytes == (y + 1) * row_bytes)
            by (nonlinear_arith)
            requires
                y < rows,
                row_bytes > 0,
        ;
        let start: usize = y * row_bytes;
        match first_change(a, b, start, start + row_bytes) {
            Some(i) => {
                assert(byte_changed(a@, b@, i as int));
                return Some(y);
            },
            None => {},
        }
        y = y + 1;
    }
    None
}

/// The last of the first `rows` rows in which the buffers differ, given that
/// row `top` differs.
fn last_changed_row(a: &[u8], b: &[u8], row_bytes: usize, rows: usize, top: usize) -> (r: usize)
    requires
        row_bytes > 0,
        rows * row_bytes <= a@.len(),
        rows * row_bytes <= b@.len(),
        top < rows,
        exists|j: int| top * row_bytes <= j < (top + 1) * row_bytes && #[trigger] byte_changed(a@, b@, j),
    ensures
        top <= r < rows,
        forall|j: int| (r + 1) * row_bytes <= j < rows * row_bytes ==> !#[trigger] byte_changed(a@, b@, j),
        exists|j: int| r * row_bytes <= j < (r + 1) * row_bytes && #[trigger] byte_changed(a@, b@, j),
{
    let _alen: usize = a.len();
    let mut y: usize = rows;
    while y > top + 1
        invariant
            row_bytes > 0,
            rows * row_bytes <= a@.len(),
            rows * row_bytes <= b@.len(),
            a@.len() <= usize::MAX,
            top + 1 <= y <= rows,
            forall|j: int| y * row_bytes <= j < rows * row_bytes ==> !#[trigger] byte_changed(a@, b@, j),
        decreases y - top,
    {
        assert(y * row_bytes <= rows * row_bytes && (y - 1) * row_bytes + row_bytes == y * row_bytes
            && (y - 1) * row_bytes >= 0) by (nonlinear_arith)
            requires
                1 <= y <= rows,
                row_bytes > 0,
        ;
        let start: usize = (y - 1) * row_bytes;
        assert(start + row_bytes == y * row_bytes) by (nonlinear_arith)
            requires
                start == (y - 1) * row_bytes,
        ;
        match first_change(a, b, start, start + row_bytes) {
            Some(i) => {
                assert(byte_changed(a@, b@, i as int));
                return y - 1;
            },
            None => {},
        }
        y = y - 1;
    }
    top
}

/// Whether `rect` bounds exactly the pixels that differ between two frames
/// of `width` pixels per row, compared over the whole rows both hold: every
/// differing byte lies inside, each edge touches a differing pixel, and the
/// left and top edges are rounded down to even coordinates.
pub open spec fn is_dirty_rect(a: Seq<u8>, b: Seq<u8>, width: int, rect: FrameRect) -> bool {
    let rb = width * 4;
    let n = common_rows(a, b, rb) * rb;
    &&& rect.x % 2 == 0 && rect.y % 2 == 0
    &&& forall|j: int|
        0 <= j < n && #[trigger] byte_changed(a, b, j) ==> rect.x <= byte_col(j, rb) < rect.x + rect.width && rect.y
            <= byte_row(j, rb) < rect.y + rect.height
    &&& exists|j: int| 0 <= j < n && #[trigger] byte_changed(a, b, j) && byte_col(j, rb) <= rect.x + 1
    &&& exists|j: int| 0 <= j < n && #[trigger] byte_changed(a, b, j) && byte_col(j, rb) == rect.x + rect.width - 1
    &&& exists|j: int| 0 <= j < n && #[trigger] byte_changed(a, b, j) && byte_row(j, rb) <= rect.y + 1
    &&& exists|j: int| 0 <= j < n && #[trigger] byte_changed(a, b, j) && byte_row(j, rb) == rect.y + rect.height - 1
}

/// Clearing the lowest bit rounds down to even.
pub proof fn lemma_round_even(v: usize)
    ensures
        v & !1usize == v - v % 2,
{
    assert(v & !1usize == v - v % 2) by (bit_vector);
}

/// The rectangle of a frame that changed from `previous` to `current`
/// (`width` pixels per row), or `None` when no pixel changed.
pub fn dirty_rect(previous: &[u8], current: &[u8], width: usize) -> (r: Option<FrameRect>)
    requires
        0 < width,
        width * 4 <= usize::MAX,
    ensures
        r is None <==> forall|j: int|
            0 <= j < common_rows(previous@, current@, width * 4) * (width * 4) ==> !#[trigger] byte_changed(
                previous@,
                current@,
                j,
            ),
        r matches Some(rect) ==> is_dirty_rect(previous@, current@, width as int, rect),
{
    let row_bytes: usize = width * 4;
    let len: usize = if previous.len() <= current.len() {
        previous.len()
    } else {
        current.len()
    };
    let rows: usize = len / row_bytes;
    let _plen: usize = previous.len();
    let ghost a = previous@;
    let ghost b = current@;
    let ghost rb = row_bytes as int;
    let ghost n = rows * rb;
    assert(rows * row_bytes <= len) by (nonlinear_arith)
        requires
            rows == len / row_bytes,
            row_bytes > 0,
    ;
    assert(rows == common_rows(a, b, rb));
    let top: usize = match first_changed_row(previous, current, row_bytes, rows) {
        Some(t) => t,
        None => {
            return None;
        },
    };
    let bottom: usize = last_changed_row(previous, current, row_bytes, rows, top);

    let mut left: usize = width;
    let mut right: usize = 0;
    let ghost mut lw: int = 0;
    let ghost mut rw: int = 0;
    let mut y: usize = top;
    while y <= bottom
        invariant
            a == previous@,
            b == current@,
            rb == row_bytes,
            row_bytes == width * 4,
            n == rows * rb,
            rows * row_bytes <= a.len(),
            rows * row_bytes <= b.len(),
            a.len() <= usize::MAX,
            top <= bottom < rows,
            top <= y <= bottom + 1,
            exists|j: int| top * row_bytes <= j < (top + 1) * row_bytes && #[trigger] byte_changed(a, b, j),
            left <= width,
            right <= width,
            y == top ==> left == width && right == 0,
            y > top ==> 0 <= lw < n && byte_changed(a, b, lw) && byte_col(lw, rb) == left,
            y > top ==> 0 <= rw < n && byte_changed(a, b, rw) && byte_col(rw, rb) + 1 == right,
            y > top ==> left < right,
            forall|j: int|
                top * rb <= j < y * rb && #[trigger] byte_changed(a, b, j) ==> left <= byte_col(j, rb) < right,
        decreases bottom + 1 - y,
    {
        assert((y + 1) * row_bytes <= rows * row_bytes && y * row_bytes + row_bytes == (y + 1) * row_bytes)
            by (nonlinear_arith)
            requires
                y < rows,
                row_bytes > 0,
        ;
        let start: usize = y * row_bytes;
        let end: usize = start + row_bytes;
        match first_change(previous, current, start, end) {
            Some(first_byte) => {
                let last_byte: usize = match last_change(previous, current, start, end) {
                    Some(l) => l,
                    None => first_byte,
                };
                proof {
                    lemma_row_offset(y as int, rb, first_byte - start);
                    lemma_row_offset(y as int, rb, last_byte - start);
                }
                let fc: usize = (first_byte - start) / 4;
                let lc: usize = (last_byte - start) / 4;
                proof {
                    assert(lc < width);
                    assert forall|j: int| start <= j < end && #[trigger] byte_changed(a, b, j) implies fc <= byte_col(j, rb) <= lc by {
                        lemma_row_offset(y as int, rb, j - start);
                    }
                    if y == top || fc < left {
                        lw = first_byte as int;
                    }
                    if y == top || lc + 1 > right {
                        rw = last_byte as int;
                    }
                    assert(0 <= first_byte < n && 0 <= last_byte < n) by (nonlinear_arith)
                        requires
                            start <= first_byte < end,
                            start <= last_byte < end,
                            end == (y + 1) * rb,
                            (y + 1) * rb <= n,
                            start >= 0,
                    ;
                }
                if fc < left {
                    left = fc;
                }
                if lc + 1 > right {
                    right = lc + 1;
                }
            },
            None => {
                proof {
                    if y == top {
                        let j = choose|j: int| top * row_bytes <= j < (top + 1) * row_bytes && #[trigger] byte_changed(a, b, j);
                        assert(!byte_changed(a, b, j));
                    }
                }
            },
        }
        proof {
            assert forall|j: int| top * rb <= j < (y + 1) * rb && #[trigger] byte_changed(a, b, j) implies left <= byte_col(j, rb) < right by {
                if j >= y * rb {
                    lemma_row_offset(y as int, rb, j - y * rb);
                }
            }
        }
        y = y + 1;
    }
    proof {
        lemma_round_even(left);
        lemma_round_even(top);
    }
    let x: usize = left & !1usize;
    let y0: usize = top & !1usize;
    let rect = FrameRect { x, y: y0, width: right - x, height: bottom + 1 - y0 };
    proof {
        assert forall|j: int|
            0 <= j < n && #[trigger] byte_changed(a, b, j) implies rect.x <= byte_col(j, rb) < rect.x + rect.width
            && rect.y <= byte_row(j, rb) < rect.y + rect.height by {
            assert(top * rb <= j) by {
                if j < top * rb {
                }
            }
            assert(j < (bottom + 1) * rb) by {
                if j >= (bottom + 1) * rb {
                }
            }
            lemma_byte_row(j, rb, top as int, bottom + 1);
        }
        let jt = choose|j: int| top * row_bytes <= j < (top + 1) * row_bytes && #[trigger] byte_changed(a, b, j);
        lemma_byte_row(jt, rb, top as int, top + 1);
        let jb = choose|j: int| bottom * row_bytes <= j < (bottom + 1) * row_bytes && #[trigger] byte_changed(a, b, j);
        lemma_byte_row(jb, rb, bottom as int, bottom + 1);
        assert((bottom + 1) * rb <= n) by (nonlinear_arith)
            requires
                bottom < rows,
                rb > 0,
                n == rows * rb,
        ;
        assert(0 <= jt < n && 0 <= jb < n) by (nonlinear_arith)
            requires
                top * rb <= jt < (top + 1) * rb,
                bottom * rb <= jb < (bottom + 1) * rb,
                (bottom + 1) * rb <= n,
                top <= bottom,
                top >= 0,
                rb > 0,
        ;
        assert(byte_changed(a, b, lw) && byte_col(lw, rb) <= rect.x + 1);
        assert(byte_changed(a, b, rw) && byte_col(rw, rb) == rect.x + rect.width - 1);
        assert(byte_changed(a, b, jt) && byte_row(jt, rb) <= rect.y + 1);
        assert(byte_changed(a, b, jb) && byte_row(jb, rb) == rect.y + rect.height - 1);
    }
    Some(rect)
}

/// One entry of an encoding plan: the rectangle of a frame to encode and how
/// long it is shown.
#[derive(Debug, Clone, Copy)]
pub struct FramePlan<'a> {
    pub rgba: &'a [u8],
    pub rectangle: FrameRect,
    pub duration_ms: i64,
}

/// The whole canvas as a rectangle.
pub open spec fn full_rect(width: usize, height: usize) -> FrameRect {
    FrameRect { x: 0, y: 0, width, height }
}

/// The plan for the first `k` frames, as (frame index, rectangle, duration):
/// a frame with a changed rectangle starts a new entry; an unchanged frame
/// extends the previous entry, unless that would exceed WebP's longest
/// duration, in which case it starts a new entry over the whole canvas.
pub open spec fn plan_upto(
    rects: Seq<Option<FrameRect>>,
    d: Seq<i64>,
    width: usize,
    height: usize,
    k: nat,
) -> Seq<(int, FrameRect, int)>
    decreases k,
{
    if k == 0 {
        Seq::empty()
    } else {
        let prev = plan_upto(rects, d, width, height, (k - 1) as nat);
        let i = k - 1;
        match rects[i] {
            Some(r) => prev.push((i, r, d[i] as int)),
            None => {
                let last = prev.last();
                if prev.len() > 0 && last.2 <= MAX_WEBP_FRAME_DURATION_MS - d[i] {
                    prev.update(prev.len() - 1, (last.0, last.1, last.2 + d[i]))
                } else {
                    prev.push((i, full_rect(width, height), d[i] as int))
                }
            },
        }
    }
}

/// Sum of the first `k` durations.
pub open spec fn total_duration(d: Seq<i64>, k: nat) -> int
    decreases k,
{
    if k == 0 {
        0
    } else {
        total_duration(d, (k - 1) as nat) + d[k - 1]
    }
}

/// Sum of the durations of the first `k` plan entries.
pub open spec fn plan_duration(p: Seq<(int, FrameRect, int)>, k: nat) -> int
    decreases k,
{
    if k == 0 {
        0
    } else {
        plan_duration(p, (k - 1) as nat) + p[k - 1].2
    }
}

/// Changing the last entry changes the sum by the same amount.
proof fn lemma_plan_duration_update(p: Seq<(int, FrameRect, int)>, k: nat, e: (int, FrameRect, int))
    requires
        0 < k <= p.len(),
    ensures
        plan_duration(p.update(k - 1, e), k) == plan_duration(p, k) - p[k - 1].2 + e.2,
{
    let q = p.update(k - 1, e);
    lemma_plan_duration_prefix(p, q, (k - 1) as nat);
}

/// Sums of equal prefixes are equal.
proof fn lemma_plan_duration_prefix(p: Seq<(int, FrameRect, int)>, q: Seq<(int, FrameRect, int)>, k: nat)
    requires
        k <= p.len(),
        k <= q.len(),
        forall|i: int| 0 <= i < k ==> p[i] == q[i],
    ensures
        plan_duration(p, k) == plan_duration(q, k),
    decreases k,
{
    if k > 0 {
        lemma_plan_duration_prefix(p, q, (k - 1) as nat);
    }
}

/// Planning keeps the animation's length, starts with the first frame, keeps
/// frames in order, and gives no entry more than WebP's longest duration.
pub proof fn lemma_plan_keeps_duration(rects: Seq<Option<FrameRect>>, d: Seq<i64>, width: usize, height: usize, k: nat)
    requires
        k <= rects.len(),
        k <= d.len(),
        k > 0 ==> rects[0] is Some,
        forall|i: int| 0 <= i < k ==> 0 <= #[trigger] d[i] <= MAX_WEBP_FRAME_DURATION_MS,
    ensures
        plan_duration(plan_upto(rects, d, width, height, k), plan_upto(rects, d, width, height, k).len())
            == total_duration(d, k),
        k > 0 ==> plan_upto(rects, d, width, height, k).len() >= 1,
        k > 0 ==> plan_upto(rects, d, width, height, k)[0].0 == 0,
        k > 0 ==> plan_upto(rects, d, width, height, k)[0].1 == rects[0]->0,
        plan_upto(rects, d, width, height, k).len() <= k,
        forall|j: int|
            0 <= j < plan_upto(rects, d, width, height, k).len() ==> 0 <= #[trigger] plan_upto(
                rects,
                d,
                width,
                height,
                k,
            )[j].0 < k && 0 <= plan_upto(rects, d, width, height, k)[j].2 <= MAX_WEBP_FRAME_DURATION_MS,
        forall|j1: int, j2: int|
            0 <= j1 < j2 < plan_upto(rects, d, width, height, k).len() ==> #[trigger] plan_upto(
                rects,
                d,
                width,
                height,
                k,
            )[j1].0 < #[trigger] plan_upto(rects, d, width, height, k)[j2].0,
    decreases k,
{
    if k > 0 {
        lemma_plan_keeps_duration(rects, d, width, height, (k - 1) as nat);
        let prev = plan_upto(rects, d, width, height, (k - 1) as nat);
        let i = k - 1;
        let cur = plan_upto(rects, d, width, height, k);
        match rects[i] {
            Some(r) => {
                assert(plan_duration(cur, cur.len()) == plan_duration(cur, prev.len()) + d[i]);
                lemma_plan_duration_prefix(prev, cur, prev.len());
            },
            None => {
                let last = prev.last();
                if prev.len() > 0 && last.2 <= MAX_WEBP_FRAME_DURATION_MS - d[i] {
                    lemma_plan_duration_update(prev, prev.len(), (last.0, last.1, last.2 + d[i]));
                } else {
                    assert(plan_duration(cur, cur.len()) == plan_duration(cur, prev.len()) + d[i]);
                    lemma_plan_duration_prefix(prev, cur, prev.len());
                }
            },
        }
    }
}

/// Turns frames with their changed rectangles and durations into an encoding
/// plan (see `plan_upto`).
pub fn plan_frames<'a>(
    frames: &[WebpFrame<'a>],
    rectangles: Vec<Option<FrameRect>>,
    durations: Vec<i64>,
    width: usize,
    height: usize,
) -> (plans: Vec<FramePlan<'a>>)
    requires
        rectangles@.len() == frames@.len(),
        durations@.len() == frames@.len(),
        frames@.len() > 0 ==> rectangles@[0] is Some,
        forall|i: int| 0 <= i < durations@.len() ==> 0 <= #[trigger] durations@[i] <= MAX_WEBP_FRAME_DURATION_MS,
    ensures
        plans@.len() == plan_upto(rectangles@, durations@, width, height, frames@.len() as nat).len(),
        forall|j: int|
            0 <= j < plans@.len() ==> {
                let e = plan_upto(rectangles@, durations@, width, height, frames@.len() as nat)[j];
                &&& (#[trigger] plans@[j]).rgba == frames@[e.0].rgba
                &&& plans@[j].rectangle == e.1
                &&& plans@[j].duration_ms == e.2
            },
{
    let n: usize = frames.len();
    let ghost rects = rectangles@;
    let ghost d = durations@;
    let mut plans: Vec<FramePlan<'a>> = Vec::with_capacity(n);
    let mut i: usize = 0;
    while i < n
        invariant
            n == frames@.len(),
            rects == rectangles@,
            d == durations@,
            rects.len() == n,
            d.len() == n,
            n > 0 ==> rects[0] is Some,
            forall|t: int| 0 <= t < d.len() ==> 0 <= #[trigger] d[t] <= MAX_WEBP_FRAME_DURATION_MS,
            i <= n,
            plans@.len() == plan_upto(rects, d, width, height, i as nat).len(),
            forall|j: int|
                0 <= j < plans@.len() ==> {
                    let e = plan_upto(rects, d, width, height, i as nat)[j];
                    &&& (#[trigger] plans@[j]).rgba == frames@[e.0].rgba
                    &&& plans@[j].rectangle == e.1
                    &&& plans@[j].duration_ms == e.2
                },
        decreases n - i,
    {
        proof {
            lemma_plan_keeps_duration(rects, d, width, height, i as nat);
        }
        let duration_ms: i64 = durations[i];
        let ghost prev_plans = plans@;
        let ghost prev = plan_upto(rects, d, width, height, i as nat);
        match rectangles[i] {
            Some(rectangle) => {
                plans.push(FramePlan { rgba: frames[i].rgba, rectangle, duration_ms });
                proof {
                    assert forall|j: int| 0 <= j < plans@.len() implies {
                        let e = plan_upto(rects, d, width, height, (i + 1) as nat)[j];
                        &&& (#[trigger] plans@[j]).rgba == frames@[e.0].rgba
                        &&& plans@[j].rectangle == e.1
                        &&& plans@[j].duration_ms == e.2
                    } by {
                        if j < prev_plans.len() {
                            assert(plans@[j] == prev_plans[j]);
                        }
                    }
                }
            },
            None => {
                let last_index: usize = plans.len() - 1;
                let previous = plans[last_index];
                if previous.duration_ms <= MAX_WEBP_FRAME_DURATION_MS - duration_ms {
                    plans.set(
                        last_index,
                        FramePlan {
                            rgba: previous.rgba,
                            rectangle: previous.rectangle,
                            duration_ms: previous.duration_ms + duration_ms,
                        },
                    );
                    proof {
                        assert forall|j: int| 0 <= j < plans@.len() implies {
                            let e = plan_upto(rects, d, width, height, (i + 1) as nat)[j];
                            &&& (#[trigger] plans@[j]).rgba == frames@[e.0].rgba
                            &&& plans@[j].rectangle == e.1
                            &&& plans@[j].duration_ms == e.2
                        } by {
                            if j < last_index {
                                assert(plans@[j] == prev_plans[j]);
                            }
                        }
                    }
                } else {
                    plans.push(
                        FramePlan { rgba: frames[i].rgba, rectangle: FrameRect::full(width, height), duration_ms },
                    );
                    proof {
                        assert forall|j: int| 0 <= j < plans@.len() implies {
                            let e = plan_upto(rects, d, width, height, (i + 1) as nat)[j];
                            &&& (#[trigger] plans@[j]).rgba == frames@[e.0].rgba
                            &&& plans@[j].rectangle == e.1
                            &&& plans@[j].duration_ms == e.2
                        } by {
                            if j < prev_plans.len() {
                                assert(plans@[j] == prev_plans[j]);
                            }
                        }
                    }
                }
            },
        }
        i = i + 1;
    }
    plans
}

/// `x` saturated at `usize::MAX`.
pub open spec fn saturate(x: int) -> int {
    if x > usize::MAX {
        usize::MAX as int
    } else {
        x
    }
}

/// `a * b`, saturating at `usize::MAX`.
pub fn saturating_mul(a: usize, b: usize) -> (r: usize)
    ensures
        r == saturate(a * b),
{
    match a.checked_mul(b) {
        Some(p) => p,
        None => usize::MAX,
    }
}

/// Estimated native memory for encoding one plan entry: 16 bytes per pixel
/// of its rectangle, saturating, and at least 1.
pub open spec fn plan_cost(p: FramePlan) -> int {
    let c = saturate(saturate(p.rectangle.width * p.rectangle.height) * 16);
    if c < 1 {
        1
    } else {
        c
    }
}

/// Estimated memory of the first `k` plan entries, added with saturation.
pub open spec fn chunk_cost(plans: Seq<FramePlan>, k: nat) -> int
    decreases k,
{
    if k == 0 {
        0
    } else {
        saturate(chunk_cost(plans, (k - 1) as nat) + plan_cost(plans[k - 1]))
    }
}

/// Adding entries never lowers the estimate.
pub proof fn lemma_chunk_cost_grows(plans: Seq<FramePlan>, i: nat, k: nat)
    requires
        i <= k <= plans.len(),
    ensures
        0 <= chunk_cost(plans, i) <= chunk_cost(plans, k) <= usize::MAX,
    decreases k,
{
    if k > 0 {
        if i < k {
            lemma_chunk_cost_grows(plans, i, (k - 1) as nat);
        }
        lemma_chunk_cost_grows(plans, (k - 1) as nat, (k - 1) as nat);
    }
}

/// The batch size `r` chosen for `plans` with `threads` threads: take as
/// many entries as there are threads (at least one, at most all entries),
/// and stop before the first entry after the first that would push the
/// estimated memory over the budget.
pub open spec fn chunk_len_rule(plans: Seq<FramePlan>, threads: int, r: int) -> bool {
    let m = if plans.len() <= threads {
        plans.len() as int
    } else if threads <= 0 {
        if plans.len() == 0 { 0 } else { 1 }
    } else {
        threads
    };
    &&& (m == 0 ==> r == 1)
    &&& (m >= 1 ==> r <= m)
    &&& (r >= 2 ==> chunk_cost(plans, r as nat) <= PARALLEL_ENCODER_MEMORY_BUDGET)
    &&& (r < m ==> chunk_cost(plans, (r + 1) as nat) > PARALLEL_ENCODER_MEMORY_BUDGET)
}

/// How many of the next plan entries to encode at once: at most
/// `available_threads` (at least one), and no more than fit together in the
/// memory budget, but always at least one.
pub fn parallel_chunk_len_for(plans: &[FramePlan<'_>], available_threads: usize) -> (r: usize)
    ensures
        r >= 1,
        chunk_len_rule(plans@, available_threads as int, r as int),
{
    let limit: usize = if available_threads > 1 {
        available_threads
    } else {
        1
    };
    let n: usize = if plans.len() < limit {
        plans.len()
    } else {
        limit
    };
    let mut estimated_bytes: usize = 0;
    let mut chunk_len: usize = 0;
    while chunk_len < n
        invariant
            n <= plans@.len(),
            chunk_len <= n,
            estimated_bytes == chunk_cost(plans@, chunk_len as nat),
            chunk_len >= 2 ==> chunk_cost(plans@, chunk_len as nat) <= PARALLEL_ENCODER_MEMORY_BUDGET,
        ensures
            chunk_len <= n,
            chunk_len >= 2 ==> chunk_cost(plans@, chunk_len as nat) <= PARALLEL_ENCODER_MEMORY_BUDGET,
            chunk_len < n ==> chunk_len > 0 && chunk_cost(plans@, (chunk_len + 1) as nat) > PARALLEL_ENCODER_MEMORY_BUDGET,
        decreases n - chunk_len,
    {
        let plan = plans[chunk_len];
        let pixels: usize = saturating_mul(plan.rectangle.width, plan.rectangle.height);
        let bytes: usize = saturating_mul(pixels, ESTIMATED_NATIVE_BYTES_PER_PIXEL);
        let plan_bytes: usize = if bytes > 1 {
            bytes
        } else {
            1
        };
        proof {
            lemma_chunk_cost_grows(plans@, chunk_len as nat, chunk_len as nat);
            assert(plan_bytes == plan_cost(plans@[chunk_len as int]));
        }
        if chunk_len > 0 && estimated_bytes.saturating_add(plan_bytes) > PARALLEL_ENCODER_MEMORY_BUDGET {
            break;
        }
        estimated_bytes = estimated_bytes.saturating_add(plan_bytes);
        chunk_len = chunk_len + 1;
    }
    if chunk_len > 1 {
        chunk_len
    } else {
        1
    }
}

/// The number of threads in rayon's current pool (`rayon::current_num_threads`).
/// A pool always has at least one thread (a configured count of zero, or an
/// unset one, falls back to the machine's parallelism or to one); which count
/// it is depends on the machine, the environment and the pool in use, and is
/// not stated.
#[verifier::external_body]
fn current_num_threads() -> (r: usize)
    ensures
        r >= 1,
{
    rayon::current_num_threads()
}

/// How many of the next plan entries to encode at once on the current
/// thread pool: the batch size of `parallel_chunk_len_for` for the pool's
/// thread count, which is at least one.
pub fn parallel_chunk_len(plans: &[FramePlan<'_>]) -> (r: usize)
    ensures
        r >= 1,
        plans@.len() >= 1 ==> r <= plans@.len(),
        r >= 2 ==> chunk_cost(plans@, r as nat) <= PARALLEL_ENCODER_MEMORY_BUDGET,
        exists|threads: int| 1 <= threads <= usize::MAX && #[trigger] chunk_len_rule(plans@, threads, r as int),
{
    let threads: usize = current_num_threads();
    let r: usize = parallel_chunk_len_for(plans, threads);
    proof {
        assert(chunk_len_rule(plans@, threads as int, r as int));
    }
    r
}

/// What the streaming encoder has accepted so far: the frame size it
/// expects, the timestamp of the last frame it took, and whether the native
/// encoder failed (after which nothing more is accepted).
pub struct WebpEncoderState {
    expected_frame_bytes: usize,
    previous_timestamp: Option<i32>,
    failed: bool,
}

impl WebpEncoderState {
    /// Bytes each frame must hold.
    pub closed spec fn frame_len(&self) -> usize {
        self.expected_frame_bytes
    }

    /// Timestamp of the last frame taken, if any.
    pub closed spec fn last_timestamp(&self) -> Option<i32> {
        self.previous_timestamp
    }

    /// Whether the native encoder failed.
    pub closed spec fn has_failed(&self) -> bool {
        self.failed
    }

    /// A frame of `len` bytes at `timestamp_ms` may be encoded next: the
    /// encoder has not failed, the frame has the canvas size, and it starts
    /// strictly after the previous frame, by no more than WebP's longest
    /// duration.
    pub open spec fn accepts_frame(&self, len: usize, timestamp_ms: i32) -> bool {
        &&& !self.has_failed()
        &&& len == self.frame_len()
        &&& self.last_timestamp() matches Some(p) ==> p < timestamp_ms && timestamp_ms - p <= MAX_WEBP_FRAME_DURATION_MS
    }

    /// The timeline may be closed at `final_timestamp_ms`: the encoder has not
    /// failed, took at least one frame, and the last frame's duration fits.
    pub open spec fn accepts_finish(&self, final_timestamp_ms: i32) -> bool {
        &&& !self.has_failed()
        &&& self.last_timestamp() is Some
        &&& 0 <= final_timestamp_ms - self.last_timestamp()->0 <= MAX_WEBP_FRAME_DURATION_MS
    }

    /// A fresh state for a canvas of the given size (see `frame_bytes`).
    pub fn new(dimensions: (u32, u32)) -> (r: Result<Self, Error>)
        ensures
            r is Ok <==> (0 < dimensions.0 <= MAX_WEBP_DIMENSION && 0 < dimensions.1 <= MAX_WEBP_DIMENSION),
            r matches Ok(s) ==> s.frame_len() == dimensions.0 * dimensions.1 * 4 && s.last_timestamp() is None
                && !s.has_failed(),
            r matches Err(e) ==> e is WebpEncode,
    {
        let expected_frame_bytes = frame_bytes(dimensions)?;
        Ok(WebpEncoderState { expected_frame_bytes, previous_timestamp: None, failed: false })
    }

    /// Whether a frame of `len` bytes at `timestamp_ms` may be encoded next:
    /// the encoder has not failed, the frame has the canvas size, and it
    /// starts strictly after the previous frame, by no more than WebP's
    /// longest duration.
    pub fn check_frame(&self, len: usize, timestamp_ms: i32) -> (r: Result<(), Error>)
        ensures
            r is Ok <==> self.accepts_frame(len, timestamp_ms),
            self.has_failed() ==> fails_with(r, "encoder cannot be reused after a native failure"@),
            !self.has_failed() && len != self.frame_len() ==> fails_with(r, frame_size_text(len as nat, self.frame_len() as nat)),
            !self.has_failed() && len == self.frame_len() && self.last_timestamp() is Some && timestamp_ms
                < self.last_timestamp()->0 ==> fails_with(r, "frame timestamps must be non-decreasing"@),
            !self.has_failed() && len == self.frame_len() && self.last_timestamp() is Some && timestamp_ms
                == self.last_timestamp()->0 ==> fails_with(r, "frame timestamps must be strictly increasing"@),
            !self.has_failed() && len == self.frame_len() && self.last_timestamp() is Some && timestamp_ms
                - self.last_timestamp()->0 > MAX_WEBP_FRAME_DURATION_MS ==> fails_with(
                r,
                "frame duration exceeds WebP's limit"@,
            ),
    {
        if self.failed {
            return Err(webp_error("encoder cannot be reused after a native failure"));
        }
        if len != self.expected_frame_bytes {
            return Err(Error::WebpEncode(frame_size_message(len, self.expected_frame_bytes)));
        }
        if let Some(previous) = self.previous_timestamp {
            if validate_frame_duration(previous, timestamp_ms)? == 0 {
                return Err(webp_error("frame timestamps must be strictly increasing"));
            }
        }
        Ok(())
    }

    /// Records that the frame at `timestamp_ms` was encoded.
    pub fn frame_added(&mut self, timestamp_ms: i32)
        ensures
            final(self).last_timestamp() == Some(timestamp_ms),
            final(self).frame_len() == old(self).frame_len(),
            final(self).has_failed() == old(self).has_failed(),
    {
        self.previous_timestamp = Some(timestamp_ms);
    }

    /// Records that the native encoder failed.
    pub fn mark_failed(&mut self)
        ensures
            final(self).has_failed(),
            final(self).last_timestamp() == old(self).last_timestamp(),
            final(self).frame_len() == old(self).frame_len(),
    {
        self.failed = true;
    }

    /// Whether the timeline may be closed at `final_timestamp_ms`: the encoder
    /// has not failed, took at least one frame, and the last frame's duration
    /// fits. Returns the last frame's timestamp.
    pub fn check_finish(&self, final_timestamp_ms: i32) -> (r: Result<i32, Error>)
        ensures
            r is Ok <==> self.accepts_finish(final_timestamp_ms),
            r matches Ok(p) ==> self.last_timestamp() == Some(p),
            self.has_failed() ==> fails_with(r, "encoder cannot be finalized after a native failure"@),
            !self.has_failed() && self.last_timestamp() is None ==> fails_with(r, "no frames were added"@),
    {
        if self.failed {
            return Err(webp_error("encoder cannot be finalized after a native failure"));
        }
        let previous_timestamp: i32 = match self.previous_timestamp {
            Some(p) => p,
            None => {
                return Err(webp_error("no frames were added"));
            },
        };
        validate_frame_duration(previous_timestamp, final_timestamp_ms)?;
        Ok(previous_timestamp)
    }
}

/// A native failure is final: once it is recorded, no frame and no finish
/// is accepted, whatever the frame, and recording it again or recording a
/// frame keeps it (see `frame_added` and `mark_failed`).
pub proof fn law_failure_is_final(s: WebpEncoderState, len: usize, timestamp_ms: i32, final_timestamp_ms: i32)
    requires
        s.has_failed(),
    ensures
        !s.accepts_frame(len, timestamp_ms),
        !s.accepts_finish(final_timestamp_ms),
{
}

} // verus!
