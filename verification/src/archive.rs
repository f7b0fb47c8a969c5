//! How a template archive names the images of each frame.
use vstd::prelude::*;
use crate::cli::{decimal, format_number, string_from_chars};
use crate::error::Error;
use crate::frame::RgbaFrame;
use crate::render::Mapping;

verus! {

/// The archive entry holding the `kind` image (`light`, `dark`, `map`,
/// `sel` or `transparent`) of frame `frame`: `frame{frame}_{kind}.png`.
pub open spec fn frame_image_path(frame: int, kind: Seq<char>) -> Seq<char> {
    "frame"@ + decimal(frame) + "_"@ + kind + ".png"@
}

/// The archive entry of the `kind` image of frame `frame` (see
/// `frame_image_path`).
pub fn frame_image_name(frame: i32, kind: &str) -> (s: String)
    ensures
        s@ == frame_image_path(frame as int, kind@),
{
    let digits = string_from_chars(&format_number(frame, None));
    let mut s = String::from_str("frame");
    s.append(digits.as_str());
    s.append("_");
    s.append(kind);
    s.append(".png");
    s
}

/// The frame whose images are used for frame `index` of a template of
/// `frames` frames: a still template (one frame or fewer) has only frame 0.
pub fn mapping_index(frames: u32, index: i32) -> (r: i32)
    ensures
        r == if frames > 1 {
            index
        } else {
            0
        },
{
    if frames > 1 {
        index
    } else {
        0
    }
}

/// What `image::load_from_memory` makes of `bytes`, read as RGBA
/// (`DynamicImage::to_rgba8`): the width, the height and the pixel buffer of
/// the decoded image, or the text of its error. The format is guessed from
/// the first bytes; this program registers no format hooks of its own.
pub uninterp spec fn decoded_image(bytes: Seq<u8>) -> Result<(u32, u32, Seq<u8>), Seq<char>>;

/// `image::load_from_memory` followed by `to_rgba8`: decodes `bytes` and hands
/// back the width, height and RGBA buffer, or the error's text. An RGBA
/// buffer holds at least four bytes per pixel (`ImageBuffer::from_raw`
/// refuses a shorter one).
#[verifier::external_body]
fn decode_image(bytes: &[u8]) -> (r: Result<(u32, u32, Vec<u8>), String>)
    ensures
        match r {
            Ok(img) => decoded_image(bytes@) == Ok::<(u32, u32, Seq<u8>), Seq<char>>((img.0, img.1, img.2@))
                && img.2@.len() >= img.0 * img.1 * 4,
            Err(m) => decoded_image(bytes@) == Err::<(u32, u32, Seq<u8>), Seq<char>>(m@),
        },
{
    match image::load_from_memory(bytes) {
        Ok(img) => {
            let rgba = img.to_rgba8();
            let (width, height) = rgba.dimensions();
            Ok((width, height, rgba.into_raw()))
        },
        Err(e) => Err(e.to_string()),
    }
}

/// The pixels of a decoded image: its size and the first four bytes per
/// pixel of its buffer.
pub open spec fn image_pixels(d: (u32, u32, Seq<u8>)) -> (u32, u32, Seq<u8>) {
    (d.0, d.1, d.2.take(d.0 * d.1 * 4))
}

/// `f` holds the image `d`.
pub open spec fn frame_holds(f: RgbaFrame, d: (u32, u32, Seq<u8>)) -> bool {
    f.w() == d.0 && f.h() == d.1 && f.bytes() == d.2
}

/// Decodes `bytes` into a frame; a failure is an image error with the
/// decoder's text.
pub fn decode_frame(bytes: &[u8]) -> (r: Result<RgbaFrame, Error>)
    ensures
        match decoded_image(bytes@) {
            Ok(d) => r matches Ok(f) && frame_holds(f, image_pixels(d)),
            Err(t) => r matches Err(e) && e matches Error::Image(m) && m@ == t,
        },
{
    match decode_image(bytes) {
        Ok((width, height, data)) => {
            let len: usize = data.len();
            assert((width as int) * (height as int) <= (width as int) * (height as int) * 4 <= len) by (nonlinear_arith)
                requires
                    (width as int) * (height as int) * 4 <= len,
                    0 <= width,
                    0 <= height,
            ;
            let n: usize = (width as usize) * (height as usize) * 4;
            let pixels: Vec<u8> = if data.len() == n {
                data
            } else {
                let mut prefix: Vec<u8> = Vec::with_capacity(n);
                let mut i: usize = 0;
                while i < n
                    invariant
                        i <= n,
                        n <= data@.len(),
                        prefix@ == data@.take(i as int),
                    decreases n - i,
                {
                    prefix.push(data[i]);
                    assert(prefix@ =~= data@.take((i + 1) as int));
                    i = i + 1;
                }
                prefix
            };
            assert(pixels@ =~= data@.take(n as int));
            match RgbaFrame::from_raw(width, height, pixels) {
                Some(f) => Ok(f),
                None => Err(Error::Image(String::new())),
            }
        },
        Err(m) => Err(Error::Image(m)),
    }
}

/// The entry holds an image that decodes.
pub open spec fn entry_decodes(entry: Option<Result<Vec<u8>, Error>>) -> bool {
    entry matches Some(Ok(b)) && decoded_image(b@) is Ok
}

/// The image that the entry decodes to.
pub open spec fn entry_pixels(entry: Option<Result<Vec<u8>, Error>>) -> (u32, u32, Seq<u8>) {
    match entry {
        Some(Ok(b)) => image_pixels(decoded_image(b@)->Ok_0),
        _ => (0, 0, Seq::empty()),
    }
}

/// `e` is the error of loading the `kind` image of frame `frame` from
/// `entry`: a missing entry gives `MissingFile` with the entry's name, a
/// failed read its own error, and bytes that do not decode an image error
/// with the decoder's text.
pub open spec fn entry_error(frame: int, kind: Seq<char>, entry: Option<Result<Vec<u8>, Error>>, e: Error) -> bool {
    match entry {
        None => e matches Error::MissingFile(m) && m@ == frame_image_path(frame, kind),
        Some(Err(x)) => e == x,
        Some(Ok(b)) => decoded_image(b@) matches Err(t) && e matches Error::Image(m) && m@ == t,
    }
}

/// Loads the `kind` image of frame `frame` from its archive entry.
fn load_entry(frame: i32, kind: &str, entry: Option<Result<Vec<u8>, Error>>) -> (r: Result<RgbaFrame, Error>)
    ensures
        r is Ok <==> entry_decodes(entry),
        r matches Ok(f) ==> frame_holds(f, entry_pixels(entry)),
        r matches Err(e) ==> entry_error(frame as int, kind@, entry, e),
{
    match entry {
        None => Err(Error::MissingFile(frame_image_name(frame, kind))),
        Some(Err(e)) => Err(e),
        Some(Ok(bytes)) => decode_frame(bytes.as_slice()),
    }
}

/// The mapping of frame `frame` from the archive entries of its images,
/// read in the order `light`, `dark`, `map`, `sel`: the first of them that
/// is missing, cannot be read or does not decode gives the error. The
/// neutral frame is the `transparent` image, or a copy of `light` when that
/// one is missing, cannot be read or does not decode. Names are the entry
/// names, the scale is 1 and nothing is cached yet.
pub fn assemble_mapping(
    frame: i32,
    light: Option<Result<Vec<u8>, Error>>,
    dark: Option<Result<Vec<u8>, Error>>,
    map: Option<Result<Vec<u8>, Error>>,
    sel: Option<Result<Vec<u8>, Error>>,
    transparent: Option<Result<Vec<u8>, Error>>,
) -> (r: Result<Mapping, Error>)
    ensures
        r is Ok <==> entry_decodes(light) && entry_decodes(dark) && entry_decodes(map) && entry_decodes(sel),
        !entry_decodes(light) ==> (r matches Err(e) && entry_error(frame as int, "light"@, light, e)),
        entry_decodes(light) && !entry_decodes(dark) ==> (r matches Err(e) && entry_error(
            frame as int,
            "dark"@,
            dark,
            e,
        )),
        entry_decodes(light) && entry_decodes(dark) && !entry_decodes(map) ==> (r matches Err(e) && entry_error(
            frame as int,
            "map"@,
            map,
            e,
        )),
        entry_decodes(light) && entry_decodes(dark) && entry_decodes(map) && !entry_decodes(sel) ==> (r matches Err(
            e,
        ) && entry_error(frame as int, "sel"@, sel, e)),
        r matches Ok(m) ==> {
            &&& frame_holds(m.light, entry_pixels(light))
            &&& frame_holds(m.dark, entry_pixels(dark))
            &&& frame_holds(m.map1, entry_pixels(map))
            &&& frame_holds(m.map2, entry_pixels(sel))
            &&& frame_holds(
                m.neutral,
                if entry_decodes(transparent) {
                    entry_pixels(transparent)
                } else {
                    entry_pixels(light)
                },
            )
            &&& m.scale == 1
            &&& m.smooth_cache is None
            &&& m.light_name@ == frame_image_path(frame as int, "light"@)
            &&& m.dark_name@ == frame_image_path(frame as int, "dark"@)
            &&& m.map1_name@ == frame_image_path(frame as int, "map"@)
            &&& m.map2_name@ == frame_image_path(frame as int, "sel"@)
            &&& m.neutral_name@ == frame_image_path(frame as int, "transparent"@)
        },
{
    let light = load_entry(frame, "light", light)?;
    let dark = load_entry(frame, "dark", dark)?;
    let map1 = load_entry(frame, "map", map)?;
    let map2 = load_entry(frame, "sel", sel)?;
    let neutral = match load_entry(frame, "transparent", transparent) {
        Ok(img) => img,
        Err(_) => light.clone(),
    };
    Ok(Mapping {
        light,
        dark,
        map1,
        map2,
        neutral,
        scale: 1,
        light_name: frame_image_name(frame, "light"),
        dark_name: frame_image_name(frame, "dark"),
        map1_name: frame_image_name(frame, "map"),
        map2_name: frame_image_name(frame, "sel"),
        neutral_name: frame_image_name(frame, "transparent"),
        smooth_cache: None,
    })
}

/// The eight bytes that open every PNG file.
pub open spec fn png_signature() -> Seq<u8> {
    seq![137u8, 80u8, 78u8, 71u8, 13u8, 10u8, 26u8, 10u8]
}

/// Whether `bytes` start with the PNG signature.
pub fn is_png(bytes: &[u8]) -> (r: bool)
    ensures
        r == (bytes@.len() >= 8 && bytes@.take(8) == png_signature()),
{
    let signature: [u8; 8] = [137, 80, 78, 71, 13, 10, 26, 10];
    if bytes.len() < 8 {
        return false;
    }
    let mut i: usize = 0;
    while i < 8
        invariant
            i <= 8,
            bytes@.len() >= 8,
            signature@ == png_signature(),
            bytes@.take(i as int) == png_signature().take(i as int),
        decreases 8 - i,
    {
        if bytes[i] != signature[i] {
            assert(bytes@.take(8)[i as int] != png_signature()[i as int]);
            return false;
        }
        assert(bytes@.take((i + 1) as int) =~= png_signature().take((i + 1) as int));
        i = i + 1;
    }
    assert(png_signature().take(8) =~= png_signature());
    true
}

} // verus!
