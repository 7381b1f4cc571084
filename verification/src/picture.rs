//! Image files: decoding them to pixels, and encoding pixels as PNG. The codecs are those of
//! the `image` crate.

use crate::bilateral::{bilateral, smoothed_at, weights_ok};
use crate::separation::{separate, separated, Layers};
use crate::stencil::{sheet_byte, sheet_pixels, Color};
use image::ImageEncoder;
use vstd::prelude::*;
use vstd::string::*;

verus! {

/// The longest side of an image that is decoded to a given size.
pub const MAX_DECODED: u32 = 0x100_0000;

/// What decoding an image file gives: the red, green and blue bytes of its pixels, in its own
/// size, or what is wrong with it.
pub uninterp spec fn decoded_rgb(bytes: Seq<u8>, path: Seq<char>) -> Result<Seq<u8>, Seq<char>>;

/// The width and height that an image file states, or what is wrong with it.
pub uninterp spec fn stated_size(bytes: Seq<u8>, path: Seq<char>) -> Result<
    (u32, u32),
    Seq<char>,
>;

/// The PNG file that encoding bytes of pixels gives, or what is wrong with them.
pub uninterp spec fn encoded_png(
    bytes: Seq<u8>,
    w: u32,
    h: u32,
    alpha: bool,
) -> Result<Seq<u8>, Seq<char>>;

/// `image::load_from_memory_with_format`, with the format that
/// `image::ImageFormat::from_path` tells by the path's extension, and on what it gives
/// `DynamicImage::resize_exact` with the Lanczos filter and `DynamicImage::to_rgb8`. Whether
/// decoding succeeds depends on the bytes and the path alone, and an error comes as its
/// message. The pixels come row by row, three bytes to each, and there are as many as the
/// size says. In the image's own size resizing copies, so that they are the decoded ones;
/// the filter for other sizes takes sines whose last digits may differ between machines, and
/// nothing more is said of its pixels.
#[verifier::external_body]
fn decode_rgb(bytes: &[u8], path: &str, w: u32, h: u32) -> (r: Result<Vec<u8>, String>)
    requires
        0 < w <= MAX_DECODED,
        0 < h <= MAX_DECODED,
    ensures
        match r {
            Ok(v) => {
                &&& decoded_rgb(bytes@, path@) is Ok
                &&& v@.len() == 3 * w * h
                &&& stated_size(bytes@, path@) == Ok::<(u32, u32), Seq<char>>((w, h))
                    ==> decoded_rgb(bytes@, path@) == Ok::<Seq<u8>, Seq<char>>(v@)
            },
            Err(e) => decoded_rgb(bytes@, path@) == Err::<Seq<u8>, Seq<char>>(e@),
        },
{
    image::ImageFormat::from_path(path)
        .and_then(|f| image::load_from_memory_with_format(bytes, f))
        .map(|i| i.resize_exact(w, h, image::imageops::FilterType::Lanczos3).to_rgb8().into_raw())
        .map_err(|e| e.to_string())
}

/// `image::ImageReader::into_dimensions`, with the format that
/// `image::ImageFormat::from_path` tells by the path's extension. Its outcome depends on the
/// bytes and the path alone; an error comes as its message.
#[verifier::external_body]
fn read_size(bytes: &[u8], path: &str) -> (r: Result<(u32, u32), String>)
    ensures
        match r {
            Ok(v) => stated_size(bytes@, path@) == Ok::<(u32, u32), Seq<char>>(v),
            Err(e) => stated_size(bytes@, path@) == Err::<(u32, u32), Seq<char>>(e@),
        },
{
    image::ImageFormat::from_path(path)
        .and_then(|f| {
            image::ImageReader::with_format(std::io::Cursor::new(bytes), f).into_dimensions()
        })
        .map_err(|e| e.to_string())
}

/// `write_image` of `image::codecs::png::PngEncoder`, which writes bytes of pixels, four to
/// each with opacity and three without, as a PNG file. Its outcome depends on the bytes, the
/// size and which of the two it is; an error comes as its message.
#[verifier::external_body]
fn encode_png(bytes: &[u8], w: u32, h: u32, alpha: bool) -> (r: Result<Vec<u8>, String>)
    requires
        bytes@.len() == (if alpha {
            4int
        } else {
            3int
        }) * w * h,
    ensures
        match r {
            Ok(v) => encoded_png(bytes@, w, h, alpha) == Ok::<Seq<u8>, Seq<char>>(v@),
            Err(e) => encoded_png(bytes@, w, h, alpha) == Err::<Seq<u8>, Seq<char>>(e@),
        },
{
    let mut out: Vec<u8> = Vec::new();
    let color = match alpha {
        true => image::ExtendedColorType::Rgba8,
        false => image::ExtendedColorType::Rgb8,
    };
    image::codecs::png::PngEncoder::new(&mut out)
        .write_image(bytes, w, h, color)
        .map(|_| out)
        .map_err(|e| e.to_string())
}

/// The size of an image, or a message that names the file.
pub open spec fn size_told(bytes: Seq<u8>, path: Seq<char>) -> Result<(int, int), Seq<char>> {
    match stated_size(bytes, path) {
        Ok(d) => Ok((d.0 as int, d.1 as int)),
        Err(e) => Err("read "@ + path + ": "@ + e),
    }
}

/// The size of an image in pixels.
pub fn image_size(bytes: &[u8], path: &str) -> (r: Result<(usize, usize), String>)
    ensures
        match r {
            Ok(d) => size_told(bytes@, path@) == Ok::<(int, int), Seq<char>>(
                (d.0 as int, d.1 as int),
            ),
            Err(e) => size_told(bytes@, path@) == Err::<(int, int), Seq<char>>(e@),
        },
{
    match read_size(bytes, path) {
        Ok((w, h)) => Ok((w as usize, h as usize)),
        Err(e) => {
            let mut s: String = String::from_str("read ");
            s.append(path);
            s.append(": ");
            s.append(e.as_str());
            Err(s)
        },
    }
}

/// Whether `pixels` are the bytes, three to each.
pub open spec fn are_pixels(bytes: Seq<u8>, pixels: Seq<[u8; 3]>) -> bool {
    &&& bytes.len() == 3 * pixels.len()
    &&& forall|i: int, ch: int|
        0 <= i < pixels.len() && 0 <= ch < 3 ==> #[trigger] pixels[i]@[ch] == bytes[3 * i + ch]
}

/// Groups bytes into pixels, three to each.
pub fn group_pixels(bytes: &[u8], n: usize) -> (r: Vec<[u8; 3]>)
    requires
        bytes@.len() == 3 * n,
    ensures
        are_pixels(bytes@, r@),
{
    let len: usize = bytes.len();
    let mut r: Vec<[u8; 3]> = Vec::new();
    for i in 0..n
        invariant
            len == bytes@.len(),
            bytes@.len() == 3 * n,
            r@.len() == i,
            forall|j: int, ch: int|
                0 <= j < i && 0 <= ch < 3 ==> #[trigger] r@[j]@[ch] == bytes@[3 * j + ch],
    {
        let ghost before = r@;
        r.push([bytes[3 * i], bytes[3 * i + 1], bytes[3 * i + 2]]);
        proof {
            assert forall|j: int, ch: int| 0 <= j < i + 1 && 0 <= ch < 3 implies
                #[trigger] r@[j]@[ch] == bytes@[3 * j + ch] by {
                if j < i {
                    assert(r@[j] == before[j]);
                } else {
                    assert(ch == 0 || ch == 1 || ch == 2);
                }
            }
        }
    }
    r
}

/// The message about a file that cannot be decoded.
pub open spec fn open_failed(e: Seq<char>) -> Seq<char> {
    "failed to open image: "@ + e
}

/// Whether an image file states the given size.
pub open spec fn own_size(bytes: Seq<u8>, path: Seq<char>, w: int, h: int) -> bool {
    stated_size(bytes, path) == Ok::<(u32, u32), Seq<char>>((w as u32, h as u32))
}

/// Decodes an image file, resized to `w` by `h` pixels. The format goes by the path's
/// extension. In its own size the pixels are the decoded ones.
pub fn load_pixels(bytes: &[u8], path: &str, w: usize, h: usize) -> (r: Result<
    Vec<[u8; 3]>,
    String,
>)
    requires
        0 < w <= MAX_DECODED,
        0 < h <= MAX_DECODED,
    ensures
        match decoded_rgb(bytes@, path@) {
            Ok(raw) => r matches Ok(px) && px@.len() == w * h && (own_size(
                bytes@,
                path@,
                w as int,
                h as int,
            ) ==> are_pixels(raw, px@)),
            Err(e) => r matches Err(s) && s@ == open_failed(e),
        },
{
    match decode_rgb(bytes, path, w as u32, h as u32) {
        Ok(raw) => {
            let total: usize = raw.len();
            proof {
                assert(3 * w * h == 3 * (w * h)) by (nonlinear_arith);
            }
            Ok(group_pixels(raw.as_slice(), total / 3))
        },
        Err(e) => {
            let mut s: String = String::from_str("failed to open image: ");
            s.append(e.as_str());
            Err(s)
        },
    }
}

/// Whether `layers` are the inks of an image.
pub open spec fn are_inks(px: Seq<[u8; 3]>, layers: Layers) -> bool {
    &&& layers.wf()
    &&& layers.pixels@.len() == px.len()
    &&& forall|i: int|
        0 <= i < px.len() ==> #[trigger] layers.pixels@[i] == separated(
            px[i]@[0],
            px[i]@[1],
            px[i]@[2],
        )
}

/// Decodes an image file, resized to `w` by `h` pixels, and separates it into inks. In its
/// own size the pixels that are separated are the decoded ones.
pub fn load(bytes: &[u8], path: &str, w: usize, h: usize) -> (r: Result<Layers, String>)
    requires
        0 < w <= MAX_DECODED,
        0 < h <= MAX_DECODED,
    ensures
        match decoded_rgb(bytes@, path@) {
            Ok(raw) => r is Ok && exists|px: Seq<[u8; 3]>| #[trigger]
                are_inks(px, r->Ok_0) && px.len() == w * h && (own_size(
                    bytes@,
                    path@,
                    w as int,
                    h as int,
                ) ==> are_pixels(raw, px)),
            Err(e) => r matches Err(s) && s@ == open_failed(e),
        },
{
    match load_pixels(bytes, path, w, h) {
        Ok(px) => {
            let layers: Layers = separate(px.as_slice());
            let r: Result<Layers, String> = Ok(layers);
            proof {
                assert(are_inks(px@, r->Ok_0));
            }
            r
        },
        Err(e) => Err(e),
    }
}

/// Whether `layers` are the inks of an image that is smoothed first; see `smoothed_at`.
pub open spec fn are_smooth_inks(
    px: Seq<[u8; 3]>,
    w: int,
    h: int,
    rad: int,
    near: Seq<i64>,
    alike: Seq<i64>,
    layers: Layers,
) -> bool {
    &&& layers.wf()
    &&& layers.pixels@.len() == w * h
    &&& forall|i: int|
        0 <= i < w * h ==> #[trigger] layers.pixels@[i] == separated(
            smoothed_at(px, w, h, rad, near, alike, i % w, i / w, 0) as u8,
            smoothed_at(px, w, h, rad, near, alike, i % w, i / w, 1) as u8,
            smoothed_at(px, w, h, rad, near, alike, i % w, i / w, 2) as u8,
        )
}

/// Decodes an image file, resized to `w` by `h` pixels, smooths it and separates it into
/// inks. In its own size the pixels that are smoothed are the decoded ones.
pub fn load_filtered(
    bytes: &[u8],
    path: &str,
    w: usize,
    h: usize,
    rad: usize,
    near: &[i64],
    alike: &[i64],
) -> (r: Result<Layers, String>)
    requires
        0 < w <= MAX_DECODED,
        0 < h <= MAX_DECODED,
        weights_ok(rad as int, near@, alike@),
    ensures
        match decoded_rgb(bytes@, path@) {
            Ok(raw) => r is Ok && exists|px: Seq<[u8; 3]>| #[trigger]
                are_smooth_inks(
                    px,
                    w as int,
                    h as int,
                    rad as int,
                    near@,
                    alike@,
                    r->Ok_0,
                ) && px.len() == w * h && (own_size(bytes@, path@, w as int, h as int)
                    ==> are_pixels(raw, px)),
            Err(e) => r matches Err(s) && s@ == open_failed(e),
        },
{
    match load_pixels(bytes, path, w, h) {
        Ok(px) => {
            let smooth: Vec<[u8; 3]> = bilateral(px.as_slice(), w, h, rad, near, alike);
            let layers: Layers = separate(smooth.as_slice());
            proof {
                let (wi, hi, ri) = (w as int, h as int, rad as int);
                assert forall|i: int| 0 <= i < w * h implies #[trigger] layers.pixels@[i]
                    == separated(
                    smoothed_at(px@, wi, hi, ri, near@, alike@, i % wi, i / wi, 0) as u8,
                    smoothed_at(px@, wi, hi, ri, near@, alike@, i % wi, i / wi, 1) as u8,
                    smoothed_at(px@, wi, hi, ri, near@, alike@, i % wi, i / wi, 2) as u8,
                ) by {
                    assert(smooth@[i]@[0] == smoothed_at(
                        px@,
                        wi,
                        hi,
                        ri,
                        near@,
                        alike@,
                        i % wi,
                        i / wi,
                        0,
                    ));
                    assert(smooth@[i]@[1] == smoothed_at(
                        px@,
                        wi,
                        hi,
                        ri,
                        near@,
                        alike@,
                        i % wi,
                        i / wi,
                        1,
                    ));
                    assert(smooth@[i]@[2] == smoothed_at(
                        px@,
                        wi,
                        hi,
                        ri,
                        near@,
                        alike@,
                        i % wi,
                        i / wi,
                        2,
                    ));
                }
            }
            let r: Result<Layers, String> = Ok(layers);
            proof {
                let (wi, hi, ri) = (w as int, h as int, rad as int);
                assert(are_smooth_inks(px@, wi, hi, ri, near@, alike@, r->Ok_0));
            }
            r
        },
        Err(e) => Err(e),
    }
}

/// The bytes of some pixels, three to each.
pub fn pixel_bytes(pixels: &[[u8; 3]]) -> (r: Vec<u8>)
    ensures
        are_pixels(r@, pixels@),
{
    let mut r: Vec<u8> = Vec::new();
    for i in 0..pixels.len()
        invariant
            r@.len() == 3 * i,
            forall|j: int, ch: int|
                0 <= j < i && 0 <= ch < 3 ==> #[trigger] pixels@[j]@[ch] == r@[3 * j + ch],
    {
        let p: [u8; 3] = pixels[i];
        let ghost before = r@;
        r.push(p[0]);
        r.push(p[1]);
        r.push(p[2]);
        proof {
            assert forall|j: int, ch: int| 0 <= j < i + 1 && 0 <= ch < 3 implies
                #[trigger] pixels@[j]@[ch] == r@[3 * j + ch] by {
                if j < i {
                    assert(r@[3 * j + ch] == before[3 * j + ch]);
                } else {
                    assert(ch == 0 || ch == 1 || ch == 2);
                }
            }
        }
    }
    r
}

/// Whether `bytes` are those of a raster sheet.
pub open spec fn are_sheet_bytes(c: Color, mask: Seq<bool>, bytes: Seq<u8>) -> bool {
    &&& bytes.len() == 4 * mask.len()
    &&& forall|j: int, ch: int|
        0 <= j < mask.len() && 0 <= ch < 4 ==> #[trigger] bytes[4 * j + ch] == sheet_byte(
            c,
            mask[j],
            ch,
        )
}

/// A raster sheet as a PNG file: the colour where material stays, clear where it is cut
/// away.
pub fn sheet_png(c: &Color, mask: &[bool], w: usize, h: usize) -> (r: Result<Vec<u8>, String>)
    requires
        mask@.len() == w * h,
        w <= u32::MAX,
        h <= u32::MAX,
        4 * mask@.len() <= usize::MAX,
    ensures
        exists|bytes: Seq<u8>| #[trigger]
            are_sheet_bytes(*c, mask@, bytes) && match r {
                Ok(v) => encoded_png(bytes, w as u32, h as u32, true) == Ok::<
                    Seq<u8>,
                    Seq<char>,
                >(v@),
                Err(e) => encoded_png(bytes, w as u32, h as u32, true) == Err::<
                    Seq<u8>,
                    Seq<char>,
                >(e@),
            },
{
    let bytes: Vec<u8> = sheet_pixels(c, mask);
    proof {
        assert(are_sheet_bytes(*c, mask@, bytes@));
        assert(4 * w * h == 4 * (w * h)) by (nonlinear_arith);
    }
    encode_png(bytes.as_slice(), w as u32, h as u32, true)
}

/// An opaque image as a PNG file.
pub fn image_png(pixels: &[[u8; 3]], w: usize, h: usize) -> (r: Result<Vec<u8>, String>)
    requires
        pixels@.len() == w * h,
        w <= u32::MAX,
        h <= u32::MAX,
    ensures
        exists|bytes: Seq<u8>| #[trigger]
            are_pixels(bytes, pixels@) && match r {
                Ok(v) => encoded_png(bytes, w as u32, h as u32, false) == Ok::<
                    Seq<u8>,
                    Seq<char>,
                >(v@),
                Err(e) => encoded_png(bytes, w as u32, h as u32, false) == Err::<
                    Seq<u8>,
                    Seq<char>,
                >(e@),
            },
{
    let bytes: Vec<u8> = pixel_bytes(pixels);
    proof {
        assert(3 * w * h == 3 * (w * h)) by (nonlinear_arith);
    }
    encode_png(bytes.as_slice(), w as u32, h as u32, false)
}

} // verus!
