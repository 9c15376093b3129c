//! Turning a wire payload into an image.
//!
//! Conversion of a page takes milliseconds and decoding a PNG tens of them, so
//! callers run this away from the thread that draws.
use crate::typst_viewer::protocol::Encoding;
use vstd::prelude::*;

verus! {

/// A page image: BGRA8 with straight alpha, and the scale that it was rendered
/// at, by the bits of the number.
#[derive(Debug)]
pub struct RenderImage {
    pub width: u32,
    pub height: u32,
    pub pixels: Vec<u8>,
    pub scale_factor: u32,
}

/// Why the image crate could not decode an image.
#[verifier::external_type_specification]
#[verifier::external_body]
pub struct ExImageError(image::ImageError);

/// Why a payload gives no image.
#[derive(Debug)]
pub enum DecodeError {
    Png(image::ImageError),
    /// A PNG of this width and height, which the header contradicts.
    PngSize(u32, u32),
    /// The pixels do not fill the declared dimensions.
    Dimensions,
}

/// What a PNG decodes to: its width, its height and its RGBA8 pixels.
pub uninterp spec fn decoded_png(bytes: Seq<u8>) -> Option<(u32, u32, Seq<u8>)>;

/// `image::load_from_memory_with_format` for PNG and `into_rgba8`: whether the
/// bytes decode, and to what size and pixels, depends on the bytes alone.
#[verifier::external_body]
fn load_png(payload: &[u8]) -> (r: Result<(u32, u32, Vec<u8>), image::ImageError>)
    ensures
        match r {
            Ok((width, height, pixels)) => decoded_png(payload@) == Some(
                (width, height, pixels@),
            ),
            Err(_) => decoded_png(payload@) is None,
        },
{
    let decoded = image::load_from_memory_with_format(payload, image::ImageFormat::Png)?;
    let decoded = decoded.into_rgba8();
    Ok((decoded.width(), decoded.height(), decoded.into_raw()))
}

/// Pixels with the red and blue channels swapped; bytes after the last whole
/// pixel stay as they are.
pub open spec fn swapped(pixels: Seq<u8>) -> Seq<u8> {
    Seq::new(
        pixels.len(),
        |i: int|
            if i - i % 4 + 4 > pixels.len() {
                pixels[i]
            } else if i % 4 == 0 {
                pixels[i + 2]
            } else if i % 4 == 2 {
                pixels[i - 2]
            } else {
                pixels[i]
            },
    )
}

/// Swapping the channels twice is the identity.
pub proof fn law_swap_twice(pixels: Seq<u8>)
    ensures
        swapped(swapped(pixels)) == pixels,
{
    assert(swapped(swapped(pixels)) =~= pixels);
}

/// Swaps the red and blue channels in place.
///
/// The pages are requested opaque, which makes premultiplied and straight alpha
/// the same bytes. If that guarantee is ever relaxed, this function must change
/// with it.
pub fn swap_rgba_to_bgra(buffer: &mut Vec<u8>)
    ensures
        final(buffer)@ == swapped(old(buffer)@),
{
    let ghost before = buffer@;
    let len: usize = buffer.len();
    let mut i: usize = 0;
    while len - i >= 4
        invariant
            i <= len,
            i % 4 == 0,
            len == before.len(),
            buffer@.len() == len,
            forall|j: int| 0 <= j < i ==> #[trigger] buffer@[j] == swapped(before)[j],
            forall|j: int| i <= j < len ==> #[trigger] buffer@[j] == before[j],
        decreases len - i,
    {
        let red: u8 = buffer[i];
        let blue: u8 = buffer[i + 2];
        buffer.set(i, blue);
        buffer.set(i + 2, red);
        assert forall|j: int| 0 <= j < i + 4 implies #[trigger] buffer@[j] == swapped(
            before,
        )[j] by {
            if j >= i {
                assert(j - j % 4 == i);
            }
        }
        i = i + 4;
    }
    assert forall|j: int| 0 <= j < len implies #[trigger] buffer@[j] == swapped(before)[j] by {
        if j >= i {
            assert(j - j % 4 + 4 > len);
        }
    }
    assert(buffer@ =~= swapped(before));
}

/// The pixels of a payload, before their channels are swapped.
pub open spec fn payload_pixels(
    payload: Seq<u8>,
    px_width: u32,
    px_height: u32,
    encoding: Encoding,
) -> Option<Seq<u8>> {
    match encoding {
        Encoding::Raw => Some(payload),
        Encoding::Png => match decoded_png(payload) {
            Some((width, height, pixels)) => if width == px_width && height == px_height {
                Some(pixels)
            } else {
                None
            },
            None => None,
        },
    }
}

/// Decodes a PNG whose size is known.
fn decode_png(payload: &[u8], px_width: u32, px_height: u32) -> (r: Result<Vec<u8>, DecodeError>)
    ensures
        match r {
            Ok(pixels) => decoded_png(payload@) == Some((px_width, px_height, pixels@)),
            Err(DecodeError::Png(_)) => decoded_png(payload@) is None,
            Err(DecodeError::PngSize(width, height)) => {
                &&& decoded_png(payload@) matches Some((w, h, _))
                &&& (w, h) == (width, height)
                &&& width != px_width || height != px_height
            },
            Err(DecodeError::Dimensions) => false,
        },
{
    match load_png(payload) {
        Ok((width, height, pixels)) => if width != px_width || height != px_height {
            Err(DecodeError::PngSize(width, height))
        } else {
            Ok(pixels)
        },
        Err(error) => Err(DecodeError::Png(error)),
    }
}

/// Makes an image of RGBA8 pixels, which must fill its dimensions.
pub fn image_from_pixels(pixels: Vec<u8>, px_width: u32, px_height: u32, rendered_scale: u32) -> (r:
    Option<RenderImage>)
    ensures
        r is Some <==> px_width * px_height * 4 <= pixels@.len(),
        r matches Some(image) ==> {
            &&& image.width == px_width
            &&& image.height == px_height
            &&& image.scale_factor == rendered_scale
            &&& image.pixels@ == swapped(pixels@)
        },
{
    let mut buffer = pixels;
    swap_rgba_to_bgra(&mut buffer);
    let width: u64 = px_width as u64;
    let height: u64 = px_height as u64;
    assert(width * height <= 0xffff_ffff * 0xffff_ffff) by (nonlinear_arith)
        requires
            width <= 0xffff_ffff,
            height <= 0xffff_ffff,
    ;
    let needed: u128 = (width * height) as u128 * 4;
    if needed > buffer.len() as u128 {
        return None;
    }
    Some(
        RenderImage {
            width: px_width,
            height: px_height,
            pixels: buffer,
            scale_factor: rendered_scale,
        },
    )
}

/// Decodes one page image into the format that is drawn.
///
/// The *rendered* scale is kept with the image. During a zoom it is
/// deliberately not the view's current scale: it is what makes a stale image
/// draw at the right size rather than merely the wrong sharpness.
pub fn decode_page(
    payload: &[u8],
    px_width: u32,
    px_height: u32,
    encoding: Encoding,
    rendered_scale: u32,
) -> (r: Result<RenderImage, DecodeError>)
    ensures
        match r {
            Ok(image) => {
                let pixels = payload_pixels(payload@, px_width, px_height, encoding);
                &&& pixels is Some
                &&& px_width * px_height * 4 <= (pixels->0).len()
                &&& image.width == px_width
                &&& image.height == px_height
                &&& image.scale_factor == rendered_scale
                &&& image.pixels@ == swapped(pixels->0)
            },
            Err(DecodeError::Png(_)) => encoding is Png && decoded_png(payload@) is None,
            Err(DecodeError::PngSize(width, height)) => {
                &&& encoding is Png
                &&& decoded_png(payload@) matches Some((w, h, _))
                &&& (w, h) == (width, height)
                &&& width != px_width || height != px_height
            },
            Err(DecodeError::Dimensions) => {
                let pixels = payload_pixels(payload@, px_width, px_height, encoding);
                &&& pixels is Some
                &&& px_width * px_height * 4 > (pixels->0).len()
            },
        },
{
    let pixels = match encoding {
        Encoding::Raw => vstd::slice::slice_to_vec(payload),
        Encoding::Png => match decode_png(payload, px_width, px_height) {
            Ok(pixels) => pixels,
            Err(error) => {
                return Err(error);
            },
        },
    };
    match image_from_pixels(pixels, px_width, px_height, rendered_scale) {
        Some(image) => Ok(image),
        None => Err(DecodeError::Dimensions),
    }
}

/// Of every pixel the first and the third channel change places, and the second and
/// the fourth stay.
pub proof fn law_channels_change_places(pixels: Seq<u8>, p: int)
    requires
        0 <= p,
        4 * p + 4 <= pixels.len(),
    ensures
        swapped(pixels).len() == pixels.len(),
        swapped(pixels)[4 * p] == pixels[4 * p + 2],
        swapped(pixels)[4 * p + 1] == pixels[4 * p + 1],
        swapped(pixels)[4 * p + 2] == pixels[4 * p],
        swapped(pixels)[4 * p + 3] == pixels[4 * p + 3],
{
    assert((4 * p) % 4 == 0 && (4 * p + 1) % 4 == 1 && (4 * p + 2) % 4 == 2 && (4 * p + 3) % 4
        == 3);
}

/// The pixels of a raw payload are the payload itself, those of a PNG what it decodes
/// to, where it has the size that is expected.
pub proof fn law_payload_pixels(payload: Seq<u8>, px_width: u32, px_height: u32)
    ensures
        payload_pixels(payload, px_width, px_height, Encoding::Raw) == Some(payload),
        decoded_png(payload) matches Some((width, height, pixels)) ==> (payload_pixels(
            payload,
            px_width,
            px_height,
            Encoding::Png,
        ) == if (width, height) == (px_width, px_height) {
            Some(pixels)
        } else {
            None
        }),
        decoded_png(payload) is None ==> payload_pixels(
            payload,
            px_width,
            px_height,
            Encoding::Png,
        ) is None,
{
}

} // verus!
