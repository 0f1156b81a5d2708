//! Cover pictures.

use vstd::prelude::*;

verus! {

/// A picture: its pixels row by row, four bytes each, for red, green, blue and opacity.
#[derive(Debug)]
pub struct CoverImage {
    pub width: u32,
    pub height: u32,
    pub pixels: Vec<u8>,
}

impl CoverImage {
    /// There are as many pixels as width and height ask for.
    pub open spec fn wf(self) -> bool {
        self.pixels@.len() == 4 * self.width * self.height
    }
}

/// `image::load_from_memory` and `DynamicImage::to_rgba8`: the picture that the bytes of a file
/// hold, if they are one. There is one byte for each channel of each pixel. Nothing is said of
/// which bytes are a picture, nor of the colours: decoders can be registered, and round as the
/// machine does.
#[verifier::external_body]
fn load_picture(bytes: &[u8]) -> (r: Option<CoverImage>)
    ensures
        r matches Some(image) ==> image.wf(),
{
    let image = image::load_from_memory(bytes).ok()?.to_rgba8();
    Some(CoverImage { width: image.width(), height: image.height(), pixels: image.into_raw() })
}

/// The picture that the bytes of a file hold, if they are one.
pub fn decode_cover(bytes: &[u8]) -> (r: Option<CoverImage>)
    ensures
        r matches Some(image) ==> image.wf(),
{
    load_picture(bytes)
}

/// A picture has four bytes for each of its pixels, and a pixel for each place in each row.
pub proof fn law_picture_has_all_pixels(image: CoverImage)
    ensures
        image.wf() <==> image.pixels@.len() == 4 * (image.width * image.height),
{
    let w = image.width as int;
    let h = image.height as int;
    assert(4 * w * h == 4 * (w * h)) by (nonlinear_arith);
}

} // verus!
