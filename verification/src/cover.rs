//! Cover images: decoding the downloaded picture and scaling it to the panel,
//! both done by the `image` crate.
use vstd::prelude::*;
use crate::graphics::ImageMatrix;

verus! {

/// Size and RGB888 pixels (row by row) that the `image` crate decodes from an
/// encoded picture, if it can.
pub uninterp spec fn decoded_rgb(bytes: Seq<u8>) -> Option<(u32, u32, Seq<u8>)>;

/// A decoded RGB888 picture.
pub struct RgbPicture {
    pub width: u32,
    pub height: u32,
    pub data: Vec<u8>,
}

/// Decodes a picture with `image::load_from_memory` and converts it to RGB888
/// (`DynamicImage::into_rgb8`). The result is named by `decoded_rgb`; the
/// buffer holds at least three bytes per pixel, as every `ImageBuffer` does.
#[verifier::external_body]
fn decode_rgb(bytes: &[u8]) -> (picture: Option<RgbPicture>)
    ensures
        picture matches Some(p) ==> decoded_rgb(bytes@) == Some((p.width, p.height, p.data@))
            && p.data@.len() >= p.width * p.height * 3,
        picture is None ==> decoded_rgb(bytes@) is None,
{
    match image::load_from_memory(bytes) {
        Ok(img) => {
            let rgb = img.into_rgb8();
            let (width, height) = rgb.dimensions();
            Some(RgbPicture { width, height, data: rgb.into_raw() })
        },
        Err(_) => None,
    }
}

/// Scales an RGB888 picture with `image::imageops::resize` and the Lanczos3
/// filter. The result has exactly three bytes per pixel of the new size, since
/// `resize` builds it with `ImageBuffer::new`. `resize` returns that buffer
/// zero-filled when the picture is empty, and an exact copy of the picture's
/// pixels when the size does not change. The pixels of a real rescale are left
/// unsaid: the filter weighs them with `f32::sin`, whose precision std does not
/// fix across machines.
#[verifier::external_body]
fn resize_rgb(width: u32, height: u32, data: &Vec<u8>, new_width: u32, new_height: u32) -> (out: Vec<u8>)
    requires
        data@.len() >= width * height * 3,
        new_width * new_height * 3 <= usize::MAX,
    ensures
        out@.len() == new_width * new_height * 3,
        width == 0 || height == 0 ==> out@ == Seq::new((new_width * new_height * 3) as nat, |i: int| 0u8),
        new_width == width && new_height == height ==> out@ == data@.take(width * height * 3),
{
    let img = image::RgbImage::from_raw(width, height, data.clone()).unwrap();
    image::imageops::resize(&img, new_width, new_height, image::imageops::FilterType::Lanczos3).into_raw()
}

/// Decodes a downloaded cover picture; `None` when the bytes are not a picture
/// the `image` crate can read.
pub fn decode_cover(bytes: &[u8]) -> (picture: Option<RgbPicture>)
    ensures
        picture is None <==> decoded_rgb(bytes@) is None,
        picture matches Some(p) ==> decoded_rgb(bytes@) == Some((p.width, p.height, p.data@))
            && p.data@.len() >= p.width * p.height * 3,
{
    decode_rgb(bytes)
}

/// The cover matrix sent to the panel: the picture scaled to the target size by
/// the `image` crate (three bytes per pixel), with the given theme color. A
/// picture that already has the target size keeps its pixels exactly; an empty
/// picture gives an all-black cover.
pub fn build_cover_matrix(picture: &RgbPicture, target_width: u32, target_height: u32, theme_color: (u8, u8, u8)) -> (matrix: ImageMatrix)
    requires
        picture.data@.len() >= picture.width * picture.height * 3,
        target_width * target_height * 3 <= usize::MAX,
    ensures
        matrix.width == target_width,
        matrix.height == target_height,
        matrix.theme_color == theme_color,
        matrix.rgb_data@.len() == target_width * target_height * 3,
        target_width == picture.width && target_height == picture.height ==> matrix.rgb_data@
            == picture.data@.take(picture.width * picture.height * 3),
        picture.width == 0 || picture.height == 0 ==> matrix.rgb_data@ == Seq::new(
            (target_width * target_height * 3) as nat,
            |i: int| 0u8,
        ),
{
    let rgb_data = resize_rgb(picture.width, picture.height, &picture.data, target_width, target_height);
    ImageMatrix { width: target_width, height: target_height, theme_color, rgb_data }
}

} // verus!
