//! Turning images of any format into the PNG image that goes into a file.
use crate::bytes::be32_at;
use image::codecs::png::{CompressionType, FilterType, PngEncoder};
use image::{ExtendedColorType, ImageEncoder, ImageError, ImageFormat};
use vstd::prelude::*;

verus! {

/// What went wrong with an image.
#[derive(Debug, Clone, Copy, PartialEq, Eq, Structural)]
pub enum PictureError {
    /// The image cannot be read.
    Open,
    /// The image cannot be written in PNG format.
    Encode,
}

impl PictureError {
    /// The error as a sentence.
    pub open spec fn text(self) -> Seq<char> {
        match self {
            PictureError::Open => "Failed to open input image"@,
            PictureError::Encode => "Failed to encode PNG"@,
        }
    }

    /// The error as a sentence.
    pub fn message(&self) -> (r: &'static str)
        ensures
            r@ == self.text(),
    {
        match self {
            PictureError::Open => "Failed to open input image",
            PictureError::Encode => "Failed to encode PNG",
        }
    }
}

/// An image: its pixels row by row, each as four bytes for red, green, blue
/// and opacity.
pub struct Picture {
    pub pixels: Vec<u8>,
    pub width: u32,
    pub height: u32,
}

impl Picture {
    /// Whether there are as many bytes as the size of the image takes.
    pub open spec fn wf(self) -> bool {
        self.pixels@.len() == 4 * self.width * self.height
    }
}

/// `image::ImageError`, what goes wrong with images.
#[verifier::external_type_specification]
#[verifier::external_body]
pub struct ExImageError(ImageError);

/// Whether an image file whose name has this extension can be read.
pub uninterp spec fn is_picture(file: Seq<u8>, extension: Seq<char>) -> bool;

/// Whether reading an image file whose name has this extension may give these
/// pixels, width and height.
pub uninterp spec fn may_read_as(
    file: Seq<u8>,
    extension: Seq<char>,
    pixels: Seq<u8>,
    width: u32,
    height: u32,
) -> bool;

/// The PNG file of an image with these pixels, width and height, compressed
/// fast and without filters.
pub uninterp spec fn png_encoding(pixels: Seq<u8>, width: u32, height: u32) -> Seq<u8>;

/// Whether a file starts as a PNG file of this width and height, with four
/// channels of eight bits: the signature, and the chunk `IHDR`.
pub open spec fn starts_as_png(file: Seq<u8>, width: u32, height: u32) -> bool {
    &&& 33 <= file.len()
    &&& file.take(16) == seq![
        0x89u8, 0x50, 0x4e, 0x47, 0x0d, 0x0a, 0x1a, 0x0a, 0, 0, 0, 13, 0x49, 0x48, 0x44, 0x52,
    ]
    &&& be32_at(file, 16) == width
    &&& be32_at(file, 20) == height
    &&& file.subrange(24, 29) == seq![8u8, 6, 0, 0, 0]
}

/// Reads an image whose format the extension of its file name tells. Calls
/// `image::load_from_memory_with_format` with the format that
/// `image::ImageFormat::from_extension` gives, then `into_rgba8`, which makes
/// four bytes of each pixel. Whether the image can be read depends on the file
/// and the extension alone: the limits on its size are fixed numbers. The result
/// is one of those that the file and the extension can give. Which pixels these are is left
/// unsaid: images with floating point numbers are converted with functions whose
/// results differ between machines.
#[verifier::external_body]
fn read_picture(file: &[u8], extension: &str) -> (r: Option<Picture>)
    ensures
        r is Some == is_picture(file@, extension@),
        r matches Some(p) ==> p.wf() && may_read_as(
            file@,
            extension@,
            p.pixels@,
            p.width,
            p.height,
        ),
{
    let format = ImageFormat::from_extension(extension)?;
    let rgba = image::load_from_memory_with_format(file, format).ok()?.into_rgba8();
    let (width, height) = rgba.dimensions();
    Some(Picture { pixels: rgba.into_raw(), width, height })
}

/// Writes an image as a PNG file. Calls `write_image` of
/// `image::codecs::png::PngEncoder`, which panics where the number of bytes is
/// not that of the pixels, and fails on an image without pixels alone. What it
/// writes depends on the pixels and the size alone.
#[verifier::external_body]
fn write_png(pixels: &[u8], width: u32, height: u32) -> (r: Result<Vec<u8>, ImageError>)
    requires
        pixels@.len() == 4 * width * height,
    ensures
        r is Ok == (width != 0 && height != 0),
        r matches Ok(file) ==> file@ == png_encoding(pixels@, width, height) && starts_as_png(
            file@,
            width,
            height,
        ),
{
    let mut file = Vec::new();
    PngEncoder::new_with_quality(&mut file, CompressionType::Fast, FilterType::NoFilter)
        .write_image(pixels, width, height, ExtendedColorType::Rgba8)?;
    Ok(file)
}

/// The PNG file of an image that was read, or not.
pub fn png_of_picture(picture: Option<Picture>) -> (r: Result<Vec<u8>, PictureError>)
    requires
        picture matches Some(p) ==> p.wf(),
    ensures
        match picture {
            None => r == Err::<Vec<u8>, PictureError>(PictureError::Open),
            Some(p) => if p.width == 0 || p.height == 0 {
                r == Err::<Vec<u8>, PictureError>(PictureError::Encode)
            } else {
                &&& r matches Ok(file)
                &&& file@ == png_encoding(p.pixels@, p.width, p.height)
                &&& starts_as_png(file@, p.width, p.height)
            },
        },
{
    let p: Picture = match picture {
        Some(p) => p,
        None => return Err(PictureError::Open),
    };
    match write_png(p.pixels.as_slice(), p.width, p.height) {
        Ok(file) => Ok(file),
        Err(_) => Err(PictureError::Encode),
    }
}

/// Whether an image may be what reading a file gives whose name has this
/// extension.
pub open spec fn may_be(picture: Picture, file: Seq<u8>, extension: Seq<char>) -> bool {
    &&& picture.wf()
    &&& may_read_as(file, extension, picture.pixels@, picture.width, picture.height)
}

/// An image may be what reading a file gives only if it has four bytes for each
/// pixel, and reading that file may give those pixels in that width and height.
pub proof fn law_may_be(picture: Picture, file: Seq<u8>, extension: Seq<char>)
    ensures
        may_be(picture, file, extension) <==> picture.pixels@.len() == 4 * picture.width
            * picture.height && may_read_as(
            file,
            extension,
            picture.pixels@,
            picture.width,
            picture.height,
        ),
{
}

/// Converts an image of any format, which the extension of its file name
/// tells, to PNG format.
pub fn convert_image_to_png(file: &[u8], extension: &str) -> (r: Result<Vec<u8>, PictureError>)
    ensures
        match r {
            Ok(png) => is_picture(file@, extension@) && exists|p: Picture|
                #[trigger] may_be(p, file@, extension@) && p.width != 0 && p.height != 0 && png@
                    == png_encoding(p.pixels@, p.width, p.height) && starts_as_png(
                    png@,
                    p.width,
                    p.height,
                ),
            Err(PictureError::Encode) => is_picture(file@, extension@) && exists|p: Picture|
                #[trigger] may_be(p, file@, extension@) && (p.width == 0 || p.height == 0),
            Err(PictureError::Open) => !is_picture(file@, extension@),
        },
{
    let picture: Option<Picture> = read_picture(file, extension);
    let ghost read = picture;
    let r = png_of_picture(picture);
    proof {
        if let Some(p) = read {
            assert(may_be(p, file@, extension@));
        }
    }
    r
}

} // verus!
