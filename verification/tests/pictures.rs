use beheader::convert_image_to_png;
use beheader::picture::{png_of_picture, Picture, PictureError};

#[test]
fn image_is_converted_to_png() {
    let mut file = b"P6\n2 1\n255\n".to_vec();
    file.extend_from_slice(&[1, 2, 3, 200, 100, 50]);
    let png = convert_image_to_png(&file, "ppm").unwrap();
    assert_eq!(&png[..8], &[0x89, 0x50, 0x4e, 0x47, 0x0d, 0x0a, 0x1a, 0x0a]);
    assert_eq!(&png[12..16], b"IHDR");
    assert_eq!(&png[16..29], &[0, 0, 0, 2, 0, 0, 0, 1, 8, 6, 0, 0, 0]);
    let back = image::load_from_memory(&png).unwrap().into_rgba8();
    assert_eq!(back.dimensions(), (2, 1));
    assert_eq!(back.into_raw(), vec![1, 2, 3, 255, 200, 100, 50, 255]);
}

#[test]
fn png_is_converted_to_png_again() {
    let pixels: Vec<u8> = (0..64).collect();
    let png = png_of_picture(Some(Picture { pixels: pixels.clone(), width: 4, height: 4 })).unwrap();
    let again = convert_image_to_png(&png, "PNG").unwrap();
    assert_eq!(again, png);
    assert_eq!(image::load_from_memory(&png).unwrap().into_rgba8().into_raw(), pixels);
}

#[test]
fn extension_tells_the_format() {
    let file = b"P6\n1 1\n255\nabc";
    assert_eq!(convert_image_to_png(file, "txt"), Err(PictureError::Open));
    assert_eq!(convert_image_to_png(file, ""), Err(PictureError::Open));
    assert_eq!(convert_image_to_png(file, "png"), Err(PictureError::Open));
    assert_eq!(convert_image_to_png(&[], "ppm"), Err(PictureError::Open));
    assert!(convert_image_to_png(file, "PPM").is_ok());
    assert_eq!(PictureError::Open.message(), "Failed to open input image");
}

#[test]
fn image_without_pixels_is_refused() {
    assert_eq!(png_of_picture(None), Err(PictureError::Open));
    let empty = Picture { pixels: vec![], width: 0, height: 3 };
    assert_eq!(png_of_picture(Some(empty)), Err(PictureError::Encode));
    let flat = Picture { pixels: vec![], width: 3, height: 0 };
    assert_eq!(png_of_picture(Some(flat)), Err(PictureError::Encode));
    assert_eq!(PictureError::Encode.message(), "Failed to encode PNG");
}
