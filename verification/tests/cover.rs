use audiobook::cover::{
    converted_cover, cover_for_export, cover_is_current, image_to_jpeg_bytes, is_jpeg_bytes,
    picture_to_jpeg_bytes, CoverSkip, CoverSource, Picture,
};
use image::{ImageBuffer, Rgba};

fn encoded(format: image::ImageFormat, color: [u8; 4], width: u32, height: u32) -> Vec<u8> {
    let img = ImageBuffer::from_pixel(width, height, Rgba(color));
    let img = image::DynamicImage::ImageRgba8(img);
    let img = if format == image::ImageFormat::Jpeg {
        image::DynamicImage::ImageRgb8(img.to_rgb8())
    } else {
        img
    };
    let mut bytes = Vec::new();
    img.write_to(&mut std::io::Cursor::new(&mut bytes), format).unwrap();
    bytes
}

#[test]
fn jpeg_images_are_recognised() {
    assert!(is_jpeg_bytes(&[0xff, 0xd8, 0xff]));
    assert!(!is_jpeg_bytes(&[0xff, 0xd8]));
    assert!(!is_jpeg_bytes(&[0xff, 0xd8, 0xfe]));
    assert!(!is_jpeg_bytes(b"\x89PNG"));
    assert!(!is_jpeg_bytes(&[]));
}

#[test]
fn export_audiobook_cover_copies_jpeg_as_cover_jpg() {
    let jpeg = encoded(image::ImageFormat::Jpeg, [255, 0, 0, 255], 1, 1);
    assert_eq!(cover_for_export(CoverSource::Bytes(jpeg.clone())), Ok(jpeg));
}

#[test]
fn export_audiobook_cover_converts_png_to_cover_jpg() {
    let png = encoded(image::ImageFormat::Png, [0, 255, 0, 255], 1, 1);
    let cover = cover_for_export(CoverSource::Bytes(png)).unwrap();
    assert!(is_jpeg_bytes(&cover));
}

#[test]
fn export_audiobook_cover_keeps_existing_identical_cover() {
    let jpeg = encoded(image::ImageFormat::Jpeg, [255, 0, 0, 255], 1, 1);
    let cover = cover_for_export(CoverSource::Bytes(jpeg.clone())).unwrap();
    assert!(cover_is_current(&cover, Some(&jpeg)));
}

#[test]
fn a_converted_image_looks_the_same() {
    let png = encoded(image::ImageFormat::Png, [10, 200, 30, 255], 16, 8);
    let jpeg = image_to_jpeg_bytes(&png).unwrap();
    let back = image::load_from_memory(&jpeg).unwrap().to_rgb8();
    assert_eq!((back.width(), back.height()), (16, 8));
    for (x, y) in [(0, 0), (15, 7)] {
        let [r, g, b] = back.get_pixel(x, y).0;
        assert!(r.abs_diff(10) < 6 && g.abs_diff(200) < 6 && b.abs_diff(30) < 6);
    }
}

#[test]
fn a_jpeg_image_can_be_converted_too() {
    let jpeg = encoded(image::ImageFormat::Jpeg, [1, 2, 3, 255], 2, 2);
    assert!(is_jpeg_bytes(&image_to_jpeg_bytes(&jpeg).unwrap()));
}

#[test]
fn pictures_are_encoded_as_the_encoder_does() {
    let picture = Picture { width: 2, height: 1, samples: vec![1, 2, 3, 250, 251, 252] };
    let mut expected = Vec::new();
    image::codecs::jpeg::JpegEncoder::new_with_quality(&mut expected, 90)
        .encode(&picture.samples, 2, 1, image::ExtendedColorType::Rgb8)
        .unwrap();
    assert_eq!(picture_to_jpeg_bytes(&picture), Some(expected));
}

#[test]
fn sides_that_jpeg_cannot_have_are_refused() {
    let empty = Picture { width: 0, height: 5, samples: vec![] };
    assert_eq!(picture_to_jpeg_bytes(&empty), None);
    let long = Picture { width: 65536, height: 1, samples: vec![0; 65536 * 3] };
    assert_eq!(picture_to_jpeg_bytes(&long), None);
    let longest = Picture { width: 65535, height: 1, samples: vec![0; 65535 * 3] };
    assert!(picture_to_jpeg_bytes(&longest).is_some());
}

#[test]
fn covers_that_are_not_exported() {
    assert_eq!(cover_for_export(CoverSource::Missing), Err(CoverSkip::Missing));
    assert_eq!(cover_for_export(CoverSource::Unreadable), Err(CoverSkip::Unreadable));
    assert_eq!(cover_for_export(CoverSource::Bytes(vec![])), Err(CoverSkip::Empty));
    assert_eq!(
        cover_for_export(CoverSource::Bytes(b"no image".to_vec())),
        Err(CoverSkip::Unconvertible)
    );
    assert_eq!(converted_cover(None), Err(CoverSkip::Unconvertible));
    assert_eq!(converted_cover(Some(vec![1])), Ok(vec![1]));
}

#[test]
fn the_same_cover_is_exported_alike() {
    let png = encoded(image::ImageFormat::Png, [9, 8, 7, 255], 3, 3);
    let first = cover_for_export(CoverSource::Bytes(png.clone())).unwrap();
    let second = cover_for_export(CoverSource::Bytes(png)).unwrap();
    assert_eq!(first, second);
    assert!(cover_is_current(&second, Some(&first)));
    assert!(!cover_is_current(&second, Some(&[1, 2])));
    assert!(!cover_is_current(&second, None));
}
