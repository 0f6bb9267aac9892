use snapcrop::pipeline::output_file_name;
use snapcrop::pipeline::process_bytes;
use snapcrop::pipeline::ProcessError;
use snapcrop::resset::normalize;
use snapcrop::snap::snap;
use snapcrop::snap::SnapError;

/// Encodes a solid-color RGB image as PNG bytes, in memory.
fn png_bytes(w: u32, h: u32) -> Vec<u8> {
    let img = image::RgbImage::from_pixel(w, h, image::Rgb([10, 20, 30]));
    let mut bytes: Vec<u8> = Vec::new();
    img.write_to(
        &mut std::io::Cursor::new(&mut bytes),
        image::ImageFormat::Png,
    )
    .unwrap();
    bytes
}

#[test]
fn snap_picks_the_closest_aspect_ratio() {
    let set = normalize(&vec![(1024u32, 1024), (1344, 768)]).unwrap();
    let sr = snap(1920, 1080, &set).unwrap();
    assert_eq!((sr.target_w, sr.target_h), (1344, 768));
    // The constrained axis (height) matches the target exactly; the other is
    // the rounded aspect-preserving scale: round(1920 * 768 / 1080) = 1365.
    assert_eq!((sr.resize_w, sr.resize_h), (1365, 768));
}

#[test]
fn snap_portrait_image_holds_width() {
    let set = normalize(&vec![(1024u32, 1024)]).unwrap();
    let sr = snap(1080, 1920, &set).unwrap();
    assert_eq!((sr.target_w, sr.target_h), (1024, 1024));
    // round(1024 * 1920 / 1080) = round(1820.44) = 1820
    assert_eq!((sr.resize_w, sr.resize_h), (1024, 1820));
}

#[test]
fn snap_tie_breaks_on_set_order() {
    // Both candidates are square, exactly as the image: the first in the
    // set's descending order wins.
    let set = normalize(&vec![(200u32, 200), (300, 300)]).unwrap();
    assert_eq!(set.as_pairs(), &vec![(300u32, 300), (200, 200)]);
    let sr = snap(400, 400, &set).unwrap();
    assert_eq!((sr.target_w, sr.target_h), (300, 300));
    assert_eq!((sr.resize_w, sr.resize_h), (300, 300));
}

#[test]
fn snap_rejects_images_smaller_than_the_target() {
    let set = normalize(&vec![(512u32, 512)]).unwrap();
    assert!(matches!(snap(100, 100, &set), Err(SnapError::TooSmall)));
    assert!(matches!(snap(1000, 511, &set), Err(SnapError::TooSmall)));
    assert!(matches!(snap(511, 1000, &set), Err(SnapError::TooSmall)));
    assert!(snap(512, 512, &set).is_ok());
}

#[test]
fn process_produces_exact_target_dimensions() {
    let set = normalize(&vec![(2u32, 2)]).unwrap();
    let data = png_bytes(8, 4);
    let (buf, w, h) = process_bytes(&data, &set).unwrap();
    assert_eq!((w, h), (2, 2));
    assert_eq!(buf.len(), 12);
}

#[test]
fn process_rejects_undecodable_bytes() {
    let set = normalize(&vec![(2u32, 2)]).unwrap();
    let data = b"not an image at all".to_vec();
    assert!(matches!(
        process_bytes(&data, &set),
        Err(ProcessError::Decode)
    ));
}

#[test]
fn process_rejects_too_small_images() {
    let set = normalize(&vec![(512u32, 512)]).unwrap();
    let data = png_bytes(8, 4);
    assert!(matches!(
        process_bytes(&data, &set),
        Err(ProcessError::TooSmall)
    ));
}

#[test]
fn output_name_is_deterministic() {
    let a = output_file_name(&b"same bytes".to_vec(), "png");
    let b = output_file_name(&b"same bytes".to_vec(), "png");
    assert_eq!(a, b);
}

#[test]
fn output_name_is_digest_dot_extension() {
    let name = output_file_name(&b"abc".to_vec(), "png");
    assert_eq!(name.len(), 68);
    assert!(name.ends_with(".png"));
    let stem = &name[..64];
    assert!(stem.chars().all(|c| c.is_ascii_hexdigit()));
    let other = output_file_name(&b"abd".to_vec(), "png");
    assert_ne!(name, other);
}
