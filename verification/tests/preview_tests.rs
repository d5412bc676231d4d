use aspen::preview::{find_eoi, find_largest_jpeg};
use image::{DynamicImage, ImageBuffer, ImageFormat, Rgb};
use std::io::Cursor;

fn jpeg_bytes(img: &DynamicImage) -> Vec<u8> {
    let mut buf = Cursor::new(Vec::new());
    img.write_to(&mut buf, ImageFormat::Jpeg).unwrap();
    buf.into_inner()
}

#[test]
fn find_jpeg_in_buffer() {
    let img: ImageBuffer<Rgb<u8>, Vec<u8>> =
        ImageBuffer::from_fn(32, 32, |x, y| Rgb([(x * 7) as u8, (y * 5) as u8, 80]));
    let dyn_img = DynamicImage::ImageRgb8(img);
    let jpeg = jpeg_bytes(&dyn_img);
    let mut wrapped = vec![0u8; 100];
    wrapped.extend_from_slice(&jpeg);
    wrapped.extend_from_slice(&[0, 1, 2]);
    let found = find_largest_jpeg(&wrapped).unwrap();
    assert!(found.len() >= jpeg.len() - 10);
    assert_eq!(&found[0..2], &[0xFF, 0xD8]);
}

fn segment(len: usize, fill: u8) -> Vec<u8> {
    let mut v = vec![0xFF, 0xD8];
    v.extend(std::iter::repeat(fill).take(len - 4));
    v.extend([0xFF, 0xD9]);
    v
}

#[test]
fn the_largest_segment_wins() {
    let mut data = vec![1, 2, 3];
    data.extend(segment(200, 7));
    data.extend([9, 9]);
    data.extend(segment(300, 8));
    data.extend(segment(250, 6));
    let found = find_largest_jpeg(&data).unwrap();
    assert_eq!(found.len(), 300);
    assert_eq!(found[2], 8);
}

#[test]
fn small_or_unterminated_segments_are_ignored() {
    assert!(find_largest_jpeg(&segment(128, 1)).is_none());
    assert_eq!(find_largest_jpeg(&segment(129, 1)).map(|s| s.len()), Some(129));
    let mut open = vec![0xFF, 0xD8];
    open.extend(vec![5u8; 500]);
    assert!(find_largest_jpeg(&open).is_none());
    assert!(find_largest_jpeg(&[]).is_none());
}

#[test]
fn end_marker_search() {
    assert_eq!(find_eoi(&[0, 0xFF, 0xD9, 0xFF, 0xD9], 0), Some(2));
    assert_eq!(find_eoi(&[0, 0xFF, 0xD9], 2), None);
    assert_eq!(find_eoi(&[0xFF], 0), None);
}
