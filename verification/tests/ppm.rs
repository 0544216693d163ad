use rustvision::color::Color;
use rustvision::error::ImageError;
use rustvision::files::{FileTypes, InvalidMagicConstantError};
use rustvision::image::{parse_image, Image};
use rustvision::ppm::{parse_ppm6, PNM};

fn sample() -> Image {
    let mut img = Image::new(3, 2);
    img.set(0, 0, &Color::new(255, 0, 0));
    img.set(1, 0, &Color::new(0, 255, 0));
    img.set(2, 0, &Color::new(0, 0, 255));
    img.set(0, 1, &Color::new(1, 20, 100));
    img.set(2, 1, &Color::new(9, 10, 11));
    img
}

fn same_pixels(a: &Image, b: &Image) -> bool {
    if a.cols() != b.cols() || a.rows() != b.rows() {
        return false;
    }
    for y in 0..a.rows() {
        for x in 0..a.cols() {
            if a.get(x, y) != b.get(x, y) {
                return false;
            }
        }
    }
    true
}

#[test]
fn color_to_pnm() {
    let color = Color::new(255, 7, 40);
    assert_eq!(color.to_pnm_p3(), "255 7 40");
    assert_eq!(color.to_pnm_p6(), vec![255, 7, 40]);
    assert_eq!(color.to_string(), "(255,7,40)");
    assert_eq!(Color::default().to_string(), "(0,0,0)");
}

#[test]
fn image_to_pnm_p3() {
    assert_eq!(
        sample().to_pnm_p3(),
        "P3\n3 2\n255\n255 0 0 0 255 0 0 0 255 \n1 20 100 0 0 0 9 10 11 \n"
    );
    assert_eq!(Image::new(0, 0).to_pnm_p3(), "P3\n0 0\n255\n");
    assert_eq!(Image::new(0, 2).to_pnm_p3(), "P3\n0 2\n255\n\n\n");
}

#[test]
fn image_to_pnm_p6() {
    let mut expected = b"P6\n3 2\n255\n".to_vec();
    expected.extend_from_slice(&[255, 0, 0, 0, 255, 0, 0, 0, 255, 1, 20, 100, 0, 0, 0, 9, 10, 11]);
    assert_eq!(sample().to_pnm_p6(), expected);
    assert_eq!(Image::new(12, 0).to_pnm_p6(), b"P6\n12 0\n255\n".to_vec());
}

#[test]
fn decode_two_pixels() {
    let mut bytes = b"P6\n2 1\n255\n".to_vec();
    bytes.extend_from_slice(&[255, 0, 0, 0, 255, 0]);
    let img = parse_image(bytes.clone()).unwrap();
    assert_eq!(img.cols(), 2);
    assert_eq!(img.rows(), 1);
    assert_eq!(img.get(0, 0), Some(Color::new(255, 0, 0)));
    assert_eq!(img.get(1, 0), Some(Color::new(0, 255, 0)));
    let img = parse_ppm6(bytes).unwrap();
    assert_eq!(img.get(0, 0), Some(Color::new(255, 0, 0)));
    assert_eq!(img.get(1, 0), Some(Color::new(0, 255, 0)));
}

#[test]
fn decode_malformed_header() {
    let mut bytes = b"P6\nXY\n255\n".to_vec();
    bytes.extend_from_slice(&[1, 2, 3]);
    assert_eq!(parse_image(bytes.clone()).err(), Some(ImageError::MalformedHeader));
    assert_eq!(parse_ppm6(bytes).err(), Some(ImageError::MalformedHeader));
    for header in [
        &b"P6"[..],
        b"P6\n",
        b"P6\n2 1",
        b"P6\n2 1\n",
        b"P6\n2 1\n255",
        b"P6\n2\n255\n",
        b"P6\n2  1\n255\n",
        b"P6\n2\t1\n255\n",
        b"P6\n-2 1\n255\n",
        b"P6\n2 1 \n25 5\n",
        b"P6\n2 1\n\n",
        b"P6\n2 1\n 255\n",
        b"P6\n2 1\n0x5\n",
        b"P6\n2 99999999999999999999999999999\n255\n",
        b"P6\n + 1\n255\n",
    ] {
        assert_eq!(
            parse_image(header.to_vec()).err(),
            Some(ImageError::MalformedHeader),
            "{:?}",
            header
        );
    }
}

#[test]
fn decode_lenient_header() {
    for header in [
        &b"P6\n1 1\n255\n"[..],
        b"P6\n 1 1 \n0\n",
        b"P6\n\t+1 +1\r\n+65536\n",
        b"P6\n001 01\n000255\n",
    ] {
        let mut bytes = header.to_vec();
        bytes.extend_from_slice(&[7, 8, 9]);
        let img = parse_image(bytes).unwrap();
        assert_eq!((img.cols(), img.rows()), (1, 1));
        assert_eq!(img.get(0, 0), Some(Color::new(7, 8, 9)));
    }
}

#[test]
fn decode_truncated_or_padded() {
    let mut bytes = b"P6\n2 2\n255\n".to_vec();
    bytes.extend_from_slice(&[0; 11]);
    assert_eq!(
        parse_image(bytes.clone()).err(),
        Some(ImageError::TruncatedOrPaddedData { expected: Some(12), actual: 11 })
    );
    bytes.extend_from_slice(&[0; 2]);
    assert_eq!(
        parse_ppm6(bytes).err(),
        Some(ImageError::TruncatedOrPaddedData { expected: Some(12), actual: 13 })
    );
    let huge = format!("P6\n{} {}\n255\n", usize::MAX, usize::MAX);
    assert_eq!(
        parse_image(huge.into_bytes()).err(),
        Some(ImageError::TruncatedOrPaddedData { expected: None, actual: 0 })
    );
    let empty = parse_image(b"P6\n0 7\n255\n".to_vec()).unwrap();
    assert_eq!((empty.cols(), empty.rows()), (0, 7));
    assert_eq!(empty.get(0, 0), None);
}

#[test]
fn decode_unsupported_format() {
    assert_eq!(
        parse_image(b"P3\n1 1\n255\n0 0 0 \n".to_vec()).err(),
        Some(ImageError::UnsupportedFormat { magic: b"P3".to_vec() })
    );
    assert_eq!(
        parse_ppm6(b"P3\n1 1\n255\n0 0 0 \n".to_vec()).err(),
        Some(ImageError::UnsupportedFormat { magic: b"P3".to_vec() })
    );
    assert_eq!(
        parse_image(b"P5 \n1 1\n255\n0".to_vec()).err(),
        Some(ImageError::UnsupportedFormat { magic: b"P5 ".to_vec() })
    );
    assert_eq!(
        parse_image(b"GIF89a".to_vec()).err(),
        Some(ImageError::UnsupportedFormat { magic: b"GIF89a".to_vec() })
    );
    assert_eq!(
        parse_image(Vec::new()).err(),
        Some(ImageError::UnsupportedFormat { magic: Vec::new() })
    );
    assert_eq!(
        parse_image(b"P6\r\n1 1\n255\n000".to_vec()).err(),
        Some(ImageError::UnsupportedFormat { magic: b"P6\r".to_vec() })
    );
}

#[test]
fn file_types_from_magic_constant() {
    assert_eq!(FileTypes::try_from(&b"P3"[..]).ok(), Some(FileTypes::PPM3));
    assert_eq!(FileTypes::try_from(&b"P6"[..]).ok(), Some(FileTypes::PPM6));
    let InvalidMagicConstantError(found) = FileTypes::try_from(&b"P4"[..]).err().unwrap();
    assert_eq!(found, b"P4".to_vec());
    let InvalidMagicConstantError(found) = FileTypes::try_from(&b""[..]).err().unwrap();
    assert_eq!(found, Vec::<u8>::new());
    assert!(FileTypes::try_from(&b"P66"[..]).is_err());
}

#[test]
fn round_trip() {
    let img = sample();
    let back = parse_image(img.to_pnm_p6()).unwrap();
    assert!(same_pixels(&img, &back));
    for (cols, rows) in [(0, 0), (0, 3), (3, 0), (1, 1), (10, 13), (120, 7)] {
        let mut img = Image::new(cols, rows);
        for y in 0..rows {
            for x in 0..cols {
                let v = (x * 31 + y * 17) % 256;
                img.set(x, y, &Color::new(v as u8, (255 - v) as u8, 10));
            }
        }
        let back = parse_image(img.to_pnm_p6()).unwrap();
        assert!(same_pixels(&img, &back));
        assert_eq!((back.cols(), back.rows()), (cols, rows));
    }
}
