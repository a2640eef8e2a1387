use rcr::codec::decode;
use rcr::codec::encode;
use rcr::codec::Error;
use rcr::codec::Settings;
use rcr::color::Lab8;
use rcr::image::Image;

const SPACIAL: [i32; 64] = [
    16, 11, 10, 16, 24, 40, 51, 61,
    12, 12, 14, 19, 26, 58, 60, 55,
    14, 13, 16, 24, 40, 57, 69, 56,
    14, 17, 22, 29, 51, 87, 80, 62,
    18, 22, 37, 56, 68, 109, 103, 77,
    24, 35, 55, 64, 81, 104, 113, 92,
    49, 64, 78, 87, 103, 121, 120, 101,
    72, 92, 95, 98, 112, 100, 103, 99,
];

fn single_block_image() -> Image<Lab8> {
    let data: Vec<Lab8> = SPACIAL
        .iter()
        .map(|&v| Lab8 { l: v as i8, a: 0, b: 0 })
        .collect();
    Image::new(8, 8, data)
}

#[test]
fn reference_block_round_trip() {
    let settings = Settings::quality(5);
    let image = single_block_image();
    let bytes = encode(&settings, &image).unwrap();
    assert_eq!(&bytes[0..4], &[0, 8, 0, 8]);
    let out = decode(&bytes).unwrap();
    assert_eq!(out.width(), 8);
    assert_eq!(out.height(), 8);
    for i in 0..64 {
        let diff = (SPACIAL[i] - out.data()[i].l as i32).abs();
        assert!(diff <= 21);
        assert_eq!(out.data()[i].a, 0);
        assert_eq!(out.data()[i].b, 0);
    }
}

#[test]
fn nondivisible_width_is_rejected() {
    let settings = Settings::new();
    let image = Image::new(10, 8, vec![Lab8::default(); 80]);
    let r = encode(&settings, &image);
    assert_eq!(r.unwrap_err(), Error::InvalidDimensions);
}

#[test]
fn nondivisible_height_is_rejected() {
    let settings = Settings::new();
    let image = Image::new(8, 12, vec![Lab8::default(); 96]);
    let r = encode(&settings, &image);
    assert_eq!(r.unwrap_err(), Error::InvalidDimensions);
}

#[test]
fn container_round_trip_preserves_dimensions() {
    // Small sample values keep every coefficient within one byte, so at
    // quality 10 (unit divisors) only the fixed-point loss remains.
    let sample = |i: usize, s: usize| -> i8 { (((i * 7 + s) % 29) as i8) - 14 };
    let data: Vec<Lab8> = (0..16 * 8)
        .map(|i| Lab8 { l: sample(i, 3), a: sample(i, 11), b: sample(i, 20) })
        .collect();
    let image = Image::new(16, 8, data);
    let settings = Settings::quality(10);
    let bytes = encode(&settings, &image).unwrap();
    assert_eq!(bytes.len(), 132 + 2 * 192);
    let out = decode(&bytes).unwrap();
    assert_eq!(out.width(), 16);
    assert_eq!(out.height(), 8);
    for i in 0..16 * 8 {
        assert!((image.data()[i].l as i32 - out.data()[i].l as i32).abs() < 8);
        assert!((image.data()[i].a as i32 - out.data()[i].a as i32).abs() < 8);
        assert!((image.data()[i].b as i32 - out.data()[i].b as i32).abs() < 8);
    }
}

#[test]
fn empty_image_round_trip() {
    let settings = Settings::new();
    let image = Image::new(0, 0, Vec::new());
    let bytes = encode(&settings, &image).unwrap();
    assert_eq!(bytes.len(), 132);
    let out = decode(&bytes).unwrap();
    assert_eq!(out.width(), 0);
    assert_eq!(out.height(), 0);
}

#[test]
fn truncated_header_is_rejected() {
    assert_eq!(decode(&[0, 8]).unwrap_err(), Error::Truncated);
    assert_eq!(decode(&[]).unwrap_err(), Error::Truncated);
}

#[test]
fn header_with_bad_dimensions_is_rejected() {
    assert_eq!(decode(&[0, 10, 0, 8]).unwrap_err(), Error::InvalidDimensions);
    assert_eq!(decode(&[0, 8, 0, 9]).unwrap_err(), Error::InvalidDimensions);
}

#[test]
fn truncated_block_data_is_rejected() {
    let settings = Settings::new();
    let image = single_block_image();
    let mut bytes = encode(&settings, &image).unwrap();
    bytes.pop();
    assert_eq!(decode(&bytes).unwrap_err(), Error::Truncated);
}

#[test]
fn trailing_bytes_are_ignored() {
    let settings = Settings::new();
    let image = single_block_image();
    let mut bytes = encode(&settings, &image).unwrap();
    bytes.push(99);
    bytes.push(99);
    let out = decode(&bytes).unwrap();
    assert_eq!(out.width(), 8);
    assert_eq!(out.height(), 8);
}

#[test]
fn tables_travel_in_the_header() {
    let settings = Settings::quality(5);
    let image = single_block_image();
    let bytes = encode(&settings, &image).unwrap();
    let luma = settings.luma_table.unwrap();
    let chroma = settings.chroma_table.unwrap();
    for i in 0..64 {
        assert_eq!(bytes[4 + i] as i32, luma[i]);
        assert_eq!(bytes[68 + i] as i32, chroma[i]);
    }
}

#[test]
fn settings_default_matches_quality_five() {
    let by_default: Settings = Default::default();
    let by_new = Settings::new();
    let by_quality = Settings::quality(5);
    assert_eq!(by_default.luma_table, by_quality.luma_table);
    assert_eq!(by_default.chroma_table, by_quality.chroma_table);
    assert_eq!(by_new.luma_table, by_quality.luma_table);
    assert_eq!(by_new.chroma_table, by_quality.chroma_table);
}

#[test]
fn image_accessors() {
    let data: Vec<i32> = (0..16 * 8).collect();
    let mut image = Image::new(16, 8, data);
    assert_eq!(image.width(), 16);
    assert_eq!(image.height(), 8);
    assert_eq!(*image.at(3, 2), 2 * 16 + 3);
    assert_eq!(image.data().len(), 128);
    image.data_mut()[0] = -5;
    assert_eq!(*image.at(0, 0), -5);
}

#[test]
fn block_iterator_walks_in_raster_order() {
    let data: Vec<i32> = (0..16 * 8).collect();
    let image = Image::new(16, 8, data);
    let mut it = image.iter_block();
    let first = it.next().unwrap();
    assert_eq!(first[0], 0);
    assert_eq!(first[1], 1);
    assert_eq!(first[8], 16); // second row of the block
    let second = it.next().unwrap();
    assert_eq!(second[0], 8);
    assert!(it.next().is_none());
    assert!(it.next().is_none());
}

#[test]
fn zero_image_container_bytes_exact() {
    // A zero block transforms and quantizes to zero everywhere, so the
    // container is exactly header, tables, then 192 zero bytes.
    let settings = Settings::quality(5);
    let image = Image::new(8, 8, vec![Lab8::default(); 64]);
    let bytes = encode(&settings, &image).unwrap();
    let mut expected: Vec<u8> = vec![0, 8, 0, 8];
    for &v in settings.luma_table.unwrap().iter() {
        expected.push(v as u8);
    }
    for &v in settings.chroma_table.unwrap().iter() {
        expected.push(v as u8);
    }
    expected.extend_from_slice(&[0u8; 192]);
    assert_eq!(bytes, expected);
}
