use rcr::color::Lab8;
use rcr::color::Rgb8;
use rcr::image::Image;
use rcr::ppm;
use rcr::ppm::Ppm;

#[test]
fn lab8_to_rgb8() {
    let black: Rgb8 = Lab8 { l: -128, a: 0, b: 0 }.into();
    let white: Rgb8 = Lab8 { l: 127, a: 0, b: 0 }.into();

    assert_eq!(black, Rgb8 { r: 0, g: 0, b: 0 });
    assert_eq!(white, Rgb8 { r: 255, g: 255, b: 255 });
}

#[test]
fn rgb8_to_lab8() {
    let black: Lab8 = Rgb8 { r: 0, g: 0, b: 0 }.into();
    let white: Lab8 = Rgb8 { r: 255, g: 255, b: 255 }.into();

    assert_eq!(black, Lab8 { l: -128, a: 0, b: 0 });
    assert_eq!(white, Lab8 { l: 127, a: 0, b: 0 });
}

#[test]
fn primary_colors_nearly_round_trip() {
    let red: Lab8 = Rgb8 { r: 255, g: 0, b: 0 }.into();
    assert_eq!(red, Lab8 { l: -74, a: -29, b: 127 });
    let back: Rgb8 = red.into();
    assert_eq!(back, Rgb8 { r: 253, g: 0, b: 0 });

    let green: Lab8 = Rgb8 { r: 0, g: 255, b: 0 }.into();
    assert_eq!(green, Lab8 { l: 54, a: -98, b: -115 });
    let back: Rgb8 = green.into();
    assert_eq!(back, Rgb8 { r: 0, g: 254, b: 0 });

    let gray: Lab8 = Rgb8 { r: 128, g: 128, b: 128 }.into();
    assert_eq!(gray, Lab8 { l: 0, a: 0, b: 0 });
    let back: Rgb8 = gray.into();
    assert_eq!(back, Rgb8 { r: 128, g: 128, b: 128 });
}

#[test]
fn out_of_range_channels_clamp() {
    // A bright pixel with strong chroma pushes a channel past one byte.
    let loud: Rgb8 = Lab8 { l: 127, a: 0, b: 100 }.into();
    assert_eq!(loud.r, 255);
}

#[test]
fn ppm_encode_writes_header_and_triples() {
    let image = Image::new(
        2,
        1,
        vec![Rgb8 { r: 1, g: 2, b: 3 }, Rgb8 { r: 255, g: 0, b: 128 }],
    );
    let bytes = ppm::encode(&image);
    let mut expected: Vec<u8> = b"P6\n2 1\n255\n".to_vec();
    expected.extend_from_slice(&[1, 2, 3, 255, 0, 128]);
    assert_eq!(bytes, expected);
}

#[test]
fn ppm_encode_multi_digit_dimensions() {
    let image = Image::new(120, 1, vec![Rgb8::default(); 120]);
    let bytes = ppm::encode(&image);
    assert_eq!(&bytes[0..12], b"P6\n120 1\n255");
    assert_eq!(bytes.len(), 13 + 3 * 120);
    let _marker = Ppm::new();
}

#[test]
fn image_conversion_preserves_dimensions() {
    let data: Vec<Rgb8> = (0..32u32)
        .map(|i| Rgb8 { r: (i * 8) as u8, g: (i * 5) as u8, b: (255 - i * 7) as u8 })
        .collect();
    let rgb = Image::new(8, 4, data);
    let lab = rcr::color::image_to_lab(&rgb);
    assert_eq!(lab.width(), 8);
    assert_eq!(lab.height(), 4);
    let back = rcr::color::image_to_rgb(&lab);
    assert_eq!(back.width(), 8);
    assert_eq!(back.height(), 4);
    // The fixed-point conversion pair is nearly the identity.
    for i in 0..32 {
        assert!((rgb.data()[i].r as i32 - back.data()[i].r as i32).abs() <= 3);
        assert!((rgb.data()[i].g as i32 - back.data()[i].g as i32).abs() <= 3);
        assert!((rgb.data()[i].b as i32 - back.data()[i].b as i32).abs() <= 3);
    }
}
