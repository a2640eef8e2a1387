use rcr::tables::from_quality;
use rcr::tables::CHROMA_BASE;
use rcr::tables::LUMA_BASE;
use rcr::unit::Unit;

const SPACIAL: [i32; 64] = [
    16, 11, 10, 16, 24, 40, 51, 61,
    12, 12, 14, 19, 26, 58, 60, 55,
    14, 13, 16, 24, 40, 57, 69, 56,
    14, 17, 22, 29, 51, 87, 80, 62,
    18, 22, 37, 56, 68, 109, 103, 77,
    24, 35, 55, 64, 81, 104, 113, 92,
    49, 64, 78, 87, 103, 121, 120, 101,
    72, 92, 95, 98, 112, 100, 103, 99,
];

#[test]
fn n_dct_inverese_equality() {
    let spacial = SPACIAL;

    let new_spacial = Unit::new(spacial).dct().inv_dct().unwrap();

    spacial
        .iter()
        .zip(new_spacial.iter())
        .for_each(|(a, b)| assert!((a - b).abs() < 8));
}

#[test]
fn zigzag_inverse_equality() {
    let data = [
        0, 1, 2, 3, 4, 5, 6, 7,
        8, 9, 10, 11, 12, 13, 14, 15,
        16, 17, 18, 19, 20, 21, 22, 23,
        24, 25, 26, 27, 28, 29, 30, 31,
        32, 33, 34, 35, 36, 37, 38, 39,
        40, 41, 42, 43, 44, 45, 46, 47,
        48, 49, 50, 51, 52, 53, 54, 55,
        56, 57, 58, 59, 60, 61, 62, 63,
    ];

    let a = Unit::new(data);
    let b = a.clone().zigzag().inv_zigzag();

    assert_eq!(a, b);
}

#[test]
fn zigzag_places_first_diagonal() {
    let data: [i32; 64] = core::array::from_fn(|i| i as i32);
    let z = Unit::new(data).zigzag().unwrap();
    // The zigzag scan starts along the first anti-diagonals.
    assert_eq!(&z[0..8], &[0, 1, 8, 16, 9, 2, 3, 10]);
}

#[test]
fn dct_reference_block_coefficients() {
    let f = Unit::new(SPACIAL).dct().unwrap();
    assert_eq!(f[0], 459);
    assert_eq!(f[1], -169);
    assert_eq!(f[2], -15);
    assert_eq!(f[3], 30);
}

#[test]
fn dct_of_zero_block_is_zero() {
    let f = Unit::new([0i32; 64]).dct().unwrap();
    assert_eq!(f, [0i32; 64]);
}

#[test]
fn quantize_truncates_toward_zero() {
    let mut data = [0i32; 64];
    data[0] = 7;
    data[1] = -7;
    data[2] = 6;
    data[3] = -6;
    let q = Unit::new(data).quantize(Unit::new([2i32; 64])).unwrap();
    assert_eq!(q[0], 3);
    assert_eq!(q[1], -3);
    assert_eq!(q[2], 3);
    assert_eq!(q[3], -3);
    assert_eq!(q[4], 0);
}

#[test]
fn inv_quantize_multiplies() {
    let data: [i32; 64] = core::array::from_fn(|i| i as i32 - 32);
    let table: [i32; 64] = core::array::from_fn(|i| 1 + (i as i32 % 7));
    let r = Unit::new(data).inv_quantize(Unit::new(table)).unwrap();
    for i in 0..64 {
        assert_eq!(r[i], data[i] * table[i]);
    }
}

#[test]
fn quantize_pair_is_lossy_by_truncation() {
    let mut data = [0i32; 64];
    data[0] = 7;
    let table = Unit::new([2i32; 64]);
    let r = Unit::new(data).quantize(table).inv_quantize(table).unwrap();
    assert_eq!(r[0], 6);
}

#[test]
fn convert_maps_elementwise() {
    let data: [i32; 64] = core::array::from_fn(|i| i as i32);
    let doubled = Unit::new(data).convert(|x| (x * 2) as i64).unwrap();
    for i in 0..64 {
        assert_eq!(doubled[i], 2 * i as i64);
    }
}

#[test]
fn unit_new_unwrap_round_trip() {
    let data: [u8; 64] = core::array::from_fn(|i| i as u8);
    assert_eq!(Unit::new(data).unwrap(), data);
}

#[test]
fn quality_ten_gives_unit_divisors() {
    let (luma, chroma) = from_quality(10);
    assert_eq!(luma.unwrap(), [1i32; 64]);
    assert_eq!(chroma.unwrap(), [1i32; 64]);
}

#[test]
fn quality_five_gives_base_tables() {
    let (luma, chroma) = from_quality(5);
    assert_eq!(luma.unwrap(), LUMA_BASE);
    assert_eq!(chroma.unwrap(), CHROMA_BASE);
}

#[test]
fn quality_is_clamped_not_rejected() {
    let (big_l, big_c) = from_quality(10000);
    let (ten_l, ten_c) = from_quality(10);
    assert_eq!(big_l.unwrap(), ten_l.unwrap());
    assert_eq!(big_c.unwrap(), ten_c.unwrap());
}

#[test]
fn quality_zero_doubles_and_caps() {
    let (luma, chroma) = from_quality(0);
    let l = luma.unwrap();
    let c = chroma.unwrap();
    assert_eq!(l[0], 12); // 6 doubled
    assert_eq!(c[4], 127); // 99 doubled, capped at one signed byte
    assert_eq!(l[45], 127); // 104 doubled, capped
}

#[test]
fn quality_scaling_is_monotone() {
    let (l3, c3) = from_quality(3);
    let (l7, c7) = from_quality(7);
    let (l3a, c3a) = (l3.unwrap(), c3.unwrap());
    let (l7a, c7a) = (l7.unwrap(), c7.unwrap());
    for i in 0..64 {
        assert!(l3a[i] >= l7a[i]);
        assert!(c3a[i] >= c7a[i]);
        assert!(l7a[i] >= 1);
        assert!(c7a[i] >= 1);
    }
}

#[test]
fn quantize_pair_loss_is_under_one_entry() {
    let data: [i32; 64] = core::array::from_fn(|i| (i as i32 - 32) * 37);
    let table: [i32; 64] = core::array::from_fn(|i| 1 + (i as i32 * 3) % 11);
    let t = Unit::new(table);
    let r = Unit::new(data).quantize(t).inv_quantize(t).unwrap();
    for i in 0..64 {
        assert!((data[i] - r[i]).abs() < table[i]);
    }
}
