use ductr::AnymapError;
use ductr::AnymapImage;

#[test]
fn bitmap_construction_succeeds_on_valid_input() {
    let buffer = vec![0, 1, 1, 0, 1, 0];
    let x = AnymapImage::pbm(buffer.clone(), 2, 3).unwrap();
    assert_eq!(x.dimensions(), (2, 3));
    assert_eq!(x.get_buffer(), buffer);
}

#[test]
fn bitmap_binary_example_three_by_three() {
    let x = AnymapImage::pbm(vec![1; 9], 3, 3).unwrap();
    let out = x.encode_binary();
    assert_eq!(&out[..7], b"P4\n3 3\n");
    assert_eq!(&out[7..], &[0xE0, 0xE0, 0xE0]);
}

#[test]
fn greyscale_leaves_final_triple_untouched() {
    let mut x = AnymapImage::ppm(vec![225, 0, 0, 225, 0, 0], 255, 1, 2).unwrap();
    x.greyscale();
    assert_eq!(x.get_buffer(), vec![75, 75, 75, 225, 0, 0]);
}

#[test]
fn greymap_saturation_out_of_range() {
    let r = AnymapImage::pgm(vec![1, 2, 3], 300, 1, 3);
    assert_eq!(r.unwrap_err(), AnymapError::SaturationOutOfRange);
}

#[test]
fn binary_round_trip_bitmap_width_multiple_of_eight() {
    let buffer = vec![1, 0, 1, 0, 1, 0, 1, 0, 0, 1, 0, 1, 0, 1, 0, 1];
    let x = AnymapImage::pbm(buffer.clone(), 2, 8).unwrap();
    let y = AnymapImage::decode_binary(&x.encode_binary()).unwrap();
    assert_eq!(y.dimensions(), (2, 8));
    assert_eq!(y.get_buffer(), buffer);
}

#[test]
fn binary_round_trip_bitmap_narrow() {
    let buffer = vec![1, 0, 1, 0, 0, 1, 1, 1, 0, 0, 0, 1];
    let x = AnymapImage::pbm(buffer.clone(), 4, 3).unwrap();
    let y = AnymapImage::decode_binary(&x.encode_binary()).unwrap();
    assert_eq!(y.dimensions(), (4, 3));
    assert_eq!(y.get_buffer(), buffer);
}

#[test]
fn binary_round_trip_bitmap_wide() {
    let buffer: Vec<u8> = (0..26).map(|i| (i % 2) as u8).collect();
    let x = AnymapImage::pbm(buffer.clone(), 2, 13).unwrap();
    let y = AnymapImage::decode_binary(&x.encode_binary()).unwrap();
    assert_eq!(y.dimensions(), (2, 13));
    assert_eq!(y.get_buffer(), buffer);
}

#[test]
fn binary_round_trip_empty_bitmap() {
    let x = AnymapImage::pbm(vec![], 3, 0).unwrap();
    let y = AnymapImage::decode_binary(&x.encode_binary()).unwrap();
    assert_eq!(y.dimensions(), (3, 0));
    assert_eq!(y.get_buffer(), vec![]);
}

#[test]
fn binary_round_trip_greymap() {
    let buffer = vec![0, 127, 255, 10];
    let x = AnymapImage::pgm(buffer.clone(), 255, 2, 2).unwrap();
    let y = AnymapImage::decode_binary(&x.encode_binary()).unwrap();
    assert_eq!(y.dimensions(), (2, 2));
    assert_eq!(y.get_buffer(), buffer);
}

#[test]
fn binary_round_trip_pixmap() {
    let buffer = vec![1, 2, 3, 4, 5, 6];
    let x = AnymapImage::ppm(buffer.clone(), 99, 2, 1).unwrap();
    let y = AnymapImage::decode_binary(&x.encode_binary()).unwrap();
    assert_eq!(y.dimensions(), (2, 1));
    assert_eq!(y.get_buffer(), buffer);
}

#[test]
fn ascii_round_trip_bitmap() {
    let buffer = vec![1, 0, 0, 1];
    let x = AnymapImage::pbm(buffer.clone(), 2, 2).unwrap();
    let y = AnymapImage::decode_ascii(&x.encode_ascii()).unwrap();
    assert_eq!(y.dimensions(), (2, 2));
    assert_eq!(y.get_buffer(), buffer);
}

#[test]
fn ascii_round_trip_greymap() {
    let buffer = vec![200, 0, 31, 255, 7, 8];
    let x = AnymapImage::pgm(buffer.clone(), 255, 3, 2).unwrap();
    let y = AnymapImage::decode_ascii(&x.encode_ascii()).unwrap();
    assert_eq!(y.dimensions(), (3, 2));
    assert_eq!(y.get_buffer(), buffer);
}

#[test]
fn ascii_round_trip_pixmap() {
    let buffer = vec![9, 8, 7, 6, 5, 4];
    let x = AnymapImage::ppm(buffer.clone(), 255, 1, 2).unwrap();
    let y = AnymapImage::decode_ascii(&x.encode_ascii()).unwrap();
    assert_eq!(y.dimensions(), (1, 2));
    assert_eq!(y.get_buffer(), buffer);
}

#[test]
fn ascii_exact_text_for_single_sample() {
    let x = AnymapImage::pgm(vec![200], 255, 1, 1).unwrap();
    assert_eq!(x.encode_ascii(), b"P2\n1 1\n255\n200".to_vec());
}

#[test]
fn invert_is_involution_on_pixmap() {
    let buffer = vec![0, 100, 255, 17, 200, 3];
    let mut x = AnymapImage::ppm(buffer.clone(), 255, 1, 2).unwrap();
    x.invert();
    assert_eq!(x.get_buffer(), vec![255, 155, 0, 238, 55, 252]);
    x.invert();
    assert_eq!(x.get_buffer(), buffer);
}

#[test]
fn invert_flips_bitmap_samples() {
    let mut x = AnymapImage::pbm(vec![0, 1, 1, 0], 2, 2).unwrap();
    x.invert();
    assert_eq!(x.get_buffer(), vec![1, 0, 0, 1]);
    x.invert();
    assert_eq!(x.get_buffer(), vec![0, 1, 1, 0]);
}

#[test]
fn add_filter_wraps_and_pads_with_zero() {
    let mut x = AnymapImage::pgm(vec![250, 10, 30, 40], 255, 2, 2).unwrap();
    let f = AnymapImage::pgm(vec![10, 5], 255, 1, 2).unwrap();
    x.add_filter(f).unwrap();
    assert_eq!(x.get_buffer(), vec![4, 15, 30, 40]);
}

#[test]
fn add_filter_is_commutative_in_content() {
    let a = vec![200, 100, 55, 255];
    let b = vec![99, 200, 1, 2];
    let mut x = AnymapImage::pgm(a.clone(), 255, 2, 2).unwrap();
    let mut y = AnymapImage::pgm(b.clone(), 255, 2, 2).unwrap();
    x.add_filter(AnymapImage::pgm(b, 255, 2, 2).unwrap()).unwrap();
    y.add_filter(AnymapImage::pgm(a, 255, 2, 2).unwrap()).unwrap();
    assert_eq!(x.get_buffer(), y.get_buffer());
}

#[test]
fn dimension_mismatch_on_construction() {
    assert_eq!(AnymapImage::pbm(vec![1, 1], 2, 2).unwrap_err(), AnymapError::DimensionMismatch);
    assert_eq!(
        AnymapImage::pgm(vec![1, 1], 0, 2, 2).unwrap_err(),
        AnymapError::DimensionMismatch
    );
    assert_eq!(
        AnymapImage::ppm(vec![1, 1], 0, 1, 1).unwrap_err(),
        AnymapError::DimensionMismatch
    );
}

#[test]
fn invalid_sample_in_bitmap() {
    assert_eq!(AnymapImage::pbm(vec![0, 2], 1, 2).unwrap_err(), AnymapError::InvalidSample);
}

#[test]
fn pixmap_saturation_out_of_range() {
    assert_eq!(
        AnymapImage::ppm(vec![1, 2, 3], 256, 1, 1).unwrap_err(),
        AnymapError::SaturationOutOfRange
    );
}

#[test]
fn unknown_magic_number_binary() {
    assert_eq!(
        AnymapImage::decode_binary(&vec![]).unwrap_err(),
        AnymapError::UnknownMagicNumber
    );
    assert_eq!(
        AnymapImage::decode_binary(&b"P".to_vec()).unwrap_err(),
        AnymapError::UnknownMagicNumber
    );
    assert_eq!(
        AnymapImage::decode_binary(&b"P7\n1 1\n255\nx".to_vec()).unwrap_err(),
        AnymapError::UnknownMagicNumber
    );
    assert_eq!(
        AnymapImage::decode_binary(&b"P1\n1 1\n1".to_vec()).unwrap_err(),
        AnymapError::UnknownMagicNumber
    );
}

#[test]
fn unknown_magic_number_ascii() {
    assert_eq!(
        AnymapImage::decode_ascii(&b"".to_vec()).unwrap_err(),
        AnymapError::UnknownMagicNumber
    );
    assert_eq!(
        AnymapImage::decode_ascii(&b"P4\n1 1\n1".to_vec()).unwrap_err(),
        AnymapError::UnknownMagicNumber
    );
    assert_eq!(
        AnymapImage::decode_ascii(&b"P22\n1 1\n255\n0".to_vec()).unwrap_err(),
        AnymapError::UnknownMagicNumber
    );
}

#[test]
fn malformed_header_binary() {
    // a header token that is not a number
    assert_eq!(
        AnymapImage::decode_binary(&b"P5\nab 3\n255\nxyz".to_vec()).unwrap_err(),
        AnymapError::MalformedHeader
    );
    // the stream ends before the header is complete
    assert_eq!(
        AnymapImage::decode_binary(&b"P4\n3".to_vec()).unwrap_err(),
        AnymapError::MalformedHeader
    );
}

#[test]
fn malformed_header_ascii() {
    // tokens run out before enough numeric values are found
    assert_eq!(
        AnymapImage::decode_ascii(&b"P1 5".to_vec()).unwrap_err(),
        AnymapError::MalformedHeader
    );
    // a numeric token too large for the machine rejects the header
    assert_eq!(
        AnymapImage::decode_ascii(
            &b"P1 99999999999999999999999999999999999999 1 1".to_vec()
        )
        .unwrap_err(),
        AnymapError::MalformedHeader
    );
}

#[test]
fn malformed_pixel_data_ascii() {
    assert_eq!(
        AnymapImage::decode_ascii(&b"P1\n1 1\nx".to_vec()).unwrap_err(),
        AnymapError::MalformedPixelData
    );
    // 256 does not fit an unsigned byte
    assert_eq!(
        AnymapImage::decode_ascii(&b"P2\n1 1\n255\n256".to_vec()).unwrap_err(),
        AnymapError::MalformedPixelData
    );
}

#[test]
fn ascii_header_skips_stray_tokens() {
    let x = AnymapImage::decode_ascii(&b"P1\nremark 2 2\n1 0 0 1".to_vec()).unwrap();
    assert_eq!(x.dimensions(), (2, 2));
    assert_eq!(x.get_buffer(), vec![1, 0, 0, 1]);
}

#[test]
fn binary_greymap_exact_decode() {
    let mut bytes = b"P5\n2 2\n255\n".to_vec();
    bytes.extend_from_slice(&[1, 2, 3, 4]);
    let x = AnymapImage::decode_binary(&bytes).unwrap();
    assert_eq!(x.dimensions(), (2, 2));
    assert_eq!(x.get_buffer(), vec![1, 2, 3, 4]);
}

#[test]
fn binary_payload_may_hold_whitespace_bytes() {
    // the header scan stops after its token count, so spaces and
    // newlines in the pixel data are plain bytes
    let mut bytes = b"P5\n2 2\n255\n".to_vec();
    bytes.extend_from_slice(&[32, 10, 65, 10]);
    let x = AnymapImage::decode_binary(&bytes).unwrap();
    assert_eq!(x.get_buffer(), vec![32, 10, 65, 10]);
}

#[test]
fn binary_header_accepts_delimiter_runs() {
    let mut bytes = b"P5\n2  2 \n 255\n".to_vec();
    bytes.extend_from_slice(&[7, 8, 9, 10]);
    let x = AnymapImage::decode_binary(&bytes).unwrap();
    assert_eq!(x.dimensions(), (2, 2));
    assert_eq!(x.get_buffer(), vec![7, 8, 9, 10]);
}

#[test]
fn binary_decode_propagates_construction_errors() {
    // P5 header promising four samples but carrying three
    let mut bytes = b"P5\n2 2\n255\n".to_vec();
    bytes.extend_from_slice(&[1, 2, 3]);
    assert_eq!(
        AnymapImage::decode_binary(&bytes).unwrap_err(),
        AnymapError::DimensionMismatch
    );
    // a packed bitmap byte carrying a sample above one cannot arise, but
    // a wrong pixel count can
    let bytes = b"P4\n9 1\n\x80".to_vec();
    assert_eq!(
        AnymapImage::decode_binary(&bytes).unwrap_err(),
        AnymapError::DimensionMismatch
    );
}

#[test]
fn filter_errors_in_order() {
    let mut img = AnymapImage::pgm(vec![1, 2], 255, 1, 2).unwrap();
    let big = AnymapImage::pgm(vec![1, 2, 3], 255, 1, 3).unwrap();
    assert_eq!(img.add_filter(big).unwrap_err(), AnymapError::FilterTooLarge);
    assert_eq!(img.get_buffer(), vec![1, 2]);
    let mut img2 = AnymapImage::ppm(vec![0; 6], 255, 1, 2).unwrap();
    assert_eq!(img2.add_filter(AnymapImage::pgm(vec![0; 6], 255, 1, 6).unwrap()).unwrap_err(),
        AnymapError::FormatMismatch);
    let mut bits = AnymapImage::pbm(vec![0, 1], 1, 2).unwrap();
    assert_eq!(bits.add_filter(AnymapImage::pbm(vec![1, 1], 1, 2).unwrap()).unwrap_err(),
        AnymapError::UnsupportedFormat);
    assert_eq!(bits.get_buffer(), vec![0, 1]);
}

#[test]
fn greyscale_ignores_bitmap_and_greymap() {
    let mut g = AnymapImage::pgm(vec![10, 20, 30], 255, 1, 3).unwrap();
    g.greyscale();
    assert_eq!(g.get_buffer(), vec![10, 20, 30]);
    let mut b = AnymapImage::pbm(vec![1, 0, 1], 1, 3).unwrap();
    b.greyscale();
    assert_eq!(b.get_buffer(), vec![1, 0, 1]);
}

#[test]
fn greyscale_averages_all_but_last_triple() {
    let mut x = AnymapImage::ppm(vec![30, 60, 90, 0, 0, 3, 250, 250, 250], 255, 3, 1).unwrap();
    x.greyscale();
    assert_eq!(x.get_buffer(), vec![60, 60, 60, 1, 1, 1, 250, 250, 250]);
}
