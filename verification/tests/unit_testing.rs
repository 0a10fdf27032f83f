use ductr::AnymapImage;

#[test]
fn make_pbm_binary() {
    let pixel_map = vec![1; 100 * 100];
    let x = AnymapImage::pbm(pixel_map, 100, 100).unwrap();
    let out = x.encode_binary();
    assert_eq!(&out[..11], b"P4\n100 100\n");
    // each row of 100 pixels packs into 12 full bytes and one padded byte
    assert_eq!(out.len(), 11 + 100 * 13);
    assert_eq!(out[11], 0xFF);
    assert_eq!(out[11 + 12], 0xF0);
}

#[test]
fn make_pbm_ascii() {
    let pixel_map = vec![1; 100 * 100];
    let x = AnymapImage::pbm(pixel_map, 100, 100).unwrap();
    let out = x.encode_ascii();
    assert_eq!(&out[..11], b"P1\n100 100\n");
    assert_eq!(&out[11..16], b"1 1 1");
    // 10000 one-digit samples with a separator after all but the last
    assert_eq!(out.len(), 11 + 10000 + 9999);
}

#[test]
fn make_pgm_binary() {
    let pixel_map = vec![150; 100 * 100];
    let x = AnymapImage::pgm(pixel_map, 255, 100, 100).unwrap();
    let out = x.encode_binary();
    assert_eq!(&out[..15], b"P5\n100 100\n255\n");
    assert_eq!(out.len(), 15 + 10000);
    assert!(out[15..].iter().all(|&b| b == 150));
}

#[test]
fn make_pgm_ascii() {
    let pixel_map = vec![150; 100 * 100];
    let x = AnymapImage::pgm(pixel_map, 255, 100, 100).unwrap();
    let out = x.encode_ascii();
    assert_eq!(&out[..15], b"P2\n100 100\n255\n");
    assert_eq!(&out[15..22], b"150 150");
    assert_eq!(out.len(), 15 + 3 * 10000 + 9999);
}

#[test]
fn make_ppm_binary() {
    let mut pixel_map = vec![0; 100 * 3 * 100];
    for x in 0..pixel_map.len() {
        if x % 3 == 0 {
            pixel_map[x] = 225;
        }
    }
    let x = AnymapImage::ppm(pixel_map, 255, 100, 100).unwrap();
    let out = x.encode_binary();
    assert_eq!(&out[..15], b"P6\n100 100\n255\n");
    assert_eq!(out.len(), 15 + 30000);
    assert_eq!(out[15], 225);
    assert_eq!(out[16], 0);
    assert_eq!(out[17], 0);
    assert_eq!(out[18], 225);
}

#[test]
fn make_ppm_ascii() {
    let mut pixel_map = vec![0; 100 * 3 * 100];
    for x in 0..pixel_map.len() {
        if x % 3 == 0 {
            pixel_map[x] = 225;
        }
    }
    let x = AnymapImage::ppm(pixel_map, 255, 100, 100).unwrap();
    let out = x.encode_ascii();
    assert_eq!(&out[..15], b"P3\n100 100\n255\n");
    assert_eq!(&out[15..24], b"225 0 0 2");
}

#[test]
fn check_dimensions() {
    let pixel_map = vec![0; 20 * 3 * 20];
    let x = AnymapImage::ppm(pixel_map, 255, 20, 20).unwrap();
    assert_eq!((20, 20), x.dimensions());
}

#[test]
fn check_buffer() {
    let pixel_map = vec![0; 5 * 5];
    let x = AnymapImage::pbm(pixel_map, 5, 5).unwrap();
    assert_eq!(vec![0; 5 * 5], x.get_buffer());
}

#[test]
fn read_file_binary() {
    // a 2x2 pixmap, read from its binary bytes and written back
    let mut bytes = b"P6\n2 2\n255\n".to_vec();
    let pixels = [200, 0, 0, 0, 200, 0, 0, 0, 200, 10, 20, 30];
    bytes.extend_from_slice(&pixels);
    let x = AnymapImage::decode_binary(&bytes).unwrap();
    assert_eq!(x.dimensions(), (2, 2));
    assert_eq!(x.get_buffer(), pixels.to_vec());
    assert_eq!(x.encode_binary(), bytes);
}

#[test]
fn make_greyscale() {
    // a 1x2 pixmap read from ASCII text; only the first triple is averaged
    let text = b"P3\n2 1\n255\n30 60 90 1 2 3".to_vec();
    let mut x = AnymapImage::decode_ascii(&text).unwrap();
    x.greyscale();
    assert_eq!(x.get_buffer(), vec![60, 60, 60, 1, 2, 3]);
    let out = x.encode_binary();
    assert_eq!(&out[..11], b"P6\n2 1\n255\n");
    assert_eq!(&out[11..], &[60, 60, 60, 1, 2, 3]);
}

#[test]
fn add_filter() {
    let red = b"P3\n2 2\n255\n225 0 0 225 0 0 225 0 0 225 0 0".to_vec();
    let green = b"P3\n2 2\n255\n0 225 0 0 225 0 0 225 0 0 225 0".to_vec();
    let mut red = AnymapImage::decode_ascii(&red).unwrap();
    let green = AnymapImage::decode_ascii(&green).unwrap();
    assert_eq!((), red.add_filter(green).unwrap());
    assert_eq!(red.get_buffer(), vec![225, 225, 0].repeat(4));
    let out = red.encode_ascii();
    assert_eq!(&out[..11], b"P3\n2 2\n255\n");
}

#[test]
fn read_file_ascii() {
    let text = b"P2\n3 2\n100\n0 50 100\n1 2 3".to_vec();
    let x = AnymapImage::decode_ascii(&text).unwrap();
    assert_eq!(x.dimensions(), (2, 3));
    assert_eq!(x.get_buffer(), vec![0, 50, 100, 1, 2, 3]);
    assert_eq!(x.encode_ascii(), text);
}
