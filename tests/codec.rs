use swrender::tgaimage::{load_rle_data, tga_format, unload_rle_data, TGAColor, TGAError, TGAImage};

const FOOTER: &[u8] = b"\0\0\0\0\0\0\0\0TRUEVISION-XFILE.\0";

fn encoded(image: &TGAImage) -> Vec<u8> {
    let mut out = Vec::new();
    unload_rle_data(image, &mut out);
    out
}

#[test]
fn rle_raw_run_ends_before_three_equal_pixels() {
    let image = TGAImage { data: vec![1, 2, 2, 3, 3, 3], width: 6, height: 1, bytespp: tga_format::GRAYSCALE };
    // two equal pixels stay in the raw run; three start a replicate run
    assert_eq!(encoded(&image), vec![2, 1, 2, 2, 130, 3]);
}

#[test]
fn rle_pair_at_end_stays_raw() {
    let image = TGAImage { data: vec![1, 2, 2], width: 3, height: 1, bytespp: tga_format::GRAYSCALE };
    assert_eq!(encoded(&image), vec![2, 1, 2, 2]);
}

#[test]
fn rle_runs_split_at_128_pixels() {
    let image = TGAImage::with_size(130, 1, tga_format::GRAYSCALE);
    assert_eq!(encoded(&image), vec![255, 0, 129, 0]);
    let data: Vec<u8> = (0..130).map(|v| v as u8).collect();
    let raw = TGAImage { data: data.clone(), width: 130, height: 1, bytespp: tga_format::GRAYSCALE };
    let out = encoded(&raw);
    assert_eq!(out.len(), 1 + 128 + 1 + 2);
    assert_eq!(out[0], 127);
    assert_eq!(&out[1..129], &data[0..128]);
    assert_eq!(out[129], 1);
    assert_eq!(&out[130..132], &data[128..130]);
}

#[test]
fn rle_single_pixel_and_empty_image() {
    let one = TGAImage { data: vec![9, 8, 7], width: 1, height: 1, bytespp: tga_format::RGB };
    assert_eq!(encoded(&one), vec![0, 9, 8, 7]);
    assert_eq!(encoded(&TGAImage::new()), Vec::<u8>::new());
}

#[test]
fn rle_appends_to_existing_bytes() {
    let image = TGAImage { data: vec![5, 5], width: 2, height: 1, bytespp: tga_format::GRAYSCALE };
    let mut out = vec![42];
    unload_rle_data(&image, &mut out);
    assert_eq!(out, vec![42, 129, 5]);
}

#[test]
fn rle_decode_inverts_fixture() {
    let mut image = TGAImage::with_size(3, 3, tga_format::GRAYSCALE);
    load_rle_data(&[4, 0, 3, 1, 4, 4, 130, 5, 0, 0], &mut image).unwrap();
    assert_eq!(image.data, vec![0, 3, 1, 4, 4, 5, 5, 5, 0]);
}

#[test]
fn rle_decode_round_trip_rgb() {
    let mut data = Vec::new();
    for i in 0..40u8 {
        let v = if i % 7 < 3 { 1 } else { i };
        data.extend_from_slice(&[v, v / 2, 3]);
    }
    let image = TGAImage { data, width: 8, height: 5, bytespp: tga_format::RGB };
    let mut stream = encoded(&image);
    stream.extend_from_slice(FOOTER);
    let mut back = TGAImage::with_size(8, 5, tga_format::RGB);
    load_rle_data(&stream, &mut back).unwrap();
    assert_eq!(back, image);
}

#[test]
fn rle_decode_truncated_stream_fails() {
    let mut image = TGAImage::with_size(3, 3, tga_format::GRAYSCALE);
    let before = image.clone();
    assert_eq!(load_rle_data(&[4, 0, 3, 1], &mut image), Err(TGAError::CorruptData));
    assert_eq!(image, before);
    // a replicate run longer than the pixels that are left
    assert_eq!(load_rle_data(&[137, 1], &mut image), Err(TGAError::CorruptData));
    assert_eq!(load_rle_data(&[], &mut image), Err(TGAError::CorruptData));
    assert_eq!(image, before);
}

#[test]
fn file_bytes_have_header_and_footer() {
    let mut image = TGAImage::with_size(300, 2, tga_format::RGB);
    image.set(0, 0, TGAColor::from_rgb(1, 2, 3)).unwrap();
    let bytes = image.to_tga_bytes();
    let header = [0, 0, 10, 0, 0, 0, 0, 0, 0, 0, 0, 0, 44, 1, 2, 0, 24, 0x20];
    assert_eq!(&bytes[0..18], &header);
    assert_eq!(&bytes[bytes.len() - 26..], FOOTER);
    assert_eq!(bytes.len(), 18 + encoded(&image).len() + 26);

    let gray = TGAImage::with_size(1, 1, tga_format::GRAYSCALE);
    let bytes = gray.to_tga_bytes();
    assert_eq!(bytes[2], 11);
    assert_eq!(bytes[16], 8);
    assert_eq!(&bytes[18..20], &[0, 0]);
}

#[test]
fn file_bytes_round_trip() {
    let mut image = TGAImage::with_size(7, 4, tga_format::RGBA);
    image.set(2, 3, TGAColor::from_rgba(200, 100, 50, 25)).unwrap();
    image.set(6, 0, TGAColor::from_rgba(1, 2, 3, 4)).unwrap();
    let back = TGAImage::from_tga_bytes(&image.to_tga_bytes()).unwrap();
    assert_eq!(back, image);
}

#[test]
fn file_bytes_rejected() {
    assert_eq!(TGAImage::from_tga_bytes(&[0; 10]), Err(TGAError::CorruptData));
    let mut bytes = TGAImage::with_size(2, 2, tga_format::RGB).to_tga_bytes();
    bytes[2] = 2;
    assert_eq!(TGAImage::from_tga_bytes(&bytes), Err(TGAError::CorruptData));
    bytes[2] = 10;
    bytes[16] = 16;
    assert_eq!(TGAImage::from_tga_bytes(&bytes), Err(TGAError::CorruptData));
    bytes[16] = 24;
    bytes[13] = 0x80;
    assert_eq!(TGAImage::from_tga_bytes(&bytes), Err(TGAError::CorruptData));
    bytes[13] = 0;
    assert!(TGAImage::from_tga_bytes(&bytes).is_ok());
    assert_eq!(TGAImage::from_tga_bytes(&bytes[0..19]), Err(TGAError::CorruptData));
}
