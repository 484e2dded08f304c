use swrender::tgaimage::{tga_format, unload_rle_data, TGAColor, TGAError, TGAImage};

#[test]
fn rle_encode_grayscale() {
    let image = TGAImage {
        data: vec![0, 3, 1, 4, 4, 5, 5, 5, 0],
        width: 3,
        height: 3,
        bytespp: tga_format::GRAYSCALE,
    };

    let mut target: Vec<u8> = Vec::new();
    unload_rle_data(&image, &mut target);

    let expected = [4, 0, 3, 1, 4, 4, 130, 5, 0, 0] as [u8; 10];
    assert_eq!(target.as_slice(), expected);
}

#[test]
fn rle_encode_rgb() {
    let image = TGAImage {
        data: vec![
            0, 0, 0, 0, 0, 0, 0, 0, 0, //
            0, 0, 0, 255, 0, 0, 0, 0, 0, //
            0, 0, 0, 0, 0, 0, 0, 0, 0,
        ],
        width: 3,
        height: 3,
        bytespp: tga_format::RGB,
    };

    let mut target: Vec<u8> = Vec::new();
    unload_rle_data(&image, &mut target);

    let expected = [131, 0, 0, 0, 0, 255, 0, 0, 131, 0, 0, 0];
    assert_eq!(target.as_slice(), expected);
}

#[test]
fn flip_vertically() {
    let mut image = TGAImage {
        data: vec![1, 2, 3, 4, 5, 6],
        width: 3,
        height: 2,
        bytespp: tga_format::GRAYSCALE,
    };

    image.flip_vertically().unwrap();

    let expected = [4, 5, 6, 1, 2, 3] as [u8; 6];
    assert_eq!(image.data.as_slice(), expected);
}

#[test]
fn set() {
    let mut image = TGAImage::with_size(5, 5, tga_format::RGBA);
    image.set(1, 2, TGAColor::from_rgba(255, 0, 0, 255)).unwrap();
    assert_eq!(image.data[46], 255);
}

#[test]
fn get() {
    let image = TGAImage {
        data: vec![
            0, 0, 0, 0, 0, 0, //
            0, 0, 0, 0, 0, 0, //
            0, 0, 0, 128, 0, 0,
        ],
        width: 2,
        height: 3,
        bytespp: tga_format::RGB,
    };

    let color = image.get(1, 2).unwrap();
    assert_eq!(color.r(), 0);
    assert_eq!(color.g(), 0);
    assert_eq!(color.b(), 128);
}

#[test]
fn flip_twice_restores_buffer() {
    let original: Vec<u8> = (0..24).map(|v| v as u8).collect();
    let mut image = TGAImage { data: original.clone(), width: 2, height: 4, bytespp: tga_format::RGB };
    image.flip_vertically().unwrap();
    assert_ne!(image.data, original);
    assert_eq!(&image.data[0..6], &original[18..24]);
    image.flip_vertically().unwrap();
    assert_eq!(image.data, original);
}

#[test]
fn flip_odd_height_keeps_middle_row() {
    let mut image = TGAImage {
        data: vec![1, 2, 3, 4, 5, 6, 7, 8, 9],
        width: 3,
        height: 3,
        bytespp: tga_format::GRAYSCALE,
    };
    image.flip_vertically().unwrap();
    assert_eq!(image.data, vec![7, 8, 9, 4, 5, 6, 1, 2, 3]);
}

#[test]
fn flip_empty_image_fails() {
    let mut image = TGAImage::new();
    assert_eq!(image.flip_vertically(), Err(TGAError::EmptyImage));
}

#[test]
fn set_then_get_returns_color() {
    let mut image = TGAImage::with_size(4, 3, tga_format::RGB);
    let c = TGAColor::from_rgb(10, 20, 30);
    image.set(3, 2, c).unwrap();
    let back = image.get(3, 2).unwrap();
    assert_eq!(back, c);
    assert_eq!((back.r(), back.g(), back.b()), (10, 20, 30));
    assert_eq!(image.get(2, 2).unwrap(), TGAColor::from_rgb(0, 0, 0));
}

#[test]
fn set_copies_only_bytespp_components() {
    let mut image = TGAImage::with_size(2, 1, tga_format::GRAYSCALE);
    image.set(1, 0, TGAColor::from_rgba(1, 2, 3, 4)).unwrap();
    assert_eq!(image.data, vec![0, 3]);
    let back = image.get(1, 0).unwrap();
    assert_eq!(back.val, [3, 0, 0, 0]);
    assert_eq!(back.bytespp, 1);
}

#[test]
fn access_out_of_bounds_fails() {
    let mut image = TGAImage::with_size(3, 2, tga_format::RGB);
    let c = TGAColor::from_rgb(1, 1, 1);
    assert_eq!(image.get(3, 0), Err(TGAError::InvalidCoords(3, 0)));
    assert_eq!(image.get(0, -1), Err(TGAError::InvalidCoords(0, -1)));
    assert_eq!(image.set(0, 2, c), Err(TGAError::InvalidCoords(0, 2)));
    assert_eq!(image.set(-1, 0, c), Err(TGAError::InvalidCoords(-1, 0)));
    assert!(image.data.iter().all(|b| *b == 0));
}

#[test]
fn access_to_empty_image_fails() {
    let mut image = TGAImage::new();
    assert_eq!(image.get(0, 0), Err(TGAError::EmptyImage));
    assert_eq!(image.set(0, 0, TGAColor::from_rgb(1, 2, 3)), Err(TGAError::EmptyImage));
    let mut zero_width = TGAImage::with_size(0, 5, tga_format::RGB);
    assert!(zero_width.data.is_empty());
    assert_eq!(zero_width.get(0, 0), Err(TGAError::EmptyImage));
    assert_eq!(zero_width.set(0, 0, TGAColor::from_rgb(1, 2, 3)), Err(TGAError::EmptyImage));
}

#[test]
fn with_size_allocates_zeroed_buffer() {
    let image = TGAImage::with_size(5, 3, tga_format::RGBA);
    assert_eq!(image.data.len(), 60);
    assert!(image.data.iter().all(|b| *b == 0));
    assert_eq!((image.width, image.height, image.bytespp), (5, 3, 4));
}

#[test]
fn clear_zeroes_every_byte() {
    let mut image = TGAImage::with_size(2, 2, tga_format::RGB);
    image.set(1, 1, TGAColor::from_rgb(9, 9, 9)).unwrap();
    image.clear();
    assert_eq!(image, TGAImage::with_size(2, 2, tga_format::RGB));
}

#[test]
fn color_constructors_store_bgra() {
    let c = TGAColor::from_rgb(1, 2, 3);
    assert_eq!(c.val, [3, 2, 1, 0]);
    assert_eq!(c.bytespp, 3);
    let c = TGAColor::from_rgba(1, 2, 3, 4);
    assert_eq!(c.val, [3, 2, 1, 4]);
    assert_eq!((c.r(), c.g(), c.b(), c.a()), (1, 2, 3, 4));
    assert_eq!(c.bytespp, 4);
}

#[test]
fn packed_components_unpack_high_byte_first() {
    let c = TGAColor::from_packed_components(0x11223344);
    assert_eq!(c.val, [0x11, 0x22, 0x33, 0x44]);
    assert_eq!(c.bytespp, 4);
    let c = TGAColor::from_packed_components(-1);
    assert_eq!(c.val, [255, 255, 255, 255]);
    let c = TGAColor::from_packed_components(i32::MIN);
    assert_eq!(c.val, [0x80, 0, 0, 0]);
}

#[test]
fn component_slice_pads_with_zeros() {
    let c = TGAColor::from_component_slice(&[7, 8, 9, 10, 11], 3);
    assert_eq!(c.val, [7, 8, 9, 0]);
    assert_eq!(c.bytespp, 3);
}
