use swrender::renderer::draw_line;
use swrender::tgaimage::{tga_format, TGAColor, TGAImage};

fn setup_1_image() -> (TGAImage, TGAColor) {
    (TGAImage::with_size(6, 6, tga_format::RGB), TGAColor::from_rgb(255, 255, 255))
}

fn setup_2_images() -> (TGAImage, TGAImage, TGAColor) {
    (
        TGAImage::with_size(6, 6, tga_format::RGB),
        TGAImage::with_size(6, 6, tga_format::RGB),
        TGAColor::from_rgb(255, 255, 255),
    )
}

fn lit(img: &TGAImage) -> Vec<(i32, i32)> {
    let mut v = Vec::new();
    for y in 0..img.height {
        for x in 0..img.width {
            if img.get(x, y).unwrap().r() != 0 {
                v.push((x, y));
            }
        }
    }
    v
}

#[test]
fn draw_positive_sloped_line_is_symmetric() {
    let (mut img1, mut img2, col) = setup_2_images();

    draw_line(1, 2, 4, 5, &mut img1, col);
    draw_line(4, 5, 1, 2, &mut img2, col);

    assert_eq!(img1, img2);
}

#[test]
fn draw_negative_sloped_line_is_symmetric() {
    let (mut img1, mut img2, col) = setup_2_images();

    draw_line(2, 5, 4, 1, &mut img1, col);
    draw_line(4, 1, 2, 5, &mut img2, col);

    assert_eq!(img1, img2);
}

#[test]
fn draw_x_aligned_line() {
    let (mut img, col) = setup_1_image();
    let black = TGAColor::from_rgb(0, 0, 0);

    draw_line(0, 3, 5, 3, &mut img, col);

    for y in 0..img.height {
        let expected_col = if y == 3 { col } else { black };
        for x in 0..img.width {
            assert_eq!(img.get(x, y).unwrap(), expected_col, "@ ({}, {})", x, y);
        }
    }
}

#[test]
fn draw_y_aligned_line() {
    let (mut img, col) = setup_1_image();
    let black = TGAColor::from_rgb(0, 0, 0);

    draw_line(2, 0, 2, 5, &mut img, col);

    for x in 0..img.width {
        let expected_col = if x == 2 { col } else { black };
        for y in 0..img.height {
            assert_eq!(img.get(x, y).unwrap(), expected_col, "@ ({}, {})", x, y);
        }
    }
}

#[test]
fn shallow_line_rounds_to_nearest_row() {
    let mut img = TGAImage::with_size(8, 4, tga_format::RGB);
    draw_line(0, 0, 7, 2, &mut img, TGAColor::from_rgb(255, 0, 0));
    assert_eq!(
        lit(&img),
        vec![(0, 0), (1, 0), (2, 1), (3, 1), (4, 1), (5, 1), (6, 2), (7, 2)]
    );
}

#[test]
fn steep_line_steps_along_y() {
    let mut img = TGAImage::with_size(4, 8, tga_format::RGB);
    draw_line(2, 7, 0, 0, &mut img, TGAColor::from_rgb(255, 0, 0));
    let mut expected = vec![(0, 0), (0, 1), (1, 2), (1, 3), (1, 4), (1, 5), (2, 6), (2, 7)];
    expected.sort_by_key(|p| (p.1, p.0));
    assert_eq!(lit(&img), expected);
}

#[test]
fn diagonal_and_single_pixel_lines() {
    let mut img = TGAImage::with_size(5, 5, tga_format::GRAYSCALE);
    let c = TGAColor::from_rgb(0, 0, 9);
    draw_line(4, 0, 0, 4, &mut img, c);
    for y in 0..5 {
        for x in 0..5 {
            let v = img.get(x, y).unwrap().val[0];
            assert_eq!(v, if x + y == 4 { 9 } else { 0 }, "@ ({}, {})", x, y);
        }
    }
    let mut one = TGAImage::with_size(3, 3, tga_format::GRAYSCALE);
    draw_line(1, 1, 1, 1, &mut one, c);
    assert_eq!(one.data, vec![0, 0, 0, 0, 9, 0, 0, 0, 0]);
}

#[test]
fn lines_are_symmetric_on_many_segments() {
    let c = TGAColor::from_rgb(255, 255, 255);
    for (x0, y0, x1, y1) in [(0, 0, 6, 3), (0, 1, 6, 4), (1, 0, 3, 6), (6, 6, 0, 1), (0, 5, 5, 2)] {
        let mut a = TGAImage::with_size(7, 7, tga_format::RGB);
        let mut b = TGAImage::with_size(7, 7, tga_format::RGB);
        draw_line(x0, y0, x1, y1, &mut a, c);
        draw_line(x1, y1, x0, y0, &mut b, c);
        assert_eq!(a, b, "{:?}", (x0, y0, x1, y1));
    }
}
