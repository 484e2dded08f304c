use swrender::math::Point2i;
use swrender::renderer::draw_triangle;
use swrender::renderer::triangle::{draw_triangle_sweep, triangle_fragments};
use swrender::tgaimage::{tga_format, TGAColor, TGAImage};

fn setup_1_image() -> (TGAImage, TGAColor) {
    (TGAImage::with_size(6, 6, tga_format::RGB), TGAColor::from_rgb(255, 255, 255))
}

fn setup_2_images() -> (TGAImage, TGAImage, TGAColor) {
    (
        TGAImage::with_size(6, 6, tga_format::RGB),
        TGAImage::with_size(6, 6, tga_format::RGB),
        TGAColor::from_rgb(255, 255, 255),
    )
}

#[test]
fn different_vertex_order() {
    let (mut img1, mut img2, col) = setup_2_images();

    let v1 = Point2i { x: 3, y: 0 };
    let v2 = Point2i { x: 5, y: 5 };
    let v3 = Point2i { x: 1, y: 3 };
    draw_triangle(v1, v2, v3, &mut img1, col);
    draw_triangle(v1, v3, v2, &mut img2, col);

    assert_eq!(img1, img2);
}

#[test]
fn degenerate_x_triangle() {
    let (mut img, col) = setup_1_image();
    let black = TGAColor::from_rgb(0, 0, 0);

    let v1 = Point2i { x: 0, y: 3 };
    let v2 = Point2i { x: 2, y: 3 };
    let v3 = Point2i { x: 5, y: 3 };

    draw_triangle(v1, v2, v3, &mut img, col);

    for y in 0..img.height {
        let expected_col = if y == 3 { col } else { black };
        for x in 0..img.width {
            assert_eq!(img.get(x, y).unwrap(), expected_col, "@ ({}, {})", x, y);
        }
    }
}

#[test]
fn degenerate_y_triangle() {
    let (mut img, col) = setup_1_image();
    let black = TGAColor::from_rgb(0, 0, 0);

    let v1 = Point2i { x: 2, y: 0 };
    let v2 = Point2i { x: 2, y: 5 };
    let v3 = Point2i { x: 2, y: 2 };

    draw_triangle(v1, v2, v3, &mut img, col);

    for x in 0..img.width {
        let expected_col = if x == 2 { col } else { black };
        for y in 0..img.height {
            assert_eq!(img.get(x, y).unwrap(), expected_col, "@ ({}, {})", x, y);
        }
    }
}

#[test]
fn corner_right_triangles() {
    let (mut img, col) = setup_1_image();
    let black = TGAColor::from_rgb(0, 0, 0);

    let vs = [
        Point2i { x: 0, y: 0 },
        Point2i { x: 5, y: 0 },
        Point2i { x: 5, y: 5 },
        Point2i { x: 0, y: 5 },
    ];
    let preds = [
        |x: i32, y: i32| x >= y,
        |x: i32, y: i32| x + y >= 5,
        |x: i32, y: i32| y >= x,
        |x: i32, y: i32| x + y <= 5,
    ];

    for i in 0..4 {
        draw_triangle(vs[i], vs[(i + 1) % 4], vs[(i + 2) % 4], &mut img, col);

        for x in 0..img.width {
            for y in 0..img.height {
                let expected_col = if preds[i](x, y) { col } else { black };
                assert_eq!(img.get(x, y).unwrap(), expected_col, "@ ({}, {}) triangle at corner {}", x, y, i);
            }
        }

        img.clear();
    }
}

#[test]
fn rotated_vertex_order_fills_same_pixels() {
    let col = TGAColor::from_rgb(255, 255, 255);
    let v = [Point2i { x: 1, y: 0 }, Point2i { x: 6, y: 2 }, Point2i { x: 2, y: 6 }];
    let mut reference = TGAImage::with_size(8, 8, tga_format::RGB);
    draw_triangle(v[0], v[1], v[2], &mut reference, col);
    for (a, b, c) in [(1, 2, 0), (2, 0, 1), (2, 1, 0), (0, 2, 1), (1, 0, 2)] {
        let mut img = TGAImage::with_size(8, 8, tga_format::RGB);
        draw_triangle(v[a], v[b], v[c], &mut img, col);
        assert_eq!(img, reference);
    }
}

#[test]
fn small_triangle_exact_pixels() {
    let mut img = TGAImage::with_size(4, 4, tga_format::GRAYSCALE);
    let c = TGAColor::from_rgb(0, 0, 1);
    draw_triangle(Point2i { x: 0, y: 0 }, Point2i { x: 3, y: 0 }, Point2i { x: 0, y: 3 }, &mut img, c);
    // pixels with x + y <= 3
    assert_eq!(
        img.data,
        vec![1, 1, 1, 1, 1, 1, 1, 0, 1, 1, 0, 0, 1, 0, 0, 0]
    );
}

#[test]
fn collinear_slanted_triangle_fills_nothing() {
    let mut img = TGAImage::with_size(5, 5, tga_format::GRAYSCALE);
    let c = TGAColor::from_rgb(0, 0, 1);
    draw_triangle(Point2i { x: 0, y: 0 }, Point2i { x: 2, y: 2 }, Point2i { x: 4, y: 4 }, &mut img, c);
    assert!(img.data.iter().all(|b| *b == 0));
}

#[test]
fn fill_keeps_other_pixels() {
    let mut img = TGAImage::with_size(4, 4, tga_format::GRAYSCALE);
    img.set(3, 3, TGAColor::from_rgb(0, 0, 7)).unwrap();
    draw_triangle(Point2i { x: 0, y: 0 }, Point2i { x: 1, y: 0 }, Point2i { x: 0, y: 1 }, &mut img, TGAColor::from_rgb(0, 0, 1));
    assert_eq!(img.data, vec![1, 1, 0, 0, 1, 0, 0, 0, 0, 0, 0, 0, 0, 0, 0, 7]);
}

#[test]
fn fragments_clip_to_image_in_column_order() {
    // right triangle reaching past the right and top edges of a 3 x 3 image
    let frags = triangle_fragments(Point2i { x: 0, y: -2 }, Point2i { x: 4, y: -2 }, Point2i { x: 0, y: 2 }, 3, 3);
    let pixels: Vec<(i32, i32)> = frags.iter().map(|f| (f.x, f.y)).collect();
    // pixels with x + (y + 2) <= 4 inside the image
    assert_eq!(pixels, vec![(0, 0), (0, 1), (0, 2), (1, 0), (1, 1), (2, 0)]);
    for f in &frags {
        assert!(f.sz != 0);
        let (u, v) = (f.sx as f64 / f.sz as f64, f.sy as f64 / f.sz as f64);
        assert!(u >= 0.0 && v >= 0.0 && u + v <= 1.0);
    }
    let first = frags[0];
    assert_eq!((first.sx, first.sy, first.sz), (0, 8, 16));
}

#[test]
fn fragments_of_triangle_off_screen_are_empty() {
    let frags = triangle_fragments(Point2i { x: 10, y: 10 }, Point2i { x: 20, y: 10 }, Point2i { x: 10, y: 20 }, 5, 5);
    assert!(frags.is_empty());
}

#[test]
fn sweep_fill_rows_between_edges() {
    let mut img = TGAImage::with_size(5, 5, tga_format::GRAYSCALE);
    let c = TGAColor::from_rgb(0, 0, 1);
    draw_triangle_sweep(Point2i { x: 0, y: 4 }, Point2i { x: 0, y: 0 }, Point2i { x: 4, y: 0 }, &mut img, c);
    for y in 0..5 {
        for x in 0..5 {
            let expected = if x + y <= 4 { 1 } else { 0 };
            assert_eq!(img.get(x, y).unwrap().val[0], expected, "@ ({}, {})", x, y);
        }
    }
}

#[test]
fn sweep_fill_truncates_toward_the_long_edge() {
    let mut img = TGAImage::with_size(6, 4, tga_format::GRAYSCALE);
    let c = TGAColor::from_rgb(0, 0, 1);
    draw_triangle_sweep(Point2i { x: 5, y: 3 }, Point2i { x: 0, y: 0 }, Point2i { x: 2, y: 1 }, &mut img, c);
    // rows: long edge x = 5 * i / 3, other end 2 * i on the first row, then
    // 2 + 3 * (i - 1) / 2
    let rows: Vec<Vec<u8>> = (0..4).map(|y| img.data[y * 6..y * 6 + 6].to_vec()).collect();
    assert_eq!(rows[0], vec![1, 0, 0, 0, 0, 0]);
    assert_eq!(rows[1], vec![0, 1, 1, 0, 0, 0]);
    assert_eq!(rows[2], vec![0, 0, 0, 1, 0, 0]);
    assert_eq!(rows[3], vec![0, 0, 0, 0, 0, 1]);
}

#[test]
fn sweep_fill_horizontal_degenerate() {
    let mut img = TGAImage::with_size(6, 2, tga_format::GRAYSCALE);
    let c = TGAColor::from_rgb(0, 0, 1);
    draw_triangle_sweep(Point2i { x: 4, y: 1 }, Point2i { x: 1, y: 1 }, Point2i { x: 2, y: 1 }, &mut img, c);
    assert_eq!(img.data, vec![0, 0, 0, 0, 0, 0, 0, 1, 1, 1, 1, 0]);
}
