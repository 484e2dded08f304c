//! Flat filling of screen-space triangles.
use vstd::prelude::*;
use vstd::arithmetic::div_mod::lemma_fundamental_div_mod;
use crate::math::{max_int, min_int, small_components, BndBox2, Point2, Vec3};
use crate::tgaimage::{lemma_repainted_unique, ImageModel, TGAColor, TGAImage};

verus! {

/// The numerators of the barycentric weights of `(x, y)` against `v2` and
/// `v3`, and their common denominator: the solution of
/// `p = v1 + u (v2 - v1) + v (v3 - v1)` is `u = sx / sz`, `v = sy / sz`.
/// Gives `(sx, sy, sz)`.
pub open spec fn bary(v1: Point2<i32>, v2: Point2<i32>, v3: Point2<i32>, x: int, y: int) -> (
    int,
    int,
    int,
) {
    let ax = v2.x - v1.x;
    let bx = v3.x - v1.x;
    let cx = v1.x - x;
    let ay = v2.y - v1.y;
    let by = v3.y - v1.y;
    let cy = v1.y - y;
    (bx * cy - cx * by, cx * ay - ax * cy, ax * by - bx * ay)
}

/// Whether `(x, y)` lies in the closed, non-degenerate triangle: the
/// denominator is not zero and the three weights `u`, `v` and `1 - u - v`
/// are all at least zero.
pub open spec fn inside(v1: Point2<i32>, v2: Point2<i32>, v3: Point2<i32>, x: int, y: int) -> bool {
    let (sx, sy, sz) = bary(v1, v2, v3, x, y);
    sz != 0 && 0 <= sx * sz && 0 <= sy * sz && 0 <= (sz - sx - sy) * sz
}

pub open spec fn min3(a: int, b: int, c: int) -> int {
    min_int(min_int(a, b), c)
}

pub open spec fn max3(a: int, b: int, c: int) -> int {
    max_int(max_int(a, b), c)
}

/// Whether `(x, y)` lies in the bounding box of the three vertices.
pub open spec fn in_bbox(v1: Point2<i32>, v2: Point2<i32>, v3: Point2<i32>, x: int, y: int) -> bool {
    &&& min3(v1.x as int, v2.x as int, v3.x as int) <= x <= max3(
        v1.x as int,
        v2.x as int,
        v3.x as int,
    )
    &&& min3(v1.y as int, v2.y as int, v3.y as int) <= y <= max3(
        v1.y as int,
        v2.y as int,
        v3.y as int,
    )
}

/// Whether the flat fill of the triangle colors pixel `(x, y)`. Three
/// vertices on one row, or on one column, give the run of pixels between the
/// outermost two; otherwise the pixels of the bounding box that lie inside
/// the triangle.
pub open spec fn covers(v1: Point2<i32>, v2: Point2<i32>, v3: Point2<i32>, x: int, y: int) -> bool {
    if v1.y == v2.y && v2.y == v3.y {
        y == v1.y && min3(v1.x as int, v2.x as int, v3.x as int) <= x <= max3(
            v1.x as int,
            v2.x as int,
            v3.x as int,
        )
    } else if v1.x == v2.x && v2.x == v3.x {
        x == v1.x && min3(v1.y as int, v2.y as int, v3.y as int) <= y <= max3(
            v1.y as int,
            v2.y as int,
            v3.y as int,
        )
    } else {
        in_bbox(v1, v2, v3, x, y) && inside(v1, v2, v3, x, y)
    }
}

/// Whether `a` has the sign of the non-zero `s`, or is zero.
spec fn agrees(a: int, s: int) -> bool {
    a == 0 || (a > 0) == (s > 0)
}

proof fn lemma_agrees(a: int, s: int)
    requires
        s != 0,
    ensures
        agrees(a, s) == (0 <= a * s),
{
    if a > 0 && s > 0 {
        assert(0 < a * s) by (nonlinear_arith)
            requires
                a > 0,
                s > 0,
        ;
    } else if a > 0 && s < 0 {
        assert(a * s < 0) by (nonlinear_arith)
            requires
                a > 0,
                s < 0,
        ;
    } else if a < 0 && s > 0 {
        assert(a * s < 0) by (nonlinear_arith)
            requires
                a < 0,
                s > 0,
        ;
    } else if a < 0 && s < 0 {
        assert(0 < a * s) by (nonlinear_arith)
            requires
                a < 0,
                s < 0,
        ;
    } else {
        assert(a * s == 0) by (nonlinear_arith)
            requires
                a == 0,
        ;
    }
}

/// Whether pixel `p` lies inside the triangle, from exact integer barycentric
/// weights. All coordinates lie in `[0, 2^31)`.
fn is_inside(v1: Point2<i32>, v2: Point2<i32>, v3: Point2<i32>, p: Point2<i32>) -> (r: bool)
    requires
        0 <= v1.x && 0 <= v1.y && 0 <= v2.x && 0 <= v2.y && 0 <= v3.x && 0 <= v3.y,
        0 <= p.x && 0 <= p.y,
    ensures
        r == inside(v1, v2, v3, p.x as int, p.y as int),
{
    let aux1 = Vec3 {
        x: v2.x as i64 - v1.x as i64,
        y: v3.x as i64 - v1.x as i64,
        z: v1.x as i64 - p.x as i64,
    };
    let aux2 = Vec3 {
        x: v2.y as i64 - v1.y as i64,
        y: v3.y as i64 - v1.y as i64,
        z: v1.y as i64 - p.y as i64,
    };
    assert(small_components(aux1) && small_components(aux2));
    let solution = aux1.cross(aux2);
    let sx = solution.x;
    let sy = solution.y;
    let sz = solution.z;
    assert(bary(v1, v2, v3, p.x as int, p.y as int) == (sx as int, sy as int, sz as int));
    if sz == 0 {
        return false;
    }
    let sw: i128 = sz as i128 - sx as i128 - sy as i128;
    let pos = sz > 0;
    let r = (sx == 0 || (sx > 0) == pos) && (sy == 0 || (sy > 0) == pos) && (sw == 0 || (sw > 0)
        == pos);
    proof {
        lemma_agrees(sx as int, sz as int);
        lemma_agrees(sy as int, sz as int);
        lemma_agrees(sw as int, sz as int);
    }
    r
}

/// Sets pixels `(x, row)` for `x` in `xl..=xr`.
fn fill_row(row: i32, xl: i32, xr: i32, image: &mut TGAImage, color: TGAColor)
    requires
        old(image).wf(),
        old(image).data@.len() > 0,
        0 <= row < old(image).height,
        0 <= xl <= xr,
        xr < old(image).width,
    ensures
        final(image).wf(),
        final(image)@.repainted(
            old(image)@,
            |x: int, y: int| y == row && xl <= x <= xr,
            color.val@.subrange(0, old(image).bytespp as int),
        ),
{
    let ghost before = image@;
    let ghost p = color.val@.subrange(0, before.bytespp);
    let mut x = xl;
    while x <= xr
        invariant
            before == old(image)@,
            p == color.val@.subrange(0, before.bytespp),
            image.wf(),
            image.data@.len() > 0,
            image.width == before.width,
            image.height == before.height,
            image.bytespp == before.bytespp,
            0 <= row < before.height,
            xl <= x,
            x <= xr + 1,
            xr < before.width,
            0 <= xl,
            image@.repainted(before, |x2: int, y2: int| y2 == row && xl <= x2 < x, p),
        decreases xr + 1 - x,
    {
        let ghost mid = image@;
        let r = image.set(x, row, color);
        assert forall|x2: int, y2: int| #[trigger] before.in_bounds(x2, y2) implies image@.pixel(
            x2,
            y2,
        ) == if y2 == row && xl <= x2 < x + 1 {
            p
        } else {
            before.pixel(x2, y2)
        } by {
            assert(mid.in_bounds(x2, y2));
            assert(image@.pixel(x2, y2) == if x2 == x && y2 == row {
                p
            } else {
                mid.pixel(x2, y2)
            });
        }
        x = x + 1;
    }
}

/// Sets pixels `(col, y)` for `y` in `yt..=yb`.
fn fill_column(col: i32, yt: i32, yb: i32, image: &mut TGAImage, color: TGAColor)
    requires
        old(image).wf(),
        old(image).data@.len() > 0,
        0 <= col < old(image).width,
        0 <= yt <= yb,
        yb < old(image).height,
    ensures
        final(image).wf(),
        final(image)@.repainted(
            old(image)@,
            |x: int, y: int| x == col && yt <= y <= yb,
            color.val@.subrange(0, old(image).bytespp as int),
        ),
{
    let ghost before = image@;
    let ghost p = color.val@.subrange(0, before.bytespp);
    let mut y = yt;
    while y <= yb
        invariant
            before == old(image)@,
            p == color.val@.subrange(0, before.bytespp),
            image.wf(),
            image.data@.len() > 0,
            image.width == before.width,
            image.height == before.height,
            image.bytespp == before.bytespp,
            0 <= col < before.width,
            yt <= y,
            y <= yb + 1,
            yb < before.height,
            0 <= yt,
            image@.repainted(before, |x2: int, y2: int| x2 == col && yt <= y2 < y, p),
        decreases yb + 1 - y,
    {
        let ghost mid = image@;
        let r = image.set(col, y, color);
        assert forall|x2: int, y2: int| #[trigger] before.in_bounds(x2, y2) implies image@.pixel(
            x2,
            y2,
        ) == if x2 == col && yt <= y2 < y + 1 {
            p
        } else {
            before.pixel(x2, y2)
        } by {
            assert(mid.in_bounds(x2, y2));
            assert(image@.pixel(x2, y2) == if x2 == col && y2 == y {
                p
            } else {
                mid.pixel(x2, y2)
            });
        }
        y = y + 1;
    }
}

/// Fills the triangle: every pixel of its bounding box whose barycentric
/// weights are all at least zero, or, for three vertices on one row or one
/// column, the run between the outermost two.
pub fn draw_triangle_parallel(
    v1: Point2<i32>,
    v2: Point2<i32>,
    v3: Point2<i32>,
    image: &mut TGAImage,
    color: TGAColor,
)
    requires
        old(image).wf(),
        old(image).data@.len() > 0,
        old(image)@.in_bounds(v1.x as int, v1.y as int),
        old(image)@.in_bounds(v2.x as int, v2.y as int),
        old(image)@.in_bounds(v3.x as int, v3.y as int),
    ensures
        final(image).wf(),
        final(image)@.repainted(
            old(image)@,
            |x: int, y: int| covers(v1, v2, v3, x, y),
            color.val@.subrange(0, old(image).bytespp as int),
        ),
{
    if v1.y == v2.y && v2.y == v3.y {
        let xl = min_i32(v1.x, min_i32(v2.x, v3.x));
        let xr = max_i32(v1.x, max_i32(v2.x, v3.x));
        fill_row(v1.y, xl, xr, image, color);
        return;
    } else if v1.x == v2.x && v2.x == v3.x {
        let yt = min_i32(v1.y, min_i32(v2.y, v3.y));
        let yb = max_i32(v1.y, max_i32(v2.y, v3.y));
        fill_column(v1.x, yt, yb, image, color);
        return;
    }
    let mut bbox = BndBox2::new_empty();
    bbox.add_point(v1);
    bbox.add_point(v2);
    bbox.add_point(v3);
    let ghost before = image@;
    let ghost p = color.val@.subrange(0, before.bytespp);
    let x_min = bbox.min.x;
    let x_max = bbox.max.x;
    let y_min = bbox.min.y;
    let y_max = bbox.max.y;
    assert(x_min == min3(v1.x as int, v2.x as int, v3.x as int));
    assert(x_max == max3(v1.x as int, v2.x as int, v3.x as int));
    assert(y_min == min3(v1.y as int, v2.y as int, v3.y as int));
    assert(y_max == max3(v1.y as int, v2.y as int, v3.y as int));
    let mut x = x_min;
    while x <= x_max
        invariant
            before == old(image)@,
            p == color.val@.subrange(0, before.bytespp),
            image.wf(),
            image.data@.len() > 0,
            image.width == before.width,
            image.height == before.height,
            image.bytespp == before.bytespp,
            before.in_bounds(v1.x as int, v1.y as int),
            before.in_bounds(v2.x as int, v2.y as int),
            before.in_bounds(v3.x as int, v3.y as int),
            !(v1.y == v2.y && v2.y == v3.y),
            !(v1.x == v2.x && v2.x == v3.x),
            x_min == min3(v1.x as int, v2.x as int, v3.x as int),
            x_max == max3(v1.x as int, v2.x as int, v3.x as int),
            y_min == min3(v1.y as int, v2.y as int, v3.y as int),
            y_max == max3(v1.y as int, v2.y as int, v3.y as int),
            x_min <= x <= x_max + 1,
            image@.repainted(before, |x2: int, y2: int| covers(v1, v2, v3, x2, y2) && x2 < x, p),
        decreases x_max + 1 - x,
    {
        let mut y = y_min;
        while y <= y_max
            invariant
                before == old(image)@,
                p == color.val@.subrange(0, before.bytespp),
                image.wf(),
                image.data@.len() > 0,
                image.width == before.width,
                image.height == before.height,
                image.bytespp == before.bytespp,
                before.in_bounds(v1.x as int, v1.y as int),
                before.in_bounds(v2.x as int, v2.y as int),
                before.in_bounds(v3.x as int, v3.y as int),
                !(v1.y == v2.y && v2.y == v3.y),
                !(v1.x == v2.x && v2.x == v3.x),
                x_min == min3(v1.x as int, v2.x as int, v3.x as int),
                x_max == max3(v1.x as int, v2.x as int, v3.x as int),
                y_min == min3(v1.y as int, v2.y as int, v3.y as int),
                y_max == max3(v1.y as int, v2.y as int, v3.y as int),
                x_min <= x <= x_max,
                y_min <= y <= y_max + 1,
                image@.repainted(
                    before,
                    |x2: int, y2: int|
                        covers(v1, v2, v3, x2, y2) && (x2 < x || (x2 == x && y2 < y)),
                    p,
                ),
            decreases y_max + 1 - y,
        {
            let ghost mid = image@;
            let pnt = Point2 { x, y };
            if is_inside(v1, v2, v3, pnt) {
                let r = image.set(x, y, color);
                assert forall|x2: int, y2: int| #[trigger] before.in_bounds(x2, y2) implies image@.pixel(
                    x2,
                    y2,
                ) == if covers(v1, v2, v3, x2, y2) && (x2 < x || (x2 == x && y2 < y + 1)) {
                    p
                } else {
                    before.pixel(x2, y2)
                } by {
                    assert(mid.in_bounds(x2, y2));
                    assert(image@.pixel(x2, y2) == if x2 == x && y2 == y {
                        p
                    } else {
                        mid.pixel(x2, y2)
                    });
                }
            } else {
                assert forall|x2: int, y2: int| #[trigger] before.in_bounds(x2, y2) implies image@.pixel(
                    x2,
                    y2,
                ) == if covers(v1, v2, v3, x2, y2) && (x2 < x || (x2 == x && y2 < y + 1)) {
                    p
                } else {
                    before.pixel(x2, y2)
                } by {
                    assert(image@.pixel(x2, y2) == mid.pixel(x2, y2));
                }
            }
            y = y + 1;
        }
        x = x + 1;
    }
}

/// Fills the triangle with one color; see `draw_triangle_parallel`.
pub fn draw_triangle(
    v1: Point2<i32>,
    v2: Point2<i32>,
    v3: Point2<i32>,
    image: &mut TGAImage,
    color: TGAColor,
)
    requires
        old(image).wf(),
        old(image).data@.len() > 0,
        old(image)@.in_bounds(v1.x as int, v1.y as int),
        old(image)@.in_bounds(v2.x as int, v2.y as int),
        old(image)@.in_bounds(v3.x as int, v3.y as int),
    ensures
        final(image).wf(),
        final(image)@.repainted(
            old(image)@,
            |x: int, y: int| covers(v1, v2, v3, x, y),
            color.val@.subrange(0, old(image).bytespp as int),
        ),
{
    draw_triangle_parallel(v1, v2, v3, image, color);
}

fn min_i32(a: i32, b: i32) -> (r: i32)
    ensures
        r == min_int(a as int, b as int),
{
    if a <= b {
        a
    } else {
        b
    }
}

fn max_i32(a: i32, b: i32) -> (r: i32)
    ensures
        r == max_int(a as int, b as int),
{
    if a >= b {
        a
    } else {
        b
    }
}

/// Swapping the last two vertices negates every barycentric term.
proof fn lemma_bary_swap(v1: Point2<i32>, v2: Point2<i32>, v3: Point2<i32>, x: int, y: int)
    ensures
        ({
            let (sx, sy, sz) = bary(v1, v2, v3, x, y);
            bary(v1, v3, v2, x, y) == (-sy, -sx, -sz)
        }),
{
    let (ax, bx, cx) = (v2.x - v1.x, v3.x - v1.x, v1.x - x);
    let (ay, by, cy) = (v2.y - v1.y, v3.y - v1.y, v1.y - y);
    assert(ax * cy - cx * ay == -(cx * ay - ax * cy));
    assert(cx * by - bx * cy == -(bx * cy - cx * by));
    assert(bx * ay - ax * by == -(ax * by - bx * ay));
}

/// Rotating the vertices rotates the barycentric weights.
proof fn lemma_bary_rotate(v1: Point2<i32>, v2: Point2<i32>, v3: Point2<i32>, x: int, y: int)
    ensures
        ({
            let (sx, sy, sz) = bary(v1, v2, v3, x, y);
            bary(v2, v3, v1, x, y) == (sy, sz - sx - sy, sz)
        }),
{
    let (x1, y1, x2, y2, x3, y3) = (
        v1.x as int,
        v1.y as int,
        v2.x as int,
        v2.y as int,
        v3.x as int,
        v3.y as int,
    );
    // coordinates relative to the pixel
    let (a, b, c, d, e, f) = (x1 - x, y1 - y, x2 - x, y2 - y, x3 - x, y3 - y);
    let sx = (x3 - x1) * (y1 - y) - (x1 - x) * (y3 - y1);
    let sy = (x1 - x) * (y2 - y1) - (x2 - x1) * (y1 - y);
    let sz = (x2 - x1) * (y3 - y1) - (x3 - x1) * (y2 - y1);
    assert(sx == e * b - a * f) by (nonlinear_arith)
        requires
            sx == (e - a) * b - a * (f - b),
    ;
    assert(sy == a * d - c * b) by (nonlinear_arith)
        requires
            sy == a * (d - b) - (c - a) * b,
    ;
    assert(sz == c * f - c * b - a * f - e * d + e * b + a * d) by (nonlinear_arith)
        requires
            sz == (c - a) * (f - b) - (e - a) * (d - b),
    ;
    assert((x1 - x2) * (y2 - y) - (x2 - x) * (y1 - y2) == sy) by (nonlinear_arith)
        requires
            sy == a * d - c * b,
            x1 - x2 == a - c,
            y2 - y == d,
            x2 - x == c,
            y1 - y2 == b - d,
    ;
    assert((x2 - x) * (y3 - y2) - (x3 - x2) * (y2 - y) == c * f - e * d) by (nonlinear_arith)
        requires
            x2 - x == c,
            y3 - y2 == f - d,
            x3 - x2 == e - c,
            y2 - y == d,
    ;
    assert((x3 - x2) * (y1 - y2) - (x1 - x2) * (y3 - y2) == sz) by (nonlinear_arith)
        requires
            sz == c * f - c * b - a * f - e * d + e * b + a * d,
            x3 - x2 == e - c,
            y1 - y2 == b - d,
            x1 - x2 == a - c,
            y3 - y2 == f - d,
    ;
}

/// The filled pixels do not depend on the order of the vertices: swapping
/// two of them, or rotating all three, fills the same pixels.
pub proof fn lemma_triangle_order_invariant(
    v1: Point2<i32>,
    v2: Point2<i32>,
    v3: Point2<i32>,
    x: int,
    y: int,
)
    ensures
        covers(v1, v2, v3, x, y) == covers(v1, v3, v2, x, y),
        covers(v1, v2, v3, x, y) == covers(v2, v3, v1, x, y),
{
    let (sx, sy, sz) = bary(v1, v2, v3, x, y);
    lemma_bary_swap(v1, v2, v3, x, y);
    lemma_bary_rotate(v1, v2, v3, x, y);
    assert((-sy) * (-sz) == sy * sz) by (nonlinear_arith);
    assert((-sx) * (-sz) == sx * sz) by (nonlinear_arith);
    assert((-sz - (-sy) - (-sx)) * (-sz) == (sz - sx - sy) * sz) by (nonlinear_arith);
    assert((sz - sy - (sz - sx - sy)) * sz == sx * sz) by (nonlinear_arith);
}

proof fn lemma_sign_scaled(c: int, t: int)
    requires
        c > 0,
    ensures
        (0 <= c * t) == (0 <= t),
{
    if t >= 0 {
        assert(0 <= c * t) by (nonlinear_arith)
            requires
                c > 0,
                t >= 0,
        ;
    } else {
        assert(c * t < 0) by (nonlinear_arith)
            requires
                c > 0,
                t < 0,
        ;
    }
}

/// With the corners `(0, 0)`, `(n, 0)`, `(n, n)`, `(0, n)` of a square, the
/// triangle on three consecutive corners fills exactly the pixels of the
/// square on its side of the diagonal through its first and last corner:
/// `x >= y`, `x + y >= n`, `y >= x` and `x + y <= n` for the triangles that
/// start at each corner in turn. Each pair of opposite triangles thus covers
/// the square together; they share the pixels of the diagonal.
pub proof fn lemma_corner_triangles(n: i32, x: int, y: int)
    requires
        n > 0,
        0 <= x <= n,
        0 <= y <= n,
    ensures
        ({
            let c0 = Point2 { x: 0i32, y: 0i32 };
            let c1 = Point2 { x: n, y: 0i32 };
            let c2 = Point2 { x: n, y: n };
            let c3 = Point2 { x: 0i32, y: n };
            &&& covers(c0, c1, c2, x, y) == (x >= y)
            &&& covers(c1, c2, c3, x, y) == (x + y >= n)
            &&& covers(c2, c3, c0, x, y) == (y >= x)
            &&& covers(c3, c0, c1, x, y) == (x + y <= n)
        }),
{
    let c0 = Point2 { x: 0i32, y: 0i32 };
    let c1 = Point2 { x: n, y: 0i32 };
    let c2 = Point2 { x: n, y: n };
    let c3 = Point2 { x: 0i32, y: n };
    let nn = n as int;
    let cube = nn * nn * nn;
    assert(cube > 0) by (nonlinear_arith)
        requires
            nn > 0,
            cube == nn * nn * nn,
    ;
    // first corner: u = x - y, v = y, w = n - x, each times n
    let (sx, sy, sz) = bary(c0, c1, c2, x, y);
    assert(sx == nn * (x - y) && sy == nn * y && sz == nn * nn) by (nonlinear_arith)
        requires
            (sx, sy, sz) == bary(c0, c1, c2, x, y),
            c0 == (Point2 { x: 0i32, y: 0i32 }),
            c1 == (Point2 { x: n, y: 0i32 }),
            c2 == (Point2 { x: n, y: n }),
            nn == n,
    ;
    assert(sx * sz == cube * (x - y) && sy * sz == cube * y && (sz - sx - sy) * sz == cube * (nn
        - x)) by (nonlinear_arith)
        requires
            sx == nn * (x - y),
            sy == nn * y,
            sz == nn * nn,
            cube == nn * nn * nn,
    ;
    lemma_sign_scaled(cube, x - y);
    lemma_sign_scaled(cube, y);
    lemma_sign_scaled(cube, nn - x);
    // second corner
    let (sx, sy, sz) = bary(c1, c2, c3, x, y);
    assert(sx == nn * (x + y - nn) && sy == nn * (nn - x) && sz == nn * nn) by (nonlinear_arith)
        requires
            (sx, sy, sz) == bary(c1, c2, c3, x, y),
            c1 == (Point2 { x: n, y: 0i32 }),
            c2 == (Point2 { x: n, y: n }),
            c3 == (Point2 { x: 0i32, y: n }),
            nn == n,
    ;
    assert(sx * sz == cube * (x + y - nn) && sy * sz == cube * (nn - x) && (sz - sx - sy) * sz
        == cube * (nn - y)) by (nonlinear_arith)
        requires
            sx == nn * (x + y - nn),
            sy == nn * (nn - x),
            sz == nn * nn,
            cube == nn * nn * nn,
    ;
    lemma_sign_scaled(cube, x + y - nn);
    lemma_sign_scaled(cube, nn - y);
    lemma_sign_scaled(cube, nn - x);
    // third corner
    let (sx, sy, sz) = bary(c2, c3, c0, x, y);
    assert(sx == nn * (y - x) && sy == nn * (nn - y) && sz == nn * nn) by (nonlinear_arith)
        requires
            (sx, sy, sz) == bary(c2, c3, c0, x, y),
            c2 == (Point2 { x: n, y: n }),
            c3 == (Point2 { x: 0i32, y: n }),
            c0 == (Point2 { x: 0i32, y: 0i32 }),
            nn == n,
    ;
    assert(sx * sz == cube * (y - x) && sy * sz == cube * (nn - y) && (sz - sx - sy) * sz == cube
        * x) by (nonlinear_arith)
        requires
            sx == nn * (y - x),
            sy == nn * (nn - y),
            sz == nn * nn,
            cube == nn * nn * nn,
    ;
    lemma_sign_scaled(cube, y - x);
    lemma_sign_scaled(cube, nn - y);
    lemma_sign_scaled(cube, x);
    // fourth corner
    let (sx, sy, sz) = bary(c3, c0, c1, x, y);
    assert(sx == nn * (nn - x - y) && sy == nn * x && sz == nn * nn) by (nonlinear_arith)
        requires
            (sx, sy, sz) == bary(c3, c0, c1, x, y),
            c3 == (Point2 { x: 0i32, y: n }),
            c0 == (Point2 { x: 0i32, y: 0i32 }),
            c1 == (Point2 { x: n, y: 0i32 }),
            nn == n,
    ;
    assert(sx * sz == cube * (nn - x - y) && sy * sz == cube * x && (sz - sx - sy) * sz == cube
        * y) by (nonlinear_arith)
        requires
            sx == nn * (nn - x - y),
            sy == nn * x,
            sz == nn * nn,
            cube == nn * nn * nn,
    ;
    lemma_sign_scaled(cube, nn - x - y);
    lemma_sign_scaled(cube, x);
    lemma_sign_scaled(cube, y);
}

/// A pixel inside a triangle, with the exact barycentric terms of the
/// pixel: its weights against the second and third vertex are `sx / sz` and
/// `sy / sz`, and against the first `1 - (sx + sy) / sz`.
#[derive(Clone, Copy, Debug, PartialEq, Eq)]
pub struct Fragment {
    pub x: i32,
    pub y: i32,
    pub sx: i128,
    pub sy: i128,
    pub sz: i128,
}

/// Whether `a` comes strictly before `b` when pixels are taken column by
/// column, top to bottom within each column.
pub open spec fn column_major_before(a: Fragment, b: Fragment) -> bool {
    a.x < b.x || (a.x == b.x && a.y < b.y)
}

/// Whether pixel `(x, y)` lies in the bounding box of the triangle clipped to
/// a `width` by `height` image.
pub open spec fn in_clipped_bbox(
    v1: Point2<i32>,
    v2: Point2<i32>,
    v3: Point2<i32>,
    width: int,
    height: int,
    x: int,
    y: int,
) -> bool {
    &&& in_bbox(v1, v2, v3, x, y)
    &&& 0 <= x < width
    &&& 0 <= y < height
}

proof fn lemma_product_bound(a: int, b: int)
    requires
        -0x2_0000_0000 < a < 0x2_0000_0000,
        -0x2_0000_0000 < b < 0x2_0000_0000,
    ensures
        -0x4_0000_0000_0000_0000 < a * b < 0x4_0000_0000_0000_0000,
{
    assert(-0x4_0000_0000_0000_0000 < a * b < 0x4_0000_0000_0000_0000) by (nonlinear_arith)
        requires
            -0x2_0000_0000 < a < 0x2_0000_0000,
            -0x2_0000_0000 < b < 0x2_0000_0000,
    ;
}

/// The barycentric terms of pixel `(x, y)`, computed exactly.
fn bary_terms(v1: Point2<i32>, v2: Point2<i32>, v3: Point2<i32>, x: i32, y: i32) -> (r: (
    i128,
    i128,
    i128,
))
    ensures
        (r.0 as int, r.1 as int, r.2 as int) == bary(v1, v2, v3, x as int, y as int),
        -0x8_0000_0000_0000_0000 < r.0 < 0x8_0000_0000_0000_0000,
        -0x8_0000_0000_0000_0000 < r.1 < 0x8_0000_0000_0000_0000,
        -0x8_0000_0000_0000_0000 < r.2 < 0x8_0000_0000_0000_0000,
{
    let ax = v2.x as i128 - v1.x as i128;
    let bx = v3.x as i128 - v1.x as i128;
    let cx = v1.x as i128 - x as i128;
    let ay = v2.y as i128 - v1.y as i128;
    let by = v3.y as i128 - v1.y as i128;
    let cy = v1.y as i128 - y as i128;
    proof {
        lemma_product_bound(bx as int, cy as int);
        lemma_product_bound(cx as int, by as int);
        lemma_product_bound(cx as int, ay as int);
        lemma_product_bound(ax as int, cy as int);
        lemma_product_bound(ax as int, by as int);
        lemma_product_bound(bx as int, ay as int);
    }
    (bx * cy - cx * by, cx * ay - ax * cy, ax * by - bx * ay)
}

/// The pixels of a `width` by `height` image that the triangle covers, in
/// column-major order, with their barycentric terms: those of the
/// triangle's bounding box, clipped to the image, whose three barycentric
/// weights are all at least zero. The vertices may lie outside the image.
pub fn triangle_fragments(
    v1: Point2<i32>,
    v2: Point2<i32>,
    v3: Point2<i32>,
    width: i32,
    height: i32,
) -> (r: Vec<Fragment>)
    requires
        0 <= width,
        0 <= height,
    ensures
        forall|i: int|
            0 <= i < r@.len() ==> {
                let f = #[trigger] r@[i];
                &&& in_clipped_bbox(v1, v2, v3, width as int, height as int, f.x as int, f.y as int)
                &&& inside(v1, v2, v3, f.x as int, f.y as int)
                &&& (f.sx as int, f.sy as int, f.sz as int) == bary(v1, v2, v3, f.x as int, f.y as int)
            },
        forall|i: int, j: int|
            0 <= i < j < r@.len() ==> column_major_before(#[trigger] r@[i], #[trigger] r@[j]),
        forall|x: int, y: int|
            in_clipped_bbox(v1, v2, v3, width as int, height as int, x, y) && #[trigger] inside(
                v1,
                v2,
                v3,
                x,
                y,
            ) ==> exists|i: int| 0 <= i < r@.len() && r@[i].x == x && r@[i].y == y,
{
    let mut out: Vec<Fragment> = Vec::new();
    let x_lo = max_i32(min_i32(v1.x, min_i32(v2.x, v3.x)), 0);
    let x_hi = min_i32(max_i32(v1.x, max_i32(v2.x, v3.x)), width - 1);
    let y_lo = max_i32(min_i32(v1.y, min_i32(v2.y, v3.y)), 0);
    let y_hi = min_i32(max_i32(v1.y, max_i32(v2.y, v3.y)), height - 1);
    let mut x = x_lo;
    while x <= x_hi
        invariant
            x_lo == max_int(min3(v1.x as int, v2.x as int, v3.x as int), 0),
            x_hi == min_int(max3(v1.x as int, v2.x as int, v3.x as int), width - 1),
            y_lo == max_int(min3(v1.y as int, v2.y as int, v3.y as int), 0),
            y_hi == min_int(max3(v1.y as int, v2.y as int, v3.y as int), height - 1),
            x_lo <= x,
            x <= x_hi + 1 || x == x_lo,
            forall|i: int|
                0 <= i < out@.len() ==> {
                    let f = #[trigger] out@[i];
                    &&& in_clipped_bbox(v1, v2, v3, width as int, height as int, f.x as int, f.y as int)
                    &&& inside(v1, v2, v3, f.x as int, f.y as int)
                    &&& (f.sx as int, f.sy as int, f.sz as int) == bary(v1, v2, v3, f.x as int, f.y as int)
                    &&& f.x < x
                },
            forall|i: int, j: int|
                0 <= i < j < out@.len() ==> column_major_before(#[trigger] out@[i], #[trigger] out@[j]),
            forall|x2: int, y2: int|
                in_clipped_bbox(v1, v2, v3, width as int, height as int, x2, y2) && #[trigger] inside(
                    v1,
                    v2,
                    v3,
                    x2,
                    y2,
                ) && x2 < x ==> exists|i: int| 0 <= i < out@.len() && out@[i].x == x2 && out@[i].y == y2,
        decreases x_hi + 1 - x,
    {
        let mut y = y_lo;
        while y <= y_hi
            invariant
                x_lo == max_int(min3(v1.x as int, v2.x as int, v3.x as int), 0),
                x_hi == min_int(max3(v1.x as int, v2.x as int, v3.x as int), width - 1),
                y_lo == max_int(min3(v1.y as int, v2.y as int, v3.y as int), 0),
                y_hi == min_int(max3(v1.y as int, v2.y as int, v3.y as int), height - 1),
                x_lo <= x <= x_hi,
                y_lo <= y,
                y <= y_hi + 1 || y == y_lo,
                forall|i: int|
                    0 <= i < out@.len() ==> {
                        let f = #[trigger] out@[i];
                        &&& in_clipped_bbox(v1, v2, v3, width as int, height as int, f.x as int, f.y as int)
                        &&& inside(v1, v2, v3, f.x as int, f.y as int)
                        &&& (f.sx as int, f.sy as int, f.sz as int) == bary(v1, v2, v3, f.x as int, f.y as int)
                        &&& (f.x < x || (f.x == x && f.y < y))
                    },
                forall|i: int, j: int|
                    0 <= i < j < out@.len() ==> column_major_before(#[trigger] out@[i], #[trigger] out@[j]),
                forall|x2: int, y2: int|
                    in_clipped_bbox(v1, v2, v3, width as int, height as int, x2, y2) && #[trigger] inside(
                        v1,
                        v2,
                        v3,
                        x2,
                        y2,
                    ) && (x2 < x || (x2 == x && y2 < y)) ==> exists|i: int|
                        0 <= i < out@.len() && out@[i].x == x2 && out@[i].y == y2,
            decreases y_hi + 1 - y,
        {
            let (sx, sy, sz) = bary_terms(v1, v2, v3, x, y);
            let pos = sz > 0;
            let sw: i128 = sz - sx - sy;
            proof {
                if sz != 0 {
                    lemma_agrees(sx as int, sz as int);
                    lemma_agrees(sy as int, sz as int);
                    lemma_agrees(sw as int, sz as int);
                }
            }
            if sz != 0 && (sx == 0 || (sx > 0) == pos) && (sy == 0 || (sy > 0) == pos) && (sw == 0
                || (sw > 0) == pos) {
                let ghost old_out = out@;
                out.push(Fragment { x, y, sx, sy, sz });
                assert forall|x2: int, y2: int|
                    in_clipped_bbox(v1, v2, v3, width as int, height as int, x2, y2)
                        && #[trigger] inside(v1, v2, v3, x2, y2) && (x2 < x || (x2 == x && y2 < y
                        + 1)) implies exists|i: int|
                    0 <= i < out@.len() && out@[i].x == x2 && out@[i].y == y2 by {
                    if x2 == x && y2 == y {
                        assert(out@[old_out.len() as int].x == x2);
                    } else {
                        let i = choose|i: int|
                            0 <= i < old_out.len() && old_out[i].x == x2 && old_out[i].y == y2;
                        assert(out@[i] == old_out[i]);
                    }
                }
            } else {
                assert(!inside(v1, v2, v3, x as int, y as int));
            }
            y = y + 1;
        }
        x = x + 1;
    }
    out
}

/// Filling a triangle onto the same image gives the same image whatever the
/// order of its vertices: with the last two swapped, or all three rotated.
pub proof fn lemma_draw_triangle_order_irrelevant(
    before: ImageModel,
    first: ImageModel,
    second: ImageModel,
    third: ImageModel,
    v1: Point2<i32>,
    v2: Point2<i32>,
    v3: Point2<i32>,
    p: Seq<u8>,
)
    requires
        before.wf(),
        first.wf(),
        second.wf(),
        third.wf(),
        first.repainted(before, |x: int, y: int| covers(v1, v2, v3, x, y), p),
        second.repainted(before, |x: int, y: int| covers(v1, v3, v2, x, y), p),
        third.repainted(before, |x: int, y: int| covers(v2, v3, v1, x, y), p),
    ensures
        first == second,
        first == third,
{
    assert forall|x: int, y: int| #[trigger] before.in_bounds(x, y) implies covers(v1, v2, v3, x, y)
        == covers(v1, v3, v2, x, y) && covers(v1, v2, v3, x, y) == covers(v2, v3, v1, x, y) by {
        lemma_triangle_order_invariant(v1, v2, v3, x, y);
    }
    lemma_repainted_unique(
        before,
        first,
        second,
        |x: int, y: int| covers(v1, v2, v3, x, y),
        |x: int, y: int| covers(v1, v3, v2, x, y),
        p,
    );
    lemma_repainted_unique(
        before,
        first,
        third,
        |x: int, y: int| covers(v1, v2, v3, x, y),
        |x: int, y: int| covers(v2, v3, v1, x, y),
        p,
    );
}

/// `a / b` rounded toward zero, as Rust's `/` does, for `b > 0`.
pub open spec fn tdiv(a: int, b: int) -> int {
    if a >= 0 {
        a / b
    } else {
        -((-a) / b)
    }
}

/// The vertices ordered by `y`, vertices with equal `y` keeping their order.
pub open spec fn sort3(a: Point2<i32>, b: Point2<i32>, c: Point2<i32>) -> (
    Point2<i32>,
    Point2<i32>,
    Point2<i32>,
) {
    if a.y <= b.y {
        if b.y <= c.y {
            (a, b, c)
        } else if a.y <= c.y {
            (a, c, b)
        } else {
            (c, a, b)
        }
    } else {
        if a.y <= c.y {
            (b, a, c)
        } else if b.y <= c.y {
            (b, c, a)
        } else {
            (c, b, a)
        }
    }
}

/// The two ends, in either order, of row `i` (counted from the lowest vertex
/// `p1`) of the scanline fill: one on the long edge `p1`-`p3`, the other on
/// `p1`-`p2` up to the row of `p2` and on `p2`-`p3` after it, each found by
/// truncating interpolation.
pub open spec fn sweep_ends(p1: Point2<i32>, p2: Point2<i32>, p3: Point2<i32>, i: int) -> (int, int) {
    let total = p3.y - p1.y;
    let second_half = i > p2.y - p1.y || p1.y == p2.y;
    let segment = if second_half {
        p3.y - p2.y
    } else {
        p2.y - p1.y
    };
    let xl = p1.x + tdiv(i * (p3.x - p1.x), total);
    let xr = if !second_half {
        p1.x + tdiv(i * (p2.x - p1.x), segment)
    } else {
        p2.x + tdiv((i - p2.y + p1.y) * (p3.x - p2.x), segment)
    };
    (xl, xr)
}

/// Whether the scanline fill of the triangle colors pixel `(x, y)`: the
/// horizontal run between the outermost vertices when all three share a
/// row, and otherwise, in each row from the lowest vertex to the highest,
/// the pixels between the two ends of `sweep_ends`.
pub open spec fn sweep_covers(v1: Point2<i32>, v2: Point2<i32>, v3: Point2<i32>, x: int, y: int) -> bool {
    if v1.y == v2.y && v2.y == v3.y {
        y == v1.y && min3(v1.x as int, v2.x as int, v3.x as int) <= x <= max3(
            v1.x as int,
            v2.x as int,
            v3.x as int,
        )
    } else {
        let (p1, p2, p3) = sort3(v1, v2, v3);
        let i = y - p1.y;
        let (xl, xr) = sweep_ends(p1, p2, p3, i);
        0 <= i <= p3.y - p1.y && min_int(xl, xr) <= x <= max_int(xl, xr)
    }
}

/// `i * d / h` rounded toward zero lies between `0` and `d` for `0 <= i <= h`.
proof fn lemma_tdiv_between(i: int, d: int, h: int)
    requires
        0 <= i <= h,
        0 < h,
    ensures
        min_int(0, d) <= tdiv(i * d, h) <= max_int(0, d),
{
    if d >= 0 {
        let n = i * d;
        assert(0 <= n <= h * d) by (nonlinear_arith)
            requires
                0 <= i <= h,
                d >= 0,
                n == i * d,
        ;
        lemma_fundamental_div_mod(n, h);
        assert(0 <= n / h <= d) by (nonlinear_arith)
            requires
                0 <= n <= h * d,
                n == h * (n / h) + n % h,
                0 <= n % h < h,
                0 < h,
        ;
    } else {
        let n = i * (-d);
        assert(0 <= n <= h * (-d) && i * d == -n) by (nonlinear_arith)
            requires
                0 <= i <= h,
                d < 0,
                n == i * (-d),
        ;
        lemma_fundamental_div_mod(n, h);
        assert(0 <= n / h <= -d) by (nonlinear_arith)
            requires
                0 <= n <= h * (-d),
                n == h * (n / h) + n % h,
                0 <= n % h < h,
                0 < h,
        ;
    }
}

/// `a / b` rounded toward zero.
fn tdiv_exec(a: i64, b: i64) -> (r: i64)
    requires
        b > 0,
        a > i64::MIN,
    ensures
        r == tdiv(a as int, b as int),
{
    if a >= 0 {
        a / b
    } else {
        -((-a) / b)
    }
}

/// One end of a scanline: `base + i * d / h`, rounded toward zero.
fn interpolate(base: i32, d: i64, i: i64, h: i64) -> (r: i32)
    requires
        0 <= i <= h,
        0 < h < 0x8000_0000,
        -0x1_0000_0000 < d < 0x1_0000_0000,
        i32::MIN <= base + d <= i32::MAX,
    ensures
        r == base + tdiv(i * d, h as int),
{
    assert(-0x8000_0000_0000_0000 < i * d < 0x8000_0000_0000_0000) by (nonlinear_arith)
        requires
            0 <= i < 0x8000_0000,
            -0x1_0000_0000 < d < 0x1_0000_0000,
    ;
    proof {
        lemma_tdiv_between(i as int, d as int, h as int);
    }
    let q = tdiv_exec(i * d, h);
    (base as i64 + q) as i32
}

/// Fills the triangle row by row, interpolating the ends of each row along
/// its edges; see `sweep_covers`.
pub fn draw_triangle_sweep(
    v1: Point2<i32>,
    v2: Point2<i32>,
    v3: Point2<i32>,
    image: &mut TGAImage,
    color: TGAColor,
)
    requires
        old(image).wf(),
        old(image).data@.len() > 0,
        old(image)@.in_bounds(v1.x as int, v1.y as int),
        old(image)@.in_bounds(v2.x as int, v2.y as int),
        old(image)@.in_bounds(v3.x as int, v3.y as int),
    ensures
        final(image).wf(),
        final(image)@.repainted(
            old(image)@,
            |x: int, y: int| sweep_covers(v1, v2, v3, x, y),
            color.val@.subrange(0, old(image).bytespp as int),
        ),
{
    if v1.y == v2.y && v2.y == v3.y {
        let xl = min_i32(v1.x, min_i32(v2.x, v3.x));
        let xr = max_i32(v1.x, max_i32(v2.x, v3.x));
        fill_row(v1.y, xl, xr, image, color);
        return;
    }
    let (p1, p2, p3) = if v1.y <= v2.y {
        if v2.y <= v3.y {
            (v1, v2, v3)
        } else if v1.y <= v3.y {
            (v1, v3, v2)
        } else {
            (v3, v1, v2)
        }
    } else {
        if v1.y <= v3.y {
            (v2, v1, v3)
        } else if v2.y <= v3.y {
            (v2, v3, v1)
        } else {
            (v3, v2, v1)
        }
    };
    assert((p1, p2, p3) == sort3(v1, v2, v3));
    let ghost before = image@;
    let ghost p = color.val@.subrange(0, before.bytespp);
    let total: i64 = p3.y as i64 - p1.y as i64;
    let mut i: i64 = 0;
    while i <= total
        invariant
            before == old(image)@,
            p == color.val@.subrange(0, before.bytespp),
            (p1, p2, p3) == sort3(v1, v2, v3),
            !(v1.y == v2.y && v2.y == v3.y),
            total == p3.y - p1.y,
            p1.y <= p2.y <= p3.y,
            before.in_bounds(p1.x as int, p1.y as int),
            before.in_bounds(p2.x as int, p2.y as int),
            before.in_bounds(p3.x as int, p3.y as int),
            0 <= i <= total + 1,
            image.wf(),
            image.data@.len() > 0,
            image.width == before.width,
            image.height == before.height,
            image.bytespp == before.bytespp,
            image@.repainted(
                before,
                |x2: int, y2: int| sweep_covers(v1, v2, v3, x2, y2) && y2 < p1.y + i,
                p,
            ),
        decreases total + 1 - i,
    {
        let ghost mid = image@;
        let second_half = i > p2.y as i64 - p1.y as i64 || p1.y == p2.y;
        let segment: i64 = if second_half {
            p3.y as i64 - p2.y as i64
        } else {
            p2.y as i64 - p1.y as i64
        };
        let local_i: i64 = if second_half {
            i - p2.y as i64 + p1.y as i64
        } else {
            i
        };
        let xl = interpolate(p1.x, p3.x as i64 - p1.x as i64, i, total);
        let xr = if !second_half {
            interpolate(p1.x, p2.x as i64 - p1.x as i64, i, segment)
        } else {
            interpolate(p2.x, p3.x as i64 - p2.x as i64, local_i, segment)
        };
        assert(sweep_ends(p1, p2, p3, i as int) == (xl as int, xr as int));
        proof {
            lemma_tdiv_between(i as int, p3.x - p1.x, total as int);
            if !second_half {
                lemma_tdiv_between(i as int, p2.x - p1.x, segment as int);
            } else {
                lemma_tdiv_between(local_i as int, p3.x - p2.x, segment as int);
            }
        }
        let row = (p1.y as i64 + i) as i32;
        fill_row(row, min_i32(xl, xr), max_i32(xl, xr), image, color);
        assert forall|x2: int, y2: int| #[trigger] before.in_bounds(x2, y2) implies image@.pixel(
            x2,
            y2,
        ) == if sweep_covers(v1, v2, v3, x2, y2) && y2 < p1.y + i + 1 {
            p
        } else {
            before.pixel(x2, y2)
        } by {
            assert(mid.in_bounds(x2, y2));
        }
        i = i + 1;
    }
}

} // verus!
