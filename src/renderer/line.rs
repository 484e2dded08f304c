//! Segments drawn with an error accumulator, as Bresenham's algorithm does.
use vstd::prelude::*;
use crate::tgaimage::{lemma_repainted_unique, ImageModel, TGAColor, TGAImage};

verus! {

pub open spec fn abs(v: int) -> int {
    if v < 0 {
        -v
    } else {
        v
    }
}

/// The segment in the frame where it is drawn: transposed when it is steep
/// (`|dy| > |dx|`), then ordered so that the first coordinate grows. Gives
/// `(a0, b0, a1, b1, steep)`.
pub open spec fn normalized(x0: int, y0: int, x1: int, y1: int) -> (int, int, int, int, bool) {
    let steep = abs(x1 - x0) < abs(y1 - y0);
    let (a0, b0, a1, b1) = if steep {
        (y0, x0, y1, x1)
    } else {
        (x0, y0, x1, y1)
    };
    if a1 < a0 {
        (a1, b1, a0, b0, steep)
    } else {
        (a0, b0, a1, b1, steep)
    }
}

/// Whether `(a, b)` is drawn for the ordered segment `(a0, b0)-(a1, b1)`:
/// `a` lies between the ends, and `b` is `b0` moved toward `b1` by
/// `(a - a0) * |b1 - b0| / (a1 - a0)` rounded to the nearest integer, halves
/// rounded down.
pub open spec fn on_ordered_segment(a0: int, b0: int, a1: int, b1: int, a: int, b: int) -> bool {
    let da = a1 - a0;
    let adb = abs(b1 - b0);
    let k = a - a0;
    let m = if b1 - b0 > 0 {
        b - b0
    } else {
        b0 - b
    };
    if da == 0 {
        a == a0 && b == b0
    } else {
        0 <= k <= da && 2 * k * adb - da <= 2 * da * m && 2 * da * m < 2 * k * adb + da
    }
}

/// Whether pixel `(x, y)` belongs to the segment from `(x0, y0)` to `(x1, y1)`.
pub open spec fn on_line(x0: int, y0: int, x1: int, y1: int, x: int, y: int) -> bool {
    let (a0, b0, a1, b1, steep) = normalized(x0, y0, x1, y1);
    if steep {
        on_ordered_segment(a0, b0, a1, b1, y, x)
    } else {
        on_ordered_segment(a0, b0, a1, b1, x, y)
    }
}

/// The segment is the same set of pixels whichever end comes first.
pub proof fn lemma_line_symmetric(x0: int, y0: int, x1: int, y1: int)
    ensures
        forall|x: int, y: int|
            #[trigger] on_line(x0, y0, x1, y1, x, y) == on_line(x1, y1, x0, y0, x, y),
{
    let steep = abs(x1 - x0) < abs(y1 - y0);
    assert(steep == (abs(x0 - x1) < abs(y0 - y1)));
    assert(normalized(x0, y0, x1, y1) == normalized(x1, y1, x0, y0) || (x0 == x1 && y0 == y1));
}

/// Of the rows `m` with `2k|db| - da <= 2 da m < 2k|db| + da` there is exactly
/// one, and it lies between `0` and `|db|` when `0 <= k <= da` and `|db| <= da`.
proof fn lemma_row_unique(k: int, adb: int, da: int, m: int, m2: int)
    requires
        0 < da,
        2 * k * adb - da <= 2 * da * m < 2 * k * adb + da,
        2 * k * adb - da <= 2 * da * m2 < 2 * k * adb + da,
    ensures
        m == m2,
{
    assert(m == m2) by (nonlinear_arith)
        requires
            0 < da,
            2 * k * adb - da <= 2 * da * m < 2 * k * adb + da,
            2 * k * adb - da <= 2 * da * m2 < 2 * k * adb + da,
    ;
}

proof fn lemma_row_in_range(k: int, adb: int, da: int, m: int)
    requires
        0 < da,
        0 <= adb <= da,
        0 <= k <= da,
        2 * k * adb - da <= 2 * da * m < 2 * k * adb + da,
    ensures
        0 <= m <= adb,
{
    assert(0 <= m <= adb) by (nonlinear_arith)
        requires
            0 < da,
            0 <= adb <= da,
            0 <= k <= da,
            2 * k * adb - da <= 2 * da * m < 2 * k * adb + da,
    ;
}

/// Draws the segment from `(x0, y0)` to `(x1, y1)` with an error accumulator:
/// steep segments are stepped along `y`, and the minor coordinate moves by one
/// whenever the accumulated error passes half a pixel.
fn line_faster(
    x0: i32,
    y0: i32,
    x1: i32,
    y1: i32,
    image: &mut TGAImage,
    color: TGAColor,
)
    requires
        old(image).wf(),
        old(image).data@.len() > 0,
        old(image)@.in_bounds(x0 as int, y0 as int),
        old(image)@.in_bounds(x1 as int, y1 as int),
    ensures
        final(image).wf(),
        final(image)@.repainted(
            old(image)@,
            |x: int, y: int| on_line(x0 as int, y0 as int, x1 as int, y1 as int, x, y),
            color.val@.subrange(0, old(image).bytespp as int),
        ),
{
    let ghost before = image@;
    let ghost p = color.val@.subrange(0, before.bytespp);
    let ghost nz = normalized(x0 as int, y0 as int, x1 as int, y1 as int);
    let dx0: i32 = if x1 >= x0 { x1 - x0 } else { x0 - x1 };
    let dy0: i32 = if y1 >= y0 { y1 - y0 } else { y0 - y1 };
    let steep = dx0 < dy0;
    let (mut a0, mut b0, mut a1, mut b1) = if steep {
        (y0, x0, y1, x1)
    } else {
        (x0, y0, x1, y1)
    };
    if a1 < a0 {
        let (ta, tb) = (a0, b0);
        a0 = a1;
        b0 = b1;
        a1 = ta;
        b1 = tb;
    }
    assert(nz == (a0 as int, b0 as int, a1 as int, b1 as int, steep));
    let da: i64 = a1 as i64 - a0 as i64;
    let db: i64 = b1 as i64 - b0 as i64;
    let incy: i32 = if db > 0 { 1 } else { -1 };
    let adb: i64 = if db >= 0 { db } else { -db };
    let dacc: i64 = adb * 2;
    let mut acc: i64 = 0;
    let mut b: i32 = b0;
    let mut a: i32 = a0;
    assert(2 * (a - a0) * adb - 2 * da * 0 == 0) by (nonlinear_arith)
        requires
            a == a0,
    ;
    while a <= a1
        invariant
            before == old(image)@,
            p == color.val@.subrange(0, before.bytespp),
            nz == normalized(x0 as int, y0 as int, x1 as int, y1 as int),
            image.wf(),
            image.data@.len() > 0,
            image.width == before.width,
            image.height == before.height,
            image.bytespp == before.bytespp,
            nz == (a0 as int, b0 as int, a1 as int, b1 as int, steep),
            steep ==> 0 <= a0 <= a1 < before.height && 0 <= b0 < before.width && 0 <= b1
                < before.width,
            !steep ==> 0 <= a0 <= a1 < before.width && 0 <= b0 < before.height && 0 <= b1
                < before.height,
            da == a1 - a0,
            db == b1 - b0,
            adb == abs(db as int),
            adb <= da,
            dacc == 2 * adb,
            incy == (if db > 0 { 1int } else { -1int }),
            a0 <= a <= a1 + 1,
            da > 0 ==> -da < acc <= da,
            ({
                let k = a - a0;
                let m = if db > 0 {
                    b - b0
                } else {
                    b0 - b
                };
                &&& acc == 2 * k * adb - 2 * da * m
                &&& a <= a1 ==> (da == 0 ==> b == b0) && 0 <= m <= adb
            }),
            image@.repainted(
                before,
                |x: int, y: int|
                    on_line(x0 as int, y0 as int, x1 as int, y1 as int, x, y) && (if steep {
                        y
                    } else {
                        x
                    }) < a,
                p,
            ),
        decreases a1 + 1 - a,
    {
        let ghost mid = image@;
        let ghost k = a - a0;
        let ghost m = if db > 0 {
            b - b0
        } else {
            b0 - b
        };
        let ghost (px, py) = if steep {
            (b as int, a as int)
        } else {
            (a as int, b as int)
        };
        assert(mid.in_bounds(px, py));
        let r = if steep {
            image.set(b, a, color)
        } else {
            image.set(a, b, color)
        };
        proof {
            assert(r is Ok);

            if da > 0 {
                assert(2 * k * adb - da <= 2 * da * m < 2 * k * adb + da);
            }
            assert(on_ordered_segment(a0 as int, b0 as int, a1 as int, b1 as int, a as int, b as int));
            assert forall|x: int, y: int| #[trigger] before.in_bounds(x, y) implies image@.pixel(
                x,
                y,
            ) == if on_line(x0 as int, y0 as int, x1 as int, y1 as int, x, y) && (if steep {
                y
            } else {
                x
            }) < a + 1 {
                p
            } else {
                before.pixel(x, y)
            } by {
                let u = if steep {
                    y
                } else {
                    x
                };
                let v = if steep {
                    x
                } else {
                    y
                };
                assert(mid.in_bounds(x, y));
                assert(on_line(x0 as int, y0 as int, x1 as int, y1 as int, x, y)
                    == on_ordered_segment(a0 as int, b0 as int, a1 as int, b1 as int, u, v));
                assert(image@.pixel(x, y) == if x == px && y == py {
                    p
                } else {
                    mid.pixel(x, y)
                });
                if u == a && on_line(x0 as int, y0 as int, x1 as int, y1 as int, x, y) {
                    let m2 = if db > 0 {
                        v - b0
                    } else {
                        b0 - v
                    };
                    if da > 0 {
                        lemma_row_unique(k, adb as int, da as int, m, m2);
                    }
                    assert(v == b);
                }
            }
        }
        acc = acc + dacc;
        if acc > da {
            b = b + incy;
            acc = acc - da * 2;
        }
        proof {
            assert(2 * (k + 1) * adb == 2 * k * adb + 2 * adb) by (nonlinear_arith);
            assert(2 * da * (m + 1) == 2 * da * m + 2 * da) by (nonlinear_arith);
            let m3 = if db > 0 {
                b - b0
            } else {
                b0 - b
            };
            if a + 1 <= a1 {
                lemma_row_in_range(k + 1, adb as int, da as int, m3);
            }
        }
        a = a + 1;
    }
}

/// Draws every pixel of the 8-connected digital segment between the two
/// endpoints, both included; the same pixels whichever endpoint comes first.
pub fn draw_line(x0: i32, y0: i32, x1: i32, y1: i32, image: &mut TGAImage, color: TGAColor)
    requires
        old(image).wf(),
        old(image).data@.len() > 0,
        old(image)@.in_bounds(x0 as int, y0 as int),
        old(image)@.in_bounds(x1 as int, y1 as int),
    ensures
        final(image).wf(),
        final(image)@.repainted(
            old(image)@,
            |x: int, y: int| on_line(x0 as int, y0 as int, x1 as int, y1 as int, x, y),
            color.val@.subrange(0, old(image).bytespp as int),
        ),
{
    line_faster(x0, y0, x1, y1, image, color);
}

/// Drawing a segment from either end onto the same image gives the same image.
pub proof fn lemma_draw_line_order_irrelevant(
    before: ImageModel,
    first: ImageModel,
    second: ImageModel,
    x0: int,
    y0: int,
    x1: int,
    y1: int,
    p: Seq<u8>,
)
    requires
        before.wf(),
        first.wf(),
        second.wf(),
        first.repainted(before, |x: int, y: int| on_line(x0, y0, x1, y1, x, y), p),
        second.repainted(before, |x: int, y: int| on_line(x1, y1, x0, y0, x, y), p),
    ensures
        first == second,
{
    lemma_line_symmetric(x0, y0, x1, y1);
    lemma_repainted_unique(
        before,
        first,
        second,
        |x: int, y: int| on_line(x0, y0, x1, y1, x, y),
        |x: int, y: int| on_line(x1, y1, x0, y0, x, y),
        p,
    );
}

} // verus!
