//! Drawing straight lines into an image.
use vstd::prelude::*;
use crate::geometry::Vec3;
use crate::tga_image::{ImageModel, TGAColor, TGAImage};
use vstd::arithmetic::div_mod::lemma_fundamental_div_mod_converse;

verus! {

/// The image after `TGAImage::set(x, y, c)`: the pixel's bytes replaced by
/// the first bytes of `c` where the pixel exists, else unchanged.
pub open spec fn spec_set(m: ImageModel, x: int, y: int, c: TGAColor) -> ImageModel {
    if m.has_pixel(x, y) {
        ImageModel {
            data: m.data.subrange(0, m.offset(x, y)) + c.bgra().subrange(0, m.bytespp) + m.data.subrange(
                m.offset(x, y) + m.bytespp,
                m.data.len() as int,
            ),
            ..m
        }
    } else {
        m
    }
}

/// The row of column `x` on the segment from (x0, y0) to (x1, y1), with
/// `x0 <= x1`: the exact height there rounded half up.
pub open spec fn line_y(x0: int, y0: int, x1: int, y1: int, x: int) -> int {
    if x1 == x0 {
        y0
    } else {
        (2 * (y0 * (x1 - x0) + (y1 - y0) * (x - x0)) + (x1 - x0)) / (2 * (x1 - x0))
    }
}

/// The image after setting, column by column from `x` to `x_end`, the
/// point of each column on the segment (coordinates exchanged when `steep`).
pub open spec fn draw_span(
    m: ImageModel,
    x: int,
    x_end: int,
    x0: int,
    y0: int,
    x1: int,
    y1: int,
    steep: bool,
    c: TGAColor,
) -> ImageModel
    decreases x_end + 1 - x,
{
    if x > x_end {
        m
    } else {
        let y = line_y(x0, y0, x1, y1, x);
        let next = if steep {
            spec_set(m, y, x, c)
        } else {
            spec_set(m, x, y, c)
        };
        draw_span(next, x + 1, x_end, x0, y0, x1, y1, steep, c)
    }
}

pub open spec fn abs(v: int) -> int {
    if v < 0 {
        -v
    } else {
        v
    }
}

/// The image after drawing the segment from `p0` to `p1` (z ignored): one
/// point per column, or per row where the segment is steeper than 45
/// degrees, walking from the lower end.
pub open spec fn spec_line(m: ImageModel, p0: Vec3<i32>, p1: Vec3<i32>, c: TGAColor) -> ImageModel {
    let steep = abs(p0.x - p1.x) < abs(p0.y - p1.y);
    let (ax, ay, bx, by) = if steep {
        (p0.y as int, p0.x as int, p1.y as int, p1.x as int)
    } else {
        (p0.x as int, p0.y as int, p1.x as int, p1.y as int)
    };
    if ax > bx {
        draw_span(m, bx, ax, bx, by, ax, ay, steep, c)
    } else {
        draw_span(m, ax, bx, ax, ay, bx, by, steep, c)
    }
}

/// Sets pixel (x, y) where both coordinates fit an `i32`.
fn plot(image: &mut TGAImage, x: i64, y: i64, color: TGAColor)
    requires
        old(image).wf(),
    ensures
        final(image).wf(),
        final(image)@ == spec_set(old(image)@, x as int, y as int, color),
{
    if x < i32::MIN as i64 || x > i32::MAX as i64 || y < i32::MIN as i64 || y > i32::MAX as i64 {
        return;
    }
    let ghost before = image@;
    let _ = image.set(x as i32, y as i32, color);
    proof {
        if before.has_pixel(x as int, y as int) {
            assert(image@.data == spec_set(before, x as int, y as int, color).data);
        }
    }
}

/// Draws the segment from `p0` to `p1` (z is ignored): for each column
/// (each row where the segment is steep) the pixel nearest the exact
/// segment, rounding half up. Points outside the image are skipped.
pub fn line(p0: Vec3<i32>, p1: Vec3<i32>, image: &mut TGAImage, color: TGAColor)
    requires
        old(image).wf(),
    ensures
        final(image).wf(),
        final(image)@ == spec_line(old(image)@, p0, p1, color),
{
    let (mut x0, mut y0, mut x1, mut y1) = (p0.x as i64, p0.y as i64, p1.x as i64, p1.y as i64);
    let dxa = if x0 > x1 {
        x0 - x1
    } else {
        x1 - x0
    };
    let dya = if y0 > y1 {
        y0 - y1
    } else {
        y1 - y0
    };
    let steep = dxa < dya;
    if steep {
        let t = x0;
        x0 = y0;
        y0 = t;
        let t = x1;
        x1 = y1;
        y1 = t;
    }
    if x0 > x1 {
        let (tx, ty) = (x0, y0);
        x0 = x1;
        y0 = y1;
        x1 = tx;
        y1 = ty;
    }
    let ghost (gx0, gy0, gx1, gy1) = (x0 as int, y0 as int, x1 as int, y1 as int);
    let dx = x1 - x0;
    let dy = y1 - y0;
    // the row y and remainder r with 2 * dx * y + r == 2 * (y0 * dx + dy * (x - x0)) + dx
    let mut y: i64 = y0;
    let mut r: i64 = dx;
    let mut x: i64 = x0;
    proof {
        assert(2 * (y0 * dx + dy * (x - x0)) + dx == y0 * (2 * dx) + dx) by (nonlinear_arith)
            requires
                x == x0,
        ;
    }
    while x <= x1
        invariant
            image.wf(),
            x0 <= x <= x1 + 1,
            gx0 == x0,
            gy0 == y0,
            gx1 == x1,
            gy1 == y1,
            dx == x1 - x0,
            dy == y1 - y0,
            -dx <= dy <= dx,
            i32::MIN <= x0 <= x1 <= i32::MAX,
            i32::MIN <= y0 <= i32::MAX,
            i32::MIN <= y1 <= i32::MAX,
            0 <= r < 2 * dx || (dx == 0 && r == 0),
            x <= x1 ==> y as int * (2 * dx) + r == 2 * (y0 * dx + dy * (x - x0)) + dx,
            y0 - (x - x0) <= y <= y0 + (x - x0),
            dx == 0 ==> y == y0,
            draw_span(image@, x as int, x1 as int, gx0, gy0, gx1, gy1, steep, color) == spec_line(
                old(image)@,
                p0,
                p1,
                color,
            ),
        decreases x1 + 1 - x,
    {
        proof {
            if dx > 0 {
                lemma_fundamental_div_mod_converse(
                    2 * (y0 * dx + dy * (x - x0)) + dx,
                    2 * dx,
                    y as int,
                    r as int,
                );
            }
            assert(y == line_y(gx0, gy0, gx1, gy1, x as int));
        }
        if steep {
            plot(image, y, x, color);
        } else {
            plot(image, x, y, color);
        }
        if x == x1 {
            x = x + 1;
        } else {
            let ghost (oy, ox) = (y as int, x as int);
            r = r + 2 * dy;
            if r >= 2 * dx {
                r = r - 2 * dx;
                y = y + 1;
            } else if r < 0 {
                r = r + 2 * dx;
                y = y - 1;
            }
            x = x + 1;
            proof {
                let d = 2 * dx as int;
                assert(dy * (ox + 1 - x0) == dy * (ox - x0) + dy) by (nonlinear_arith);
                assert((oy + 1) * d == oy * d + d) by (nonlinear_arith);
                assert((oy - 1) * d == oy * d - d) by (nonlinear_arith);
            }
        }
    }
}

} // verus!
