//! Software pixel-buffer rendering on integer pixel coordinates.
//!
//! A frame is a row-major RGBA buffer, four bytes per pixel.  Lines are
//! rendered with Bresenham's algorithm; pixels outside the window are skipped.
use vstd::prelude::*;

verus! {

// ── Specification ─────────────────────────────────────────────────────────────

/// Whether the pixel `(x, y)` lies inside a `width` × `height` window.
pub open spec fn in_window(width: u32, height: u32, x: int, y: int) -> bool {
    0 <= x < width && 0 <= y < height
}

/// The index of the first byte of pixel `(x, y)`.
pub open spec fn pixel_base(width: u32, x: int, y: int) -> int {
    (y * width + x) * 4
}

/// A frame large enough for the window, with byte offsets that fit in `u32`.
pub open spec fn frame_fits(frame_len: nat, width: u32, height: u32) -> bool {
    &&& (width as int) * (height as int) * 4 <= frame_len
    &&& (width as int) * (height as int) * 4 <= 0x1_0000_0000
}

/// `frame` with pixel `(x, y)` set to `color`, or unchanged if it lies outside the window.
pub open spec fn paint_pixel(
    frame: Seq<u8>,
    width: u32,
    height: u32,
    x: int,
    y: int,
    color: Seq<u8>,
) -> Seq<u8> {
    if in_window(width, height, x, y) {
        let b = pixel_base(width, x, y);
        Seq::new(frame.len(), |i: int| if b <= i < b + 4 { color[i - b] } else { frame[i] })
    } else {
        frame
    }
}

/// `frame` with every pixel of `points` painted, in order.
pub open spec fn paint_points(
    frame: Seq<u8>,
    width: u32,
    height: u32,
    points: Seq<(int, int)>,
    color: Seq<u8>,
) -> Seq<u8>
    decreases points.len(),
{
    if points.len() == 0 {
        frame
    } else {
        let last = points.last();
        paint_pixel(
            paint_points(frame, width, height, points.drop_last(), color),
            width,
            height,
            last.0,
            last.1,
            color,
        )
    }
}

pub open spec fn abs(v: int) -> int {
    if v < 0 {
        -v
    } else {
        v
    }
}

pub open spec fn sign_toward(from: int, to: int) -> int {
    if from < to {
        1
    } else {
        -1
    }
}

/// One step of the line walk: the error term decides whether to move along x,
/// along y, or both.  The state is `(x, y, err)`.
pub open spec fn bresenham_step(
    st: (int, int, int),
    dx: int,
    dy: int,
    sx: int,
    sy: int,
) -> (int, int, int) {
    let (x, y, err) = st;
    let e2 = 2 * err;
    let (err1, x1) = if e2 > -dy {
        (err - dy, x + sx)
    } else {
        (err, x)
    };
    let (err2, y1) = if e2 < dx {
        (err1 + dx, y + sy)
    } else {
        (err1, y)
    };
    (x1, y1, err2)
}

/// The pixels visited from state `st` on, up to the end point `(x1, y1)`,
/// giving up after `fuel` pixels.
pub open spec fn bresenham_from(
    st: (int, int, int),
    x1: int,
    y1: int,
    dx: int,
    dy: int,
    sx: int,
    sy: int,
    fuel: nat,
) -> Seq<(int, int)>
    decreases fuel,
{
    if fuel == 0 {
        Seq::empty()
    } else if st.0 == x1 && st.1 == y1 {
        seq![(st.0, st.1)]
    } else {
        seq![(st.0, st.1)] + bresenham_from(
            bresenham_step(st, dx, dy, sx, sy),
            x1,
            y1,
            dx,
            dy,
            sx,
            sy,
            (fuel - 1) as nat,
        )
    }
}

/// The pixels of the line from `(x0, y0)` to `(x1, y1)`, in drawing order.
pub open spec fn line_pixels(x0: int, y0: int, x1: int, y1: int) -> Seq<(int, int)> {
    let dx = abs(x1 - x0);
    let dy = abs(y1 - y0);
    bresenham_from(
        (x0, y0, dx - dy),
        x1,
        y1,
        dx,
        dy,
        sign_toward(x0, x1),
        sign_toward(y0, y1),
        (dx + dy + 1) as nat,
    )
}

// ── Proofs about the line walk ────────────────────────────────────────────────

/// What holds of every state of the walk: the distance still to go, and the
/// error term, which is fixed by it.
pub open spec fn walk_inv(
    st: (int, int, int),
    x1: int,
    y1: int,
    dx: int,
    dy: int,
    sx: int,
    sy: int,
) -> bool {
    let rx = (x1 - st.0) * sx;
    let ry = (y1 - st.1) * sy;
    &&& 0 <= rx <= dx
    &&& 0 <= ry <= dy
    &&& st.2 == dx - dy + rx * dy - ry * dx
    &&& -2 * (dx + dy) <= st.2 <= 2 * (dx + dy)
}

proof fn lemma_step_keeps_inv(
    st: (int, int, int),
    x1: int,
    y1: int,
    dx: int,
    dy: int,
    sx: int,
    sy: int,
)
    requires
        walk_inv(st, x1, y1, dx, dy, sx, sy),
        sx == 1 || sx == -1,
        sy == 1 || sy == -1,
        !(st.0 == x1 && st.1 == y1),
    ensures
        walk_inv(bresenham_step(st, dx, dy, sx, sy), x1, y1, dx, dy, sx, sy),
        ({
            let nx = bresenham_step(st, dx, dy, sx, sy);
            (x1 - nx.0) * sx + (y1 - nx.1) * sy < (x1 - st.0) * sx + (y1 - st.1) * sy
        }),
{
    let rx = (x1 - st.0) * sx;
    let ry = (y1 - st.1) * sy;
    let err = st.2;
    let e2 = 2 * err;
    // With nothing left along x, the error term rules out an x move, and
    // likewise for y; and some move always happens.
    if rx == 0 {
        assert(ry >= 1);
        assert(ry * dx >= dx) by (nonlinear_arith)
            requires
                ry >= 1,
                dx >= 0,
        ;
        assert(rx * dy == 0) by (nonlinear_arith)
            requires
                rx == 0,
        ;
        assert(e2 <= -dy);
    }
    if ry == 0 {
        assert(rx >= 1);
        assert(rx * dy >= dy) by (nonlinear_arith)
            requires
                rx >= 1,
                dy >= 0,
        ;
        assert(ry * dx == 0) by (nonlinear_arith)
            requires
                ry == 0,
        ;
        assert(e2 >= dx);
    }
    let nx = bresenham_step(st, dx, dy, sx, sy);
    let rx2 = (x1 - nx.0) * sx;
    let ry2 = (y1 - nx.1) * sy;
    assert(sx * sx == 1);
    assert(sy * sy == 1);
    if e2 > -dy {
        assert(rx2 == rx - 1) by (nonlinear_arith)
            requires
                nx.0 == st.0 + sx,
                rx == (x1 - st.0) * sx,
                rx2 == (x1 - nx.0) * sx,
                sx * sx == 1,
        ;
    } else {
        assert(rx2 == rx);
    }
    if e2 < dx {
        assert(ry2 == ry - 1) by (nonlinear_arith)
            requires
                nx.1 == st.1 + sy,
                ry == (y1 - st.1) * sy,
                ry2 == (y1 - nx.1) * sy,
                sy * sy == 1,
        ;
    } else {
        assert(ry2 == ry);
    }
    assert(nx.2 == dx - dy + rx2 * dy - ry2 * dx) by (nonlinear_arith)
        requires
            err == dx - dy + rx * dy - ry * dx,
            e2 == 2 * err,
            e2 > -dy ==> rx2 == rx - 1,
            !(e2 > -dy) ==> rx2 == rx,
            e2 < dx ==> ry2 == ry - 1,
            !(e2 < dx) ==> ry2 == ry,
            nx.2 == (if e2 > -dy {
                err - dy
            } else {
                err
            }) + (if e2 < dx {
                dx
            } else {
                0
            }),
    ;
}

/// Whether pixel `q` is one step on from `p` toward the end point: in each
/// coordinate it stays or moves by the sign toward the end (`sx`, `sy`), and
/// it moves in at least one (so the two pixels touch).
pub open spec fn step_toward(p: (int, int), q: (int, int), sx: int, sy: int) -> bool {
    &&& (q.0 == p.0 || q.0 == p.0 + sx)
    &&& (q.1 == p.1 || q.1 == p.1 + sy)
    &&& q != p
}

proof fn lemma_walk_shape(
    st: (int, int, int),
    x1: int,
    y1: int,
    dx: int,
    dy: int,
    sx: int,
    sy: int,
    fuel: nat,
)
    requires
        walk_inv(st, x1, y1, dx, dy, sx, sy),
        sx == 1 || sx == -1,
        sy == 1 || sy == -1,
        fuel >= (x1 - st.0) * sx + (y1 - st.1) * sy + 1,
    ensures
        ({
            let pts = bresenham_from(st, x1, y1, dx, dy, sx, sy, fuel);
            &&& pts.len() > 0
            &&& pts[0] == (st.0, st.1)
            &&& pts.last() == (x1, y1)
            &&& forall|k: int| 0 <= k < pts.len() - 1 ==> step_toward(#[trigger] pts[k], pts[k + 1], sx, sy)
        }),
    decreases fuel,
{
    if !(st.0 == x1 && st.1 == y1) {
        lemma_step_keeps_inv(st, x1, y1, dx, dy, sx, sy);
        let nx = bresenham_step(st, dx, dy, sx, sy);
        lemma_walk_shape(nx, x1, y1, dx, dy, sx, sy, (fuel - 1) as nat);
        let rest = bresenham_from(nx, x1, y1, dx, dy, sx, sy, (fuel - 1) as nat);
        let pts = bresenham_from(st, x1, y1, dx, dy, sx, sy, fuel);
        assert(pts == seq![(st.0, st.1)] + rest);
        assert(step_toward((st.0, st.1), rest[0], sx, sy));
        assert forall|k: int| 0 <= k < pts.len() - 1 implies step_toward(#[trigger] pts[k], pts[k + 1], sx, sy) by {
            if k > 0 {
                assert(pts[k] == rest[k - 1]);
                assert(pts[k + 1] == rest[k]);
            }
        }
    }
}

/// The error term keeps the walk on the line's main direction: with
/// `dx > dy` every step moves along x, with `dy > dx` along y, and on a
/// diagonal the error term stays 0.
pub open spec fn steady(err: int, dx: int, dy: int) -> bool {
    &&& dx > dy ==> 2 * err > -dy
    &&& dy > dx ==> 2 * err < dx
    &&& dx == dy ==> err == 0
}

/// How much is left along the line's main direction.
pub open spec fn main_left(st: (int, int, int), x1: int, y1: int, dx: int, dy: int, sx: int, sy: int) -> int {
    if dx >= dy {
        (x1 - st.0) * sx
    } else {
        (y1 - st.1) * sy
    }
}

proof fn lemma_step_steady(
    st: (int, int, int),
    x1: int,
    y1: int,
    dx: int,
    dy: int,
    sx: int,
    sy: int,
)
    requires
        walk_inv(st, x1, y1, dx, dy, sx, sy),
        steady(st.2, dx, dy),
        sx == 1 || sx == -1,
        sy == 1 || sy == -1,
        !(st.0 == x1 && st.1 == y1),
    ensures
        steady(bresenham_step(st, dx, dy, sx, sy).2, dx, dy),
        main_left(bresenham_step(st, dx, dy, sx, sy), x1, y1, dx, dy, sx, sy) == main_left(
            st,
            x1,
            y1,
            dx,
            dy,
            sx,
            sy,
        ) - 1,
{
    lemma_step_keeps_inv(st, x1, y1, dx, dy, sx, sy);
    let nx = bresenham_step(st, dx, dy, sx, sy);
    let e2 = 2 * st.2;
    assert(sx * sx == 1);
    assert(sy * sy == 1);
    if dx == dy {
        assert(dx > 0);
    }
    if e2 > -dy {
        assert((x1 - nx.0) * sx == (x1 - st.0) * sx - 1) by (nonlinear_arith)
            requires
                nx.0 == st.0 + sx,
                sx * sx == 1,
        ;
    }
    if e2 < dx {
        assert((y1 - nx.1) * sy == (y1 - st.1) * sy - 1) by (nonlinear_arith)
            requires
                nx.1 == st.1 + sy,
                sy * sy == 1,
        ;
    }
}

proof fn lemma_walk_len(
    st: (int, int, int),
    x1: int,
    y1: int,
    dx: int,
    dy: int,
    sx: int,
    sy: int,
    fuel: nat,
)
    requires
        walk_inv(st, x1, y1, dx, dy, sx, sy),
        steady(st.2, dx, dy),
        sx == 1 || sx == -1,
        sy == 1 || sy == -1,
        fuel >= (x1 - st.0) * sx + (y1 - st.1) * sy + 1,
    ensures
        bresenham_from(st, x1, y1, dx, dy, sx, sy, fuel).len() == main_left(st, x1, y1, dx, dy, sx, sy) + 1,
    decreases fuel,
{
    if !(st.0 == x1 && st.1 == y1) {
        lemma_step_keeps_inv(st, x1, y1, dx, dy, sx, sy);
        lemma_step_steady(st, x1, y1, dx, dy, sx, sy);
        let nx = bresenham_step(st, dx, dy, sx, sy);
        lemma_walk_len(nx, x1, y1, dx, dy, sx, sy, (fuel - 1) as nat);
    } else {
        assert((x1 - st.0) * sx == 0);
        assert((y1 - st.1) * sy == 0);
    }
}

/// The error term keeps each pixel within half a pixel of the ideal line in
/// its minor coordinate.
pub open spec fn near_line(err: int, dx: int, dy: int) -> bool {
    &&& dx >= dy ==> dx - 2 * dy <= 2 * err <= 3 * dx - 2 * dy
    &&& dy > dx ==> 2 * dx - 3 * dy <= 2 * err <= 2 * dx - dy
}

pub open spec fn max_of(a: int, b: int) -> int {
    if a >= b {
        a
    } else {
        b
    }
}

/// Whether pixel `p` is within half a pixel of the ideal line to `(x1, y1)`
/// in the minor coordinate, measured from the end point.
pub open spec fn near_end(p: (int, int), x1: int, y1: int, dx: int, dy: int, sx: int, sy: int) -> bool {
    let rx = (x1 - p.0) * sx;
    let ry = (y1 - p.1) * sy;
    abs(2 * (rx * dy - ry * dx)) <= max_of(dx, dy)
}

proof fn lemma_step_near(
    st: (int, int, int),
    x1: int,
    y1: int,
    dx: int,
    dy: int,
    sx: int,
    sy: int,
)
    requires
        walk_inv(st, x1, y1, dx, dy, sx, sy),
        steady(st.2, dx, dy),
        near_line(st.2, dx, dy),
        sx == 1 || sx == -1,
        sy == 1 || sy == -1,
        !(st.0 == x1 && st.1 == y1),
    ensures
        near_line(bresenham_step(st, dx, dy, sx, sy).2, dx, dy),
{
    lemma_step_keeps_inv(st, x1, y1, dx, dy, sx, sy);
    if dx == dy {
        lemma_step_steady(st, x1, y1, dx, dy, sx, sy);
        assert(dx > 0);
    }
}

proof fn lemma_walk_near(
    st: (int, int, int),
    x1: int,
    y1: int,
    dx: int,
    dy: int,
    sx: int,
    sy: int,
    fuel: nat,
)
    requires
        walk_inv(st, x1, y1, dx, dy, sx, sy),
        steady(st.2, dx, dy),
        near_line(st.2, dx, dy),
        sx == 1 || sx == -1,
        sy == 1 || sy == -1,
    ensures
        forall|k: int|
            0 <= k < bresenham_from(st, x1, y1, dx, dy, sx, sy, fuel).len() ==> near_end(
                #[trigger] bresenham_from(st, x1, y1, dx, dy, sx, sy, fuel)[k],
                x1,
                y1,
                dx,
                dy,
                sx,
                sy,
            ),
    decreases fuel,
{
    let pts = bresenham_from(st, x1, y1, dx, dy, sx, sy, fuel);
    assert(near_end((st.0, st.1), x1, y1, dx, dy, sx, sy));
    if fuel > 0 && !(st.0 == x1 && st.1 == y1) {
        lemma_step_keeps_inv(st, x1, y1, dx, dy, sx, sy);
        lemma_step_steady(st, x1, y1, dx, dy, sx, sy);
        lemma_step_near(st, x1, y1, dx, dy, sx, sy);
        let nx = bresenham_step(st, dx, dy, sx, sy);
        lemma_walk_near(nx, x1, y1, dx, dy, sx, sy, (fuel - 1) as nat);
        let rest = bresenham_from(nx, x1, y1, dx, dy, sx, sy, (fuel - 1) as nat);
        assert forall|k: int| 0 <= k < pts.len() implies near_end(#[trigger] pts[k], x1, y1, dx, dy, sx, sy) by {
            if k > 0 {
                assert(pts[k] == rest[k - 1]);
            }
        }
    }
}

proof fn lemma_near_from_start(
    x: int,
    y: int,
    x0: int,
    y0: int,
    x1: int,
    y1: int,
    dx: int,
    dy: int,
    sx: int,
    sy: int,
)
    requires
        near_end((x, y), x1, y1, dx, dy, sx, sy),
        sx == 1 || sx == -1,
        sy == 1 || sy == -1,
        x1 - x0 == sx * dx,
        y1 - y0 == sy * dy,
    ensures
        abs(2 * ((x - x0) * (y1 - y0) - (y - y0) * (x1 - x0))) <= max_of(dx, dy),
{
    let rx = (x1 - x) * sx;
    let ry = (y1 - y) * sy;
    let v = rx * dy - ry * dx;
    let w = (x - x0) * (y1 - y0) - (y - y0) * (x1 - x0);
    assert(w == -(sx * sy) * v) by (nonlinear_arith)
        requires
            sx == 1 || sx == -1,
            sy == 1 || sy == -1,
            x1 - x0 == sx * dx,
            y1 - y0 == sy * dy,
            rx == (x1 - x) * sx,
            ry == (y1 - y) * sy,
            v == rx * dy - ry * dx,
            w == (x - x0) * (y1 - y0) - (y - y0) * (x1 - x0),
    ;
    if sx == sy {
        assert(sx * sy == 1) by (nonlinear_arith)
            requires
                sx == sy,
                sx == 1 || sx == -1,
        ;
        assert(w == -v) by (nonlinear_arith)
            requires
                w == -(sx * sy) * v,
                sx * sy == 1,
        ;
    } else {
        assert(sx * sy == -1) by (nonlinear_arith)
            requires
                sx != sy,
                sx == 1 || sx == -1,
                sy == 1 || sy == -1,
        ;
        assert(w == v) by (nonlinear_arith)
            requires
                w == -(sx * sy) * v,
                sx * sy == -1,
        ;
    }
}

/// Every pixel of a line is the pixel nearest the ideal segment in its minor
/// coordinate: its distance from the segment, measured along the minor axis,
/// is at most half a pixel.
pub proof fn law_line_pixels_nearest(x0: i32, y0: i32, x1: i32, y1: i32)
    ensures
        ({
            let pts = line_pixels(x0 as int, y0 as int, x1 as int, y1 as int);
            forall|k: int|
                0 <= k < pts.len() ==> abs(
                    2 * (((#[trigger] pts[k]).0 - x0) * (y1 - y0) - (pts[k].1 - y0) * (x1 - x0)),
                ) <= max_of(abs(x1 - x0), abs(y1 - y0))
        }),
{
    let dx = abs(x1 - x0);
    let dy = abs(y1 - y0);
    let sx = sign_toward(x0 as int, x1 as int);
    let sy = sign_toward(y0 as int, y1 as int);
    let st = (x0 as int, y0 as int, dx - dy);
    let fuel = (dx + dy + 1) as nat;
    lemma_walk_start(x0 as int, y0 as int, x1 as int, y1 as int);
    lemma_walk_near(st, x1 as int, y1 as int, dx, dy, sx, sy, fuel);
    let pts = line_pixels(x0 as int, y0 as int, x1 as int, y1 as int);
    assert forall|k: int| 0 <= k < pts.len() implies abs(
        2 * (((#[trigger] pts[k]).0 - x0) * (y1 - y0) - (pts[k].1 - y0) * (x1 - x0)),
    ) <= max_of(abs(x1 - x0), abs(y1 - y0)) by {
        lemma_near_from_start(pts[k].0, pts[k].1, x0 as int, y0 as int, x1 as int, y1 as int, dx, dy, sx, sy);
    }
}

/// A line is drawn from its first end point to its second, each pixel one
/// step on from the one before toward the end point, with one pixel more than its extent along its main
/// direction.
pub proof fn lemma_line_pixels_shape(x0: i32, y0: i32, x1: i32, y1: i32)
    ensures
        ({
            let pts = line_pixels(x0 as int, y0 as int, x1 as int, y1 as int);
            &&& pts.len() > 0
            &&& pts[0] == (x0 as int, y0 as int)
            &&& pts.last() == (x1 as int, y1 as int)
            &&& forall|k: int|
                0 <= k < pts.len() - 1 ==> step_toward(
                    #[trigger] pts[k],
                    pts[k + 1],
                    sign_toward(x0 as int, x1 as int),
                    sign_toward(y0 as int, y1 as int),
                )
            &&& pts.len() == 1 + if abs(x1 - x0) >= abs(y1 - y0) {
                abs(x1 - x0)
            } else {
                abs(y1 - y0)
            }
        }),
{
    let dx = abs(x1 - x0);
    let dy = abs(y1 - y0);
    let sx = sign_toward(x0 as int, x1 as int);
    let sy = sign_toward(y0 as int, y1 as int);
    lemma_walk_start(x0 as int, y0 as int, x1 as int, y1 as int);
    lemma_walk_shape((x0 as int, y0 as int, dx - dy), x1 as int, y1 as int, dx, dy, sx, sy, (dx + dy + 1) as nat);
    lemma_walk_len((x0 as int, y0 as int, dx - dy), x1 as int, y1 as int, dx, dy, sx, sy, (dx + dy + 1) as nat);
}

/// Whether byte `i` belongs to an in-window pixel of `points`.
pub open spec fn covered(width: u32, height: u32, points: Seq<(int, int)>, i: int) -> bool {
    exists|k: int|
        0 <= k < points.len() && in_window(width, height, points[k].0, points[k].1) && pixel_base(
            width,
            #[trigger] points[k].0,
            points[k].1,
        ) <= i < pixel_base(width, points[k].0, points[k].1) + 4
}

/// Painting pixels sets each in-window pixel of the list to the color and
/// leaves every other byte as it was.
pub proof fn lemma_paint_points_effect(
    frame: Seq<u8>,
    width: u32,
    height: u32,
    points: Seq<(int, int)>,
    color: Seq<u8>,
)
    requires
        frame_fits(frame.len(), width, height),
        color.len() == 4,
    ensures
        ({
            let out = paint_points(frame, width, height, points, color);
            &&& out.len() == frame.len()
            &&& forall|k: int, j: int|
                #![trigger points[k], color[j]]
                0 <= k < points.len() && in_window(width, height, points[k].0, points[k].1) && 0
                    <= j < 4 ==> out[pixel_base(width, points[k].0, points[k].1) + j] == color[j]
            &&& forall|i: int|
                0 <= i < frame.len() && !covered(width, height, points, i) ==> #[trigger] out[i]
                    == frame[i]
        }),
    decreases points.len(),
{
    if points.len() > 0 {
        let prev = points.drop_last();
        lemma_paint_points_effect(frame, width, height, prev, color);
        let mid = paint_points(frame, width, height, prev, color);
        let last = points.last();
        let out = paint_points(frame, width, height, points, color);
        if in_window(width, height, last.0, last.1) {
            lemma_pixel_in_frame(width, height, last.0, last.1);
        }
        assert forall|k: int, j: int|
            #![trigger points[k], color[j]]
            0 <= k < points.len() && in_window(width, height, points[k].0, points[k].1) && 0 <= j
                < 4 implies out[pixel_base(width, points[k].0, points[k].1) + j] == color[j] by {
            lemma_pixel_in_frame(width, height, points[k].0, points[k].1);
            if k < points.len() - 1 {
                assert(points[k] == prev[k]);
            }
        }
        assert forall|i: int|
            0 <= i < frame.len() && !covered(width, height, points, i) implies #[trigger] out[i]
            == frame[i] by {
            if covered(width, height, prev, i) {
                let k = choose|k: int|
                    0 <= k < prev.len() && in_window(width, height, prev[k].0, prev[k].1)
                        && pixel_base(width, #[trigger] prev[k].0, prev[k].1) <= i
                        < pixel_base(width, prev[k].0, prev[k].1) + 4;
                assert(points[k] == prev[k]);
            }
            if in_window(width, height, last.0, last.1) {
                assert(points[points.len() - 1] == last);
            }
        }
    }
}

/// Drawing a line gives both of its end points, where they lie in the window,
/// the line's color, and changes no byte outside the line's pixels.
pub proof fn law_line_drawing(
    frame: Seq<u8>,
    width: u32,
    height: u32,
    x0: i32,
    y0: i32,
    x1: i32,
    y1: i32,
    color: Seq<u8>,
)
    requires
        frame_fits(frame.len(), width, height),
        color.len() == 4,
    ensures
        ({
            let pts = line_pixels(x0 as int, y0 as int, x1 as int, y1 as int);
            let out = paint_points(frame, width, height, pts, color);
            &&& out.len() == frame.len()
            &&& in_window(width, height, x0 as int, y0 as int) ==> forall|j: int|
                0 <= j < 4 ==> out[pixel_base(width, x0 as int, y0 as int) + j] == #[trigger] color[j]
            &&& in_window(width, height, x1 as int, y1 as int) ==> forall|j: int|
                0 <= j < 4 ==> out[pixel_base(width, x1 as int, y1 as int) + j] == #[trigger] color[j]
            &&& forall|i: int|
                0 <= i < frame.len() && !covered(width, height, pts, i) ==> #[trigger] out[i]
                    == frame[i]
        }),
{
    let pts = line_pixels(x0 as int, y0 as int, x1 as int, y1 as int);
    lemma_line_pixels_shape(x0, y0, x1, y1);
    lemma_paint_points_effect(frame, width, height, pts, color);
    let out = paint_points(frame, width, height, pts, color);
    if in_window(width, height, x0 as int, y0 as int) {
        assert forall|j: int| 0 <= j < 4 implies out[pixel_base(width, x0 as int, y0 as int) + j]
            == #[trigger] color[j] by {
            assert(pts[0] == (x0 as int, y0 as int));
        }
    }
    if in_window(width, height, x1 as int, y1 as int) {
        assert forall|j: int| 0 <= j < 4 implies out[pixel_base(width, x1 as int, y1 as int) + j]
            == #[trigger] color[j] by {
            assert(pts[pts.len() - 1] == (x1 as int, y1 as int));
        }
    }
}

// ── Implementation ────────────────────────────────────────────────────────────

/// `frame` with every complete pixel set to `color`; bytes after the last
/// complete pixel are left as they were.
pub open spec fn cleared(frame: Seq<u8>, color: Seq<u8>) -> Seq<u8> {
    Seq::new(
        frame.len(),
        |i: int| if i < (frame.len() / 4) * 4 { color[i % 4] } else { frame[i] },
    )
}

/// Fill every pixel in `frame` with `color`.
pub fn clear(frame: &mut [u8], color: [u8; 4])
    ensures
        final(frame)@ == cleared(old(frame)@, color@),
        final(frame)@.len() == old(frame)@.len(),
        forall|i: int|
            0 <= i < (old(frame)@.len() / 4) * 4 ==> #[trigger] final(frame)@[i] == color@[i % 4],
        forall|i: int|
            (old(frame)@.len() / 4) * 4 <= i < old(frame)@.len() ==> #[trigger] final(frame)@[i]
                == old(frame)@[i],
{
    let n = (frame.len() / 4) * 4;
    let mut i: usize = 0;
    while i < n
        invariant
            n == (old(frame)@.len() / 4) * 4,
            n <= old(frame)@.len(),
            i <= n,
            frame@.len() == old(frame)@.len(),
            forall|k: int| 0 <= k < i ==> frame@[k] == color@[k % 4],
            forall|k: int| i <= k < frame@.len() ==> frame@[k] == old(frame)@[k],
        decreases n - i,
    {
        frame[i] = color[i % 4];
        i += 1;
    }
    assert(frame@ =~= cleared(old(frame)@, color@));
}

proof fn lemma_pixel_in_frame(width: u32, height: u32, x: int, y: int)
    requires
        in_window(width, height, x, y),
    ensures
        0 <= pixel_base(width, x, y),
        pixel_base(width, x, y) + 4 <= (width as int) * (height as int) * 4,
{
    assert(0 <= y * width + x) by (nonlinear_arith)
        requires
            0 <= x,
            0 <= y,
            0 <= width,
    ;
    assert(y * width + x + 1 <= (width as int) * (height as int)) by (nonlinear_arith)
        requires
            0 <= x < width,
            0 <= y < height,
    ;
}

/// Set pixel `(x, y)` to `color` if it lies inside the window.
pub fn set_pixel(frame: &mut [u8], width: u32, height: u32, x: i32, y: i32, color: [u8; 4])
    requires
        frame_fits(old(frame)@.len(), width, height),
    ensures
        final(frame)@ == paint_pixel(old(frame)@, width, height, x as int, y as int, color@),
        final(frame)@.len() == old(frame)@.len(),
        0 <= x < width && 0 <= y < height ==> forall|j: int|
            0 <= j < 4 ==> #[trigger] final(frame)@[4 * (y * width + x) + j] == color@[j],
        forall|i: int|
            0 <= i < old(frame)@.len() && !(0 <= x < width && 0 <= y < height && 4 * (y * width
                + x) <= i < 4 * (y * width + x) + 4) ==> #[trigger] final(frame)@[i] == old(
                frame,
            )@[i],
{
    if x >= 0 && (x as i64) < (width as i64) && y >= 0 && (y as i64) < (height as i64) {
        proof {
            lemma_pixel_in_frame(width, height, x as int, y as int);
        }
        let base = ((y as u32 * width + x as u32) * 4) as usize;
        frame[base] = color[0];
        frame[base + 1] = color[1];
        frame[base + 2] = color[2];
        frame[base + 3] = color[3];
        assert(frame@ =~= paint_pixel(old(frame)@, width, height, x as int, y as int, color@));
    }
}

proof fn lemma_walk_start(x0: int, y0: int, x1: int, y1: int)
    ensures
        walk_inv(
            (x0, y0, abs(x1 - x0) - abs(y1 - y0)),
            x1,
            y1,
            abs(x1 - x0),
            abs(y1 - y0),
            sign_toward(x0, x1),
            sign_toward(y0, y1),
        ),
{
    let dx = abs(x1 - x0);
    let dy = abs(y1 - y0);
    let sx = sign_toward(x0, x1);
    let sy = sign_toward(y0, y1);
    assert((x1 - x0) * sx == dx) by (nonlinear_arith)
        requires
            dx == abs(x1 - x0),
            sx == sign_toward(x0, x1),
    ;
    assert((y1 - y0) * sy == dy) by (nonlinear_arith)
        requires
            dy == abs(y1 - y0),
            sy == sign_toward(y0, y1),
    ;
    assert(dx - dy + dx * dy - dy * dx == dx - dy) by (nonlinear_arith);
}

/// Draw the line from `(x0, y0)` to `(x1, y1)` with Bresenham's algorithm,
/// skipping pixels outside the window.
///
/// The differences and the error term are kept in `i64`, so every pair of
/// `i32` end points is drawn, wherever the line lies.
pub fn bresenham(
    frame: &mut [u8],
    width: u32,
    height: u32,
    x0: i32,
    y0: i32,
    x1: i32,
    y1: i32,
    color: [u8; 4],
)
    requires
        frame_fits(old(frame)@.len(), width, height),
    ensures
        final(frame)@ == paint_points(
            old(frame)@,
            width,
            height,
            line_pixels(x0 as int, y0 as int, x1 as int, y1 as int),
            color@,
        ),
{
    let dx: i64 = if x1 >= x0 {
        x1 as i64 - x0 as i64
    } else {
        x0 as i64 - x1 as i64
    };
    let dy: i64 = if y1 >= y0 {
        y1 as i64 - y0 as i64
    } else {
        y0 as i64 - y1 as i64
    };
    let sx: i32 = if x0 < x1 {
        1i32
    } else {
        -1i32
    };
    let sy: i32 = if y0 < y1 {
        1i32
    } else {
        -1i32
    };
    let mut err: i64 = dx - dy;
    let mut x: i32 = x0;
    let mut y: i32 = y0;

    let ghost all = line_pixels(x0 as int, y0 as int, x1 as int, y1 as int);
    let ghost mut drawn: Seq<(int, int)> = Seq::empty();
    let ghost mut fuel: nat = (dx + dy + 1) as nat;
    proof {
        lemma_walk_start(x0 as int, y0 as int, x1 as int, y1 as int);
    }

    loop
        invariant_except_break
            frame_fits(old(frame)@.len(), width, height),
            dx == abs(x1 - x0),
            dy == abs(y1 - y0),
            sx == sign_toward(x0 as int, x1 as int),
            sy == sign_toward(y0 as int, y1 as int),
            walk_inv((x as int, y as int, err as int), x1 as int, y1 as int, dx as int, dy as int, sx as int, sy as int),
            fuel >= (x1 - x) * sx + (y1 - y) * sy + 1,
            drawn + bresenham_from(
                (x as int, y as int, err as int),
                x1 as int,
                y1 as int,
                dx as int,
                dy as int,
                sx as int,
                sy as int,
                fuel,
            ) == all,
            frame@ == paint_points(old(frame)@, width, height, drawn, color@),
            frame@.len() == old(frame)@.len(),
        ensures
            frame@ == paint_points(old(frame)@, width, height, all, color@),
        decreases (x1 - x) * sx + (y1 - y) * sy,
    {
        let ghost before = drawn;
        let ghost st = (x as int, y as int, err as int);
        set_pixel(frame, width, height, x, y, color);
        proof {
            drawn = drawn.push((x as int, y as int));
            assert(drawn.drop_last() =~= before);
        }
        if x == x1 && y == y1 {
            proof {
                assert(drawn =~= all);
            }
            break;
        }
        proof {
            lemma_step_keeps_inv(st, x1 as int, y1 as int, dx as int, dy as int, sx as int, sy as int);
            assert(before + bresenham_from(st, x1 as int, y1 as int, dx as int, dy as int, sx as int, sy as int, fuel)
                =~= drawn + bresenham_from(
                bresenham_step(st, dx as int, dy as int, sx as int, sy as int),
                x1 as int,
                y1 as int,
                dx as int,
                dy as int,
                sx as int,
                sy as int,
                (fuel - 1) as nat,
            ));
            fuel = (fuel - 1) as nat;
        }
        let e2 = 2 * err;
        if e2 > -dy {
            err -= dy;
            x += sx;
        }
        if e2 < dx {
            err += dx;
            y += sy;
        }
    }
}

} // verus!
