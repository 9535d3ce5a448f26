//! Software rendering of pendulum frames into a row-major `u32` pixel buffer.
//!
//! Lines are rasterised with an integer error-driven walk (Bresenham style).
//! The walk is described in offset space: `(a, b)` counts how many steps the
//! walk has taken along the x and y axis, and `err` is its error term.
use vstd::prelude::*;
use vstd::arithmetic::div_mod::lemma_fundamental_div_mod_converse;

verus! {

/// Colour of the rod from the pivot to the first bob.
pub const ROD1_COLOR: u32 = 0x0033bb55;

/// Colour of the rod from the first bob to the second bob.
pub const ROD2_COLOR: u32 = 0x00bb3333;

/// Colour of the pixel that marks the second bob.
pub const BOB_COLOR: u32 = 0x00ffffff;

/// Colour the frame is cleared to before pendulums are drawn.
pub const BACKGROUND_COLOR: u32 = 0x111111;

/// Configuration of the render export.
#[derive(Clone, Copy)]
pub struct RenderExportConfig {
    /// number of pendulums to render from the selection
    pub n: usize,
}

impl Default for RenderExportConfig {
    fn default() -> (config: Self)
        ensures
            config.n == 10,
    {
        Self { n: 10 }
    }
}

// ---------------------------------------------------------------------------
// Pixels and painting
// ---------------------------------------------------------------------------

/// `p` lies inside a frame of `width` x `height` pixels.
pub open spec fn in_frame(width: int, height: int, p: (int, int)) -> bool {
    0 <= p.0 < width && 0 <= p.1 < height
}

/// Position of pixel `p` in a row-major buffer `width` pixels wide.
pub open spec fn pixel_index(width: int, p: (int, int)) -> int {
    p.1 * width + p.0
}

/// Writing pixel `p` into a buffer of length `len` stays inside the buffer.
pub open spec fn pixel_fits(len: int, width: int, height: int, p: (int, int)) -> bool {
    in_frame(width, height, p) ==> pixel_index(width, p) < len
}

/// Every pixel of `pts` that is inside the frame lies inside a buffer of length `len`.
pub open spec fn points_fit(len: int, width: int, height: int, pts: Seq<(int, int)>) -> bool {
    forall|i: int| 0 <= i < pts.len() ==> pixel_fits(len, width, height, #[trigger] pts[i])
}

/// The buffer after writing `color` at `p`; pixels outside the frame are dropped.
pub open spec fn put_pixel(buf: Seq<u32>, width: int, height: int, p: (int, int), color: u32) -> Seq<u32> {
    if in_frame(width, height, p) {
        buf.update(pixel_index(width, p), color)
    } else {
        buf
    }
}

/// The buffer after writing `color` at each of `pts`, in order.
pub open spec fn paint(buf: Seq<u32>, width: int, height: int, pts: Seq<(int, int)>, color: u32) -> Seq<u32>
    decreases pts.len(),
{
    if pts.len() == 0 {
        buf
    } else {
        put_pixel(paint(buf, width, height, pts.drop_last(), color), width, height, pts.last(), color)
    }
}

// ---------------------------------------------------------------------------
// The line walk
// ---------------------------------------------------------------------------

/// Absolute difference of two integers.
pub open spec fn dist(p: int, q: int) -> int {
    if p <= q { q - p } else { p - q }
}

/// The walk advances along x when the doubled error exceeds `-dy`.
pub open spec fn steps_x(err: int, dy: int) -> bool {
    2 * err > -dy
}

/// The walk advances along y when the doubled error is below `dx`.
pub open spec fn steps_y(err: int, dx: int) -> bool {
    2 * err < dx
}

/// The error term after one step of the walk.
pub open spec fn next_err(err: int, dx: int, dy: int) -> int {
    err - (if steps_x(err, dy) { dy } else { 0 }) + (if steps_y(err, dx) { dx } else { 0 })
}

/// Offsets visited by the walk from state `(a, b, err)` towards `(dx, dy)`,
/// stopping when `(dx, dy)` is reached (or `fuel` runs out).
pub open spec fn walk(a: int, b: int, err: int, dx: int, dy: int, fuel: nat) -> Seq<(int, int)>
    decreases fuel,
{
    if (a == dx && b == dy) || fuel == 0 {
        seq![(a, b)]
    } else {
        seq![(a, b)] + walk(
            a + (if steps_x(err, dy) { 1int } else { 0int }),
            b + (if steps_y(err, dx) { 1int } else { 0int }),
            next_err(err, dx, dy),
            dx,
            dy,
            (fuel - 1) as nat,
        )
    }
}

/// Offsets of the pixels of the line over distances `dx`, `dy`.
pub open spec fn line_offsets(dx: int, dy: int) -> Seq<(int, int)> {
    walk(0, 0, dx - dy, dx, dy, (dx + dy) as nat)
}

/// Moves `from` by `k` steps towards `to` (backwards when `to` is not greater).
pub open spec fn toward(from: int, to: int, k: int) -> int {
    if from < to { from + k } else { from - k }
}

/// Pixels of the line from `(x0, y0)` to `(x1, y1)`, in drawing order.
pub open spec fn line_points(x0: int, y0: int, x1: int, y1: int) -> Seq<(int, int)> {
    line_offsets(dist(x0, x1), dist(y0, y1)).map_values(
        |o: (int, int)| (toward(x0, x1, o.0), toward(y0, y1, o.1)),
    )
}

/// The state of the walk is consistent: it has not overshot, its error term
/// matches the steps taken, and it keeps the bounds that rule out overflow.
pub open spec fn walk_inv(a: int, b: int, err: int, dx: int, dy: int) -> bool {
    &&& 0 <= a <= dx
    &&& 0 <= b <= dy
    &&& err == (b + 1) * dx - (a + 1) * dy
    &&& -3 * dy <= 2 * err <= 3 * dx
    &&& (dx >= dy && dx > 0) ==> (2 * err > -dy && (dx == dy ==> err == 0))
    &&& (dy >= dx && dy > 0) ==> (2 * err < dx && (dx == dy ==> err == 0))
}

proof fn lemma_walk_start(dx: int, dy: int)
    requires
        dx >= 0,
        dy >= 0,
    ensures
        walk_inv(0, 0, dx - dy, dx, dy),
{
    assert((0 + 1) * dx - (0 + 1) * dy == dx - dy) by (nonlinear_arith);
}

/// One step of the walk keeps the invariant, never overshoots, makes progress,
/// and always advances along the major axis.
proof fn lemma_walk_step(a: int, b: int, err: int, dx: int, dy: int)
    requires
        walk_inv(a, b, err, dx, dy),
        !(a == dx && b == dy),
    ensures
        ({
            let a2 = a + (if steps_x(err, dy) { 1int } else { 0int });
            let b2 = b + (if steps_y(err, dx) { 1int } else { 0int });
            &&& walk_inv(a2, b2, next_err(err, dx, dy), dx, dy)
            &&& a2 + b2 > a + b
            &&& dx >= dy ==> a2 == a + 1
            &&& dy >= dx ==> b2 == b + 1
        }),
{
    let sx = steps_x(err, dy);
    let sy = steps_y(err, dx);
    let a2 = a + (if sx { 1int } else { 0int });
    let b2 = b + (if sy { 1int } else { 0int });
    if a == dx {
        // b < dy: the error is at most -dy, so only y advances
        assert((b + 1) * dx <= dy * dx) by (nonlinear_arith)
            requires
                b + 1 <= dy,
                dx >= 0,
        ;
        assert((dx + 1) * dy == dx * dy + dy) by (nonlinear_arith);
        assert(dy * dx == dx * dy) by (nonlinear_arith);
    }
    if b == dy {
        // a < dx: the error is at least dx, so only x advances
        assert((a + 1) * dy <= dx * dy) by (nonlinear_arith)
            requires
                a + 1 <= dx,
                dy >= 0,
        ;
        assert((dy + 1) * dx == dy * dx + dx) by (nonlinear_arith);
        assert(dy * dx == dx * dy) by (nonlinear_arith);
    }
    assert((b2 + 1) * dx - (a2 + 1) * dy == (b + 1) * dx - (a + 1) * dy - (if sx { dy } else { 0 }) + (
    if sy { dx } else { 0 })) by (nonlinear_arith)
        requires
            a2 == a + (if sx { 1int } else { 0int }),
            b2 == b + (if sy { 1int } else { 0int }),
    ;
}

/// Facts about the walk from a consistent state with enough fuel: where it
/// starts and ends, how long it is, and that consecutive offsets are
/// neighbours that move forward on each axis by at most one.
proof fn lemma_walk(a: int, b: int, err: int, dx: int, dy: int, fuel: nat)
    requires
        walk_inv(a, b, err, dx, dy),
        fuel >= (dx - a) + (dy - b),
    ensures
        walk(a, b, err, dx, dy, fuel).len() >= 1,
        walk(a, b, err, dx, dy, fuel)[0] == (a, b),
        walk(a, b, err, dx, dy, fuel).last() == (dx, dy),
        walk(a, b, err, dx, dy, fuel).len() == (if dx >= dy { dx - a } else { dy - b }) + 1,
        forall|i: int|
            0 <= i < walk(a, b, err, dx, dy, fuel).len() ==> {
                let p = #[trigger] walk(a, b, err, dx, dy, fuel)[i];
                a <= p.0 <= dx && b <= p.1 <= dy
            },
        forall|i: int|
            0 <= i < walk(a, b, err, dx, dy, fuel).len() - 1 ==> {
                let p = #[trigger] walk(a, b, err, dx, dy, fuel)[i];
                let q = walk(a, b, err, dx, dy, fuel)[i + 1];
                &&& 0 <= q.0 - p.0 <= 1
                &&& 0 <= q.1 - p.1 <= 1
                &&& p != q
            },
    decreases fuel,
{
    let w = walk(a, b, err, dx, dy, fuel);
    if a == dx && b == dy {
        assert(w == seq![(a, b)]);
    } else {
        lemma_walk_step(a, b, err, dx, dy);
        let a2 = a + (if steps_x(err, dy) { 1int } else { 0int });
        let b2 = b + (if steps_y(err, dx) { 1int } else { 0int });
        let err2 = next_err(err, dx, dy);
        let f2 = (fuel - 1) as nat;
        lemma_walk(a2, b2, err2, dx, dy, f2);
        let rest = walk(a2, b2, err2, dx, dy, f2);
        assert(w == seq![(a, b)] + rest);
        assert forall|i: int| 0 <= i < w.len() implies {
            let p = #[trigger] w[i];
            a <= p.0 <= dx && b <= p.1 <= dy
        } by {
            if i > 0 {
                assert(w[i] == rest[i - 1]);
            }
        }
        assert forall|i: int| 0 <= i < w.len() - 1 implies {
            let p = #[trigger] w[i];
            let q = w[i + 1];
            &&& 0 <= q.0 - p.0 <= 1
            &&& 0 <= q.1 - p.1 <= 1
            &&& p != q
        } by {
            assert(w[i + 1] == rest[i]);
            if i > 0 {
                assert(w[i] == rest[i - 1]);
            }
        }
    }
}

// ---------------------------------------------------------------------------
// Laws of lines
// ---------------------------------------------------------------------------

/// A line starts at its first endpoint, ends at its second endpoint, has one
/// pixel per step along its longer axis (`max(|dx|, |dy|) + 1` pixels), and
/// each pixel is an 8-neighbour of the previous one, one step closer to the end.
pub proof fn lemma_line_shape(x0: int, y0: int, x1: int, y1: int)
    ensures
        line_points(x0, y0, x1, y1).len() == (if dist(x0, x1) >= dist(y0, y1) {
            dist(x0, x1)
        } else {
            dist(y0, y1)
        }) + 1,
        line_points(x0, y0, x1, y1)[0] == (x0, y0),
        line_points(x0, y0, x1, y1).last() == (x1, y1),
        forall|i: int|
            0 <= i < line_points(x0, y0, x1, y1).len() - 1 ==> {
                let p = #[trigger] line_points(x0, y0, x1, y1)[i];
                let q = line_points(x0, y0, x1, y1)[i + 1];
                &&& dist(p.0, q.0) <= 1
                &&& dist(p.1, q.1) <= 1
                &&& p != q
                &&& dist(q.0, x1) <= dist(p.0, x1)
                &&& dist(q.1, y1) <= dist(p.1, y1)
            },
{
    let dx = dist(x0, x1);
    let dy = dist(y0, y1);
    lemma_walk_start(dx, dy);
    lemma_walk(0, 0, dx - dy, dx, dy, (dx + dy) as nat);
    let w = line_offsets(dx, dy);
    let l = line_points(x0, y0, x1, y1);
    assert forall|i: int| 0 <= i < l.len() - 1 implies {
        let p = #[trigger] l[i];
        let q = l[i + 1];
        &&& dist(p.0, q.0) <= 1
        &&& dist(p.1, q.1) <= 1
        &&& p != q
        &&& dist(q.0, x1) <= dist(p.0, x1)
        &&& dist(q.1, y1) <= dist(p.1, y1)
    } by {
        assert(l[i] == (toward(x0, x1, w[i].0), toward(y0, y1, w[i].1)));
        assert(l[i + 1] == (toward(x0, x1, w[i + 1].0), toward(y0, y1, w[i + 1].1)));
        assert(0 <= w[i].0 <= dx && 0 <= w[i].1 <= dy);
        assert(0 <= w[i + 1].0 <= dx && 0 <= w[i + 1].1 <= dy);
    }
    assert(l[0] == (toward(x0, x1, w[0].0), toward(y0, y1, w[0].1)));
    assert(l.last() == l[l.len() - 1]);
    assert(w.last() == w[w.len() - 1]);
}

/// The pixels of `pts` that are inside the frame all hold `color` after
/// painting them, and every other pixel keeps its old value.
pub proof fn lemma_paint_effect(buf: Seq<u32>, width: int, height: int, pts: Seq<(int, int)>, color: u32)
    requires
        width >= 0,
        points_fit(buf.len() as int, width, height, pts),
    ensures
        paint(buf, width, height, pts, color).len() == buf.len(),
        forall|i: int|
            0 <= i < pts.len() && in_frame(width, height, #[trigger] pts[i]) ==> paint(
                buf,
                width,
                height,
                pts,
                color,
            )[pixel_index(width, pts[i])] == color,
        forall|k: int|
            0 <= k < buf.len() && !(exists|i: int|
                0 <= i < pts.len() && in_frame(width, height, #[trigger] pts[i]) && pixel_index(
                    width,
                    pts[i],
                ) == k) ==> #[trigger] paint(buf, width, height, pts, color)[k] == buf[k],
    decreases pts.len(),
{
    if pts.len() > 0 {
        let init = pts.drop_last();
        assert(points_fit(buf.len() as int, width, height, init)) by {
            assert forall|i: int| 0 <= i < init.len() implies pixel_fits(
                buf.len() as int,
                width,
                height,
                #[trigger] init[i],
            ) by {
                assert(init[i] == pts[i]);
            }
        }
        lemma_paint_effect(buf, width, height, init, color);
        let last = pts.last();
        assert(pts[pts.len() - 1] == last);
        assert(pixel_fits(buf.len() as int, width, height, pts[pts.len() - 1]));
        assert forall|i: int|
            0 <= i < pts.len() && in_frame(width, height, #[trigger] pts[i]) implies paint(
            buf,
            width,
            height,
            pts,
            color,
        )[pixel_index(width, pts[i])] == color by {
            if i < pts.len() - 1 {
                assert(pts[i] == init[i]);
                assert(0 <= pixel_index(width, pts[i])) by (nonlinear_arith)
                    requires
                        0 <= pts[i].1,
                        0 <= pts[i].0,
                        width >= 0,
                ;
            }
        }
        assert forall|k: int|
            0 <= k < buf.len() && !(exists|i: int|
                0 <= i < pts.len() && in_frame(width, height, #[trigger] pts[i]) && pixel_index(
                    width,
                    pts[i],
                ) == k) implies #[trigger] paint(buf, width, height, pts, color)[k] == buf[k] by {
            if exists|i: int|
                0 <= i < init.len() && in_frame(width, height, #[trigger] init[i]) && pixel_index(
                    width,
                    init[i],
                ) == k {
                let i = choose|i: int|
                    0 <= i < init.len() && in_frame(width, height, #[trigger] init[i])
                        && pixel_index(width, init[i]) == k;
                assert(pts[i] == init[i]);
            }
            if in_frame(width, height, last) {
                assert(pixel_index(width, pts[pts.len() - 1]) != k);
            }
        }
    }
}

/// After `draw_line`, every pixel of the line that lies inside the frame
/// holds the line's colour, and every pixel off the line keeps its value.
pub proof fn lemma_line_drawn(buf: Seq<u32>, width: int, height: int, x0: int, y0: int, x1: int, y1: int, color: u32)
    requires
        width >= 0,
        points_fit(buf.len() as int, width, height, line_points(x0, y0, x1, y1)),
    ensures
        ({
            let pts = line_points(x0, y0, x1, y1);
            let after = paint(buf, width, height, pts, color);
            &&& after.len() == buf.len()
            &&& forall|i: int|
                0 <= i < pts.len() && in_frame(width, height, #[trigger] pts[i])
                    ==> after[pixel_index(width, pts[i])] == color
            &&& in_frame(width, height, (x0, y0)) ==> after[pixel_index(width, (x0, y0))] == color
            &&& in_frame(width, height, (x1, y1)) ==> after[pixel_index(width, (x1, y1))] == color
            &&& forall|k: int|
                0 <= k < buf.len() && !(exists|i: int|
                    0 <= i < pts.len() && in_frame(width, height, #[trigger] pts[i])
                        && pixel_index(width, pts[i]) == k) ==> #[trigger] after[k] == buf[k]
        }),
{
    let pts = line_points(x0, y0, x1, y1);
    lemma_line_shape(x0, y0, x1, y1);
    lemma_paint_effect(buf, width, height, pts, color);
    assert(pts[0] == (x0, y0));
    assert(pts[pts.len() - 1] == (x1, y1));
}

// ---------------------------------------------------------------------------
// Drawing
// ---------------------------------------------------------------------------

/// Writes `color` at pixel `(x, y)` of a row-major buffer `width` pixels wide,
/// when the pixel lies inside the `width` x `height` frame.
pub fn draw_pixel(buffer: &mut [u32], width: usize, height: usize, x: i32, y: i32, color: u32)
    requires
        pixel_fits(old(buffer)@.len() as int, width as int, height as int, (x as int, y as int)),
    ensures
        final(buffer)@ == put_pixel(old(buffer)@, width as int, height as int, (x as int, y as int), color),
{
    if x >= 0 && (x as usize) < width && y >= 0 && (y as usize) < height {
        let xu = x as usize;
        let yu = y as usize;
        // the buffer's length bounds the index below the largest usize
        let len = buffer.len();
        assert(yu * width == y * width);
        assert(yu * width + xu < len);
        buffer[yu * width + xu] = color;
    }
}

/// Draws the line from `(x0, y0)` to `(x1, y1)` in `color`, clipping the
/// pixels that fall outside the `width` x `height` frame.
pub fn draw_line(
    buffer: &mut [u32],
    width: usize,
    height: usize,
    x0: i32,
    y0: i32,
    x1: i32,
    y1: i32,
    color: u32,
)
    requires
        -0x2aaa_aaaa <= x1 - x0 <= 0x2aaa_aaaa,
        -0x2aaa_aaaa <= y1 - y0 <= 0x2aaa_aaaa,
        points_fit(
            old(buffer)@.len() as int,
            width as int,
            height as int,
            line_points(x0 as int, y0 as int, x1 as int, y1 as int),
        ),
    ensures
        final(buffer)@ == paint(
            old(buffer)@,
            width as int,
            height as int,
            line_points(x0 as int, y0 as int, x1 as int, y1 as int),
            color,
        ),
{
    let ghost line = line_points(x0 as int, y0 as int, x1 as int, y1 as int);
    let ghost start = buffer@;
    let dx = if x0 <= x1 { x1 - x0 } else { x0 - x1 };
    let dy = if y0 <= y1 { y1 - y0 } else { y0 - y1 };
    let sx: i32 = if x0 < x1 { 1 } else { -1 };
    let sy: i32 = if y0 < y1 { 1 } else { -1 };
    let mut err = dx - dy;
    let mut x = x0;
    let mut y = y0;

    let ghost gdx = dx as int;
    let ghost gdy = dy as int;
    let ghost mut a: int = 0;
    let ghost mut b: int = 0;
    let ghost mut fuel: nat = (gdx + gdy) as nat;
    let ghost mut done: Seq<(int, int)> = Seq::empty();
    let ghost offsets = line_offsets(gdx, gdy);
    proof {
        lemma_walk_start(gdx, gdy);
        lemma_walk(0, 0, gdx - gdy, gdx, gdy, fuel);
        assert(line.len() == offsets.len());
    }

    loop
        invariant_except_break
            gdx == dx,
            gdy == dy,
            gdx == dist(x0 as int, x1 as int),
            gdy == dist(y0 as int, y1 as int),
            0 <= gdx <= 0x2aaa_aaaa,
            0 <= gdy <= 0x2aaa_aaaa,
            sx == (if x0 < x1 { 1int } else { -1int }),
            sy == (if y0 < y1 { 1int } else { -1int }),
            walk_inv(a, b, err as int, gdx, gdy),
            x == toward(x0 as int, x1 as int, a),
            y == toward(y0 as int, y1 as int, b),
            fuel >= (gdx - a) + (gdy - b),
            offsets == line_offsets(gdx, gdy),
            line == line_points(x0 as int, y0 as int, x1 as int, y1 as int),
            line == offsets.map_values(
                |o: (int, int)| (toward(x0 as int, x1 as int, o.0), toward(y0 as int, y1 as int, o.1)),
            ),
            done.len() <= offsets.len(),
            offsets.skip(done.len() as int) == walk(a, b, err as int, gdx, gdy, fuel),
            done == line.take(done.len() as int),
            points_fit(start.len() as int, width as int, height as int, line),
            buffer@ == paint(start, width as int, height as int, done, color),
        ensures
            buffer@ == paint(start, width as int, height as int, line, color),
        decreases (gdx - a) + (gdy - b),
    {
        let ghost w = walk(a, b, err as int, gdx, gdy, fuel);
        let ghost n = done.len() as int;
        proof {
            lemma_walk(a, b, err as int, gdx, gdy, fuel);
            assert(offsets.skip(done.len() as int)[0] == w[0]);
            assert(offsets[done.len() as int] == w[0]);
            assert(line[done.len() as int] == (x as int, y as int));
            assert(pixel_fits(start.len() as int, width as int, height as int, line[done.len() as int]));
            assert(buffer@.len() == start.len()) by {
                lemma_paint_effect(start, width as int, height as int, done, color);
            }
        }
        draw_pixel(buffer, width, height, x, y, color);
        proof {
            let p = (x as int, y as int);
            let done2 = done.push(p);
            assert(done2.drop_last() =~= done);
            assert(done2 =~= line.take(done2.len() as int));
            done = done2;
        }
        if x == x1 && y == y1 {
            proof {
                assert(a == gdx && b == gdy);
                assert(w =~= seq![(a, b)]);
                assert(offsets.skip(n).len() == 1);
                assert(done.len() == offsets.len());
                assert(done =~= line);
            }
            break;
        }
        proof {
            assert(!(a == gdx && b == gdy));
            lemma_walk_step(a, b, err as int, gdx, gdy);
        }
        let e2 = 2 * err;
        let ghost a2 = a + (if steps_x(err as int, gdy) { 1int } else { 0int });
        let ghost b2 = b + (if steps_y(err as int, gdx) { 1int } else { 0int });
        let ghost err2 = next_err(err as int, gdx, gdy);
        if e2 > -dy {
            err -= dy;
            x += sx;
        }
        if e2 < dx {
            err += dx;
            y += sy;
        }
        proof {
            let f2 = (fuel - 1) as nat;
            assert(fuel >= 1);
            let rest = walk(a2, b2, err2, gdx, gdy, f2);
            assert(w == seq![(a, b)] + rest);
            assert(offsets.skip(n) == seq![(a, b)] + rest);
            assert(offsets.skip(n + 1) =~= rest) by {
                assert forall|i: int| 0 <= i < rest.len() implies offsets.skip(n + 1)[i] == rest[i] by {
                    assert(offsets.skip(n)[i + 1] == rest[i]);
                }
            }
            a = a2;
            b = b2;
            fuel = f2;
        }
    }
}

/// Fills every pixel of the buffer with `color`.
pub fn clear_frame(buffer: &mut [u32], color: u32)
    ensures
        final(buffer)@.len() == old(buffer)@.len(),
        forall|k: int| 0 <= k < final(buffer)@.len() ==> #[trigger] final(buffer)@[k] == color,
{
    let len = buffer.len();
    let mut k: usize = 0;
    while k < len
        invariant
            len == buffer@.len(),
            len == old(buffer)@.len(),
            k <= len,
            forall|j: int| 0 <= j < k ==> #[trigger] buffer@[j] == color,
        decreases len - k,
    {
        buffer[k] = color;
        k += 1;
    }
}

// ---------------------------------------------------------------------------
// Frames
// ---------------------------------------------------------------------------

/// The distance between consecutive sampled pendulums of a frame: pendulums
/// are taken one by one when `n` covers the whole frame, else evenly spaced.
pub open spec fn sample_stride(n: int, total: int) -> int {
    if n >= total {
        1
    } else {
        total / n
    }
}

/// Index of the `i`-th of `n` pendulums sampled from a frame of `total`,
/// clamped to the last pendulum of the frame.
pub open spec fn sample_index(i: int, n: int, total: int) -> int {
    let s = i * sample_stride(n, total);
    if s <= total - 1 {
        s
    } else {
        total - 1
    }
}

proof fn lemma_sample_no_overflow(i: int, n: int, total: int)
    requires
        0 <= i < n,
        0 < total,
        n < total,
    ensures
        0 <= i * (total / n) < total,
{
    assert(0 <= i * (total / n) <= (n - 1) * (total / n)) by (nonlinear_arith)
        requires
            0 <= i < n,
            0 < total,
            0 < n,
    ;
    assert((n - 1) * (total / n) < total) by (nonlinear_arith)
        requires
            0 < n < total,
    ;
}

/// Indices of the `n` pendulums drawn from a frame of `total_len` pendulums.
pub fn sample_indices(n: usize, total_len: usize) -> (indices: Vec<usize>)
    requires
        total_len > 0,
        n > 0,
    ensures
        indices@.len() == n,
        forall|i: int| 0 <= i < n ==> #[trigger] indices@[i] == sample_index(i, n as int, total_len as int),
{
    let step = if n >= total_len { 1 } else { total_len / n };
    let mut indices: Vec<usize> = Vec::new();
    let mut i: usize = 0;
    while i < n
        invariant
            0 < n,
            0 < total_len,
            step == sample_stride(n as int, total_len as int),
            i <= n,
            indices@.len() == i,
            forall|j: int| 0 <= j < i ==> #[trigger] indices@[j] == sample_index(j, n as int, total_len as int),
        decreases n - i,
    {
        proof {
            if n < total_len {
                lemma_sample_no_overflow(i as int, n as int, total_len as int);
            }
        }
        let s = i * step;
        let idx = if s <= total_len - 1 { s } else { total_len - 1 };
        indices.push(idx);
        i += 1;
    }
    indices
}

/// Every sampled index lies inside the frame, the indices never go back, and
/// they are pairwise distinct whenever the frame has at least `n` pendulums;
/// when it has fewer, every pendulum of the frame is drawn.
pub proof fn lemma_samples(n: int, total: int)
    requires
        n > 0,
        total > 0,
    ensures
        forall|i: int| 0 <= i < n ==> 0 <= #[trigger] sample_index(i, n, total) < total,
        forall|i: int, j: int|
            0 <= i <= j < n ==> #[trigger] sample_index(i, n, total) <= #[trigger] sample_index(j, n, total),
        n <= total ==> forall|i: int, j: int|
            0 <= i < j < n ==> #[trigger] sample_index(i, n, total) < #[trigger] sample_index(j, n, total),
        n >= total ==> forall|i: int| 0 <= i < n ==> #[trigger] sample_index(i, n, total) == (if i < total {
            i
        } else {
            total - 1
        }),
{
    let s = sample_stride(n, total);
    assert(s >= 1) by {
        if n < total {
            assert(total / n >= 1) by (nonlinear_arith)
                requires
                    0 < n < total,
            ;
        }
    }
    assert forall|i: int| 0 <= i < n implies 0 <= #[trigger] sample_index(i, n, total) < total by {
        assert(i * s >= 0) by (nonlinear_arith)
            requires
                i >= 0,
                s >= 1,
        ;
    }
    assert forall|i: int, j: int| 0 <= i <= j < n implies #[trigger] sample_index(i, n, total)
        <= #[trigger] sample_index(j, n, total) by {
        assert(i * s <= j * s) by (nonlinear_arith)
            requires
                0 <= i <= j,
                s >= 1,
        ;
    }
    if n <= total {
        assert forall|i: int, j: int| 0 <= i < j < n implies #[trigger] sample_index(i, n, total)
            < #[trigger] sample_index(j, n, total) by {
            assert(i * s < j * s) by (nonlinear_arith)
                requires
                    0 <= i < j,
                    s >= 1,
            ;
            if n < total {
                lemma_sample_no_overflow(j, n, total);
            }
        }
    }
}

/// When the frame holds more pendulums than are drawn, the `i`-th sample is
/// `i * (total / n)`: consecutive samples are `total / n` apart, starting at
/// the first pendulum.
pub proof fn lemma_sample_spacing(n: int, total: int)
    requires
        0 < n < total,
    ensures
        forall|i: int| 0 <= i < n ==> #[trigger] sample_index(i, n, total) == i * (total / n),
        forall|i: int|
            0 <= i < n - 1 ==> #[trigger] sample_index(i + 1, n, total) - sample_index(i, n, total)
                == total / n,
{
    assert forall|i: int| 0 <= i < n implies #[trigger] sample_index(i, n, total) == i * (total
        / n) by {
        lemma_sample_no_overflow(i, n, total);
    }
    assert forall|i: int| 0 <= i < n - 1 implies #[trigger] sample_index(i + 1, n, total)
        - sample_index(i, n, total) == total / n by {
        lemma_sample_no_overflow(i, n, total);
        lemma_sample_no_overflow(i + 1, n, total);
        assert((i + 1) * (total / n) == i * (total / n) + total / n) by (nonlinear_arith);
    }
}

/// A point in pixel coordinates, as a spec pair of integers.
pub open spec fn pt(p: (i32, i32)) -> (int, int) {
    (p.0 as int, p.1 as int)
}

/// The line from `p` to `q` is short enough for `draw_line`'s error term.
pub open spec fn drawable(p: (i32, i32), q: (i32, i32)) -> bool {
    &&& -0x2aaa_aaaa <= q.0 - p.0 <= 0x2aaa_aaaa
    &&& -0x2aaa_aaaa <= q.1 - p.1 <= 0x2aaa_aaaa
}

/// A pendulum with its pivot, joint and bob at the given pixels can be drawn
/// into a buffer of length `len`.
pub open spec fn pendulum_fits(
    len: int,
    width: int,
    height: int,
    pivot: (i32, i32),
    joint: (i32, i32),
    bob: (i32, i32),
) -> bool {
    &&& drawable(pivot, joint)
    &&& drawable(joint, bob)
    &&& points_fit(len, width, height, line_points(pt(pivot).0, pt(pivot).1, pt(joint).0, pt(joint).1))
    &&& points_fit(len, width, height, line_points(pt(joint).0, pt(joint).1, pt(bob).0, pt(bob).1))
    &&& pixel_fits(len, width, height, pt(bob))
}

/// The buffer after drawing one pendulum: the upper rod, the lower rod, then the bob.
pub open spec fn pendulum_painted(
    buf: Seq<u32>,
    width: int,
    height: int,
    pivot: (i32, i32),
    joint: (i32, i32),
    bob: (i32, i32),
) -> Seq<u32> {
    let upper = paint(
        buf,
        width,
        height,
        line_points(pt(pivot).0, pt(pivot).1, pt(joint).0, pt(joint).1),
        ROD1_COLOR,
    );
    let lower = paint(
        upper,
        width,
        height,
        line_points(pt(joint).0, pt(joint).1, pt(bob).0, pt(bob).1),
        ROD2_COLOR,
    );
    put_pixel(lower, width, height, pt(bob), BOB_COLOR)
}

/// A frame of `len` pixels: the background, then each pendulum in order.
pub open spec fn frame_painted(
    len: nat,
    width: int,
    height: int,
    pivot: (i32, i32),
    pendulums: Seq<((i32, i32), (i32, i32))>,
) -> Seq<u32>
    decreases pendulums.len(),
{
    if pendulums.len() == 0 {
        Seq::new(len, |k: int| BACKGROUND_COLOR)
    } else {
        pendulum_painted(
            frame_painted(len, width, height, pivot, pendulums.drop_last()),
            width,
            height,
            pivot,
            pendulums.last().0,
            pendulums.last().1,
        )
    }
}

proof fn lemma_frame_len(
    len: nat,
    width: int,
    height: int,
    pivot: (i32, i32),
    pendulums: Seq<((i32, i32), (i32, i32))>,
)
    requires
        width >= 0,
        forall|k: int|
            0 <= k < pendulums.len() ==> pendulum_fits(
                len as int,
                width,
                height,
                pivot,
                (#[trigger] pendulums[k]).0,
                pendulums[k].1,
            ),
    ensures
        frame_painted(len, width, height, pivot, pendulums).len() == len,
    decreases pendulums.len(),
{
    if pendulums.len() > 0 {
        let init = pendulums.drop_last();
        assert forall|k: int| 0 <= k < init.len() implies pendulum_fits(
            len as int,
            width,
            height,
            pivot,
            (#[trigger] init[k]).0,
            init[k].1,
        ) by {
            assert(init[k] == pendulums[k]);
        }
        assert(pendulums.last() == pendulums[pendulums.len() - 1]);
        lemma_frame_len(len, width, height, pivot, init);
        let prev = frame_painted(len, width, height, pivot, init);
        let (joint, bob) = pendulums.last();
        let upper_pts = line_points(pt(pivot).0, pt(pivot).1, pt(joint).0, pt(joint).1);
        lemma_paint_effect(prev, width, height, upper_pts, ROD1_COLOR);
        let upper = paint(prev, width, height, upper_pts, ROD1_COLOR);
        lemma_paint_effect(
            upper,
            width,
            height,
            line_points(pt(joint).0, pt(joint).1, pt(bob).0, pt(bob).1),
            ROD2_COLOR,
        );
    }
}

/// Two pixels inside the frame with the same buffer position are the same pixel.
pub proof fn lemma_pixel_index_injective(width: int, height: int, p: (int, int), q: (int, int))
    requires
        in_frame(width, height, p),
        in_frame(width, height, q),
        pixel_index(width, p) == pixel_index(width, q),
    ensures
        p == q,
{
    lemma_fundamental_div_mod_converse(pixel_index(width, p), width, p.1, p.0);
    lemma_fundamental_div_mod_converse(pixel_index(width, q), width, q.1, q.0);
}

/// What a drawn pendulum looks like, whatever the positions of pivot, joint
/// and bob: the bob's pixel holds the bob colour; every other pixel of the
/// lower rod holds the lower rod's colour; every pixel of the upper rod that
/// is neither on the lower rod nor the bob holds the upper rod's colour; and
/// every other pixel keeps its value.
pub proof fn lemma_pendulum_drawn(
    buf: Seq<u32>,
    width: int,
    height: int,
    pivot: (i32, i32),
    joint: (i32, i32),
    bob: (i32, i32),
)
    requires
        width >= 0,
        pendulum_fits(buf.len() as int, width, height, pivot, joint, bob),
    ensures
        ({
            let upper = line_points(pt(pivot).0, pt(pivot).1, pt(joint).0, pt(joint).1);
            let lower = line_points(pt(joint).0, pt(joint).1, pt(bob).0, pt(bob).1);
            let after = pendulum_painted(buf, width, height, pivot, joint, bob);
            &&& after.len() == buf.len()
            &&& in_frame(width, height, pt(bob)) ==> after[pixel_index(width, pt(bob))] == BOB_COLOR
            &&& forall|i: int|
                0 <= i < lower.len() && in_frame(width, height, #[trigger] lower[i]) && lower[i]
                    != pt(bob) ==> after[pixel_index(width, lower[i])] == ROD2_COLOR
            &&& forall|i: int|
                0 <= i < upper.len() && in_frame(width, height, #[trigger] upper[i]) && upper[i]
                    != pt(bob) && !lower.contains(upper[i]) ==> after[pixel_index(width, upper[i])]
                    == ROD1_COLOR
            &&& forall|k: int|
                0 <= k < buf.len() && !(exists|i: int|
                    0 <= i < upper.len() && in_frame(width, height, #[trigger] upper[i])
                        && pixel_index(width, upper[i]) == k) && !(exists|i: int|
                    0 <= i < lower.len() && in_frame(width, height, #[trigger] lower[i])
                        && pixel_index(width, lower[i]) == k) && !(in_frame(width, height, pt(bob))
                    && pixel_index(width, pt(bob)) == k) ==> #[trigger] after[k] == buf[k]
        }),
{
    let upper = line_points(pt(pivot).0, pt(pivot).1, pt(joint).0, pt(joint).1);
    let lower = line_points(pt(joint).0, pt(joint).1, pt(bob).0, pt(bob).1);
    lemma_paint_effect(buf, width, height, upper, ROD1_COLOR);
    let up = paint(buf, width, height, upper, ROD1_COLOR);
    lemma_paint_effect(up, width, height, lower, ROD2_COLOR);
    let low = paint(up, width, height, lower, ROD2_COLOR);
    let after = pendulum_painted(buf, width, height, pivot, joint, bob);
    assert(after == put_pixel(low, width, height, pt(bob), BOB_COLOR));
    assert forall|i: int|
        0 <= i < lower.len() && in_frame(width, height, #[trigger] lower[i]) && lower[i] != pt(
            bob,
        ) implies after[pixel_index(width, lower[i])] == ROD2_COLOR by {
        if in_frame(width, height, pt(bob)) && pixel_index(width, lower[i]) == pixel_index(
            width,
            pt(bob),
        ) {
            lemma_pixel_index_injective(width, height, lower[i], pt(bob));
        }
    }
    assert forall|i: int|
        0 <= i < upper.len() && in_frame(width, height, #[trigger] upper[i]) && upper[i] != pt(bob)
            && !lower.contains(upper[i]) implies after[pixel_index(width, upper[i])]
        == ROD1_COLOR by {
        let k = pixel_index(width, upper[i]);
        if in_frame(width, height, pt(bob)) && k == pixel_index(width, pt(bob)) {
            lemma_pixel_index_injective(width, height, upper[i], pt(bob));
        }
        if exists|j: int|
            0 <= j < lower.len() && in_frame(width, height, #[trigger] lower[j]) && pixel_index(
                width,
                lower[j],
            ) == k {
            let j = choose|j: int|
                0 <= j < lower.len() && in_frame(width, height, #[trigger] lower[j])
                    && pixel_index(width, lower[j]) == k;
            lemma_pixel_index_injective(width, height, lower[j], upper[i]);
            assert(lower[j] == upper[i]);
            assert(lower.contains(upper[i]));
        }
        assert(0 <= k) by (nonlinear_arith)
            requires
                k == upper[i].1 * width + upper[i].0,
                0 <= upper[i].1,
                0 <= upper[i].0,
                width >= 0,
        ;
        assert(low[k] == up[k]);
    }
}

/// A frame with no pendulums is the background colour everywhere.
pub proof fn lemma_frame_empty(len: nat, width: int, height: int, pivot: (i32, i32))
    ensures
        frame_painted(len, width, height, pivot, Seq::empty()).len() == len,
        forall|k: int|
            0 <= k < len ==> #[trigger] frame_painted(len, width, height, pivot, Seq::empty())[k]
                == BACKGROUND_COLOR,
{
}

/// Every pendulum of the list is drawn: the frame for a list followed by one
/// more pendulum is the frame for the list with that pendulum drawn on top.
pub proof fn lemma_frame_push(
    len: nat,
    width: int,
    height: int,
    pivot: (i32, i32),
    pendulums: Seq<((i32, i32), (i32, i32))>,
    joint: (i32, i32),
    bob: (i32, i32),
)
    ensures
        frame_painted(len, width, height, pivot, pendulums.push((joint, bob))) == pendulum_painted(
            frame_painted(len, width, height, pivot, pendulums),
            width,
            height,
            pivot,
            joint,
            bob,
        ),
{
    assert(pendulums.push((joint, bob)).drop_last() =~= pendulums);
}

/// Whatever the number of pendulums, the bob of the last one holds the bob
/// colour when it lies in the frame.
pub proof fn lemma_frame_last_bob(
    len: nat,
    width: int,
    height: int,
    pivot: (i32, i32),
    pendulums: Seq<((i32, i32), (i32, i32))>,
)
    requires
        width >= 0,
        pendulums.len() > 0,
        forall|k: int|
            0 <= k < pendulums.len() ==> pendulum_fits(
                len as int,
                width,
                height,
                pivot,
                (#[trigger] pendulums[k]).0,
                pendulums[k].1,
            ),
        in_frame(width, height, pt(pendulums.last().1)),
    ensures
        frame_painted(len, width, height, pivot, pendulums)[pixel_index(
            width,
            pt(pendulums.last().1),
        )] == BOB_COLOR,
{
    let init = pendulums.drop_last();
    assert forall|k: int| 0 <= k < init.len() implies pendulum_fits(
        len as int,
        width,
        height,
        pivot,
        (#[trigger] init[k]).0,
        init[k].1,
    ) by {
        assert(init[k] == pendulums[k]);
    }
    lemma_frame_len(len, width, height, pivot, init);
    assert(pendulums.last() == pendulums[pendulums.len() - 1]);
    lemma_pendulum_drawn(
        frame_painted(len, width, height, pivot, init),
        width,
        height,
        pivot,
        pendulums.last().0,
        pendulums.last().1,
    );
}

/// Draws one pendulum: the rod from the pivot to the joint, the rod from the
/// joint to the bob, and the bob itself.
pub fn draw_pendulum(
    buffer: &mut [u32],
    width: usize,
    height: usize,
    pivot: (i32, i32),
    joint: (i32, i32),
    bob: (i32, i32),
)
    requires
        pendulum_fits(old(buffer)@.len() as int, width as int, height as int, pivot, joint, bob),
    ensures
        final(buffer)@ == pendulum_painted(old(buffer)@, width as int, height as int, pivot, joint, bob),
{
    let ghost start = buffer@;
    draw_line(buffer, width, height, pivot.0, pivot.1, joint.0, joint.1, ROD1_COLOR);
    proof {
        lemma_paint_effect(
            start,
            width as int,
            height as int,
            line_points(pt(pivot).0, pt(pivot).1, pt(joint).0, pt(joint).1),
            ROD1_COLOR,
        );
    }
    let ghost mid = buffer@;
    draw_line(buffer, width, height, joint.0, joint.1, bob.0, bob.1, ROD2_COLOR);
    proof {
        lemma_paint_effect(
            mid,
            width as int,
            height as int,
            line_points(pt(joint).0, pt(joint).1, pt(bob).0, pt(bob).1),
            ROD2_COLOR,
        );
    }
    draw_pixel(buffer, width, height, bob.0, bob.1, BOB_COLOR);
}

/// Renders a frame: clears the buffer to the background colour and draws each
/// pendulum, given by its joint and bob pixels, hanging from `pivot`.
pub fn render_frame(
    buffer: &mut [u32],
    width: usize,
    height: usize,
    pivot: (i32, i32),
    pendulums: &Vec<((i32, i32), (i32, i32))>,
)
    requires
        forall|k: int|
            0 <= k < pendulums@.len() ==> pendulum_fits(
                old(buffer)@.len() as int,
                width as int,
                height as int,
                pivot,
                (#[trigger] pendulums@[k]).0,
                pendulums@[k].1,
            ),
    ensures
        final(buffer)@ == frame_painted(old(buffer)@.len(), width as int, height as int, pivot, pendulums@),
{
    let ghost len = buffer@.len();
    clear_frame(buffer, BACKGROUND_COLOR);
    assert(buffer@ =~= frame_painted(len, width as int, height as int, pivot, pendulums@.take(0)));
    let count = pendulums.len();
    for k in 0..count
        invariant
            count == pendulums@.len(),
            buffer@.len() == len,
            forall|j: int|
                0 <= j < pendulums@.len() ==> pendulum_fits(
                    len as int,
                    width as int,
                    height as int,
                    pivot,
                    (#[trigger] pendulums@[j]).0,
                    pendulums@[j].1,
                ),
            buffer@ == frame_painted(len, width as int, height as int, pivot, pendulums@.take(k as int)),
    {
        let (joint, bob) = pendulums[k];
        proof {
            assert(pendulums@[k as int] == (joint, bob));
        }
        draw_pendulum(buffer, width, height, pivot, joint, bob);
        proof {
            let next = pendulums@.take(k + 1);
            assert(next.drop_last() =~= pendulums@.take(k as int));
            assert(next.last() == (joint, bob));
            assert forall|j: int| 0 <= j < next.len() implies pendulum_fits(
                len as int,
                width as int,
                height as int,
                pivot,
                (#[trigger] next[j]).0,
                next[j].1,
            ) by {
                assert(next[j] == pendulums@[j]);
            }
            lemma_frame_len(len, width as int, height as int, pivot, next);
        }
    }
    assert(pendulums@.take(count as int) =~= pendulums@);
}

// ---------------------------------------------------------------------------
// The render loop's decisions
// ---------------------------------------------------------------------------

/// What the render loop learned from polling its frame queue.
#[derive(PartialEq, Eq, Structural, Debug, Clone, Copy)]
pub enum FramePoll {
    /// A frame holding this many pendulum states arrived.
    Frame(usize),
    /// No frame was waiting; `abandoned` tells whether the producer is gone.
    Empty { abandoned: bool },
}

/// What the render loop does next.
#[derive(PartialEq, Eq, Structural, Debug, Clone, Copy)]
pub enum RenderAction {
    /// Draw the frame that arrived.
    Draw,
    /// Drop the frame (it is empty) and poll again.
    Skip,
    /// Nothing to draw yet: yield and poll again.
    Wait,
    /// Close the render window.
    Exit,
}

/// The render window closes when a stop was requested, the window was
/// closed, or Escape is held down.
pub fn should_close(stop_requested: bool, window_open: bool, escape_down: bool) -> (close: bool)
    ensures
        close == (stop_requested || !window_open || escape_down),
{
    stop_requested || !window_open || escape_down
}

/// Decides what to do with the outcome of polling the frame queue.
pub fn frame_action(poll: FramePoll) -> (action: RenderAction)
    ensures
        action == (match poll {
            FramePoll::Frame(len) => if len == 0 {
                RenderAction::Skip
            } else {
                RenderAction::Draw
            },
            FramePoll::Empty { abandoned } => if abandoned {
                RenderAction::Exit
            } else {
                RenderAction::Wait
            },
        }),
{
    match poll {
        FramePoll::Frame(len) => {
            if len == 0 {
                RenderAction::Skip
            } else {
                RenderAction::Draw
            }
        },
        FramePoll::Empty { abandoned } => {
            if abandoned {
                RenderAction::Exit
            } else {
                RenderAction::Wait
            }
        },
    }
}

} // verus!
