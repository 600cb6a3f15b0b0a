use crate::colors::Color;
use crate::framebuffer::Framebuffer;
use crate::framebuffer::cell_index;
use crate::framebuffer::lemma_put_pixel_reads_back;
use crate::framebuffer::put_pixel;
use crate::vertex::Vertex;
use vstd::prelude::*;
use vstd::relations::total_ordering;
use vstd::seq_lib::group_to_multiset_ensures;
use vstd::seq_lib::lemma_sorted_unique;
use vstd::multiset::Multiset;
use vstd::relations::sorted_by;

verus! {

/// The absolute value of an integer.
pub open spec fn iabs(x: int) -> int {
    if x < 0 {
        -x
    } else {
        x
    }
}

/// The cells visited by the integer error-accumulation line walk from
/// `(x1, y1)`, with fixed axis deltas `dx`, `dy`, step directions `sx`, `sy`
/// and error term `err`. The walk is inclusive of both end cells. The
/// recursion stops early if a step were to fail to approach `(x2, y2)`; for
/// the arguments `line_cells` passes that never happens, the guard only makes
/// termination evident.
pub open spec fn bres_cells(
    x1: int,
    y1: int,
    x2: int,
    y2: int,
    dx: int,
    dy: int,
    err: int,
    sx: int,
    sy: int,
) -> Seq<(int, int)>
    decreases iabs(x2 - x1) + iabs(y2 - y1),
{
    let cell = (x1, y1);
    if x1 == x2 && y1 == y2 {
        seq![cell]
    } else {
        let e2 = 2 * err;
        let xstep = e2 >= dy;
        let ystep = e2 <= dx;
        let nx = if xstep {
            x1 + sx
        } else {
            x1
        };
        let ny = if ystep {
            y1 + sy
        } else {
            y1
        };
        let nerr = err + (if xstep {
            dy
        } else {
            0
        }) + (if ystep {
            dx
        } else {
            0
        });
        if iabs(x2 - nx) + iabs(y2 - ny) < iabs(x2 - x1) + iabs(y2 - y1) {
            seq![cell] + bres_cells(nx, ny, x2, y2, dx, dy, nerr, sx, sy)
        } else {
            seq![cell]
        }
    }
}

/// The cells of the grid line from `(x1, y1)` to `(x2, y2)`.
pub open spec fn line_cells(x1: int, y1: int, x2: int, y2: int) -> Seq<(int, int)> {
    let dx = iabs(x2 - x1);
    let dy = -iabs(y2 - y1);
    let sx: int = if x1 < x2 {
        1
    } else {
        -1
    };
    let sy: int = if y1 < y2 {
        1
    } else {
        -1
    };
    bres_cells(x1, y1, x2, y2, dx, dy, dx + dy, sx, sy)
}

/// Painting a list of cells in order, each with the same bounds-checked
/// write of one packed pixel value.
pub open spec fn paint_cells(
    buf: Seq<u32>,
    w: int,
    h: int,
    flip: bool,
    cells: Seq<(int, int)>,
    pix: u32,
) -> Seq<u32>
    decreases cells.len(),
{
    if cells.len() == 0 {
        buf
    } else {
        put_pixel(
            paint_cells(buf, w, h, flip, cells.drop_last(), pix),
            w,
            h,
            flip,
            cells.last().0,
            cells.last().1,
            pix,
        )
    }
}

/// Draws the segment from `start` to `end` with the current color, walking
/// the grid by integer error accumulation. Every visited cell inside the
/// surface is painted; cells outside the surface are skipped without
/// stopping the walk. A degenerate segment (`start == end`) paints one cell.
#[verifier::rlimit(60)]
pub fn line(fb: &mut Framebuffer, start: Vertex, end: Vertex)
    requires
        old(fb).wf(),
    ensures
        final(fb).wf(),
        final(fb).width == old(fb).width,
        final(fb).height == old(fb).height,
        final(fb).flip_y == old(fb).flip_y,
        final(fb).background_color == old(fb).background_color,
        final(fb).current_color == old(fb).current_color,
        final(fb).buffer@ == paint_cells(
            old(fb).buffer@,
            old(fb).width as int,
            old(fb).height as int,
            old(fb).flip_y,
            line_cells(start.x as int, start.y as int, end.x as int, end.y as int),
            old(fb).current_color.spec_to_hex(),
        ),
{
    let mut x1: i64 = start.x as i64;
    let mut y1: i64 = start.y as i64;
    let x2: i64 = end.x as i64;
    let y2: i64 = end.y as i64;

    let dx: i64 = if x2 >= x1 {
        x2 - x1
    } else {
        x1 - x2
    };
    let sx: i64 = if x1 < x2 {
        1
    } else {
        -1
    };
    let dyabs: i64 = if y2 >= y1 {
        y2 - y1
    } else {
        y1 - y2
    };
    let dy: i64 = -dyabs;
    let sy: i64 = if y1 < y2 {
        1
    } else {
        -1
    };
    let mut err: i64 = dx + dy;

    let ghost a: int = dx as int;
    let ghost b: int = dyabs as int;
    let ghost m: int = if a >= b {
        a
    } else {
        b
    };
    let ghost mut cx: int = 0;
    let ghost mut cy: int = 0;
    let ghost mut d: int = 0;
    let ghost mut done: Seq<(int, int)> = Seq::empty();
    let ghost cells = line_cells(start.x as int, start.y as int, end.x as int, end.y as int);
    let ghost w = old(fb).width as int;
    let ghost h = old(fb).height as int;
    let ghost flip = old(fb).flip_y;
    let ghost pix = old(fb).current_color.spec_to_hex();

    loop
        invariant_except_break
            cells == done + bres_cells(
                x1 as int,
                y1 as int,
                x2 as int,
                y2 as int,
                a,
                -b,
                err as int,
                sx as int,
                sy as int,
            ),
        invariant
            w == old(fb).width as int,
            h == old(fb).height as int,
            flip == old(fb).flip_y,
            pix == old(fb).current_color.spec_to_hex(),
            cells == line_cells(start.x as int, start.y as int, end.x as int, end.y as int),
            fb.wf(),
            fb.width == old(fb).width,
            fb.height == old(fb).height,
            fb.flip_y == old(fb).flip_y,
            fb.background_color == old(fb).background_color,
            fb.current_color == old(fb).current_color,
            a == iabs(end.x - start.x),
            b == iabs(end.y - start.y),
            m == (if a >= b {
                a
            } else {
                b
            }),
            dx == a,
            dy == -b,
            sx as int == (if start.x < end.x {
                1int
            } else {
                -1int
            }),
            sy as int == (if start.y < end.y {
                1int
            } else {
                -1int
            }),
            x2 == end.x,
            y2 == end.y,
            0 <= cx <= a,
            0 <= cy <= b,
            x1 as int == start.x + (if start.x < end.x {
                cx
            } else {
                -cx
            }),
            y1 as int == start.y + (if start.y < end.y {
                cy
            } else {
                -cy
            }),
            d == b * cx - a * cy,
            -m <= 2 * d <= m,
            err as int == a - b - d,
            fb.buffer@ == paint_cells(old(fb).buffer@, w, h, flip, done, pix),
        ensures
            fb.wf(),
            fb.width == old(fb).width,
            fb.height == old(fb).height,
            fb.flip_y == old(fb).flip_y,
            fb.background_color == old(fb).background_color,
            fb.current_color == old(fb).current_color,
            fb.buffer@ == paint_cells(old(fb).buffer@, w, h, flip, cells, pix),
        decreases (a - cx) + (b - cy),
    {
        proof {
            assert(iabs(x2 as int - x1 as int) == a - cx);
            assert(iabs(y2 as int - y1 as int) == b - cy);
            assert(x1 as int >= (if start.x <= end.x {
                start.x as int
            } else {
                end.x as int
            }));
            assert(x1 as int <= (if start.x <= end.x {
                end.x as int
            } else {
                start.x as int
            }));
            assert(y1 as int >= (if start.y <= end.y {
                start.y as int
            } else {
                end.y as int
            }));
            assert(y1 as int <= (if start.y <= end.y {
                end.y as int
            } else {
                start.y as int
            }));
        }
        let ghost prev_buf = fb.buffer@;
        let inb = x1 >= 0 && y1 >= 0 && (x1 as u64) < (fb.width as u64) && (y1 as u64) < (
        fb.height as u64);
        if inb {
            fb.point(x1 as usize, y1 as usize);
        }
        proof {
            let cell = (x1 as int, y1 as int);
            if inb {
                assert(0 <= x1 as int && (x1 as int) < w && 0 <= y1 as int && (y1 as int) < h);
            } else {
                assert(!(0 <= x1 as int && (x1 as int) < w && 0 <= y1 as int && (y1 as int) < h));
            }
            assert(fb.buffer@ == put_pixel(prev_buf, w, h, flip, x1 as int, y1 as int, pix));
            let prev_done = done;
            done = done.push(cell);
            assert(done.drop_last() =~= prev_done);
            assert(fb.buffer@ == paint_cells(old(fb).buffer@, w, h, flip, done, pix));
        }
        if x1 == x2 && y1 == y2 {
            proof {
                assert(cells =~= done);
            }
            break ;
        }
        let ghost oldx1 = x1 as int;
        let ghost oldy1 = y1 as int;
        let ghost olderr = err as int;
        let ghost oldcx = cx;
        let ghost oldcy = cy;
        let ghost oldd = d;
        proof {
            // the walk has not reached the end cell, so at least one counter
            // is still short of its delta
            assert(cx < a || cy < b);
            // a counter at its delta takes no further step in that axis
            if cx == a {
                assert(cy < b);
                assert(d == b * a - a * cy);
                assert(a * (b - cy) >= a * 1) by (nonlinear_arith)
                    requires
                        a >= 0 && b - cy >= 1,
                ;
                assert(b * a - a * cy == a * (b - cy)) by (nonlinear_arith);
                assert(2 * d >= 2 * a);
                assert(!(2 * (a - b - d) >= -b));
            }
            if cy == b {
                assert(cx < a);
                assert(a >= 1);
                assert(a * b == b * a) by (nonlinear_arith);
                assert(b * cx - b * a == -(b * (a - cx))) by (nonlinear_arith);
                assert(b * (a - cx) >= b * 1) by (nonlinear_arith)
                    requires
                        b >= 0 && a - cx >= 1,
                ;
                assert(2 * d <= -2 * b);
                assert(!(2 * (a - b - d) <= a));
            }
        }
        let e2: i64 = 2 * err;
        let xstep = e2 >= dy;
        let ystep = e2 <= dx;
        if xstep {
            err = err + dy;
            x1 = x1 + sx;
        }
        if ystep {
            err = err + dx;
            y1 = y1 + sy;
        }
        proof {
            if xstep {
                cx = oldcx + 1;
                d = oldd + b;
                assert(b * (oldcx + 1) == b * oldcx + b) by (nonlinear_arith);
            }
            if ystep {
                cy = oldcy + 1;
                d = d - a;
                assert(a * (oldcy + 1) == a * oldcy + a) by (nonlinear_arith);
            }
            assert(d == b * cx - a * cy);
            assert(xstep || ystep);
            assert(iabs(x2 as int - x1 as int) == a - cx);
            assert(iabs(y2 as int - y1 as int) == b - cy);
            // the step approached the end cell, so the walk's recursion took
            // its progress branch
            assert(bres_cells(oldx1, oldy1, x2 as int, y2 as int, a, -b, olderr, sx as int,
                sy as int) == seq![(oldx1, oldy1)] + bres_cells(
                x1 as int,
                y1 as int,
                x2 as int,
                y2 as int,
                a,
                -b,
                err as int,
                sx as int,
                sy as int,
            ));
            assert(done.drop_last() + (seq![(oldx1, oldy1)] + bres_cells(
                x1 as int,
                y1 as int,
                x2 as int,
                y2 as int,
                a,
                -b,
                err as int,
                sx as int,
                sy as int,
            )) =~= done + bres_cells(
                x1 as int,
                y1 as int,
                x2 as int,
                y2 as int,
                a,
                -b,
                err as int,
                sx as int,
                sy as int,
            ));
        }
    }
}

/// Painting the open polyline through vertices `pts[0] .. pts[k]`: the edges
/// `pts[0]..pts[1]` up to `pts[k-1]..pts[k]`, in order.
pub open spec fn polyline_paint(
    buf: Seq<u32>,
    w: int,
    h: int,
    flip: bool,
    pts: Seq<Vertex>,
    k: int,
    pix: u32,
) -> Seq<u32>
    decreases k,
{
    if k <= 0 {
        buf
    } else {
        paint_cells(
            polyline_paint(buf, w, h, flip, pts, k - 1, pix),
            w,
            h,
            flip,
            line_cells(
                pts[k - 1].x as int,
                pts[k - 1].y as int,
                pts[k].x as int,
                pts[k].y as int,
            ),
            pix,
        )
    }
}

/// The buffer after drawing the closed outline of `pts`: every consecutive
/// edge, then the closing edge from the last vertex back to the first.
pub open spec fn outline_paint(
    buf: Seq<u32>,
    w: int,
    h: int,
    flip: bool,
    pts: Seq<Vertex>,
    pix: u32,
) -> Seq<u32> {
    let n = pts.len() as int;
    paint_cells(
        polyline_paint(buf, w, h, flip, pts, n - 1, pix),
        w,
        h,
        flip,
        line_cells(pts[n - 1].x as int, pts[n - 1].y as int, pts[0].x as int, pts[0].y as int),
        pix,
    )
}

/// Draws the closed outline of `points` with the current color: a line
/// between each consecutive pair of vertices and a closing line from the
/// last vertex back to the first. Fewer than 3 points is a silent no-op.
pub fn draw_polygon(fb: &mut Framebuffer, points: &Vec<Vertex>)
    requires
        old(fb).wf(),
    ensures
        final(fb).wf(),
        final(fb).width == old(fb).width,
        final(fb).height == old(fb).height,
        final(fb).flip_y == old(fb).flip_y,
        final(fb).background_color == old(fb).background_color,
        final(fb).current_color == old(fb).current_color,
        points@.len() < 3 ==> final(fb).buffer@ == old(fb).buffer@,
        points@.len() >= 3 ==> final(fb).buffer@ == outline_paint(
            old(fb).buffer@,
            old(fb).width as int,
            old(fb).height as int,
            old(fb).flip_y,
            points@,
            old(fb).current_color.spec_to_hex(),
        ),
{
    if points.len() < 3 {
        return ;
    }
    let n = points.len();
    let mut i: usize = 1;
    while i < n
        invariant
            fb.wf(),
            fb.width == old(fb).width,
            fb.height == old(fb).height,
            fb.flip_y == old(fb).flip_y,
            fb.background_color == old(fb).background_color,
            fb.current_color == old(fb).current_color,
            n == points@.len(),
            3 <= n,
            1 <= i <= n,
            fb.buffer@ == polyline_paint(
                old(fb).buffer@,
                old(fb).width as int,
                old(fb).height as int,
                old(fb).flip_y,
                points@,
                i as int - 1,
                old(fb).current_color.spec_to_hex(),
            ),
        decreases n - i,
    {
        let p = points[i - 1];
        let q = points[i];
        line(fb, p, q);
        i = i + 1;
    }
    let last = points[n - 1];
    let first = points[0];
    line(fb, last, first);
}

/// Scanline `y` crosses the edge `p1..p2` when exactly one of the two
/// endpoints lies strictly below the scanline. The asymmetry is a deliberate
/// tie-break at shared vertices, and a horizontal edge never crosses.
pub open spec fn crosses(p1: Vertex, p2: Vertex, y: int) -> bool {
    ((p1.y as int) < y && (p2.y as int) >= y) || ((p2.y as int) < y && (p1.y as int) >= y)
}

/// The column where scanline `y` meets the edge `p1..p2`, by exact linear
/// interpolation truncated to an integer; a negative column saturates to 0.
/// Meaningful only when the edge crosses the scanline.
pub open spec fn node_at(p1: Vertex, p2: Vertex, y: int) -> u64 {
    let ax = if (p1.y as int) < y {
        p1.x as int
    } else {
        p2.x as int
    };
    let ay = if (p1.y as int) < y {
        p1.y as int
    } else {
        p2.y as int
    };
    let bx = if (p1.y as int) < y {
        p2.x as int
    } else {
        p1.x as int
    };
    let by = if (p1.y as int) < y {
        p2.y as int
    } else {
        p1.y as int
    };
    let den = by - ay;
    let num = ax * den + (y - ay) * (bx - ax);
    if num < 0 {
        0u64
    } else {
        (num / den) as u64
    }
}

/// The other endpoint of edge `k`: its predecessor vertex, wrapping from the
/// first vertex back to the last.
pub open spec fn edge_mate(pts: Seq<Vertex>, k: int) -> Vertex {
    if k == 0 {
        pts[pts.len() - 1]
    } else {
        pts[k - 1]
    }
}

/// The columns where scanline `y` meets the first `k` edges of `pts`, in
/// edge order.
pub open spec fn scan_nodes_upto(pts: Seq<Vertex>, y: int, k: int) -> Seq<u64>
    decreases k,
{
    if k <= 0 {
        Seq::empty()
    } else {
        let s = scan_nodes_upto(pts, y, k - 1);
        if crosses(pts[k - 1], edge_mate(pts, k - 1), y) {
            s.push(node_at(pts[k - 1], edge_mate(pts, k - 1), y))
        } else {
            s
        }
    }
}

/// All columns where scanline `y` meets an edge of `pts`.
pub open spec fn scan_nodes(pts: Seq<Vertex>, y: int) -> Seq<u64> {
    scan_nodes_upto(pts, y, pts.len() as int)
}

/// Ascending order on columns.
pub open spec fn node_leq() -> spec_fn(u64, u64) -> bool {
    |a: u64, c: u64| a <= c
}

/// Painting the inclusive span of columns `x0 ..= x1` on scanline `y`.
pub open spec fn paint_span(
    buf: Seq<u32>,
    w: int,
    h: int,
    flip: bool,
    y: int,
    x0: int,
    x1: int,
    pix: u32,
) -> Seq<u32>
    decreases x1 - x0 + 1,
{
    if x1 < x0 {
        buf
    } else {
        put_pixel(paint_span(buf, w, h, flip, y, x0, x1 - 1, pix), w, h, flip, x1, y, pix)
    }
}

/// Painting the spans between consecutive pairs of an intercept list:
/// `nodes[0] ..= nodes[1]`, then `nodes[2] ..= nodes[3]`, and so on. A final
/// unpaired intercept paints nothing.
pub open spec fn apply_spans(
    buf: Seq<u32>,
    w: int,
    h: int,
    flip: bool,
    nodes: Seq<u64>,
    y: int,
    pix: u32,
) -> Seq<u32>
    decreases nodes.len(),
{
    if nodes.len() < 2 {
        buf
    } else {
        apply_spans(
            paint_span(buf, w, h, flip, y, nodes[0] as int, nodes[1] as int, pix),
            w,
            h,
            flip,
            nodes.skip(2),
            y,
            pix,
        )
    }
}

/// One scanline of the even-odd fill: sort the gathered intercept columns
/// ascending and fill between consecutive pairs.
pub open spec fn scanline_fill(
    buf: Seq<u32>,
    w: int,
    h: int,
    flip: bool,
    nodes: Seq<u64>,
    y: int,
    pix: u32,
) -> Seq<u32> {
    apply_spans(buf, w, h, flip, nodes.sort_by(node_leq()), y, pix)
}

/// The scanline sweep of the polygon `pts` over rows `y0 ..= y1`.
pub open spec fn fill_rows(
    buf: Seq<u32>,
    w: int,
    h: int,
    flip: bool,
    pts: Seq<Vertex>,
    y0: int,
    y1: int,
    pix: u32,
) -> Seq<u32>
    decreases y1 + 1 - y0,
{
    if y0 > y1 {
        buf
    } else {
        fill_rows(
            scanline_fill(buf, w, h, flip, scan_nodes(pts, y0), y0, pix),
            w,
            h,
            flip,
            pts,
            y0 + 1,
            y1,
            pix,
        )
    }
}

/// The scanline sweep over rows `y0 ..= y1` with the intercepts of the outer
/// polygon and of the hole pooled into one parity sequence per row; spans
/// enclosed by both contours fall between an even number of intercepts and
/// stay unpainted, which is what punches the hole.
pub open spec fn fill_rows_hole(
    buf: Seq<u32>,
    w: int,
    h: int,
    flip: bool,
    outer: Seq<Vertex>,
    inner: Seq<Vertex>,
    y0: int,
    y1: int,
    pix: u32,
) -> Seq<u32>
    decreases y1 + 1 - y0,
{
    if y0 > y1 {
        buf
    } else {
        fill_rows_hole(
            scanline_fill(
                buf,
                w,
                h,
                flip,
                scan_nodes(outer, y0) + scan_nodes(inner, y0),
                y0,
                pix,
            ),
            w,
            h,
            flip,
            outer,
            inner,
            y0 + 1,
            y1,
            pix,
        )
    }
}

/// The smallest vertex row (0 for an empty list).
pub open spec fn min_y_of(pts: Seq<Vertex>) -> int
    decreases pts.len(),
{
    if pts.len() == 0 {
        0
    } else if pts.len() == 1 {
        pts[0].y as int
    } else {
        let m = min_y_of(pts.drop_last());
        if (pts.last().y as int) < m {
            pts.last().y as int
        } else {
            m
        }
    }
}

/// The largest vertex row (0 for an empty list).
pub open spec fn max_y_of(pts: Seq<Vertex>) -> int
    decreases pts.len(),
{
    if pts.len() == 0 {
        0
    } else if pts.len() == 1 {
        pts[0].y as int
    } else {
        let m = max_y_of(pts.drop_last());
        if (pts.last().y as int) > m {
            pts.last().y as int
        } else {
            m
        }
    }
}

/// A row index clamped below at 0: the sweep bounds saturate negative vertex
/// rows to the top row.
pub open spec fn clamp0(v: int) -> int {
    if v < 0 {
        0
    } else {
        v
    }
}

proof fn lemma_min_le_max(pts: Seq<Vertex>)
    requires
        pts.len() >= 1,
    ensures
        min_y_of(pts) <= max_y_of(pts),
    decreases pts.len(),
{
    if pts.len() > 1 {
        lemma_min_le_max(pts.drop_last());
    }
}

fn min_y_vert(points: &Vec<Vertex>) -> (m: i32)
    requires
        points@.len() >= 1,
    ensures
        m as int == min_y_of(points@),
{
    let mut m = points[0].y;
    let mut i: usize = 1;
    proof {
        assert(points@.take(1).len() == 1);
        assert(points@.take(1)[0] == points@[0]);
    }
    while i < points.len()
        invariant
            1 <= i <= points@.len(),
            m as int == min_y_of(points@.take(i as int)),
        decreases points@.len() - i,
    {
        proof {
            assert(points@.take(i as int + 1).drop_last() =~= points@.take(i as int));
            assert(points@.take(i as int + 1).last() == points@[i as int]);
        }
        if points[i].y < m {
            m = points[i].y;
        }
        i = i + 1;
    }
    proof {
        assert(points@.take(points@.len() as int) =~= points@);
    }
    m
}

fn max_y_vert(points: &Vec<Vertex>) -> (m: i32)
    requires
        points@.len() >= 1,
    ensures
        m as int == max_y_of(points@),
{
    let mut m = points[0].y;
    let mut i: usize = 1;
    proof {
        assert(points@.take(1).len() == 1);
        assert(points@.take(1)[0] == points@[0]);
    }
    while i < points.len()
        invariant
            1 <= i <= points@.len(),
            m as int == max_y_of(points@.take(i as int)),
        decreases points@.len() - i,
    {
        proof {
            assert(points@.take(i as int + 1).drop_last() =~= points@.take(i as int));
            assert(points@.take(i as int + 1).last() == points@[i as int]);
        }
        if points[i].y > m {
            m = points[i].y;
        }
        i = i + 1;
    }
    proof {
        assert(points@.take(points@.len() as int) =~= points@);
    }
    m
}

proof fn lemma_mul_bound(a: int, c: int, aa: int, cc: int)
    by (nonlinear_arith)
    requires
        -aa <= a <= aa,
        -cc <= c <= cc,
        0 <= aa,
        0 <= cc,
    ensures
        -(aa * cc) <= a * c <= aa * cc,
{
}

/// Appends to `nodes` the column of every edge of `points` that scanline `y`
/// crosses, in edge order.
fn gather_nodes(points: &Vec<Vertex>, y: i64, nodes: &mut Vec<u64>)
    requires
        points@.len() >= 1,
        0 <= y <= 0x7FFF_FFFF,
    ensures
        final(nodes)@ == old(nodes)@ + scan_nodes(points@, y as int),
{
    let n = points.len();
    let mut j: usize = n - 1;
    let mut i: usize = 0;
    proof {
        assert(nodes@ =~= nodes@ + scan_nodes_upto(points@, y as int, 0));
    }
    while i < n
        invariant
            n == points@.len(),
            1 <= n,
            i <= n,
            0 <= y <= 0x7FFF_FFFF,
            j as int == (if i == 0 {
                n as int - 1
            } else {
                i as int - 1
            }),
            nodes@ == old(nodes)@ + scan_nodes_upto(points@, y as int, i as int),
        decreases n - i,
    {
        let p1 = points[i];
        let p2 = points[j];
        let cross = ((p1.y as i64) < y && (p2.y as i64) >= y) || ((p2.y as i64) < y && (
        p1.y as i64) >= y);
        if cross {
            let below1 = (p1.y as i64) < y;
            let ax: i64 = if below1 {
                p1.x as i64
            } else {
                p2.x as i64
            };
            let ay: i64 = if below1 {
                p1.y as i64
            } else {
                p2.y as i64
            };
            let bx: i64 = if below1 {
                p2.x as i64
            } else {
                p1.x as i64
            };
            let by: i64 = if below1 {
                p2.y as i64
            } else {
                p1.y as i64
            };
            let den: i64 = by - ay;
            proof {
                lemma_mul_bound(ax as int, den as int, 0x8000_0000, 0x1_0000_0000);
                lemma_mul_bound(y as int - ay as int, bx as int - ax as int, 0x1_0000_0000,
                    0x1_0000_0000);
            }
            let num: i128 = (ax as i128) * (den as i128) + ((y - ay) as i128) * ((bx - ax)
                as i128);
            let node: u64 = if num < 0 {
                0
            } else {
                ((num as u128) / (den as u128)) as u64
            };
            proof {
                assert(node == node_at(p1, p2, y as int));
            }
            nodes.push(node);
        }
        proof {
            assert(points@[i as int] == p1 && edge_mate(points@, i as int) == p2);
            assert(scan_nodes_upto(points@, y as int, i as int + 1) == (if crosses(p1, p2,
                y as int) {
                scan_nodes_upto(points@, y as int, i as int).push(node_at(p1, p2, y as int))
            } else {
                scan_nodes_upto(points@, y as int, i as int)
            }));
            assert(nodes@ =~= old(nodes)@ + scan_nodes_upto(points@, y as int, i as int + 1));
        }
        j = i;
        i = i + 1;
    }
}

/// Sorts a list of columns ascending.
fn sort_nodes(src: Vec<u64>) -> (out: Vec<u64>)
    ensures
        out@ == src@.sort_by(node_leq()),
{
    let ghost orig = src@;
    let mut rest = src;
    let mut out: Vec<u64> = Vec::new();
    proof {
        broadcast use group_to_multiset_ensures;
        broadcast use vstd::multiset::group_multiset_axioms;

        assert(out@.to_multiset().add(rest@.to_multiset()) =~= orig.to_multiset());
    }
    while rest.len() > 0
        invariant
            out@.to_multiset().add(rest@.to_multiset()) == orig.to_multiset(),
            sorted_by(out@, node_leq()),
            forall|p: int, q: int|
                0 <= p < out@.len() && 0 <= q < rest@.len() ==> out@[p] <= rest@[q],
        decreases rest@.len(),
    {
        let mut m: usize = 0;
        let mut k: usize = 1;
        while k < rest.len()
            invariant
                rest@.len() >= 1,
                (m as int) < (k as int),
                k <= rest@.len(),
                forall|t: int| 0 <= t < k ==> rest@[m as int] <= rest@[t],
            decreases rest@.len() - k,
        {
            if rest[k] < rest[m] {
                m = k;
            }
            k = k + 1;
        }
        let ghost prev_rest = rest@;
        let v = rest.remove(m);
        let ghost prev_out = out@;
        out.push(v);
        proof {
            broadcast use group_to_multiset_ensures;
            broadcast use vstd::multiset::group_multiset_axioms;

            assert(prev_rest[m as int] == v);
            assert(prev_rest.contains(v));
            assert(rest@ == prev_rest.remove(m as int));
            assert(rest@.to_multiset() == prev_rest.to_multiset().remove(v));
            assert(out@.to_multiset() =~= prev_out.to_multiset().insert(v));
            assert(out@.to_multiset().add(rest@.to_multiset()) =~= orig.to_multiset());
            assert forall|p: int, q: int|
                0 <= p < out@.len() && 0 <= q < out@.len() && p < q implies (node_leq())(
                out@[p],
                out@[q],
            ) by {
                if q < out@.len() - 1 {
                    assert(out@[p] == prev_out[p] && out@[q] == prev_out[q]);
                    assert(sorted_by(prev_out, node_leq()));
                } else {
                    assert(out@[q] == v);
                    if p < out@.len() - 1 {
                        assert(out@[p] == prev_out[p]);
                        assert(prev_out[p] <= prev_rest[m as int]);
                    }
                }
            }
            assert(sorted_by(out@, node_leq()));
            assert forall|p: int, q: int|
                0 <= p < out@.len() && 0 <= q < rest@.len() implies out@[p] <= rest@[q] by {
                let rq = if q < m as int {
                    q
                } else {
                    q + 1
                };
                assert(rest@[q] == prev_rest[rq]);
                assert(v <= prev_rest[rq]);
                if p < out@.len() - 1 {
                    assert(out@[p] == prev_out[p]);
                    assert(prev_out[p] <= prev_rest[rq]);
                } else {
                    assert(out@[p] == v);
                }
            }
        }
    }
    proof {
        broadcast use group_to_multiset_ensures;
        broadcast use vstd::multiset::group_multiset_axioms;

        assert(rest@.to_multiset() =~= Multiset::<u64>::empty());
        assert(out@.to_multiset() =~= orig.to_multiset());
        assert(total_ordering(node_leq()));
        orig.lemma_sort_by_ensures(node_leq());
        lemma_sorted_unique(out@, orig.sort_by(node_leq()), node_leq());
    }
    out
}

proof fn lemma_paint_span_clip(
    buf: Seq<u32>,
    w: int,
    h: int,
    flip: bool,
    y: int,
    x0: int,
    x1: int,
    lim: int,
    pix: u32,
)
    requires
        w <= lim <= x1 + 1,
    ensures
        paint_span(buf, w, h, flip, y, x0, x1, pix) == paint_span(
            buf,
            w,
            h,
            flip,
            y,
            x0,
            lim - 1,
            pix,
        ),
    decreases x1 + 1 - lim,
{
    if x1 >= lim {
        lemma_paint_span_clip(buf, w, h, flip, y, x0, x1 - 1, lim, pix);
    }
}

/// Fills the spans between consecutive pairs of the intercept list `nodes`
/// on scanline `y` with the current color.
fn paint_node_spans(fb: &mut Framebuffer, nodes: &Vec<u64>, y: i64)
    requires
        old(fb).wf(),
        0 <= y <= 0x7FFF_FFFF,
    ensures
        final(fb).wf(),
        final(fb).width == old(fb).width,
        final(fb).height == old(fb).height,
        final(fb).flip_y == old(fb).flip_y,
        final(fb).background_color == old(fb).background_color,
        final(fb).current_color == old(fb).current_color,
        final(fb).buffer@ == apply_spans(
            old(fb).buffer@,
            old(fb).width as int,
            old(fb).height as int,
            old(fb).flip_y,
            nodes@,
            y as int,
            old(fb).current_color.spec_to_hex(),
        ),
{
    let n = nodes.len();
    let mut i: usize = 0;
    proof {
        assert(nodes@.skip(0) =~= nodes@);
    }
    while n > 0 && i < n - 1
        invariant
            fb.wf(),
            fb.width == old(fb).width,
            fb.height == old(fb).height,
            fb.flip_y == old(fb).flip_y,
            fb.background_color == old(fb).background_color,
            fb.current_color == old(fb).current_color,
            n == nodes@.len(),
            i <= n,
            0 <= y <= 0x7FFF_FFFF,
            apply_spans(
                fb.buffer@,
                old(fb).width as int,
                old(fb).height as int,
                old(fb).flip_y,
                nodes@.skip(i as int),
                y as int,
                old(fb).current_color.spec_to_hex(),
            ) == apply_spans(
                old(fb).buffer@,
                old(fb).width as int,
                old(fb).height as int,
                old(fb).flip_y,
                nodes@,
                y as int,
                old(fb).current_color.spec_to_hex(),
            ),
        decreases n - i,
    {
        let x0 = nodes[i];
        let x1 = nodes[i + 1];
        let ghost bstart = fb.buffer@;
        let ghost ww = old(fb).width as int;
        let ghost hh = old(fb).height as int;
        let ghost ff = old(fb).flip_y;
        let ghost pix = old(fb).current_color.spec_to_hex();
        let mut x = x0;
        while x <= x1 && x < fb.width as u64
            invariant
                fb.wf(),
                fb.width == old(fb).width,
                fb.height == old(fb).height,
                fb.flip_y == old(fb).flip_y,
                fb.background_color == old(fb).background_color,
                fb.current_color == old(fb).current_color,
                ww == old(fb).width as int,
                hh == old(fb).height as int,
                ff == old(fb).flip_y,
                pix == old(fb).current_color.spec_to_hex(),
                0 <= y <= 0x7FFF_FFFF,
                x0 <= x,
                x as int <= x1 as int + 1 || x == x0,
                x as int <= ww || x == x0,
                fb.buffer@ == paint_span(bstart, ww, hh, ff, y as int, x0 as int, x as int - 1, pix),
            decreases x1 as int + 1 - x as int,
        {
            fb.point(x as usize, y as usize);
            x = x + 1;
        }
        proof {
            if x <= x1 {
                // the walk stopped at the right edge of the surface; the
                // cells beyond it would not have been painted anyway
                assert(x >= fb.width as u64);
                lemma_paint_span_clip(bstart, ww, hh, ff, y as int, x0 as int, x1 as int, ww, pix);
                if x == x0 {
                    assert(fb.buffer@ == bstart);
                    assert(paint_span(bstart, ww, hh, ff, y as int, x0 as int, ww - 1, pix)
                        == bstart);
                } else {
                    assert(x as int - 1 == ww - 1);
                }
            }
            assert(fb.buffer@ == paint_span(bstart, ww, hh, ff, y as int, x0 as int, x1 as int,
                pix));
            assert(nodes@.skip(i as int)[0] == nodes@[i as int]);
            assert(nodes@.skip(i as int)[1] == nodes@[i as int + 1]);
            assert(nodes@.skip(i as int).skip(2) =~= nodes@.skip(i as int + 2));
            assert(apply_spans(fb.buffer@, ww, hh, ff, nodes@.skip(i as int + 2), y as int, pix)
                == apply_spans(old(fb).buffer@, ww, hh, ff, nodes@, y as int, pix));
        }
        i = i + 2;
    }
    proof {
        assert(nodes@.skip(i as int).len() < 2);
    }
}

/// Fills the polygon `points` with `color`: the current color becomes
/// `color`, and every scanline from the lowest to the highest vertex row is
/// filled between consecutive pairs of its sorted edge intercepts (the
/// even-odd rule). Fewer than 3 points is a silent no-op.
pub fn fill_polygon(fb: &mut Framebuffer, points: &Vec<Vertex>, color: Color)
    requires
        old(fb).wf(),
    ensures
        final(fb).wf(),
        final(fb).width == old(fb).width,
        final(fb).height == old(fb).height,
        final(fb).flip_y == old(fb).flip_y,
        final(fb).background_color == old(fb).background_color,
        points@.len() < 3 ==> *final(fb) == *old(fb),
        points@.len() >= 3 ==> final(fb).current_color == color,
        points@.len() >= 3 ==> final(fb).buffer@ == fill_rows(
            old(fb).buffer@,
            old(fb).width as int,
            old(fb).height as int,
            old(fb).flip_y,
            points@,
            clamp0(min_y_of(points@)),
            clamp0(max_y_of(points@)),
            color.spec_to_hex(),
        ),
{
    if points.len() < 3 {
        return ;
    }
    let hex = color.to_hex();
    fb.set_current_color(hex);
    proof {
        crate::colors::lemma_color_hex_round_trip(color);
        assert(fb.current_color == color);
        lemma_min_le_max(points@);
    }
    let miny = min_y_vert(points);
    let maxy = max_y_vert(points);
    let ylo: i64 = if miny < 0 {
        0
    } else {
        miny as i64
    };
    let yhi: i64 = if maxy < 0 {
        0
    } else {
        maxy as i64
    };
    let mut y: i64 = ylo;
    while y <= yhi
        invariant
            fb.wf(),
            fb.width == old(fb).width,
            fb.height == old(fb).height,
            fb.flip_y == old(fb).flip_y,
            fb.background_color == old(fb).background_color,
            fb.current_color == color,
            points@.len() >= 3,
            ylo as int == clamp0(min_y_of(points@)),
            yhi as int == clamp0(max_y_of(points@)),
            0 <= ylo <= yhi + 1,
            yhi <= 0x7FFF_FFFF,
            ylo <= y <= yhi + 1,
            fill_rows(
                fb.buffer@,
                old(fb).width as int,
                old(fb).height as int,
                old(fb).flip_y,
                points@,
                y as int,
                yhi as int,
                color.spec_to_hex(),
            ) == fill_rows(
                old(fb).buffer@,
                old(fb).width as int,
                old(fb).height as int,
                old(fb).flip_y,
                points@,
                ylo as int,
                yhi as int,
                color.spec_to_hex(),
            ),
        decreases yhi + 1 - y,
    {
        let mut node_x: Vec<u64> = Vec::new();
        gather_nodes(points, y, &mut node_x);
        let node_x = sort_nodes(node_x);
        let ghost pre = fb.buffer@;
        paint_node_spans(fb, &node_x, y);
        proof {
            let ww = old(fb).width as int;
            let hh = old(fb).height as int;
            let ff = old(fb).flip_y;
            let pix = color.spec_to_hex();
            assert(Seq::<u64>::empty() + scan_nodes(points@, y as int) =~= scan_nodes(
                points@,
                y as int,
            ));
            assert(node_x@ == scan_nodes(points@, y as int).sort_by(node_leq()));
            assert(fb.buffer@ == scanline_fill(pre, ww, hh, ff, scan_nodes(points@, y as int),
                y as int, pix));
            assert(fill_rows(fb.buffer@, ww, hh, ff, points@, y as int + 1, yhi as int, pix)
                == fill_rows(pre, ww, hh, ff, points@, y as int, yhi as int, pix));
        }
        y = y + 1;
    }
}

/// Fills the polygon `outer` with `color` while punching the hole `inner`:
/// one even-odd scanline sweep over both contours' pooled intercepts. Either
/// list having fewer than 3 points is a silent no-op.
pub fn fill_polygon_with_hole(
    fb: &mut Framebuffer,
    outer_points: &Vec<Vertex>,
    inner_points: &Vec<Vertex>,
    color: Color,
)
    requires
        old(fb).wf(),
    ensures
        final(fb).wf(),
        final(fb).width == old(fb).width,
        final(fb).height == old(fb).height,
        final(fb).flip_y == old(fb).flip_y,
        final(fb).background_color == old(fb).background_color,
        outer_points@.len() < 3 || inner_points@.len() < 3 ==> *final(fb) == *old(fb),
        outer_points@.len() >= 3 && inner_points@.len() >= 3 ==> final(fb).current_color
            == color,
        outer_points@.len() >= 3 && inner_points@.len() >= 3 ==> final(fb).buffer@
            == fill_rows_hole(
            old(fb).buffer@,
            old(fb).width as int,
            old(fb).height as int,
            old(fb).flip_y,
            outer_points@,
            inner_points@,
            clamp0(
                if min_y_of(outer_points@) <= min_y_of(inner_points@) {
                    min_y_of(outer_points@)
                } else {
                    min_y_of(inner_points@)
                },
            ),
            clamp0(
                if max_y_of(outer_points@) >= max_y_of(inner_points@) {
                    max_y_of(outer_points@)
                } else {
                    max_y_of(inner_points@)
                },
            ),
            color.spec_to_hex(),
        ),
{
    if outer_points.len() < 3 || inner_points.len() < 3 {
        return ;
    }
    let hex = color.to_hex();
    fb.set_current_color(hex);
    proof {
        crate::colors::lemma_color_hex_round_trip(color);
        assert(fb.current_color == color);
        lemma_min_le_max(outer_points@);
        lemma_min_le_max(inner_points@);
    }
    let miny_o = min_y_vert(outer_points);
    let miny_i = min_y_vert(inner_points);
    let maxy_o = max_y_vert(outer_points);
    let maxy_i = max_y_vert(inner_points);
    let miny = if miny_o <= miny_i {
        miny_o
    } else {
        miny_i
    };
    let maxy = if maxy_o >= maxy_i {
        maxy_o
    } else {
        maxy_i
    };
    let ylo: i64 = if miny < 0 {
        0
    } else {
        miny as i64
    };
    let yhi: i64 = if maxy < 0 {
        0
    } else {
        maxy as i64
    };
    let mut y: i64 = ylo;
    while y <= yhi
        invariant
            fb.wf(),
            fb.width == old(fb).width,
            fb.height == old(fb).height,
            fb.flip_y == old(fb).flip_y,
            fb.background_color == old(fb).background_color,
            fb.current_color == color,
            outer_points@.len() >= 3,
            inner_points@.len() >= 3,
            ylo as int == clamp0(
                if min_y_of(outer_points@) <= min_y_of(inner_points@) {
                    min_y_of(outer_points@)
                } else {
                    min_y_of(inner_points@)
                },
            ),
            yhi as int == clamp0(
                if max_y_of(outer_points@) >= max_y_of(inner_points@) {
                    max_y_of(outer_points@)
                } else {
                    max_y_of(inner_points@)
                },
            ),
            0 <= ylo <= yhi + 1,
            yhi <= 0x7FFF_FFFF,
            ylo <= y <= yhi + 1,
            fill_rows_hole(
                fb.buffer@,
                old(fb).width as int,
                old(fb).height as int,
                old(fb).flip_y,
                outer_points@,
                inner_points@,
                y as int,
                yhi as int,
                color.spec_to_hex(),
            ) == fill_rows_hole(
                old(fb).buffer@,
                old(fb).width as int,
                old(fb).height as int,
                old(fb).flip_y,
                outer_points@,
                inner_points@,
                ylo as int,
                yhi as int,
                color.spec_to_hex(),
            ),
        decreases yhi + 1 - y,
    {
        let mut node_x: Vec<u64> = Vec::new();
        gather_nodes(outer_points, y, &mut node_x);
        gather_nodes(inner_points, y, &mut node_x);
        let node_x = sort_nodes(node_x);
        let ghost pre = fb.buffer@;
        paint_node_spans(fb, &node_x, y);
        proof {
            let ww = old(fb).width as int;
            let hh = old(fb).height as int;
            let ff = old(fb).flip_y;
            let pix = color.spec_to_hex();
            let pooled = scan_nodes(outer_points@, y as int) + scan_nodes(
                inner_points@,
                y as int,
            );
            assert((Seq::<u64>::empty() + scan_nodes(outer_points@, y as int)) + scan_nodes(
                inner_points@,
                y as int,
            ) =~= pooled);
            assert(node_x@ == pooled.sort_by(node_leq()));
            assert(fb.buffer@ == scanline_fill(pre, ww, hh, ff, pooled, y as int, pix));
            assert(fill_rows_hole(fb.buffer@, ww, hh, ff, outer_points@, inner_points@,
                y as int + 1, yhi as int, pix) == fill_rows_hole(pre, ww, hh, ff, outer_points@,
                inner_points@, y as int, yhi as int, pix));
        }
        y = y + 1;
    }
}

/// Whether column `x` lies between some consecutive pair of `nodes`: within
/// `nodes[0] ..= nodes[1]`, or `nodes[2] ..= nodes[3]`, and so on.
pub open spec fn covered_by_pairs(nodes: Seq<u64>, x: int) -> bool {
    exists|i: int|
        #![trigger nodes[i]]
        0 <= i && i % 2 == 0 && i + 1 < nodes.len() && nodes[i] as int <= x && x <= nodes[i
            + 1] as int
}

proof fn lemma_paint_span_at(
    buf: Seq<u32>,
    w: int,
    h: int,
    flip: bool,
    y: int,
    x0: int,
    x1: int,
    pix: u32,
    px: int,
    py: int,
)
    requires
        buf.len() == w * h,
        w >= 1,
        h >= 1,
        0 <= px < w,
        0 <= py < h,
    ensures
        paint_span(buf, w, h, flip, y, x0, x1, pix).len() == buf.len(),
        paint_span(buf, w, h, flip, y, x0, x1, pix)[cell_index(w, h, flip, px, py)] == (if py
            == y && x0 <= px <= x1 {
            pix
        } else {
            buf[cell_index(w, h, flip, px, py)]
        }),
    decreases x1 - x0 + 1,
{
    if x1 < x0 {
    } else {
        lemma_paint_span_at(buf, w, h, flip, y, x0, x1 - 1, pix, px, py);
        let prev = paint_span(buf, w, h, flip, y, x0, x1 - 1, pix);
        if 0 <= x1 < w && 0 <= y < h {
            lemma_put_pixel_reads_back(prev, w, h, flip, x1, y, pix);
        }
    }
}

proof fn lemma_apply_spans_at(
    buf: Seq<u32>,
    w: int,
    h: int,
    flip: bool,
    nodes: Seq<u64>,
    y: int,
    pix: u32,
    px: int,
    py: int,
)
    requires
        buf.len() == w * h,
        w >= 1,
        h >= 1,
        0 <= px < w,
        0 <= py < h,
    ensures
        apply_spans(buf, w, h, flip, nodes, y, pix).len() == buf.len(),
        apply_spans(buf, w, h, flip, nodes, y, pix)[cell_index(w, h, flip, px, py)] == (if py
            == y && covered_by_pairs(nodes, px) {
            pix
        } else {
            buf[cell_index(w, h, flip, px, py)]
        }),
    decreases nodes.len(),
{
    let ci = cell_index(w, h, flip, px, py);
    if nodes.len() < 2 {
        assert(!covered_by_pairs(nodes, px));
    } else {
        let painted = paint_span(buf, w, h, flip, y, nodes[0] as int, nodes[1] as int, pix);
        lemma_paint_span_at(buf, w, h, flip, y, nodes[0] as int, nodes[1] as int, pix, px, py);
        lemma_apply_spans_at(painted, w, h, flip, nodes.skip(2), y, pix, px, py);
        let first = nodes[0] as int <= px <= nodes[1] as int;
        let rest = nodes.skip(2);
        if covered_by_pairs(nodes, px) && !first {
            let i = choose|i: int|
                #![trigger nodes[i]]
                0 <= i && i % 2 == 0 && i + 1 < nodes.len() && nodes[i] as int <= px && px
                    <= nodes[i + 1] as int;
            assert(i >= 2);
            assert(rest[i - 2] == nodes[i] && rest[i - 1] == nodes[i + 1]);
            assert(covered_by_pairs(rest, px));
        }
        if covered_by_pairs(rest, px) {
            let j = choose|j: int|
                #![trigger rest[j]]
                0 <= j && j % 2 == 0 && j + 1 < rest.len() && rest[j] as int <= px && px <= rest[j
                    + 1] as int;
            assert(nodes[j + 2] == rest[j] && nodes[j + 3] == rest[j + 1]);
            assert(covered_by_pairs(nodes, px));
        }
        if first {
            assert(covered_by_pairs(nodes, px)) by {
                assert(nodes[0int] as int <= px && px <= nodes[0int + 1] as int);
            }
        }
    }
}

/// Whether the even-odd fill of `pts` covers column `x` of scanline `y`:
/// whether `x` lies between some consecutive pair of the scanline's sorted
/// edge intercepts.
pub open spec fn row_covers(pts: Seq<Vertex>, y: int, x: int) -> bool {
    covered_by_pairs(scan_nodes(pts, y).sort_by(node_leq()), x)
}

/// The fill sweep, pixel by pixel: a cell of the surface is painted exactly
/// when its row lies in the swept range and the even-odd rule covers its
/// column there; every other cell keeps its value.
pub proof fn lemma_fill_rows_pixels(
    buf: Seq<u32>,
    w: int,
    h: int,
    flip: bool,
    pts: Seq<Vertex>,
    y0: int,
    y1: int,
    pix: u32,
    px: int,
    py: int,
)
    requires
        buf.len() == w * h,
        w >= 1,
        h >= 1,
        0 <= px < w,
        0 <= py < h,
    ensures
        fill_rows(buf, w, h, flip, pts, y0, y1, pix).len() == buf.len(),
        fill_rows(buf, w, h, flip, pts, y0, y1, pix)[cell_index(w, h, flip, px, py)] == (if y0
            <= py <= y1 && row_covers(pts, py, px) {
            pix
        } else {
            buf[cell_index(w, h, flip, px, py)]
        }),
    decreases y1 + 1 - y0,
{
    if y0 > y1 {
    } else {
        let sorted = scan_nodes(pts, y0).sort_by(node_leq());
        let row_done = scanline_fill(buf, w, h, flip, scan_nodes(pts, y0), y0, pix);
        lemma_apply_spans_at(buf, w, h, flip, sorted, y0, pix, px, py);
        lemma_fill_rows_pixels(row_done, w, h, flip, pts, y0 + 1, y1, pix, px, py);
    }
}

/// Whether the fill with a hole covers column `x` of scanline `y`: whether
/// `x` lies between some consecutive pair of the sorted pooled intercepts of
/// the outer polygon and of the hole.
pub open spec fn row_covers_hole(outer: Seq<Vertex>, inner: Seq<Vertex>, y: int, x: int) -> bool {
    covered_by_pairs((scan_nodes(outer, y) + scan_nodes(inner, y)).sort_by(node_leq()), x)
}

/// The fill-with-hole sweep, pixel by pixel: a cell of the surface is
/// painted exactly when its row lies in the swept range and the even-odd
/// rule over the pooled intercepts covers its column there; every other cell
/// keeps its value. A cell enclosed by both contours sits between an even
/// number of intercepts and is not covered.
pub proof fn lemma_fill_rows_hole_pixels(
    buf: Seq<u32>,
    w: int,
    h: int,
    flip: bool,
    outer: Seq<Vertex>,
    inner: Seq<Vertex>,
    y0: int,
    y1: int,
    pix: u32,
    px: int,
    py: int,
)
    requires
        buf.len() == w * h,
        w >= 1,
        h >= 1,
        0 <= px < w,
        0 <= py < h,
    ensures
        fill_rows_hole(buf, w, h, flip, outer, inner, y0, y1, pix).len() == buf.len(),
        fill_rows_hole(buf, w, h, flip, outer, inner, y0, y1, pix)[cell_index(
            w,
            h,
            flip,
            px,
            py,
        )] == (if y0 <= py <= y1 && row_covers_hole(outer, inner, py, px) {
            pix
        } else {
            buf[cell_index(w, h, flip, px, py)]
        }),
    decreases y1 + 1 - y0,
{
    if y0 > y1 {
    } else {
        let pooled = scan_nodes(outer, y0) + scan_nodes(inner, y0);
        let sorted = pooled.sort_by(node_leq());
        let row_done = scanline_fill(buf, w, h, flip, pooled, y0, pix);
        lemma_apply_spans_at(buf, w, h, flip, sorted, y0, pix, px, py);
        lemma_fill_rows_hole_pixels(row_done, w, h, flip, outer, inner, y0 + 1, y1, pix, px, py);
    }
}

/// Painting a cell list, pixel by pixel: a cell of the surface gets the
/// painted value exactly when the list visits it; every other cell keeps its
/// value. Listed cells outside the surface paint nothing.
pub proof fn lemma_paint_cells_pixels(
    buf: Seq<u32>,
    w: int,
    h: int,
    flip: bool,
    cells: Seq<(int, int)>,
    pix: u32,
    px: int,
    py: int,
)
    requires
        buf.len() == w * h,
        w >= 1,
        h >= 1,
        0 <= px < w,
        0 <= py < h,
    ensures
        paint_cells(buf, w, h, flip, cells, pix).len() == buf.len(),
        paint_cells(buf, w, h, flip, cells, pix)[cell_index(w, h, flip, px, py)] == (if cells.contains(
            (px, py),
        ) {
            pix
        } else {
            buf[cell_index(w, h, flip, px, py)]
        }),
    decreases cells.len(),
{
    if cells.len() == 0 {
    } else {
        lemma_paint_cells_pixels(buf, w, h, flip, cells.drop_last(), pix, px, py);
        let prev = paint_cells(buf, w, h, flip, cells.drop_last(), pix);
        let (cx, cy) = cells.last();
        if 0 <= cx < w && 0 <= cy < h {
            lemma_put_pixel_reads_back(prev, w, h, flip, cx, cy, pix);
        }
        if cells.last() == (px, py) {
            assert(cells.contains((px, py)));
        } else {
            if cells.contains((px, py)) {
                let i = choose|i: int| 0 <= i < cells.len() && cells[i] == (px, py);
                assert(i < cells.len() - 1);
                assert(cells.drop_last()[i] == (px, py));
                assert(cells.drop_last().contains((px, py)));
            }
            if cells.drop_last().contains((px, py)) {
                let i = choose|i: int|
                    0 <= i < cells.drop_last().len() && cells.drop_last()[i] == (px, py);
                assert(cells[i] == (px, py));
                assert(cells.contains((px, py)));
            }
        }
    }
}

} // verus!
