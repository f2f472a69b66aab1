use vstd::math::abs;
use vstd::prelude::*;

use crate::buffer::cell_in_bounds;
use crate::buffer::cell_index;
use crate::buffer::written;
use crate::buffer::GraphicBuffer;

verus! {

/// The sign of `v`: `1`, `-1` or `0`.
pub open spec fn sign(v: int) -> int {
    if v > 0 {
        1
    } else if v < 0 {
        -1
    } else {
        0
    }
}

/// The square of `v`.
pub open spec fn sq(v: int) -> int {
    v * v
}

/// The grid contents after the points of `pts` are written in order, each
/// with value `v` under the buffer's write semantics, out-of-bounds points
/// discarded.
pub open spec fn painted<Element: Copy, Buffer: GraphicBuffer<Element>>(
    s: Seq<Element>,
    w: int,
    h: int,
    pts: Seq<(int, int)>,
    v: Element,
) -> Seq<Element>
    decreases pts.len(),
{
    if pts.len() == 0 {
        s
    } else {
        painted::<Element, Buffer>(
            written::<Element, Buffer>(s, w, h, pts[0].0, pts[0].1, v),
            w,
            h,
            pts.skip(1),
            v,
        )
    }
}

/// Painting a sequence that starts with one point first writes that point,
/// then paints the rest.
pub proof fn lemma_painted_cons<Element: Copy, Buffer: GraphicBuffer<Element>>(
    s: Seq<Element>,
    w: int,
    h: int,
    p: (int, int),
    rest: Seq<(int, int)>,
    v: Element,
)
    ensures
        painted::<Element, Buffer>(s, w, h, seq![p] + rest, v) == painted::<Element, Buffer>(
            written::<Element, Buffer>(s, w, h, p.0, p.1, v),
            w,
            h,
            rest,
            v,
        ),
{
    let pts = seq![p] + rest;
    assert(pts[0] == p);
    assert(pts.skip(1) =~= rest);
}

/// Painting a concatenation paints the first part, then the second.
pub proof fn lemma_painted_concat<Element: Copy, Buffer: GraphicBuffer<Element>>(
    s: Seq<Element>,
    w: int,
    h: int,
    p1: Seq<(int, int)>,
    p2: Seq<(int, int)>,
    v: Element,
)
    ensures
        painted::<Element, Buffer>(s, w, h, p1 + p2, v) == painted::<Element, Buffer>(
            painted::<Element, Buffer>(s, w, h, p1, v),
            w,
            h,
            p2,
            v,
        ),
    decreases p1.len(),
{
    if p1.len() == 0 {
        assert(p1 + p2 =~= p2);
    } else {
        let s1 = written::<Element, Buffer>(s, w, h, p1[0].0, p1[0].1, v);
        assert((p1 + p2).skip(1) =~= p1.skip(1) + p2);
        lemma_painted_concat::<Element, Buffer>(s1, w, h, p1.skip(1), p2, v);
    }
}

/// A point that no painted sequence mentions keeps its value.
pub proof fn lemma_painted_untouched<Element: Copy, Buffer: GraphicBuffer<Element>>(
    s: Seq<Element>,
    w: int,
    h: int,
    pts: Seq<(int, int)>,
    v: Element,
    i: int,
    j: int,
)
    requires
        s.len() == w * h,
        cell_in_bounds(w, h, i, j),
        forall|k: int| 0 <= k < pts.len() ==> #[trigger] pts[k] != (i, j),
    ensures
        painted::<Element, Buffer>(s, w, h, pts, v)[cell_index(w, i, j)] == s[cell_index(w, i, j)],
    decreases pts.len(),
{
    crate::buffer::lemma_cell_index_bounds(w, h, i, j);
    if pts.len() > 0 {
        let s1 = written::<Element, Buffer>(s, w, h, pts[0].0, pts[0].1, v);
        if cell_in_bounds(w, h, pts[0].0, pts[0].1) {
            crate::buffer::lemma_cell_index_bounds(w, h, pts[0].0, pts[0].1);
            crate::buffer::lemma_cell_index_injective(w, h, i, j, pts[0].0, pts[0].1);
        }
        assert(s1[cell_index(w, i, j)] == s[cell_index(w, i, j)]);
        assert(s1.len() == s.len());
        assert(forall|k: int| 0 <= k < pts.skip(1).len() ==> #[trigger] pts.skip(1)[k] != (i, j));
        lemma_painted_untouched::<Element, Buffer>(s1, w, h, pts.skip(1), v, i, j);
    }
}

/// The points of the half-open horizontal span at row `y`, columns `x0`
/// (inclusive) to `x1` (exclusive), left to right.
pub open spec fn hspan_points(x0: int, x1: int, y: int) -> Seq<(int, int)>
    decreases x1 - x0,
{
    if x0 >= x1 {
        Seq::empty()
    } else {
        seq![(x0, y)] + hspan_points(x0 + 1, x1, y)
    }
}

/// The points of the half-open vertical span at column `x`, rows `y0`
/// (inclusive) to `y1` (exclusive), top to bottom.
pub open spec fn vspan_points(x: int, y0: int, y1: int) -> Seq<(int, int)>
    decreases y1 - y0,
{
    if y0 >= y1 {
        Seq::empty()
    } else {
        seq![(x, y0)] + vspan_points(x, y0 + 1, y1)
    }
}

/// A horizontal span holds exactly the cells of its row between its two
/// columns, in order.
pub proof fn lemma_hspan_points_spec(x0: int, x1: int, y: int)
    ensures
        hspan_points(x0, x1, y).len() == if x0 <= x1 {
            x1 - x0
        } else {
            0
        },
        forall|k: int|
            0 <= k < hspan_points(x0, x1, y).len() ==> #[trigger] hspan_points(x0, x1, y)[k] == (
            x0 + k,
            y,
        ),
    decreases x1 - x0,
{
    if x0 < x1 {
        lemma_hspan_points_spec(x0 + 1, x1, y);
        assert forall|k: int| 0 <= k < hspan_points(x0, x1, y).len() implies #[trigger] hspan_points(
            x0,
            x1,
            y,
        )[k] == (x0 + k, y) by {
            if k > 0 {
                assert(hspan_points(x0, x1, y)[k] == hspan_points(x0 + 1, x1, y)[k - 1]);
            }
        }
    }
}

/// A vertical span holds exactly the cells of its column between its two
/// rows, in order.
pub proof fn lemma_vspan_points_spec(x: int, y0: int, y1: int)
    ensures
        vspan_points(x, y0, y1).len() == if y0 <= y1 {
            y1 - y0
        } else {
            0
        },
        forall|k: int|
            0 <= k < vspan_points(x, y0, y1).len() ==> #[trigger] vspan_points(x, y0, y1)[k] == (
            x,
            y0 + k,
        ),
    decreases y1 - y0,
{
    if y0 < y1 {
        lemma_vspan_points_spec(x, y0 + 1, y1);
        assert forall|k: int| 0 <= k < vspan_points(x, y0, y1).len() implies #[trigger] vspan_points(
            x,
            y0,
            y1,
        )[k] == (x, y0 + k) by {
            if k > 0 {
                assert(vspan_points(x, y0, y1)[k] == vspan_points(x, y0 + 1, y1)[k - 1]);
            }
        }
    }
}

/// The positions visited by the incremental-error line walk standing at
/// `(px, py)` and aiming at `(x2, y2)`, with per-axis error weights `dx`
/// and `dy` and current error term `error`: the walk plots its current
/// position, then advances along either or both axes by comparing the
/// doubled error against the weights, and stops once the axis chosen for
/// advance has already reached its target. A step that would not move at
/// all also stops the walk; with weights `dx >= 0 >= dy` that never
/// happens.
pub open spec fn walk_points(
    px: int,
    py: int,
    x2: int,
    y2: int,
    dx: int,
    dy: int,
    error: int,
) -> Seq<(int, int)>
    decreases abs(x2 - px) + abs(y2 - py),
{
    let e2 = 2 * error;
    if e2 >= dy && px == x2 {
        seq![(px, py)]
    } else {
        let px1 = if e2 >= dy {
            px + sign(x2 - px)
        } else {
            px
        };
        let err1 = if e2 >= dy {
            error + dy
        } else {
            error
        };
        if e2 <= dx && py == y2 {
            seq![(px, py)]
        } else {
            let py1 = if e2 <= dx {
                py + sign(y2 - py)
            } else {
                py
            };
            let err2 = if e2 <= dx {
                err1 + dx
            } else {
                err1
            };
            if px1 == px && py1 == py {
                seq![(px, py)]
            } else {
                seq![(px, py)] + walk_points(px1, py1, x2, y2, dx, dy, err2)
            }
        }
    }
}

/// The `(relx, rely)` offsets visited by the midpoint circle walk: starting
/// from `(-r, 0)`, the walk visits its current offset, then moves `relx`
/// and/or `rely` one step by comparing the doubled error term against the
/// next per-axis error increments, and stops once `relx` passes zero.
pub open spec fn circle_steps(relx: int, rely: int, error: int) -> Seq<(int, int)>
    decreases
            1 - relx,
            (if error >= 1 {
                0int
            } else {
                1 - error
            }),
{
    if relx > 0 || rely < 0 {
        Seq::empty()
    } else {
        let e2 = 2 * error;
        let relx1 = if e2 >= 2 * relx + 1 {
            relx + 1
        } else {
            relx
        };
        let err1 = if e2 >= 2 * relx + 1 {
            error + 2 * (relx + 1) + 1
        } else {
            error
        };
        let rely1 = if e2 <= 2 * rely + 1 {
            rely + 1
        } else {
            rely
        };
        let err2 = if e2 <= 2 * rely + 1 {
            err1 + 2 * (rely + 1) + 1
        } else {
            err1
        };
        seq![(relx, rely)] + circle_steps(relx1, rely1, err2)
    }
}

/// The points plotted by a circle's perimeter walk around `(x, y)`: each
/// visited offset is mirrored into all four quadrants, in plot order.
pub open spec fn circle_points(x: int, y: int, steps: Seq<(int, int)>) -> Seq<(int, int)>
    decreases steps.len(),
{
    if steps.len() == 0 {
        Seq::empty()
    } else {
        let s = steps[0];
        seq![
            (x + s.0, y + s.1),
            (x - s.0, y + s.1),
            (x + s.0, y - s.1),
            (x - s.0, y - s.1),
        ] + circle_points(x, y, steps.skip(1))
    }
}

/// The points plotted by filling a circle around `(x, y)` with the midpoint
/// walk: whenever the walk moves down a scanline, the two horizontal spans
/// between the mirrored `relx` extents are drawn at the mirrored `rely`
/// rows.
pub open spec fn fill_circle_points(
    x: int,
    y: int,
    relx: int,
    rely: int,
    error: int,
) -> Seq<(int, int)>
    decreases
            1 - relx,
            (if error >= 1 {
                0int
            } else {
                1 - error
            }),
{
    if relx > 0 || rely < 0 {
        Seq::empty()
    } else {
        let e2 = 2 * error;
        let relx1 = if e2 >= 2 * relx + 1 {
            relx + 1
        } else {
            relx
        };
        let err1 = if e2 >= 2 * relx + 1 {
            error + 2 * (relx + 1) + 1
        } else {
            error
        };
        if e2 <= 2 * rely + 1 {
            line_points(x + relx1, y + rely, x - relx1, y + rely) + line_points(
                x + relx1,
                y - rely,
                x - relx1,
                y - rely,
            ) + fill_circle_points(x, y, relx1, rely + 1, err1 + 2 * (rely + 1) + 1)
        } else {
            fill_circle_points(x, y, relx1, rely, err1)
        }
    }
}

/// Peeling one step off a circle walk peels its four mirrored points off
/// the plotted sequence.
pub proof fn lemma_circle_points_cons(x: int, y: int, s: (int, int), rest: Seq<(int, int)>)
    ensures
        circle_points(x, y, seq![s] + rest) == seq![
            (x + s.0, y + s.1),
            (x - s.0, y + s.1),
            (x + s.0, y - s.1),
            (x - s.0, y - s.1),
        ] + circle_points(x, y, rest),
{
    let steps = seq![s] + rest;
    assert(steps[0] == s);
    assert(steps.skip(1) =~= rest);
}

/// Painting four points writes them one after the other.
pub proof fn lemma_painted_four<Element: Copy, Buffer: GraphicBuffer<Element>>(
    s: Seq<Element>,
    w: int,
    h: int,
    p1: (int, int),
    p2: (int, int),
    p3: (int, int),
    p4: (int, int),
    v: Element,
)
    ensures
        painted::<Element, Buffer>(s, w, h, seq![p1, p2, p3, p4], v) == written::<Element, Buffer>(
            written::<Element, Buffer>(
                written::<Element, Buffer>(
                    written::<Element, Buffer>(s, w, h, p1.0, p1.1, v),
                    w,
                    h,
                    p2.0,
                    p2.1,
                    v,
                ),
                w,
                h,
                p3.0,
                p3.1,
                v,
            ),
            w,
            h,
            p4.0,
            p4.1,
            v,
        ),
{
    let s1 = written::<Element, Buffer>(s, w, h, p1.0, p1.1, v);
    let s2 = written::<Element, Buffer>(s1, w, h, p2.0, p2.1, v);
    let s3 = written::<Element, Buffer>(s2, w, h, p3.0, p3.1, v);
    assert(seq![p1, p2, p3, p4] =~= seq![p1] + seq![p2, p3, p4]);
    lemma_painted_cons::<Element, Buffer>(s, w, h, p1, seq![p2, p3, p4], v);
    assert(seq![p2, p3, p4] =~= seq![p2] + seq![p3, p4]);
    lemma_painted_cons::<Element, Buffer>(s1, w, h, p2, seq![p3, p4], v);
    assert(seq![p3, p4] =~= seq![p3] + seq![p4]);
    lemma_painted_cons::<Element, Buffer>(s2, w, h, p3, seq![p4], v);
    assert(seq![p4] =~= seq![p4] + Seq::<(int, int)>::empty());
    lemma_painted_cons::<Element, Buffer>(s3, w, h, p4, Seq::empty(), v);
}

/// The square of the successor.
pub proof fn lemma_sq_succ(v: int)
    ensures
        sq(v + 1) == sq(v) + 2 * v + 1,
{
    assert((v + 1) * (v + 1) == v * v + 2 * v + 1) by (nonlinear_arith);
}

/// The error term of the midpoint circle walk stays within a safe machine
/// range while the walk's offsets stay within the radius.
pub proof fn lemma_circle_error_bounds(relx: int, rely: int, r: int, error: int)
    requires
        0 <= r <= 0x2000_0000,
        -r <= relx <= 1,
        0 <= rely <= r + 1,
        error == sq(relx + 1) + sq(rely + 1) - sq(r),
    ensures
        -0x1000_0000_0000_0000 <= error <= 0x1000_0000_0000_0000,
{
    assert(0 <= sq(relx + 1) <= sq(r + 2) && 0 <= sq(rely + 1) <= sq(r + 2) && 0 <= sq(r) <= sq(
        r + 2,
    ) && sq(r + 2) <= 0x0800_0000_0000_0000) by (nonlinear_arith)
        requires
            0 <= r <= 0x2000_0000,
            -r <= relx <= 1,
            0 <= rely <= r + 1,
    ;
}

/// Once `rely` has passed the radius, the walk's error term is too large
/// for another scanline step.
pub proof fn lemma_circle_rely_capped(relx: int, rely: int, r: int, error: int)
    requires
        0 <= r,
        -r <= relx <= 1,
        rely == r + 1,
        error == sq(relx + 1) + sq(rely + 1) - sq(r),
    ensures
        2 * error > 2 * rely + 1,
{
    assert(sq(relx + 1) >= 0 && sq(r + 2) - sq(r) == 4 * r + 4) by (nonlinear_arith);
}

/// The points plotted by drawing a line from `(x, y)` to `(x2, y2)`: an
/// axis-aligned line is the half-open span along the varying axis, and any
/// other line is the incremental-error walk seeded with the line's axis
/// differences.
pub open spec fn line_points(x: int, y: int, x2: int, y2: int) -> Seq<(int, int)> {
    if x == x2 {
        vspan_points(x, y, y2)
    } else if y == y2 {
        hspan_points(x, x2, y)
    } else {
        walk_points(
            x,
            y,
            x2,
            y2,
            abs(x2 - x) as int,
            -(abs(y2 - y) as int),
            abs(x2 - x) - abs(y2 - y),
        )
    }
}

/// A horizontal line stays on its row: the points of a line whose endpoints
/// share a row are exactly the cells of that row whose columns span the
/// half-open range between the two endpoint columns, with no vertical
/// deviation.
pub proof fn lemma_horizontal_line(x: int, y: int, x2: int)
    ensures
        line_points(x, y, x2, y).len() == if x <= x2 {
            x2 - x
        } else {
            0
        },
        forall|k: int|
            0 <= k < line_points(x, y, x2, y).len() ==> #[trigger] line_points(x, y, x2, y)[k] == (
            x + k,
            y,
        ),
{
    if x == x2 {
        lemma_vspan_points_spec(x, y, y);
    } else {
        lemma_hspan_points_spec(x, x2, y);
    }
}

/// The incremental-error walk starts at its current position and moves at
/// most one cell along each axis between consecutive plotted points: the
/// plotted line is 8-connected.
pub proof fn lemma_walk_points_adjacent(
    px: int,
    py: int,
    x2: int,
    y2: int,
    dx: int,
    dy: int,
    error: int,
)
    ensures
        walk_points(px, py, x2, y2, dx, dy, error).len() >= 1,
        walk_points(px, py, x2, y2, dx, dy, error)[0] == (px, py),
        forall|k: int|
            0 <= k < walk_points(px, py, x2, y2, dx, dy, error).len() - 1 ==> abs(
                walk_points(px, py, x2, y2, dx, dy, error)[k + 1].0 - #[trigger] walk_points(
                    px,
                    py,
                    x2,
                    y2,
                    dx,
                    dy,
                    error,
                )[k].0,
            ) <= 1 && abs(
                walk_points(px, py, x2, y2, dx, dy, error)[k + 1].1 - walk_points(
                    px,
                    py,
                    x2,
                    y2,
                    dx,
                    dy,
                    error,
                )[k].1,
            ) <= 1,
    decreases abs(x2 - px) + abs(y2 - py),
{
    let pts = walk_points(px, py, x2, y2, dx, dy, error);
    let e2 = 2 * error;
    if e2 >= dy && px == x2 {
    } else {
        let px1 = if e2 >= dy {
            px + sign(x2 - px)
        } else {
            px
        };
        let err1 = if e2 >= dy {
            error + dy
        } else {
            error
        };
        if e2 <= dx && py == y2 {
        } else {
            let py1 = if e2 <= dx {
                py + sign(y2 - py)
            } else {
                py
            };
            let err2 = if e2 <= dx {
                err1 + dx
            } else {
                err1
            };
            if px1 == px && py1 == py {
            } else {
                let rest = walk_points(px1, py1, x2, y2, dx, dy, err2);
                lemma_walk_points_adjacent(px1, py1, x2, y2, dx, dy, err2);
                assert forall|k: int| 0 <= k < pts.len() - 1 implies {
                    abs(pts[k + 1].0 - #[trigger] pts[k].0) <= 1 && abs(pts[k + 1].1 - pts[k].1)
                        <= 1
                } by {
                    if k == 0 {
                        assert(pts[0] == (px, py));
                        assert(pts[1] == rest[0]);
                        assert(rest[0] == (px1, py1));
                    } else {
                        assert(pts[k] == rest[k - 1]);
                        assert(pts[k + 1] == rest[k]);
                        assert(abs(rest[k].0 - rest[k - 1].0) <= 1 && abs(rest[k].1 - rest[k
                            - 1].1) <= 1);
                    }
                }
            }
        }
    }
}

/// The incremental-error walk never leaves the bounding box of its current
/// position and its target.
pub proof fn lemma_walk_points_in_box(
    px: int,
    py: int,
    x2: int,
    y2: int,
    dx: int,
    dy: int,
    error: int,
)
    ensures
        forall|k: int|
            0 <= k < walk_points(px, py, x2, y2, dx, dy, error).len() ==> ((px <= #[trigger]
            walk_points(px, py, x2, y2, dx, dy, error)[k].0 <= x2 || x2 <= walk_points(
                px,
                py,
                x2,
                y2,
                dx,
                dy,
                error,
            )[k].0 <= px) && (py <= walk_points(px, py, x2, y2, dx, dy, error)[k].1 <= y2 || y2
                <= walk_points(px, py, x2, y2, dx, dy, error)[k].1 <= py)),
    decreases abs(x2 - px) + abs(y2 - py),
{
    let pts = walk_points(px, py, x2, y2, dx, dy, error);
    let e2 = 2 * error;
    if e2 >= dy && px == x2 {
    } else {
        let px1 = if e2 >= dy {
            px + sign(x2 - px)
        } else {
            px
        };
        let err1 = if e2 >= dy {
            error + dy
        } else {
            error
        };
        if e2 <= dx && py == y2 {
        } else {
            let py1 = if e2 <= dx {
                py + sign(y2 - py)
            } else {
                py
            };
            let err2 = if e2 <= dx {
                err1 + dx
            } else {
                err1
            };
            if px1 == px && py1 == py {
            } else {
                let rest = walk_points(px1, py1, x2, y2, dx, dy, err2);
                lemma_walk_points_in_box(px1, py1, x2, y2, dx, dy, err2);
                assert forall|k: int| 0 <= k < pts.len() implies {
                    let p = #[trigger] pts[k];
                    (px <= p.0 <= x2 || x2 <= p.0 <= px) && (py <= p.1 <= y2 || y2 <= p.1 <= py)
                } by {
                    if k > 0 {
                        assert(pts[k] == rest[k - 1]);
                    }
                }
            }
        }
    }
}

/// A line's plotted points are 8-connected: consecutive points differ by at
/// most one cell along each axis.
pub proof fn lemma_line_points_connected(x: int, y: int, x2: int, y2: int)
    ensures
        forall|k: int|
            0 <= k < line_points(x, y, x2, y2).len() - 1 ==> abs(
                line_points(x, y, x2, y2)[k + 1].0 - #[trigger] line_points(x, y, x2, y2)[k].0,
            ) <= 1 && abs(
                line_points(x, y, x2, y2)[k + 1].1 - line_points(x, y, x2, y2)[k].1,
            ) <= 1,
{
    if x == x2 {
        lemma_vspan_points_spec(x, y, y2);
    } else if y == y2 {
        lemma_hspan_points_spec(x, x2, y);
    } else {
        lemma_walk_points_adjacent(
            x,
            y,
            x2,
            y2,
            abs(x2 - x) as int,
            -(abs(y2 - y) as int),
            abs(x2 - x) - abs(y2 - y),
        );
    }
}

/// A horizontal line changes nothing outside its span: painting the points
/// of a line whose endpoints share a row leaves every cell off that row, and
/// every cell of the row outside the spanned columns, unchanged.
pub proof fn lemma_horizontal_line_untouched<Element: Copy, Buffer: GraphicBuffer<Element>>(
    s: Seq<Element>,
    w: int,
    h: int,
    x: int,
    y: int,
    x2: int,
    v: Element,
    i: int,
    j: int,
)
    requires
        s.len() == w * h,
        cell_in_bounds(w, h, i, j),
        !(j == y && x <= i < x2),
    ensures
        painted::<Element, Buffer>(s, w, h, line_points(x, y, x2, y), v)[cell_index(w, i, j)]
            == s[cell_index(w, i, j)],
{
    lemma_horizontal_line(x, y, x2);
    lemma_painted_untouched::<Element, Buffer>(s, w, h, line_points(x, y, x2, y), v, i, j);
}

/// A zero-radius circle walk terminates at once and plots only the center,
/// once for each quadrant mirror.
pub proof fn lemma_circle_degenerate(x: int, y: int)
    ensures
        circle_points(x, y, circle_steps(0, 0, 2)) == seq![(x, y), (x, y), (x, y), (x, y)],
{
    assert(circle_steps(1, 0, 5) == Seq::<(int, int)>::empty());
    assert(circle_steps(0, 0, 2) == seq![(0int, 0int)] + circle_steps(1, 0, 5));
    lemma_circle_points_cons(x, y, (0int, 0int), Seq::empty());
    assert(seq![(0int, 0int)] + Seq::<(int, int)>::empty() =~= seq![(0int, 0int)]);
    assert(circle_points(x, y, Seq::empty()) == Seq::<(int, int)>::empty());
    assert(circle_points(x, y, seq![(0int, 0int)]) =~= seq![(x, y), (x, y), (x, y), (x, y)]);
}

/// Along a midpoint circle walk whose error term satisfies the walk's
/// quadratic invariant, every visited offset keeps `relx` between the
/// leftmost extent and zero, and `rely` within one step past the radius.
pub proof fn lemma_circle_steps_bounded(relx: int, rely: int, r: int, error: int)
    requires
        0 <= r,
        -r <= relx <= 1,
        0 <= rely <= r + 1,
        error == sq(relx + 1) + sq(rely + 1) - sq(r),
    ensures
        forall|k: int|
            0 <= k < circle_steps(relx, rely, error).len() ==> -r <= (#[trigger] circle_steps(
                relx,
                rely,
                error,
            )[k]).0 <= 0 && 0 <= circle_steps(relx, rely, error)[k].1 <= r + 1,
    decreases
            1 - relx,
            (if error >= 1 {
                0int
            } else {
                1 - error
            }),
{
    if relx > 0 || rely < 0 {
    } else {
        let steps = circle_steps(relx, rely, error);
        let e2 = 2 * error;
        let relx1 = if e2 >= 2 * relx + 1 {
            relx + 1
        } else {
            relx
        };
        let err1 = if e2 >= 2 * relx + 1 {
            error + 2 * (relx + 1) + 1
        } else {
            error
        };
        let rely1 = if e2 <= 2 * rely + 1 {
            rely + 1
        } else {
            rely
        };
        let err2 = if e2 <= 2 * rely + 1 {
            err1 + 2 * (rely + 1) + 1
        } else {
            err1
        };
        if rely == r + 1 {
            lemma_circle_rely_capped(relx, rely, r, error);
        }
        lemma_sq_succ(relx + 1);
        lemma_sq_succ(rely + 1);
        lemma_circle_steps_bounded(relx1, rely1, r, err2);
        let rest = circle_steps(relx1, rely1, err2);
        assert forall|k: int| 0 <= k < steps.len() implies -r <= (#[trigger] steps[k]).0 <= 0 && 0
            <= steps[k].1 <= r + 1 by {
            if k > 0 {
                assert(steps[k] == rest[k - 1]);
                assert(-r <= rest[k - 1].0 <= 0 && 0 <= rest[k - 1].1 <= r + 1);
            }
        }
    }
}

/// The mirrored plot of a walk whose offsets stay within the given bounds
/// stays within the correspondingly mirrored box around the center.
pub proof fn lemma_circle_points_bounded(
    x: int,
    y: int,
    steps: Seq<(int, int)>,
    bx: int,
    by: int,
    p: (int, int),
)
    requires
        forall|k: int|
            0 <= k < steps.len() ==> -bx <= (#[trigger] steps[k]).0 <= bx && -by <= steps[k].1
                <= by,
        circle_points(x, y, steps).contains(p),
    ensures
        x - bx <= p.0 <= x + bx,
        y - by <= p.1 <= y + by,
    decreases steps.len(),
{
    let pts = circle_points(x, y, steps);
    let s = steps[0];
    let rest = circle_points(x, y, steps.skip(1));
    let k = choose|k: int| 0 <= k < pts.len() && pts[k] == p;
    if k < 4 {
        assert(-bx <= s.0 <= bx && -by <= s.1 <= by);
        assert(pts[0] == (x + s.0, y + s.1));
        assert(pts[1] == (x - s.0, y + s.1));
        assert(pts[2] == (x + s.0, y - s.1));
        assert(pts[3] == (x - s.0, y - s.1));
    } else {
        assert(pts[k] == rest[k - 4]);
        assert(rest.contains(p));
        lemma_circle_points_bounded(x, y, steps.skip(1), bx, by, p);
    }
}

/// Every point plotted by a circle's perimeter walk of radius `r` lies
/// within one step of the circle's bounding square around the center.
pub proof fn lemma_circle_points_near_center(x: int, y: int, r: int, p: (int, int))
    requires
        0 <= r,
        circle_points(x, y, circle_steps(-r, 0, -2 * r + 2)).contains(p),
    ensures
        x - r - 1 <= p.0 <= x + r + 1,
        y - r - 1 <= p.1 <= y + r + 1,
{
    assert(sq(1 - r) + sq(1) - sq(r) == -2 * r + 2) by (nonlinear_arith);
    lemma_circle_steps_bounded(-r, 0, r, -2 * r + 2);
    lemma_circle_points_bounded(x, y, circle_steps(-r, 0, -2 * r + 2), r + 1, r + 1, p);
}

/// Four-fold mirror symmetry of the circle walk: every plotted point
/// appears together with its three mirrors across the circle's center
/// axes.
pub proof fn lemma_circle_points_symmetric(x: int, y: int, steps: Seq<(int, int)>, p: (int, int))
    requires
        circle_points(x, y, steps).contains(p),
    ensures
        circle_points(x, y, steps).contains((2 * x - p.0, p.1)),
        circle_points(x, y, steps).contains((p.0, 2 * y - p.1)),
        circle_points(x, y, steps).contains((2 * x - p.0, 2 * y - p.1)),
    decreases steps.len(),
{
    let pts = circle_points(x, y, steps);
    let s = steps[0];
    let head = seq![(x + s.0, y + s.1), (x - s.0, y + s.1), (x + s.0, y - s.1), (x - s.0, y - s.1)];
    let rest = circle_points(x, y, steps.skip(1));
    let k = choose|k: int| 0 <= k < pts.len() && pts[k] == p;
    assert(pts == head + rest);
    if k < 4 {
        assert(pts[0] == (x + s.0, y + s.1));
        assert(pts[1] == (x - s.0, y + s.1));
        assert(pts[2] == (x + s.0, y - s.1));
        assert(pts[3] == (x - s.0, y - s.1));
    } else {
        assert(rest[k - 4] == p);
        assert(rest.contains(p));
        lemma_circle_points_symmetric(x, y, steps.skip(1), p);
        let m1 = (2 * x - p.0, p.1);
        let m2 = (p.0, 2 * y - p.1);
        let m3 = (2 * x - p.0, 2 * y - p.1);
        let j1 = choose|j: int| 0 <= j < rest.len() && rest[j] == m1;
        assert(pts[j1 + 4] == m1);
        let j2 = choose|j: int| 0 <= j < rest.len() && rest[j] == m2;
        assert(pts[j2 + 4] == m2);
        let j3 = choose|j: int| 0 <= j < rest.len() && rest[j] == m3;
        assert(pts[j3 + 4] == m3);
    }
}

} // verus!
