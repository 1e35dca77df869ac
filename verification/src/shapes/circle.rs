use crate::shapes::circumference::{
    circ_done, circ_near, circ_step, circ_step_ok, circ_wf, lemma_circ_near_step, lemma_circ_point_near,
    lemma_circ_wf_step, Circumference,
};
use crate::shapes::line::{lemma_signed16, signed16};
use vstd::prelude::*;

verus! {

/// The points of a filled circle around (x0, y0), row by row: for each point (dx, dy) of the
/// circumference walk, the four rows at `y0 + dy`, `y0 - dy`, `y0 + dx` and `y0 - dx`, each
/// from its left end to its right end.
pub struct Circle {
    x0: u16,
    y0: u16,
    octant: u8,
    dx: u16,
    dy: u16,
    y: u16,
    start: u16,
    end: u16,
    circumference: Circumference,
}

/// What a circle's state holds: the centre, which of the four rows of the current walk point
/// is being drawn, the walk point, the current row, the part of the row not yet handed out,
/// and the walk.
pub struct CircleView {
    pub x0: u16,
    pub y0: u16,
    pub octant: u8,
    pub dx: u16,
    pub dy: u16,
    pub y: u16,
    pub start: u16,
    pub end: u16,
    pub circ: (u16, u16, u16),
}

impl View for Circle {
    type V = CircleView;

    closed spec fn view(&self) -> CircleView {
        CircleView {
            x0: self.x0,
            y0: self.y0,
            octant: self.octant,
            dx: self.dx,
            dy: self.dy,
            y: self.y,
            start: self.start,
            end: self.end,
            circ: self.circumference@,
        }
    }
}

/// One step can be taken without leaving the `u16` range.
pub open spec fn circle_step_ok(s: CircleView) -> bool {
    if s.start < s.end {
        true
    } else if s.octant < 3 {
        let o = s.octant + 1;
        if o == 1 {
            s.dx <= s.x0 && s.x0 + s.dx <= 0xffff && s.dy <= s.y0
        } else if o == 2 {
            s.dy <= s.x0 && s.x0 + s.dy <= 0xffff && s.y0 + s.dx <= 0xffff
        } else {
            s.dy <= s.x0 && s.x0 + s.dy <= 0xffff && s.dx <= s.y0
        }
    } else {
        !circ_done(s.circ) ==> {
            &&& circ_step_ok(s.circ)
            &&& s.circ.0 <= s.x0
            &&& s.x0 + s.circ.0 <= 0xffff
            &&& s.y0 + s.circ.1 <= 0xffff
        }
    }
}

/// One step: the point handed out (if any) and the state after it. Within a row the next
/// cell is handed out; at a row's end the next of the four rows starts with its right end;
/// after the fourth row the walk gives the next point, whose row at `y0 + dy` starts.
pub open spec fn circle_step(s: CircleView) -> (Option<(u16, u16)>, CircleView) {
    if s.start < s.end {
        (Some((s.start, s.y)), CircleView { start: (s.start + 1) as u16, ..s })
    } else if s.octant < 3 {
        let o = (s.octant + 1) as u8;
        if o == 1 {
            let y = (s.y0 - s.dy) as u16;
            (
                Some(((s.x0 + s.dx) as u16, y)),
                CircleView {
                    octant: o,
                    start: (s.x0 - s.dx) as u16,
                    end: (s.x0 + s.dx) as u16,
                    y,
                    ..s
                },
            )
        } else if o == 2 {
            let y = (s.y0 + s.dx) as u16;
            (
                Some(((s.x0 + s.dy) as u16, y)),
                CircleView {
                    octant: o,
                    start: (s.x0 - s.dy) as u16,
                    end: (s.x0 + s.dy) as u16,
                    y,
                    ..s
                },
            )
        } else {
            let y = (s.y0 - s.dx) as u16;
            (
                Some(((s.x0 + s.dy) as u16, y)),
                CircleView {
                    octant: o,
                    start: (s.x0 - s.dy) as u16,
                    end: (s.x0 + s.dy) as u16,
                    y,
                    ..s
                },
            )
        }
    } else if !circ_done(s.circ) {
        let dx = s.circ.0;
        let dy = s.circ.1;
        let y = (s.y0 + dy) as u16;
        (
            Some(((s.x0 + dx) as u16, y)),
            CircleView {
                octant: 0,
                dx,
                dy,
                start: (s.x0 - dx) as u16,
                end: (s.x0 + dx) as u16,
                y,
                circ: circ_step(s.circ),
                ..s
            },
        )
    } else {
        (None, s)
    }
}

/// The largest offset from the centre that stays in the `u16` range on every side.
pub open spec fn reach(x0: u16, y0: u16) -> int {
    let a = if x0 <= 0xffff - x0 { x0 as int } else { 0xffff - x0 };
    let b = if y0 <= 0xffff - y0 { y0 as int } else { 0xffff - y0 };
    if a <= b { a } else { b }
}

/// A state from which the circle is drawn to its end without leaving the `u16` range: the
/// walk is well formed, and the current and the coming walk points stay within reach.
pub open spec fn circle_wf(s: CircleView) -> bool {
    &&& circ_wf(s.circ)
    &&& s.dx <= reach(s.x0, s.y0)
    &&& s.dy <= reach(s.x0, s.y0)
    &&& !circ_done(s.circ) ==> s.circ.0 <= reach(s.x0, s.y0)
}

/// Every step from a well-formed state can be taken and leads to a well-formed state.
pub proof fn lemma_circle_wf_step(s: CircleView)
    requires
        circle_wf(s),
    ensures
        circle_step_ok(s),
        circle_wf(circle_step(s).1),
{
    if !(s.start < s.end) && !(s.octant < 3) && !circ_done(s.circ) {
        lemma_circ_wf_step(s.circ);
    }
}

/// How many more steps the walk takes: none once it is over, else `x - y + 1`.
pub open spec fn circ_measure(c: (u16, u16, u16)) -> nat {
    if circ_done(c) {
        0
    } else {
        (c.0 - c.1 + 1) as nat
    }
}

/// How many of the four rows of the current walk point are still to start.
pub open spec fn octant_left(s: CircleView) -> nat {
    if s.octant < 3 {
        (3 - s.octant) as nat
    } else {
        0
    }
}

/// How many cells of the current row are still to come.
pub open spec fn row_left(s: CircleView) -> nat {
    if s.start < s.end {
        (s.end - s.start) as nat
    } else {
        0
    }
}

/// Each step from a well-formed state that hands out a point brings the circle closer to its
/// end: the walk shortens, or else fewer rows remain, or else fewer cells of the row.
pub proof fn lemma_circle_progress(s: CircleView)
    requires
        circle_wf(s),
        circle_step(s).0 is Some,
    ensures
        ({
            let t = circle_step(s).1;
            ||| circ_measure(t.circ) < circ_measure(s.circ)
            ||| circ_measure(t.circ) == circ_measure(s.circ) && octant_left(t) < octant_left(s)
            ||| circ_measure(t.circ) == circ_measure(s.circ) && octant_left(t) == octant_left(s)
                && row_left(t) < row_left(s)
        }),
{
    if !(s.start < s.end) && !(s.octant < 3) {
        lemma_circ_wf_step(s.circ);
    }
}

/// The points that the circle hands out from the state `s` on, in order.
pub open spec fn circle_points(s: CircleView) -> Seq<(u16, u16)>
    decreases circ_measure(s.circ), octant_left(s), row_left(s),
    when circle_wf(s)
{
    match circle_step(s) {
        (Some(p), t) => {
            proof {
                lemma_circle_progress(s);
            }
            seq![p] + circle_points(t)
        },
        (None, _) => Seq::empty(),
    }
}

/// The point `p` lies within `r` of `(x0, y0)` on each axis.
pub open spec fn in_square(p: (u16, u16), x0: u16, y0: u16, r: int) -> bool {
    &&& x0 - r <= p.0 <= x0 + r
    &&& y0 - r <= p.1 <= y0 + r
}

/// Every point the state `s` can still hand out lies within `r` of the centre on each axis:
/// the walk point so far and the coming ones are within `r`, and so is the row under way.
pub open spec fn circle_within(s: CircleView, r: int) -> bool {
    &&& s.dx <= r
    &&& s.dy <= r
    &&& !circ_done(s.circ) ==> s.circ.0 <= r
    &&& s.start < s.end ==> s.x0 - r <= s.start && s.end <= s.x0 + r && s.y0 - r <= s.y <= s.y0 + r
}

/// A circle of radius `r` stays in the square of side `2 r` around its centre: from a
/// well-formed state within `r`, every point handed out is within `r` of the centre on each
/// axis.
pub proof fn lemma_circle_in_square(s: CircleView, r: int)
    requires
        circle_wf(s),
        circle_within(s, r),
    ensures
        forall|i: int| 0 <= i < circle_points(s).len() ==> in_square(#[trigger] circle_points(s)[i], s.x0, s.y0, r),
    decreases circ_measure(s.circ), octant_left(s), row_left(s),
{
    lemma_circle_wf_step(s);
    match circle_step(s) {
        (Some(p), t) => {
            lemma_circle_progress(s);
            if !(s.start < s.end) && !(s.octant < 3) {
                lemma_circ_wf_step(s.circ);
            }
            assert(in_square(p, s.x0, s.y0, r));
            assert(circle_within(t, r));
            lemma_circle_in_square(t, r);
            assert(circle_points(s) == seq![p] + circle_points(t));
            assert forall|i: int| 0 <= i < circle_points(s).len() implies in_square(
                #[trigger] circle_points(s)[i],
                s.x0,
                s.y0,
                r,
            ) by {
                if i > 0 {
                    assert(circle_points(s)[i] == circle_points(t)[i - 1]);
                }
            }
        },
        (None, _) => {},
    }
}

/// The points of a new circle of radius `r` all lie within `r` of its centre on each axis.
pub proof fn lemma_new_circle_in_square(x0: u16, y0: u16, r: u16)
    requires
        r <= reach(x0, y0),
    ensures
        ({
            let s = CircleView {
                x0,
                y0,
                octant: 255,
                dx: 0,
                dy: 0,
                y: 0,
                start: 1,
                end: 0,
                circ: (r, 0u16, r / 16),
            };
            forall|i: int| 0 <= i < circle_points(s).len() ==> in_square(#[trigger] circle_points(s)[i], x0, y0, r as int)
        }),
{
    let s = CircleView {
        x0,
        y0,
        octant: 255,
        dx: 0,
        dy: 0,
        y: 0,
        start: 1,
        end: 0,
        circ: (r, 0u16, r / 16),
    };
    lemma_circle_in_square(s, r as int);
}

/// The point `p` lies strictly inside the circle of radius `r + 1` around `(x0, y0)`.
pub open spec fn in_disk(p: (u16, u16), x0: u16, y0: u16, r: u16) -> bool {
    (p.0 - x0) * (p.0 - x0) + (p.1 - y0) * (p.1 - y0) < (r + 1) * (r + 1)
}

/// Every point the state `s` can still hand out lies strictly inside the circle of radius
/// `r + 1`: the walk keeps close to the circle of radius `r`, the walk point so far is inside,
/// and the row under way reaches no farther from the centre than its right end, which is
/// inside.
pub open spec fn circle_near(s: CircleView, r: u16) -> bool {
    &&& circ_near(s.circ, r)
    &&& s.dx * s.dx + s.dy * s.dy < (r + 1) * (r + 1)
    &&& s.start < s.end ==> {
        &&& s.x0 <= s.end
        &&& 2 * s.x0 - s.end <= s.start
        &&& (s.end - s.x0) * (s.end - s.x0) + (s.y - s.y0) * (s.y - s.y0) < (r + 1) * (r + 1)
    }
}

/// A circle of radius `r` stays inside the circle of radius `r + 1` around its centre: from a
/// well-formed state that keeps close to the circle of radius `r`, every point handed out is
/// at a distance below `r + 1` from the centre.
pub proof fn lemma_circle_in_disk(s: CircleView, r: u16)
    requires
        circle_wf(s),
        circle_near(s, r),
    ensures
        forall|i: int| 0 <= i < circle_points(s).len() ==> in_disk(#[trigger] circle_points(s)[i], s.x0, s.y0, r),
    decreases circ_measure(s.circ), octant_left(s), row_left(s),
{
    lemma_circle_wf_step(s);
    match circle_step(s) {
        (Some(p), t) => {
            lemma_circle_progress(s);
            let dx = s.dx as int;
            let dy = s.dy as int;
            if s.start < s.end {
                let d = s.start - s.x0;
                let e = s.end - s.x0;
                assert(d * d <= e * e) by (nonlinear_arith)
                    requires
                        -e <= d,
                        d < e,
                ;
            } else if s.octant < 3 {
                assert((-dx) * (-dx) == dx * dx && (-dy) * (-dy) == dy * dy) by (nonlinear_arith);
            } else if !circ_done(s.circ) {
                lemma_circ_wf_step(s.circ);
                lemma_circ_point_near(s.circ, r);
                lemma_circ_near_step(s.circ, r);
            }
            assert(in_disk(p, s.x0, s.y0, r));
            assert(circle_near(t, r));
            lemma_circle_in_disk(t, r);
            assert(circle_points(s) == seq![p] + circle_points(t));
            assert forall|i: int| 0 <= i < circle_points(s).len() implies in_disk(
                #[trigger] circle_points(s)[i],
                s.x0,
                s.y0,
                r,
            ) by {
                if i > 0 {
                    assert(circle_points(s)[i] == circle_points(t)[i - 1]);
                }
            }
        },
        (None, _) => {},
    }
}

/// The points of a new circle of radius `r` all lie strictly inside the circle of radius
/// `r + 1` around its centre.
pub proof fn lemma_new_circle_in_disk(x0: u16, y0: u16, r: u16)
    requires
        r <= reach(x0, y0),
    ensures
        ({
            let s = CircleView {
                x0,
                y0,
                octant: 255,
                dx: 0,
                dy: 0,
                y: 0,
                start: 1,
                end: 0,
                circ: (r, 0u16, r / 16),
            };
            forall|i: int| 0 <= i < circle_points(s).len() ==> in_disk(#[trigger] circle_points(s)[i], x0, y0, r)
        }),
{
    let s = CircleView {
        x0,
        y0,
        octant: 255,
        dx: 0,
        dy: 0,
        y: 0,
        start: 1,
        end: 0,
        circ: (r, 0u16, r / 16),
    };
    assert(signed16(r) == r);
    assert(0 * 0 + 0 * 0 < (r + 1) * (r + 1)) by (nonlinear_arith);
    lemma_circle_in_disk(s, r);
}

/// The rest of a row: from a state in the middle of a row, the circle hands out each cell of
/// the row still to come, and then everything it would hand out from the row's end.
proof fn lemma_row_rest(s: CircleView, q: (u16, u16), p: int)
    requires
        circle_wf(s),
        s.start < s.end,
    ensures
        s.start <= p < s.end ==> circle_points(s).contains((p as u16, s.y)),
        circle_points(CircleView { start: s.end, ..s }).contains(q) ==> circle_points(s).contains(q),
    decreases row_left(s),
{
    lemma_circle_wf_step(s);
    lemma_circle_progress(s);
    let t = circle_step(s).1;
    let p0 = (s.start, s.y);
    assert(circle_points(s) == seq![p0] + circle_points(t));
    assert(circle_points(s)[0] == p0);
    if t.start < t.end {
        lemma_row_rest(t, q, p);
        assert(CircleView { start: t.end, ..t } == CircleView { start: s.end, ..s });
        if s.start < p < s.end {
            let i = choose|i: int| 0 <= i < circle_points(t).len() && circle_points(t)[i] == (p as u16, s.y);
            assert(circle_points(s)[i + 1] == (p as u16, s.y));
        }
        if circle_points(CircleView { start: s.end, ..s }).contains(q) {
            let i = choose|i: int| 0 <= i < circle_points(t).len() && circle_points(t)[i] == q;
            assert(circle_points(s)[i + 1] == q);
        }
    } else {
        assert(t == CircleView { start: s.end, ..s });
        if circle_points(t).contains(q) {
            let i = choose|i: int| 0 <= i < circle_points(t).len() && circle_points(t)[i] == q;
            assert(circle_points(s)[i + 1] == q);
        }
    }
}

/// A step that hands out a point keeps every later point among the points.
proof fn lemma_step_keeps(s: CircleView, q: (u16, u16))
    requires
        circle_wf(s),
        circle_step(s).0 is Some,
        circle_points(circle_step(s).1).contains(q),
    ensures
        circle_points(s).contains(q),
        circle_points(s).contains(circle_step(s).0.unwrap()),
{
    lemma_circle_wf_step(s);
    lemma_circle_progress(s);
    let t = circle_step(s).1;
    assert(circle_points(s) == seq![circle_step(s).0.unwrap()] + circle_points(t));
    assert(circle_points(s)[0] == circle_step(s).0.unwrap());
    let i = choose|i: int| 0 <= i < circle_points(t).len() && circle_points(t)[i] == q;
    assert(circle_points(s)[i + 1] == q);
}

/// The first point a step hands out is among the points.
proof fn lemma_step_first(s: CircleView)
    requires
        circle_wf(s),
        circle_step(s).0 is Some,
    ensures
        circle_points(s).contains(circle_step(s).0.unwrap()),
{
    lemma_circle_wf_step(s);
    lemma_circle_progress(s);
    assert(circle_points(s) == seq![circle_step(s).0.unwrap()] + circle_points(circle_step(s).1));
    assert(circle_points(s)[0] == circle_step(s).0.unwrap());
}

/// Everything handed out from the end of the current row is among the points.
proof fn lemma_skip_row(s: CircleView, q: (u16, u16))
    requires
        circle_wf(s),
        s.start <= s.end,
        circle_points(CircleView { start: s.end, ..s }).contains(q),
    ensures
        circle_points(s).contains(q),
{
    if s.start < s.end {
        lemma_row_rest(s, q, 0);
    } else {
        assert(CircleView { start: s.end, ..s } == s);
    }
}

/// A new circle of radius `r` hands out its centre and the four points at distance `r`
/// straight left, right, below and above it.
pub proof fn lemma_new_circle_named_points(x0: u16, y0: u16, r: u16)
    requires
        r <= reach(x0, y0),
    ensures
        ({
            let s = CircleView {
                x0,
                y0,
                octant: 255,
                dx: 0,
                dy: 0,
                y: 0,
                start: 1,
                end: 0,
                circ: (r, 0u16, r / 16),
            };
            &&& circle_points(s).contains((x0, y0))
            &&& circle_points(s).contains(((x0 - r) as u16, y0))
            &&& circle_points(s).contains(((x0 + r) as u16, y0))
            &&& circle_points(s).contains((x0, (y0 - r) as u16))
            &&& circle_points(s).contains((x0, (y0 + r) as u16))
        }),
{
    let s0 = CircleView {
        x0,
        y0,
        octant: 255,
        dx: 0,
        dy: 0,
        y: 0,
        start: 1,
        end: 0,
        circ: (r, 0u16, r / 16),
    };
    lemma_signed16(r);
    assert(circle_wf(s0));
    lemma_circle_wf_step(s0);
    let s1 = circle_step(s0).1;
    assert(circle_step(s0).0 == Some(((x0 + r) as u16, y0)));
    lemma_circle_wf_step(s1);
    let s1e = CircleView { start: s1.end, ..s1 };
    assert(circle_wf(s1e));
    lemma_circle_wf_step(s1e);
    let s2 = circle_step(s1e).1;
    assert(s2.octant == 1);
    lemma_circle_wf_step(s2);
    let s2e = CircleView { start: s2.end, ..s2 };
    lemma_circle_wf_step(s2e);
    let s3 = circle_step(s2e).1;
    assert(s3.octant == 2 && s3.start == s3.end);
    assert(circle_step(s2e).0 == Some((x0, (y0 + r) as u16)));
    lemma_circle_wf_step(s3);
    assert(circle_step(s3).0 == Some((x0, (y0 - r) as u16)));
    lemma_step_first(s3);
    let q_down = (x0, (y0 - r) as u16);
    lemma_step_keeps(s2e, q_down);
    lemma_step_first(s2e);
    let q_up = (x0, (y0 + r) as u16);
    lemma_skip_row(s2, q_down);
    lemma_skip_row(s2, q_up);
    lemma_step_keeps(s1e, q_down);
    lemma_step_keeps(s1e, q_up);
    lemma_skip_row(s1, q_down);
    lemma_skip_row(s1, q_up);
    lemma_step_keeps(s0, q_down);
    lemma_step_keeps(s0, q_up);
    lemma_step_first(s0);
    if r > 0 {
        lemma_row_rest(s1, q_down, (x0 - r) as int);
        lemma_row_rest(s1, q_down, x0 as int);
        lemma_step_keeps(s0, ((x0 - r) as u16, y0));
        lemma_step_keeps(s0, (x0, y0));
    }
}

/// The cells of row `y` from `x0 - w` to `x0 + w`, in the order a circle hands them out: the
/// right end first, then from the left end up to just before the right end.
pub open spec fn row_seq(x0: u16, w: u16, y: u16) -> Seq<(u16, u16)> {
    seq![((x0 + w) as u16, y)] + Seq::new((2 * w) as nat, |i: int| ((x0 - w + i) as u16, y))
}

/// The point mirrored across the vertical line through `x0`.
pub open spec fn mirror_x(p: (u16, u16), x0: u16) -> (u16, u16) {
    ((2 * x0 - p.0) as u16, p.1)
}

/// The point mirrored across the horizontal line through `y0`.
pub open spec fn mirror_y(p: (u16, u16), y0: u16) -> (u16, u16) {
    (p.0, (2 * y0 - p.1) as u16)
}

/// The points `q` are closed under both mirrors through `(x0, y0)`.
pub open spec fn symmetric(q: Seq<(u16, u16)>, x0: u16, y0: u16) -> bool {
    forall|p: (u16, u16)| #[trigger] q.contains(p) ==> q.contains(mirror_x(p, x0)) && q.contains(mirror_y(p, y0))
}

/// A row holds exactly the cells from `x0 - w` to `x0 + w`.
proof fn lemma_row_seq_contains(x0: u16, w: u16, y: u16, p: (u16, u16))
    requires
        w <= x0,
        x0 + w <= 0xffff,
    ensures
        row_seq(x0, w, y).contains(p) <==> (p.1 == y && x0 - w <= p.0 <= x0 + w),
{
    let r = row_seq(x0, w, y);
    if p.1 == y && x0 - w <= p.0 <= x0 + w {
        if p.0 == x0 + w {
            assert(r[0] == p);
        } else {
            let i = p.0 - (x0 - w);
            assert(r[1 + i] == p);
        }
    }
    if r.contains(p) {
        let i = choose|i: int| 0 <= i < r.len() && r[i] == p;
        if i > 0 {
            assert(r[i] == ((x0 - w + (i - 1)) as u16, y));
        }
    }
}

/// The rest of a row in one piece: from a state in a row, the circle hands out the cells from
/// `start` up to just before `end`, then what it hands out from the row's end.
proof fn lemma_row_all(s: CircleView)
    requires
        circle_wf(s),
        s.start <= s.end,
    ensures
        circle_points(s) == Seq::new((s.end - s.start) as nat, |i: int| ((s.start + i) as u16, s.y))
            + circle_points(CircleView { start: s.end, ..s }),
    decreases row_left(s),
{
    if s.start < s.end {
        lemma_circle_wf_step(s);
        lemma_circle_progress(s);
        let t = circle_step(s).1;
        lemma_row_all(t);
        assert(CircleView { start: t.end, ..t } == CircleView { start: s.end, ..s });
        assert(circle_points(s) == seq![(s.start, s.y)] + circle_points(t));
        assert(Seq::new((s.end - s.start) as nat, |i: int| ((s.start + i) as u16, s.y)) =~= seq![(s.start, s.y)]
            + Seq::new((t.end - t.start) as nat, |i: int| ((t.start + i) as u16, t.y)));
    } else {
        assert(CircleView { start: s.end, ..s } == s);
        assert(Seq::new(0, |i: int| ((s.start + i) as u16, s.y)) + circle_points(s) =~= circle_points(s));
    }
}

/// From the start of a row handed out by the step from `s`, the circle hands out the whole
/// row and then what it hands out from the row's end.
proof fn lemma_row_step(s: CircleView, w: u16, y: u16)
    requires
        circle_wf(s),
        circle_step(s).0 == Some(((s.x0 + w) as u16, y)),
        circle_step(s).1.start == s.x0 - w,
        circle_step(s).1.end == s.x0 + w,
        circle_step(s).1.y == y,
        w <= s.x0,
        s.x0 + w <= 0xffff,
    ensures
        circle_points(s) == row_seq(s.x0, w, y) + circle_points(
            CircleView { start: circle_step(s).1.end, ..circle_step(s).1 },
        ),
{
    lemma_circle_wf_step(s);
    lemma_circle_progress(s);
    let t = circle_step(s).1;
    lemma_row_all(t);
    assert(circle_points(s) == seq![((s.x0 + w) as u16, y)] + circle_points(t));
    assert(Seq::new((t.end - t.start) as nat, |i: int| ((t.start + i) as u16, t.y)) =~= Seq::new(
        (2 * w) as nat,
        |i: int| ((s.x0 - w + i) as u16, y),
    ));
}

/// A circle drawn from the end of a walk point's four rows is symmetric about its centre.
#[verifier::rlimit(40)]
#[verifier::spinoff_prover]
proof fn lemma_symmetric_from(s: CircleView)
    requires
        circle_wf(s),
        !(s.start < s.end),
        !(s.octant < 3),
    ensures
        symmetric(circle_points(s), s.x0, s.y0),
    decreases circ_measure(s.circ),
{
    lemma_circle_wf_step(s);
    if circ_done(s.circ) {
        assert(circle_points(s) =~= Seq::<(u16, u16)>::empty());
        return;
    }
    lemma_circ_wf_step(s.circ);
    let x0 = s.x0;
    let y0 = s.y0;
    let dx = s.circ.0;
    let dy = s.circ.1;
    let t0 = circle_step(s).1;
    lemma_row_step(s, dx, (y0 + dy) as u16);
    let t0e = CircleView { start: t0.end, ..t0 };
    lemma_circle_wf_step(t0e);
    let t1 = circle_step(t0e).1;
    lemma_row_step(t0e, dx, (y0 - dy) as u16);
    let t1e = CircleView { start: t1.end, ..t1 };
    lemma_circle_wf_step(t1e);
    let t2 = circle_step(t1e).1;
    lemma_row_step(t1e, dy, (y0 + dx) as u16);
    let t2e = CircleView { start: t2.end, ..t2 };
    lemma_circle_wf_step(t2e);
    let t3 = circle_step(t2e).1;
    lemma_row_step(t2e, dy, (y0 - dx) as u16);
    let t3e = CircleView { start: t3.end, ..t3 };
    lemma_circle_progress(s);
    lemma_symmetric_from(t3e);
    let r0 = row_seq(x0, dx, (y0 + dy) as u16);
    let r1 = row_seq(x0, dx, (y0 - dy) as u16);
    let r2 = row_seq(x0, dy, (y0 + dx) as u16);
    let r3 = row_seq(x0, dy, (y0 - dx) as u16);
    let rest = circle_points(t3e);
    let all = circle_points(s);
    assert(all == r0 + (r1 + (r2 + (r3 + rest))));
    assert(all =~= r0 + r1 + r2 + r3 + rest);
    assert forall|p: (u16, u16)| #[trigger] all.contains(p) implies all.contains(mirror_x(p, x0)) && all.contains(
        mirror_y(p, y0),
    ) by {
        lemma_seq5_contains(r0, r1, r2, r3, rest, p);
        lemma_seq5_contains(r0, r1, r2, r3, rest, mirror_x(p, x0));
        lemma_seq5_contains(r0, r1, r2, r3, rest, mirror_y(p, y0));
        lemma_row_seq_contains(x0, dx, (y0 + dy) as u16, p);
        lemma_row_seq_contains(x0, dx, (y0 - dy) as u16, p);
        lemma_row_seq_contains(x0, dy, (y0 + dx) as u16, p);
        lemma_row_seq_contains(x0, dy, (y0 - dx) as u16, p);
        lemma_row_seq_contains(x0, dx, (y0 + dy) as u16, mirror_x(p, x0));
        lemma_row_seq_contains(x0, dx, (y0 - dy) as u16, mirror_x(p, x0));
        lemma_row_seq_contains(x0, dy, (y0 + dx) as u16, mirror_x(p, x0));
        lemma_row_seq_contains(x0, dy, (y0 - dx) as u16, mirror_x(p, x0));
        lemma_row_seq_contains(x0, dx, (y0 + dy) as u16, mirror_y(p, y0));
        lemma_row_seq_contains(x0, dx, (y0 - dy) as u16, mirror_y(p, y0));
        lemma_row_seq_contains(x0, dy, (y0 + dx) as u16, mirror_y(p, y0));
        lemma_row_seq_contains(x0, dy, (y0 - dx) as u16, mirror_y(p, y0));
        if rest.contains(p) {
            assert(rest.contains(mirror_x(p, x0)) && rest.contains(mirror_y(p, y0)));
        }
    }
}

/// A point lies in five pieces put together exactly when it lies in one of them.
proof fn lemma_seq5_contains(
    a: Seq<(u16, u16)>,
    b: Seq<(u16, u16)>,
    c: Seq<(u16, u16)>,
    d: Seq<(u16, u16)>,
    e: Seq<(u16, u16)>,
    p: (u16, u16),
)
    ensures
        (a + b + c + d + e).contains(p) <==> (a.contains(p) || b.contains(p) || c.contains(p) || d.contains(p)
            || e.contains(p)),
{
    let q = a + b + c + d + e;
    if q.contains(p) {
        let i = choose|i: int| 0 <= i < q.len() && q[i] == p;
        if i < a.len() {
            assert(a[i] == p);
        } else if i < a.len() + b.len() {
            assert(b[i - a.len()] == p);
        } else if i < a.len() + b.len() + c.len() {
            assert(c[i - a.len() - b.len()] == p);
        } else if i < a.len() + b.len() + c.len() + d.len() {
            assert(d[i - a.len() - b.len() - c.len()] == p);
        } else {
            assert(e[i - a.len() - b.len() - c.len() - d.len()] == p);
        }
    }
    if a.contains(p) {
        let i = choose|i: int| 0 <= i < a.len() && a[i] == p;
        assert(q[i] == p);
    }
    if b.contains(p) {
        let i = choose|i: int| 0 <= i < b.len() && b[i] == p;
        assert(q[a.len() + i] == p);
    }
    if c.contains(p) {
        let i = choose|i: int| 0 <= i < c.len() && c[i] == p;
        assert(q[a.len() + b.len() + i] == p);
    }
    if d.contains(p) {
        let i = choose|i: int| 0 <= i < d.len() && d[i] == p;
        assert(q[a.len() + b.len() + c.len() + i] == p);
    }
    if e.contains(p) {
        let i = choose|i: int| 0 <= i < e.len() && e[i] == p;
        assert(q[a.len() + b.len() + c.len() + d.len() + i] == p);
    }
}

/// A new circle is symmetric about its centre: mirrored across the vertical or the horizontal
/// line through the centre, each of its points is one of its points.
pub proof fn lemma_new_circle_symmetric(x0: u16, y0: u16, r: u16)
    requires
        r <= reach(x0, y0),
    ensures
        symmetric(
            circle_points(
                CircleView { x0, y0, octant: 255, dx: 0, dy: 0, y: 0, start: 1, end: 0, circ: (r, 0u16, r / 16) },
            ),
            x0,
            y0,
        ),
{
    let s0 = CircleView { x0, y0, octant: 255, dx: 0, dy: 0, y: 0, start: 1, end: 0, circ: (r, 0u16, r / 16) };
    assert(circle_wf(s0));
    lemma_symmetric_from(s0);
}

impl Circle {
    /// The filled circle of radius `r` around (x0, y0). When the radius is within reach of
    /// the centre, the circle is drawn to its end without overflow.
    #[must_use]
    pub fn new(x0: u16, y0: u16, r: u16) -> (c: Self)
        ensures
            c@ == (CircleView {
                x0,
                y0,
                octant: 255,
                dx: 0,
                dy: 0,
                y: 0,
                start: 1,
                end: 0,
                circ: (r, 0u16, r / 16),
            }),
            r <= reach(x0, y0) ==> circle_wf(c@),
    {
        Circle {
            x0,
            y0,
            dx: 0,
            dy: 0,
            octant: 255,
            y: 0,
            start: 1,
            end: 0,
            circumference: Circumference::new(r),
        }
    }

    /// All the points that are still to come, in order.
    pub fn points(self) -> (r: Vec<(u16, u16)>)
        requires
            circle_wf(self@),
        ensures
            r@ == circle_points(self@),
    {
        let ghost s0 = self@;
        let mut c = self;
        let mut out: Vec<(u16, u16)> = Vec::new();
        loop
            invariant
                circle_wf(c@),
                s0 == self@,
                out@ + circle_points(c@) == circle_points(s0),
            decreases circ_measure(c@.circ), octant_left(c@), row_left(c@),
        {
            let ghost before = c@;
            proof {
                lemma_circle_wf_step(before);
            }
            match c.next() {
                Some(p) => {
                    proof {
                        lemma_circle_progress(before);
                        assert(circle_points(before) == seq![p] + circle_points(c@));
                    }
                    let ghost o = out@;
                    out.push(p);
                    proof {
                        assert(out@ + circle_points(c@) =~= o + (seq![p] + circle_points(c@)));
                    }
                },
                None => {
                    proof {
                        assert(circle_points(before) == Seq::<(u16, u16)>::empty());
                        assert(out@ =~= out@ + circle_points(before));
                    }
                    return out;
                },
            }
        }
    }

    /// The next point, or `None` once the circle is drawn.
    pub fn next(&mut self) -> (r: Option<(u16, u16)>)
        requires
            circle_step_ok(old(self)@),
        ensures
            (r, final(self)@) == circle_step(old(self)@),
            circle_wf(old(self)@) ==> circle_wf(final(self)@),
    {
        proof {
            if circle_wf(old(self)@) {
                lemma_circle_wf_step(old(self)@);
            }
        }
        if self.start < self.end {
            let x = self.start;
            self.start = self.start + 1;
            Some((x, self.y))
        } else if self.octant < 3 {
            self.octant = self.octant + 1;
            if self.octant == 1 {
                self.start = self.x0 - self.dx;
                self.end = self.x0 + self.dx;
                self.y = self.y0 - self.dy;
                Some((self.x0 + self.dx, self.y))
            } else if self.octant == 2 {
                self.start = self.x0 - self.dy;
                self.end = self.x0 + self.dy;
                self.y = self.y0 + self.dx;
                Some((self.x0 + self.dy, self.y))
            } else {
                self.start = self.x0 - self.dy;
                self.end = self.x0 + self.dy;
                self.y = self.y0 - self.dx;
                Some((self.x0 + self.dy, self.y))
            }
        } else {
            match self.circumference.next() {
                Some((dx, dy)) => {
                    self.dx = dx;
                    self.dy = dy;
                    self.start = self.x0 - dx;
                    self.end = self.x0 + dx;
                    self.y = self.y0 + dy;
                    self.octant = 0;
                    Some((self.x0 + dx, self.y))
                },
                None => None,
            }
        }
    }
}

} // verus!
