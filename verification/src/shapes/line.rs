use crate::cell::CellVelocity;
use crate::chunk_map::{lemma_world_coordinates_roundtrip, FullIndex};
use vstd::prelude::*;

verus! {

/// The value of a `u16` read as a two's-complement `i16` (what `u16::cast_signed` gives).
pub open spec fn signed16(x: u16) -> int {
    if x < 0x8000 {
        x as int
    } else {
        x - 0x10000
    }
}

pub open spec fn abs_int(x: int) -> int {
    if x < 0 {
        -x
    } else {
        x
    }
}

/// Which coordinates the last step of a line iterator changed.
#[derive(Debug, Clone, Copy, PartialEq, Eq, Structural)]
pub enum StepCase {
    Start,
    Dx,
    Dy,
    Both,
}

/// An integer line from `(x0, y0)` to `(x1, y1)`, walked one grid point at a time
/// with an error term (a variant of Bresenham's algorithm).
#[derive(Debug, Clone, Copy)]
pub struct LineIter {
    pub x0: u16,
    pub y0: u16,
    pub x1: u16,
    pub y1: u16,
    pub dx_neg: bool,
    pub dy_neg: bool,
    pub dx_abs: i16,
    pub dy_abs: i16,
    pub error_test: i16,
    pub error: i16,
    pub first: bool,
}

/// The inputs on which `LineIter::new` computes its differences without overflow.
pub open spec fn line_new_ok(x0: u16, y0: u16, x1: u16, y1: u16) -> bool {
    &&& -0x7fff <= signed16(x1) - signed16(x0) <= 0x7fff
    &&& -0x7fff <= signed16(y1) - signed16(y0) <= 0x7fff
}

/// The iterator that `LineIter::new(x0, y0, x1, y1)` returns.
pub open spec fn line_init(x0: u16, y0: u16, x1: u16, y1: u16) -> LineIter {
    let dx = signed16(x1) - signed16(x0);
    let dy = signed16(y1) - signed16(y0);
    let a = abs_int(dx);
    let b = abs_int(dy);
    LineIter {
        x0,
        y0,
        x1,
        y1,
        dx_neg: dx < 0,
        dy_neg: dy < 0,
        dx_abs: a as i16,
        dy_abs: (-b) as i16,
        error_test: (a / 2 + b / 2) as i16,
        error: (a - b + b / 2) as i16,
        first: true,
    }
}

impl LineIter {
    /// The x coordinate one step toward the end.
    pub open spec fn stepped_x(self) -> int {
        if self.dx_neg {
            self.x0 - 1
        } else {
            self.x0 + 1
        }
    }

    pub open spec fn stepped_y(self) -> int {
        if self.dy_neg {
            self.y0 - 1
        } else {
            self.y0 + 1
        }
    }

    /// The x coordinate one step back toward the start.
    pub open spec fn unstepped_x(self) -> int {
        if self.dx_neg {
            self.x0 + 1
        } else {
            self.x0 - 1
        }
    }

    pub open spec fn unstepped_y(self) -> int {
        if self.dy_neg {
            self.y0 + 1
        } else {
            self.y0 - 1
        }
    }

    pub open spec fn is_u16(v: int) -> bool {
        0 <= v <= 0xffff
    }

    pub open spec fn is_i16(v: int) -> bool {
        -0x8000 <= v <= 0x7fff
    }

    /// Which arm `next` takes: both coordinates, x only, or y only.
    pub open spec fn takes_both(self) -> bool {
        self.error >= 0 && self.error <= self.error_test
    }

    pub open spec fn takes_x(self) -> bool {
        self.error >= 0 && self.error > self.error_test
    }

    pub open spec fn takes_y(self) -> bool {
        self.error < 0 && self.error <= self.error_test
    }

    /// `next` neither overflows nor reaches its unreachable arm from this state.
    pub open spec fn next_ok(self) -> bool {
        self.first || {
            if self.takes_both() {
                (self.x0 == self.x1 || self.y0 == self.y1) || (Self::is_u16(self.stepped_x())
                    && Self::is_u16(self.stepped_y()) && Self::is_i16(
                    self.error + self.dx_abs + self.dy_abs,
                ) && Self::is_i16(self.dx_abs + self.dy_abs))
            } else if self.takes_x() {
                self.x0 == self.x1 || (Self::is_u16(self.stepped_x()) && Self::is_i16(
                    self.error + self.dy_abs,
                ))
            } else if self.takes_y() {
                self.y0 == self.y1 || (Self::is_u16(self.stepped_y()) && Self::is_i16(
                    self.error + self.dx_abs,
                ))
            } else {
                false
            }
        }
    }

    /// The state after one call of `next`, and what that call returns.
    pub open spec fn step(self) -> (LineIter, Option<(StepCase, u16, u16)>) {
        if self.first {
            (LineIter { first: false, ..self }, Some((StepCase::Start, self.x0, self.y0)))
        } else if self.takes_both() {
            if self.x0 == self.x1 || self.y0 == self.y1 {
                (self, None)
            } else {
                let n = LineIter {
                    error: (self.error + self.dx_abs + self.dy_abs) as i16,
                    x0: self.stepped_x() as u16,
                    y0: self.stepped_y() as u16,
                    ..self
                };
                (n, Some((StepCase::Both, n.x0, n.y0)))
            }
        } else if self.takes_x() {
            if self.x0 == self.x1 {
                (self, None)
            } else {
                let n = LineIter {
                    error: (self.error + self.dy_abs) as i16,
                    x0: self.stepped_x() as u16,
                    ..self
                };
                (n, Some((StepCase::Dx, n.x0, n.y0)))
            }
        } else {
            if self.y0 == self.y1 {
                (self, None)
            } else {
                let n = LineIter {
                    error: (self.error + self.dx_abs) as i16,
                    y0: self.stepped_y() as u16,
                    ..self
                };
                (n, Some((StepCase::Dy, n.x0, n.y0)))
            }
        }
    }

    /// `back(case)` neither overflows nor underflows from this state.
    pub open spec fn back_ok(self, case: StepCase) -> bool {
        match case {
            StepCase::Start => true,
            StepCase::Dx => Self::is_u16(self.unstepped_x()) && Self::is_i16(
                self.error - self.dy_abs,
            ),
            StepCase::Dy => Self::is_u16(self.unstepped_y()) && Self::is_i16(
                self.error - self.dx_abs,
            ),
            StepCase::Both => Self::is_u16(self.unstepped_x()) && Self::is_u16(
                self.unstepped_y(),
            ) && Self::is_i16(self.dx_abs + self.dy_abs) && Self::is_i16(
                self.error - (self.dx_abs + self.dy_abs),
            ),
        }
    }

    /// The state after `back(case)`.
    pub open spec fn stepped_back(self, case: StepCase) -> LineIter {
        match case {
            StepCase::Start => LineIter { first: true, ..self },
            StepCase::Dx => LineIter {
                x0: self.unstepped_x() as u16,
                error: (self.error - self.dy_abs) as i16,
                ..self
            },
            StepCase::Dy => LineIter {
                y0: self.unstepped_y() as u16,
                error: (self.error - self.dx_abs) as i16,
                ..self
            },
            StepCase::Both => LineIter {
                x0: self.unstepped_x() as u16,
                y0: self.unstepped_y() as u16,
                error: (self.error - (self.dx_abs + self.dy_abs)) as i16,
                ..self
            },
        }
    }

    /// Undoes the step of kind `case`.
    pub fn back(&mut self, case: StepCase)
        requires
            old(self).back_ok(case),
        ensures
            *final(self) == old(self).stepped_back(case),
    {
        match case {
            StepCase::Start => {
                self.first = true;
            },
            StepCase::Dx => {
                self.nsx();
                self.error = self.error - self.dy_abs;
            },
            StepCase::Dy => {
                self.nsy();
                self.error = self.error - self.dx_abs;
            },
            StepCase::Both => {
                self.nsx();
                self.nsy();
                self.error = self.error - (self.dx_abs + self.dy_abs);
            },
        }
    }

    fn sy(&mut self)
        requires
            Self::is_u16(old(self).stepped_y()),
        ensures
            *final(self) == (LineIter { y0: old(self).stepped_y() as u16, ..*old(self) }),
    {
        if self.dy_neg {
            self.y0 = self.y0 - 1;
        } else {
            self.y0 = self.y0 + 1;
        }
    }

    fn sx(&mut self)
        requires
            Self::is_u16(old(self).stepped_x()),
        ensures
            *final(self) == (LineIter { x0: old(self).stepped_x() as u16, ..*old(self) }),
    {
        if self.dx_neg {
            self.x0 = self.x0 - 1;
        } else {
            self.x0 = self.x0 + 1;
        }
    }

    fn nsy(&mut self)
        requires
            Self::is_u16(old(self).unstepped_y()),
        ensures
            *final(self) == (LineIter { y0: old(self).unstepped_y() as u16, ..*old(self) }),
    {
        if self.dy_neg {
            self.y0 = self.y0 + 1;
        } else {
            self.y0 = self.y0 - 1;
        }
    }

    fn nsx(&mut self)
        requires
            Self::is_u16(old(self).unstepped_x()),
        ensures
            *final(self) == (LineIter { x0: old(self).unstepped_x() as u16, ..*old(self) }),
    {
        if self.dx_neg {
            self.x0 = self.x0 + 1;
        } else {
            self.x0 = self.x0 - 1;
        }
    }

    #[must_use]
    pub fn new(x0: u16, y0: u16, x1: u16, y1: u16) -> (r: Self)
        requires
            line_new_ok(x0, y0, x1, y1),
        ensures
            r == line_init(x0, y0, x1, y1),
    {
        proof {
            lemma_signed16(x0);
            lemma_signed16(x1);
            lemma_signed16(y0);
            lemma_signed16(y1);
        }
        let dx = (x1 as i16) - (x0 as i16);
        let dy = (y1 as i16) - (y0 as i16);
        let dx_abs = if dx < 0 { -dx } else { dx };
        let dy_abs = -(if dy < 0 { -dy } else { dy });
        Self {
            x0,
            y0,
            x1,
            y1,
            dx_neg: dx < 0,
            dy_neg: dy < 0,
            dx_abs,
            dy_abs,
            error_test: dx_abs / 2 - dy_abs / 2,
            error: dx_abs + dy_abs - dy_abs / 2,
            first: true,
        }
    }

    /// The next point of the line, with the kind of step that reached it.
    pub fn next(&mut self) -> (r: Option<(StepCase, u16, u16)>)
        requires
            old(self).next_ok(),
        ensures
            (*final(self), r) == old(self).step(),
    {
        if self.first {
            self.first = false;
            return Some((StepCase::Start, self.x0, self.y0));
        }
        let nonneg = self.error >= 0;
        let below = self.error <= self.error_test;
        if nonneg && below {
            if self.x0 == self.x1 || self.y0 == self.y1 {
                return None;
            }
            self.error = self.error + (self.dx_abs + self.dy_abs);
            self.sx();
            self.sy();
            Some((StepCase::Both, self.x0, self.y0))
        } else if nonneg {
            if self.x0 == self.x1 {
                return None;
            }
            self.error = self.error + self.dy_abs;
            self.sx();
            Some((StepCase::Dx, self.x0, self.y0))
        } else {
            if self.y0 == self.y1 {
                return None;
            }
            self.error = self.error + self.dx_abs;
            self.sy();
            Some((StepCase::Dy, self.x0, self.y0))
        }
    }
}

pub proof fn lemma_signed16(x: u16)
    ensures
        (x as i16) as int == signed16(x),
{
    assert((x as i16) as int == if x < 0x8000 {
        x as int
    } else {
        x as int - 0x10000
    }) by (bit_vector);
}


/// Sign of `b - a`, as the direction in which a coordinate moves from `a` to `b`.
pub open spec fn direction(a: u16, b: u16) -> int {
    if b < a {
        -1
    } else {
        1
    }
}

/// `q` is one grid step from `p` toward `(tx, ty)`: each coordinate either stays or moves
/// by one in the direction of the target, and at least one of them moves.
pub open spec fn is_step_toward(p: (u16, u16), q: (u16, u16), dirx: int, diry: int) -> bool {
    &&& (q.0 == p.0 || q.0 == p.0 + dirx)
    &&& (q.1 == p.1 || q.1 == p.1 + diry)
    &&& q != p
}

/// The largest value the error term of a line with differences `a` and `b` can reach.
pub open spec fn error_bound(a: int, b: int) -> int {
    a + if a / 2 > (b + 1) / 2 {
        a / 2 - (b + 1) / 2
    } else {
        0
    }
}

/// The inputs on which walking the whole line from `(x0, y0)` to `(x1, y1)` never overflows:
/// both coordinates lie in the same half of the `u16` range (so the signed differences are
/// the true ones) and the error term stays inside `i16`.
pub open spec fn line_ok(x0: u16, y0: u16, x1: u16, y1: u16) -> bool {
    &&& line_new_ok(x0, y0, x1, y1)
    &&& signed16(x1) - signed16(x0) == x1 - x0
    &&& signed16(y1) - signed16(y0) == y1 - y0
    &&& error_bound(abs_int(x1 - x0), abs_int(y1 - y0)) <= 0x7fff
}

/// The points that iterating `LineIter::new(x0, y0, x1, y1)` to its end yields.
pub open spec fn line_points(x0: u16, y0: u16, x1: u16, y1: u16) -> Seq<(u16, u16)> {
    line_init(x0, y0, x1, y1).trace()
}

impl LineIter {
    pub open spec fn a(self) -> int {
        self.dx_abs as int
    }

    pub open spec fn b(self) -> int {
        -(self.dy_abs as int)
    }

    /// Distance still to go along x, in the iterator's direction.
    pub open spec fn rx(self) -> int {
        if self.dx_neg {
            self.x0 - self.x1
        } else {
            self.x1 - self.x0
        }
    }

    pub open spec fn ry(self) -> int {
        if self.dy_neg {
            self.y0 - self.y1
        } else {
            self.y1 - self.y0
        }
    }

    /// The state of a line walk: the error term is tied to the distance still to go,
    /// and stays within bounds that keep it inside `i16`.
    pub open spec fn inv(self) -> bool {
        let a = self.a();
        let b = self.b();
        &&& 0 <= a && 0 <= b
        &&& self.error_test == a / 2 + b / 2
        &&& 0 <= self.rx() <= a
        &&& 0 <= self.ry() <= b
        &&& self.error == a - b + b * self.rx() - a * self.ry() + b / 2
        &&& -b <= self.error <= error_bound(a, b) <= 0x7fff
    }

    pub open spec fn measure(self) -> int {
        (if self.first {
            1int
        } else {
            0int
        }) + self.rx() + self.ry()
    }

    /// All points that the calls of `next` still yield, up to the first `None`.
    pub open spec fn trace(self) -> Seq<(u16, u16)>
        decreases self.measure(),
        when self.inv()
    {
        proof {
            lemma_step(self);
        }
        match self.step().1 {
            None => Seq::empty(),
            Some((_, x, y)) => seq![(x, y)] + self.step().0.trace(),
        }
    }
}

pub proof fn lemma_mul_step(k: int, r: int)
    by (nonlinear_arith)
    requires
        k >= 0,
        r >= 1,
    ensures
        k * (r - 1) == k * r - k,
        k * r >= k,
{
}

/// One call of `next` from a line-walk state: it never overflows, it keeps the state a
/// line-walk state, it moves one step toward the end, and it ends exactly at the end point.
pub proof fn lemma_step(s: LineIter)
    requires
        s.inv(),
    ensures
        s.next_ok(),
        s.step().1 is None ==> !s.first && s.rx() == 0 && s.ry() == 0,
        s.step().1 is Some ==> {
            let n = s.step().0;
            &&& n.inv()
            &&& !n.first
            &&& 0 <= n.measure() < s.measure()
            &&& n.x1 == s.x1 && n.y1 == s.y1 && n.dx_neg == s.dx_neg && n.dy_neg == s.dy_neg
            &&& (s.step().1 matches Some((_c, x, y)) && x == n.x0 && y == n.y0)
            &&& s.first ==> n.x0 == s.x0 && n.y0 == s.y0
            &&& !s.first ==> is_step_toward(
                (s.x0, s.y0),
                (n.x0, n.y0),
                if s.dx_neg { -1 } else { 1 },
                if s.dy_neg { -1 } else { 1 },
            )
        },
{
    let a = s.a();
    let b = s.b();
    let rx = s.rx();
    let ry = s.ry();
    if s.first {
        return;
    }
    if rx >= 1 {
        lemma_mul_step(b, rx);
    } else {
        assert(b * rx == 0) by (nonlinear_arith)
            requires
                rx == 0,
        ;
    }
    if ry >= 1 {
        lemma_mul_step(a, ry);
    } else {
        assert(a * ry == 0) by (nonlinear_arith)
            requires
                ry == 0,
        ;
    }
    if s.takes_both() {
        if s.x0 == s.x1 || s.y0 == s.y1 {
            if s.x0 == s.x1 {
                assert(rx == 0);
                if ry >= 1 {
                    assert(a * ry >= a);
                    assert(s.error <= b / 2 - b);
                }
            } else {
                assert(ry == 0);
                if rx >= 1 {
                    assert(b * rx >= b);
                    assert(s.error >= a + b / 2);
                }
            }
        } else {
            let n = s.step().0;
            assert(n.rx() == rx - 1);
            assert(n.ry() == ry - 1);
        }
    } else if s.takes_x() {
        if s.x0 == s.x1 {
            assert(rx == 0);
            if ry >= 1 {
                assert(a * ry >= a);
                assert(s.error <= b / 2 - b);
            }
        }
        if s.x0 != s.x1 {
            let n = s.step().0;
            assert(n.rx() == rx - 1);
        }
    } else {
        if s.y0 == s.y1 {
            assert(ry == 0);
            if rx >= 1 {
                assert(b * rx >= b);
                assert(s.error >= a + b / 2);
            }
        }
        if s.y0 != s.y1 {
            let n = s.step().0;
            assert(n.ry() == ry - 1);
        }
    }
}

/// What the rest of a line walk yields: nothing exactly when it is at its end, and
/// otherwise unit steps toward the end that finish on the end point.
pub proof fn lemma_trace(s: LineIter)
    requires
        s.inv(),
        !s.first,
    ensures
        s.trace().len() == 0 <==> (s.x0 == s.x1 && s.y0 == s.y1),
        s.trace().len() > 0 ==> s.trace().last() == (s.x1, s.y1),
        s.trace().len() > 0 ==> is_step_toward(
            (s.x0, s.y0),
            s.trace()[0],
            if s.dx_neg { -1 } else { 1 },
            if s.dy_neg { -1 } else { 1 },
        ),
        forall|i: int|
            0 <= i < s.trace().len() - 1 ==> is_step_toward(
                #[trigger] s.trace()[i],
                s.trace()[i + 1],
                if s.dx_neg { -1 } else { 1 },
                if s.dy_neg { -1 } else { 1 },
            ),
    decreases s.measure(),
{
    lemma_step(s);
    let n = s.step().0;
    match s.step().1 {
        None => {
            assert(s.trace() =~= Seq::<(u16, u16)>::empty());
        },
        Some((c, x, y)) => {
            lemma_trace(n);
            let t = s.trace();
            let tn = n.trace();
            assert(t =~= seq![(x, y)] + tn);
            if tn.len() == 0 {
                assert(n.rx() == 0 && n.ry() == 0);
            }
            assert forall|i: int| 0 <= i < t.len() - 1 implies is_step_toward(
                #[trigger] t[i],
                t[i + 1],
                if s.dx_neg { -1 } else { 1 },
                if s.dy_neg { -1 } else { 1 },
            ) by {
                if i > 0 {
                    assert(t[i] == tn[i - 1]);
                    assert(t[i + 1] == tn[i]);
                }
            }
        },
    }
}

/// A fresh line iterator over a line that can be walked to its end is a line-walk state,
/// at distance `|x1 - x0| + |y1 - y0|` (plus its first point) from the end.
pub proof fn lemma_init_inv(x0: u16, y0: u16, x1: u16, y1: u16)
    requires
        line_ok(x0, y0, x1, y1),
    ensures
        line_init(x0, y0, x1, y1).inv(),
        line_init(x0, y0, x1, y1).first,
        line_init(x0, y0, x1, y1).measure() == 1 + abs_int(x1 - x0) + abs_int(y1 - y0),
{
    let s = line_init(x0, y0, x1, y1);
    let a = abs_int(x1 - x0);
    let b = abs_int(y1 - y0);
    assert(s.a() == a && s.b() == b);
    assert(s.rx() == a && s.ry() == b);
    assert(b * a == a * b) by (nonlinear_arith);
}

/// A line starts at its first end point, finishes at its second, and each point is one grid
/// step from the one before, toward the second end point (on both axes at most one unit).
pub proof fn lemma_line_connects_endpoints(x0: u16, y0: u16, x1: u16, y1: u16)
    requires
        line_ok(x0, y0, x1, y1),
    ensures
        ({
            let p = line_points(x0, y0, x1, y1);
            &&& p.len() >= 1
            &&& p[0] == (x0, y0)
            &&& p.last() == (x1, y1)
            &&& forall|i: int|
                0 <= i < p.len() - 1 ==> is_step_toward(
                    #[trigger] p[i],
                    p[i + 1],
                    direction(x0, x1),
                    direction(y0, y1),
                )
        }),
{
    let s = line_init(x0, y0, x1, y1);
    lemma_init_inv(x0, y0, x1, y1);
    lemma_step(s);
    let n = s.step().0;
    lemma_trace(n);
    let p = s.trace();
    assert(p =~= seq![(x0, y0)] + n.trace());
    assert forall|i: int| 0 <= i < p.len() - 1 implies is_step_toward(
        #[trigger] p[i],
        p[i + 1],
        direction(x0, x1),
        direction(y0, y1),
    ) by {
        if i > 0 {
            assert(p[i] == n.trace()[i - 1]);
        }
    }
}

/// The rest of a line walk has as many points as the larger distance still to go, as long as
/// the error term keeps to the side of that axis: when x is the longer axis, each step moves x
/// by one; when y is, each step moves y by one.
proof fn lemma_trace_len(s: LineIter)
    requires
        s.inv(),
        !s.first,
    ensures
        s.a() >= s.b() && s.error >= 0 ==> s.trace().len() == s.rx(),
        s.b() >= s.a() && s.error <= s.error_test ==> s.trace().len() == s.ry(),
    decreases s.measure(),
{
    lemma_step(s);
    match s.step().1 {
        None => {
            assert(s.trace() =~= Seq::<(u16, u16)>::empty());
        },
        Some((c, x, y)) => {
            let n = s.step().0;
            lemma_trace_len(n);
            assert(s.trace() =~= seq![(x, y)] + n.trace());
            assert(n.a() == s.a() && n.b() == s.b() && n.error_test == s.error_test);
            if s.takes_both() {
                assert(n.rx() == s.rx() - 1 && n.ry() == s.ry() - 1);
            } else if s.takes_x() {
                assert(n.rx() == s.rx() - 1 && n.ry() == s.ry());
            } else {
                assert(n.rx() == s.rx() && n.ry() == s.ry() - 1);
            }
        },
    }
}

/// A line has one point more than the larger of its two distances: `max(|x1 - x0|,
/// |y1 - y0|) + 1` points.
pub proof fn lemma_line_point_count(x0: u16, y0: u16, x1: u16, y1: u16)
    requires
        line_ok(x0, y0, x1, y1),
    ensures
        line_points(x0, y0, x1, y1).len() == 1 + if abs_int(x1 - x0) >= abs_int(y1 - y0) {
            abs_int(x1 - x0)
        } else {
            abs_int(y1 - y0)
        },
{
    let s = line_init(x0, y0, x1, y1);
    lemma_init_inv(x0, y0, x1, y1);
    lemma_step(s);
    let n = s.step().0;
    assert(s.trace() =~= seq![(x0, y0)] + n.trace());
    lemma_trace_len(n);
    let a = n.a();
    let b = n.b();
    assert(a == abs_int(x1 - x0) && b == abs_int(y1 - y0));
    assert(n.rx() == a && n.ry() == b);
    assert(n.error == a - b + b / 2) by (nonlinear_arith)
        requires
            n.error == a - b + b * a - a * b + b / 2,
    ;
}

/// The line between two cells starts at the first and ends at the second: the first and last
/// points of `LineFullIter::new(i0, i1)`, as cells, are `i0` and `i1`.
pub proof fn lemma_full_line_connects(i0: FullIndex, i1: FullIndex)
    requires
        line_ok(i0.world_x() as u16, i0.world_y() as u16, i1.world_x() as u16, i1.world_y() as u16),
    ensures
        ({
            let p = line_points(i0.world_x() as u16, i0.world_y() as u16, i1.world_x() as u16, i1.world_y() as u16);
            &&& FullIndex::of_world(p[0].0 as int, p[0].1 as int) == i0
            &&& FullIndex::of_world(p.last().0 as int, p.last().1 as int) == i1
        }),
{
    lemma_world_coordinates_roundtrip(i0, 0, 0);
    lemma_world_coordinates_roundtrip(i1, 0, 0);
    lemma_line_connects_endpoints(i0.world_x() as u16, i0.world_y() as u16, i1.world_x() as u16, i1.world_y() as u16);
}

/// A line that does not move has its starting point alone: with a velocity of zero,
/// `LineFullIter::new_vel(i0, vel)` yields `i0` and nothing more.
pub proof fn lemma_still_line(x0: u16, y0: u16)
    ensures
        line_points(x0, y0, x0, y0) == seq![(x0, y0)],
{
    lemma_line_point_count(x0, y0, x0, y0);
    lemma_line_connects_endpoints(x0, y0, x0, y0);
    assert(line_points(x0, y0, x0, y0) =~= seq![(x0, y0)]);
}

/// Each kind of step moves along its own axes by one unit toward the end: `Dx` changes x
/// only, `Dy` changes y only, and `Both` changes both.
pub proof fn lemma_step_case_axes(s: LineIter)
    requires
        s.inv(),
        !s.first,
        s.step().1 is Some,
    ensures
        ({
            let (c, x, y) = s.step().1.unwrap();
            let dx = if s.dx_neg { -1int } else { 1 };
            let dy = if s.dy_neg { -1int } else { 1 };
            &&& c == StepCase::Dx ==> x == s.x0 + dx && y == s.y0
            &&& c == StepCase::Dy ==> x == s.x0 && y == s.y0 + dy
            &&& c == StepCase::Both ==> x == s.x0 + dx && y == s.y0 + dy
            &&& c != StepCase::Start
        }),
{
    lemma_step(s);
}

/// `back` undoes `next`: stepping back by the kind of step that `next` reported restores
/// the iterator exactly.
pub proof fn lemma_back_undoes_next(s: LineIter)
    requires
        s.next_ok(),
        s.step().1 is Some,
    ensures
        s.step().1 matches Some((c, _x, _y)) && s.step().0.back_ok(c) && s.step().0.stepped_back(c)
            == s,
{
}

impl Default for LineIter {
    fn default() -> (r: Self)
        ensures
            r == line_init(0, 0, 0, 0),
    {
        Self::new(0, 0, 0, 0)
    }
}

/// Half of `v`, rounded toward zero (integer division by 2 on machine integers).
pub open spec fn half_toward_zero(v: int) -> int {
    if v >= 0 {
        v / 2
    } else {
        -((-v) / 2)
    }
}

/// The value of an `i16` read as a `u16` (what `i16::cast_unsigned` gives).
pub open spec fn unsigned16(v: i16) -> int {
    if v >= 0 {
        v as int
    } else {
        v + 0x10000
    }
}

pub proof fn lemma_unsigned16(v: i16)
    ensures
        (v as u16) as int == unsigned16(v),
{
    assert((v as u16) as int == if v >= 0 {
        v as int
    } else {
        v + 0x10000
    }) by (bit_vector);
}

/// A line iterator without its end point, which it recomputes from the differences.
#[derive(Debug, Clone, Copy)]
pub struct LineIterCompact {
    pub x0: u16,
    pub y0: u16,
    pub dx_neg: bool,
    pub dy_neg: bool,
    pub dx_abs: i16,
    pub dy_abs: i16,
    pub error: i16,
    pub first: bool,
}

/// The compact form of a line iterator; its vertical difference is taken from the
/// horizontal one.
pub open spec fn compact_of(value: LineIter) -> LineIterCompact {
    LineIterCompact {
        x0: value.x0,
        y0: value.y0,
        dx_neg: value.dx_neg,
        dy_neg: value.dy_neg,
        dx_abs: value.dx_abs,
        dy_abs: value.dx_abs,
        error: value.error,
        first: value.first,
    }
}

impl From<LineIter> for LineIterCompact {
    fn from(value: LineIter) -> (r: Self) {
        Self {
            x0: value.x0,
            y0: value.y0,
            dx_neg: value.dx_neg,
            dy_neg: value.dy_neg,
            dx_abs: value.dx_abs,
            dy_abs: value.dx_abs,
            error: value.error,
            first: value.first,
        }
    }
}

impl vstd::std_specs::convert::FromSpecImpl<LineIter> for LineIterCompact {
    open spec fn obeys_from_spec() -> bool {
        true
    }

    open spec fn from_spec(v: LineIter) -> Self {
        compact_of(v)
    }
}

impl Default for LineIterCompact {
    fn default() -> (r: Self)
        ensures
            r == compact_of(line_init(0, 0, 0, 0)),
    {
        LineIterCompact::from(LineIter::default())
    }
}

impl LineIterCompact {
    /// The end point is the start moved by the differences, read as unsigned, in their
    /// directions.
    pub open spec fn end_x(self) -> int {
        if self.dx_neg {
            self.x0 - unsigned16(self.dx_abs)
        } else {
            self.x0 + unsigned16(self.dx_abs)
        }
    }

    pub open spec fn end_y(self) -> int {
        if self.dy_neg {
            self.y0 - unsigned16(self.dy_abs)
        } else {
            self.y0 + unsigned16(self.dy_abs)
        }
    }
}

impl LineIter {
    /// The full iterator of a compact one: the end point recomputed from the differences, and
    /// both differences taken from the horizontal one.
    pub fn from_compact(value: LineIterCompact) -> (r: Self)
        requires
            0 <= value.end_x() <= 0xffff,
            0 <= value.end_y() <= 0xffff,
        ensures
            r == (LineIter {
                x0: value.x0,
                y0: value.y0,
                x1: value.end_x() as u16,
                y1: value.end_y() as u16,
                dx_neg: value.dx_neg,
                dy_neg: value.dy_neg,
                dx_abs: value.dx_abs,
                dy_abs: value.dx_abs,
                error_test: (half_toward_zero(value.dx_abs as int) - half_toward_zero(
                    value.dy_abs as int,
                )) as i16,
                error: value.error,
                first: value.first,
            }),
    {
        proof {
            lemma_unsigned16(value.dx_abs);
            lemma_unsigned16(value.dy_abs);
        }
        let x1 = if value.dx_neg {
            value.x0 - value.dx_abs as u16
        } else {
            value.x0 + value.dx_abs as u16
        };
        let y1 = if value.dy_neg {
            value.y0 - value.dy_abs as u16
        } else {
            value.y0 + value.dy_abs as u16
        };
        Self {
            x0: value.x0,
            y0: value.y0,
            x1,
            y1,
            dx_neg: value.dx_neg,
            dy_neg: value.dy_neg,
            dx_abs: value.dx_abs,
            error_test: value.dx_abs / 2 - value.dy_abs / 2,
            dy_abs: value.dx_abs,
            error: value.error,
            first: value.first,
        }
    }
}

/// A line between two cells of the world, walked cell by cell.
#[derive(Debug, Clone, Copy)]
pub struct LineFullIter {
    pub line: LineIter,
}

impl Default for LineFullIter {
    fn default() -> (r: Self)
        ensures
            r.line == line_init(0, 0, 0, 0),
    {
        LineFullIter { line: LineIter::default() }
    }
}

/// The end point that a velocity reaches from `x0`, one axis at a time.
pub open spec fn moved_by(x0: int, v: i8) -> int {
    x0 + v
}

impl LineFullIter {
    /// The next cell of the line, with the kind of step that reached it.
    pub fn next(&mut self) -> (r: Option<(StepCase, FullIndex)>)
        requires
            old(self).line.next_ok(),
        ensures
            final(self).line == old(self).line.step().0,
            match old(self).line.step().1 {
                Some((c, x, y)) => r == Some((c, FullIndex::of_world(x as int, y as int))),
                None => r is None,
            },
    {
        match self.line.next() {
            Some((case, x2, y2)) => Some((case, FullIndex::from((x2, y2)))),
            None => None,
        }
    }

    pub fn back(&mut self, case: StepCase)
        requires
            old(self).line.back_ok(case),
        ensures
            final(self).line == old(self).line.stepped_back(case),
    {
        self.line.back(case);
    }

    /// The line from cell `i0` to cell `i1`.
    #[must_use]
    pub fn new(i0: FullIndex, i1: FullIndex) -> (r: Self)
        requires
            line_new_ok(i0.world_x() as u16, i0.world_y() as u16, i1.world_x() as u16, i1.world_y() as u16),
        ensures
            r.line == line_init(
                i0.world_x() as u16,
                i0.world_y() as u16,
                i1.world_x() as u16,
                i1.world_y() as u16,
            ),
    {
        let (x0, y0) = i0.to_u16();
        let (x1, y1) = i1.to_u16();
        Self { line: LineIter::new(x0, y0, x1, y1) }
    }

    /// The line from cell `i0` to where the velocity `vel` takes it in one step.
    #[must_use]
    pub fn new_vel(i0: FullIndex, vel: CellVelocity) -> (r: Self)
        requires
            0 <= moved_by(i0.world_x(), vel.x) <= 0xffff,
            0 <= moved_by(i0.world_y(), vel.y) <= 0xffff,
            line_new_ok(
                i0.world_x() as u16,
                i0.world_y() as u16,
                moved_by(i0.world_x(), vel.x) as u16,
                moved_by(i0.world_y(), vel.y) as u16,
            ),
        ensures
            r.line == line_init(
                i0.world_x() as u16,
                i0.world_y() as u16,
                moved_by(i0.world_x(), vel.x) as u16,
                moved_by(i0.world_y(), vel.y) as u16,
            ),
    {
        let (x0, y0) = i0.to_u16();
        let x1 = if vel.x > 0 {
            x0 + vel.x as u16
        } else {
            x0 - (0i16 - vel.x as i16) as u16
        };
        let y1 = if vel.y > 0 {
            y0 + vel.y as u16
        } else {
            y0 - (0i16 - vel.y as i16) as u16
        };
        Self { line: LineIter::new(x0, y0, x1, y1) }
    }
}
} // verus!
