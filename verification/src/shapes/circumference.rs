use crate::shapes::line::{lemma_signed16, signed16};
use vstd::prelude::*;

verus! {

/// The points of one eighth of a circle's circumference, from (r, 0) while x >= y: the
/// offsets (x, y) of a midpoint walk.
pub struct Circumference {
    x: u16,
    y: u16,
    error: u16,
}

impl View for Circumference {
    type V = (u16, u16, u16);

    /// The walk's state: (x, y, error).
    closed spec fn view(&self) -> (u16, u16, u16) {
        (self.x, self.y, self.error)
    }
}

/// The walk is over: x has fallen below y, both read as signed.
pub open spec fn circ_done(s: (u16, u16, u16)) -> bool {
    signed16(s.0) < signed16(s.1)
}

/// One step of the walk may be taken without overflow.
pub open spec fn circ_step_ok(s: (u16, u16, u16)) -> bool {
    s.1 < 0xffff && s.2 + s.1 + 1 <= 0xffff
}

/// One step of the walk: y grows by one and adds to the error; once the error reaches x, x
/// is paid out of it and x shrinks by one (wrapping below zero).
pub open spec fn circ_step(s: (u16, u16, u16)) -> (u16, u16, u16) {
    let y = s.1 + 1;
    let e = s.2 + y;
    if e >= s.0 {
        (if s.0 == 0 {
            0xffff
        } else {
            (s.0 - 1) as u16
        }, y as u16, (e - s.0) as u16)
    } else {
        (s.0, y as u16, e as u16)
    }
}

/// A state from which the walk runs to its end without overflow: either over, with y still
/// small, or with y at most x, the error at most x, and x at most 0x7fff; while x is still
/// 0x7fff, the error holds at least y(y + 1) / 2, which keeps y far from overflowing.
pub open spec fn circ_wf(s: (u16, u16, u16)) -> bool {
    ||| s.1 <= 0x7fff && circ_done(s)
    ||| s.0 <= 0x7fff && s.1 <= s.0 && s.2 <= s.0 && (s.0 == 0x7fff ==> s.1 * (s.1 + 1) <= 2 * s.2)
}

/// Each step from a well-formed state can be taken and leads to a well-formed state.
pub proof fn lemma_circ_wf_step(s: (u16, u16, u16))
    requires
        circ_wf(s),
        !circ_done(s),
    ensures
        circ_step_ok(s),
        circ_wf(circ_step(s)),
{
    let x = s.0 as int;
    let y = s.1 as int;
    let e = s.2 as int;
    if x == 0x7fff {
        assert(y <= 255) by (nonlinear_arith)
            requires
                y * (y + 1) <= 2 * e,
                e <= 0x7fff,
                0 <= y,
        ;
        if e + y + 1 < x {
            assert((y + 1) * (y + 1 + 1) == y * (y + 1) + 2 * (y + 1)) by (nonlinear_arith);
        }
    }
}

/// The walk started from radius `r` keeps close to the circle of that radius: with x read as
/// signed, x never exceeds r, and x(x+1) + y(y+1) is r(r+1) plus twice what the error gained
/// over its head start.
pub open spec fn circ_near(s: (u16, u16, u16), r: u16) -> bool {
    &&& signed16(s.0) <= r
    &&& signed16(s.0) * (signed16(s.0) + 1) + s.1 * (s.1 + 1) == r * (r + 1) + 2 * s.2 - 2 * (r / 16)
}

/// Each step of a well-formed walk keeps it close to its circle.
pub proof fn lemma_circ_near_step(s: (u16, u16, u16), r: u16)
    requires
        circ_wf(s),
        !circ_done(s),
        circ_near(s, r),
    ensures
        circ_near(circ_step(s), r),
{
    lemma_circ_wf_step(s);
    let x = s.0 as int;
    let y = s.1 as int;
    let t = circ_step(s);
    if s.2 + y + 1 >= x {
        assert(signed16(t.0) == x - 1);
        assert((x - 1) * (x - 1 + 1) + (y + 1) * (y + 1 + 1) == x * (x + 1) + y * (y + 1) - 2 * x + 2 * (y
            + 1)) by (nonlinear_arith);
    } else {
        assert(signed16(t.0) == x);
        assert(x * (x + 1) + (y + 1) * (y + 1 + 1) == x * (x + 1) + y * (y + 1) + 2 * (y + 1))
            by (nonlinear_arith);
    }
}

/// A point of a well-formed walk close to the circle of radius `r` lies strictly inside the
/// circle of radius `r + 1`.
pub proof fn lemma_circ_point_near(s: (u16, u16, u16), r: u16)
    requires
        circ_wf(s),
        !circ_done(s),
        circ_near(s, r),
    ensures
        s.0 * s.0 + s.1 * s.1 < (r + 1) * (r + 1),
{
    let x = s.0 as int;
    let y = s.1 as int;
    let rr = r as int;
    assert(signed16(s.0) == x);
    assert(x * (x + 1) == x * x + x && y * (y + 1) == y * y + y && rr * (rr + 1) == rr * rr + rr && (rr
        + 1) * (rr + 1) == rr * rr + 2 * rr + 1) by (nonlinear_arith);
}

impl Circumference {
    /// The walk for the radius `r`, starting at (r, 0) with a small head start on the error.
    /// The walk is well formed for every radius.
    #[must_use]
    pub fn new(r: u16) -> (c: Self)
        ensures
            c@ == (r, 0u16, r / 16),
            circ_wf(c@),
    {
        Circumference { x: r, y: 0, error: r / 16 }
    }

    /// The next point of the walk, or `None` once it is over (and then nothing changes).
    pub fn next(&mut self) -> (r: Option<(u16, u16)>)
        requires
            !circ_done(old(self)@) ==> circ_step_ok(old(self)@),
        ensures
            match r {
                None => circ_done(old(self)@) && final(self)@ == old(self)@,
                Some(p) => !circ_done(old(self)@) && p == (old(self)@.0, old(self)@.1) && final(self)@
                    == circ_step(old(self)@),
            },
            circ_wf(old(self)@) ==> circ_wf(final(self)@),
    {
        proof {
            lemma_signed16(self.x);
            lemma_signed16(self.y);
        }
        if (self.x as i16) < (self.y as i16) {
            None
        } else {
            let (x, y) = (self.x, self.y);
            self.y = self.y + 1;
            self.error = self.error + self.y;
            if self.error >= self.x {
                self.error = self.error - self.x;
                self.x = self.x.wrapping_sub(1);
            }
            proof {
                if circ_wf(old(self)@) {
                    lemma_circ_wf_step(old(self)@);
                }
            }
            Some((x, y))
        }
    }
}

} // verus!
