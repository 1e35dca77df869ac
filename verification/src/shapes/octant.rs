use vstd::prelude::*;

verus! {

/// The eight octants of a circle, counterclockwise from the positive x axis.
#[derive(Clone, Copy, Debug, PartialEq, Eq, Structural)]
pub enum Octant {
    Zero,
    One,
    Two,
    Three,
    Four,
    Five,
    Six,
    Seven,
}

/// The eight points that mirror the offset `(dx, dy)` around `(x0, y0)` into each octant,
/// in octant order.
pub fn octant(x0: u16, y0: u16, dx: u16, dy: u16) -> (r: [(Octant, u16, u16); 8])
    requires
        x0 + dx <= u16::MAX,
        x0 + dy <= u16::MAX,
        y0 + dx <= u16::MAX,
        y0 + dy <= u16::MAX,
        x0 >= dx,
        x0 >= dy,
        y0 >= dx,
        y0 >= dy,
    ensures
        r@ == seq![
            (Octant::Zero, (x0 + dx) as u16, (y0 + dy) as u16),
            (Octant::One, (x0 + dy) as u16, (y0 + dx) as u16),
            (Octant::Two, (x0 - dy) as u16, (y0 + dx) as u16),
            (Octant::Three, (x0 - dx) as u16, (y0 + dy) as u16),
            (Octant::Four, (x0 - dx) as u16, (y0 - dy) as u16),
            (Octant::Five, (x0 - dy) as u16, (y0 - dx) as u16),
            (Octant::Six, (x0 + dy) as u16, (y0 - dx) as u16),
            (Octant::Seven, (x0 + dx) as u16, (y0 - dy) as u16),
        ],
{
    [
        (Octant::Zero, x0 + dx, y0 + dy),
        (Octant::One, x0 + dy, y0 + dx),
        (Octant::Two, x0 - dy, y0 + dx),
        (Octant::Three, x0 - dx, y0 + dy),
        (Octant::Four, x0 - dx, y0 - dy),
        (Octant::Five, x0 - dy, y0 - dx),
        (Octant::Six, x0 + dy, y0 - dx),
        (Octant::Seven, x0 + dx, y0 - dy),
    ]
}

} // verus!
