use crate::simulate_world::Direction;
use vstd::prelude::*;

verus! {

/// The kind of a cell, as an index into the table of cell kinds (`cells`).
pub type CellId = u16;

/// Number of kinds of cells in the table.
pub const CELL_COUNT: CellId = 10;

/// What every cell of one kind shares.
#[derive(Debug)]
pub struct CellData {
    pub color: CellColor,
    pub name: &'static str,
    pub density: u8,
    pub type_data: CellDataType,
}

#[derive(Debug)]
pub struct CellDataPhysics {}

#[derive(Debug)]
pub struct CellDataStatic {}

#[derive(Debug)]
pub struct CellDataGranular {}

#[derive(Debug)]
pub struct CellDataLiquid {}

#[derive(Debug)]
pub struct CellDataGas {}

#[derive(Debug)]
pub struct CellDataFire {}

#[derive(Debug)]
pub enum CellDataType {
    Physics(CellDataPhysics),
    Static(CellDataStatic),
    Granular(CellDataGranular),
    Liquid(CellDataLiquid),
    Gas(CellDataGas),
    Fire(CellDataFire),
    Air,
}

/// How a kind of cell behaves in the simulation.
#[derive(PartialEq, Eq, Structural, Clone, Copy, Debug)]
pub enum CellType {
    Physics,
    Static,
    Granular,
    Liquid,
    Gas,
    Fire,
    Air,
}

impl CellDataType {
    pub open spec fn kind(&self) -> CellType {
        match self {
            CellDataType::Physics(_) => CellType::Physics,
            CellDataType::Static(_) => CellType::Static,
            CellDataType::Granular(_) => CellType::Granular,
            CellDataType::Liquid(_) => CellType::Liquid,
            CellDataType::Gas(_) => CellType::Gas,
            CellDataType::Fire(_) => CellType::Fire,
            CellDataType::Air => CellType::Air,
        }
    }

    #[must_use]
    pub fn cell_type(&self) -> (r: CellType)
        ensures
            r == self.kind(),
    {
        match self {
            CellDataType::Physics(_) => CellType::Physics,
            CellDataType::Static(_) => CellType::Static,
            CellDataType::Granular(_) => CellType::Granular,
            CellDataType::Liquid(_) => CellType::Liquid,
            CellDataType::Gas(_) => CellType::Gas,
            CellDataType::Fire(_) => CellType::Fire,
            CellDataType::Air => CellType::Air,
        }
    }
}

/// An RGBA color.
#[derive(Debug, PartialEq, Eq, Structural, Clone, Copy)]
pub struct CellColor {
    pub r: u8,
    pub g: u8,
    pub b: u8,
    pub a: u8,
}

impl CellColor {
    /// The color of air: fully transparent black.
    pub open spec fn air_color() -> CellColor {
        CellColor { r: 0, g: 0, b: 0, a: 0 }
    }

    /// The color of air.
    pub fn air() -> (c: CellColor)
        ensures
            c == CellColor::air_color(),
    {
        CellColor { r: 0, g: 0, b: 0, a: 0 }
    }

    #[must_use]
    pub fn new(r: u8, g: u8, b: u8, a: u8) -> (c: Self)
        ensures
            c == (CellColor { r, g, b, a }),
    {
        Self { r, g, b, a }
    }

    #[must_use]
    pub fn is_air(self) -> (b: bool)
        ensures
            b == (self == CellColor::air_color()),
    {
        self == Self::air()
    }

    /// The four channels packed into one word, red in the lowest byte.
    #[must_use]
    pub fn as_u32(self) -> (v: u32)
        ensures
            v == self.r + self.g * 0x100 + self.b * 0x1_0000 + self.a * 0x100_0000,
    {
        (self.r as u32) + (self.g as u32) * 0x100 + (self.b as u32) * 0x1_0000 + (self.a as u32)
            * 0x100_0000
    }

    /// The channels in memory order: red, green, blue, alpha.
    #[must_use]
    pub fn to_array(self) -> (v: [u8; 4])
        ensures
            v@ == seq![self.r, self.g, self.b, self.a],
    {
        [self.r, self.g, self.b, self.a]
    }
}

/// Color of each kind of cell.
pub open spec fn kind_color(id: CellId) -> CellColor {
    if id == 0 {
        CellColor { r: 0x00, g: 0x00, b: 0x00, a: 0x00 }
    } else if id == 1 {
        CellColor { r: 0xff, g: 0x6a, b: 0x00, a: 0xff }
    } else if id == 2 {
        CellColor { r: 0x2f, g: 0x8f, b: 0xff, a: 0xff }
    } else if id == 3 {
        CellColor { r: 0xd8, g: 0xd8, b: 0xd8, a: 0xff }
    } else if id == 4 {
        CellColor { r: 0xb8, g: 0xf0, b: 0xff, a: 0xff }
    } else if id == 5 {
        CellColor { r: 0x8b, g: 0x5a, b: 0x2b, a: 0xff }
    } else if id == 6 {
        CellColor { r: 0x7a, g: 0x7a, b: 0x7a, a: 0xff }
    } else if id == 7 {
        CellColor { r: 0xc8, g: 0xc8, b: 0xd0, a: 0xff }
    } else if id == 8 {
        CellColor { r: 0x6b, g: 0x44, b: 0x22, a: 0xff }
    } else {
        CellColor { r: 0xcb, g: 0xbd, b: 0x93, a: 0xff }
    }
}

/// The name of each kind of cell.
pub open spec fn kind_name(id: CellId) -> Seq<char> {
    if id == 0 {
        "air"@
    } else if id == 1 {
        "fire"@
    } else if id == 2 {
        "water"@
    } else if id == 3 {
        "steam"@
    } else if id == 4 {
        "ice"@
    } else if id == 5 {
        "dirt"@
    } else if id == 6 {
        "stone"@
    } else if id == 7 {
        "iron"@
    } else if id == 8 {
        "wood"@
    } else {
        "sand"@
    }
}

/// Density of each kind of cell: a cell displaces lighter ones.
pub open spec fn kind_density(id: CellId) -> u8 {
    if id == 0 {
        0
    } else if id == 1 {
        1
    } else if id == 2 {
        64
    } else if id == 3 {
        32
    } else if id <= 8 {
        255
    } else {
        128
    }
}

/// Behaviour of each kind of cell: air, fire, water (liquid), steam (gas), ice, dirt, stone,
/// iron and wood (static), sand (granular).
pub open spec fn kind_type(id: CellId) -> CellType {
    if id == 0 {
        CellType::Air
    } else if id == 1 {
        CellType::Fire
    } else if id == 2 {
        CellType::Liquid
    } else if id == 3 {
        CellType::Gas
    } else if id <= 8 {
        CellType::Static
    } else {
        CellType::Granular
    }
}

/// The table of cell kinds: the data of kind `id`.
pub fn cells(id: CellId) -> (d: CellData)
    requires
        id < CELL_COUNT,
    ensures
        d.name@ == kind_name(id),
        d.color == kind_color(id),
        d.density == kind_density(id),
        d.type_data.kind() == kind_type(id),
{
    if id == 0 {
        CellData {
            color: CellColor { r: 0x00, g: 0x00, b: 0x00, a: 0x00 },
            name: "air",
            type_data: CellDataType::Air,
            density: 0,
        }
    } else if id == 1 {
        CellData {
            color: CellColor { r: 0xff, g: 0x6a, b: 0x00, a: 0xff },
            name: "fire",
            type_data: CellDataType::Fire(CellDataFire {  }),
            density: 1,
        }
    } else if id == 2 {
        CellData {
            color: CellColor { r: 0x2f, g: 0x8f, b: 0xff, a: 0xff },
            name: "water",
            type_data: CellDataType::Liquid(CellDataLiquid {  }),
            density: 64,
        }
    } else if id == 3 {
        CellData {
            color: CellColor { r: 0xd8, g: 0xd8, b: 0xd8, a: 0xff },
            name: "steam",
            type_data: CellDataType::Gas(CellDataGas {  }),
            density: 32,
        }
    } else if id == 4 {
        CellData {
            color: CellColor { r: 0xb8, g: 0xf0, b: 0xff, a: 0xff },
            name: "ice",
            type_data: CellDataType::Static(CellDataStatic {  }),
            density: 255,
        }
    } else if id == 5 {
        CellData {
            color: CellColor { r: 0x8b, g: 0x5a, b: 0x2b, a: 0xff },
            name: "dirt",
            type_data: CellDataType::Static(CellDataStatic {  }),
            density: 255,
        }
    } else if id == 6 {
        CellData {
            color: CellColor { r: 0x7a, g: 0x7a, b: 0x7a, a: 0xff },
            name: "stone",
            type_data: CellDataType::Static(CellDataStatic {  }),
            density: 255,
        }
    } else if id == 7 {
        CellData {
            color: CellColor { r: 0xc8, g: 0xc8, b: 0xd0, a: 0xff },
            name: "iron",
            type_data: CellDataType::Static(CellDataStatic {  }),
            density: 255,
        }
    } else if id == 8 {
        CellData {
            color: CellColor { r: 0x6b, g: 0x44, b: 0x22, a: 0xff },
            name: "wood",
            type_data: CellDataType::Static(CellDataStatic {  }),
            density: 255,
        }
    } else {
        CellData {
            color: CellColor { r: 0xcb, g: 0xbd, b: 0x93, a: 0xff },
            name: "sand",
            type_data: CellDataType::Granular(CellDataGranular {  }),
            density: 128,
        }
    }
}

/// A cell's velocity in cells per step.
#[derive(Clone, Copy, Debug, PartialEq, Eq, Structural)]
pub struct CellVelocity {
    pub x: i8,
    pub y: i8,
}

impl Default for CellVelocity {
    fn default() -> (v: Self)
        ensures
            v == (CellVelocity { x: 0, y: 0 }),
    {
        CellVelocity { x: 0, y: 0 }
    }
}

impl CellVelocity {
    #[must_use]
    pub fn is_zero(self) -> (b: bool)
        ensures
            b == (self.x == 0 && self.y == 0),
    {
        self.x == 0 && self.y == 0
    }

    /// The velocity turned toward `direction`, its magnitude read from `self`.
    pub open spec fn turned(self, direction: Direction) -> CellVelocity {
        let x = self.x;
        let y = self.y;
        match direction {
            Direction::UpLeft => CellVelocity { x: y, y: (-y) as i8 },
            Direction::Up => CellVelocity { x, y: (-y) as i8 },
            Direction::UpRight => CellVelocity { x: (-y) as i8, y: (-y) as i8 },
            Direction::Left => CellVelocity { x: (-y) as i8, y: x },
            Direction::Right => CellVelocity { x: y, y: x },
            Direction::DownLeft => CellVelocity { x: y, y },
            Direction::Down => CellVelocity { x, y },
            Direction::DownRight => CellVelocity { x: (-y) as i8, y },
        }
    }

    /// Turning a velocity toward a direction points it that way. For a cell moving down
    /// (`y < 0`), the velocity turned toward a diagonal direction has that direction's sign on
    /// each axis, turned up it rises, and turned down it is unchanged. Whatever the velocity,
    /// turning toward a left direction gives the mirror image in x of turning toward the
    /// matching right direction, and turning up the mirror image in y of turning down.
    pub proof fn lemma_turned_points_its_way(self)
        requires
            self.y != i8::MIN,
        ensures
            self.turned(Direction::DownLeft).x == -self.turned(Direction::DownRight).x,
            self.turned(Direction::DownLeft).y == self.turned(Direction::DownRight).y,
            self.turned(Direction::UpLeft).x == -self.turned(Direction::UpRight).x,
            self.turned(Direction::UpLeft).y == self.turned(Direction::UpRight).y,
            self.turned(Direction::Left).x == -self.turned(Direction::Right).x,
            self.turned(Direction::Left).y == self.turned(Direction::Right).y,
            self.turned(Direction::UpLeft).x == self.turned(Direction::DownLeft).x,
            self.turned(Direction::UpLeft).y == -self.turned(Direction::DownLeft).y,
            self.turned(Direction::UpRight).x == self.turned(Direction::DownRight).x,
            self.turned(Direction::UpRight).y == -self.turned(Direction::DownRight).y,
            self.turned(Direction::Up).x == self.turned(Direction::Down).x,
            self.turned(Direction::Up).y == -self.turned(Direction::Down).y,
            self.turned(Direction::Down) == self,
            self.y < 0 ==> {
                &&& self.turned(Direction::DownLeft).x < 0 && self.turned(Direction::DownLeft).y < 0
                &&& self.turned(Direction::DownRight).x > 0 && self.turned(Direction::DownRight).y < 0
                &&& self.turned(Direction::UpLeft).x < 0 && self.turned(Direction::UpLeft).y > 0
                &&& self.turned(Direction::UpRight).x > 0 && self.turned(Direction::UpRight).y > 0
                &&& self.turned(Direction::Up).y > 0
            },
    {
    }

    #[must_use]
    pub fn to_dir(self, direction: Direction) -> (v: Self)
        requires
            self.y != i8::MIN,
        ensures
            v == self.turned(direction),
    {
        let x = self.x;
        let y = self.y;
        match direction {
            Direction::UpLeft => Self { x: y, y: -y },
            Direction::Up => Self { x, y: -y },
            Direction::UpRight => Self { x: -y, y: -y },
            Direction::Left => Self { x: -y, y: x },
            Direction::Right => Self { x: y, y: x },
            Direction::DownLeft => Self { x: y, y },
            Direction::Down => Self { x, y },
            Direction::DownRight => Self { x: -y, y },
        }
    }
}

/// Accumulated friction of a cell: when an axis's accumulator wraps, the cell slows by one.
#[derive(Clone, Copy, Debug, PartialEq, Eq, Structural)]
pub struct CellFriction {
    pub x: u8,
    pub y: u8,
}

impl Default for CellFriction {
    fn default() -> (v: Self)
        ensures
            v == (CellFriction { x: 0, y: 0 }),
    {
        CellFriction { x: 0, y: 0 }
    }
}

/// One cell of the world.
#[derive(Clone, Copy, Debug, PartialEq, Eq, Structural)]
pub struct Cell {
    pub id: CellId,
    pub last_changed: u8,
    pub velocity: CellVelocity,
    pub friction: CellFriction,
    pub gravity_part: u8,
}

/// `acc + i` wrapped to a byte, and whether it wrapped.
pub open spec fn wrap_add(acc: u8, i: u8) -> (u8, bool) {
    if acc + i > 255 {
        ((acc + i - 256) as u8, true)
    } else {
        ((acc + i) as u8, false)
    }
}

/// One axis of friction: the speed moves one step toward zero when the accumulator wraps.
pub open spec fn friction_axis(f: i8, r: u8, i: u8) -> (i8, u8) {
    let (n, over) = wrap_add(r, i);
    if over {
        (if f > 0 {
            (f - 1) as i8
        } else {
            (f + 1) as i8
        }, n)
    } else {
        (f, n)
    }
}

fn friction_run(f: &mut i8, r: &mut u8, i: u8)
    ensures
        (*final(f), *final(r)) == friction_axis(*old(f), *old(r), i),
{
    let n = r.wrapping_add(i);
    let over = n < i;
    *r = n;
    if over {
        if *f > 0 {
            *f = *f - 1;
        } else {
            *f = *f + 1;
        }
    }
}

impl Cell {
    /// A cell of a known kind, moving at most 4 cells per step on each axis.
    pub open spec fn valid(self) -> bool {
        &&& self.id < CELL_COUNT
        &&& -4 <= self.velocity.x <= 4
        &&& -4 <= self.velocity.y <= 4
    }

    /// A fresh cell of kind `id`, at rest.
    pub open spec fn fresh(id: CellId) -> Cell {
        Cell {
            id,
            last_changed: 0,
            velocity: CellVelocity { x: 0, y: 0 },
            friction: CellFriction { x: 0, y: 0 },
            gravity_part: 0,
        }
    }

    pub open spec fn kind(self) -> CellType {
        kind_type(self.id)
    }

    pub open spec fn collides(self) -> bool {
        self.kind() == CellType::Static || self.kind() == CellType::Granular
    }

    #[must_use]
    pub fn new(id: CellId) -> (c: Self)
        requires
            id < CELL_COUNT,
        ensures
            c == Cell::fresh(id),
    {
        Self {
            id,
            last_changed: 0,
            velocity: CellVelocity::default(),
            friction: CellFriction::default(),
            gravity_part: 0,
        }
    }

    /// The data of this cell's kind.
    pub fn cell_data(&self) -> (d: CellData)
        requires
            self.id < CELL_COUNT,
        ensures
            d.color == kind_color(self.id),
            d.density == kind_density(self.id),
            d.type_data.kind() == kind_type(self.id),
    {
        cells(self.id)
    }

    /// Slows the cell: each moving axis adds its amount to its friction accumulator, and when
    /// that wraps past 255 the speed on that axis moves one step toward zero.
    pub fn friction(&mut self, x: u8, y: u8)
        ensures
            final(self).id == old(self).id,
            final(self).last_changed == old(self).last_changed,
            final(self).gravity_part == old(self).gravity_part,
            old(self).velocity.x != 0 ==> (final(self).velocity.x, final(self).friction.x)
                == friction_axis(old(self).velocity.x, old(self).friction.x, x),
            old(self).velocity.x == 0 ==> final(self).velocity.x == 0 && final(self).friction.x
                == old(self).friction.x,
            old(self).velocity.y != 0 ==> (final(self).velocity.y, final(self).friction.y)
                == friction_axis(old(self).velocity.y, old(self).friction.y, y),
            old(self).velocity.y == 0 ==> final(self).velocity.y == 0 && final(self).friction.y
                == old(self).friction.y,
    {
        if self.velocity.x != 0 {
            friction_run(&mut self.velocity.x, &mut self.friction.x, x);
        }
        if self.velocity.y != 0 {
            friction_run(&mut self.velocity.y, &mut self.friction.y, y);
        }
    }

    /// The cell after `gravity(val)`.
    pub open spec fn pulled(self, val: u8) -> Cell {
        if self.velocity.y > -4 {
            Cell {
                gravity_part: wrap_add(self.gravity_part, val).0,
                velocity: CellVelocity {
                    y: if wrap_add(self.gravity_part, val).1 {
                        (self.velocity.y - 1) as i8
                    } else {
                        self.velocity.y
                    },
                    ..self.velocity
                },
                ..self
            }
        } else {
            self
        }
    }

    /// The cell after `reverse_gravity(val)`.
    pub open spec fn pushed(self, val: u8) -> Cell {
        if self.velocity.y < 4 {
            Cell {
                gravity_part: wrap_add(self.gravity_part, val).0,
                velocity: CellVelocity {
                    y: if wrap_add(self.gravity_part, val).1 {
                        (self.velocity.y + 1) as i8
                    } else {
                        self.velocity.y
                    },
                    ..self.velocity
                },
                ..self
            }
        } else {
            self
        }
    }

    /// Accelerates the cell downward: `val` is added to the gravity accumulator, and each
    /// time it wraps the vertical speed drops by one, down to -4.
    pub fn gravity(&mut self, val: u8)
        ensures
            *final(self) == old(self).pulled(val),
    {
        if self.velocity.y > -4 {
            let n = self.gravity_part.wrapping_add(val);
            let over = n < val;
            self.gravity_part = n;
            if over {
                self.velocity.y = self.velocity.y - 1;
            }
        }
    }

    /// Accelerates the cell upward, up to a speed of 4; the mirror image of `gravity`.
    pub fn reverse_gravity(&mut self, val: u8)
        ensures
            *final(self) == old(self).pushed(val),
    {
        if self.velocity.y < 4 {
            let n = self.gravity_part.wrapping_add(val);
            let over = n < val;
            self.gravity_part = n;
            if over {
                self.velocity.y = self.velocity.y + 1;
            }
        }
    }

    #[must_use]
    pub fn is_air(&self) -> (b: bool)
        requires
            self.id < CELL_COUNT,
        ensures
            b == (kind_color(self.id) == CellColor::air_color()),
    {
        self.color().is_air()
    }

    #[must_use]
    pub fn is_collider(&self) -> (b: bool)
        requires
            self.id < CELL_COUNT,
        ensures
            b == self.collides(),
    {
        match self.cell_type() {
            CellType::Static | CellType::Granular => true,
            _ => false,
        }
    }

    #[must_use]
    pub fn color(&self) -> (c: CellColor)
        requires
            self.id < CELL_COUNT,
        ensures
            c == kind_color(self.id),
    {
        cells(self.id).color
    }

    #[must_use]
    pub fn cell_type(&self) -> (t: CellType)
        requires
            self.id < CELL_COUNT,
        ensures
            t == self.kind(),
    {
        cells(self.id).type_data.cell_type()
    }

    #[must_use]
    pub fn id(&self) -> (i: CellId)
        ensures
            i == self.id,
    {
        self.id
    }

    #[must_use]
    pub fn density(&self) -> (d: u8)
        requires
            self.id < CELL_COUNT,
        ensures
            d == kind_density(self.id),
    {
        cells(self.id).density
    }

    /// Whether this cell may displace `other`: it is strictly denser. This is the rule of the
    /// pass that moves cells along their velocity (`try_swap`); the pass that moves cells to
    /// nearby places goes by kind instead (`can_displace`).
    #[must_use]
    pub fn can_move(&self, other: &Self) -> (b: bool)
        requires
            self.id < CELL_COUNT,
            other.id < CELL_COUNT,
        ensures
            b == (kind_density(self.id) > kind_density(other.id)),
    {
        self.density() > other.density()
    }

    /// Whether this cell may take the place of `other` in the pass that moves cells to nearby
    /// places (`try_swap_nearby`): `other` is a liquid, a gas or air, and of another kind than
    /// this cell. The pass along velocities goes by density instead (`can_move`).
    #[must_use]
    pub fn can_displace(&self, other: &Self) -> (b: bool)
        requires
            self.id < CELL_COUNT,
            other.id < CELL_COUNT,
        ensures
            b == displaces(self.id, other.id),
    {
        let t = other.cell_type();
        (t == CellType::Liquid || t == CellType::Gas || t == CellType::Air) && self.id != other.id
    }

    /// Turns the cell into one of kind `id`, keeping its motion.
    pub fn into(&mut self, id: CellId)
        requires
            id < CELL_COUNT,
        ensures
            *final(self) == (Cell { id, ..*old(self) }),
    {
        self.id = id;
    }
}

/// A cell of kind `a` may take the place of a cell of kind `b` in the neighbour pass: `b` is a
/// liquid, a gas or air, and `b` is another kind than `a`.
pub open spec fn displaces(a: CellId, b: CellId) -> bool {
    &&& (kind_type(b) == CellType::Liquid || kind_type(b) == CellType::Gas || kind_type(b) == CellType::Air)
    &&& a != b
}

/// Only air is transparent: a cell is air exactly when its kind is air.
pub proof fn lemma_air_is_kind_zero(id: CellId)
    requires
        id < CELL_COUNT,
    ensures
        (kind_color(id) == CellColor::air_color()) <==> (id == 0),
        (kind_color(id) == CellColor::air_color()) <==> (kind_type(id) == CellType::Air),
{
}

/// Air is the lightest kind and the static kinds the heaviest: nothing displaces a static
/// cell, and every non-air cell displaces air.
pub proof fn lemma_density_order(a: CellId, b: CellId)
    requires
        a < CELL_COUNT,
        b < CELL_COUNT,
    ensures
        kind_type(b) == CellType::Static ==> !(kind_density(a) > kind_density(b)),
        kind_type(b) == CellType::Air && kind_type(a) != CellType::Air ==> kind_density(a)
            > kind_density(b),
{
}

/// Gravity and reverse gravity keep a cell that moves within bounds within bounds; neither
/// changes its kind.
pub proof fn lemma_gravity_keeps_cell_valid(c: Cell, val: u8)
    requires
        c.valid(),
    ensures
        c.pulled(val).valid(),
        c.pushed(val).valid(),
        c.pulled(val).id == c.id,
        c.pushed(val).id == c.id,
{
}

} // verus!
