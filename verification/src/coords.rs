use vstd::prelude::*;
use vstd::math::abs;
use vstd::std_specs::convert::FromSpec;

verus! {

/// A compass direction on a grid whose y axis grows downward:
/// `N` is (0, -1), `E` is (1, 0), `S` is (0, 1), `W` is (-1, 0).
#[derive(Clone, Copy, Debug, Eq, PartialEq, Hash, Ord, PartialOrd, Structural)]
pub enum CDir {
    N,
    E,
    S,
    W,
}

/// The direction a quarter turn counterclockwise from `d` (on a
/// y-grows-downward grid, the turn to the left of a walker facing `d`).
pub open spec fn spec_left(d: CDir) -> CDir {
    match d {
        CDir::N => CDir::W,
        CDir::E => CDir::N,
        CDir::S => CDir::E,
        CDir::W => CDir::S,
    }
}

/// The direction a quarter turn clockwise from `d`.
pub open spec fn spec_right(d: CDir) -> CDir {
    match d {
        CDir::N => CDir::E,
        CDir::E => CDir::S,
        CDir::S => CDir::W,
        CDir::W => CDir::N,
    }
}

impl CDir {
    pub fn left(&self) -> (r: Self)
        ensures
            r == spec_left(*self),
    {
        match self {
            CDir::N => CDir::W,
            CDir::E => CDir::N,
            CDir::S => CDir::E,
            CDir::W => CDir::S,
        }
    }

    pub fn right(&self) -> (r: Self)
        ensures
            r == spec_right(*self),
    {
        match self {
            CDir::N => CDir::E,
            CDir::E => CDir::S,
            CDir::S => CDir::W,
            CDir::W => CDir::N,
        }
    }
}

/// Turning left then right (or right then left) comes back to the
/// starting direction, and four equal quarter turns make a full circle.
pub proof fn lemma_turns_cancel(d: CDir)
    ensures
        spec_right(spec_left(d)) == d,
        spec_left(spec_right(d)) == d,
        spec_left(spec_left(spec_left(spec_left(d)))) == d,
        spec_right(spec_right(spec_right(spec_right(d)))) == d,
{
}

#[derive(Clone, Copy, Debug, Eq, PartialEq, Structural)]
pub enum Turn {
    L,
    R,
}

impl vstd::std_specs::ops::AddSpecImpl<Turn> for CDir {
    open spec fn obeys_add_spec() -> bool {
        true
    }

    open spec fn add_req(self, other: Turn) -> bool {
        true
    }

    open spec fn add_spec(self, other: Turn) -> CDir {
        match other {
            Turn::L => spec_left(self),
            Turn::R => spec_right(self),
        }
    }
}

impl core::ops::Add<Turn> for CDir {
    type Output = Self;

    fn add(self, other: Turn) -> (r: Self) {
        match other {
            Turn::L => self.left(),
            Turn::R => self.right(),
        }
    }
}

/// The direction opposite to `d`.
pub open spec fn spec_opposite(d: CDir) -> CDir {
    match d {
        CDir::N => CDir::S,
        CDir::E => CDir::W,
        CDir::S => CDir::N,
        CDir::W => CDir::E,
    }
}

impl vstd::std_specs::ops::NegSpecImpl for CDir {
    open spec fn obeys_neg_spec() -> bool {
        true
    }

    open spec fn neg_req(self) -> bool {
        true
    }

    open spec fn neg_spec(self) -> CDir {
        spec_opposite(self)
    }
}

impl core::ops::Neg for CDir {
    type Output = Self;

    fn neg(self) -> (r: Self) {
        match self {
            CDir::N => CDir::S,
            CDir::E => CDir::W,
            CDir::W => CDir::E,
            CDir::S => CDir::N,
        }
    }
}

/// A point (or offset) on the integer plane.
#[derive(Clone, Copy, Debug, Eq, Hash, PartialEq, Ord, PartialOrd, Structural)]
pub struct Coord2D {
    pub x: i64,
    pub y: i64,
}

impl Coord2D {
    pub fn new(x: i64, y: i64) -> (r: Self)
        ensures
            r == (Coord2D { x, y }),
    {
        Coord2D { x, y }
    }

    /// The unit vector along the x axis.
    pub fn x() -> (r: Self)
        ensures
            r == (Coord2D { x: 1i64, y: 0i64 }),
    {
        Coord2D { x: 1, y: 0 }
    }

    /// The unit vector along the y axis.
    pub fn y() -> (r: Self)
        ensures
            r == (Coord2D { x: 0i64, y: 1i64 }),
    {
        Coord2D { x: 0, y: 1 }
    }

    /// The four orthogonal neighbors, in the order up, left, right, down.
    pub fn neighbors4(&self) -> (r: Vec<Self>)
        requires
            i64::MIN < self.x < i64::MAX,
            i64::MIN < self.y < i64::MAX,
        ensures
            r@ =~= seq![
                Coord2D { x: self.x, y: (self.y - 1) as i64 },
                Coord2D { x: (self.x - 1) as i64, y: self.y },
                Coord2D { x: (self.x + 1) as i64, y: self.y },
                Coord2D { x: self.x, y: (self.y + 1) as i64 },
            ],
    {
        let mut v: Vec<Coord2D> = Vec::new();
        v.push(Coord2D { x: self.x, y: self.y - 1 });
        v.push(Coord2D { x: self.x - 1, y: self.y });
        v.push(Coord2D { x: self.x + 1, y: self.y });
        v.push(Coord2D { x: self.x, y: self.y + 1 });
        v
    }

    /// All eight neighbors, in row-major order of their offsets.
    pub fn neighbors8(&self) -> (r: Vec<Self>)
        requires
            i64::MIN < self.x < i64::MAX,
            i64::MIN < self.y < i64::MAX,
        ensures
            r@ =~= seq![
                Coord2D { x: (self.x - 1) as i64, y: (self.y - 1) as i64 },
                Coord2D { x: self.x, y: (self.y - 1) as i64 },
                Coord2D { x: (self.x + 1) as i64, y: (self.y - 1) as i64 },
                Coord2D { x: (self.x - 1) as i64, y: self.y },
                Coord2D { x: (self.x + 1) as i64, y: self.y },
                Coord2D { x: (self.x - 1) as i64, y: (self.y + 1) as i64 },
                Coord2D { x: self.x, y: (self.y + 1) as i64 },
                Coord2D { x: (self.x + 1) as i64, y: (self.y + 1) as i64 },
            ],
    {
        let mut v: Vec<Coord2D> = Vec::new();
        v.push(Coord2D { x: self.x - 1, y: self.y - 1 });
        v.push(Coord2D { x: self.x, y: self.y - 1 });
        v.push(Coord2D { x: self.x + 1, y: self.y - 1 });
        v.push(Coord2D { x: self.x - 1, y: self.y });
        v.push(Coord2D { x: self.x + 1, y: self.y });
        v.push(Coord2D { x: self.x - 1, y: self.y + 1 });
        v.push(Coord2D { x: self.x, y: self.y + 1 });
        v.push(Coord2D { x: self.x + 1, y: self.y + 1 });
        v
    }

    /// Manhattan distance between the two points.
    pub fn mdist_to(&self, other: &Self) -> (r: i64)
        requires
            abs(self.x - other.x) + abs(self.y - other.y) <= i64::MAX,
        ensures
            r == abs(self.x - other.x) + abs(self.y - other.y),
    {
        let dx = if self.x >= other.x {
            self.x - other.x
        } else {
            other.x - self.x
        };
        let dy = if self.y >= other.y {
            self.y - other.y
        } else {
            other.y - self.y
        };
        dx + dy
    }
}

impl vstd::std_specs::convert::FromSpecImpl<CDir> for Coord2D {
    open spec fn obeys_from_spec() -> bool {
        true
    }

    open spec fn from_spec(d: CDir) -> Coord2D {
        match d {
            CDir::N => Coord2D { x: 0i64, y: -1i64 },
            CDir::E => Coord2D { x: 1i64, y: 0i64 },
            CDir::S => Coord2D { x: 0i64, y: 1i64 },
            CDir::W => Coord2D { x: -1i64, y: 0i64 },
        }
    }
}

impl From<CDir> for Coord2D {
    fn from(value: CDir) -> (r: Self) {
        match value {
            CDir::N => Coord2D { x: 0, y: -1 },
            CDir::E => Coord2D { x: 1, y: 0 },
            CDir::S => Coord2D { x: 0, y: 1 },
            CDir::W => Coord2D { x: -1, y: 0 },
        }
    }
}

impl vstd::std_specs::convert::FromSpecImpl<(i64, i64)> for Coord2D {
    open spec fn obeys_from_spec() -> bool {
        true
    }

    open spec fn from_spec(value: (i64, i64)) -> Coord2D {
        Coord2D { x: value.0, y: value.1 }
    }
}

impl From<(i64, i64)> for Coord2D {
    fn from(value: (i64, i64)) -> (r: Self) {
        Coord2D { x: value.0, y: value.1 }
    }
}

impl vstd::std_specs::ops::AddSpecImpl<Coord2D> for Coord2D {
    open spec fn obeys_add_spec() -> bool {
        true
    }

    open spec fn add_req(self, other: Coord2D) -> bool {
        &&& i64::MIN <= self.x + other.x <= i64::MAX
        &&& i64::MIN <= self.y + other.y <= i64::MAX
    }

    open spec fn add_spec(self, other: Coord2D) -> Coord2D {
        Coord2D { x: (self.x + other.x) as i64, y: (self.y + other.y) as i64 }
    }
}

impl core::ops::Add<Coord2D> for Coord2D {
    type Output = Self;

    fn add(self, other: Coord2D) -> (r: Self) {
        Coord2D { x: self.x + other.x, y: self.y + other.y }
    }
}

impl vstd::std_specs::ops::AddSpecImpl<CDir> for Coord2D {
    open spec fn obeys_add_spec() -> bool {
        true
    }

    open spec fn add_req(self, other: CDir) -> bool {
        &&& i64::MIN <= self.x + Coord2D::from_spec(other).x <= i64::MAX
        &&& i64::MIN <= self.y + Coord2D::from_spec(other).y <= i64::MAX
    }

    open spec fn add_spec(self, other: CDir) -> Coord2D {
        Coord2D {
            x: (self.x + Coord2D::from_spec(other).x) as i64,
            y: (self.y + Coord2D::from_spec(other).y) as i64,
        }
    }
}

impl core::ops::Add<CDir> for Coord2D {
    type Output = Self;

    fn add(self, other: CDir) -> (r: Self) {
        let o = Coord2D::from(other);
        Coord2D { x: self.x + o.x, y: self.y + o.y }
    }
}

impl vstd::std_specs::ops::SubSpecImpl<Coord2D> for Coord2D {
    open spec fn obeys_sub_spec() -> bool {
        true
    }

    open spec fn sub_req(self, other: Coord2D) -> bool {
        &&& i64::MIN <= self.x - other.x <= i64::MAX
        &&& i64::MIN <= self.y - other.y <= i64::MAX
    }

    open spec fn sub_spec(self, other: Coord2D) -> Coord2D {
        Coord2D { x: (self.x - other.x) as i64, y: (self.y - other.y) as i64 }
    }
}

impl core::ops::Sub<Coord2D> for Coord2D {
    type Output = Self;

    fn sub(self, other: Coord2D) -> (r: Self) {
        Coord2D { x: self.x - other.x, y: self.y - other.y }
    }
}

impl vstd::std_specs::ops::MulSpecImpl<i64> for Coord2D {
    open spec fn obeys_mul_spec() -> bool {
        true
    }

    open spec fn mul_req(self, other: i64) -> bool {
        &&& i64::MIN <= self.x * other <= i64::MAX
        &&& i64::MIN <= self.y * other <= i64::MAX
    }

    open spec fn mul_spec(self, other: i64) -> Coord2D {
        Coord2D { x: (self.x * other) as i64, y: (self.y * other) as i64 }
    }
}

impl core::ops::Mul<i64> for Coord2D {
    type Output = Self;

    fn mul(self, other: i64) -> (r: Self) {
        Coord2D { x: self.x * other, y: self.y * other }
    }
}

/// A point (or offset) in integer three-dimensional space.
#[derive(Clone, Copy, Debug, Eq, Hash, PartialEq, Structural)]
pub struct Coord3D {
    pub x: i64,
    pub y: i64,
    pub z: i64,
}

impl Coord3D {
    pub fn new(x: i64, y: i64, z: i64) -> (r: Self)
        ensures
            r == (Coord3D { x, y, z }),
    {
        Coord3D { x, y, z }
    }

    /// The unit vector along the x axis.
    pub fn x() -> (r: Self)
        ensures
            r == (Coord3D { x: 1i64, y: 0i64, z: 0i64 }),
    {
        Coord3D { x: 1, y: 0, z: 0 }
    }

    /// The unit vector along the y axis.
    pub fn y() -> (r: Self)
        ensures
            r == (Coord3D { x: 0i64, y: 1i64, z: 0i64 }),
    {
        Coord3D { x: 0, y: 1, z: 0 }
    }

    /// The unit vector along the z axis.
    pub fn z() -> (r: Self)
        ensures
            r == (Coord3D { x: 0i64, y: 0i64, z: 1i64 }),
    {
        Coord3D { x: 0, y: 0, z: 1 }
    }

    /// Manhattan distance between the two points.
    pub fn mdist_to(&self, other: &Self) -> (r: i64)
        requires
            abs(self.x - other.x) + abs(self.y - other.y) + abs(self.z - other.z) <= i64::MAX,
        ensures
            r == abs(self.x - other.x) + abs(self.y - other.y) + abs(self.z - other.z),
    {
        let dx = if self.x >= other.x {
            self.x - other.x
        } else {
            other.x - self.x
        };
        let dy = if self.y >= other.y {
            self.y - other.y
        } else {
            other.y - self.y
        };
        let dz = if self.z >= other.z {
            self.z - other.z
        } else {
            other.z - self.z
        };
        dx + dy + dz
    }

    /// The six orthogonal neighbors, one step along each axis.
    pub fn neighbors6(&self) -> (r: Vec<Self>)
        requires
            i64::MIN < self.x < i64::MAX,
            i64::MIN < self.y < i64::MAX,
            i64::MIN < self.z < i64::MAX,
        ensures
            r@ =~= seq![
                Coord3D { x: (self.x - 1) as i64, y: self.y, z: self.z },
                Coord3D { x: (self.x + 1) as i64, y: self.y, z: self.z },
                Coord3D { x: self.x, y: (self.y - 1) as i64, z: self.z },
                Coord3D { x: self.x, y: (self.y + 1) as i64, z: self.z },
                Coord3D { x: self.x, y: self.y, z: (self.z - 1) as i64 },
                Coord3D { x: self.x, y: self.y, z: (self.z + 1) as i64 },
            ],
    {
        let mut v: Vec<Coord3D> = Vec::new();
        v.push(Coord3D { x: self.x - 1, y: self.y, z: self.z });
        v.push(Coord3D { x: self.x + 1, y: self.y, z: self.z });
        v.push(Coord3D { x: self.x, y: self.y - 1, z: self.z });
        v.push(Coord3D { x: self.x, y: self.y + 1, z: self.z });
        v.push(Coord3D { x: self.x, y: self.y, z: self.z - 1 });
        v.push(Coord3D { x: self.x, y: self.y, z: self.z + 1 });
        v
    }
}

impl vstd::std_specs::convert::FromSpecImpl<(i64, i64, i64)> for Coord3D {
    open spec fn obeys_from_spec() -> bool {
        true
    }

    open spec fn from_spec(v: (i64, i64, i64)) -> Coord3D {
        Coord3D { x: v.0, y: v.1, z: v.2 }
    }
}

impl From<(i64, i64, i64)> for Coord3D {
    fn from(v: (i64, i64, i64)) -> (r: Self) {
        Coord3D { x: v.0, y: v.1, z: v.2 }
    }
}

impl vstd::std_specs::ops::AddSpecImpl<Coord3D> for Coord3D {
    open spec fn obeys_add_spec() -> bool {
        true
    }

    open spec fn add_req(self, other: Coord3D) -> bool {
        &&& i64::MIN <= self.x + other.x <= i64::MAX
        &&& i64::MIN <= self.y + other.y <= i64::MAX
        &&& i64::MIN <= self.z + other.z <= i64::MAX
    }

    open spec fn add_spec(self, other: Coord3D) -> Coord3D {
        Coord3D {
            x: (self.x + other.x) as i64,
            y: (self.y + other.y) as i64,
            z: (self.z + other.z) as i64,
        }
    }
}

impl core::ops::Add<Coord3D> for Coord3D {
    type Output = Self;

    fn add(self, other: Coord3D) -> (r: Self) {
        Coord3D { x: self.x + other.x, y: self.y + other.y, z: self.z + other.z }
    }
}

impl vstd::std_specs::ops::SubSpecImpl<Coord3D> for Coord3D {
    open spec fn obeys_sub_spec() -> bool {
        true
    }

    open spec fn sub_req(self, other: Coord3D) -> bool {
        &&& i64::MIN <= self.x - other.x <= i64::MAX
        &&& i64::MIN <= self.y - other.y <= i64::MAX
        &&& i64::MIN <= self.z - other.z <= i64::MAX
    }

    open spec fn sub_spec(self, other: Coord3D) -> Coord3D {
        Coord3D {
            x: (self.x - other.x) as i64,
            y: (self.y - other.y) as i64,
            z: (self.z - other.z) as i64,
        }
    }
}

impl core::ops::Sub<Coord3D> for Coord3D {
    type Output = Self;

    fn sub(self, other: Coord3D) -> (r: Self) {
        Coord3D { x: self.x - other.x, y: self.y - other.y, z: self.z - other.z }
    }
}

impl vstd::std_specs::ops::MulSpecImpl<i64> for Coord3D {
    open spec fn obeys_mul_spec() -> bool {
        true
    }

    open spec fn mul_req(self, other: i64) -> bool {
        &&& i64::MIN <= self.x * other <= i64::MAX
        &&& i64::MIN <= self.y * other <= i64::MAX
        &&& i64::MIN <= self.z * other <= i64::MAX
    }

    open spec fn mul_spec(self, other: i64) -> Coord3D {
        Coord3D {
            x: (self.x * other) as i64,
            y: (self.y * other) as i64,
            z: (self.z * other) as i64,
        }
    }
}

impl core::ops::Mul<i64> for Coord3D {
    type Output = Self;

    fn mul(self, other: i64) -> (r: Self) {
        Coord3D { x: self.x * other, y: self.y * other, z: self.z * other }
    }
}

} // verus!
