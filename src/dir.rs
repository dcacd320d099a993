//! The six axis-aligned directions and the four turns about the vertical axis.
use vstd::prelude::*;

verus! {

/// An axis-aligned direction. `Forward` is -Z, `Left` is -X, `Up` is +Y.
#[derive(Debug, PartialEq, Eq, Clone, Copy, Structural)]
pub enum Dir {
    Forward,
    Backward,
    Left,
    Right,
    Up,
    Down,
}

/// A turn about the vertical axis, in quarter turns. Each quarter turn is a
/// right-handed rotation by +90 degrees about +Y (anticlockwise seen from
/// above): it takes Forward (-Z) to Left (-X), and the vector (x, y, z) to
/// (z, y, -x).
#[derive(Debug, Hash, PartialEq, Eq, Clone, Copy, Structural)]
pub enum Rotation {
    Zero,
    Quarter,
    Half,
    ThreeQuarter,
}

impl Rotation {
    /// The number of quarter turns, 0 to 3.
    pub open spec fn quarters(self) -> int {
        match self {
            Rotation::Zero => 0,
            Rotation::Quarter => 1,
            Rotation::Half => 2,
            Rotation::ThreeQuarter => 3,
        }
    }

    /// The turn made of `q` quarter turns, taken modulo four.
    pub open spec fn from_quarters(q: int) -> Rotation {
        let m = q % 4;
        if m == 0 {
            Rotation::Zero
        } else if m == 1 {
            Rotation::Quarter
        } else if m == 2 {
            Rotation::Half
        } else {
            Rotation::ThreeQuarter
        }
    }

    /// The turn `self` followed by the turn `other`.
    pub open spec fn compose(self, other: Rotation) -> Rotation {
        Rotation::from_quarters(self.quarters() + other.quarters())
    }
}

impl Dir {
    pub open spec fn is_vertical(self) -> bool {
        self is Up || self is Down
    }

    /// Position of a horizontal direction on the cycle that one quarter turn
    /// advances by one step: Forward, Left, Backward, Right.
    pub open spec fn cycle_pos(self) -> int {
        match self {
            Dir::Forward => 0,
            Dir::Left => 1,
            Dir::Backward => 2,
            Dir::Right => 3,
            _ => 0,
        }
    }

    /// The horizontal direction at position `k` (modulo four) of that cycle.
    pub open spec fn at_cycle_pos(k: int) -> Dir {
        let m = k % 4;
        if m == 0 {
            Dir::Forward
        } else if m == 1 {
            Dir::Left
        } else if m == 2 {
            Dir::Backward
        } else {
            Dir::Right
        }
    }

    /// The direction pointing the other way.
    pub open spec fn spec_opposite(self) -> Dir {
        match self {
            Dir::Forward => Dir::Backward,
            Dir::Backward => Dir::Forward,
            Dir::Left => Dir::Right,
            Dir::Right => Dir::Left,
            Dir::Up => Dir::Down,
            Dir::Down => Dir::Up,
        }
    }

    /// Turning a direction about the vertical axis: vertical directions stay,
    /// horizontal ones advance `r.quarters()` steps on their cycle.
    pub open spec fn spec_rotate_y(self, r: Rotation) -> Dir {
        if self.is_vertical() {
            self
        } else {
            Dir::at_cycle_pos(self.cycle_pos() + r.quarters())
        }
    }

    /// The unit vector of the direction, as integer components (x, y, z).
    pub open spec fn spec_vec3(self) -> (int, int, int) {
        match self {
            Dir::Forward => (0, 0, -1),
            Dir::Backward => (0, 0, 1),
            Dir::Left => (-1, 0, 0),
            Dir::Right => (1, 0, 0),
            Dir::Up => (0, 1, 0),
            Dir::Down => (0, -1, 0),
        }
    }

    /// The six directions, in the order in which the generator visits them.
    pub open spec fn spec_all() -> Seq<Dir> {
        seq![Dir::Forward, Dir::Backward, Dir::Left, Dir::Right, Dir::Up, Dir::Down]
    }

    /// The six directions, in the order of `spec_all`.
    pub fn all() -> (r: Vec<Dir>)
        ensures
            r@ == Dir::spec_all(),
    {
        let r = vec![Dir::Forward, Dir::Backward, Dir::Left, Dir::Right, Dir::Up, Dir::Down];
        assert(r@ =~= Dir::spec_all());
        r
    }

    /// The unit vector of the direction.
    pub fn to_vec3(&self) -> (r: (i32, i32, i32))
        ensures
            (r.0 as int, r.1 as int, r.2 as int) == self.spec_vec3(),
    {
        match self {
            Dir::Forward => (0, 0, -1),
            Dir::Backward => (0, 0, 1),
            Dir::Left => (-1, 0, 0),
            Dir::Right => (1, 0, 0),
            Dir::Up => (0, 1, 0),
            Dir::Down => (0, -1, 0),
        }
    }

    pub fn opposite(&self) -> (r: Dir)
        ensures
            r == self.spec_opposite(),
            r.spec_vec3() == ({
                let v = self.spec_vec3();
                (-v.0, -v.1, -v.2)
            }),
    {
        match self {
            Dir::Forward => Dir::Backward,
            Dir::Backward => Dir::Forward,
            Dir::Left => Dir::Right,
            Dir::Right => Dir::Left,
            Dir::Up => Dir::Down,
            Dir::Down => Dir::Up,
        }
    }

    pub fn rotate_y(&self, rotation: Rotation) -> (r: Dir)
        ensures
            r == self.spec_rotate_y(rotation),
    {
        match (self, rotation) {
            (Dir::Forward, Rotation::Zero) => Dir::Forward,
            (Dir::Forward, Rotation::Quarter) => Dir::Left,
            (Dir::Forward, Rotation::Half) => Dir::Backward,
            (Dir::Forward, Rotation::ThreeQuarter) => Dir::Right,
            (Dir::Backward, Rotation::Zero) => Dir::Backward,
            (Dir::Backward, Rotation::Quarter) => Dir::Right,
            (Dir::Backward, Rotation::Half) => Dir::Forward,
            (Dir::Backward, Rotation::ThreeQuarter) => Dir::Left,
            (Dir::Left, Rotation::Zero) => Dir::Left,
            (Dir::Left, Rotation::Quarter) => Dir::Backward,
            (Dir::Left, Rotation::Half) => Dir::Right,
            (Dir::Left, Rotation::ThreeQuarter) => Dir::Forward,
            (Dir::Right, Rotation::Zero) => Dir::Right,
            (Dir::Right, Rotation::Quarter) => Dir::Forward,
            (Dir::Right, Rotation::Half) => Dir::Left,
            (Dir::Right, Rotation::ThreeQuarter) => Dir::Backward,
            (Dir::Up, _) => Dir::Up,
            (Dir::Down, _) => Dir::Down,
        }
    }
}

/// The vector `v` turned by `q` quarter turns: each maps (x, y, z) to (z, y, -x).
pub open spec fn turn_vec(v: (int, int, int), q: nat) -> (int, int, int)
    decreases q,
{
    if q == 0 {
        v
    } else {
        let w = turn_vec(v, (q - 1) as nat);
        (w.2, w.1, -w.0)
    }
}

/// Turning a direction agrees with turning its unit vector.
pub proof fn lemma_rotate_y_vec3(d: Dir, r: Rotation)
    ensures
        d.spec_rotate_y(r).spec_vec3() == turn_vec(d.spec_vec3(), r.quarters() as nat),
{
    reveal_with_fuel(turn_vec, 4);
}

/// Turning by `r1` and then by `r2` is turning by their composition.
pub proof fn lemma_rotate_y_compose(d: Dir, r1: Rotation, r2: Rotation)
    ensures
        d.spec_rotate_y(r1).spec_rotate_y(r2) == d.spec_rotate_y(r1.compose(r2)),
{
}

/// Turning by zero quarter turns leaves every direction in place, and four
/// quarter turns come back to the start.
pub proof fn lemma_rotate_y_identity(d: Dir)
    ensures
        d.spec_rotate_y(Rotation::Zero) == d,
        d.spec_rotate_y(Rotation::Quarter).spec_rotate_y(Rotation::ThreeQuarter) == d,
{
}

/// Turning keeps a direction horizontal or vertical, as it was.
pub proof fn lemma_rotate_y_keeps_plane(d: Dir, r: Rotation)
    ensures
        d.spec_rotate_y(r).is_vertical() == d.is_vertical(),
        d.is_vertical() ==> d.spec_rotate_y(r) == d,
{
}

/// Opposite is an involution.
pub proof fn lemma_opposite_involution(d: Dir)
    ensures
        d.spec_opposite().spec_opposite() == d,
{
}

/// Turning commutes with taking the opposite direction.
pub proof fn lemma_rotate_y_opposite(d: Dir, r: Rotation)
    ensures
        d.spec_opposite().spec_rotate_y(r) == d.spec_rotate_y(r).spec_opposite(),
{
}

} // verus!
