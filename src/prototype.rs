//! Sockets, tile prototypes, and the catalogue of terrain prototypes.
use vstd::prelude::*;
use core::ops::Range;
use crate::dir::{Dir, Rotation};

verus! {

/// The connection label on one face of a prototype.
#[derive(Debug, Hash, PartialEq, Eq, Clone, Copy, Structural)]
pub enum Socket {
    /// Nothing may attach to this face.
    Nil,
    Ground,
    Air,
    /// Connects to the symmetric socket of the same id.
    Sym(u16),
    /// Connects to the mirrored socket of the same id.
    Asym(u16),
    /// Connects to the plain asymmetric socket of the same id.
    AsymMir(u16),
    /// Connects to the vertical socket of the same id on a tile turned the same way.
    Vert(u16),
}

impl Socket {
    /// Whether a face with socket `self` on a tile turned by `rot` may touch a
    /// face with socket `other` on a tile turned by `other_rot`.
    pub open spec fn spec_compatible(self, rot: Rotation, other: Socket, other_rot: Rotation) -> bool {
        match (self, other) {
            (Socket::Ground, Socket::Ground) => true,
            (Socket::Air, Socket::Air) => true,
            (Socket::Sym(a), Socket::Sym(b)) => a == b,
            (Socket::Asym(a), Socket::AsymMir(b)) => a == b,
            (Socket::AsymMir(a), Socket::Asym(b)) => a == b,
            (Socket::Vert(a), Socket::Vert(b)) => a == b && rot == other_rot,
            _ => false,
        }
    }

    /// Whether a face with socket `self` on a tile turned by `rot` may touch a
    /// face with socket `other` on a tile turned by `other_rot`.
    pub fn compatible(&self, rot: Rotation, other: &Socket, other_rot: Rotation) -> (r: bool)
        ensures
            r == self.spec_compatible(rot, *other, other_rot),
    {
        match (self, other) {
            (Socket::Ground, Socket::Ground) => true,
            (Socket::Air, Socket::Air) => true,
            (Socket::Sym(a), Socket::Sym(b)) => *a == *b,
            (Socket::Asym(a), Socket::AsymMir(b)) => *a == *b,
            (Socket::AsymMir(a), Socket::Asym(b)) => *a == *b,
            (Socket::Vert(a), Socket::Vert(b)) => *a == *b && rot == other_rot,
            _ => false,
        }
    }
}

/// Socket compatibility does not depend on which side asks.
pub proof fn lemma_compatible_symmetric(a: Socket, ra: Rotation, b: Socket, rb: Rotation)
    ensures
        a.spec_compatible(ra, b, rb) == b.spec_compatible(rb, a, ra),
{
}

/// A `Nil` socket connects to nothing.
pub proof fn lemma_nil_connects_nothing(a: Socket, ra: Rotation, rb: Rotation)
    ensures
        !Socket::Nil.spec_compatible(ra, a, rb),
        !a.spec_compatible(ra, Socket::Nil, rb),
{
}

/// A template for tiles: a socket on each face, a selection weight, the turns
/// it may be placed with and the layers it may occupy.
pub struct Prototype {
    pub name: &'static str,
    /// Path of the model to show; `None` for an invisible tile.
    pub asset_path: Option<&'static str>,
    pub p_x: Socket,
    pub n_x: Socket,
    pub p_y: Socket,
    pub n_y: Socket,
    pub p_z: Socket,
    pub n_z: Socket,
    pub weight: usize,
    pub y_rotations: Vec<Rotation>,
    /// The half-open range of layers the prototype may occupy; `None` for all.
    pub y_level: Option<Range<usize>>,
}

impl Prototype {
    /// The socket on the face that looks in direction `dir`.
    pub open spec fn spec_socket(&self, dir: Dir) -> Socket {
        match dir {
            Dir::Forward => self.n_z,
            Dir::Backward => self.p_z,
            Dir::Left => self.n_x,
            Dir::Right => self.p_x,
            Dir::Up => self.p_y,
            Dir::Down => self.n_y,
        }
    }

    pub fn socket_from_dir(&self, dir: Dir) -> (r: Socket)
        ensures
            r == self.spec_socket(dir),
    {
        match dir {
            Dir::Forward => self.n_z,
            Dir::Backward => self.p_z,
            Dir::Left => self.n_x,
            Dir::Right => self.p_x,
            Dir::Up => self.p_y,
            Dir::Down => self.n_y,
        }
    }
}

/// An ordered catalogue of prototypes.
pub struct Prototypes(pub Vec<Prototype>);

/// The layers `start .. end`.
pub open spec fn spec_levels(start: int, end: int) -> Option<Range<usize>> {
    Some(Range { start: start as usize, end: end as usize })
}

/// The terrain catalogue for chunks `height` layers high: flat ground that
/// may lie on any layer, low cliff pieces on layers `0 .. height`, upper cliff
/// pieces and air on layers `1 .. height + 1`, and dirt on layers `0 .. height`.
/// Cliff pieces may be placed with any of the four turns.
pub fn load_prototypes(height: usize) -> (r: Prototypes)
    requires
        height < usize::MAX,
    ensures
        r.0@.len() == 9,
        r.0@[0].name == "ground" && r.0@[0].weight == 25 && r.0@[0].y_level is None,
        r.0@[1].name == "cliff_low" && r.0@[2].name == "cliff_low_corner" && r.0@[3].name == "cliff_low_corner2",
        r.0@[4].name == "cliff_upper" && r.0@[5].name == "cliff_upper_corner" && r.0@[6].name == "cliff_upper_corner2",
        r.0@[7].name == "air" && r.0@[8].name == "dirt",
        forall|i: int| 1 <= i < 7 ==> #[trigger] r.0@[i].weight == 1,
        r.0@[7].weight == 4 && r.0@[8].weight == 4,
        r.0@[7].asset_path is None && r.0@[8].asset_path is None,
        r.0@[0].p_x == Socket::Sym(1) && r.0@[0].n_x == Socket::Sym(1) && r.0@[0].p_y == Socket::Air
            && r.0@[0].n_y == Socket::Ground && r.0@[0].p_z == Socket::Sym(1) && r.0@[0].n_z == Socket::Sym(1),
        r.0@[0].asset_path == Some("models/terrain/ground.glb"),
        r.0@[1].p_x == Socket::Ground && r.0@[1].n_x == Socket::Sym(1) && r.0@[1].p_y == Socket::Vert(2)
            && r.0@[1].n_y == Socket::Ground && r.0@[1].p_z == Socket::Asym(3) && r.0@[1].n_z == Socket::AsymMir(3),
        r.0@[1].asset_path == Some("models/terrain/cliff_low.glb"),
        r.0@[2].p_x == Socket::Asym(3) && r.0@[2].n_x == Socket::Sym(1) && r.0@[2].p_y == Socket::Vert(3)
            && r.0@[2].n_y == Socket::Ground && r.0@[2].p_z == Socket::Sym(1) && r.0@[2].n_z == Socket::AsymMir(3),
        r.0@[2].asset_path == Some("models/terrain/cliff_low_corner.glb"),
        r.0@[3].p_x == Socket::Ground && r.0@[3].n_x == Socket::AsymMir(3) && r.0@[3].p_y == Socket::Vert(4)
            && r.0@[3].n_y == Socket::Ground && r.0@[3].p_z == Socket::Asym(3) && r.0@[3].n_z == Socket::Ground,
        r.0@[3].asset_path == Some("models/terrain/cliff_low_corner2.glb"),
        r.0@[4].p_x == Socket::Sym(1) && r.0@[4].n_x == Socket::Air && r.0@[4].p_y == Socket::Air
            && r.0@[4].n_y == Socket::Vert(2) && r.0@[4].p_z == Socket::Asym(4) && r.0@[4].n_z == Socket::AsymMir(4),
        r.0@[4].asset_path == Some("models/terrain/cliff_upper.glb"),
        r.0@[5].p_x == Socket::Asym(4) && r.0@[5].n_x == Socket::Air && r.0@[5].p_y == Socket::Air
            && r.0@[5].n_y == Socket::Vert(3) && r.0@[5].p_z == Socket::Air && r.0@[5].n_z == Socket::AsymMir(4),
        r.0@[5].asset_path == Some("models/terrain/cliff_upper_corner.glb"),
        r.0@[6].p_x == Socket::Sym(1) && r.0@[6].n_x == Socket::AsymMir(4) && r.0@[6].p_y == Socket::Air
            && r.0@[6].n_y == Socket::Vert(4) && r.0@[6].p_z == Socket::Asym(4) && r.0@[6].n_z == Socket::Sym(1),
        r.0@[6].asset_path == Some("models/terrain/cliff_upper_corner2.glb"),
        r.0@[7].p_x == Socket::Air && r.0@[7].n_x == Socket::Air && r.0@[7].p_y == Socket::Air
            && r.0@[7].n_y == Socket::Air && r.0@[7].p_z == Socket::Air && r.0@[7].n_z == Socket::Air,
        r.0@[8].p_x == Socket::Ground && r.0@[8].n_x == Socket::Ground && r.0@[8].p_y == Socket::Ground
            && r.0@[8].n_y == Socket::Ground && r.0@[8].p_z == Socket::Ground && r.0@[8].n_z == Socket::Ground,
        forall|i: int| 0 <= i < 9 ==> #[trigger] r.0@[i].weight > 0 && r.0@[i].y_rotations@.len() > 0,
        forall|i: int| 1 <= i < 4 ==> #[trigger] r.0@[i].y_level == spec_levels(0, height as int),
        forall|i: int| 4 <= i < 8 ==> #[trigger] r.0@[i].y_level == spec_levels(1, height + 1),
        r.0@[8].y_level == spec_levels(0, height as int),
        forall|i: int| 1 <= i < 7 ==> #[trigger] r.0@[i].y_rotations@ == seq![
            Rotation::Zero,
            Rotation::Half,
            Rotation::Quarter,
            Rotation::ThreeQuarter,
        ],
        r.0@[0].y_rotations@ == seq![Rotation::Zero],
        r.0@[7].y_rotations@ == seq![Rotation::Zero],
        r.0@[8].y_rotations@ == seq![Rotation::Zero],
{
    let ground_prt = Prototype {
        name: "ground",
        asset_path: Some("models/terrain/ground.glb"),
        p_x: Socket::Sym(1),
        n_x: Socket::Sym(1),
        p_y: Socket::Air,
        n_y: Socket::Ground,
        p_z: Socket::Sym(1),
        n_z: Socket::Sym(1),
        weight: 25,
        y_rotations: vec![Rotation::Zero],
        y_level: None,
    };
    let cliff_low_prt = Prototype {
        name: "cliff_low",
        asset_path: Some("models/terrain/cliff_low.glb"),
        p_x: Socket::Ground,
        n_x: Socket::Sym(1),
        p_y: Socket::Vert(2),
        n_y: Socket::Ground,
        p_z: Socket::Asym(3),
        n_z: Socket::AsymMir(3),
        weight: 1,
        y_rotations: vec![Rotation::Zero, Rotation::Half, Rotation::Quarter, Rotation::ThreeQuarter],
        y_level: Some(Range { start: 0, end: height }),
    };
    let cliff_low_corner_prt = Prototype {
        name: "cliff_low_corner",
        asset_path: Some("models/terrain/cliff_low_corner.glb"),
        p_x: Socket::Asym(3),
        n_x: Socket::Sym(1),
        p_y: Socket::Vert(3),
        n_y: Socket::Ground,
        p_z: Socket::Sym(1),
        n_z: Socket::AsymMir(3),
        weight: 1,
        y_rotations: vec![Rotation::Zero, Rotation::Half, Rotation::Quarter, Rotation::ThreeQuarter],
        y_level: Some(Range { start: 0, end: height }),
    };
    let cliff_low_corner2_prt = Prototype {
        name: "cliff_low_corner2",
        asset_path: Some("models/terrain/cliff_low_corner2.glb"),
        p_x: Socket::Ground,
        n_x: Socket::AsymMir(3),
        p_y: Socket::Vert(4),
        n_y: Socket::Ground,
        p_z: Socket::Asym(3),
        n_z: Socket::Ground,
        weight: 1,
        y_rotations: vec![Rotation::Zero, Rotation::Half, Rotation::Quarter, Rotation::ThreeQuarter],
        y_level: Some(Range { start: 0, end: height }),
    };
    let cliff_upper_prt = Prototype {
        name: "cliff_upper",
        asset_path: Some("models/terrain/cliff_upper.glb"),
        p_x: Socket::Sym(1),
        n_x: Socket::Air,
        p_y: Socket::Air,
        n_y: Socket::Vert(2),
        p_z: Socket::Asym(4),
        n_z: Socket::AsymMir(4),
        weight: 1,
        y_rotations: vec![Rotation::Zero, Rotation::Half, Rotation::Quarter, Rotation::ThreeQuarter],
        y_level: Some(Range { start: 1, end: height + 1 }),
    };
    let cliff_upper_corner_prt = Prototype {
        name: "cliff_upper_corner",
        asset_path: Some("models/terrain/cliff_upper_corner.glb"),
        p_x: Socket::Asym(4),
        n_x: Socket::Air,
        p_y: Socket::Air,
        n_y: Socket::Vert(3),
        p_z: Socket::Air,
        n_z: Socket::AsymMir(4),
        weight: 1,
        y_rotations: vec![Rotation::Zero, Rotation::Half, Rotation::Quarter, Rotation::ThreeQuarter],
        y_level: Some(Range { start: 1, end: height + 1 }),
    };
    let cliff_upper_corner2_prt = Prototype {
        name: "cliff_upper_corner2",
        asset_path: Some("models/terrain/cliff_upper_corner2.glb"),
        p_x: Socket::Sym(1),
        n_x: Socket::AsymMir(4),
        p_y: Socket::Air,
        n_y: Socket::Vert(4),
        p_z: Socket::Asym(4),
        n_z: Socket::Sym(1),
        weight: 1,
        y_rotations: vec![Rotation::Zero, Rotation::Half, Rotation::Quarter, Rotation::ThreeQuarter],
        y_level: Some(Range { start: 1, end: height + 1 }),
    };
    let air_prt = Prototype {
        name: "air",
        asset_path: None,
        p_x: Socket::Air,
        n_x: Socket::Air,
        p_y: Socket::Air,
        n_y: Socket::Air,
        p_z: Socket::Air,
        n_z: Socket::Air,
        weight: 4,
        y_rotations: vec![Rotation::Zero],
        y_level: Some(Range { start: 1, end: height + 1 }),
    };
    let dirt_prt = Prototype {
        name: "dirt",
        asset_path: None,
        p_x: Socket::Ground,
        n_x: Socket::Ground,
        p_y: Socket::Ground,
        n_y: Socket::Ground,
        p_z: Socket::Ground,
        n_z: Socket::Ground,
        weight: 4,
        y_rotations: vec![Rotation::Zero],
        y_level: Some(Range { start: 0, end: height }),
    };
    let assets = vec![
        ground_prt,
        cliff_low_prt,
        cliff_low_corner_prt,
        cliff_low_corner2_prt,
        cliff_upper_prt,
        cliff_upper_corner_prt,
        cliff_upper_corner2_prt,
        air_prt,
        dirt_prt,
    ];
    Prototypes(assets)
}

} // verus!
