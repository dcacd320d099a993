use utg::dir::{Dir, Rotation};
use utg::prototype::{load_prototypes, Prototype, Prototypes, Socket};
use utg::tile::{generate_tiles_and_rules, ids_fit, AdjacencyRules, TileID};

const DIRS: [Dir; 6] = [Dir::Forward, Dir::Backward, Dir::Left, Dir::Right, Dir::Up, Dir::Down];
const ROTS: [Rotation; 4] = [Rotation::Zero, Rotation::Quarter, Rotation::Half, Rotation::ThreeQuarter];

fn sockets() -> Vec<Socket> {
    vec![
        Socket::Nil,
        Socket::Ground,
        Socket::Air,
        Socket::Sym(1),
        Socket::Sym(2),
        Socket::Asym(1),
        Socket::Asym(2),
        Socket::AsymMir(1),
        Socket::AsymMir(2),
        Socket::Vert(1),
        Socket::Vert(2),
    ]
}

#[test]
fn socket_compatibility_is_symmetric() {
    for a in sockets() {
        for b in sockets() {
            for ra in ROTS {
                for rb in ROTS {
                    assert_eq!(a.compatible(ra, &b, rb), b.compatible(rb, &a, ra));
                }
            }
        }
    }
}

#[test]
fn socket_compatibility_table() {
    let z = Rotation::Zero;
    let q = Rotation::Quarter;
    assert!(Socket::Ground.compatible(z, &Socket::Ground, q));
    assert!(Socket::Air.compatible(z, &Socket::Air, z));
    assert!(!Socket::Ground.compatible(z, &Socket::Air, z));
    assert!(Socket::Sym(1).compatible(z, &Socket::Sym(1), q));
    assert!(!Socket::Sym(1).compatible(z, &Socket::Sym(2), z));
    assert!(Socket::Asym(3).compatible(z, &Socket::AsymMir(3), q));
    assert!(Socket::AsymMir(3).compatible(q, &Socket::Asym(3), z));
    assert!(!Socket::Asym(3).compatible(z, &Socket::Asym(3), z));
    assert!(!Socket::Asym(3).compatible(z, &Socket::AsymMir(4), z));
    assert!(Socket::Vert(2).compatible(q, &Socket::Vert(2), q));
    assert!(!Socket::Vert(2).compatible(z, &Socket::Vert(2), q));
    for s in sockets() {
        assert!(!Socket::Nil.compatible(z, &s, z));
        assert!(!s.compatible(z, &Socket::Nil, z));
    }
}

fn block(name: &'static str, side: Socket, up: Socket, down: Socket, rotations: Vec<Rotation>) -> Prototype {
    Prototype {
        name,
        asset_path: None,
        p_x: side,
        n_x: side,
        p_y: up,
        n_y: down,
        p_z: side,
        n_z: side,
        weight: 1,
        y_rotations: rotations,
        y_level: None,
    }
}

fn has(rule: &AdjacencyRules, d: Dir, id: u32) -> bool {
    rule.from_dir(d).contains(&TileID(id))
}

#[test]
fn variants_follow_catalogue_order() {
    let catalogue = Prototypes(vec![
        block("a", Socket::Sym(1), Socket::Air, Socket::Ground, vec![Rotation::Zero, Rotation::Half]),
        block("b", Socket::Sym(1), Socket::Air, Socket::Ground, vec![Rotation::Quarter]),
    ]);
    let (tiles, rules) = generate_tiles_and_rules(&catalogue);
    assert_eq!(tiles.0.len(), 3);
    assert_eq!(rules.0.len(), 3);
    assert_eq!((tiles.0[0].prototype, tiles.0[0].y_rotation), (0, Rotation::Zero));
    assert_eq!((tiles.0[1].prototype, tiles.0[1].y_rotation), (0, Rotation::Half));
    assert_eq!((tiles.0[2].prototype, tiles.0[2].y_rotation), (1, Rotation::Quarter));
    for (i, t) in tiles.0.iter().enumerate() {
        assert_eq!(t.id, TileID(i as u32));
    }
    // Sym(1) on every side: every variant fits next to every other one
    // horizontally; Air above never meets Ground below.
    for a in 0..3 {
        for d in [Dir::Forward, Dir::Backward, Dir::Left, Dir::Right] {
            assert_eq!(rules.0[a].from_dir(d).to_vec(), vec![TileID(0), TileID(1), TileID(2)]);
        }
        assert!(rules.0[a].from_dir(Dir::Up).is_empty());
        assert!(rules.0[a].from_dir(Dir::Down).is_empty());
        assert_eq!(rules.0[a].len(), 12);
    }
}

#[test]
fn asymmetric_sockets_pair_with_mirror() {
    let mut p = block("edge", Socket::Ground, Socket::Nil, Socket::Nil, vec![Rotation::Zero, Rotation::Quarter]);
    p.p_z = Socket::Asym(3);
    p.n_z = Socket::AsymMir(3);
    let (_, rules) = generate_tiles_and_rules(&Prototypes(vec![p]));
    // Unturned next to unturned along Z: +Z face (Asym) meets -Z face (AsymMir).
    assert!(has(&rules.0[0], Dir::Backward, 0));
    assert!(has(&rules.0[0], Dir::Forward, 0));
    // Along X the unturned tile shows Ground, which meets Ground.
    assert!(has(&rules.0[0], Dir::Right, 0));
    // The turned tile shows its Z sockets along X; they never meet Ground.
    assert!(!has(&rules.0[0], Dir::Backward, 1));
    assert!(!has(&rules.0[0], Dir::Up, 0));
}

#[test]
fn vertical_sockets_need_same_turn() {
    let p = block("pillar", Socket::Nil, Socket::Vert(2), Socket::Vert(2), ROTS.to_vec());
    let (_, rules) = generate_tiles_and_rules(&Prototypes(vec![p]));
    for a in 0..4u32 {
        for b in 0..4u32 {
            assert_eq!(has(&rules.0[a as usize], Dir::Up, b), a == b);
            assert_eq!(has(&rules.0[a as usize], Dir::Down, b), a == b);
        }
    }
}

#[test]
fn compiled_rules_are_symmetric() {
    let (tiles, rules) = generate_tiles_and_rules(&load_prototypes(4));
    assert_eq!(tiles.0.len(), 1 + 6 * 4 + 1 + 1);
    let mut total = 0;
    for a in 0..rules.0.len() {
        for d in DIRS {
            for b in rules.0[a].from_dir(d) {
                total += 1;
                assert!(has(&rules.0[b.0 as usize], d.opposite(), a as u32));
            }
        }
    }
    assert!(total > 0);
}

#[test]
fn terrain_catalogue_levels() {
    let c = load_prototypes(6);
    assert_eq!(c.0.len(), 9);
    assert_eq!(c.0[0].name, "ground");
    assert!(c.0[0].y_level.is_none());
    assert_eq!(c.0[1].y_level, Some(0..6));
    assert_eq!(c.0[4].y_level, Some(1..7));
    assert_eq!(c.0[7].name, "air");
    assert_eq!(c.0[8].name, "dirt");
    assert_eq!(c.0[8].y_level, Some(0..6));
    assert_eq!(c.0[0].socket_from_dir(Dir::Up), Socket::Air);
    assert_eq!(c.0[0].socket_from_dir(Dir::Down), Socket::Ground);
    assert_eq!(c.0[1].socket_from_dir(Dir::Backward), Socket::Asym(3));
}

#[test]
fn identifier_space_check() {
    assert!(ids_fit(&load_prototypes(4)));
    assert!(ids_fit(&Prototypes(vec![])));
    let many = block("many", Socket::Nil, Socket::Nil, Socket::Nil, ROTS.to_vec());
    assert!(ids_fit(&Prototypes(vec![many])));
}
