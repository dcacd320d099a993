use core::ops::Range;
use utg::chunk::{Chunk, ChunkId, OutOfRange};
use utg::dir::{Dir, Rotation};
use utg::prototype::{load_prototypes, Prototype, Prototypes, Socket};
use utg::sampling::TileRng;
use utg::tile::{generate_tiles_and_rules, AdjRuleSet, TileID, Tiles};
use utg::util::index_of;
use utg::wave::ChunkBuilder;
use utg::{CHUNK_HIGHT, CHUNK_SIZE};

const DIRS: [Dir; 6] = [Dir::Forward, Dir::Backward, Dir::Left, Dir::Right, Dir::Up, Dir::Down];

fn build(catalogue: &Prototypes, size: usize, height: usize, seed: u64) -> (Chunk, Tiles, AdjRuleSet) {
    let (tiles, rules) = generate_tiles_and_rules(catalogue);
    let (_, rules_copy) = generate_tiles_and_rules(catalogue);
    let mut rng = TileRng::seeded(seed);
    let chunk = ChunkBuilder::with_dims(ChunkId::new(0, 0), size, height)
        .add_rule_set(rules)
        .build(&tiles, &mut rng);
    (chunk, tiles, rules_copy)
}

fn neighbour(size: usize, height: usize, x: usize, y: usize, z: usize, d: Dir) -> Option<(usize, usize, usize)> {
    let (dx, dy, dz) = d.to_vec3();
    let (nx, ny, nz) = (x as i64 + dx as i64, y as i64 + dy as i64, z as i64 + dz as i64);
    if nx < 0 || ny < 0 || nz < 0 || nx >= size as i64 || ny >= height as i64 || nz >= size as i64 {
        None
    } else {
        Some((nx as usize, ny as usize, nz as usize))
    }
}

fn ground_only(level: Option<Range<usize>>) -> Prototypes {
    Prototypes(vec![Prototype {
        name: "ground",
        asset_path: Some("models/terrain/ground.glb"),
        p_x: Socket::Sym(1),
        n_x: Socket::Sym(1),
        p_y: Socket::Air,
        n_y: Socket::Ground,
        p_z: Socket::Sym(1),
        n_z: Socket::Sym(1),
        weight: 25,
        y_rotations: vec![Rotation::Zero],
        y_level: level,
    }])
}

#[test]
fn single_ground_fills_bottom_layer() {
    for seed in 0..5 {
        let (chunk, _, _) = build(&ground_only(Some(0..1)), 4, 3, seed);
        assert_eq!(chunk.dims(), (4, 3));
        for x in 0..4 {
            for z in 0..4 {
                assert_eq!(chunk.get_tile(x, 0, z), Some(TileID(0)));
                for y in 1..3 {
                    assert_eq!(chunk.get_tile(x, y, z), None);
                }
            }
        }
    }
}

#[test]
fn unrelated_layers_leave_chunk_empty() {
    // Unrestricted ground cannot sit on ground (Air above, Ground below), so
    // a chunk two layers high has no solution.
    let (chunk, _, _) = build(&ground_only(None), 2, 2, 11);
    for x in 0..2 {
        for y in 0..2 {
            for z in 0..2 {
                assert_eq!(chunk.get_tile(x, y, z), None);
            }
        }
    }
}

fn sealed(name: &'static str) -> Prototype {
    Prototype {
        name,
        asset_path: None,
        p_x: Socket::Nil,
        n_x: Socket::Nil,
        p_y: Socket::Nil,
        n_y: Socket::Nil,
        p_z: Socket::Nil,
        n_z: Socket::Nil,
        weight: 1,
        y_rotations: vec![Rotation::Zero],
        y_level: Some(0..1),
    }
}

#[test]
fn incompatible_prototypes_give_empty_cells() {
    let catalogue = Prototypes(vec![sealed("a"), sealed("b")]);
    for seed in 0..3 {
        let (chunk, _, _) = build(&catalogue, 2, 1, seed);
        for x in 0..2 {
            for z in 0..2 {
                assert_eq!(chunk.get_tile(x, 0, z), None);
            }
        }
    }
}

#[test]
fn lone_cell_takes_either_prototype() {
    let catalogue = Prototypes(vec![sealed("a"), sealed("b")]);
    let (chunk, _, _) = build(&catalogue, 1, 1, 5);
    let t = chunk.get_tile(0, 0, 0);
    assert!(t == Some(TileID(0)) || t == Some(TileID(1)));
}

fn check_chunk(chunk: &Chunk, tiles: &Tiles, rules: &AdjRuleSet, size: usize, height: usize) -> usize {
    let mut filled = 0;
    for x in 0..size {
        for y in 0..height {
            for z in 0..size {
                let Some(t) = chunk.get_tile(x, y, z) else {
                    continue;
                };
                filled += 1;
                let tile = &tiles.0[t.0 as usize];
                if let Some(level) = &tile.y_level {
                    assert!(level.contains(&y), "tile {:?} on layer {y} outside {:?}", t, level);
                }
                for d in DIRS {
                    if let Some((nx, ny, nz)) = neighbour(size, height, x, y, z, d) {
                        if let Some(u) = chunk.get_tile(nx, ny, nz) {
                            assert!(rules.0[t.0 as usize].from_dir(d).contains(&u));
                        }
                    }
                }
            }
        }
    }
    filled
}

#[test]
fn terrain_chunk_respects_levels_and_rules() {
    let height = 3;
    let catalogue = load_prototypes(height);
    for seed in 0..6 {
        let (chunk, tiles, rules) = build(&catalogue, 3, height, seed);
        let filled = check_chunk(&chunk, &tiles, &rules, 3, height);
        assert_eq!(filled, 3 * 3 * height);
    }
}

#[test]
fn flat_world_is_fully_resolved() {
    // Dirt below, ground on top, air above.
    let dirt = Prototype {
        name: "dirt",
        asset_path: None,
        p_x: Socket::Ground,
        n_x: Socket::Ground,
        p_y: Socket::Ground,
        n_y: Socket::Ground,
        p_z: Socket::Ground,
        n_z: Socket::Ground,
        weight: 4,
        y_rotations: vec![Rotation::Zero],
        y_level: Some(0..1),
    };
    let air = Prototype {
        name: "air",
        asset_path: None,
        p_x: Socket::Air,
        n_x: Socket::Air,
        p_y: Socket::Air,
        n_y: Socket::Air,
        p_z: Socket::Air,
        n_z: Socket::Air,
        weight: 4,
        y_rotations: vec![Rotation::Zero],
        y_level: Some(2..3),
    };
    let ground = ground_only(Some(1..2)).0.remove(0);
    let catalogue = Prototypes(vec![dirt, ground, air]);
    let (chunk, tiles, rules) = build(&catalogue, 3, 3, 42);
    assert_eq!(check_chunk(&chunk, &tiles, &rules, 3, 3), 27);
    for x in 0..3 {
        for z in 0..3 {
            assert_eq!(chunk.get_tile(x, 0, z), Some(TileID(0)));
            assert_eq!(chunk.get_tile(x, 1, z), Some(TileID(1)));
            assert_eq!(chunk.get_tile(x, 2, z), Some(TileID(2)));
        }
    }
}

#[test]
fn default_chunk_and_ids() {
    let id = ChunkId::new(2, -3);
    assert_eq!((id.x(), id.z()), (2, -3));
    assert_eq!(id.x_offset(1).z_offset(-1), ChunkId::new(3, -4));
    assert_eq!(ChunkId::from_position(-1, 64), ChunkId::new(-1, 2));
    assert_eq!(ChunkId::from_position(31, -32), ChunkId::new(0, -1));
    assert_eq!(ChunkId::from_position(-33, 0), ChunkId::new(-2, 0));
    let chunk = Chunk::new(id, Some(TileID(7)));
    assert_eq!(chunk.id(), id);
    assert_eq!(chunk.dims(), (CHUNK_SIZE, CHUNK_HIGHT));
    assert_eq!(chunk.get_tile(5, 0, 9), Some(TileID(7)));
    assert_eq!(chunk.get_tile(5, 1, 9), None);
    assert_eq!(chunk.pos(), (64, 0, -96));
    assert_eq!(index_of(CHUNK_SIZE, CHUNK_HIGHT, 1, 1, 1), CHUNK_SIZE * CHUNK_SIZE + CHUNK_SIZE + 1);
}

#[test]
fn world_map_keeps_one_chunk_per_position() {
    let mut world = utg::chunk::WorldMap::new();
    let a = ChunkId::new(0, 0);
    let b = ChunkId::new(1, 0);
    assert!(!world.contains(&a));
    world.add_chunk(Chunk::new(a, Some(TileID(1))));
    assert!(world.contains(&a));
    assert!(!world.contains(&b));
    world.add_chunk(Chunk::new(b, None));
    world.add_chunk(Chunk::new(a, None));
    assert!(world.contains(&a));
    assert!(world.contains(&b));
}

#[test]
fn total_weight_sums_or_reports_overflow() {
    let (tiles, _) = generate_tiles_and_rules(&load_prototypes(4));
    // ground 25, six cliff pieces in four turns at 1, air 4, dirt 4
    assert_eq!(tiles.total_weight(), Some(25 + 24 + 4 + 4));
    let mut heavy = ground_only(None);
    heavy.0[0].weight = usize::MAX;
    heavy.0[0].y_rotations = vec![Rotation::Zero, Rotation::Half];
    let (tiles, _) = generate_tiles_and_rules(&heavy);
    assert_eq!(tiles.total_weight(), None);
}

#[test]
fn cliffs_stay_in_their_layers() {
    // Low cliffs and dirt on layers 0..2, upper cliffs and air on 1..3, in a
    // chunk three layers high.
    let catalogue = load_prototypes(2);
    for seed in 0..4 {
        let (chunk, tiles, rules) = build(&catalogue, 3, 3, seed);
        let filled = check_chunk(&chunk, &tiles, &rules, 3, 3);
        assert!(filled == 0 || filled == 27);
        for x in 0..3 {
            for z in 0..3 {
                if let Some(t) = chunk.get_tile(x, 0, z) {
                    let p = tiles.0[t.0 as usize].prototype;
                    assert!(!(4..8).contains(&p), "upper piece on the bottom layer");
                }
                if let Some(t) = chunk.get_tile(x, 2, z) {
                    let p = tiles.0[t.0 as usize].prototype;
                    assert!(!(1..4).contains(&p) && p != 8, "low piece on the top layer");
                }
            }
        }
    }
}

#[test]
fn checked_access_reports_out_of_range() {
    let chunk = Chunk::new(ChunkId::new(0, 0), Some(TileID(3)));
    assert_eq!(chunk.tile_at(0, 0, 0), Ok(Some(TileID(3))));
    assert_eq!(chunk.tile_at(0, 1, 0), Ok(None));
    assert_eq!(chunk.tile_at(CHUNK_SIZE, 0, 0), Err(OutOfRange));
    assert_eq!(chunk.tile_at(0, CHUNK_HIGHT, 0), Err(OutOfRange));
    assert_eq!(chunk.tile_at(0, 0, CHUNK_SIZE), Err(OutOfRange));
}
