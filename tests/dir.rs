use utg::dir::{Dir, Rotation};

const DIRS: [Dir; 6] = [Dir::Forward, Dir::Backward, Dir::Left, Dir::Right, Dir::Up, Dir::Down];
const ROTS: [Rotation; 4] = [Rotation::Zero, Rotation::Quarter, Rotation::Half, Rotation::ThreeQuarter];

fn quarters(r: Rotation) -> usize {
    match r {
        Rotation::Zero => 0,
        Rotation::Quarter => 1,
        Rotation::Half => 2,
        Rotation::ThreeQuarter => 3,
    }
}

#[test]
fn rotation_composes() {
    for d in DIRS {
        for r1 in ROTS {
            for r2 in ROTS {
                let composed = ROTS[(quarters(r1) + quarters(r2)) % 4];
                assert_eq!(d.rotate_y(r1).rotate_y(r2), d.rotate_y(composed));
            }
        }
    }
}

#[test]
fn quarter_turn_cycles_horizontal_directions() {
    assert_eq!(Dir::Forward.rotate_y(Rotation::Quarter), Dir::Left);
    assert_eq!(Dir::Left.rotate_y(Rotation::Quarter), Dir::Backward);
    assert_eq!(Dir::Backward.rotate_y(Rotation::Quarter), Dir::Right);
    assert_eq!(Dir::Right.rotate_y(Rotation::Quarter), Dir::Forward);
    assert_eq!(Dir::Right.rotate_y(Rotation::ThreeQuarter), Dir::Backward);
    for r in ROTS {
        assert_eq!(Dir::Up.rotate_y(r), Dir::Up);
        assert_eq!(Dir::Down.rotate_y(r), Dir::Down);
    }
}

#[test]
fn opposite_negates_vector() {
    for d in DIRS {
        let (x, y, z) = d.to_vec3();
        assert_eq!(d.opposite().to_vec3(), (-x, -y, -z));
        assert_eq!(d.opposite().opposite(), d);
        assert_ne!(d.opposite(), d);
    }
    assert_eq!(Dir::Forward.to_vec3(), (0, 0, -1));
    assert_eq!(Dir::Up.to_vec3(), (0, 1, 0));
    assert_eq!(Dir::all(), DIRS.to_vec());
}

#[test]
fn test_rotation() {
    // The turn as a float rotation about +Y by +90 degrees per quarter turn.
    for d in DIRS {
        for r in ROTS {
            let angle = quarters(r) as f32 * std::f32::consts::FRAC_PI_2;
            let (x, y, z) = d.to_vec3();
            let (x, y, z) = (x as f32, y as f32, z as f32);
            let turned = (x * angle.cos() + z * angle.sin(), y, -x * angle.sin() + z * angle.cos());
            let (ex, ey, ez) = d.rotate_y(r).to_vec3();
            assert_eq!(
                (turned.0.round() as i32, turned.1.round() as i32, turned.2.round() as i32),
                (ex, ey, ez)
            );
        }
    }
}
