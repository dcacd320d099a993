use utg::util::{coords_of, from_index, get_index, index_of};
use utg::{CHUNK_HIGHT, CHUNK_SIZE, CHUNK_VOLUME};

#[test]
fn test_from_index() {
    for z in 0..CHUNK_SIZE {
        for x in 0..CHUNK_SIZE {
            for y in 0..CHUNK_HIGHT {
                let index = get_index(x, y, z);
                let (x0, y0, z0) = from_index(index);
                assert_eq!(x, x0, "compared x={x} and x0={x0}, for index={index}");
                assert_eq!(y, y0, "compared y={y} and y0={y0}, for index={index}");
                assert_eq!(z, z0, "compared z={z} and z0={z0}, for index={index}");
            }
        }
    }
}

#[test]
fn index_layout_is_layer_row_column() {
    assert_eq!(get_index(0, 0, 0), 0);
    assert_eq!(get_index(0, 0, 1), 1);
    assert_eq!(get_index(1, 0, 0), CHUNK_SIZE);
    assert_eq!(get_index(0, 1, 0), CHUNK_SIZE * CHUNK_SIZE);
    assert_eq!(get_index(CHUNK_SIZE - 1, CHUNK_HIGHT - 1, CHUNK_SIZE - 1), CHUNK_VOLUME - 1);
    assert_eq!(from_index(CHUNK_VOLUME - 1), (CHUNK_SIZE - 1, CHUNK_HIGHT - 1, CHUNK_SIZE - 1));
}

#[test]
fn general_index_round_trip() {
    for size in 1..5usize {
        for height in 1..4usize {
            for x in 0..size {
                for y in 0..height {
                    for z in 0..size {
                        let i = index_of(size, height, x, y, z);
                        assert!(i < size * size * height);
                        assert_eq!(coords_of(size, i), (x, y, z));
                    }
                }
            }
        }
    }
    assert_eq!(index_of(3, 2, 2, 1, 1), 9 + 6 + 1);
}
