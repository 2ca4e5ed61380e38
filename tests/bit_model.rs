use rand::rngs::StdRng;
use rand::SeedableRng;
use rubiks::bit_cube::{row_major_to_internal, internal_to_row_major, BitCube, CubeError, Face, Move, Ordinal};
use rubiks::color::{Color, NUM_COLORS};
use rubiks::rotation::{Direction, Rotation};
use rubiks::rubiks_cube::RubiksCube;

fn words(cube: &BitCube) -> [u32; 6] {
    let mut w = [0u32; 6];
    for (f, x) in w.iter_mut().enumerate() {
        *x = cube.face(f).packed();
    }
    w
}

fn cells(face: &Face) -> Vec<u8> {
    (0..9).map(|k| face.get(k)).collect()
}

fn all_moves() -> Vec<Move> {
    (0..12).map(Move::from_index).collect()
}

#[test]
fn solved_face_values() {
    let f = Face::solved(3).unwrap();
    assert_eq!(cells(&f), vec![3; 9]);
    assert_eq!(f.packed(), 0o333_333_333);
    assert_eq!(Face::solved(0), Err(CubeError::InvalidCellValue(0)));
    assert_eq!(Face::solved(7), Err(CubeError::InvalidCellValue(7)));
    assert!(Face::solved(6).is_ok());
    assert!(Face::solved(1).is_ok());
}

#[test]
fn face_from_row_major() {
    let f = Face::from([1, 2, 3, 4, 5, 6, 1, 2, 3]).unwrap();
    // ring order: top row, right column, bottom row right to left, left column
    assert_eq!(cells(&f), vec![1, 2, 3, 6, 3, 2, 1, 4, 5]);
    assert_eq!(Face::from([1, 2, 3, 4, 0, 6, 7, 2, 3]), Err(CubeError::InvalidCellValue(7)));
    assert_eq!(Face::from([1, 2, 3, 4, 0, 6, 1, 2, 3]), Err(CubeError::InvalidCellValue(0)));
}

#[test]
fn index_tables_are_inverse() {
    let a = internal_to_row_major();
    let b = row_major_to_internal();
    for k in 0..9 {
        assert_eq!(b[a[k]], k);
    }
}

#[test]
fn rotate_face_ring() {
    let f = Face::from([1, 2, 3, 4, 5, 6, 1, 2, 3]).unwrap();
    let cw = f.rotate(Direction::Clockwise);
    assert_eq!(cells(&cw), vec![1, 4, 1, 2, 3, 6, 3, 2, 5]);
    let ccw = f.rotate(Direction::CounterClockwise);
    assert_eq!(cells(&ccw), vec![3, 6, 3, 2, 1, 4, 1, 2, 5]);
    assert_eq!(cw.rotate(Direction::CounterClockwise), f);
    let mut g = f;
    for _ in 0..4 {
        g.rotate_mut(Direction::Clockwise);
    }
    assert_eq!(g, f);
}

#[test]
fn edges_read_and_write() {
    let mut f = Face::from([1, 2, 3, 4, 5, 6, 1, 2, 3]).unwrap();
    // ring cells: [1, 2, 3, 6, 3, 2, 1, 4, 5]
    assert_eq!(f.get_edge(&Ordinal::North, false), 1 + 8 * 2 + 64 * 3);
    assert_eq!(f.get_edge(&Ordinal::North, true), 3 + 8 * 2 + 64 * 1);
    assert_eq!(f.get_edge(&Ordinal::East, false), 3 + 8 * 6 + 64 * 3);
    assert_eq!(f.get_edge(&Ordinal::South, false), 3 + 8 * 2 + 64 * 1);
    assert_eq!(f.get_edge(&Ordinal::West, false), 1 + 8 * 4 + 64 * 1);
    assert_eq!(f.get_edge(&Ordinal::West, true), 1 + 8 * 4 + 64 * 1);
    f.set_edge(4 + 8 * 5 + 64 * 6, &Ordinal::West);
    assert_eq!(cells(&f), vec![6, 2, 3, 6, 3, 2, 4, 5, 5]);
    assert_eq!(f.get_edge(&Ordinal::West, false), 4 + 8 * 5 + 64 * 6);
    f.set_edge(1 + 8 * 1 + 64 * 2, &Ordinal::East);
    assert_eq!(cells(&f), vec![6, 2, 1, 1, 2, 2, 4, 5, 5]);
    f.set_edge(6 + 8 * 6 + 64 * 6, &Ordinal::South);
    assert_eq!(cells(&f), vec![6, 2, 1, 1, 6, 6, 6, 5, 5]);
    f.set_edge(3 + 8 * 3 + 64 * 3, &Ordinal::North);
    assert_eq!(cells(&f), vec![3, 3, 3, 1, 6, 6, 6, 5, 5]);
}

#[test]
fn set_and_get_cells() {
    let mut f = Face::solved(2).unwrap();
    f.set(4, 5);
    f.set(8, 6);
    assert_eq!(cells(&f), vec![2, 2, 2, 2, 5, 2, 2, 2, 6]);
}

#[test]
fn cube_from_words() {
    let solved = BitCube::solved();
    let w = words(&solved);
    assert_eq!(w[0], 0o111_111_111);
    assert_eq!(w[5], 0o666_666_666);
    let again = BitCube::from(w).unwrap();
    assert_eq!(words(&again), w);
    let mut bad = w;
    bad[2] = 0o111_101_111;
    assert_eq!(BitCube::from(bad), Err(CubeError::InvalidCellValue(0)));
    let mut high = w;
    high[4] = 0o111_111_111 | (1 << 28);
    assert_eq!(BitCube::from(high), Err(CubeError::InvalidCellValue(2)));
}

#[test]
fn bit_each_single_move_unsolves() {
    let solved = words(&BitCube::solved());
    for m in all_moves() {
        let mut cube = BitCube::solved();
        cube.turn(m.face, m.direction);
        assert_ne!(words(&cube), solved);
    }
}

#[test]
fn bit_four_quarter_turns_restore() {
    let mut rng = StdRng::seed_from_u64(5);
    let mut cube = BitCube::solved();
    for _ in 0..30 {
        let m = Move::random(&mut rng);
        cube.turn(m.face, m.direction);
    }
    let before = words(&cube);
    for m in all_moves() {
        let mut c = cube;
        for _ in 0..4 {
            c.turn(m.face, m.direction);
        }
        assert_eq!(words(&c), before);
    }
}

#[test]
fn bit_clockwise_then_counterclockwise_restores() {
    let mut rng = StdRng::seed_from_u64(9);
    let mut cube = BitCube::solved();
    for _ in 0..30 {
        let m = Move::random(&mut rng);
        cube.turn(m.face, m.direction);
    }
    let before = words(&cube);
    for f in 0..6 {
        let mut c = cube;
        c.turn(f, Direction::Clockwise);
        c.turn(f, Direction::CounterClockwise);
        assert_eq!(words(&c), before);
    }
}

#[test]
fn bit_face_zero_clockwise() {
    let mut cube = BitCube::solved();
    cube.turn(0, Direction::Clockwise);
    // Face 1's top row takes face 2's, and so on round the cycle.
    assert_eq!(cells(&cube.face(1))[0..3], [3, 3, 3]);
    assert_eq!(cells(&cube.face(2))[0..3], [4, 4, 4]);
    assert_eq!(cells(&cube.face(3))[0..3], [5, 5, 5]);
    assert_eq!(cells(&cube.face(4))[0..3], [2, 2, 2]);
    assert_eq!(cells(&cube.face(0)), vec![1; 9]);
    assert_eq!(cells(&cube.face(5)), vec![6; 9]);
}

#[test]
fn colors_conserved() {
    let mut rng = StdRng::seed_from_u64(13);
    let mut cube = BitCube::solved();
    for _ in 0..200 {
        let m = Move::random(&mut rng);
        cube.turn(m.face, m.direction);
        let mut counts = [0usize; 8];
        for f in 0..6 {
            for v in cells(&cube.face(f)) {
                counts[v as usize] += 1;
            }
        }
        assert_eq!(counts, [0, 9, 9, 9, 9, 9, 9, 0]);
    }
}

#[test]
fn move_from_index_and_random() {
    assert_eq!(Move::from_index(0), Move { face: 0, direction: Direction::Clockwise });
    assert_eq!(Move::from_index(9), Move { face: 4, direction: Direction::CounterClockwise });
    let mut rng = StdRng::seed_from_u64(17);
    for _ in 0..100 {
        assert!(Move::random(&mut rng).face < 6);
    }
}

#[test]
fn both_models_agree() {
    let mut rng = StdRng::seed_from_u64(2024);
    let mut bits = BitCube::solved();
    let mut pieces = RubiksCube::solved();
    let order = row_major_to_internal();
    for _ in 0..50 {
        let m = Move::random(&mut rng);
        bits.turn(m.face, m.direction);
        pieces.turn(&Rotation { face: Color::new(m.face), direction: m.direction });
        for f in 0..NUM_COLORS {
            let grid = pieces.get_face(&Color::new(f)).unwrap();
            let face = bits.face(f);
            for p in 0..9 {
                assert_eq!(grid[p / 3][p % 3].idx + 1, face.get(order[p]) as usize);
            }
        }
    }
}
