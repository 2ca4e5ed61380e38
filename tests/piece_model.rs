use rand::rngs::StdRng;
use rand::SeedableRng;
use rubiks::block::{Block, BlockFace};
use rubiks::color::{Color, BLUE, GREEN, NUM_COLORS, ORANGE, RED, WHITE, YELLOW};
use rubiks::rotation::{Direction, Rotation};
use rubiks::rubiks_cube::{adjacent_colors, all_rotations, get_color_rotations, RubiksCube, Solution};

fn rot(face: usize, direction: Direction) -> Rotation {
    Rotation { face: Color::new(face), direction }
}

fn grids(cube: &RubiksCube) -> Vec<[[Color; 3]; 3]> {
    (0..NUM_COLORS).map(|f| cube.get_face(&Color::new(f)).unwrap()).collect()
}

fn apply(cube: &mut RubiksCube, moves: &[Rotation]) {
    for m in moves {
        cube.turn(m);
    }
}

#[test]
fn face_zero_clockwise_permutation() {
    let r = get_color_rotations(&rot(WHITE, Direction::Clockwise));
    assert_eq!(adjacent_colors(WHITE), [GREEN, ORANGE, BLUE, RED]);
    assert_eq!(r[WHITE], Some(Color::new(WHITE)));
    assert_eq!(r[GREEN], Some(Color::new(ORANGE)));
    assert_eq!(r[ORANGE], Some(Color::new(BLUE)));
    assert_eq!(r[BLUE], Some(Color::new(RED)));
    assert_eq!(r[RED], Some(Color::new(GREEN)));
    assert_eq!(r[YELLOW], None);
}

#[test]
fn face_zero_counterclockwise_permutation() {
    let r = get_color_rotations(&rot(WHITE, Direction::CounterClockwise));
    assert_eq!(r[WHITE], Some(Color::new(WHITE)));
    assert_eq!(r[ORANGE], Some(Color::new(GREEN)));
    assert_eq!(r[BLUE], Some(Color::new(ORANGE)));
    assert_eq!(r[RED], Some(Color::new(BLUE)));
    assert_eq!(r[GREEN], Some(Color::new(RED)));
    assert_eq!(r[YELLOW], None);
}

#[test]
fn solved_cube_is_solved() {
    let cube = RubiksCube::solved();
    assert!(cube.is_solved());
    for (f, grid) in grids(&cube).iter().enumerate() {
        for row in grid {
            for c in row {
                assert_eq!(c.idx, f);
            }
        }
    }
}

#[test]
fn each_single_move_unsolves() {
    for r in all_rotations() {
        let mut cube = RubiksCube::solved();
        cube.turn(&r);
        assert!(!cube.is_solved());
    }
}

#[test]
fn four_quarter_turns_restore() {
    let mut rng = StdRng::seed_from_u64(7);
    let mut cube = RubiksCube::solved();
    cube.scramble(&mut rng, 20);
    let before = grids(&cube);
    for r in all_rotations() {
        let mut c = cube;
        apply(&mut c, &[r, r, r, r]);
        assert_eq!(grids(&c), before);
    }
}

#[test]
fn clockwise_then_counterclockwise_restores() {
    let mut rng = StdRng::seed_from_u64(11);
    let mut cube = RubiksCube::solved();
    cube.scramble(&mut rng, 15);
    let before = grids(&cube);
    for f in 0..NUM_COLORS {
        let mut c = cube;
        apply(&mut c, &[rot(f, Direction::Clockwise), rot(f, Direction::CounterClockwise)]);
        assert_eq!(grids(&c), before);
        let mut d = cube;
        apply(&mut d, &[rot(f, Direction::CounterClockwise), rot(f, Direction::Clockwise)]);
        assert_eq!(grids(&d), before);
    }
}

#[test]
fn white_clockwise_moves_stickers() {
    let mut cube = RubiksCube::solved();
    cube.turn(&rot(WHITE, Direction::Clockwise));
    let white = cube.get_face(&Color::new(WHITE)).unwrap();
    for row in white {
        for c in row {
            assert_eq!(c.idx, WHITE);
        }
    }
    // The top row of orange now shows what was on green.
    let orange = cube.get_face(&Color::new(ORANGE)).unwrap();
    assert_eq!(orange[0], [Color::new(GREEN); 3]);
    let yellow = cube.get_face(&Color::new(YELLOW)).unwrap();
    for row in yellow {
        for c in row {
            assert_eq!(c.idx, YELLOW);
        }
    }
}

#[test]
fn scramble_returns_moves_and_replays() {
    let mut rng = StdRng::seed_from_u64(42);
    let mut cube = RubiksCube::solved();
    let moves = cube.scramble(&mut rng, 25);
    assert_eq!(moves.len(), 25);
    let mut replay = RubiksCube::solved();
    apply(&mut replay, &moves);
    assert_eq!(grids(&replay), grids(&cube));
}

#[test]
fn scramble_zero_moves() {
    let mut rng = StdRng::seed_from_u64(1);
    let mut cube = RubiksCube::solved();
    let moves = cube.scramble(&mut rng, 0);
    assert!(moves.is_empty());
    assert!(cube.is_solved());
}

#[test]
fn random_rotations_cover_range() {
    let mut rng = StdRng::seed_from_u64(3);
    let mut seen = [false; 12];
    for _ in 0..500 {
        let r = Rotation::random(&mut rng);
        assert!(r.face.idx < NUM_COLORS);
        let i = 2 * r.face.idx + if r.direction == Direction::Clockwise { 0 } else { 1 };
        seen[i] = true;
    }
    assert!(seen.iter().all(|s| *s));
}

#[test]
fn rotation_from_index() {
    assert_eq!(Rotation::from_index(0), rot(0, Direction::Clockwise));
    assert_eq!(Rotation::from_index(7), rot(3, Direction::CounterClockwise));
    assert_eq!(Rotation::from_index(11), rot(5, Direction::CounterClockwise));
}

#[test]
fn solve_already_solved() {
    let cube = RubiksCube::solved();
    assert_eq!(cube.solve(), Solution::AlreadySolved);
}

#[test]
fn solve_small_scrambles() {
    for n in 0..4usize {
        let mut rng = StdRng::seed_from_u64(100 + n as u64);
        let mut cube = RubiksCube::solved();
        let moves = cube.scramble(&mut rng, n);
        assert_eq!(moves.len(), n);
        match cube.solve() {
            Solution::AlreadySolved => assert!(cube.is_solved()),
            Solution::Found(path) => {
                assert!(!path.is_empty());
                assert!(path.len() <= n);
                let mut c = cube;
                apply(&mut c, &path);
                assert!(c.is_solved());
            }
            Solution::Exhausted => panic!("search gave up"),
        }
        if n == 0 {
            assert_eq!(cube.solve(), Solution::AlreadySolved);
        }
    }
}

#[test]
fn solve_one_move_gives_its_inverse() {
    let mut cube = RubiksCube::solved();
    cube.turn(&rot(BLUE, Direction::Clockwise));
    assert_eq!(cube.solve(), Solution::Found(vec![rot(BLUE, Direction::CounterClockwise)]));
}

#[test]
fn solve_two_moves_is_shortest() {
    let mut cube = RubiksCube::solved();
    cube.turn(&rot(RED, Direction::Clockwise));
    cube.turn(&rot(GREEN, Direction::Clockwise));
    match cube.solve() {
        Solution::Found(path) => {
            assert_eq!(path.len(), 2);
            let mut c = cube;
            apply(&mut c, &path);
            assert!(c.is_solved());
        }
        other => panic!("unexpected {:?}", other),
    }
}

#[test]
fn block_queries() {
    let e = Block::solved_edge(Color::new(WHITE), Color::new(RED));
    assert!(e.is_solved());
    assert_eq!(e.get_face(&Color::new(RED)), Some(Color::new(RED)));
    assert_eq!(e.get_face(&Color::new(BLUE)), None);
    let c = Block::solved_corner(Color::new(WHITE), Color::new(RED), Color::new(GREEN));
    assert!(c.is_solved());
    assert_eq!(c.get_face(&Color::new(GREEN)), Some(Color::new(GREEN)));
    let moved = Block::Edge(
        BlockFace { color: Color::new(WHITE), face: Color::new(RED) },
        BlockFace { color: Color::new(RED), face: Color::new(WHITE) },
    );
    assert!(!moved.is_solved());
    assert_eq!(moved.get_face(&Color::new(WHITE)), Some(Color::new(RED)));
    let f = BlockFace { color: Color::new(BLUE), face: Color::new(BLUE) };
    assert!(f.is_solved());
}
