use rubiks::bit_cube::{BitCube, Face, Move};
use rubiks::color::Color;
use rubiks::rotation::{Direction, Rotation};
use rubiks::rubiks_cube::{write_face_row, write_multiple_face_rows, write_single_face, RubiksCube};

const COLOR_MAPPING: [&str; 6] = ["w", "r", "b", "o", "g", "y"];

#[test]
fn face_row_text() {
    let f = Face::from([1, 2, 3, 4, 5, 6, 1, 2, 3]).unwrap();
    assert_eq!(f.pretty_fmt_row(1, None, None, None), "4 5 6");
    assert_eq!(f.pretty_fmt_row(0, Some("|"), Some("|\n"), Some(",")), "|1,2,3|\n");
    assert_eq!(f.pretty_fmt_row(2, Some("<"), None, Some("")), "<123");
}

#[test]
fn face_text() {
    let f = Face::from([1, 2, 3, 4, 5, 6, 1, 2, 3]).unwrap();
    assert_eq!(f.pretty_fmt(Some("|"), Some("|\n"), None), "|1 2 3|\n|4 5 6|\n|1 2 3|\n");
}

fn solved_net(names: [&str; 6]) -> String {
    let mut s = String::new();
    s.push_str("        ---------\n");
    for _ in 0..3 {
        s.push_str(&format!("        | {0} {0} {0} |\n", names[0]));
    }
    s.push_str("---------------------------------\n");
    for _ in 0..3 {
        s.push_str(&format!(
            "| {0} {0} {0} | {1} {1} {1} | {2} {2} {2} | {3} {3} {3} |\n",
            names[1], names[2], names[3], names[4]
        ));
    }
    s.push_str("---------------------------------\n");
    for _ in 0..3 {
        s.push_str(&format!("        | {0} {0} {0} |\n", names[5]));
    }
    s.push_str("        ---------\n");
    s
}

#[test]
fn solved_cube_text() {
    let cube = BitCube::solved();
    assert_eq!(cube.to_text(), solved_net(["1", "2", "3", "4", "5", "6"]));
    assert_eq!(cube.pretty_to_string(&COLOR_MAPPING), solved_net(COLOR_MAPPING));
}

#[test]
fn turned_cube_text() {
    let mut cube = BitCube::solved();
    cube.turn(0, Direction::Clockwise);
    let text = cube.pretty_to_string(&COLOR_MAPPING);
    let lines: Vec<&str> = text.lines().collect();
    assert_eq!(lines[5], "| b b b | o o o | g g g | r r r |");
    assert_eq!(lines[6], "| r r r | b b b | o o o | g g g |");
}

#[test]
fn move_text() {
    let m = Move { face: 2, direction: Direction::CounterClockwise };
    assert_eq!(m.pretty_fmt(&COLOR_MAPPING), "b'");
    let n = Move { face: 5, direction: Direction::Clockwise };
    assert_eq!(n.pretty_fmt(&COLOR_MAPPING), "y");
    assert_eq!(m.to_text(), "2'");
    assert_eq!(n.to_text(), "5");
}

#[test]
fn rotation_text() {
    let r = Rotation { face: Color::new(3), direction: Direction::Clockwise };
    assert_eq!(r.to_text(), "o");
    let s = Rotation { face: Color::new(0), direction: Direction::CounterClockwise };
    assert_eq!(s.to_text(), "w'");
}

#[test]
fn color_names() {
    let names: Vec<&str> = (0..6).map(|i| Color::new(i).name()).collect();
    assert_eq!(names, vec!["White", "Red", "Blue", "Orange", "Green", "Yellow"]);
    let abrvs: Vec<&str> = (0..6).map(|i| Color::new(i).abrv()).collect();
    assert_eq!(abrvs, vec!["w", "r", "b", "o", "g", "y"]);
}

#[test]
fn piece_cube_text() {
    let cube = RubiksCube::solved();
    let mut expected = String::new();
    expected.push_str("         ---------\n");
    for _ in 0..3 {
        expected.push_str("         | w w w |\n");
    }
    expected.push_str(&"-".repeat(36));
    expected.push('\n');
    for _ in 0..3 {
        expected.push_str("| r r r || b b b || o o o || g g g |\n");
    }
    expected.push_str(&"-".repeat(36));
    expected.push('\n');
    for _ in 0..3 {
        expected.push_str("         | y y y |\n");
    }
    expected.push_str("         ---------\n");
    assert_eq!(cube.to_text(), Some(expected));
}

#[test]
fn grid_rows_text() {
    let g = [
        [Color::new(0), Color::new(1), Color::new(2)],
        [Color::new(3), Color::new(4), Color::new(5)],
        [Color::new(0), Color::new(0), Color::new(0)],
    ];
    assert_eq!(write_face_row(&g, 1), "| o g y |");
    assert_eq!(write_single_face(&g, ">"), ">| w r b |\n>| o g y |\n>| w w w |\n");
    assert_eq!(write_multiple_face_rows(&vec![g, g], 0), "| w r b || w r b |\n");
    assert_eq!(write_multiple_face_rows(&vec![], 2), "\n");
}
