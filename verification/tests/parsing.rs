//! Tests of the world file parser.

use ant_lib::{AntColor, World};

#[test]
fn parses_a_small_world() {
    let w = World::parse(b"3\n3\n# # #\n# . #\n# # #\n").unwrap();
    assert_eq!(w.width, 3);
    assert_eq!(w.height, 3);
    assert_eq!(w.cells.len(), 9);
    assert!(w.cells[0].is_rocky);
    assert!(!w.cells[4].is_rocky);
    assert_eq!(w.cells[4].food, 0);
    assert_eq!(w.count_rocks(), 8);
}

#[test]
fn parses_anthills_and_food() {
    let w = World::parse(b"3\n3\n# # #\n+ 5 -\n# # #\n").unwrap();
    assert_eq!(w.cells[3].anthill, Some(AntColor::Red));
    assert_eq!(w.cells[5].anthill, Some(AntColor::Black));
    assert_eq!(w.cells[4].food, 5);
    assert_eq!(w.count_food(), 5);
}

#[test]
fn tolerates_surrounding_whitespace() {
    let w = World::parse(b"  2 \r\n\t2\n  # #   \n # .\n").unwrap();
    assert_eq!(w.width, 2);
    assert_eq!(w.height, 2);
    assert!(!w.cells[3].is_rocky);
}

#[test]
fn accepts_plus_signed_food_count() {
    // Rust's integer parsing accepts a leading plus, so "+12" is food, while
    // a bare "+" is a red anthill.
    let w = World::parse(b"1\n2\n+ +12\n").unwrap();
    assert_eq!(w.cells[0].anthill, Some(AntColor::Red));
    assert_eq!(w.cells[1].food, 12);
}

#[test]
fn rejects_empty_input() {
    assert!(World::parse(b"").is_none());
}

#[test]
fn rejects_missing_height_line() {
    assert!(World::parse(b"3").is_none());
    assert!(World::parse(b"3\n").is_none());
}

#[test]
fn rejects_non_numeric_dimension() {
    assert!(World::parse(b"x\n3\n# # #\n").is_none());
    assert!(World::parse(b"3\n \n# # #\n").is_none());
}

#[test]
fn rejects_unknown_token() {
    assert!(World::parse(b"1\n1\n?\n").is_none());
    assert!(World::parse(b"1\n1\n-3\n").is_none());
}

#[test]
fn rejects_wrong_cell_count() {
    assert!(World::parse(b"2\n2\n# # #\n").is_none());
    assert!(World::parse(b"2\n2\n# # # # #\n").is_none());
}

#[test]
fn rejects_oversized_food_count() {
    assert!(World::parse(b"1\n1\n65535\n").is_some());
    assert!(World::parse(b"1\n1\n65536\n").is_none());
}

#[test]
fn rejects_oversized_dimensions() {
    assert!(World::parse(b"65536\n1\n").is_none());
}

#[test]
fn populate_places_one_ant_per_anthill() {
    let mut w = World::parse(b"4\n3\n# # # #\n# + - #\n# # # #\n").unwrap();
    let ants = w.populate();
    assert_eq!(ants, vec![5, 6]);
    let red = w.cells[5].ant.as_ref().unwrap();
    assert_eq!(red.id, 0);
    assert_eq!(red.color, AntColor::Red);
    assert!(!red.has_food);
    assert_eq!(red.resting, 0);
    assert_eq!(red.state, 0);
    let black = w.cells[6].ant.as_ref().unwrap();
    assert_eq!(black.id, 1);
    assert_eq!(black.color, AntColor::Black);
    assert_eq!(w.count_ants(), 2);
    assert_eq!(w.count_red_ants(), 1);
    assert_eq!(w.count_black_ants(), 1);
    assert_eq!(w.count_red_food(), 0);
    assert_eq!(w.count_black_food(), 0);
}
