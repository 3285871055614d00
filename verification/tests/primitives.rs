//! Tests of the small building blocks: marker bit sets, the generator,
//! directions, and hex adjacency.

use ant_lib::simulator::sensed_position;
use ant_lib::{AntDirection, BitField8, Rng, SenseDir, TurnDir, World};

#[test]
fn bitfield_starts_empty() {
    let b = BitField8::new();
    for i in 0..8 {
        assert!(!b.test(i));
    }
    assert!(!b.any_set());
}

#[test]
fn bitfield_set_test_clear() {
    let mut b = BitField8::new();
    b.set_bit(3);
    assert!(b.test(3));
    assert!(!b.test(2));
    assert!(b.any_set());
    b.clear(3);
    assert!(!b.test(3));
    assert!(!b.any_set());
}

#[test]
fn bitfield_set_then_clear_restores() {
    let mut b = BitField8::new();
    b.set_bit(1);
    b.set_bit(4);
    let before = b;
    b.set_bit(2);
    b.clear(2);
    assert_eq!(b, before);
}

#[test]
fn bitfield_set_bits_ascending() {
    let mut b = BitField8::new();
    b.set_bit(5);
    b.set_bit(0);
    b.set_bit(3);
    assert_eq!(b.set_bits(), vec![0, 3, 5]);
}

#[test]
fn rng_same_seed_same_stream() {
    let mut a = Rng::new(42);
    let mut b = Rng::new(42);
    for _ in 0..20 {
        assert_eq!(a.random_int(16384), b.random_int(16384));
    }
}

#[test]
fn rng_values_in_range() {
    let mut r = Rng::new(7);
    for _ in 0..100 {
        let v = r.random_int(3);
        assert!(v < 3);
    }
}

#[test]
fn rng_follows_documented_lcg() {
    // S_{j+1} = S_j * 22695477 + 1 (mod 2^32), starting at S_4; the value
    // drawn is (S div 65536) mod 16384.
    let mut s: u32 = 9;
    for _ in 0..4 {
        s = s.wrapping_mul(22695477).wrapping_add(1);
    }
    let expected = (s / 65536) % 16384;
    let mut r = Rng::new(9);
    assert_eq!(r.random_int(16384), expected);
}

#[test]
fn six_right_turns_are_identity() {
    let mut d = AntDirection::DownLeft;
    for _ in 0..6 {
        d = d.turn(TurnDir::Right);
    }
    assert_eq!(d, AntDirection::DownLeft);
}

#[test]
fn six_left_turns_are_identity() {
    let mut d = AntDirection::Right;
    for _ in 0..6 {
        d = d.turn(TurnDir::Left);
    }
    assert_eq!(d, AntDirection::Right);
}

#[test]
fn left_then_right_is_identity() {
    for d in AntDirection::all() {
        assert_eq!(d.turn(TurnDir::Left).turn(TurnDir::Right), d);
        assert_eq!(d.turn(TurnDir::Right).turn(TurnDir::Left), d);
    }
}

#[test]
fn turn_follows_clockwise_encoding() {
    assert_eq!(AntDirection::Right.turn(TurnDir::Right), AntDirection::DownRight);
    assert_eq!(AntDirection::UpRight.turn(TurnDir::Right), AntDirection::Right);
    assert_eq!(AntDirection::Right.turn(TurnDir::Left), AntDirection::UpRight);
}

#[test]
fn all_lists_the_six_directions_in_scan_order() {
    let dirs = AntDirection::all();
    assert_eq!(
        dirs,
        vec![
            AntDirection::Right,
            AntDirection::DownRight,
            AntDirection::DownLeft,
            AntDirection::Left,
            AntDirection::UpLeft,
            AntDirection::UpRight,
        ]
    );
}

#[test]
fn east_then_west_returns_to_origin() {
    // (2,2) on a 5-wide board is flat index 12.
    let e = World::adjacent_position(5, 12, AntDirection::Right);
    assert_eq!(e, 13);
    assert_eq!(World::adjacent_position(5, e, AntDirection::Left), 12);
}

#[test]
fn southeast_then_northwest_returns_to_origin() {
    // From an even row the step down goes straight; from the odd row below,
    // the step up comes straight back.
    let se = World::adjacent_position(5, 12, AntDirection::DownRight);
    assert_eq!(se, 17);
    assert_eq!(World::adjacent_position(5, se, AntDirection::UpLeft), 12);

    // From an odd row the step down leans right; the step up from the even
    // row below leans left, and again comes back.
    let se2 = World::adjacent_position(5, 7, AntDirection::DownRight);
    assert_eq!(se2, 13);
    assert_eq!(World::adjacent_position(5, se2, AntDirection::UpLeft), 7);
}

#[test]
fn parity_affects_diagonal_steps() {
    // Even row (y = 2): south-east goes straight down.
    assert_eq!(World::adjacent_position(5, 12, AntDirection::DownRight), 17);
    // Odd row (y = 1): south-east goes down and right.
    assert_eq!(World::adjacent_position(5, 7, AntDirection::DownRight), 13);
}

#[test]
fn coords_roundtrip() {
    assert_eq!(World::coords_to_index(7, 3, 2), 17);
    assert_eq!(World::index_to_coords(7, 17), (3, 2));
}

#[test]
fn sensed_positions_follow_the_heading() {
    // From (2,2) on a 5-wide board (index 12), facing East.
    assert_eq!(sensed_position(5, 12, AntDirection::Right, SenseDir::Here), 12);
    assert_eq!(sensed_position(5, 12, AntDirection::Right, SenseDir::Ahead), 13);
    // Left ahead of East is North-East: (2,1).
    assert_eq!(sensed_position(5, 12, AntDirection::Right, SenseDir::LeftAhead), 7);
    // Right ahead of East is South-East: (2,3).
    assert_eq!(sensed_position(5, 12, AntDirection::Right, SenseDir::RightAhead), 17);
}

#[test]
fn options_default_matches_the_front_end() {
    let o = ant_lib::Options::default();
    assert!(o.world.is_none());
    assert!(o.red.is_none());
    assert!(o.black.is_none());
    assert_eq!(o.rounds, 100000);
}

#[test]
fn outcome_default_is_all_zero() {
    let o = ant_lib::Outcome::default();
    assert_eq!(o.red_score, 0);
    assert_eq!(o.black_alive, 0);
    assert_eq!(o.food_left, 0);
    assert_eq!(o.round, 0);
}
