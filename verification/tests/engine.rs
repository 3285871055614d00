//! End-to-end tests of the simulator: single-ant scenarios, pick-up and
//! drop round trips, blocked moves, surround-kills, flips, conservation,
//! the index invariants, and deterministic replay.

use ant_lib::{
    AntColor, AntDirection, Condition, Instruction, SenseDir, Simulator, TurnDir, World,
};

const EMPTY_5X5: &[u8] = b"5\n5\n# # # # #\n# . . . #\n# . + . #\n# . . . #\n# # # # #\n";

fn spin() -> Vec<Instruction> {
    vec![Instruction::Turn(TurnDir::Right, 0)]
}

#[test]
fn single_ant_turns_full_circle() {
    let world = World::parse(EMPTY_5X5).unwrap();
    let mut sim = Simulator::new(world, spin(), spin(), 100, 1);
    assert_eq!(sim.ants, vec![12]);
    let mut expected = AntDirection::Right;
    for _ in 0..6 {
        sim.one_round();
        expected = expected.turn(TurnDir::Right);
        assert_eq!(sim.world.cells[12].ant.as_ref().unwrap().direction, expected);
    }
    assert_eq!(sim.round, 6);
    assert_eq!(sim.world.cells[12].ant.as_ref().unwrap().direction, AntDirection::Right);
    let o = sim.partial_outcome();
    assert_eq!(o.food_left, 0);
    assert_eq!(o.red_alive, 1);
    assert_eq!(o.black_alive, 0);
    assert_eq!(o.round, 6);
}

#[test]
fn pickup_then_drop_restores_food() {
    let mut world = World::parse(EMPTY_5X5).unwrap();
    world.cells[12].food = 1;
    let red = vec![
        Instruction::PickUp(1, 4),
        Instruction::Drop(0),
        Instruction::Turn(TurnDir::Left, 0),
        Instruction::Turn(TurnDir::Left, 0),
        Instruction::Turn(TurnDir::Left, 0),
    ];
    let mut sim = Simulator::new(world, red, spin(), 100, 1);
    sim.one_round();
    {
        let ant = sim.world.cells[12].ant.as_ref().unwrap();
        assert!(ant.has_food);
        assert_eq!(ant.state, 1);
    }
    assert_eq!(sim.world.cells[12].food, 0);
    assert_eq!(sim.partial_outcome().food_left, 0);
    sim.one_round();
    {
        let ant = sim.world.cells[12].ant.as_ref().unwrap();
        assert!(!ant.has_food);
        assert_eq!(ant.state, 0);
    }
    assert_eq!(sim.world.cells[12].food, 1);
    // The food sits on the red anthill, so it scores.
    let o = sim.partial_outcome();
    assert_eq!(o.food_left, 1);
    assert_eq!(o.red_score, 1);
    assert_eq!(o.black_score, 0);
}

#[test]
fn pickup_on_empty_cell_fails() {
    let world = World::parse(EMPTY_5X5).unwrap();
    let red = vec![Instruction::PickUp(1, 4), Instruction::Drop(0), Instruction::Drop(0),
                   Instruction::Drop(0), Instruction::Drop(0)];
    let mut sim = Simulator::new(world, red, spin(), 100, 1);
    sim.one_round();
    let ant = sim.world.cells[12].ant.as_ref().unwrap();
    assert!(!ant.has_food);
    assert_eq!(ant.state, 4);
}

#[test]
fn move_into_rock_fails_without_resting() {
    let world = World::parse(b"5\n5\n# # # # #\n# + # . #\n# . . . #\n# . . . #\n# # # # #\n")
        .unwrap();
    let red = vec![
        Instruction::Move(1, 2),
        Instruction::Turn(TurnDir::Right, 0),
        Instruction::Turn(TurnDir::Left, 0),
    ];
    let mut sim = Simulator::new(world, red, spin(), 100, 1);
    sim.one_round();
    {
        let ant = sim.world.cells[6].ant.as_ref().unwrap();
        assert_eq!(ant.state, 2);
        assert_eq!(ant.resting, 0);
    }
    sim.one_round();
    let ant = sim.world.cells[6].ant.as_ref().unwrap();
    assert_eq!(ant.direction, AntDirection::UpRight);
    assert_eq!(ant.state, 0);
}

#[test]
fn successful_move_rests_fourteen_rounds() {
    let world = World::parse(EMPTY_5X5).unwrap();
    let red = vec![Instruction::Move(0, 0)];
    let mut sim = Simulator::new(world, red, spin(), 100, 1);
    sim.one_round();
    // The ant stepped east from (2,2) to (3,2) and now rests.
    assert!(sim.world.cells[12].ant.is_none());
    assert_eq!(sim.ants, vec![13]);
    assert_eq!(sim.world.cells[13].ant.as_ref().unwrap().resting, 14);
    for k in 1..=14u8 {
        sim.one_round();
        assert_eq!(sim.world.cells[13].ant.as_ref().unwrap().resting, 14 - k);
    }
    // The next round it acts again: the move east into the rocky border
    // fails, but it is an action, not a rest.
    sim.one_round();
    let ant = sim.world.cells[13].ant.as_ref().unwrap();
    assert_eq!(ant.resting, 0);
    assert_eq!(sim.ants, vec![13]);
}

const SURROUND_7X7: &[u8] = b"7\n7\n\
# # # # # # #\n\
# . . . . . #\n\
# . . - . . #\n\
# . - + - . #\n\
# . . - - . #\n\
# . . . . . #\n\
# # # # # # #\n";

fn surround_programs() -> (Vec<Instruction>, Vec<Instruction>) {
    let red = vec![Instruction::Turn(TurnDir::Right, 0)];
    let black = vec![Instruction::Move(1, 1), Instruction::Turn(TurnDir::Right, 1)];
    (red, black)
}

#[test]
fn surrounded_ant_dies_and_drops_food() {
    let world = World::parse(SURROUND_7X7).unwrap();
    let (red, black) = surround_programs();
    let mut sim = Simulator::new(world, red, black, 100, 1);
    // Ants by id: black 17, black 23, red 24, black 25, black 31, black 32.
    assert_eq!(sim.ants, vec![17, 23, 24, 25, 31, 32]);
    let before = sim.partial_outcome();
    assert_eq!(before.red_alive, 1);
    assert_eq!(before.black_alive, 5);
    assert_eq!(before.food_left, 0);
    sim.one_round();
    // The black ant at (3,2) moved into (4,2); the red ant at (3,3) then
    // had five black neighbors and died, leaving three food.
    let after = sim.partial_outcome();
    assert_eq!(after.red_alive, 0);
    assert_eq!(after.black_alive, 5);
    assert_eq!(after.food_left, 3);
    assert_eq!(sim.ants[2], usize::MAX);
    assert_eq!(sim.world.cells[24].food, 3);
    // Conservation: three food per death, none carried.
    assert_eq!(after.food_left, before.food_left + 3);
}

#[test]
fn index_matches_board_after_rounds() {
    let world = World::parse(SURROUND_7X7).unwrap();
    let (red, black) = surround_programs();
    let mut sim = Simulator::new(world, red, black, 100, 3);
    sim.run_rounds(40);
    let mut seen = Vec::new();
    for (slot, &pos) in sim.ants.iter().enumerate() {
        if pos != usize::MAX {
            // Cell-index consistency: the cell holds an ant with this id.
            let ant = sim.world.cells[pos].ant.as_ref().unwrap();
            assert_eq!(ant.id, slot);
            // Uniqueness: no two live entries share a position.
            assert!(!seen.contains(&pos));
            seen.push(pos);
        }
    }
}

#[test]
fn conservation_through_kills() {
    let mut world = World::parse(SURROUND_7X7).unwrap();
    world.cells[10].food = 7;
    let (red, black) = surround_programs();
    let mut sim = Simulator::new(world, red, black, 100, 3);
    let count_carried = |s: &Simulator| -> u32 {
        s.world
            .cells
            .iter()
            .filter_map(|c| c.ant.as_ref())
            .filter(|a| a.has_food)
            .count() as u32
    };
    let live = |s: &Simulator| -> u32 {
        s.world.cells.iter().filter(|c| c.ant.is_some()).count() as u32
    };
    let before_food = sim.partial_outcome().food_left as u32 + count_carried(&sim);
    let before_live = live(&sim);
    sim.run_rounds(60);
    let after_food = sim.partial_outcome().food_left as u32 + count_carried(&sim);
    let after_live = live(&sim);
    // Food on cells plus carried food grows by exactly three per death.
    assert_eq!(after_food, before_food + 3 * (before_live - after_live));
}

#[test]
fn sense_finds_food_ahead() {
    let mut world = World::parse(EMPTY_5X5).unwrap();
    world.cells[13].food = 2;
    let red = vec![
        Instruction::Sense(SenseDir::Ahead, 1, 2, Condition::Food),
        Instruction::Turn(TurnDir::Left, 1),
        Instruction::Turn(TurnDir::Right, 2),
    ];
    let mut sim = Simulator::new(world, red, spin(), 100, 1);
    sim.one_round();
    assert_eq!(sim.world.cells[12].ant.as_ref().unwrap().state, 1);
}

#[test]
fn sense_here_detects_home() {
    let world = World::parse(EMPTY_5X5).unwrap();
    let red = vec![
        Instruction::Sense(SenseDir::Here, 1, 2, Condition::Home),
        Instruction::Turn(TurnDir::Left, 1),
        Instruction::Turn(TurnDir::Right, 2),
    ];
    let mut sim = Simulator::new(world, red, spin(), 100, 1);
    sim.one_round();
    assert_eq!(sim.world.cells[12].ant.as_ref().unwrap().state, 1);
}

#[test]
fn mark_then_unmark_restores_markers() {
    let world = World::parse(EMPTY_5X5).unwrap();
    let red = vec![
        Instruction::Mark(2, 1),
        Instruction::Unmark(2, 2),
        Instruction::Turn(TurnDir::Right, 2),
    ];
    let mut sim = Simulator::new(world, red, spin(), 100, 1);
    sim.one_round();
    assert!(sim.world.cells[12].markers(AntColor::Red).test(2));
    sim.one_round();
    assert!(!sim.world.cells[12].markers(AntColor::Red).test(2));
    assert_eq!(sim.world.cells[12].markers(AntColor::Red).set_bits(), Vec::<u8>::new());
    assert!(!sim.world.cells[12].markers(AntColor::Black).any_set());
}

#[test]
fn flip_streams_replay_exactly() {
    let run = |seed: u32| -> (u8, u8, Vec<usize>) {
        let world = World::parse(EMPTY_5X5).unwrap();
        let red = vec![
            Instruction::Flip(2, 1, 2),
            Instruction::Mark(0, 0),
            Instruction::Mark(1, 0),
        ];
        let mut sim = Simulator::new(world, red, spin(), 100, seed);
        sim.run_rounds(20);
        let c = &sim.world.cells[12];
        (
            c.markers_red.bits,
            c.ant.as_ref().unwrap().state as u8,
            sim.ants.clone(),
        )
    };
    assert_eq!(run(1), run(1));
    assert_eq!(run(2), run(2));
}

#[test]
fn reset_replays_byte_identically() {
    let world = World::parse(SURROUND_7X7).unwrap();
    let (red, black) = surround_programs();
    let mut sim = Simulator::new(world.clone(), red, black, 1000, 11);
    sim.run_rounds(50);
    let cells_a = sim.world.cells.clone();
    let ants_a = sim.ants.clone();
    let outcome_a = sim.partial_outcome();
    let mut sim = sim.reset(world, 11);
    assert_eq!(sim.round, 0);
    sim.run_rounds(50);
    assert_eq!(sim.world.cells, cells_a);
    assert_eq!(sim.ants, ants_a);
    assert_eq!(sim.partial_outcome(), outcome_a);
}

#[test]
fn one_round_stops_at_the_cap() {
    let world = World::parse(EMPTY_5X5).unwrap();
    let mut sim = Simulator::new(world, spin(), spin(), 2, 1);
    sim.one_round();
    sim.one_round();
    let dir_at_cap = sim.world.cells[12].ant.as_ref().unwrap().direction;
    sim.one_round();
    assert_eq!(sim.round, 2);
    assert_eq!(sim.world.cells[12].ant.as_ref().unwrap().direction, dir_at_cap);
}

#[test]
fn run_reaches_the_cap() {
    let world = World::parse(EMPTY_5X5).unwrap();
    let mut sim = Simulator::new(world, spin(), spin(), 9, 5);
    let outcome = sim.run();
    assert_eq!(outcome.round, 9);
    assert_eq!(sim.round, 9);
    assert_eq!(outcome.red_alive, 1);
}

#[test]
fn run_rounds_is_cumulative() {
    let world = World::parse(SURROUND_7X7).unwrap();
    let (red, black) = surround_programs();
    let mut a = Simulator::new(world.clone(), red.clone(), black.clone(), 1000, 3);
    a.run_rounds(10);
    a.run_rounds(15);
    let mut b = Simulator::new(world, red, black, 1000, 3);
    b.run_rounds(25);
    assert_eq!(a.round, 25);
    assert_eq!(a.world.cells, b.world.cells);
    assert_eq!(a.ants, b.ants);
}
