//! The mathematical model of the engine: a functional description of what
//! one round does to the board, the ant-position index and the generator,
//! together with the simulation invariant and its preservation lemmas.
//!
//! The executable simulator is verified to compute exactly these functions,
//! so two runs from equal states are equal: the model is the determinism
//! guarantee in one place.

use vstd::prelude::*;
use crate::ant::{Ant, AntColor, AntDirection};
use crate::instruction::{Instruction, SenseDir, valid_instruction, valid_program};
use crate::util::{bit_clear, bit_set, rng_out, rng_step, BitField8};
use crate::world::{
    adjacent_spec, carry_of, count_carrying, count_live, enemies_near, food_of, interior_at,
    live_of, perimeter_at, sum_food, Cell,
};

verus! {

/// The per-run constants: the two programs and the board dimensions.
#[verifier::ext_equal]
pub ghost struct SimCtx {
    /// The red colony's program.
    pub red: Seq<Instruction>,
    /// The black colony's program.
    pub black: Seq<Instruction>,
    /// The board width.
    pub width: int,
    /// The board height.
    pub height: int,
}

/// The mutable state of a run: the board, the ant-position index, and the
/// generator state.
#[verifier::ext_equal]
pub ghost struct SimState {
    /// The board cells, row-major.
    pub cells: Seq<Cell>,
    /// The ant-position index: one entry per originally populated ant, in
    /// id order; `usize::MAX` marks a dead ant.
    pub ants: Seq<usize>,
    /// The generator state.
    pub rng: u32,
}

impl SimCtx {
    /// The program of the given colony.
    pub open spec fn prog(self, color: AntColor) -> Seq<Instruction> {
        match color {
            AntColor::Red => self.red,
            AntColor::Black => self.black,
        }
    }
}

/// The cell index a `Sense` instruction looks at: the ant's own cell, the
/// cell ahead, or the cells ahead-left and ahead-right of its heading.
pub open spec fn sensed_spec(width: int, pos: int, dir: AntDirection, sd: SenseDir) -> int {
    match sd {
        SenseDir::Here => pos,
        SenseDir::Ahead => adjacent_spec(width, pos, dir),
        SenseDir::LeftAhead => adjacent_spec(width, pos, dir.spec_turn_left()),
        SenseDir::RightAhead => adjacent_spec(width, pos, dir.spec_turn_right()),
    }
}

/// `cells` with the ant at `pos` replaced by `a`.
pub open spec fn set_ant(cells: Seq<Cell>, pos: int, a: Ant) -> Seq<Cell> {
    cells.update(pos, Cell { ant: Some(a), ..cells[pos] })
}

/// One cell after a surround-kill: the ant gone, three particles of food
/// dropped, plus the one it carried.
pub open spec fn killed_cell(c: Cell, carried: bool) -> Cell {
    Cell {
        ant: None,
        food: (c.food + 3 + if carried {
            1int
        } else {
            0int
        }) as u16,
        ..c
    }
}

/// Surround-kill at one position: when the cell holds an ant with at least
/// five enemies among its six neighbors, the ant dies, its cell gains the
/// spill food, and its index entry becomes the dead sentinel.  The entry
/// rewritten is the ant's id slot: live positions are unique, so it is the
/// one (and therefore first) entry holding this position.
pub open spec fn kill_at(ctx: SimCtx, st: SimState, p: int) -> SimState {
    if 0 <= p < st.cells.len() && st.cells[p].ant is Some {
        let a = st.cells[p].ant.unwrap();
        if enemies_near(st.cells, ctx.width, p, a.color) >= 5 {
            SimState {
                cells: st.cells.update(p, killed_cell(st.cells[p], a.has_food)),
                ants: st.ants.update(a.id as int, usize::MAX),
                rng: st.rng,
            }
        } else {
            st
        }
    } else {
        st
    }
}

/// The surround-kill pass after a move into `t`: check `t` itself, then its
/// six neighbors in the canonical direction order, each against the board
/// as the previous checks left it.  `kill_ring(.., k)` has checked `t` and
/// the first `k` neighbors.
pub open spec fn kill_ring(ctx: SimCtx, st: SimState, t: int, k: int) -> SimState
    decreases k,
{
    if k <= 0 {
        kill_at(ctx, st, t)
    } else {
        kill_at(
            ctx,
            kill_ring(ctx, st, t, k - 1),
            adjacent_spec(ctx.width, t, AntDirection::spec_from_index(k - 1)),
        )
    }
}

/// The board right after a successful move, before the surround-kill pass:
/// the ant has left its cell, stands on the target with a full resting
/// counter and its success state, and its index entry points at the target.
/// The entry rewritten is the ant's id slot: live positions are unique, so
/// it is the one (and therefore first) entry holding the old position, and
/// a dead sentinel is never rewritten.
pub open spec fn move_intermediate(ctx: SimCtx, st: SimState, pos: int, a: Ant, st_ok: u32) -> SimState {
    let t = adjacent_spec(ctx.width, pos, a.direction);
    let tc = st.cells[t];
    let moved = Ant { resting: 14u8, state: st_ok, ..a };
    SimState {
        cells: st.cells
            .update(pos, Cell { ant: None, ..st.cells[pos] })
            .update(t, Cell { ant: Some(moved), ..tc }),
        ants: st.ants.update(a.id as int, t as usize),
        rng: st.rng,
    }
}

/// What one instruction does, executed by ant `a` standing at `pos`.
pub open spec fn step_instr(ctx: SimCtx, st: SimState, pos: int, a: Ant, ins: Instruction) -> SimState {
    match ins {
        Instruction::Sense(sd, st1, st2, cond) => {
            let sp = sensed_spec(ctx.width, pos, a.direction, sd);
            let holds = cond.spec_eval(st.cells[sp], a.color);
            let next = if holds {
                st1
            } else {
                st2
            };
            SimState { cells: set_ant(st.cells, pos, Ant { state: next, ..a }), ..st }
        },
        Instruction::Mark(m, next) => {
            let c = st.cells[pos];
            let marked = c.spec_with_markers(
                a.color,
                BitField8 { bits: bit_set(c.spec_markers(a.color).bits, m) },
            );
            SimState {
                cells: st.cells.update(pos, Cell { ant: Some(Ant { state: next, ..a }), ..marked }),
                ..st
            }
        },
        Instruction::Unmark(m, next) => {
            let c = st.cells[pos];
            let cleared = c.spec_with_markers(
                a.color,
                BitField8 { bits: bit_clear(c.spec_markers(a.color).bits, m) },
            );
            SimState {
                cells: st.cells.update(pos, Cell { ant: Some(Ant { state: next, ..a }), ..cleared }),
                ..st
            }
        },
        Instruction::PickUp(st_ok, st_fail) => {
            let c = st.cells[pos];
            if a.has_food || c.food == 0 {
                SimState { cells: set_ant(st.cells, pos, Ant { state: st_fail, ..a }), ..st }
            } else {
                SimState {
                    cells: st.cells.update(pos, Cell {
                        food: (c.food - 1) as u16,
                        ant: Some(Ant { has_food: true, state: st_ok, ..a }),
                        ..c
                    }),
                    ..st
                }
            }
        },
        Instruction::Drop(next) => {
            let c = st.cells[pos];
            if a.has_food {
                SimState {
                    cells: st.cells.update(pos, Cell {
                        food: (c.food + 1) as u16,
                        ant: Some(Ant { has_food: false, state: next, ..a }),
                        ..c
                    }),
                    ..st
                }
            } else {
                SimState { cells: set_ant(st.cells, pos, Ant { state: next, ..a }), ..st }
            }
        },
        Instruction::Turn(t, next) => {
            SimState {
                cells: set_ant(st.cells, pos, Ant {
                    direction: a.direction.spec_turn(t),
                    state: next,
                    ..a
                }),
                ..st
            }
        },
        Instruction::Move(st_ok, st_fail) => {
            let t = adjacent_spec(ctx.width, pos, a.direction);
            let tc = st.cells[t];
            if tc.is_rocky || tc.ant is Some {
                SimState { cells: set_ant(st.cells, pos, Ant { state: st_fail, ..a }), ..st }
            } else {
                kill_ring(ctx, move_intermediate(ctx, st, pos, a, st_ok), t, 6)
            }
        },
        Instruction::Flip(n, st1, st2) => {
            let v = rng_out(st.rng) % n;
            let next = if v == 0 {
                st1
            } else {
                st2
            };
            SimState {
                cells: set_ant(st.cells, pos, Ant { state: next, ..a }),
                ants: st.ants,
                rng: rng_step(st.rng),
            }
        },
    }
}

/// What one slot of the ant-position index does when its turn comes: dead
/// slots and absent ants do nothing, a resting ant counts down one round,
/// and an active ant executes the instruction its state selects.
pub open spec fn step_slot(ctx: SimCtx, st: SimState, i: int) -> SimState {
    if !(0 <= i < st.ants.len()) {
        st
    } else if st.ants[i] == usize::MAX {
        st
    } else {
        let p = st.ants[i] as int;
        if !(0 <= p < st.cells.len()) {
            st
        } else {
            match st.cells[p].ant {
                None => st,
                Some(a) => {
                    if a.resting > 0 {
                        SimState {
                            cells: set_ant(st.cells, p, Ant { resting: (a.resting - 1) as u8, ..a }),
                            ..st
                        }
                    } else {
                        let prog = ctx.prog(a.color);
                        if a.state < prog.len() {
                            step_instr(ctx, st, p, a, prog[a.state as int])
                        } else {
                            st
                        }
                    }
                },
            }
        }
    }
}

/// The state after the first `i` slots of the round have acted.
pub open spec fn run_upto(ctx: SimCtx, st: SimState, i: int) -> SimState
    decreases i,
{
    if i <= 0 {
        st
    } else {
        step_slot(ctx, run_upto(ctx, st, i - 1), i - 1)
    }
}

/// One whole round: every slot of the ant-position index acts once, in
/// stored order.
pub open spec fn round_spec(ctx: SimCtx, st: SimState) -> SimState {
    run_upto(ctx, st, st.ants.len() as int)
}

/// The state after `k` whole rounds.
pub open spec fn rounds_iter(ctx: SimCtx, st: SimState, k: nat) -> SimState
    decreases k,
{
    if k == 0 {
        st
    } else {
        round_spec(ctx, rounds_iter(ctx, st, (k - 1) as nat))
    }
}

/// The conserved gauge of the board: food on cells, plus food carried,
/// plus three per live ant.  Every instruction and every kill preserves it,
/// which is the conservation law and the bound that keeps the 16-bit food
/// counters from overflowing.
pub open spec fn gauge(cells: Seq<Cell>) -> int {
    sum_food(cells) + count_carrying(cells) + 3 * count_live(cells)
}

/// Terrain never changes: rockiness and anthill tags are fixed at parse
/// time.
pub open spec fn same_terrain(c1: Seq<Cell>, c2: Seq<Cell>) -> bool {
    &&& c1.len() == c2.len()
    &&& forall|j: int| 0 <= j < c1.len()
        ==> (#[trigger] c2[j]).anthill == c1[j].anthill && c2[j].is_rocky == c1[j].is_rocky
}

/// The slot-to-cell direction of the index invariant: every live entry
/// points at a cell holding an ant whose id is the slot.
pub open spec fn slot_ok(st: SimState, i: int) -> bool {
    st.ants[i] == usize::MAX || {
        let p = st.ants[i] as int;
        &&& 0 <= p < st.cells.len()
        &&& st.cells[p].ant is Some
        &&& st.cells[p].ant.unwrap().id == i
    }
}

/// The cell-to-slot direction: every ant on the board is indexed at its id,
/// stands clear of the perimeter on open ground, rests at most 14 rounds,
/// and its state selects an instruction of its colony's program.
pub open spec fn cell_ok(ctx: SimCtx, st: SimState, j: int) -> bool {
    st.cells[j].ant matches Some(a) ==> {
        &&& a.id < st.ants.len()
        &&& st.ants[a.id as int] == j
        &&& !st.cells[j].is_rocky
        &&& interior_at(ctx.width, ctx.height, j)
        &&& a.resting <= 14
        &&& a.state < ctx.prog(a.color).len()
    }
}

/// The simulation invariant: it holds after population and every round
/// preserves it.
pub open spec fn inv(ctx: SimCtx, st: SimState) -> bool {
    &&& 0 < ctx.width <= 0xFFFF
    &&& 0 < ctx.height <= 0xFFFF
    &&& st.cells.len() == ctx.width * ctx.height
    &&& st.ants.len() <= 0xFFFF
    &&& valid_program(ctx.red)
    &&& valid_program(ctx.black)
    &&& forall|i: int| 0 <= i < st.ants.len() ==> slot_ok(st, i)
    &&& forall|j: int| 0 <= j < st.cells.len() ==> cell_ok(ctx, st, j)
    &&& forall|j: int| 0 <= j < st.cells.len() && perimeter_at(ctx.width, ctx.height, j)
        ==> (#[trigger] st.cells[j]).is_rocky
    &&& forall|j: int| 0 <= j < st.cells.len() && (#[trigger] st.cells[j]).is_rocky
        ==> st.cells[j].food == 0 && st.cells[j].ant is None
    &&& gauge(st.cells) <= 0xFFFF
}

/// How one cell update moves the three summed measures.
pub proof fn lemma_counts_update(cells: Seq<Cell>, j: int, c2: Cell)
    requires
        0 <= j < cells.len(),
    ensures
        sum_food(cells.update(j, c2)) == sum_food(cells) - food_of(cells[j]) + food_of(c2),
        count_live(cells.update(j, c2)) == count_live(cells) - live_of(cells[j]) + live_of(c2),
        count_carrying(cells.update(j, c2))
            == count_carrying(cells) - carry_of(cells[j]) + carry_of(c2),
{
    let u = cells.update(j, c2);
    assert(u.map_values(|c: Cell| food_of(c))
        =~= cells.map_values(|c: Cell| food_of(c)).update(j, food_of(c2)));
    crate::world::lemma_sum_update(cells.map_values(|c: Cell| food_of(c)), j, food_of(c2));
    assert(u.map_values(|c: Cell| live_of(c))
        =~= cells.map_values(|c: Cell| live_of(c)).update(j, live_of(c2)));
    crate::world::lemma_sum_update(cells.map_values(|c: Cell| live_of(c)), j, live_of(c2));
    assert(u.map_values(|c: Cell| carry_of(c))
        =~= cells.map_values(|c: Cell| carry_of(c)).update(j, carry_of(c2)));
    crate::world::lemma_sum_update(cells.map_values(|c: Cell| carry_of(c)), j, carry_of(c2));
}

/// The three summed measures are non-negative, and no more food is carried
/// than there are ants to carry it.
pub proof fn lemma_counts_nonneg(cells: Seq<Cell>)
    ensures
        sum_food(cells) >= 0,
        count_live(cells) >= 0,
        0 <= count_carrying(cells) <= count_live(cells),
    decreases cells.len(),
{
    crate::world::lemma_count_live_color_bound(cells, AntColor::Red);
    if cells.len() > 0 {
        lemma_counts_nonneg(cells.drop_last());
        assert(cells.drop_last().map_values(|c: Cell| food_of(c))
            =~= cells.map_values(|c: Cell| food_of(c)).drop_last());
        assert(cells.drop_last().map_values(|c: Cell| live_of(c))
            =~= cells.map_values(|c: Cell| live_of(c)).drop_last());
    }
}

/// One cell's contribution is bounded by the board-wide sums.
pub proof fn lemma_cell_bounds(cells: Seq<Cell>, j: int)
    requires
        0 <= j < cells.len(),
    ensures
        food_of(cells[j]) <= sum_food(cells),
        live_of(cells[j]) <= count_live(cells),
        carry_of(cells[j]) <= count_carrying(cells),
    decreases cells.len(),
{
    lemma_counts_nonneg(cells);
    if j == cells.len() - 1 {
        lemma_counts_nonneg(cells.drop_last());
        assert(cells.drop_last().map_values(|c: Cell| food_of(c))
            =~= cells.map_values(|c: Cell| food_of(c)).drop_last());
        assert(cells.drop_last().map_values(|c: Cell| live_of(c))
            =~= cells.map_values(|c: Cell| live_of(c)).drop_last());
        assert(cells.drop_last().map_values(|c: Cell| carry_of(c))
            =~= cells.map_values(|c: Cell| carry_of(c)).drop_last());
    } else {
        lemma_cell_bounds(cells.drop_last(), j);
        assert(cells.drop_last().map_values(|c: Cell| food_of(c))
            =~= cells.map_values(|c: Cell| food_of(c)).drop_last());
        assert(cells.drop_last().map_values(|c: Cell| live_of(c))
            =~= cells.map_values(|c: Cell| live_of(c)).drop_last());
        assert(cells.drop_last().map_values(|c: Cell| carry_of(c))
            =~= cells.map_values(|c: Cell| carry_of(c)).drop_last());
    }
}

/// Determinism: the state after any number of rounds is a function of
/// the starting state and the run constants alone, so two independent
/// runs from equal inputs reach identical worlds at every round.
pub proof fn lemma_replay_deterministic(ctx: SimCtx, s1: SimState, s2: SimState, k: nat)
    requires
        s1 == s2,
    ensures
        rounds_iter(ctx, s1, k) == rounds_iter(ctx, s2, k),
{
}

/// The invariant does not depend on the generator state.
pub proof fn lemma_inv_ignores_rng(ctx: SimCtx, s1: SimState, s2: SimState)
    requires
        inv(ctx, s1),
        s2.cells == s1.cells,
        s2.ants == s1.ants,
    ensures
        inv(ctx, s2),
{
    assert forall|i: int| 0 <= i < s2.ants.len() implies slot_ok(s2, i) by {
        assert(slot_ok(s1, i));
    }
    assert forall|j: int| 0 <= j < s2.cells.len() implies cell_ok(ctx, s2, j) by {
        assert(cell_ok(ctx, s1, j));
    }
}

/// Replacing one cell by a cell of the same terrain, the same ant identity
/// and the same food-plus-carried total preserves the whole invariant and
/// the gauge.
pub proof fn lemma_single_update(ctx: SimCtx, st: SimState, j: int, c2: Cell)
    requires
        inv(ctx, st),
        0 <= j < st.cells.len(),
        c2.is_rocky == st.cells[j].is_rocky,
        c2.anthill == st.cells[j].anthill,
        match (st.cells[j].ant, c2.ant) {
            (Some(a), Some(b)) => b.id == a.id && b.color == a.color && b.resting <= 14
                && b.state < ctx.prog(b.color).len(),
            (None, None) => true,
            _ => false,
        },
        food_of(c2) + carry_of(c2) == food_of(st.cells[j]) + carry_of(st.cells[j]),
    ensures
        inv(ctx, SimState { cells: st.cells.update(j, c2), ..st }),
        gauge(st.cells.update(j, c2)) == gauge(st.cells),
        same_terrain(st.cells, st.cells.update(j, c2)),
{
    let st2 = SimState { cells: st.cells.update(j, c2), ..st };
    lemma_counts_update(st.cells, j, c2);
    lemma_counts_nonneg(st.cells);
    assert forall|i: int| 0 <= i < st2.ants.len() implies slot_ok(st2, i) by {
        assert(slot_ok(st, i));
    }
    assert forall|k: int| 0 <= k < st2.cells.len() implies cell_ok(ctx, st2, k) by {
        assert(cell_ok(ctx, st, k));
    }
    if c2.is_rocky {
        assert(carry_of(c2) == 0 && carry_of(st.cells[j]) == 0);
        assert(c2.food == 0);
    }
}

/// A surround-kill check at any position preserves the invariant, the
/// gauge, the index length and the terrain.
pub proof fn lemma_kill_at_preserves(ctx: SimCtx, st: SimState, p: int)
    requires
        inv(ctx, st),
    ensures
        inv(ctx, kill_at(ctx, st, p)),
        gauge(kill_at(ctx, st, p).cells) == gauge(st.cells),
        kill_at(ctx, st, p).ants.len() == st.ants.len(),
        same_terrain(st.cells, kill_at(ctx, st, p).cells),
        kill_at(ctx, st, p).rng == st.rng,
{
    if 0 <= p < st.cells.len() && st.cells[p].ant is Some {
        let a = st.cells[p].ant.unwrap();
        if enemies_near(st.cells, ctx.width, p, a.color) >= 5 {
            let c2 = killed_cell(st.cells[p], a.has_food);
            let st2 = kill_at(ctx, st, p);
            assert(cell_ok(ctx, st, p));
            lemma_cell_bounds(st.cells, p);
            lemma_counts_nonneg(st.cells);
            assert(st.cells[p].food + 3 + (if a.has_food { 1int } else { 0int }) <= 0xFFFF);
            lemma_counts_update(st.cells, p, c2);
            assert(gauge(st2.cells) == gauge(st.cells));
            assert forall|i: int| 0 <= i < st2.ants.len() implies slot_ok(st2, i) by {
                assert(slot_ok(st, i));
                if i != a.id && st.ants[i] != usize::MAX {
                    assert(st.ants[i] as int != p);
                }
            }
            assert forall|k: int| 0 <= k < st2.cells.len() implies cell_ok(ctx, st2, k) by {
                assert(cell_ok(ctx, st, k));
                if k != p {
                    match st2.cells[k].ant {
                        Some(b) => {
                            assert(st.ants[b.id as int] == k);
                            assert(b.id != a.id);
                        },
                        None => {},
                    }
                }
            }
        }
    }
}

/// The whole kill pass preserves the invariant, the gauge, the index
/// length and the terrain.
pub proof fn lemma_kill_ring_preserves(ctx: SimCtx, st: SimState, t: int, k: int)
    requires
        inv(ctx, st),
        k >= 0,
    ensures
        inv(ctx, kill_ring(ctx, st, t, k)),
        gauge(kill_ring(ctx, st, t, k).cells) == gauge(st.cells),
        kill_ring(ctx, st, t, k).ants.len() == st.ants.len(),
        same_terrain(st.cells, kill_ring(ctx, st, t, k).cells),
        kill_ring(ctx, st, t, k).rng == st.rng,
    decreases k,
{
    if k <= 0 {
        lemma_kill_at_preserves(ctx, st, t);
    } else {
        lemma_kill_ring_preserves(ctx, st, t, k - 1);
        lemma_kill_at_preserves(
            ctx,
            kill_ring(ctx, st, t, k - 1),
            adjacent_spec(ctx.width, t, AntDirection::spec_from_index(k - 1)),
        );
    }
}

/// One executed instruction preserves the invariant, the gauge, the index
/// length and the terrain.
pub proof fn lemma_step_instr_preserves(ctx: SimCtx, st: SimState, pos: int, a: Ant, ins: Instruction)
    requires
        inv(ctx, st),
        0 <= pos < st.cells.len(),
        st.cells[pos].ant == Some(a),
        valid_instruction(ins, ctx.prog(a.color).len() as int),
    ensures
        inv(ctx, step_instr(ctx, st, pos, a, ins)),
        gauge(step_instr(ctx, st, pos, a, ins).cells) == gauge(st.cells),
        step_instr(ctx, st, pos, a, ins).ants.len() == st.ants.len(),
        same_terrain(st.cells, step_instr(ctx, st, pos, a, ins).cells),
{
    let c = st.cells[pos];
    assert(cell_ok(ctx, st, pos));
    match ins {
        Instruction::Sense(sd, st1, st2, cond) => {
            let sp = sensed_spec(ctx.width, pos, a.direction, sd);
            let holds = cond.spec_eval(st.cells[sp], a.color);
            let next = if holds {
                st1
            } else {
                st2
            };
            lemma_single_update(ctx, st, pos, Cell { ant: Some(Ant { state: next, ..a }), ..c });
        },
        Instruction::Mark(m, next) => {
            let marked = c.spec_with_markers(
                a.color,
                BitField8 { bits: bit_set(c.spec_markers(a.color).bits, m) },
            );
            lemma_single_update(ctx, st, pos, Cell { ant: Some(Ant { state: next, ..a }), ..marked });
        },
        Instruction::Unmark(m, next) => {
            let cleared = c.spec_with_markers(
                a.color,
                BitField8 { bits: bit_clear(c.spec_markers(a.color).bits, m) },
            );
            lemma_single_update(ctx, st, pos, Cell { ant: Some(Ant { state: next, ..a }), ..cleared });
        },
        Instruction::PickUp(st_ok, st_fail) => {
            if a.has_food || c.food == 0 {
                lemma_single_update(ctx, st, pos, Cell { ant: Some(Ant { state: st_fail, ..a }), ..c });
            } else {
                lemma_single_update(ctx, st, pos, Cell {
                    food: (c.food - 1) as u16,
                    ant: Some(Ant { has_food: true, state: st_ok, ..a }),
                    ..c
                });
            }
        },
        Instruction::Drop(next) => {
            if a.has_food {
                lemma_cell_bounds(st.cells, pos);
                lemma_counts_nonneg(st.cells);
                assert(c.food + 1 <= 0xFFFF);
                lemma_single_update(ctx, st, pos, Cell {
                    food: (c.food + 1) as u16,
                    ant: Some(Ant { has_food: false, state: next, ..a }),
                    ..c
                });
            } else {
                lemma_single_update(ctx, st, pos, Cell { ant: Some(Ant { state: next, ..a }), ..c });
            }
        },
        Instruction::Turn(t, next) => {
            lemma_single_update(ctx, st, pos, Cell {
                ant: Some(Ant { direction: a.direction.spec_turn(t), state: next, ..a }),
                ..c
            });
        },
        Instruction::Move(st_ok, st_fail) => {
            lemma_move_preserves(ctx, st, pos, a, st_ok, st_fail);
        },
        Instruction::Flip(n, st1, st2) => {
            let v = rng_out(st.rng) % n;
            let next = if v == 0 {
                st1
            } else {
                st2
            };
            lemma_single_update(ctx, st, pos, Cell { ant: Some(Ant { state: next, ..a }), ..c });
            let su = SimState { cells: set_ant(st.cells, pos, Ant { state: next, ..a }), ..st };
            let sf = step_instr(ctx, st, pos, a, ins);
            assert(sf.cells == su.cells && sf.ants == su.ants);
            lemma_inv_ignores_rng(ctx, su, sf);
        },
    }
}

/// A successful move's intermediate state (before the kill pass) satisfies
/// the invariant, keeps the gauge, the index length and the terrain.
pub proof fn lemma_move_intermediate_preserves(ctx: SimCtx, st: SimState, pos: int, a: Ant, st_ok: u32)
    requires
        inv(ctx, st),
        0 <= pos < st.cells.len(),
        st.cells[pos].ant == Some(a),
        st_ok < ctx.prog(a.color).len(),
        !st.cells[adjacent_spec(ctx.width, pos, a.direction)].is_rocky,
        st.cells[adjacent_spec(ctx.width, pos, a.direction)].ant is None,
    ensures
        inv(ctx, move_intermediate(ctx, st, pos, a, st_ok)),
        gauge(move_intermediate(ctx, st, pos, a, st_ok).cells) == gauge(st.cells),
        move_intermediate(ctx, st, pos, a, st_ok).ants.len() == st.ants.len(),
        same_terrain(st.cells, move_intermediate(ctx, st, pos, a, st_ok).cells),
        interior_at(ctx.width, ctx.height, adjacent_spec(ctx.width, pos, a.direction)),
{
    let c = st.cells[pos];
    assert(cell_ok(ctx, st, pos));
    let t = adjacent_spec(ctx.width, pos, a.direction);
    crate::world::lemma_adjacent_in_bounds(ctx.width, ctx.height, pos, a.direction);
    let tc = st.cells[t];
    // The target is off the perimeter, hence interior.
    crate::world::lemma_off_perimeter_interior(ctx.width, ctx.height, t);
    // The target differs from the source: one coordinate moved.
    let x = pos % ctx.width;
    let y = pos / ctx.width;
    let p2 = crate::world::adj_coords(x, y, a.direction);
    assert(p2.0 != x || p2.1 != y);
    assert(t != pos);
    assert(st.cells.len() <= 0xFFFF * 0xFFFF) by (nonlinear_arith)
        requires
            st.cells.len() == ctx.width * ctx.height,
            0 < ctx.width <= 0xFFFF,
            0 < ctx.height <= 0xFFFF;
    assert(0 <= t <= usize::MAX);
    assert((t as usize) as int == t);
    let moved = Ant { resting: 14u8, state: st_ok, ..a };
    let cells_a = st.cells.update(pos, Cell { ant: None, ..c });
    let cells_b = cells_a.update(t, Cell { ant: Some(moved), ..tc });
    let st1 = move_intermediate(ctx, st, pos, a, st_ok);
    assert(st1.cells == cells_b);
    lemma_counts_update(st.cells, pos, Cell { ant: None, ..c });
    assert(cells_a[t] == tc);
    lemma_counts_update(cells_a, t, Cell { ant: Some(moved), ..tc });
    assert(gauge(cells_b) == gauge(st.cells));
    assert forall|i: int| 0 <= i < st1.ants.len() implies slot_ok(st1, i) by {
        assert(slot_ok(st, i));
        if i == a.id {
            assert(st1.ants[i] == t as usize);
            assert(st1.cells[t].ant == Some(moved));
        } else if st.ants[i] != usize::MAX {
            let q = st.ants[i] as int;
            assert(st.cells[q].ant is Some);
            assert(q != pos);
            assert(q != t);
        }
    }
    assert forall|k: int| 0 <= k < st1.cells.len() implies cell_ok(ctx, st1, k) by {
        assert(cell_ok(ctx, st, k));
        assert(cell_ok(ctx, st, t));
        if k == t {
            assert(st1.cells[t].ant == Some(moved));
            assert(st1.ants[a.id as int] == t as usize);
        } else if k != pos {
            match st1.cells[k].ant {
                Some(b) => {
                    assert(st.cells[k].ant == Some(b));
                    assert(st.ants[b.id as int] == k);
                    assert(b.id != a.id);
                },
                None => {},
            }
        }
    }
    assert(inv(ctx, st1));
    assert(same_terrain(st.cells, cells_b));
}

/// A `Move`, successful or blocked, preserves the invariant, the gauge,
/// the index length and the terrain.
proof fn lemma_move_preserves(ctx: SimCtx, st: SimState, pos: int, a: Ant, st_ok: u32, st_fail: u32)
    requires
        inv(ctx, st),
        0 <= pos < st.cells.len(),
        st.cells[pos].ant == Some(a),
        st_ok < ctx.prog(a.color).len(),
        st_fail < ctx.prog(a.color).len(),
    ensures
        inv(ctx, step_instr(ctx, st, pos, a, Instruction::Move(st_ok, st_fail))),
        gauge(step_instr(ctx, st, pos, a, Instruction::Move(st_ok, st_fail)).cells)
            == gauge(st.cells),
        step_instr(ctx, st, pos, a, Instruction::Move(st_ok, st_fail)).ants.len()
            == st.ants.len(),
        same_terrain(st.cells, step_instr(ctx, st, pos, a, Instruction::Move(st_ok, st_fail)).cells),
{
    let c = st.cells[pos];
    assert(cell_ok(ctx, st, pos));
    let t = adjacent_spec(ctx.width, pos, a.direction);
    crate::world::lemma_adjacent_in_bounds(ctx.width, ctx.height, pos, a.direction);
    let tc = st.cells[t];
    if tc.is_rocky || tc.ant is Some {
        lemma_single_update(ctx, st, pos, Cell { ant: Some(Ant { state: st_fail, ..a }), ..c });
    } else {
        lemma_move_intermediate_preserves(ctx, st, pos, a, st_ok);
        lemma_kill_ring_preserves(ctx, move_intermediate(ctx, st, pos, a, st_ok), t, 6);
    }
}

/// One slot's turn preserves the invariant, the gauge, the index length
/// and the terrain.
pub proof fn lemma_step_slot_preserves(ctx: SimCtx, st: SimState, i: int)
    requires
        inv(ctx, st),
    ensures
        inv(ctx, step_slot(ctx, st, i)),
        gauge(step_slot(ctx, st, i).cells) == gauge(st.cells),
        step_slot(ctx, st, i).ants.len() == st.ants.len(),
        same_terrain(st.cells, step_slot(ctx, st, i).cells),
{
    if 0 <= i < st.ants.len() && st.ants[i] != usize::MAX {
        assert(slot_ok(st, i));
        let p = st.ants[i] as int;
        match st.cells[p].ant {
            None => {},
            Some(a) => {
                assert(cell_ok(ctx, st, p));
                if a.resting > 0 {
                    lemma_single_update(ctx, st, p, Cell {
                        ant: Some(Ant { resting: (a.resting - 1) as u8, ..a }),
                        ..st.cells[p]
                    });
                } else {
                    let prog = ctx.prog(a.color);
                    if a.state < prog.len() {
                        assert(valid_instruction(prog[a.state as int], prog.len() as int));
                        lemma_step_instr_preserves(ctx, st, p, a, prog[a.state as int]);
                    }
                }
            },
        }
    }
}

/// Any number of slots acting in turn preserves the invariant, the gauge,
/// the index length and the terrain.
pub proof fn lemma_run_upto_preserves(ctx: SimCtx, st: SimState, i: int)
    requires
        inv(ctx, st),
    ensures
        inv(ctx, run_upto(ctx, st, i)),
        gauge(run_upto(ctx, st, i).cells) == gauge(st.cells),
        run_upto(ctx, st, i).ants.len() == st.ants.len(),
        same_terrain(st.cells, run_upto(ctx, st, i).cells),
    decreases i,
{
    if i > 0 {
        lemma_run_upto_preserves(ctx, st, i - 1);
        lemma_step_slot_preserves(ctx, run_upto(ctx, st, i - 1), i - 1);
    }
}

/// A whole round preserves the invariant, the index length and the
/// terrain, and obeys the conservation law: the food lying on the board
/// plus the food carried grows by exactly three per ant that died, and in
/// no other way.
pub proof fn lemma_round_preserves(ctx: SimCtx, st: SimState)
    ensures
        inv(ctx, st) ==> inv(ctx, round_spec(ctx, st)),
        inv(ctx, st) ==> round_spec(ctx, st).ants.len() == st.ants.len(),
        inv(ctx, st) ==> same_terrain(st.cells, round_spec(ctx, st).cells),
        inv(ctx, st) ==> gauge(round_spec(ctx, st).cells) == gauge(st.cells),
        inv(ctx, st) ==> sum_food(round_spec(ctx, st).cells) + count_carrying(round_spec(ctx, st).cells)
            == sum_food(st.cells) + count_carrying(st.cells)
                + 3 * (count_live(st.cells) - count_live(round_spec(ctx, st).cells)),
{
    if inv(ctx, st) {
        lemma_run_upto_preserves(ctx, st, st.ants.len() as int);
    }
}

/// Any number of whole rounds preserves the invariant and the gauge: the
/// conservation law holds over a whole run, not just one round.
pub proof fn lemma_rounds_iter_preserves(ctx: SimCtx, st: SimState, k: nat)
    requires
        inv(ctx, st),
    ensures
        inv(ctx, rounds_iter(ctx, st, k)),
        gauge(rounds_iter(ctx, st, k).cells) == gauge(st.cells),
        rounds_iter(ctx, st, k).ants.len() == st.ants.len(),
        same_terrain(st.cells, rounds_iter(ctx, st, k).cells),
    decreases k,
{
    if k > 0 {
        lemma_rounds_iter_preserves(ctx, st, (k - 1) as nat);
        lemma_round_preserves(ctx, rounds_iter(ctx, st, (k - 1) as nat));
    }
}

/// A live entry of the ant-position index always points at a cell holding
/// an ant whose id is the entry's slot: the index and the board agree.
pub proof fn lemma_index_consistency(ctx: SimCtx, st: SimState, i: int)
    requires
        inv(ctx, st),
        0 <= i < st.ants.len(),
        st.ants[i] != usize::MAX,
    ensures
        st.ants[i] < st.cells.len(),
        st.cells[st.ants[i] as int].ant is Some,
        st.cells[st.ants[i] as int].ant.unwrap().id == i,
{
    assert(slot_ok(st, i));
}

/// A resting ant executes nothing on its turn: the round only counts its
/// resting field down by exactly one and touches nothing else.
pub proof fn lemma_resting_ant_rests(ctx: SimCtx, st: SimState, i: int)
    requires
        inv(ctx, st),
        0 <= i < st.ants.len(),
        st.ants[i] != usize::MAX,
        st.cells[st.ants[i] as int].ant.unwrap().resting > 0,
    ensures
        ({
            let p = st.ants[i] as int;
            let a = st.cells[p].ant.unwrap();
            step_slot(ctx, st, i) == SimState {
                cells: set_ant(st.cells, p, Ant { resting: (a.resting - 1) as u8, ..a }),
                ..st
            }
        }),
{
    assert(slot_ok(st, i));
}

/// Only a successful `Move` sets a resting counter: every other
/// instruction leaves every ant's resting field as it was.
pub proof fn lemma_only_move_sets_resting(ctx: SimCtx, st: SimState, pos: int, a: Ant, ins: Instruction)
    requires
        0 <= pos < st.cells.len(),
        st.cells[pos].ant == Some(a),
        !(ins is Move),
    ensures
        forall|j: int| 0 <= j < st.cells.len()
            ==> match (#[trigger] step_instr(ctx, st, pos, a, ins).cells[j].ant, st.cells[j].ant) {
                (Some(b), Some(a0)) => b.resting == a0.resting,
                (Some(_), None) => false,
                _ => true,
            },
{
}

/// Marking a bit that was clear and then unmarking it returns the cell's
/// two marker sets to exactly what they were.
pub proof fn lemma_mark_unmark_roundtrip(
    ctx: SimCtx,
    st: SimState,
    pos: int,
    a: Ant,
    m: u8,
    s1: u32,
    s2: u32,
)
    requires
        0 <= pos < st.cells.len(),
        st.cells[pos].ant == Some(a),
        m < 6,
        !crate::util::bit_test(st.cells[pos].spec_markers(a.color).bits, m),
    ensures
        ({
            let st1 = step_instr(ctx, st, pos, a, Instruction::Mark(m, s1));
            let a1 = Ant { state: s1, ..a };
            let st2 = step_instr(ctx, st1, pos, a1, Instruction::Unmark(m, s2));
            st2.cells[pos].markers_red == st.cells[pos].markers_red
                && st2.cells[pos].markers_black == st.cells[pos].markers_black
        }),
{
    crate::util::lemma_set_then_clear(st.cells[pos].spec_markers(a.color).bits, m);
}

/// A successful `PickUp` followed by a `Drop` restores the food on every
/// cell of the board and leaves the ant carrying nothing.
pub proof fn lemma_pickup_drop_roundtrip(
    ctx: SimCtx,
    st: SimState,
    pos: int,
    a: Ant,
    s_ok: u32,
    s_fail: u32,
    s2: u32,
)
    requires
        0 <= pos < st.cells.len(),
        st.cells[pos].ant == Some(a),
        !a.has_food,
        st.cells[pos].food > 0,
    ensures
        ({
            let st1 = step_instr(ctx, st, pos, a, Instruction::PickUp(s_ok, s_fail));
            let a1 = Ant { has_food: true, state: s_ok, ..a };
            let st2 = step_instr(ctx, st1, pos, a1, Instruction::Drop(s2));
            &&& forall|j: int| 0 <= j < st.cells.len()
                ==> (#[trigger] st2.cells[j]).food == st.cells[j].food
            &&& st2.cells[pos].ant matches Some(b) && !b.has_food && b.state == s2
        }),
{
}

/// No two live entries of the ant-position index share a position: the
/// uniqueness half of the index invariant, a consequence of ids.
pub proof fn lemma_live_positions_unique(ctx: SimCtx, st: SimState, i: int, j: int)
    requires
        inv(ctx, st),
        0 <= i < st.ants.len(),
        0 <= j < st.ants.len(),
        st.ants[i] != usize::MAX,
        st.ants[i] == st.ants[j],
    ensures
        i == j,
{
    assert(slot_ok(st, i));
    assert(slot_ok(st, j));
}

} // verus!
