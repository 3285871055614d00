//! The round engine: it owns the world, schedules every ant once per
//! round, dispatches instructions, maintains the ant-position index, and
//! snapshots outcomes.  Every operation is verified to compute exactly the
//! functional model in `model`, so runs with equal inputs are identical.

use vstd::prelude::*;
use crate::ant::{Ant, AntColor, AntDirection};
use crate::instruction::{Instruction, SenseDir, valid_program, valid_instruction};
use crate::model::{
    inv, kill_at, kill_ring, move_intermediate, round_spec, rounds_iter, run_upto, sensed_spec,
    step_instr, step_slot, SimCtx, SimState,
    lemma_cell_bounds, lemma_counts_nonneg, lemma_kill_at_preserves,
    lemma_kill_ring_preserves, lemma_move_intermediate_preserves, lemma_run_upto_preserves,
};
use crate::util::{rng_step_n, Rng};
use crate::world::{
    count_live, count_live_color, hill_positions, hill_positions_color,
    lemma_adjacent_in_bounds, lemma_hill_color_nonempty, lemma_hill_contains,
    lemma_hill_positions_congruence, lemma_hill_positions_len, lemma_hill_positions_props,
    lemma_off_perimeter_interior, lemma_sum_zero, sum_food, sum_food_at, Cell, World,
    hill_of, live_of, carry_of, food_of,
};

verus! {

/// An immutable per-round snapshot of the aggregates external consumers
/// read: each colony's score (food on its own anthills), each colony's
/// live ants, the food still on the board, and the round it was taken at.
#[derive(Clone, Copy, Debug, Default, PartialEq, Eq, Structural)]
pub struct Outcome {
    /// Food lying on red anthill cells.
    pub red_score: u16,
    /// Live red ants.
    pub red_alive: u16,
    /// Food lying on black anthill cells.
    pub black_score: u16,
    /// Live black ants.
    pub black_alive: u16,
    /// Food lying anywhere on the board.
    pub food_left: u16,
    /// The round the snapshot was taken at.
    pub round: u32,
}

/// The simulator: the world it owns, the two programs, the ant-position
/// index, the generator, and the round counters.
pub struct Simulator {
    /// The board.
    pub world: World,
    /// The red colony's program.
    pub red_instructions: Vec<Instruction>,
    /// The black colony's program.
    pub black_instructions: Vec<Instruction>,
    /// The ant-position index: the cell index of each ant, in id order;
    /// `usize::MAX` marks a dead ant.
    pub ants: Vec<usize>,
    /// The generator resolving `Flip`.
    pub rng: Rng,
    /// Rounds advanced so far.
    pub round: u32,
    /// The round cap.
    pub max_rounds: u32,
}

impl Simulator {
    /// The per-run constants, as the model sees them.
    pub open spec fn ctx(self) -> SimCtx {
        SimCtx {
            red: self.red_instructions@,
            black: self.black_instructions@,
            width: self.world.width as int,
            height: self.world.height as int,
        }
    }

    /// The mutable state, as the model sees it.
    pub open spec fn st(self) -> SimState {
        SimState { cells: self.world.cells@, ants: self.ants@, rng: self.rng.state }
    }

    /// Well-formedness: the simulation invariant holds of the state, the
    /// anthill registers are accurate, and the round has not passed the cap.
    pub open spec fn wf(self) -> bool {
        &&& inv(self.ctx(), self.st())
        &&& self.world.wf()
        &&& self.world.hills_registered()
        &&& self.round <= self.max_rounds
    }

    /// The parts of a simulator that no round ever changes.
    pub open spec fn same_config(self, other: Simulator) -> bool {
        &&& other.red_instructions@ == self.red_instructions@
        &&& other.black_instructions@ == self.black_instructions@
        &&& other.world.width == self.world.width
        &&& other.world.height == self.world.height
        &&& other.world.red_anthill@ == self.world.red_anthill@
        &&& other.world.black_anthill@ == self.world.black_anthill@
        &&& other.max_rounds == self.max_rounds
    }

    /// Whether `o` is the correct snapshot of this simulator's state.
    pub open spec fn outcome_matches(self, o: Outcome) -> bool {
        &&& o.red_score as int == sum_food_at(self.world.cells@, self.world.red_anthill@)
        &&& o.black_score as int == sum_food_at(self.world.cells@, self.world.black_anthill@)
        &&& o.red_alive as int == count_live_color(self.world.cells@, AntColor::Red)
        &&& o.black_alive as int == count_live_color(self.world.cells@, AntColor::Black)
        &&& o.food_left as int == sum_food(self.world.cells@)
        &&& o.round == self.round
    }

    /// Build a simulator: take ownership of the world, populate its
    /// anthills, capture the two programs, and start at round zero with
    /// the generator seeded by `seed`.
    pub fn new(
        world: World,
        red_instructions: Vec<Instruction>,
        black_instructions: Vec<Instruction>,
        max_rounds: u32,
        seed: u32,
    ) -> (r: Simulator)
        requires
            world.unpopulated(),
            world.perimeter_rocky(),
            world.width >= 1,
            world.height >= 1,
            valid_program(red_instructions@),
            valid_program(black_instructions@),
            hill_positions_color(world.cells@, AntColor::Red).len() > 0
                ==> red_instructions@.len() > 0,
            hill_positions_color(world.cells@, AntColor::Black).len() > 0
                ==> black_instructions@.len() > 0,
            sum_food(world.cells@) + 3 * hill_positions(world.cells@).len() <= 0xFFFF,
        ensures
            r.wf(),
            r.round == 0,
            r.max_rounds == max_rounds,
            r.red_instructions@ == red_instructions@,
            r.black_instructions@ == black_instructions@,
            r.world.width == world.width,
            r.world.height == world.height,
            r.world.cells@.len() == world.cells@.len(),
            forall|i: int| 0 <= i < world.cells@.len()
                ==> r.world.cells@[i] == World::populated_cell(world.cells@, i),
            r.ants@ == hill_positions(world.cells@),
            r.world.red_anthill@ == hill_positions_color(world.cells@, AntColor::Red),
            r.world.black_anthill@ == hill_positions_color(world.cells@, AntColor::Black),
            r.rng.state == rng_step_n(seed, 4),
    {
        let ghost cells0 = world.cells@;
        let mut world = world;
        let n0 = world.cells.len();
        proof {
            assert(cells0.len() == n0);
        }
        let ants = world.populate();
        let r = Simulator {
            world,
            red_instructions,
            black_instructions,
            ants,
            rng: Rng::new(seed),
            round: 0,
            max_rounds,
        };
        proof {
            let ctx = r.ctx();
            let st = r.st();
            let hills = hill_positions(cells0);
            lemma_hill_positions_props(cells0);
            lemma_counts_nonneg(cells0);

            // Slot direction: entry i is the i-th anthill position, and the
            // ant placed there carries id i.
            assert forall|i: int| 0 <= i < st.ants.len() implies crate::model::slot_ok(st, i) by {
                let p = hills[i];
                assert(st.ants[i] == p);
                assert(st.cells[p as int] == World::populated_cell(cells0, p as int));
                assert(p < cells0.len() && st.cells.len() == cells0.len());
                assert(st.ants[i] != usize::MAX);
            }

            // Cell direction: every placed ant is registered at its id and
            // stands interior on open ground.
            assert forall|j: int| 0 <= j < st.cells.len() implies crate::model::cell_ok(ctx, st, j) by {
                assert(st.cells[j] == World::populated_cell(cells0, j));
                match cells0[j].anthill {
                    Some(color) => {
                        lemma_hill_contains(cells0, j);
                        assert(!cells0[j].is_rocky);
                        assert(!crate::world::perimeter_at(ctx.width, ctx.height, j));
                        lemma_off_perimeter_interior(ctx.width, ctx.height, j);
                        lemma_hill_color_nonempty(cells0, j, color);
                    },
                    None => {},
                }
            }

            // Terrain clauses carry over unchanged.
            assert forall|j: int| 0 <= j < st.cells.len()
                && crate::world::perimeter_at(ctx.width, ctx.height, j)
                implies (#[trigger] st.cells[j]).is_rocky by {
                assert(st.cells[j] == World::populated_cell(cells0, j));
                assert(cells0[j].is_rocky);
            }
            assert forall|j: int| 0 <= j < st.cells.len() && (#[trigger] st.cells[j]).is_rocky
                implies st.cells[j].food == 0 && st.cells[j].ant is None by {
                assert(st.cells[j] == World::populated_cell(cells0, j));
            }

            // The gauge starts at the initial food plus three per ant.
            assert(st.cells.map_values(|c: Cell| food_of(c))
                =~= cells0.map_values(|c: Cell| food_of(c)));
            assert(st.cells.map_values(|c: Cell| live_of(c))
                =~= cells0.map_values(|c: Cell| hill_of(c)));
            lemma_hill_positions_len(cells0);
            let zc = st.cells.map_values(|c: Cell| carry_of(c));
            assert(forall|j: int| 0 <= j < zc.len() ==> #[trigger] zc[j] == 0);
            lemma_sum_zero(zc);
            assert(count_live(st.cells) == hills.len());
            assert(st.ants.len() <= 0xFFFF);

            // The anthill registers match the populated cells.
            lemma_hill_positions_congruence(cells0, st.cells);
            assert(inv(ctx, st));
        }
        r
    }

    /// Consume this simulator and build a fresh one with the same programs
    /// and the same round cap, but a new world and seed: the deterministic
    /// replay entry point.
    pub fn reset(self, world: World, seed: u32) -> (r: Simulator)
        requires
            world.unpopulated(),
            world.perimeter_rocky(),
            world.width >= 1,
            world.height >= 1,
            valid_program(self.red_instructions@),
            valid_program(self.black_instructions@),
            hill_positions_color(world.cells@, AntColor::Red).len() > 0
                ==> self.red_instructions@.len() > 0,
            hill_positions_color(world.cells@, AntColor::Black).len() > 0
                ==> self.black_instructions@.len() > 0,
            sum_food(world.cells@) + 3 * hill_positions(world.cells@).len() <= 0xFFFF,
        ensures
            r.wf(),
            r.round == 0,
            r.max_rounds == self.max_rounds,
            r.red_instructions@ == self.red_instructions@,
            r.black_instructions@ == self.black_instructions@,
            r.world.cells@.len() == world.cells@.len(),
            forall|i: int| 0 <= i < world.cells@.len()
                ==> r.world.cells@[i] == World::populated_cell(world.cells@, i),
            r.ants@ == hill_positions(world.cells@),
            r.rng.state == rng_step_n(seed, 4),
    {
        Simulator::new(
            world,
            self.red_instructions,
            self.black_instructions,
            self.max_rounds,
            seed,
        )
    }

    /// Check one cell for a surrounded ant and kill it if it has five or
    /// more enemies among its six neighbors.
    fn kill_surrounded_ant(&mut self, position: usize)
        requires
            inv(old(self).ctx(), old(self).st()),
            position < old(self).world.cells@.len(),
        ensures
            final(self).st() == kill_at(old(self).ctx(), old(self).st(), position as int),
            inv(final(self).ctx(), final(self).st()),
            final(self).ctx() == old(self).ctx(),
            final(self).same_config(*old(self)),
            final(self).round == old(self).round,
            final(self).world.cells@.len() == old(self).world.cells@.len(),
    {
        let ghost ctx = self.ctx();
        let ghost st0 = self.st();
        let ant_here = self.world.cells[position].ant;
        match ant_here {
            None => {
                proof {
                    lemma_kill_at_preserves(ctx, st0, position as int);
                }
            },
            Some(x) => {
                proof {
                    assert(crate::model::cell_ok(ctx, st0, position as int));
                }
                let enemies = self.world.adjacent_enemies(position, x.color);
                if enemies >= 5 {
                    let mut cell = self.world.cells[position];
                    cell.ant = None;
                    proof {
                        lemma_cell_bounds(st0.cells, position as int);
                        lemma_counts_nonneg(st0.cells);
                    }
                    let bonus: u16 = if x.has_food {
                        4
                    } else {
                        3
                    };
                    cell.food = cell.food + bonus;
                    self.world.cells.set(position, cell);
                    self.ants.set(x.id, usize::MAX);
                    proof {
                        let target = kill_at(ctx, st0, position as int);
                        assert(self.st().cells =~= target.cells);
                        assert(self.st().ants =~= target.ants);
                        assert(self.st() == target);
                        lemma_kill_at_preserves(ctx, st0, position as int);
                    }
                } else {
                    proof {
                        lemma_kill_at_preserves(ctx, st0, position as int);
                    }
                }
            },
        }
    }

    /// After a successful move into `position`, check it and each of its
    /// six neighbors for surrounded ants, in the canonical direction order.
    fn kill_surrounded_ants(&mut self, position: usize)
        requires
            inv(old(self).ctx(), old(self).st()),
            crate::world::interior_at(
                old(self).ctx().width,
                old(self).ctx().height,
                position as int,
            ),
        ensures
            final(self).st() == kill_ring(old(self).ctx(), old(self).st(), position as int, 6),
            inv(final(self).ctx(), final(self).st()),
            final(self).ctx() == old(self).ctx(),
            final(self).same_config(*old(self)),
            final(self).round == old(self).round,
    {
        let ghost ctx = self.ctx();
        let ghost st0 = self.st();
        proof {
            assert(position < st0.cells.len());
        }
        self.kill_surrounded_ant(position);
        let dirs = AntDirection::all();
        let mut k: usize = 0;
        while k < 6
            invariant
                k <= 6,
                dirs@.len() == 6,
                forall|j: int| 0 <= j < 6 ==> dirs@[j] == AntDirection::spec_from_index(j),
                self.ctx() == ctx,
                self.same_config(*old(self)),
                self.round == old(self).round,
                inv(ctx, st0),
                inv(ctx, self.st()),
                crate::world::interior_at(ctx.width, ctx.height, position as int),
                position < self.world.cells@.len(),
                self.st() == kill_ring(ctx, st0, position as int, k as int),
            decreases 6 - k,
        {
            proof {
                lemma_adjacent_in_bounds(ctx.width, ctx.height, position as int, dirs@[k as int]);
                lemma_kill_ring_preserves(ctx, st0, position as int, k as int);
            }
            let adj = World::adjacent_position(self.world.width, position, dirs[k]);
            self.kill_surrounded_ant(adj);
            k = k + 1;
        }
    }

    /// Execute one instruction for the ant `a` standing at `ant_pos`,
    /// mutating the board, the index and the generator exactly as the
    /// model's `step_instr` describes.
    fn run_instruction(&mut self, ant_pos: usize, a: Ant, instruction: Instruction)
        requires
            inv(old(self).ctx(), old(self).st()),
            ant_pos < old(self).world.cells@.len(),
            old(self).world.cells@[ant_pos as int].ant == Some(a),
            valid_instruction(
                instruction,
                old(self).ctx().prog(a.color).len() as int,
            ),
        ensures
            final(self).st() == step_instr(
                old(self).ctx(),
                old(self).st(),
                ant_pos as int,
                a,
                instruction,
            ),
            final(self).ctx() == old(self).ctx(),
            final(self).same_config(*old(self)),
            final(self).round == old(self).round,
    {
        let ghost ctx = self.ctx();
        let ghost st0 = self.st();
        proof {
            assert(crate::model::cell_ok(ctx, st0, ant_pos as int));
        }
        let width = self.world.width;
        match instruction {
            Instruction::Sense(sense_dir, st1, st2, cond) => {
                proof {
                    lemma_adjacent_in_bounds(ctx.width, ctx.height, ant_pos as int, a.direction);
                    lemma_adjacent_in_bounds(
                        ctx.width, ctx.height, ant_pos as int, a.direction.spec_turn_left());
                    lemma_adjacent_in_bounds(
                        ctx.width, ctx.height, ant_pos as int, a.direction.spec_turn_right());
                }
                let sp = sensed_position(width, ant_pos, a.direction, sense_dir);
                let holds = cond.eval(&self.world.cells[sp], a.color);
                let next = if holds {
                    st1
                } else {
                    st2
                };
                let mut cell = self.world.cells[ant_pos];
                cell.ant = Some(Ant { state: next, ..a });
                self.world.cells.set(ant_pos, cell);
                proof {
                    let target = step_instr(ctx, st0, ant_pos as int, a, instruction);
                    assert(self.st().cells =~= target.cells);
                    assert(self.st() == target);
                }
            },
            Instruction::Mark(mark, next) => {
                let mut cell = self.world.cells[ant_pos];
                cell.markers_mut(a.color).set_bit(mark);
                cell.ant = Some(Ant { state: next, ..a });
                self.world.cells.set(ant_pos, cell);
                proof {
                    let target = step_instr(ctx, st0, ant_pos as int, a, instruction);
                    assert(self.st().cells =~= target.cells);
                    assert(self.st() == target);
                }
            },
            Instruction::Unmark(mark, next) => {
                let mut cell = self.world.cells[ant_pos];
                cell.markers_mut(a.color).clear(mark);
                cell.ant = Some(Ant { state: next, ..a });
                self.world.cells.set(ant_pos, cell);
                proof {
                    let target = step_instr(ctx, st0, ant_pos as int, a, instruction);
                    assert(self.st().cells =~= target.cells);
                    assert(self.st() == target);
                }
            },
            Instruction::PickUp(success_state, failure_state) => {
                let mut cell = self.world.cells[ant_pos];
                if a.has_food || cell.food == 0 {
                    cell.ant = Some(Ant { state: failure_state, ..a });
                } else {
                    cell.food = cell.food - 1;
                    cell.ant = Some(Ant { has_food: true, state: success_state, ..a });
                }
                self.world.cells.set(ant_pos, cell);
                proof {
                    let target = step_instr(ctx, st0, ant_pos as int, a, instruction);
                    assert(self.st().cells =~= target.cells);
                    assert(self.st() == target);
                }
            },
            Instruction::Drop(next) => {
                let mut cell = self.world.cells[ant_pos];
                if a.has_food {
                    proof {
                        lemma_cell_bounds(st0.cells, ant_pos as int);
                        lemma_counts_nonneg(st0.cells);
                    }
                    cell.food = cell.food + 1;
                    cell.ant = Some(Ant { has_food: false, state: next, ..a });
                } else {
                    cell.ant = Some(Ant { state: next, ..a });
                }
                self.world.cells.set(ant_pos, cell);
                proof {
                    let target = step_instr(ctx, st0, ant_pos as int, a, instruction);
                    assert(self.st().cells =~= target.cells);
                    assert(self.st() == target);
                }
            },
            Instruction::Turn(turn_direction, next) => {
                let mut cell = self.world.cells[ant_pos];
                cell.ant = Some(Ant {
                    direction: a.direction.turn(turn_direction),
                    state: next,
                    ..a
                });
                self.world.cells.set(ant_pos, cell);
                proof {
                    let target = step_instr(ctx, st0, ant_pos as int, a, instruction);
                    assert(self.st().cells =~= target.cells);
                    assert(self.st() == target);
                }
            },
            Instruction::Move(success_state, failure_state) => {
                proof {
                    lemma_adjacent_in_bounds(ctx.width, ctx.height, ant_pos as int, a.direction);
                }
                let target_pos = World::adjacent_position(width, ant_pos, a.direction);
                let target_cell = self.world.cells[target_pos];
                if target_cell.is_rocky || target_cell.ant.is_some() {
                    let mut cell = self.world.cells[ant_pos];
                    cell.ant = Some(Ant { state: failure_state, ..a });
                    self.world.cells.set(ant_pos, cell);
                    proof {
                        let target = step_instr(ctx, st0, ant_pos as int, a, instruction);
                        assert(self.st().cells =~= target.cells);
                        assert(self.st() == target);
                    }
                } else {
                    proof {
                        lemma_move_intermediate_preserves(
                            ctx, st0, ant_pos as int, a, success_state);
                    }
                    let mut source = self.world.cells[ant_pos];
                    source.ant = None;
                    self.world.cells.set(ant_pos, source);
                    let mut tcell = target_cell;
                    tcell.ant = Some(Ant { resting: 14, state: success_state, ..a });
                    self.world.cells.set(target_pos, tcell);
                    self.ants.set(a.id, target_pos);
                    proof {
                        let mid = move_intermediate(ctx, st0, ant_pos as int, a, success_state);
                        assert(self.st().cells =~= mid.cells);
                        assert(self.st().ants =~= mid.ants);
                        assert(self.st() == mid);
                    }
                    self.kill_surrounded_ants(target_pos);
                    proof {
                        let target = step_instr(ctx, st0, ant_pos as int, a, instruction);
                        assert(self.st() == target);
                    }
                }
            },
            Instruction::Flip(n, st1, st2) => {
                let random = self.rng.random_int(n);
                let next = if random == 0 {
                    st1
                } else {
                    st2
                };
                let mut cell = self.world.cells[ant_pos];
                cell.ant = Some(Ant { state: next, ..a });
                self.world.cells.set(ant_pos, cell);
                proof {
                    let target = step_instr(ctx, st0, ant_pos as int, a, instruction);
                    assert(self.st().cells =~= target.cells);
                    assert(self.st() == target);
                }
            },
        }
    }

    /// Advance exactly one round if the cap has not been reached, else do
    /// nothing.  One round visits every slot of the ant-position index in
    /// stored order: dead slots are skipped, resting ants count down one,
    /// and every other ant executes the one instruction its state selects.
    pub fn one_round(&mut self)
        requires
            old(self).wf(),
        ensures
            final(self).wf(),
            final(self).ctx() == old(self).ctx(),
            final(self).same_config(*old(self)),
            old(self).round >= old(self).max_rounds ==> *final(self) == *old(self),
            old(self).round < old(self).max_rounds ==> {
                &&& final(self).round == old(self).round + 1
                &&& final(self).st() == round_spec(old(self).ctx(), old(self).st())
            },
    {
        if self.round >= self.max_rounds {
            return;
        }
        self.round = self.round + 1;
        let ghost ctx = self.ctx();
        let ghost st0 = self.st();
        let n = self.ants.len();
        let mut i: usize = 0;
        while i < n
            invariant
                n == st0.ants.len(),
                i <= n,
                inv(ctx, st0),
                self.ctx() == ctx,
                self.same_config(*old(self)),
                self.round == old(self).round + 1,
                self.round <= self.max_rounds,
                self.st() == run_upto(ctx, st0, i as int),
                self.ants@.len() == n,
            decreases n - i,
        {
            proof {
                lemma_run_upto_preserves(ctx, st0, i as int);
            }
            let ghost cur = run_upto(ctx, st0, i as int);
            let ant_position = self.ants[i];
            if ant_position != usize::MAX {
                proof {
                    assert(crate::model::slot_ok(cur, i as int));
                }
                let ant_here = self.world.cells[ant_position].ant;
                match ant_here {
                    None => {},
                    Some(ant) => {
                        proof {
                            assert(crate::model::cell_ok(ctx, cur, ant_position as int));
                        }
                        if ant.resting > 0 {
                            let mut cell = self.world.cells[ant_position];
                            cell.ant = Some(Ant { resting: ant.resting - 1, ..ant });
                            self.world.cells.set(ant_position, cell);
                            proof {
                                let target = step_slot(ctx, cur, i as int);
                                assert(self.st().cells =~= target.cells);
                                assert(self.st() == target);
                            }
                        } else {
                            let prog_len = match ant.color {
                                AntColor::Red => self.red_instructions.len(),
                                AntColor::Black => self.black_instructions.len(),
                            };
                            if (ant.state as usize) < prog_len {
                                let ins = self.get_instruction(ant.state, ant.color);
                                proof {
                                    assert(valid_instruction(
                                        ins,
                                        ctx.prog(ant.color).len() as int,
                                    ));
                                }
                                self.run_instruction(ant_position, ant, ins);
                                proof {
                                    assert(self.st() == step_slot(ctx, cur, i as int));
                                }
                            }
                        }
                    },
                }
            }
            proof {
                assert(self.st() == run_upto(ctx, st0, i as int + 1));
                lemma_run_upto_preserves(ctx, st0, i as int + 1);
            }
            i = i + 1;
        }
        proof {
            assert(self.st() == round_spec(ctx, st0));
            lemma_run_upto_preserves(ctx, st0, n as int);
            lemma_hill_positions_congruence(st0.cells, self.st().cells);
        }
    }

    /// Advance up to `rounds` rounds, stopping at the cap.
    pub fn run_rounds(&mut self, rounds: u32)
        requires
            old(self).wf(),
        ensures
            final(self).wf(),
            final(self).ctx() == old(self).ctx(),
            final(self).same_config(*old(self)),
            final(self).round as int == if old(self).round + rounds <= old(self).max_rounds {
                old(self).round + rounds
            } else {
                old(self).max_rounds as int
            },
            final(self).st() == rounds_iter(
                old(self).ctx(),
                old(self).st(),
                (final(self).round - old(self).round) as nat,
            ),
    {
        if self.round >= self.max_rounds {
            return;
        }
        let ghost ctx = self.ctx();
        let ghost st0 = self.st();
        let ghost r0 = self.round;
        let mut j: u32 = 0;
        while j < rounds
            invariant
                j <= rounds,
                self.wf(),
                self.ctx() == ctx,
                self.same_config(*old(self)),
                self.round as int == if r0 + j <= self.max_rounds {
                    r0 + j
                } else {
                    self.max_rounds as int
                },
                self.st() == rounds_iter(ctx, st0, (self.round - r0) as nat),
                r0 == old(self).round,
                r0 <= self.round,
            decreases rounds - j,
        {
            self.one_round();
            j = j + 1;
        }
    }

    /// Advance to the round cap and return the final outcome.
    pub fn run(&mut self) -> (r: Outcome)
        requires
            old(self).wf(),
        ensures
            final(self).wf(),
            final(self).ctx() == old(self).ctx(),
            final(self).same_config(*old(self)),
            final(self).round == old(self).max_rounds,
            final(self).st() == rounds_iter(
                old(self).ctx(),
                old(self).st(),
                (old(self).max_rounds - old(self).round) as nat,
            ),
            final(self).outcome_matches(r),
    {
        let ghost ctx = self.ctx();
        let ghost st0 = self.st();
        let ghost r0 = self.round;
        while self.round < self.max_rounds
            invariant
                self.wf(),
                self.ctx() == ctx,
                self.same_config(*old(self)),
                r0 == old(self).round,
                r0 <= self.round,
                self.st() == rounds_iter(ctx, st0, (self.round - r0) as nat),
            decreases self.max_rounds - self.round,
        {
            self.one_round();
        }
        self.partial_outcome()
    }

    /// Snapshot the aggregates at the current round.
    pub fn partial_outcome(&self) -> (r: Outcome)
        requires
            self.wf(),
        ensures
            self.outcome_matches(r),
    {
        let n = self.world.cells.len();
        proof {
            lemma_counts_nonneg(self.world.cells@);
            assert(sum_food(self.world.cells@) <= 0xFFFF);
            assert(count_live(self.world.cells@) <= 0xFFFF);
        }
        let red_score = self.world.count_red_food();
        let black_score = self.world.count_black_food();
        let red_alive = self.world.count_red_ants();
        let black_alive = self.world.count_black_ants();
        let food_left = self.world.count_food();
        let round = self.round;
        Outcome { red_score, red_alive, black_score, black_alive, food_left, round }
    }

    /// The instruction of the given colony's program at `state`.
    fn get_instruction(&self, state: u32, color: AntColor) -> (r: Instruction)
        requires
            (state as int) < self.ctx().prog(color).len(),
        ensures
            r == self.ctx().prog(color)[state as int],
    {
        match color {
            AntColor::Red => self.red_instructions[state as usize],
            AntColor::Black => self.black_instructions[state as usize],
        }
    }
}

/// The cell index a `Sense` instruction looks at, relative to the acting
/// ant: its own cell, the cell ahead, or ahead after a left or right turn.
pub fn sensed_position(
    width: usize,
    ant_index: usize,
    ant_direction: AntDirection,
    sense_direction: SenseDir,
) -> (r: usize)
    requires
        width <= 0xFFFF,
        1 <= ant_index % width < width - 1,
        1 <= ant_index / width,
        ant_index / width <= 0xFFFE,
    ensures
        r as int == sensed_spec(width as int, ant_index as int, ant_direction, sense_direction),
{
    match sense_direction {
        SenseDir::Here => ant_index,
        SenseDir::Ahead => World::adjacent_position(width, ant_index, ant_direction),
        SenseDir::LeftAhead => World::adjacent_position(
            width,
            ant_index,
            ant_direction.turn(crate::instruction::TurnDir::Left),
        ),
        SenseDir::RightAhead => World::adjacent_position(
            width,
            ant_index,
            ant_direction.turn(crate::instruction::TurnDir::Right),
        ),
    }
}

} // verus!
