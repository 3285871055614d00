//! The hexagonal board: cells, parity-aware adjacency, population of the
//! anthills, and the aggregate queries that outcomes are built from.

use vstd::prelude::*;
use crate::ant::{Ant, AntColor, AntDirection};
use crate::util::BitField8;

verus! {

// ---------------------------------------------------------------------------
// Sums over sequences
// ---------------------------------------------------------------------------

/// The sum of a sequence of integers.
pub open spec fn sum_int(s: Seq<int>) -> int
    decreases s.len(),
{
    if s.len() == 0 {
        0
    } else {
        sum_int(s.drop_last()) + s.last()
    }
}

/// Taking one more element adds exactly that element to the sum.
pub proof fn lemma_sum_take_succ(s: Seq<int>, k: int)
    requires
        0 <= k < s.len(),
    ensures
        sum_int(s.take(k + 1)) == sum_int(s.take(k)) + s[k],
{
    assert(s.take(k + 1).drop_last() =~= s.take(k));
    assert(s.take(k + 1).last() == s[k]);
}

/// The sum of a sequence of non-negative integers is non-negative.
pub proof fn lemma_sum_nonneg(s: Seq<int>)
    requires
        forall|i: int| 0 <= i < s.len() ==> s[i] >= 0,
    ensures
        sum_int(s) >= 0,
    decreases s.len(),
{
    if s.len() > 0 {
        lemma_sum_nonneg(s.drop_last());
    }
}

/// A prefix of a non-negative sequence sums to no more than the whole.
pub proof fn lemma_sum_prefix_bound(s: Seq<int>, k: int)
    requires
        forall|i: int| 0 <= i < s.len() ==> s[i] >= 0,
        0 <= k <= s.len(),
    ensures
        sum_int(s.take(k)) <= sum_int(s),
    decreases s.len() - k,
{
    if k == s.len() {
        assert(s.take(k) =~= s);
    } else {
        lemma_sum_take_succ(s, k);
        lemma_sum_prefix_bound(s, k + 1);
    }
}

/// Each element of a non-negative sequence is at most the whole sum.
pub proof fn lemma_sum_elem_bound(s: Seq<int>, i: int)
    requires
        forall|j: int| 0 <= j < s.len() ==> s[j] >= 0,
        0 <= i < s.len(),
    ensures
        s[i] <= sum_int(s),
{
    lemma_sum_take_succ(s, i);
    lemma_sum_prefix_bound(s, i + 1);
    lemma_sum_nonneg(s.take(i));
}

/// Updating one element changes the sum by the difference at that element.
pub proof fn lemma_sum_update(s: Seq<int>, i: int, v: int)
    requires
        0 <= i < s.len(),
    ensures
        sum_int(s.update(i, v)) == sum_int(s) - s[i] + v,
    decreases s.len(),
{
    if i == s.len() - 1 {
        assert(s.update(i, v).drop_last() =~= s.drop_last());
    } else {
        assert(s.update(i, v).drop_last() =~= s.drop_last().update(i, v));
        lemma_sum_update(s.drop_last(), i, v);
    }
}

// ---------------------------------------------------------------------------
// Cells
// ---------------------------------------------------------------------------

/// One tile of the board.  A rocky cell never holds an ant or food; food and
/// an ant may share a non-rocky cell.
#[derive(Clone, Copy, Debug, PartialEq, Eq)]
pub struct Cell {
    /// The ant standing on this cell, if any.
    pub ant: Option<Ant>,
    /// The colony whose anthill this cell belongs to, if any.
    pub anthill: Option<AntColor>,
    /// Whether the cell is rock.
    pub is_rocky: bool,
    /// The particles of food lying on the cell.
    pub food: u16,
    /// The marker bits left by red ants.
    pub markers_red: BitField8,
    /// The marker bits left by black ants.
    pub markers_black: BitField8,
}

impl Cell {
    /// The marker set of the given color.
    pub open spec fn spec_markers(self, color: AntColor) -> BitField8 {
        match color {
            AntColor::Red => self.markers_red,
            AntColor::Black => self.markers_black,
        }
    }

    /// This cell with the marker set of the given color replaced.
    pub open spec fn spec_with_markers(self, color: AntColor, m: BitField8) -> Cell {
        match color {
            AntColor::Red => Cell { markers_red: m, ..self },
            AntColor::Black => Cell { markers_black: m, ..self },
        }
    }

    /// The marker set of the given color.
    pub fn markers(&self, color: AntColor) -> (r: &BitField8)
        ensures
            *r == self.spec_markers(color),
    {
        match color {
            AntColor::Red => &self.markers_red,
            AntColor::Black => &self.markers_black,
        }
    }

    /// The marker set of the given color, for mutation.
    pub fn markers_mut(&mut self, color: AntColor) -> (r: &mut BitField8)
        ensures
            *r == old(self).spec_markers(color),
            *final(self) == old(self).spec_with_markers(color, *final(r)),
    {
        match color {
            AntColor::Red => &mut self.markers_red,
            AntColor::Black => &mut self.markers_black,
        }
    }
}

// ---------------------------------------------------------------------------
// Per-cell measures, and their sums over the board
// ---------------------------------------------------------------------------

/// The food lying on a cell.
pub open spec fn food_of(c: Cell) -> int {
    c.food as int
}

/// 1 when an ant stands on the cell.
pub open spec fn live_of(c: Cell) -> int {
    if c.ant is Some {
        1
    } else {
        0
    }
}

/// 1 when an ant of the given color stands on the cell.
pub open spec fn live_color_of(c: Cell, color: AntColor) -> int {
    match c.ant {
        Some(a) => if a.color == color {
            1
        } else {
            0
        },
        None => 0,
    }
}

/// 1 when the ant on the cell carries food.
pub open spec fn carry_of(c: Cell) -> int {
    match c.ant {
        Some(a) => if a.has_food {
            1
        } else {
            0
        },
        None => 0,
    }
}

/// 1 when the cell is rock.
pub open spec fn rocky_of(c: Cell) -> int {
    if c.is_rocky {
        1
    } else {
        0
    }
}

/// The total food lying on the board.
pub open spec fn sum_food(cells: Seq<Cell>) -> int {
    sum_int(cells.map_values(|c: Cell| food_of(c)))
}

/// The number of live ants on the board.
pub open spec fn count_live(cells: Seq<Cell>) -> int {
    sum_int(cells.map_values(|c: Cell| live_of(c)))
}

/// The number of live ants of one color.
pub open spec fn count_live_color(cells: Seq<Cell>, color: AntColor) -> int {
    sum_int(cells.map_values(|c: Cell| live_color_of(c, color)))
}

/// The number of live ants currently carrying food.
pub open spec fn count_carrying(cells: Seq<Cell>) -> int {
    sum_int(cells.map_values(|c: Cell| carry_of(c)))
}

/// The number of rocky cells.
pub open spec fn count_rocky(cells: Seq<Cell>) -> int {
    sum_int(cells.map_values(|c: Cell| rocky_of(c)))
}

/// The food lying on the cells named by `idxs` (summed with multiplicity).
pub open spec fn sum_food_at(cells: Seq<Cell>, idxs: Seq<usize>) -> int
    decreases idxs.len(),
{
    if idxs.len() == 0 {
        0
    } else {
        sum_food_at(cells, idxs.drop_last()) + cells[idxs.last() as int].food
    }
}

/// `sum_food_at` reads only the named cells.
pub proof fn lemma_sum_food_at_congruence(cells1: Seq<Cell>, cells2: Seq<Cell>, idxs: Seq<usize>)
    requires
        forall|k: int| 0 <= k < idxs.len() ==>
            0 <= #[trigger] idxs[k] < cells1.len()
            && idxs[k] < cells2.len()
            && cells1[idxs[k] as int].food == cells2[idxs[k] as int].food,
    ensures
        sum_food_at(cells1, idxs) == sum_food_at(cells2, idxs),
    decreases idxs.len(),
{
    if idxs.len() > 0 {
        lemma_sum_food_at_congruence(cells1, cells2, idxs.drop_last());
    }
}

/// The food on distinct named cells is at most the food on the whole board.
pub proof fn lemma_sum_food_at_bound(cells: Seq<Cell>, idxs: Seq<usize>)
    requires
        forall|k: int| 0 <= k < idxs.len() ==> #[trigger] idxs[k] < cells.len(),
        forall|k: int, l: int| 0 <= k < l < idxs.len() ==> idxs[k] != idxs[l],
    ensures
        0 <= sum_food_at(cells, idxs) <= sum_food(cells),
    decreases idxs.len(),
{
    let m = cells.map_values(|c: Cell| food_of(c));
    if idxs.len() == 0 {
        lemma_sum_nonneg(m);
    } else {
        let j = idxs.last() as int;
        let zeroed = cells.update(j, Cell { food: 0u16, ..cells[j] });
        let mz = zeroed.map_values(|c: Cell| food_of(c));
        assert(mz =~= m.update(j, 0));
        lemma_sum_update(m, j, 0);
        lemma_sum_food_at_congruence(cells, zeroed, idxs.drop_last());
        lemma_sum_food_at_bound(zeroed, idxs.drop_last());
    }
}

/// Each color's live count is bounded by the total live count.
pub proof fn lemma_count_live_color_bound(cells: Seq<Cell>, color: AntColor)
    ensures
        0 <= count_live_color(cells, color) <= count_live(cells),
        0 <= count_carrying(cells) <= count_live(cells),
    decreases cells.len(),
{
    if cells.len() == 0 {
    } else {
        lemma_count_live_color_bound(cells.drop_last(), color);
        assert(cells.drop_last().map_values(|c: Cell| live_of(c))
            =~= cells.map_values(|c: Cell| live_of(c)).drop_last());
        assert(cells.drop_last().map_values(|c: Cell| live_color_of(c, color))
            =~= cells.map_values(|c: Cell| live_color_of(c, color)).drop_last());
        assert(cells.drop_last().map_values(|c: Cell| carry_of(c))
            =~= cells.map_values(|c: Cell| carry_of(c)).drop_last());
    }
}

// ---------------------------------------------------------------------------
// Hex adjacency
// ---------------------------------------------------------------------------

/// The coordinates one step from `(x, y)` in direction `d`, under the
/// odd/even row parity scheme of the board: on even rows the downward and
/// upward diagonals lean left, on odd rows they lean right.
pub open spec fn adj_coords(x: int, y: int, d: AntDirection) -> (int, int) {
    let even = y % 2 == 0;
    match d {
        AntDirection::Right => (x + 1, y),
        AntDirection::DownRight => if even {
            (x, y + 1)
        } else {
            (x + 1, y + 1)
        },
        AntDirection::DownLeft => if even {
            (x - 1, y + 1)
        } else {
            (x, y + 1)
        },
        AntDirection::Left => (x - 1, y),
        AntDirection::UpLeft => if even {
            (x - 1, y - 1)
        } else {
            (x, y - 1)
        },
        AntDirection::UpRight => if even {
            (x, y - 1)
        } else {
            (x + 1, y - 1)
        },
    }
}

/// The flat index one step from flat index `i` in direction `d`, on a board
/// `width` cells wide.
pub open spec fn adjacent_spec(width: int, i: int, d: AntDirection) -> int {
    let p = adj_coords(i % width, i / width, d);
    p.1 * width + p.0
}

/// Whether flat index `i` lies on the outermost ring of a `width` by
/// `height` board.
pub open spec fn perimeter_at(width: int, height: int, i: int) -> bool {
    i % width == 0 || i % width == width - 1 || i / width == 0 || i / width == height - 1
}

/// Whether flat index `i` lies strictly inside the perimeter of a `width`
/// by `height` board.
pub open spec fn interior_at(width: int, height: int, i: int) -> bool {
    0 <= i < width * height
        && 1 <= i % width < width - 1
        && 1 <= i / width < height - 1
}

/// A cell in bounds but off the perimeter is interior.
pub proof fn lemma_off_perimeter_interior(width: int, height: int, i: int)
    requires
        width >= 1,
        height >= 1,
        0 <= i < width * height,
        !perimeter_at(width, height, i),
    ensures
        interior_at(width, height, i),
{
    assert(i / width < height && i / width >= 0) by (nonlinear_arith)
        requires width >= 1 && height >= 1 && 0 <= i < width * height;
}

/// Stepping East and then West returns to the origin, whatever the parity
/// of the row.
pub proof fn lemma_east_west_roundtrip(x: int, y: int)
    ensures
        adj_coords(adj_coords(x, y, AntDirection::Right).0,
                   adj_coords(x, y, AntDirection::Right).1,
                   AntDirection::Left) == (x, y),
{
}

/// Stepping South-East and then North-West also returns to the origin, on
/// either parity, though by different paths: from an even row the step down
/// goes to `(x, y+1)` on an odd row and the step up comes back by `(x, y)`;
/// from an odd row it goes to `(x+1, y+1)` on an even row and comes back by
/// `(x, y)`.
pub proof fn lemma_se_nw_roundtrip(x: int, y: int)
    ensures
        adj_coords(adj_coords(x, y, AntDirection::DownRight).0,
                   adj_coords(x, y, AntDirection::DownRight).1,
                   AntDirection::UpLeft) == (x, y),
{
    assert((y + 1) % 2 == 0 <==> y % 2 != 0) by (nonlinear_arith);
}

// ---------------------------------------------------------------------------
// The world
// ---------------------------------------------------------------------------

/// The board: `width * height` cells in row-major order, and the flat
/// indices of each colony's anthill cells, in ascending order.
#[derive(Clone)]
pub struct World {
    /// The cells, row-major: the cell at `(x, y)` is `cells[y * width + x]`.
    pub cells: Vec<Cell>,
    /// The number of columns.
    pub width: usize,
    /// The number of rows.
    pub height: usize,
    /// The flat indices of the red anthill cells, ascending.
    pub red_anthill: Vec<usize>,
    /// The flat indices of the black anthill cells, ascending.
    pub black_anthill: Vec<usize>,
}

/// The positions of the anthill cells among `cells`, in ascending order.
pub open spec fn hill_positions(cells: Seq<Cell>) -> Seq<usize>
    decreases cells.len(),
{
    if cells.len() == 0 {
        Seq::empty()
    } else {
        hill_positions(cells.drop_last())
            + if cells.last().anthill is Some {
                seq![(cells.len() - 1) as usize]
            } else {
                Seq::empty()
            }
    }
}

/// The positions of one colony's anthill cells, in ascending order.
pub open spec fn hill_positions_color(cells: Seq<Cell>, color: AntColor) -> Seq<usize>
    decreases cells.len(),
{
    if cells.len() == 0 {
        Seq::empty()
    } else {
        hill_positions_color(cells.drop_last(), color)
            + if cells.last().anthill == Some(color) {
                seq![(cells.len() - 1) as usize]
            } else {
                Seq::empty()
            }
    }
}

/// The number of anthill cells strictly before position `i`: the id that
/// population assigns to the ant placed at the `i`-th cell.
pub open spec fn hill_rank(cells: Seq<Cell>, i: int) -> int {
    hill_positions(cells.take(i)).len() as int
}

impl World {
    /// Structural well-formedness: the dimensions fit sixteen bits and the
    /// cell vector holds exactly one cell per coordinate.
    pub open spec fn wf(self) -> bool {
        &&& self.width <= 0xFFFF
        &&& self.height <= 0xFFFF
        &&& self.cells@.len() == self.width * self.height
    }

    /// Whether flat index `i` lies on the outermost ring of the board.
    pub open spec fn on_perimeter(self, i: int) -> bool {
        perimeter_at(self.width as int, self.height as int, i)
    }

    /// Whether flat index `i` lies strictly inside the perimeter.
    pub open spec fn interior(self, i: int) -> bool {
        interior_at(self.width as int, self.height as int, i)
            && i < self.cells@.len()
    }

    /// Every perimeter cell is rocky.  The engine relies on this: it never
    /// bounds-checks adjacency, because no ant ever stands on the perimeter.
    pub open spec fn perimeter_rocky(self) -> bool {
        forall|i: int| 0 <= i < self.cells@.len() && self.on_perimeter(i)
            ==> (#[trigger] self.cells@[i]).is_rocky
    }

    /// A world ready to be populated: well formed, no ants yet, empty
    /// anthill registers, and rocks bare of food and anthills.
    pub open spec fn unpopulated(self) -> bool {
        &&& self.wf()
        &&& self.red_anthill@.len() == 0
        &&& self.black_anthill@.len() == 0
        &&& forall|i: int| 0 <= i < self.cells@.len() ==> {
            let c = #[trigger] self.cells@[i];
            c.ant is None && (c.is_rocky ==> c.food == 0 && c.anthill is None)
        }
    }

    /// The shape a world has right after parsing: no ants yet, empty
    /// anthill registers, clean markers, and nothing on the rocks.
    pub open spec fn parsed_form(self) -> bool {
        &&& self.wf()
        &&& self.red_anthill@.len() == 0
        &&& self.black_anthill@.len() == 0
        &&& forall|i: int| 0 <= i < self.cells@.len() ==> {
            let c = #[trigger] self.cells@[i];
            c.ant is None
                && c.markers_red.bits == 0
                && c.markers_black.bits == 0
                && (c.is_rocky ==> c.food == 0 && c.anthill is None)
                && (c.anthill is Some ==> c.food == 0)
        }
    }

    /// Convert a flat index to `(x, y)` coordinates.
    pub fn index_to_coords(width: usize, i: usize) -> (r: (usize, usize))
        requires
            width >= 1,
        ensures
            r.0 == i % width,
            r.1 == i / width,
    {
        (i % width, i / width)
    }

    /// Convert `(x, y)` coordinates to a flat index.
    pub fn coords_to_index(width: usize, x: usize, y: usize) -> (r: usize)
        requires
            width <= 0xFFFF,
            x < width,
            y <= 0xFFFF,
        ensures
            r == y * width + x,
    {
        proof {
            assert(y * width <= 0xFFFF * 0xFFFF) by (nonlinear_arith)
                requires y <= 0xFFFF && width <= 0xFFFF;
        }
        y * width + x
    }

    /// The flat index one step from `i` in direction `dir`.
    ///
    /// The caller must stand clear of the perimeter; on a valid board every
    /// ant does, because the perimeter is rocky.
    pub fn adjacent_position(width: usize, i: usize, dir: AntDirection) -> (r: usize)
        requires
            width <= 0xFFFF,
            1 <= i % width < width - 1,
            1 <= i / width,
            i / width <= 0xFFFE,
        ensures
            r == adjacent_spec(width as int, i as int, dir),
    {
        let x = i % width;
        let y = i / width;

        let (nx, ny): (usize, usize) = match dir {
            AntDirection::Right => (x + 1, y),
            AntDirection::DownRight => if y % 2 == 0 {
                (x, y + 1)
            } else {
                (x + 1, y + 1)
            },
            AntDirection::DownLeft => if y % 2 == 0 {
                (x - 1, y + 1)
            } else {
                (x, y + 1)
            },
            AntDirection::Left => (x - 1, y),
            AntDirection::UpLeft => if y % 2 == 0 {
                (x - 1, y - 1)
            } else {
                (x, y - 1)
            },
            AntDirection::UpRight => if y % 2 == 0 {
                (x, y - 1)
            } else {
                (x + 1, y - 1)
            },
        };

        proof {
            assert(ny * width <= 0xFFFF * 0xFFFF) by (nonlinear_arith)
                requires ny <= 0xFFFF && width <= 0xFFFF;
        }
        ny * width + nx
    }
}

/// What `hill_positions` appends when one more cell is taken.
pub proof fn lemma_hill_take_succ(cells: Seq<Cell>, k: int)
    requires
        0 <= k < cells.len(),
    ensures
        hill_positions(cells.take(k + 1)) == hill_positions(cells.take(k))
            + if cells[k].anthill is Some {
                seq![k as usize]
            } else {
                Seq::<usize>::empty()
            },
{
    assert(cells.take(k + 1).drop_last() =~= cells.take(k));
    assert(cells.take(k + 1).last() == cells[k]);
}

/// What `hill_positions_color` appends when one more cell is taken.
pub proof fn lemma_hill_color_take_succ(cells: Seq<Cell>, color: AntColor, k: int)
    requires
        0 <= k < cells.len(),
    ensures
        hill_positions_color(cells.take(k + 1), color) == hill_positions_color(cells.take(k), color)
            + if cells[k].anthill == Some(color) {
                seq![k as usize]
            } else {
                Seq::<usize>::empty()
            },
{
    assert(cells.take(k + 1).drop_last() =~= cells.take(k));
    assert(cells.take(k + 1).last() == cells[k]);
}

/// The anthill positions are in range, each holds an anthill, the entry at
/// rank `k` has rank `k`, and the list ascends strictly.
pub proof fn lemma_hill_positions_props(cells: Seq<Cell>)
    requires
        cells.len() <= usize::MAX,
    ensures
        forall|k: int| 0 <= k < hill_positions(cells).len() ==> {
            let p = #[trigger] hill_positions(cells)[k];
            0 <= p < cells.len()
                && cells[p as int].anthill is Some
                && hill_rank(cells, p as int) == k
        },
        forall|k: int, l: int| 0 <= k < l < hill_positions(cells).len()
            ==> hill_positions(cells)[k] < hill_positions(cells)[l],
    decreases cells.len(),
{
    if cells.len() > 0 {
        let prev = cells.drop_last();
        lemma_hill_positions_props(prev);
        if cells.last().anthill is Some {
            assert(hill_positions(cells)
                == hill_positions(prev) + seq![(cells.len() - 1) as usize]);
            assert(cells.take(cells.len() - 1) =~= prev);
        } else {
            assert(hill_positions(cells) == hill_positions(prev));
        }
        assert forall|k: int| 0 <= k < hill_positions(cells).len() implies {
            let p = #[trigger] hill_positions(cells)[k];
            0 <= p < cells.len()
                && cells[p as int].anthill is Some
                && hill_rank(cells, p as int) == k
        } by {
            if k < hill_positions(prev).len() {
                let p = hill_positions(prev)[k];
                assert(hill_positions(cells)[k] == p);
                assert(prev[p as int] == cells[p as int]);
                assert(prev.take(p as int) =~= cells.take(p as int));
            } else {
                assert(hill_positions(cells)[k] == (cells.len() - 1) as usize);
            }
        }
        assert forall|k: int, l: int| 0 <= k < l < hill_positions(cells).len()
            implies hill_positions(cells)[k] < hill_positions(cells)[l] by {
            if l < hill_positions(prev).len() {
                assert(hill_positions(cells)[k] == hill_positions(prev)[k]);
                assert(hill_positions(cells)[l] == hill_positions(prev)[l]);
            } else {
                assert(hill_positions(cells)[k] == hill_positions(prev)[k]);
                assert(hill_positions(prev)[k] < prev.len());
            }
        }
    }
}

/// The one-color anthill positions are in range, each holds that colony's
/// anthill, and the list ascends strictly.
pub proof fn lemma_hill_color_props(cells: Seq<Cell>, color: AntColor)
    requires
        cells.len() <= usize::MAX,
    ensures
        forall|k: int| 0 <= k < hill_positions_color(cells, color).len() ==> {
            let p = #[trigger] hill_positions_color(cells, color)[k];
            0 <= p < cells.len() && cells[p as int].anthill == Some(color)
        },
        forall|k: int, l: int| 0 <= k < l < hill_positions_color(cells, color).len()
            ==> hill_positions_color(cells, color)[k] < hill_positions_color(cells, color)[l],
    decreases cells.len(),
{
    if cells.len() > 0 {
        let prev = cells.drop_last();
        lemma_hill_color_props(prev, color);
        if cells.last().anthill == Some(color) {
            assert(hill_positions_color(cells, color)
                == hill_positions_color(prev, color) + seq![(cells.len() - 1) as usize]);
        } else {
            assert(hill_positions_color(cells, color) == hill_positions_color(prev, color));
        }
        assert forall|k: int| 0 <= k < hill_positions_color(cells, color).len() implies {
            let p = #[trigger] hill_positions_color(cells, color)[k];
            0 <= p < cells.len() && cells[p as int].anthill == Some(color)
        } by {
            if k < hill_positions_color(prev, color).len() {
                let p = hill_positions_color(prev, color)[k];
                assert(hill_positions_color(cells, color)[k] == p);
                assert(prev[p as int] == cells[p as int]);
            } else {
                assert(hill_positions_color(cells, color)[k] == (cells.len() - 1) as usize);
            }
        }
        assert forall|k: int, l: int| 0 <= k < l < hill_positions_color(cells, color).len()
            implies hill_positions_color(cells, color)[k] < hill_positions_color(cells, color)[l]
        by {
            if l < hill_positions_color(prev, color).len() {
                assert(hill_positions_color(cells, color)[k] == hill_positions_color(prev, color)[k]);
                assert(hill_positions_color(cells, color)[l] == hill_positions_color(prev, color)[l]);
            } else {
                assert(hill_positions_color(cells, color)[k] == hill_positions_color(prev, color)[k]);
                assert(hill_positions_color(prev, color)[k] < prev.len());
            }
        }
    }
}

/// Anthill positions depend only on the cells' anthill tags.
pub proof fn lemma_hill_positions_congruence(c1: Seq<Cell>, c2: Seq<Cell>)
    requires
        c1.len() == c2.len(),
        forall|i: int| 0 <= i < c1.len() ==> c1[i].anthill == c2[i].anthill,
    ensures
        hill_positions(c1) == hill_positions(c2),
        forall|color: AntColor|
            #[trigger] hill_positions_color(c1, color) == hill_positions_color(c2, color),
    decreases c1.len(),
{
    if c1.len() > 0 {
        lemma_hill_positions_congruence(c1.drop_last(), c2.drop_last());
        assert(c1.last().anthill == c2.last().anthill);
        assert forall|color: AntColor|
            #[trigger] hill_positions_color(c1, color) == hill_positions_color(c2, color) by {
            assert(hill_positions_color(c1.drop_last(), color)
                == hill_positions_color(c2.drop_last(), color));
        }
    }
}

/// A sequence of zeros sums to zero.
pub proof fn lemma_sum_zero(s: Seq<int>)
    requires
        forall|i: int| 0 <= i < s.len() ==> #[trigger] s[i] == 0,
    ensures
        sum_int(s) == 0,
    decreases s.len(),
{
    if s.len() > 0 {
        lemma_sum_zero(s.drop_last());
    }
}

/// Every anthill cell appears in the anthill positions, at its own rank.
pub proof fn lemma_hill_contains(cells: Seq<Cell>, j: int)
    requires
        cells.len() <= usize::MAX,
        0 <= j < cells.len(),
        cells[j].anthill is Some,
    ensures
        0 <= hill_rank(cells, j) < hill_positions(cells).len(),
        hill_positions(cells)[hill_rank(cells, j)] == j as usize,
    decreases cells.len(),
{
    let prev = cells.drop_last();
    if j == cells.len() - 1 {
        assert(cells.take(j) =~= prev);
        assert(hill_positions(cells) == hill_positions(prev) + seq![j as usize]);
    } else {
        lemma_hill_contains(prev, j);
        assert(prev.take(j) =~= cells.take(j));
        if cells.last().anthill is Some {
            assert(hill_positions(cells)
                == hill_positions(prev) + seq![(cells.len() - 1) as usize]);
        } else {
            assert(hill_positions(cells) == hill_positions(prev));
        }
    }
}

/// A colony with an anthill cell has at least one anthill position.
pub proof fn lemma_hill_color_nonempty(cells: Seq<Cell>, j: int, color: AntColor)
    requires
        0 <= j < cells.len(),
        cells[j].anthill == Some(color),
    ensures
        hill_positions_color(cells, color).len() > 0,
    decreases cells.len(),
{
    if j < cells.len() - 1 {
        lemma_hill_color_nonempty(cells.drop_last(), j, color);
    }
}

/// 1 when an ant of the given color should be placed here: the cell is an
/// anthill of that colony.
pub open spec fn hill_of(c: Cell) -> int {
    if c.anthill is Some {
        1
    } else {
        0
    }
}

/// There are as many anthill positions as anthill cells.
pub proof fn lemma_hill_positions_len(cells: Seq<Cell>)
    ensures
        hill_positions(cells).len() == sum_int(cells.map_values(|c: Cell| hill_of(c))),
    decreases cells.len(),
{
    if cells.len() > 0 {
        lemma_hill_positions_len(cells.drop_last());
        assert(cells.drop_last().map_values(|c: Cell| hill_of(c))
            =~= cells.map_values(|c: Cell| hill_of(c)).drop_last());
    }
}

impl World {
    /// The anthill registers list exactly each colony's anthill cells, in
    /// ascending order.
    pub open spec fn hills_registered(self) -> bool {
        &&& self.red_anthill@ == hill_positions_color(self.cells@, AntColor::Red)
        &&& self.black_anthill@ == hill_positions_color(self.cells@, AntColor::Black)
    }

    /// The cell that population places at position `i` of `cells`: the ant
    /// of the anthill's colony whose id is the cell's hill rank, on an
    /// otherwise unchanged cell.
    pub open spec fn populated_cell(cells: Seq<Cell>, i: int) -> Cell {
        match cells[i].anthill {
            Some(color) => Cell {
                ant: Some(Ant {
                    id: hill_rank(cells, i) as usize,
                    color,
                    direction: AntDirection::Right,
                    state: 0u32,
                    has_food: false,
                    resting: 0u8,
                }),
                ..cells[i]
            },
            None => cells[i],
        }
    }

    /// Seed the colonies: scan the cells in row-major order and place one
    /// fresh ant on every anthill cell, ids in assignment order.  Returns
    /// the ant-position index: the ants' cell indices, ascending by id.
    pub fn populate(&mut self) -> (r: Vec<usize>)
        requires
            old(self).red_anthill@.len() == 0,
            old(self).black_anthill@.len() == 0,
        ensures
            final(self).width == old(self).width,
            final(self).height == old(self).height,
            final(self).cells@.len() == old(self).cells@.len(),
            forall|i: int| 0 <= i < old(self).cells@.len()
                ==> final(self).cells@[i] == World::populated_cell(old(self).cells@, i),
            final(self).red_anthill@ == hill_positions_color(old(self).cells@, AntColor::Red),
            final(self).black_anthill@ == hill_positions_color(old(self).cells@, AntColor::Black),
            r@ == hill_positions(old(self).cells@),
    {
        let ghost cells0 = self.cells@;
        let mut ants: Vec<usize> = Vec::new();
        let mut ant_id: usize = 0;
        let n = self.cells.len();
        let mut i: usize = 0;
        while i < n
            invariant
                n == cells0.len(),
                i <= n,
                self.cells@.len() == n,
                self.width == old(self).width,
                self.height == old(self).height,
                ants@ == hill_positions(cells0.take(i as int)),
                ant_id == ants@.len(),
                ant_id <= i,
                self.red_anthill@ == hill_positions_color(cells0.take(i as int), AntColor::Red),
                self.black_anthill@ == hill_positions_color(cells0.take(i as int), AntColor::Black),
                forall|j: int| i <= j < n ==> self.cells@[j] == cells0[j],
                forall|j: int| 0 <= j < i ==> self.cells@[j] == World::populated_cell(cells0, j),
            decreases n - i,
        {
            proof {
                lemma_hill_take_succ(cells0, i as int);
                lemma_hill_color_take_succ(cells0, AntColor::Red, i as int);
                lemma_hill_color_take_succ(cells0, AntColor::Black, i as int);
            }
            let hill = self.cells[i].anthill;
            match hill {
                Some(color) => {
                    let mut cell = self.cells[i];
                    cell.ant = Some(Ant::new(ant_id, color));
                    self.cells.set(i, cell);
                    ants.push(i);
                    ant_id = ant_id + 1;
                    match color {
                        AntColor::Red => self.red_anthill.push(i),
                        AntColor::Black => self.black_anthill.push(i),
                    }
                },
                None => {},
            }
            i = i + 1;
        }
        proof {
            assert(cells0.take(n as int) =~= cells0);
        }
        ants
    }
}

/// What `sum_food_at` adds when one more index is taken.
pub proof fn lemma_sum_food_at_take_succ(cells: Seq<Cell>, idxs: Seq<usize>, k: int)
    requires
        0 <= k < idxs.len(),
    ensures
        sum_food_at(cells, idxs.take(k + 1))
            == sum_food_at(cells, idxs.take(k)) + cells[idxs[k] as int].food,
{
    assert(idxs.take(k + 1).drop_last() =~= idxs.take(k));
    assert(idxs.take(k + 1).last() == idxs[k]);
}

/// 1 when the cell holds an ant of a color other than `color`.
pub open spec fn enemy_at(cells: Seq<Cell>, j: int, color: AntColor) -> int {
    if 0 <= j < cells.len() {
        match cells[j].ant {
            Some(a) => if a.color != color {
                1
            } else {
                0
            },
            None => 0,
        }
    } else {
        0
    }
}

/// The enemies of `color` among the first `k` neighbors of `pos`, scanning
/// the directions in the canonical order East, South-East, ..., North-East.
pub open spec fn enemies_near_upto(
    cells: Seq<Cell>,
    width: int,
    pos: int,
    color: AntColor,
    k: int,
) -> int
    decreases k,
{
    if k <= 0 {
        0
    } else {
        enemies_near_upto(cells, width, pos, color, k - 1)
            + enemy_at(
                cells,
                adjacent_spec(width, pos, AntDirection::spec_from_index(k - 1)),
                color,
            )
    }
}

/// The number of the six neighbors of `pos` holding an ant of a color other
/// than `color`.
pub open spec fn enemies_near(cells: Seq<Cell>, width: int, pos: int, color: AntColor) -> int {
    enemies_near_upto(cells, width, pos, color, 6)
}

impl World {
    /// The number of ants of the opposing color on the six cells adjacent
    /// to `position`.
    pub(crate) fn adjacent_enemies(&self, position: usize, friend_color: AntColor) -> (r: usize)
        requires
            self.wf(),
            self.interior(position as int),
        ensures
            r as int == enemies_near(
                self.cells@,
                self.width as int,
                position as int,
                friend_color,
            ),
            r <= 6,
    {
        let dirs = AntDirection::all();
        let mut count: usize = 0;
        let mut k: usize = 0;
        while k < 6
            invariant
                self.wf(),
                self.interior(position as int),
                k <= 6,
                count <= k,
                dirs@.len() == 6,
                forall|j: int| 0 <= j < 6 ==> dirs@[j] == AntDirection::spec_from_index(j),
                count as int == enemies_near_upto(
                    self.cells@,
                    self.width as int,
                    position as int,
                    friend_color,
                    k as int,
                ),
            decreases 6 - k,
        {
            proof {
                lemma_adjacent_in_bounds(
                    self.width as int,
                    self.height as int,
                    position as int,
                    dirs@[k as int],
                );
            }
            let adj = World::adjacent_position(self.width, position, dirs[k]);
            let is_enemy = match &self.cells[adj].ant {
                Some(a) => a.color != friend_color,
                None => false,
            };
            if is_enemy {
                count = count + 1;
            }
            k = k + 1;
        }
        count
    }

    /// The food currently lying on the red anthill cells: red's score.
    pub fn count_red_food(&self) -> (r: u16)
        requires
            self.hills_registered(),
            self.cells@.len() <= usize::MAX,
            sum_food(self.cells@) <= 0xFFFF,
        ensures
            r as int == sum_food_at(self.cells@, self.red_anthill@),
    {
        proof {
            lemma_hill_color_props(self.cells@, AntColor::Red);
        }
        self.count_food_at(&self.red_anthill)
    }

    /// The food currently lying on the black anthill cells: black's score.
    pub fn count_black_food(&self) -> (r: u16)
        requires
            self.hills_registered(),
            self.cells@.len() <= usize::MAX,
            sum_food(self.cells@) <= 0xFFFF,
        ensures
            r as int == sum_food_at(self.cells@, self.black_anthill@),
    {
        proof {
            lemma_hill_color_props(self.cells@, AntColor::Black);
        }
        self.count_food_at(&self.black_anthill)
    }

    /// Sum the food on the cells named by `idxs`, which must name distinct
    /// cells of this world.
    fn count_food_at(&self, idxs: &Vec<usize>) -> (r: u16)
        requires
            forall|k: int| 0 <= k < idxs@.len() ==> #[trigger] idxs@[k] < self.cells@.len(),
            forall|k: int, l: int| 0 <= k < l < idxs@.len() ==> idxs@[k] != idxs@[l],
            sum_food(self.cells@) <= 0xFFFF,
        ensures
            r as int == sum_food_at(self.cells@, idxs@),
    {
        let mut acc: u16 = 0;
        let mut k: usize = 0;
        let n = idxs.len();
        while k < n
            invariant
                n == idxs@.len(),
                k <= n,
                forall|j: int| 0 <= j < idxs@.len() ==> #[trigger] idxs@[j] < self.cells@.len(),
                forall|j: int, l: int| 0 <= j < l < idxs@.len() ==> idxs@[j] != idxs@[l],
                sum_food(self.cells@) <= 0xFFFF,
                acc as int == sum_food_at(self.cells@, idxs@.take(k as int)),
            decreases n - k,
        {
            proof {
                lemma_sum_food_at_take_succ(self.cells@, idxs@, k as int);
                lemma_sum_food_at_bound(self.cells@, idxs@.take(k as int + 1));
            }
            acc = acc + self.cells[idxs[k]].food;
            k = k + 1;
        }
        proof {
            assert(idxs@.take(n as int) =~= idxs@);
        }
        acc
    }

    /// The number of live ants on the board.
    pub fn count_ants(&self) -> (r: u16)
        requires
            count_live(self.cells@) <= 0xFFFF,
        ensures
            r as int == count_live(self.cells@),
    {
        let ghost m = self.cells@.map_values(|c: Cell| live_of(c));
        proof {
            assert(forall|j: int| 0 <= j < m.len() ==> 0 <= #[trigger] m[j] <= 1);
        }
        let mut acc: u16 = 0;
        let mut i: usize = 0;
        let n = self.cells.len();
        while i < n
            invariant
                n == self.cells@.len(),
                i <= n,
                m == self.cells@.map_values(|c: Cell| live_of(c)),
                sum_int(m) <= 0xFFFF,
                forall|j: int| 0 <= j < m.len() ==> 0 <= #[trigger] m[j] <= 1,
                acc as int == sum_int(m.take(i as int)),
            decreases n - i,
        {
            proof {
                lemma_sum_take_succ(m, i as int);
                lemma_sum_prefix_bound(m, i as int + 1);
                lemma_sum_nonneg(m.take(i as int));
            }
            if self.cells[i].ant.is_some() {
                acc = acc + 1;
            }
            i = i + 1;
        }
        proof {
            assert(m.take(n as int) =~= m);
        }
        acc
    }

    /// The number of live red ants.
    pub fn count_red_ants(&self) -> (r: u16)
        requires
            count_live(self.cells@) <= 0xFFFF,
        ensures
            r as int == count_live_color(self.cells@, AntColor::Red),
    {
        self.count_ants_of(AntColor::Red)
    }

    /// The number of live black ants.
    pub fn count_black_ants(&self) -> (r: u16)
        requires
            count_live(self.cells@) <= 0xFFFF,
        ensures
            r as int == count_live_color(self.cells@, AntColor::Black),
    {
        self.count_ants_of(AntColor::Black)
    }

    /// The number of live ants of one color.
    fn count_ants_of(&self, color: AntColor) -> (r: u16)
        requires
            count_live(self.cells@) <= 0xFFFF,
        ensures
            r as int == count_live_color(self.cells@, color),
    {
        let ghost m = self.cells@.map_values(|c: Cell| live_color_of(c, color));
        proof {
            assert(forall|j: int| 0 <= j < m.len() ==> 0 <= #[trigger] m[j] <= 1);
            lemma_count_live_color_bound(self.cells@, color);
        }
        let mut acc: u16 = 0;
        let mut i: usize = 0;
        let n = self.cells.len();
        while i < n
            invariant
                n == self.cells@.len(),
                i <= n,
                m == self.cells@.map_values(|c: Cell| live_color_of(c, color)),
                sum_int(m) <= 0xFFFF,
                forall|j: int| 0 <= j < m.len() ==> 0 <= #[trigger] m[j] <= 1,
                acc as int == sum_int(m.take(i as int)),
            decreases n - i,
        {
            proof {
                lemma_sum_take_succ(m, i as int);
                lemma_sum_prefix_bound(m, i as int + 1);
                lemma_sum_nonneg(m.take(i as int));
            }
            let is_colored = match &self.cells[i].ant {
                Some(a) => a.color == color,
                None => false,
            };
            if is_colored {
                acc = acc + 1;
            }
            i = i + 1;
        }
        proof {
            assert(m.take(n as int) =~= m);
        }
        acc
    }

    /// The total food lying on the board.
    pub fn count_food(&self) -> (r: u16)
        requires
            sum_food(self.cells@) <= 0xFFFF,
        ensures
            r as int == sum_food(self.cells@),
    {
        let ghost m = self.cells@.map_values(|c: Cell| food_of(c));
        proof {
            assert(forall|j: int| 0 <= j < m.len() ==> #[trigger] m[j] >= 0);
        }
        let mut acc: u16 = 0;
        let mut i: usize = 0;
        let n = self.cells.len();
        while i < n
            invariant
                n == self.cells@.len(),
                i <= n,
                m == self.cells@.map_values(|c: Cell| food_of(c)),
                sum_int(m) <= 0xFFFF,
                forall|j: int| 0 <= j < m.len() ==> #[trigger] m[j] >= 0,
                acc as int == sum_int(m.take(i as int)),
            decreases n - i,
        {
            proof {
                lemma_sum_take_succ(m, i as int);
                lemma_sum_prefix_bound(m, i as int + 1);
                lemma_sum_nonneg(m.take(i as int));
            }
            acc = acc + self.cells[i].food;
            i = i + 1;
        }
        proof {
            assert(m.take(n as int) =~= m);
        }
        acc
    }

    /// The number of rocky cells.
    pub fn count_rocks(&self) -> (r: u32)
        requires
            self.wf(),
        ensures
            r as int == count_rocky(self.cells@),
    {
        let ghost m = self.cells@.map_values(|c: Cell| rocky_of(c));
        proof {
            assert(forall|j: int| 0 <= j < m.len() ==> 0 <= #[trigger] m[j] <= 1);
            assert(self.cells@.len() <= 0xFFFF * 0xFFFF) by (nonlinear_arith)
                requires
                    self.cells@.len() == self.width * self.height,
                    self.width <= 0xFFFF,
                    self.height <= 0xFFFF;
        }
        let mut acc: u32 = 0;
        let mut i: usize = 0;
        let n = self.cells.len();
        while i < n
            invariant
                n == self.cells@.len(),
                n <= 0xFFFF * 0xFFFF,
                i <= n,
                m == self.cells@.map_values(|c: Cell| rocky_of(c)),
                forall|j: int| 0 <= j < m.len() ==> 0 <= #[trigger] m[j] <= 1,
                acc <= i,
                acc as int == sum_int(m.take(i as int)),
            decreases n - i,
        {
            proof {
                lemma_sum_take_succ(m, i as int);
            }
            if self.cells[i].is_rocky {
                acc = acc + 1;
            }
            i = i + 1;
        }
        proof {
            assert(m.take(n as int) =~= m);
        }
        acc
    }
}

/// An interior cell's neighbors all lie on the board, and a cell strictly
/// inside the interior (two cells from the edge) has interior neighbors.
pub proof fn lemma_adjacent_in_bounds(width: int, height: int, i: int, d: AntDirection)
    requires
        3 <= width,
        3 <= height,
        0 <= i < width * height,
        1 <= i % width < width - 1,
        1 <= i / width < height - 1,
    ensures
        0 <= adjacent_spec(width, i, d) < width * height,
        adjacent_spec(width, i, d) % width == adj_coords(i % width, i / width, d).0,
        adjacent_spec(width, i, d) / width == adj_coords(i % width, i / width, d).1,
{
    let x = i % width;
    let y = i / width;
    let p = adj_coords(x, y, d);
    assert(0 <= p.0 < width);
    assert(0 <= p.1 < height);
    assert((p.1 * width + p.0) % width == p.0 && (p.1 * width + p.0) / width == p.1)
        by (nonlinear_arith)
        requires 0 <= p.0 < width && 0 <= p.1;
    assert(p.1 * width + p.0 < width * height) by (nonlinear_arith)
        requires 0 <= p.0 < width && 0 <= p.1 < height;
    assert(p.1 * width + p.0 >= 0) by (nonlinear_arith)
        requires 0 <= p.0 && 0 <= p.1 && width >= 1;
}

} // verus!
