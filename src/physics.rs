use vstd::prelude::*;
use crate::cell::{Cell, is_crushable, is_rock, is_falling};
use crate::grid::{
    MX, MY, N_CELLS, in_bounds, index_of, cell_at, put, occupied_count, lemma_count_put,
    lemma_index_in_range,
};
use crate::game::Game;
use vstd::arithmetic::div_mod::{lemma_fundamental_div_mod, lemma_mod_pos_bound};

verus! {

/// Which side a rock tries first: right on even ticks, left on odd ones.
pub open spec fn rock_dx(counter: u32) -> int {
    if counter % 2 == 0 {
        1
    } else {
        -1
    }
}

/// The same kind of rock, in motion.
pub open spec fn moving(this: Cell) -> Cell {
    if this is Boulder {
        Cell::Boulder(true)
    } else {
        Cell::Diamond(true)
    }
}

/// The same kind of rock, at rest.
pub open spec fn resting(this: Cell) -> Cell {
    if this is Boulder {
        Cell::Boulder(false)
    } else {
        Cell::Diamond(false)
    }
}

/// The world after the rock rule is applied to the cell at `(x, y)`:
/// fall, start falling, roll to the first side, roll to the second side,
/// or stop, tried in that order. A rock that falls onto an enemy is used up:
/// its own cell empties and the enemy's cell becomes a falling diamond.
pub open spec fn rock_step(w: Seq<Cell>, x: int, y: int, dx: int) -> Seq<Cell> {
    let this = cell_at(w, x, y);
    let bottom = cell_at(w, x, y + 1);
    let side1 = cell_at(w, x + dx, y);
    let diag1 = cell_at(w, x + dx, y + 1);
    let side2 = cell_at(w, x - dx, y);
    let diag2 = cell_at(w, x - dx, y + 1);
    if !is_rock(this) {
        w
    } else if is_falling(this) && is_crushable(bottom) {
        if bottom is Enemy {
            put(put(w, x, y, Cell::Empty), x, y + 1, Cell::Diamond(true))
        } else {
            put(put(w, x, y, Cell::Empty), x, y + 1, moving(this))
        }
    } else if !is_falling(this) && bottom is Empty {
        put(put(w, x, y, Cell::Empty), x, y + 1, moving(this))
    } else if is_falling(this) && side1 is Empty && is_crushable(diag1) {
        put(put(w, x, y, Cell::Empty), x + dx, y, moving(this))
    } else if is_falling(this) && side2 is Empty && is_crushable(diag2) {
        put(put(w, x, y, Cell::Empty), x - dx, y, moving(this))
    } else {
        put(w, x, y, resting(this))
    }
}

/// Number of cells that one physics pass visits: all rows but the last.
pub open spec fn scan_len() -> nat {
    ((MY - 1) * MX) as nat
}

/// Column of the `k`-th visited cell: rows are visited left to right.
pub open spec fn scan_x(k: int) -> int {
    k % MX as int
}

/// Row of the `k`-th visited cell: from the second-to-last row upwards.
pub open spec fn scan_y(k: int) -> int {
    MY as int - 2 - k / MX as int
}

/// Index of the cell that the rock at `(x, y)` moves into under the rock
/// rule, if it moves: below it when it falls (or crushes an enemy there),
/// beside it when it rolls.
pub open spec fn rock_target(w: Seq<Cell>, x: int, y: int, dx: int) -> Option<int> {
    let this = cell_at(w, x, y);
    let bottom = cell_at(w, x, y + 1);
    let side1 = cell_at(w, x + dx, y);
    let diag1 = cell_at(w, x + dx, y + 1);
    let side2 = cell_at(w, x - dx, y);
    let diag2 = cell_at(w, x - dx, y + 1);
    if !is_rock(this) {
        None
    } else if is_falling(this) && is_crushable(bottom) {
        Some(index_of(x, y + 1))
    } else if !is_falling(this) && bottom is Empty {
        Some(index_of(x, y + 1))
    } else if is_falling(this) && side1 is Empty && is_crushable(diag1) {
        Some(index_of(x + dx, y))
    } else if is_falling(this) && side2 is Empty && is_crushable(diag2) {
        Some(index_of(x - dx, y))
    } else {
        None
    }
}

/// The world after the rock rule has been applied to the first `n` visited
/// cells, with the indices of the cells that rocks moved into on the way.
/// A cell that a rock moved into in this pass is not visited again, so each
/// rock takes one branch of the rule per pass.
pub open spec fn rocks_scan(w: Seq<Cell>, n: nat, dx: int) -> (Seq<Cell>, Set<int>)
    decreases n,
{
    if n == 0 {
        (w, Set::empty())
    } else {
        let k = n - 1;
        let prev = rocks_scan(w, k as nat, dx);
        let x = scan_x(k);
        let y = scan_y(k);
        if prev.1.contains(index_of(x, y)) {
            prev
        } else {
            (
                rock_step(prev.0, x, y, dx),
                match rock_target(prev.0, x, y, dx) {
                    Some(t) => prev.1.insert(t),
                    None => prev.1,
                },
            )
        }
    }
}

/// The world after one physics pass on tick `counter`. A rock that moved in
/// this pass is met again only on a later pass, even where it moved into a
/// cell that the scan has not reached yet.
pub open spec fn rocks_pass(w: Seq<Cell>, counter: u32) -> Seq<Cell> {
    rocks_scan(w, scan_len(), rock_dx(counter)).0
}

/// The rock rule on one cell never adds an occupied cell.
pub proof fn lemma_rock_step_occupied(w: Seq<Cell>, x: int, y: int, dx: int)
    requires
        w.len() == N_CELLS,
    ensures
        rock_step(w, x, y, dx).len() == N_CELLS,
        occupied_count(rock_step(w, x, y, dx)) <= occupied_count(w),
{
    let this = cell_at(w, x, y);
    if is_rock(this) {
        assert(in_bounds(x, y));
        let w1 = put(w, x, y, Cell::Empty);
        lemma_count_put(w, x, y, Cell::Empty);
        lemma_count_put(w, x, y, resting(this));
        assert(w1.len() == N_CELLS);
        lemma_count_put(w1, x, y + 1, Cell::Diamond(true));
        lemma_count_put(w1, x, y + 1, moving(this));
        lemma_count_put(w1, x + dx, y, moving(this));
        lemma_count_put(w1, x - dx, y, moving(this));
    }
}

/// The rock rule moves a rock in one step: where it moves, its cell is
/// emptied and the cell it moves into holds a rock; wherever it moves or not,
/// no other cell changes.
pub proof fn lemma_rock_step_moves(w: Seq<Cell>, x: int, y: int, dx: int)
    requires
        w.len() == N_CELLS,
        dx == 1 || dx == -1,
    ensures
        rock_step(w, x, y, dx).len() == N_CELLS,
        rock_target(w, x, y, dx) matches Some(t) ==> {
            &&& 0 <= t < N_CELLS
            &&& MX * y <= t
            &&& t != index_of(x, y)
            &&& rock_step(w, x, y, dx)[index_of(x, y)] is Empty
            &&& is_rock(rock_step(w, x, y, dx)[t])
        },
        forall|i: int|
            0 <= i < N_CELLS && i != index_of(x, y) && rock_target(w, x, y, dx) != Some(i) ==> (
            #[trigger] rock_step(w, x, y, dx)[i]) == w[i],
{
    let this = cell_at(w, x, y);
    if is_rock(this) {
        lemma_index_in_range(x, y);
        lemma_rock_step_occupied(w, x, y, dx);
        if in_bounds(x, y + 1) {
            lemma_index_in_range(x, y + 1);
        }
        if in_bounds(x + dx, y) {
            lemma_index_in_range(x + dx, y);
        }
        if in_bounds(x - dx, y) {
            lemma_index_in_range(x - dx, y);
        }
    }
}

proof fn lemma_scan_position(k: int)
    requires
        0 <= k,
    ensures
        k == MX * (MY - 2 - scan_y(k)) + scan_x(k),
        0 <= scan_x(k) < MX,
        k < scan_len() ==> 0 <= scan_y(k) < MY - 1,
{
    lemma_fundamental_div_mod(k, MX as int);
    lemma_mod_pos_bound(k, MX as int);
}

proof fn lemma_index_injective(x1: int, y1: int, x2: int, y2: int)
    requires
        in_bounds(x1, y1),
        in_bounds(x2, y2),
        index_of(x1, y1) == index_of(x2, y2),
    ensures
        x1 == x2,
        y1 == y2,
{
}

proof fn lemma_crush_scan(w: Seq<Cell>, n: nat, dx: int, x: int, y: int)
    requires
        w.len() == N_CELLS,
        dx == 1 || dx == -1,
        0 <= x < MX,
        0 <= y < MY - 1,
        is_falling(cell_at(w, x, y)),
        cell_at(w, x, y + 1) == Cell::Enemy,
        n <= scan_len(),
    ensures
        rocks_scan(w, n, dx).0.len() == N_CELLS,
        n <= MX * (MY - 2 - y) + x ==> {
            &&& rocks_scan(w, n, dx).0[index_of(x, y)] == w[index_of(x, y)]
            &&& rocks_scan(w, n, dx).0[index_of(x, y + 1)] == Cell::Enemy
            &&& !rocks_scan(w, n, dx).1.contains(index_of(x, y))
        },
        n > MX * (MY - 2 - y) + x ==> rocks_scan(w, n, dx).0[index_of(x, y + 1)] == Cell::Diamond(
            true,
        ),
    decreases n,
{
    lemma_index_in_range(x, y);
    lemma_index_in_range(x, y + 1);
    if n > 0 {
        let k = (n - 1) as nat;
        let k0 = MX * (MY - 2 - y) + x;
        lemma_crush_scan(w, k, dx, x, y);
        let prev = rocks_scan(w, k, dx);
        let sx = scan_x(k as int);
        let sy = scan_y(k as int);
        lemma_scan_position(k as int);
        lemma_index_in_range(sx, sy);
        lemma_index_in_range(sx, sy + 1);
        if !prev.1.contains(index_of(sx, sy)) {
            lemma_rock_step_moves(prev.0, sx, sy, dx);
            if k < k0 {
                if index_of(sx, sy) == index_of(x, y) {
                    lemma_index_injective(sx, sy, x, y);
                }
                if rock_target(prev.0, sx, sy, dx) == Some(index_of(x, y + 1)) && is_falling(
                    cell_at(prev.0, sx, sy),
                ) && is_crushable(cell_at(prev.0, sx, sy + 1)) {
                    lemma_index_injective(sx, sy + 1, x, y + 1);
                }
            } else if k == k0 {
                lemma_index_injective(sx, sy, x, y);
            } else {
                if index_of(sx, sy) == index_of(x, y + 1) {
                    lemma_index_injective(sx, sy, x, y + 1);
                }
            }
        }
    }
}

/// The rows `0..=y` of `v` agree with those of `w`, but at `(x, y)`.
spec fn same_above(v: Seq<Cell>, w: Seq<Cell>, x: int, y: int) -> bool {
    forall|i: int| 0 <= i < MX * (y + 1) && i != index_of(x, y) ==> #[trigger] v[i] == w[i]
}

#[verifier::rlimit(40)]
proof fn lemma_crush_scan_origin(w: Seq<Cell>, n: nat, dx: int, x: int, y: int)
    requires
        w.len() == N_CELLS,
        dx == 1 || dx == -1,
        0 <= x < MX,
        0 <= y < MY - 1,
        is_falling(cell_at(w, x, y)),
        cell_at(w, x, y + 1) == Cell::Enemy,
        forall|i: int|
            0 <= i < MX * (y + 1) && i != index_of(x, y) ==> !is_rock(#[trigger] w[i]),
        n <= scan_len(),
    ensures
        same_above(rocks_scan(w, n, dx).0, w, x, y),
        n > MX * (MY - 2 - y) + x ==> rocks_scan(w, n, dx).0[index_of(x, y)] is Empty,
    decreases n,
{
    lemma_index_in_range(x, y);
    lemma_index_in_range(x, y + 1);
    if n > 0 {
        let k = (n - 1) as nat;
        let k0 = MX * (MY - 2 - y) + x;
        lemma_crush_scan_origin(w, k, dx, x, y);
        lemma_crush_scan(w, k, dx, x, y);
        let prev = rocks_scan(w, k, dx);
        let next = rocks_scan(w, n, dx);
        let sx = scan_x(k as int);
        let sy = scan_y(k as int);
        let o = index_of(sx, sy);
        lemma_scan_position(k as int);
        lemma_index_in_range(sx, sy);
        if !prev.1.contains(o) {
            assert(next.0 == rock_step(prev.0, sx, sy, dx));
            lemma_rock_step_moves(prev.0, sx, sy, dx);
            if k == k0 {
                lemma_index_injective(sx, sy, x, y);
                assert(next.0 == put(put(prev.0, x, y, Cell::Empty), x, y + 1, Cell::Diamond(true)));
                assert(same_above(next.0, w, x, y));
            } else if o < MX * (y + 1) {
                // the visited cell lies in the rows checked: it holds no rock
                if o != index_of(x, y) {
                    assert(prev.0[o] == w[o]);
                } else {
                    lemma_index_injective(sx, sy, x, y);
                }
                assert(!is_rock(cell_at(prev.0, sx, sy)));
                assert(next.0 == prev.0);
            } else {
                // a rock below those rows moves within or below its own row
                assert(sy > y);
                assert forall|i: int|
                    0 <= i < MX * (y + 1) && i != index_of(x, y) implies #[trigger] next.0[i]
                    == w[i] by {
                    assert(i != o);
                    assert(rock_target(prev.0, sx, sy, dx) != Some(i));
                    assert(prev.0[i] == w[i]);
                }
            }
        }
    }
}

/// With no other rock in the rows from the top down to the crushing rock's
/// own, that rock's cell is empty after the pass: the rock is used up.
pub proof fn lemma_crushing_rock_is_used_up(w: Seq<Cell>, counter: u32, x: int, y: int)
    requires
        w.len() == N_CELLS,
        0 <= x < MX,
        0 <= y < MY - 1,
        is_falling(cell_at(w, x, y)),
        cell_at(w, x, y + 1) == Cell::Enemy,
        forall|i: int, j: int|
            0 <= i < MX && 0 <= j <= y && (i, j) != (x, y) ==> !is_rock(
                #[trigger] cell_at(w, i, j),
            ),
    ensures
        cell_at(rocks_pass(w, counter), x, y) is Empty,
{
    assert forall|i: int| 0 <= i < MX * (y + 1) && i != index_of(x, y) implies !is_rock(
        #[trigger] w[i],
    ) by {
        lemma_scan_position(i);
        let ci = i % MX as int;
        let cj = i / MX as int;
        lemma_fundamental_div_mod(i, MX as int);
        lemma_mod_pos_bound(i, MX as int);
        assert(index_of(ci, cj) == i);
        assert(!is_rock(cell_at(w, ci, cj)));
    }
    lemma_crush_scan_origin(w, scan_len(), rock_dx(counter), x, y);
}

/// A falling rock directly above an enemy crushes it: after the pass the
/// enemy's cell holds a falling diamond.
pub proof fn lemma_crushed_enemy_becomes_diamond(w: Seq<Cell>, counter: u32, x: int, y: int)
    requires
        w.len() == N_CELLS,
        0 <= x < MX,
        0 <= y < MY - 1,
        is_falling(cell_at(w, x, y)),
        cell_at(w, x, y + 1) == Cell::Enemy,
    ensures
        cell_at(rocks_pass(w, counter), x, y + 1) == Cell::Diamond(true),
{
    lemma_crush_scan(w, scan_len(), rock_dx(counter), x, y);
}

proof fn lemma_lone_rock_scan(w: Seq<Cell>, n: nat, dx: int, x: int, y: int)
    requires
        w.len() == N_CELLS,
        dx == 1 || dx == -1,
        0 <= x < MX,
        0 <= y < MY - 1,
        is_rock(cell_at(w, x, y)),
        cell_at(w, x, y + 1) is Empty,
        forall|i: int| 0 <= i < N_CELLS && i != index_of(x, y) ==> !is_rock(#[trigger] w[i]),
        n <= scan_len(),
    ensures
        n <= MX * (MY - 2 - y) + x ==> rocks_scan(w, n, dx).0 == w && rocks_scan(
            w,
            n,
            dx,
        ).1 == Set::<int>::empty(),
        n > MX * (MY - 2 - y) + x ==> rocks_scan(w, n, dx).0 == put(
            put(w, x, y, Cell::Empty),
            x,
            y + 1,
            moving(cell_at(w, x, y)),
        ),
    decreases n,
{
    lemma_index_in_range(x, y);
    lemma_index_in_range(x, y + 1);
    if n > 0 {
        let k = (n - 1) as nat;
        let k0 = MX * (MY - 2 - y) + x;
        lemma_lone_rock_scan(w, k, dx, x, y);
        let prev = rocks_scan(w, k, dx);
        let sx = scan_x(k as int);
        let sy = scan_y(k as int);
        let o = index_of(sx, sy);
        lemma_scan_position(k as int);
        lemma_index_in_range(sx, sy);
        if k == k0 {
            lemma_index_injective(sx, sy, x, y);
            assert(!prev.1.contains(o));
        } else if k < k0 {
            if o == index_of(x, y) {
                lemma_index_injective(sx, sy, x, y);
            }
            assert(!is_rock(cell_at(prev.0, sx, sy)));
        } else {
            // the rock now lies below every cell still to be visited
            assert(sy <= y);
            if o == index_of(x, y + 1) {
                lemma_index_injective(sx, sy, x, y + 1);
            }
            assert(!is_rock(cell_at(prev.0, sx, sy)));
        }
    }
}

/// A lone rock with an empty cell below moves one cell down in a pass: its
/// cell is emptied, the cell below holds it, falling, and nothing else changes.
pub proof fn lemma_lone_rock_falls_one_cell(w: Seq<Cell>, counter: u32, x: int, y: int)
    requires
        w.len() == N_CELLS,
        0 <= x < MX,
        0 <= y < MY - 1,
        is_rock(cell_at(w, x, y)),
        cell_at(w, x, y + 1) is Empty,
        forall|i: int, j: int|
            0 <= i < MX && 0 <= j < MY && (i, j) != (x, y) ==> !is_rock(
                #[trigger] cell_at(w, i, j),
            ),
    ensures
        rocks_pass(w, counter) == put(
            put(w, x, y, Cell::Empty),
            x,
            y + 1,
            moving(cell_at(w, x, y)),
        ),
{
    assert forall|i: int| 0 <= i < N_CELLS && i != index_of(x, y) implies !is_rock(
        #[trigger] w[i],
    ) by {
        let ci = i % MX as int;
        let cj = i / MX as int;
        lemma_fundamental_div_mod(i, MX as int);
        lemma_mod_pos_bound(i, MX as int);
        assert(index_of(ci, cj) == i);
        assert(!is_rock(cell_at(w, ci, cj)));
    }
    lemma_lone_rock_scan(w, scan_len(), rock_dx(counter), x, y);
}

/// A physics pass moves or crushes cells and never duplicates one: the
/// number of non-empty cells does not grow.
pub proof fn lemma_physics_never_adds(w: Seq<Cell>, counter: u32)
    requires
        w.len() == N_CELLS,
    ensures
        rocks_pass(w, counter).len() == N_CELLS,
        occupied_count(rocks_pass(w, counter)) <= occupied_count(w),
{
    lemma_scan_never_adds(w, scan_len(), rock_dx(counter));
}

proof fn lemma_scan_never_adds(w: Seq<Cell>, n: nat, dx: int)
    requires
        w.len() == N_CELLS,
    ensures
        rocks_scan(w, n, dx).0.len() == N_CELLS,
        occupied_count(rocks_scan(w, n, dx).0) <= occupied_count(w),
    decreases n,
{
    if n > 0 {
        let k = (n - 1) as nat;
        lemma_scan_never_adds(w, k, dx);
        lemma_rock_step_occupied(rocks_scan(w, k, dx).0, scan_x(k as int), scan_y(k as int), dx);
    }
}

/// Row-major index of an in-bounds position.
fn cell_index(x: isize, y: isize) -> (r: usize)
    requires
        in_bounds(x as int, y as int),
    ensures
        r == index_of(x as int, y as int),
        r < N_CELLS,
{
    proof {
        lemma_index_in_range(x as int, y as int);
    }
    (y as usize) * MX + (x as usize)
}

impl Game {
    /// One physics pass: every rock of every row but the last, from the
    /// bottom up and left to right, falls, rolls or comes to rest.
    pub fn update_rocks(&mut self)
        requires
            old(self).wf(),
        ensures
            final(self).wf(),
            final(self).world@ == rocks_pass(old(self).world@, old(self).counter),
            final(self).diamonds == old(self).diamonds,
            final(self).initial_world@ == old(self).initial_world@,
            final(self).initial_diamonds == old(self).initial_diamonds,
            final(self).scene == old(self).scene,
            final(self).level == old(self).level,
            final(self).counter == old(self).counter,
            final(self).current_input == old(self).current_input,
    {
        let dx: isize = if self.counter % 2 == 0 {
            1
        } else {
            -1
        };
        let n: usize = (MY - 1) * MX;
        // cells that a rock moved into during this pass
        let mut moved: Vec<bool> = Vec::new();
        let mut i: usize = 0;
        while i < N_CELLS
            invariant
                i <= N_CELLS,
                moved@.len() == i,
                forall|j: int| 0 <= j < i ==> !#[trigger] moved@[j],
            decreases N_CELLS - i,
        {
            moved.push(false);
            i = i + 1;
        }
        let mut k: usize = 0;
        while k < n
            invariant
                n == scan_len(),
                k <= n,
                dx == rock_dx(old(self).counter),
                self.wf(),
                self.world@ == rocks_scan(old(self).world@, k as nat, dx as int).0,
                moved@.len() == N_CELLS,
                forall|j: int|
                    0 <= j < N_CELLS ==> #[trigger] moved@[j] == rocks_scan(
                        old(self).world@,
                        k as nat,
                        dx as int,
                    ).1.contains(j),
                forall|j: int|
                    #[trigger] rocks_scan(old(self).world@, k as nat, dx as int).1.contains(j)
                        ==> 0 <= j < N_CELLS,
                self.diamonds == old(self).diamonds,
                self.initial_world@ == old(self).initial_world@,
                self.initial_diamonds == old(self).initial_diamonds,
                self.scene == old(self).scene,
                self.level == old(self).level,
                self.counter == old(self).counter,
                self.current_input == old(self).current_input,
            decreases n - k,
        {
            let x: isize = (k % MX) as isize;
            let y: isize = (MY - 2 - k / MX) as isize;
            assert(x == scan_x(k as int) && y == scan_y(k as int));
            let here = cell_index(x, y);
            if !moved[here] {
                let target = self.step_rock(x, y, dx);
                if let Some(t) = target {
                    moved.set(t, true);
                }
            }
            k = k + 1;
            assert(moved@.len() == N_CELLS);
        }
    }

    /// Applies the rock rule to the cell at `(x, y)`.
    fn step_rock(&mut self, x: isize, y: isize, dx: isize) -> (r: Option<usize>)
        requires
            old(self).wf(),
            0 <= x < MX,
            0 <= y < MY - 1,
            dx == 1 || dx == -1,
        ensures
            final(self).wf(),
            final(self).world@ == rock_step(old(self).world@, x as int, y as int, dx as int),
            r is None <==> rock_target(old(self).world@, x as int, y as int, dx as int) is None,
            r matches Some(t) ==> t < N_CELLS && rock_target(
                old(self).world@,
                x as int,
                y as int,
                dx as int,
            ) == Some(t as int),
            final(self).diamonds == old(self).diamonds,
            final(self).initial_world@ == old(self).initial_world@,
            final(self).initial_diamonds == old(self).initial_diamonds,
            final(self).scene == old(self).scene,
            final(self).level == old(self).level,
            final(self).counter == old(self).counter,
            final(self).current_input == old(self).current_input,
    {
        let this = self.get(x, y);
        if !Cell::rock(this) {
            return None;
        }
        let bottom = self.get(x, y + 1);
        let side1 = self.get(x + dx, y);
        let diag1 = self.get(x + dx, y + 1);
        let side2 = self.get(x - dx, y);
        let diag2 = self.get(x - dx, y + 1);
        let moved = match this {
            Cell::Boulder(_) => Cell::Boulder(true),
            _ => Cell::Diamond(true),
        };
        let falling = Cell::falling(this);
        if falling && Cell::crushable(bottom) {
            // fall, crushing what is below
            self.set(x, y, Cell::Empty);
            match bottom {
                Cell::Enemy => self.set(x, y + 1, Cell::Diamond(true)),
                _ => self.set(x, y + 1, moved),
            }
            Some(cell_index(x, y + 1))
        } else if !falling && Cell::empty(bottom) {
            // start falling
            self.set(x, y, Cell::Empty);
            self.set(x, y + 1, moved);
            Some(cell_index(x, y + 1))
        } else if falling && Cell::empty(side1) && Cell::crushable(diag1) {
            // roll to the first side
            self.set(x, y, Cell::Empty);
            self.set(x + dx, y, moved);
            Some(cell_index(x + dx, y))
        } else if falling && Cell::empty(side2) && Cell::crushable(diag2) {
            // roll to the second side
            self.set(x, y, Cell::Empty);
            self.set(x - dx, y, moved);
            Some(cell_index(x - dx, y))
        } else {
            // stop
            let rested = match this {
                Cell::Boulder(_) => Cell::Boulder(false),
                _ => Cell::Diamond(false),
            };
            self.set(x, y, rested);
            None
        }
    }
}

} // verus!
