use vstd::prelude::*;
use crate::cell::Cell;
use crate::grid::{MX, N_CELLS, in_bounds, index_of, cell_at, put, lemma_index_in_range};
use crate::game::{Game, PlayerInput, Scene};

verus! {

/// Index of the first `Player` cell at or after `i`, in row-major order.
pub open spec fn first_player(w: Seq<Cell>, i: nat) -> Option<int>
    decreases w.len() - i,
{
    if i >= w.len() {
        None
    } else if w[i as int] is Player {
        Some(i as int)
    } else {
        first_player(w, i + 1)
    }
}

/// Where the player is, if there is one.
pub open spec fn player_index(w: Seq<Cell>) -> Option<int> {
    first_player(w, 0)
}

pub open spec fn delta_x(input: PlayerInput) -> int {
    match input {
        PlayerInput::Left => -1,
        PlayerInput::Right => 1,
        _ => 0,
    }
}

pub open spec fn delta_y(input: PlayerInput) -> int {
    match input {
        PlayerInput::Up => -1,
        PlayerInput::Down => 1,
        _ => 0,
    }
}

/// Whether the player may step onto `next`, with `beyond` the cell after it.
pub open spec fn may_move(next: Cell, beyond: Cell, input: PlayerInput) -> bool {
    !(next is Player || next is Metal || (next is Boulder && (input is Down || input is Up)) || (
    next == Cell::Diamond(true) && input is Up) || (next is Boulder && (input is Left
        || input is Right) && !(beyond is Empty)))
}

/// The cell the player at index `p` steps towards.
pub open spec fn target(w: Seq<Cell>, p: int, input: PlayerInput) -> Cell {
    cell_at(w, p % MX as int + delta_x(input), p / MX as int + delta_y(input))
}

/// The cell after that one, where a pushed boulder goes.
pub open spec fn beyond(w: Seq<Cell>, p: int, input: PlayerInput) -> Cell {
    cell_at(w, p % MX as int + 2 * delta_x(input), p / MX as int + 2 * delta_y(input))
}

pub open spec fn moves(w: Seq<Cell>, p: int, input: PlayerInput) -> bool {
    may_move(target(w, p, input), beyond(w, p, input), input)
}

/// The world after the player at index `p` has moved: the origin is
/// emptied, a pushed boulder lands beyond, and the player stands on the target.
pub open spec fn moved_world(w: Seq<Cell>, p: int, input: PlayerInput) -> Seq<Cell> {
    let x = p % MX as int;
    let y = p / MX as int;
    let dx = delta_x(input);
    let dy = delta_y(input);
    let w1 = put(w, x, y, Cell::Empty);
    let w2 = if target(w, p, input) is Boulder {
        put(w1, x + 2 * dx, y + 2 * dy, Cell::Boulder(true))
    } else {
        w1
    };
    put(w2, x + dx, y + dy, Cell::Player)
}

/// Whether this pass moves the player, and onto what.
pub open spec fn steps_onto(w: Seq<Cell>, input: PlayerInput) -> Option<Cell> {
    match player_index(w) {
        None => None,
        Some(p) => if moves(w, p, input) {
            Some(target(w, p, input))
        } else {
            None
        },
    }
}

/// The world after a player pass.
pub open spec fn player_pass_world(w: Seq<Cell>, input: PlayerInput) -> Seq<Cell> {
    match player_index(w) {
        None => w,
        Some(p) => if moves(w, p, input) {
            moved_world(w, p, input)
        } else {
            w
        },
    }
}

/// The diamonds left after a player pass: one fewer for a diamond collected.
pub open spec fn player_pass_diamonds(w: Seq<Cell>, input: PlayerInput, d: usize) -> usize {
    match steps_onto(w, input) {
        Some(Cell::Diamond(_)) => if d > 0 {
            (d - 1) as usize
        } else {
            0
        },
        _ => d,
    }
}

/// The scene after a player pass: game over when the player is gone or walks
/// into an enemy, level up when the last diamond is collected.
pub open spec fn player_pass_scene(
    w: Seq<Cell>,
    input: PlayerInput,
    d: usize,
    scene: Scene,
) -> Scene {
    if player_index(w) is None {
        Scene::GameoverScene
    } else {
        match steps_onto(w, input) {
            Some(Cell::Enemy) => Scene::GameoverScene,
            Some(Cell::Diamond(_)) => if player_pass_diamonds(w, input, d) == 0 {
                Scene::LevelupScene
            } else {
                scene
            },
            _ => scene,
        }
    }
}

/// Whether a player pass changes the scene, which restarts the tick counter.
pub open spec fn player_pass_resets(w: Seq<Cell>, input: PlayerInput, d: usize) -> bool {
    player_index(w) is None || steps_onto(w, input) == Some(Cell::Enemy) || (steps_onto(
        w,
        input,
    ) is Some && steps_onto(w, input)->0 is Diamond && player_pass_diamonds(w, input, d) == 0)
}

/// The pending input after a player pass: consumed, unless there was no player.
pub open spec fn player_pass_input(w: Seq<Cell>, input: PlayerInput) -> PlayerInput {
    if player_index(w) is None {
        input
    } else {
        PlayerInput::Idle
    }
}

proof fn lemma_first_player_step(w: Seq<Cell>, i: nat)
    requires
        i < w.len(),
        !(w[i as int] is Player),
    ensures
        first_player(w, i) == first_player(w, i + 1),
{
}

/// No two positions hold a `Player`.
pub open spec fn at_most_one_player(w: Seq<Cell>) -> bool {
    forall|i: int, j: int|
        0 <= i < w.len() && 0 <= j < w.len() && #[trigger] w[i] is Player
            && #[trigger] w[j] is Player ==> i == j
}

proof fn lemma_first_player_found(w: Seq<Cell>, i: nat)
    ensures
        first_player(w, i) matches Some(q) ==> i <= q < w.len() && w[q] is Player,
    decreases w.len() - i,
{
    if i < w.len() && !(w[i as int] is Player) {
        lemma_first_player_found(w, i + 1);
    }
}

/// A player pass never makes a second player: with at most one `Player`
/// before it, there is at most one after it.
pub proof fn lemma_player_pass_keeps_one(w: Seq<Cell>, input: PlayerInput)
    requires
        w.len() == N_CELLS,
        at_most_one_player(w),
    ensures
        player_pass_world(w, input).len() == N_CELLS,
        at_most_one_player(player_pass_world(w, input)),
{
    lemma_first_player_found(w, 0);
    if let Some(p) = player_index(w) {
        if moves(w, p, input) {
            let x = p % MX as int;
            let y = p / MX as int;
            let dx = delta_x(input);
            let dy = delta_y(input);
            assert(index_of(x, y) == p);
            assert(in_bounds(x, y));
            let w1 = put(w, x, y, Cell::Empty);
            assert(w1 == w.update(p, Cell::Empty));
            assert(forall|i: int| 0 <= i < w1.len() ==> !(#[trigger] w1[i] is Player));
            let w2 = if target(w, p, input) is Boulder {
                put(w1, x + 2 * dx, y + 2 * dy, Cell::Boulder(true))
            } else {
                w1
            };
            if in_bounds(x + 2 * dx, y + 2 * dy) {
                lemma_index_in_range(x + 2 * dx, y + 2 * dy);
            }
            assert(w2.len() == N_CELLS);
            assert(forall|i: int| 0 <= i < w2.len() ==> !(#[trigger] w2[i] is Player));
            if in_bounds(x + dx, y + dy) {
                lemma_index_in_range(x + dx, y + dy);
            }
            let w3 = put(w2, x + dx, y + dy, Cell::Player);
            assert(w3 == moved_world(w, p, input));
            assert(at_most_one_player(w3));
        }
    }
}

/// Number of `Player` cells.
pub open spec fn player_count(w: Seq<Cell>) -> nat
    decreases w.len(),
{
    if w.len() == 0 {
        0
    } else {
        player_count(w.drop_last()) + if w.last() is Player {
            1nat
        } else {
            0nat
        }
    }
}

pub open spec fn is_player(c: Cell) -> int {
    if c is Player {
        1
    } else {
        0
    }
}

proof fn lemma_player_count_update(w: Seq<Cell>, i: int, c: Cell)
    requires
        0 <= i < w.len(),
    ensures
        player_count(w.update(i, c)) == player_count(w) - is_player(w[i]) + is_player(c),
    decreases w.len(),
{
    let u = w.update(i, c);
    if i == w.len() - 1 {
        assert(u.drop_last() =~= w.drop_last());
    } else {
        lemma_player_count_update(w.drop_last(), i, c);
        assert(u.drop_last() =~= w.drop_last().update(i, c));
    }
}

proof fn lemma_player_count_put(w: Seq<Cell>, x: int, y: int, c: Cell)
    requires
        w.len() == N_CELLS,
    ensures
        put(w, x, y, c).len() == N_CELLS,
        in_bounds(x, y) ==> player_count(put(w, x, y, c)) == player_count(w) - is_player(
            cell_at(w, x, y),
        ) + is_player(c),
        !in_bounds(x, y) ==> put(w, x, y, c) == w,
{
    if in_bounds(x, y) {
        lemma_index_in_range(x, y);
        lemma_player_count_update(w, index_of(x, y), c);
    }
}

/// A player pass keeps the number of players: with at most one `Player`
/// before it, there are as many after it as before.
pub proof fn lemma_player_pass_keeps_count(w: Seq<Cell>, input: PlayerInput)
    requires
        w.len() == N_CELLS,
        player_count(w) <= 1,
    ensures
        player_count(player_pass_world(w, input)) == player_count(w),
{
    lemma_first_player_found(w, 0);
    if let Some(p) = player_index(w) {
        if moves(w, p, input) {
            let x = p % MX as int;
            let y = p / MX as int;
            let dx = delta_x(input);
            let dy = delta_y(input);
            assert(index_of(x, y) == p);
            assert(in_bounds(x, y));
            let w1 = put(w, x, y, Cell::Empty);
            lemma_player_count_put(w, x, y, Cell::Empty);
            assert(player_count(w1) == player_count(w) - 1);
            assert(player_count(w) == 1);
            let bx = x + 2 * dx;
            let by = y + 2 * dy;
            let w2 = if target(w, p, input) is Boulder {
                put(w1, bx, by, Cell::Boulder(true))
            } else {
                w1
            };
            lemma_player_count_put(w1, bx, by, Cell::Boulder(true));
            if in_bounds(bx, by) {
                lemma_index_in_range(bx, by);
                lemma_player_count_update(w1, index_of(bx, by), Cell::Empty);
            }
            assert(player_count(w2) == 0);
            assert(w2.len() == N_CELLS);
            lemma_player_count_put(w2, x + dx, y + dy, Cell::Player);
            if in_bounds(x + dx, y + dy) {
                lemma_index_in_range(x + dx, y + dy);
                lemma_player_count_update(w2, index_of(x + dx, y + dy), Cell::Empty);
            }
            assert(moved_world(w, p, input) == put(w2, x + dx, y + dy, Cell::Player));
        }
    }
}

impl Game {
    /// Index of the first `Player` cell, if any.
    fn find_player(&self) -> (r: Option<usize>)
        requires
            self.wf(),
        ensures
            r matches Some(p) ==> player_index(self.world@) == Some(p as int) && p < N_CELLS,
            r is None ==> player_index(self.world@) is None,
    {
        let mut i: usize = 0;
        while i < N_CELLS
            invariant
                self.wf(),
                i <= N_CELLS,
                player_index(self.world@) == first_player(self.world@, i as nat),
            decreases N_CELLS - i,
        {
            match self.world[i] {
                Cell::Player => {
                    return Some(i);
                },
                _ => {
                    proof {
                        lemma_first_player_step(self.world@, i as nat);
                    }
                },
            }
            i = i + 1;
        }
        None
    }

    /// One player pass: the pending input moves the player if the target
    /// allows it, pushing a boulder, collecting a diamond or dying to an
    /// enemy; a missing player ends the game.
    pub fn update_player(&mut self)
        requires
            old(self).wf(),
        ensures
            final(self).wf(),
            final(self).world@ == player_pass_world(old(self).world@, old(self).current_input),
            final(self).diamonds == player_pass_diamonds(
                old(self).world@,
                old(self).current_input,
                old(self).diamonds,
            ),
            final(self).scene == player_pass_scene(
                old(self).world@,
                old(self).current_input,
                old(self).diamonds,
                old(self).scene,
            ),
            final(self).counter == if player_pass_resets(
                old(self).world@,
                old(self).current_input,
                old(self).diamonds,
            ) {
                0
            } else {
                old(self).counter
            },
            final(self).current_input == player_pass_input(
                old(self).world@,
                old(self).current_input,
            ),
            final(self).initial_world@ == old(self).initial_world@,
            final(self).initial_diamonds == old(self).initial_diamonds,
            final(self).level == old(self).level,
    {
        let pos = self.find_player();
        let p = match pos {
            Some(p) => p,
            None => {
                self.scene = Scene::GameoverScene;
                self.counter = 0;
                return ;
            },
        };
        let x: isize = (p % MX) as isize;
        let y: isize = (p / MX) as isize;
        let input = self.current_input;
        let (dx, dy): (isize, isize) = match input {
            PlayerInput::Up => (0, -1),
            PlayerInput::Down => (0, 1),
            PlayerInput::Left => (-1, 0),
            PlayerInput::Right => (1, 0),
            PlayerInput::Idle => (0, 0),
        };
        let next = self.get(x + dx, y + dy);
        let next_of_next = self.get(x + dx + dx, y + dy + dy);
        let can_move = match (next, input) {
            (Cell::Player, _) | (Cell::Metal, _) => false,
            (Cell::Boulder(_), PlayerInput::Down) => false,
            (Cell::Boulder(_), PlayerInput::Up) | (Cell::Diamond(true), PlayerInput::Up) => false,
            (Cell::Boulder(_), PlayerInput::Right) | (Cell::Boulder(_), PlayerInput::Left) => {
                Cell::empty(next_of_next)
            },
            _ => true,
        };
        assert(can_move == moves(old(self).world@, p as int, input));
        if can_move {
            self.set(x, y, Cell::Empty);
            match next {
                Cell::Enemy => {
                    self.scene = Scene::GameoverScene;
                    self.counter = 0;
                },
                Cell::Diamond(_) => {
                    if self.diamonds > 0 {
                        self.diamonds = self.diamonds - 1;
                    }
                    if self.diamonds == 0 {
                        self.scene = Scene::LevelupScene;
                        self.counter = 0;
                    }
                },
                Cell::Boulder(_) => {
                    self.set(x + dx + dx, y + dy + dy, Cell::Boulder(true));
                },
                _ => {},
            }
            self.set(x + dx, y + dy, Cell::Player);
        }
        self.current_input = PlayerInput::Idle;
    }
}

} // verus!
