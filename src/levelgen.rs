use vstd::prelude::*;
use rand::Rng;
use rand::rngs::SmallRng;
use crate::cell::Cell;
use crate::grid::N_CELLS;
use crate::player::at_most_one_player;

verus! {

#[verifier::external_type_specification]
#[verifier::external_body]
pub struct ExSmallRng(rand::rngs::SmallRng);

/// Relies on rand's `Rng::gen_range`: a value of the half-open range `0..100`.
#[verifier::external_body]
fn draw_percent(rng: &mut SmallRng) -> (r: u32)
    ensures
        r < 100,
{
    rng.gen_range(0..100u32)
}

/// Relies on rand's `Rng::gen` for `u8`: any byte.
#[verifier::external_body]
fn draw_byte(rng: &mut SmallRng) -> (r: u8) {
    rng.gen::<u8>()
}

/// Positions past this index may hold an enemy instead of a diamond.
pub const MIDPOINT: usize = 252;

/// The cell placed at index `i` for a draw `d` out of a hundred:
/// 75% soil, 15% boulder, 5% metal, 3% diamond, and 2% for an enemy past
/// the midpoint or a diamond before it.
pub open spec fn placed(d: u32, i: int) -> Cell {
    if d < 75 {
        Cell::Soil
    } else if d < 90 {
        Cell::Boulder(false)
    } else if d < 95 {
        Cell::Metal
    } else if d < 98 {
        Cell::Diamond(false)
    } else if i > MIDPOINT as int {
        Cell::Enemy
    } else {
        Cell::Diamond(false)
    }
}

/// Draws that place a diamond or an enemy.
pub open spec fn counts_diamond(d: u32) -> bool {
    d >= 95
}

/// How many of the first `n` draws place a diamond or an enemy.
pub open spec fn diamond_draws(d: Seq<u32>, n: nat) -> nat
    decreases n,
{
    if n == 0 {
        0
    } else {
        diamond_draws(d, (n - 1) as nat) + if counts_diamond(d[n - 1]) {
            1nat
        } else {
            0nat
        }
    }
}

/// The world built from one draw per cell, with the player at index `p`.
pub open spec fn generated_world(d: Seq<u32>, p: u8) -> Seq<Cell> {
    Seq::new(
        N_CELLS as nat,
        |i: int|
            if i == p as int {
                Cell::Player
            } else {
                placed(d[i], i)
            },
    )
}

/// The diamond count of that world: one per diamond or enemy placed, less
/// one where the player took the place of either.
pub open spec fn generated_diamonds(d: Seq<u32>, p: u8) -> int {
    diamond_draws(d, N_CELLS as nat) - if counts_diamond(d[p as int]) {
        1int
    } else {
        0int
    }
}

/// `w` and `diamonds` are what the generator makes of some draws.
pub open spec fn is_generated(w: Seq<Cell>, diamonds: int) -> bool {
    exists|d: Seq<u32>, p: u8|
        d.len() == N_CELLS && (forall|i: int| 0 <= i < d.len() ==> #[trigger] d[i] < 100) && w
            == #[trigger] generated_world(d, p) && diamonds == generated_diamonds(d, p)
}

proof fn lemma_diamond_draws_bounds(d: Seq<u32>, n: nat, p: nat)
    ensures
        diamond_draws(d, n) <= n,
        p < n && counts_diamond(d[p as int]) ==> diamond_draws(d, n) >= 1,
    decreases n,
{
    if n > 0 {
        lemma_diamond_draws_bounds(d, (n - 1) as nat, p);
    }
}

/// Builds a level from one draw per cell and one byte for the player's
/// place. The byte is used as the index itself, so the player always starts
/// in the first 256 cells.
pub fn world_from_draws(draws: &Vec<u32>, player: u8) -> (r: (Vec<Cell>, usize))
    requires
        draws@.len() == N_CELLS,
    ensures
        r.0@ == generated_world(draws@, player),
        r.1 == generated_diamonds(draws@, player),
{
    let mut world: Vec<Cell> = Vec::new();
    let mut diamonds: usize = 0;
    let mut i: usize = 0;
    while i < N_CELLS
        invariant
            draws@.len() == N_CELLS,
            i <= N_CELLS,
            world@.len() == i,
            forall|j: int| 0 <= j < i ==> #[trigger] world@[j] == placed(draws@[j], j),
            diamonds == diamond_draws(draws@, i as nat),
        decreases N_CELLS - i,
    {
        proof {
            lemma_diamond_draws_bounds(draws@, i as nat, 0);
        }
        let number = draws[i];
        if number < 75 {
            world.push(Cell::Soil);
        } else if number < 90 {
            world.push(Cell::Boulder(false));
        } else if number < 95 {
            world.push(Cell::Metal);
        } else if number < 98 {
            world.push(Cell::Diamond(false));
            diamonds = diamonds + 1;
        } else {
            if i > MIDPOINT {
                world.push(Cell::Enemy);
            } else {
                world.push(Cell::Diamond(false));
            }
            diamonds = diamonds + 1;
        }
        i = i + 1;
    }
    let p = player as usize;
    match world[p] {
        Cell::Diamond(_) | Cell::Enemy => {
            proof {
                lemma_diamond_draws_bounds(draws@, N_CELLS as nat, p as nat);
            }
            diamonds = diamonds - 1;
        },
        _ => {},
    }
    world.set(p, Cell::Player);
    assert(world@ =~= generated_world(draws@, player));
    (world, diamonds)
}

/// Generates a fresh level from the random source: one draw per cell, then
/// one byte for the player's place.
pub fn new_world(rng: &mut SmallRng) -> (r: (Vec<Cell>, usize))
    ensures
        r.0@.len() == N_CELLS,
        is_generated(r.0@, r.1 as int),
{
    let mut draws: Vec<u32> = Vec::new();
    let mut i: usize = 0;
    while i < N_CELLS
        invariant
            i <= N_CELLS,
            draws@.len() == i,
            forall|j: int| 0 <= j < i ==> #[trigger] draws@[j] < 100,
        decreases N_CELLS - i,
    {
        let d = draw_percent(rng);
        draws.push(d);
        i = i + 1;
    }
    let player = draw_byte(rng);
    let r = world_from_draws(&draws, player);
    assert(r.0@ == generated_world(draws@, player));
    r
}

/// A generated world holds exactly one player, at the drawn byte, which is
/// always one of the first 256 cells.
pub proof fn lemma_generated_one_player(d: Seq<u32>, p: u8)
    requires
        d.len() == N_CELLS,
    ensures
        generated_world(d, p)[p as int] is Player,
        (p as int) < 256,
        at_most_one_player(generated_world(d, p)),
{
}

/// Generation depends on the draws alone: the same draws and the same
/// byte give the same world and the same diamond count.
pub proof fn lemma_generation_deterministic(d1: Seq<u32>, p1: u8, d2: Seq<u32>, p2: u8)
    requires
        d1.len() == N_CELLS,
        d1 == d2,
        p1 == p2,
    ensures
        generated_world(d1, p1) == generated_world(d2, p2),
        generated_diamonds(d1, p1) == generated_diamonds(d2, p2),
{
}

} // verus!
