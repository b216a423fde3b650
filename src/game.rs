use vstd::prelude::*;
use crate::cell::Cell;
use crate::grid::{MX, MY, N_CELLS, in_bounds, cell_at, put, lemma_index_in_range};

verus! {

/// The movement asked for in the next tick.
#[derive(Copy, Clone, Debug, PartialEq, Eq, Structural)]
pub enum PlayerInput {
    Idle,
    Up,
    Down,
    Left,
    Right,
}

/// The coarse mode of the game.
#[derive(Copy, Clone, Debug, PartialEq, Eq, Structural)]
pub enum Scene {
    LevelScene,
    TitleScene,
    GameoverScene,
    LevelupScene,
}

/// The whole game state: the live world, the level's starting snapshot,
/// the diamond counters, the scene, the level, the tick counter and the
/// pending input.
pub struct Game {
    pub world: Vec<Cell>,
    pub diamonds: usize,
    pub initial_world: Vec<Cell>,
    pub initial_diamonds: usize,
    pub scene: Scene,
    pub level: usize,
    pub counter: u32,
    pub current_input: PlayerInput,
}

impl Game {
    /// Both worlds hold one cell per position of the playfield.
    pub open spec fn wf(&self) -> bool {
        self.world@.len() == N_CELLS && self.initial_world@.len() == N_CELLS
    }

    /// The stored cell at `(x, y)`, or `Metal` outside the playfield.
    pub fn get(&self, x: isize, y: isize) -> (r: Cell)
        requires
            self.wf(),
        ensures
            r == cell_at(self.world@, x as int, y as int),
            !in_bounds(x as int, y as int) ==> r == Cell::Metal,
    {
        if x < 0 || y < 0 {
            return Cell::Metal;
        }
        let x = x as usize;
        let y = y as usize;
        if x >= MX || y >= MY {
            Cell::Metal
        } else {
            proof {
                lemma_index_in_range(x as int, y as int);
            }
            self.world[y * MX + x]
        }
    }

    /// Overwrites the cell at `(x, y)`; does nothing outside the playfield.
    pub fn set(&mut self, x: isize, y: isize, val: Cell)
        requires
            old(self).wf(),
        ensures
            final(self).world@ == put(old(self).world@, x as int, y as int, val),
            !in_bounds(x as int, y as int) ==> final(self).world@ == old(self).world@,
            final(self).wf(),
            final(self).diamonds == old(self).diamonds,
            final(self).initial_world@ == old(self).initial_world@,
            final(self).initial_diamonds == old(self).initial_diamonds,
            final(self).scene == old(self).scene,
            final(self).level == old(self).level,
            final(self).counter == old(self).counter,
            final(self).current_input == old(self).current_input,
    {
        if x < 0 || y < 0 {
            return ;
        }
        let x = x as usize;
        let y = y as usize;
        if x >= MX || y >= MY {
            return ;
        } else {
            proof {
                lemma_index_in_range(x as int, y as int);
            }
            self.world.set(y * MX + x, val);
        }
    }
}

} // verus!
