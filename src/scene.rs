use vstd::prelude::*;
use rand::rngs::SmallRng;
use crate::cell::Cell;
use crate::game::{Game, PlayerInput, Scene};
use crate::levelgen::{new_world, is_generated};
use crate::physics::rocks_pass;
use crate::player::{
    player_pass_world, player_pass_diamonds, player_pass_scene, player_pass_resets,
    player_pass_input,
};

verus! {

/// Ticks the title is shown before the level starts.
pub const TITLE_TICKS: u32 = 10;

/// Ticks the game-over and level-up scenes last.
pub const END_TICKS: u32 = 5;

/// A copy of a world.
fn copy_world(w: &Vec<Cell>) -> (r: Vec<Cell>)
    ensures
        r@ == w@,
{
    let mut r: Vec<Cell> = Vec::new();
    let mut i: usize = 0;
    while i < w.len()
        invariant
            i <= w@.len(),
            r@ == w@.subrange(0, i as int),
        decreases w.len() - i,
    {
        r.push(w[i]);
        i = i + 1;
        assert(r@ =~= w@.subrange(0, i as int));
    }
    assert(r@ =~= w@);
    r
}

impl Game {
    /// A new game on a freshly generated first level, showing its title.
    pub fn new(rng: &mut SmallRng) -> (g: Game)
        ensures
            g.wf(),
            is_generated(g.initial_world@, g.initial_diamonds as int),
            g.world@ == g.initial_world@,
            g.diamonds == g.initial_diamonds,
            g.scene == Scene::TitleScene,
            g.level == 1,
            g.counter == 0,
            g.current_input == PlayerInput::Idle,
    {
        let (world, diamonds) = new_world(rng);
        Game {
            initial_world: copy_world(&world),
            initial_diamonds: diamonds,
            world,
            diamonds,
            scene: Scene::TitleScene,
            level: 1,
            counter: 0,
            current_input: PlayerInput::Idle,
        }
    }

    /// The per-tick work of the current scene. The title gives way to the
    /// level after its time; a level runs the physics, then the player; the
    /// game-over and level-up scenes keep the physics running and, after
    /// their time, restart the level or generate the next one.
    pub fn tick(&mut self, rng: &mut SmallRng)
        requires
            old(self).wf(),
        ensures
            final(self).wf(),
            old(self).scene == Scene::TitleScene ==> if old(self).counter == TITLE_TICKS {
                final(self).scene == Scene::LevelScene && final(self).counter == 0
            } else {
                final(self).scene == old(self).scene && final(self).counter == old(self).counter
            },
            old(self).scene == Scene::TitleScene ==> final(self).world@ == old(self).world@
                && final(self).diamonds == old(self).diamonds && final(self).current_input
                == old(self).current_input,
            old(self).scene == Scene::LevelScene ==> ({
                let w = rocks_pass(old(self).world@, old(self).counter);
                let input = old(self).current_input;
                let d = old(self).diamonds;
                &&& final(self).world@ == player_pass_world(w, input)
                &&& final(self).diamonds == player_pass_diamonds(w, input, d)
                &&& final(self).scene == player_pass_scene(w, input, d, Scene::LevelScene)
                &&& final(self).counter == if player_pass_resets(w, input, d) {
                    0
                } else {
                    old(self).counter
                }
                &&& final(self).current_input == player_pass_input(w, input)
            }),
            (old(self).scene == Scene::GameoverScene || old(self).scene == Scene::LevelupScene)
                && old(self).counter != END_TICKS ==> {
                &&& final(self).world@ == rocks_pass(old(self).world@, old(self).counter)
                &&& final(self).diamonds == old(self).diamonds
                &&& final(self).scene == old(self).scene
                &&& final(self).counter == old(self).counter
            },
            old(self).scene == Scene::GameoverScene && old(self).counter == END_TICKS ==> {
                &&& final(self).world@ == old(self).initial_world@
                &&& final(self).diamonds == old(self).initial_diamonds
                &&& final(self).scene == Scene::TitleScene
                &&& final(self).counter == 0
            },
            old(self).scene == Scene::LevelupScene && old(self).counter == END_TICKS ==> {
                &&& is_generated(final(self).initial_world@, final(self).initial_diamonds as int)
                &&& final(self).world@ == final(self).initial_world@
                &&& final(self).diamonds == final(self).initial_diamonds
                &&& final(self).scene == Scene::TitleScene
                &&& final(self).counter == 0
                &&& final(self).level == if old(self).level < usize::MAX {
                    old(self).level + 1
                } else {
                    old(self).level as int
                }
            },
            !(old(self).scene == Scene::LevelupScene && old(self).counter == END_TICKS) ==> {
                &&& final(self).initial_world@ == old(self).initial_world@
                &&& final(self).initial_diamonds == old(self).initial_diamonds
                &&& final(self).level == old(self).level
            },
            old(self).scene != Scene::LevelScene ==> final(self).current_input == old(self).current_input,
    {
        match self.scene {
            Scene::TitleScene => {
                if self.counter == TITLE_TICKS {
                    self.scene = Scene::LevelScene;
                    self.counter = 0;
                }
            },
            Scene::LevelScene => {
                self.update_rocks();
                self.update_player();
            },
            Scene::GameoverScene => {
                self.update_rocks();
                if self.counter == END_TICKS {
                    self.world = copy_world(&self.initial_world);
                    self.diamonds = self.initial_diamonds;
                    self.counter = 0;
                    self.scene = Scene::TitleScene;
                }
            },
            Scene::LevelupScene => {
                self.update_rocks();
                if self.counter == END_TICKS {
                    let (world, diamonds) = new_world(rng);
                    self.world = copy_world(&world);
                    self.initial_world = world;
                    self.initial_diamonds = diamonds;
                    self.diamonds = diamonds;
                    self.counter = 0;
                    self.scene = Scene::TitleScene;
                    if self.level < usize::MAX {
                        self.level = self.level + 1;
                    }
                }
            },
        }
    }

    /// Moves the tick counter on by one, wrapping to zero at its maximum.
    pub fn advance_counter(&mut self)
        requires
            old(self).wf(),
        ensures
            final(self).wf(),
            final(self).counter == if old(self).counter == u32::MAX {
                0
            } else {
                (old(self).counter + 1) as u32
            },
            final(self).world@ == old(self).world@,
            final(self).diamonds == old(self).diamonds,
            final(self).initial_world@ == old(self).initial_world@,
            final(self).initial_diamonds == old(self).initial_diamonds,
            final(self).scene == old(self).scene,
            final(self).level == old(self).level,
            final(self).current_input == old(self).current_input,
    {
        self.counter = if self.counter == u32::MAX {
            0
        } else {
            self.counter + 1
        };
    }
}

} // verus!
