use rand::rngs::SmallRng;
use rand::SeedableRng;
use rockfall::cell::Cell;
use rockfall::game::{Game, PlayerInput, Scene};
use rockfall::grid::{MX, MY, N_CELLS};
use rockfall::levelgen::{new_world, world_from_draws};

fn empty_game() -> Game {
    Game {
        world: vec![Cell::Empty; N_CELLS],
        diamonds: 3,
        initial_world: vec![Cell::Empty; N_CELLS],
        initial_diamonds: 3,
        scene: Scene::LevelScene,
        level: 1,
        counter: 0,
        current_input: PlayerInput::Idle,
    }
}

fn at(g: &Game, x: isize, y: isize) -> Cell {
    g.get(x, y)
}

fn occupied(g: &Game) -> usize {
    g.world.iter().filter(|c| **c != Cell::Empty).count()
}

fn players(g: &Game) -> usize {
    g.world.iter().filter(|c| **c == Cell::Player).count()
}

#[test]
fn get_outside_is_metal() {
    let mut g = empty_game();
    g.set(0, 0, Cell::Soil);
    assert_eq!(g.get(-1, 0), Cell::Metal);
    assert_eq!(g.get(0, -1), Cell::Metal);
    assert_eq!(g.get(24, 0), Cell::Metal);
    assert_eq!(g.get(0, 21), Cell::Metal);
    assert_eq!(g.get(-5, 30), Cell::Metal);
    assert_eq!(g.get(0, 0), Cell::Soil);
    assert_eq!(g.get(23, 20), Cell::Empty);
}

#[test]
fn set_outside_changes_nothing() {
    let mut g = empty_game();
    g.set(3, 4, Cell::Diamond(false));
    let before = g.world.clone();
    g.set(-1, 0, Cell::Player);
    g.set(0, -1, Cell::Player);
    g.set(MX as isize, 0, Cell::Player);
    g.set(0, MY as isize, Cell::Player);
    assert_eq!(g.world, before);
    g.set(23, 20, Cell::Boulder(true));
    assert_eq!(g.world[20 * 24 + 23], Cell::Boulder(true));
}

#[test]
fn diamond_collection() {
    let mut g = empty_game();
    g.set(5, 5, Cell::Player);
    g.set(6, 5, Cell::Diamond(false));
    g.current_input = PlayerInput::Right;
    g.update_player();
    assert_eq!(g.diamonds, 2);
    assert_eq!(at(&g, 6, 5), Cell::Player);
    assert_eq!(at(&g, 5, 5), Cell::Empty);
    assert_eq!(g.world.iter().filter(|c| matches!(c, Cell::Diamond(_))).count(), 0);
    assert_eq!(g.scene, Scene::LevelScene);
    assert_eq!(g.current_input, PlayerInput::Idle);
}

#[test]
fn last_diamond_levels_up() {
    let mut g = empty_game();
    g.diamonds = 1;
    g.counter = 33;
    g.set(5, 5, Cell::Player);
    g.set(5, 6, Cell::Diamond(true));
    g.current_input = PlayerInput::Down;
    g.update_player();
    assert_eq!(g.diamonds, 0);
    assert_eq!(g.scene, Scene::LevelupScene);
    assert_eq!(g.counter, 0);
    assert_eq!(at(&g, 5, 6), Cell::Player);
}

#[test]
fn falling_diamond_above_blocks_up() {
    let mut g = empty_game();
    g.set(5, 5, Cell::Player);
    g.set(5, 4, Cell::Diamond(true));
    g.current_input = PlayerInput::Up;
    g.update_player();
    assert_eq!(at(&g, 5, 5), Cell::Player);
    assert_eq!(at(&g, 5, 4), Cell::Diamond(true));
    assert_eq!(g.diamonds, 3);
    assert_eq!(g.current_input, PlayerInput::Idle);
}

#[test]
fn boulder_push() {
    let mut g = empty_game();
    g.set(2, 7, Cell::Player);
    g.set(3, 7, Cell::Boulder(false));
    g.current_input = PlayerInput::Right;
    g.update_player();
    assert_eq!(at(&g, 2, 7), Cell::Empty);
    assert_eq!(at(&g, 3, 7), Cell::Player);
    assert_eq!(at(&g, 4, 7), Cell::Boulder(true));
}

#[test]
fn boulder_push_left_against_soil_is_blocked() {
    let mut g = empty_game();
    g.set(4, 7, Cell::Player);
    g.set(3, 7, Cell::Boulder(false));
    g.set(2, 7, Cell::Soil);
    g.current_input = PlayerInput::Left;
    g.update_player();
    assert_eq!(at(&g, 4, 7), Cell::Player);
    assert_eq!(at(&g, 3, 7), Cell::Boulder(false));
    assert_eq!(at(&g, 2, 7), Cell::Soil);
}

#[test]
fn boulder_cannot_be_pushed_down_or_into_wall() {
    let mut g = empty_game();
    g.set(4, 7, Cell::Player);
    g.set(4, 8, Cell::Boulder(false));
    g.current_input = PlayerInput::Down;
    g.update_player();
    assert_eq!(at(&g, 4, 7), Cell::Player);
    let mut h = empty_game();
    h.set(22, 0, Cell::Player);
    h.set(23, 0, Cell::Boulder(false));
    h.current_input = PlayerInput::Right;
    h.update_player();
    assert_eq!(at(&h, 22, 0), Cell::Player);
    assert_eq!(at(&h, 23, 0), Cell::Boulder(false));
}

#[test]
fn walking_into_metal_or_edge_is_blocked() {
    let mut g = empty_game();
    g.set(0, 0, Cell::Player);
    g.current_input = PlayerInput::Left;
    g.update_player();
    assert_eq!(at(&g, 0, 0), Cell::Player);
    g.set(1, 0, Cell::Metal);
    g.current_input = PlayerInput::Right;
    g.update_player();
    assert_eq!(at(&g, 0, 0), Cell::Player);
    assert_eq!(at(&g, 1, 0), Cell::Metal);
}

#[test]
fn walking_through_soil() {
    let mut g = empty_game();
    g.set(5, 5, Cell::Player);
    g.set(5, 4, Cell::Soil);
    g.current_input = PlayerInput::Up;
    g.update_player();
    assert_eq!(at(&g, 5, 4), Cell::Player);
    assert_eq!(at(&g, 5, 5), Cell::Empty);
}

#[test]
fn enemy_crush_becomes_diamond() {
    let mut g = empty_game();
    g.set(3, 3, Cell::Boulder(true));
    g.set(3, 4, Cell::Enemy);
    g.set(3, 5, Cell::Soil);
    g.update_rocks();
    assert_eq!(at(&g, 3, 4), Cell::Diamond(true));
    assert_eq!(at(&g, 3, 3), Cell::Empty);
}

#[test]
fn death_by_enemy() {
    let mut g = empty_game();
    g.counter = 17;
    g.set(5, 5, Cell::Player);
    g.set(5, 6, Cell::Enemy);
    g.current_input = PlayerInput::Down;
    g.update_player();
    assert_eq!(g.scene, Scene::GameoverScene);
    assert_eq!(g.counter, 0);
}

#[test]
fn missing_player_is_game_over() {
    let mut g = empty_game();
    g.counter = 9;
    g.current_input = PlayerInput::Left;
    g.update_player();
    assert_eq!(g.scene, Scene::GameoverScene);
    assert_eq!(g.counter, 0);
    assert_eq!(g.current_input, PlayerInput::Left);
}

#[test]
fn falling_rock_crushes_player() {
    let mut g = empty_game();
    g.set(8, 2, Cell::Diamond(true));
    g.set(8, 3, Cell::Player);
    g.set(8, 4, Cell::Metal);
    g.update_rocks();
    assert_eq!(at(&g, 8, 3), Cell::Diamond(true));
    assert_eq!(at(&g, 8, 2), Cell::Empty);
    assert_eq!(players(&g), 0);
    g.update_player();
    assert_eq!(g.scene, Scene::GameoverScene);
}

#[test]
fn resting_rock_starts_falling() {
    let mut g = empty_game();
    g.set(10, 0, Cell::Boulder(false));
    g.set(10, 2, Cell::Soil);
    g.set(9, 1, Cell::Soil);
    g.set(11, 1, Cell::Soil);
    g.update_rocks();
    assert_eq!(at(&g, 10, 0), Cell::Empty);
    assert_eq!(at(&g, 10, 1), Cell::Boulder(true));
    g.update_rocks();
    assert_eq!(at(&g, 10, 1), Cell::Boulder(false));
}

#[test]
fn rolling_side_follows_tick_parity() {
    let mut g = empty_game();
    g.set(10, 5, Cell::Boulder(true));
    g.set(10, 6, Cell::Soil);
    g.counter = 0;
    g.update_rocks();
    // a rolled rock moves once per pass, even into a cell not yet scanned
    assert_eq!(at(&g, 11, 5), Cell::Boulder(true));
    assert_eq!(at(&g, 11, 6), Cell::Empty);
    assert_eq!(at(&g, 10, 5), Cell::Empty);
    g.update_rocks();
    assert_eq!(at(&g, 11, 6), Cell::Boulder(true));

    let mut h = empty_game();
    h.set(10, 5, Cell::Diamond(true));
    h.set(10, 6, Cell::Soil);
    h.counter = 1;
    h.update_rocks();
    assert_eq!(at(&h, 9, 5), Cell::Diamond(true));
    assert_eq!(at(&h, 10, 5), Cell::Empty);
}

#[test]
fn rolling_needs_crushable_diagonal() {
    let mut g = empty_game();
    g.set(10, 5, Cell::Boulder(true));
    g.set(9, 6, Cell::Soil);
    g.set(10, 6, Cell::Soil);
    g.set(11, 6, Cell::Soil);
    g.update_rocks();
    assert_eq!(at(&g, 10, 5), Cell::Boulder(false));
}

#[test]
fn bottom_row_is_not_moved() {
    let mut g = empty_game();
    g.set(4, 20, Cell::Boulder(true));
    g.update_rocks();
    assert_eq!(at(&g, 4, 20), Cell::Boulder(true));
}

#[test]
fn physics_never_adds_cells() {
    let mut rng = SmallRng::seed_from_u64(7);
    let mut g = Game::new(&mut rng);
    g.scene = Scene::LevelScene;
    for y in 0..MY as isize {
        for x in 0..MX as isize {
            if (x + y) % 3 == 0 {
                g.set(x, y, Cell::Empty);
            }
        }
    }
    for _ in 0..40 {
        let before = occupied(&g);
        g.update_rocks();
        assert!(occupied(&g) <= before);
        g.advance_counter();
    }
}

#[test]
fn at_most_one_player_across_passes() {
    let mut rng = SmallRng::seed_from_u64(11);
    let mut g = Game::new(&mut rng);
    g.scene = Scene::LevelScene;
    assert_eq!(players(&g), 1);
    let inputs = [PlayerInput::Right, PlayerInput::Down, PlayerInput::Left, PlayerInput::Up];
    for i in 0..40 {
        g.update_rocks();
        assert!(players(&g) <= 1);
        g.current_input = inputs[i % 4];
        g.update_player();
        assert!(players(&g) <= 1);
        g.advance_counter();
    }
}

#[test]
fn generation_is_deterministic() {
    let mut a = SmallRng::seed_from_u64(2024);
    let mut b = SmallRng::seed_from_u64(2024);
    let (wa, da) = new_world(&mut a);
    let (wb, db) = new_world(&mut b);
    assert_eq!(wa, wb);
    assert_eq!(da, db);
    assert_eq!(wa.len(), N_CELLS);
    assert_eq!(wa.iter().filter(|c| **c == Cell::Player).count(), 1);
    assert!(wa.iter().position(|c| *c == Cell::Player).unwrap() < 256);
    let latent = wa
        .iter()
        .filter(|c| matches!(c, Cell::Diamond(_) | Cell::Enemy))
        .count();
    assert_eq!(latent, da);
}

#[test]
fn generation_buckets() {
    let mut draws = vec![0u32; N_CELLS];
    draws[0] = 74;
    draws[1] = 75;
    draws[2] = 89;
    draws[3] = 90;
    draws[4] = 95;
    draws[5] = 98;
    draws[252] = 99;
    draws[253] = 98;
    draws[300] = 97;
    let (w, d) = world_from_draws(&draws, 200);
    assert_eq!(w[0], Cell::Soil);
    assert_eq!(w[1], Cell::Boulder(false));
    assert_eq!(w[2], Cell::Boulder(false));
    assert_eq!(w[3], Cell::Metal);
    assert_eq!(w[4], Cell::Diamond(false));
    assert_eq!(w[5], Cell::Diamond(false));
    assert_eq!(w[252], Cell::Diamond(false));
    assert_eq!(w[253], Cell::Enemy);
    assert_eq!(w[300], Cell::Diamond(false));
    assert_eq!(w[200], Cell::Player);
    assert_eq!(d, 5);
}

#[test]
fn player_placed_on_diamond_lowers_count() {
    let mut draws = vec![10u32; N_CELLS];
    draws[17] = 96;
    draws[400] = 99;
    let (w, d) = world_from_draws(&draws, 17);
    assert_eq!(w[17], Cell::Player);
    assert_eq!(w[400], Cell::Enemy);
    assert_eq!(d, 1);
    let (w2, d2) = world_from_draws(&draws, 255);
    assert_eq!(w2[255], Cell::Player);
    assert_eq!(w2[17], Cell::Diamond(false));
    assert_eq!(d2, 2);
}

#[test]
fn title_gives_way_to_level() {
    let mut rng = SmallRng::seed_from_u64(3);
    let mut g = Game::new(&mut rng);
    assert_eq!(g.scene, Scene::TitleScene);
    assert_eq!(g.level, 1);
    for _ in 0..10 {
        g.tick(&mut rng);
        assert_eq!(g.scene, Scene::TitleScene);
        g.advance_counter();
    }
    assert_eq!(g.counter, 10);
    g.tick(&mut rng);
    assert_eq!(g.scene, Scene::LevelScene);
    assert_eq!(g.counter, 0);
}

#[test]
fn game_over_restores_level() {
    let mut rng = SmallRng::seed_from_u64(5);
    let mut g = Game::new(&mut rng);
    let start = g.initial_world.clone();
    g.scene = Scene::GameoverScene;
    g.world = vec![Cell::Empty; N_CELLS];
    g.diamonds = 0;
    g.counter = 5;
    g.tick(&mut rng);
    assert_eq!(g.scene, Scene::TitleScene);
    assert_eq!(g.counter, 0);
    assert_eq!(g.world, start);
    assert_eq!(g.diamonds, g.initial_diamonds);
}

#[test]
fn level_up_generates_next_level() {
    let mut rng = SmallRng::seed_from_u64(6);
    let mut g = Game::new(&mut rng);
    g.scene = Scene::LevelupScene;
    g.counter = 4;
    g.tick(&mut rng);
    assert_eq!(g.scene, Scene::LevelupScene);
    g.advance_counter();
    g.tick(&mut rng);
    assert_eq!(g.scene, Scene::TitleScene);
    assert_eq!(g.level, 2);
    assert_eq!(g.counter, 0);
    assert_eq!(g.world, g.initial_world);
    assert_eq!(g.diamonds, g.initial_diamonds);
}

#[test]
fn counter_wraps() {
    let mut g = empty_game();
    g.counter = u32::MAX;
    g.advance_counter();
    assert_eq!(g.counter, 0);
    g.advance_counter();
    assert_eq!(g.counter, 1);
}

#[test]
fn cell_predicates() {
    assert!(Cell::crushable(Cell::Empty));
    assert!(Cell::crushable(Cell::Player));
    assert!(Cell::crushable(Cell::Enemy));
    assert!(!Cell::crushable(Cell::Soil));
    assert!(!Cell::crushable(Cell::Diamond(false)));
    assert!(Cell::rock(Cell::Boulder(false)));
    assert!(Cell::rock(Cell::Diamond(true)));
    assert!(!Cell::rock(Cell::Metal));
    assert!(Cell::falling(Cell::Boulder(true)));
    assert!(!Cell::falling(Cell::Boulder(false)));
    assert!(!Cell::falling(Cell::Enemy));
    assert!(Cell::empty(Cell::Empty));
    assert!(!Cell::empty(Cell::Soil));
}

#[test]
fn lone_rock_falls_one_cell() {
    let mut g = empty_game();
    g.set(6, 3, Cell::Soil);
    g.set(2, 9, Cell::Enemy);
    g.set(7, 4, Cell::Diamond(true));
    let before = g.world.clone();
    g.update_rocks();
    assert_eq!(at(&g, 7, 4), Cell::Empty);
    assert_eq!(at(&g, 7, 5), Cell::Diamond(true));
    for i in 0..N_CELLS {
        if i != 4 * 24 + 7 && i != 5 * 24 + 7 {
            assert_eq!(g.world[i], before[i]);
        }
    }
}

#[test]
fn crushed_enemy_with_rock_above() {
    let mut g = empty_game();
    g.set(3, 2, Cell::Boulder(true));
    g.set(3, 3, Cell::Diamond(true));
    g.set(3, 4, Cell::Enemy);
    g.set(3, 5, Cell::Metal);
    g.update_rocks();
    // the enemy's cell still turns into a falling diamond
    assert_eq!(at(&g, 3, 4), Cell::Diamond(true));
    // the boulder above drops into the crushing rock's emptied cell
    assert_eq!(at(&g, 3, 3), Cell::Boulder(true));
    assert_eq!(at(&g, 3, 2), Cell::Empty);
}

#[test]
fn player_count_kept_by_player_pass() {
    let mut g = empty_game();
    g.set(4, 4, Cell::Player);
    g.set(5, 4, Cell::Boulder(false));
    g.current_input = PlayerInput::Right;
    g.update_player();
    assert_eq!(players(&g), 1);
    g.current_input = PlayerInput::Up;
    g.update_player();
    assert_eq!(players(&g), 1);
    let mut h = empty_game();
    h.current_input = PlayerInput::Down;
    h.update_player();
    assert_eq!(players(&h), 0);
}
