use cellular_automata::cell::Cell;
use cellular_automata::colour::{Rgba, RulesetColour};
use cellular_automata::neighbourhood::Neighbourhood;
use cellular_automata::random::should_spawn;
use cellular_automata::ruleset::{build_ruleset, Ruleset, RulesetDescription};
use cellular_automata::state::{RulesetOutcome, RulesetState};
use cellular_automata::world::{cell_of, picked_cell, World};
use macroquad::rand::RandGenerator;

fn outcome(next: &str) -> RulesetOutcome {
    RulesetOutcome { next: next.to_string(), paint: None }
}

fn rule(text: &str, next: &str) -> (String, RulesetOutcome) {
    (text.to_string(), outcome(next))
}

fn life_with(neighbourhood: Neighbourhood) -> Ruleset {
    build_ruleset(RulesetDescription {
        default_state: "dead".to_string(),
        neighbourhood,
        states: vec![
            (
                "dead".to_string(),
                RulesetState::new(
                    RulesetColour::Rgba(0, 0, 0, 255),
                    vec![rule("$alive == 3", "alive")],
                    None,
                ),
            ),
            (
                "alive".to_string(),
                RulesetState::new(
                    RulesetColour::Hex("#ffffffff".to_string()),
                    vec![rule("$alive < 2", "dead"), rule("$alive > 3", "dead")],
                    None,
                ),
            ),
        ],
    })
    .unwrap()
}

fn life() -> Ruleset {
    life_with(Neighbourhood::Moore { range: 1, include_self: false })
}

fn dead() -> Cell {
    Cell { state: "dead".to_string(), colour: Rgba { r: 0, g: 0, b: 0, a: 255 } }
}

fn alive() -> Cell {
    Cell { state: "alive".to_string(), colour: Rgba { r: 255, g: 255, b: 255, a: 255 } }
}

fn generator(seed: u64) -> RandGenerator {
    let rng = RandGenerator::new();
    rng.srand(seed);
    rng
}

fn picture(world: &World) -> Vec<String> {
    let mut rows = Vec::new();
    for y in 0..world.height() {
        let mut row = String::new();
        for x in 0..world.width() {
            row.push(if world.get_cell(x, y).state == "alive" { '#' } else { '.' });
        }
        rows.push(row);
    }
    rows
}

fn count_alive(world: &World) -> usize {
    picture(world).iter().map(|row| row.matches('#').count()).sum()
}

#[test]
fn a_new_world_is_in_the_default_state() {
    let world = World::new(4, 3, life()).unwrap();
    assert_eq!(world.width(), 4);
    assert_eq!(world.height(), 3);
    assert_eq!(world.ruleset().default_state(), "dead");
    for y in 0..3 {
        for x in 0..4 {
            assert_eq!(*world.get_cell(x, y), dead());
        }
    }
}

#[test]
fn a_world_may_have_no_cells() {
    let mut world = World::new(0, 7, life()).unwrap();
    world.next_generation();
    world.reset();
    world.randomise(&generator(1));
    world.spawn_group(0, 0, 1, "alive", &generator(1));
    world.spawn_group(0, 0, 3, "alive", &generator(1));
    assert_eq!(world.width(), 0);
    assert_eq!(world.height(), 7);
}

#[test]
fn the_index_runs_row_by_row() {
    let world = World::new(4, 3, life()).unwrap();
    assert_eq!(world.get_index(0, 0), 0);
    assert_eq!(world.get_index(3, 0), 3);
    assert_eq!(world.get_index(0, 1), 4);
    assert_eq!(world.get_index(2, 1), 6);
    assert_eq!(world.get_index(3, 2), 11);
}

#[test]
fn the_index_wraps_around() {
    let world = World::new(4, 3, life()).unwrap();
    assert_eq!(world.get_index(-1, 0), 3);
    assert_eq!(world.get_index(4, 0), 0);
    assert_eq!(world.get_index(0, -1), 8);
    assert_eq!(world.get_index(0, 3), 0);
    assert_eq!(world.get_index(-1, -1), 11);
    assert_eq!(world.get_index(5, 4), 5);
    for x in 0..4isize {
        for y in 0..3isize {
            for k in -3..=3isize {
                assert_eq!(world.get_index(x + k * 4, y), world.get_index(x, y));
                assert_eq!(world.get_index(x, y + k * 3), world.get_index(x, y));
            }
        }
    }
    assert_eq!(world.get_index(isize::MAX, isize::MIN), world.get_index(isize::MAX % 4, 1));
}

#[test]
fn a_cell_is_set_and_read_at_wrapped_coordinates() {
    let mut world = World::new(4, 3, life()).unwrap();
    world.set_cell(-1, 3, alive());
    assert_eq!(*world.get_cell(3, 0), alive());
    assert_eq!(*world.get_cell(7, -3), alive());
    assert_eq!(count_alive(&world), 1);
}

#[test]
fn the_census_counts_the_neighbours_by_state() {
    let mut world = World::new(5, 5, life()).unwrap();
    world.set_cell(1, 2, alive());
    world.set_cell(2, 2, alive());
    world.set_cell(3, 2, alive());
    let census = world.get_neighbourhood(2, 1);
    assert_eq!(census.count("alive"), 3);
    assert_eq!(census.count("dead"), 5);
    let census = world.get_neighbourhood(2, 2);
    assert_eq!(census.count("alive"), 2);
    assert_eq!(census.count("dead"), 6);
    let census = world.get_neighbourhood(0, 0);
    assert_eq!(census.count("alive"), 0);
    assert_eq!(census.count("dead"), 8);
}

#[test]
fn the_census_wraps_around_the_edges() {
    let mut world = World::new(5, 5, life()).unwrap();
    world.set_cell(4, 4, alive());
    world.set_cell(0, 4, alive());
    world.set_cell(4, 0, alive());
    let census = world.get_neighbourhood(0, 0);
    assert_eq!(census.count("alive"), 3);
    assert_eq!(census.count("dead"), 5);
}

#[test]
fn the_census_counts_a_cell_once_for_each_offset_that_reaches_it() {
    let mut world =
        World::new(2, 2, life_with(Neighbourhood::Moore { range: 2, include_self: true }))
            .unwrap();
    world.set_cell(0, 0, alive());
    let census = world.get_neighbourhood(0, 0);
    assert_eq!(census.count("alive"), 9);
    assert_eq!(census.count("dead"), 16);
    let mut world = World::new(1, 1, life()).unwrap();
    world.set_cell(0, 0, alive());
    assert_eq!(world.get_neighbourhood(0, 0).count("alive"), 8);
}

#[test]
fn a_blinker_turns_and_turns_back() {
    let mut world = World::new(5, 5, life()).unwrap();
    world.set_cell(1, 2, alive());
    world.set_cell(2, 2, alive());
    world.set_cell(3, 2, alive());
    let flat = vec![".....", ".....", ".###.", ".....", "....."];
    let upright = vec![".....", "..#..", "..#..", "..#..", "....."];
    assert_eq!(picture(&world), flat);
    world.next_generation();
    assert_eq!(picture(&world), upright);
    assert_eq!(*world.get_cell(2, 1), alive());
    assert_eq!(*world.get_cell(1, 2), dead());
    world.next_generation();
    assert_eq!(picture(&world), flat);
}

#[test]
fn a_block_stays_and_a_lone_cell_dies() {
    let mut world = World::new(6, 6, life()).unwrap();
    world.set_cell(1, 1, alive());
    world.set_cell(2, 1, alive());
    world.set_cell(1, 2, alive());
    world.set_cell(2, 2, alive());
    world.set_cell(4, 4, alive());
    world.next_generation();
    assert_eq!(picture(&world), vec!["......", ".##...", ".##...", "......", "......", "......"]);
}

#[test]
fn reset_puts_every_cell_in_the_default_state() {
    let mut world = World::new(3, 3, life()).unwrap();
    world.set_cell(1, 1, alive());
    world.set_cell(0, 2, Cell { state: "zombie".to_string(), colour: Rgba { r: 1, g: 2, b: 3, a: 4 } });
    world.reset();
    for y in 0..3 {
        for x in 0..3 {
            assert_eq!(*world.get_cell(x, y), dead());
        }
    }
}

#[test]
fn randomise_puts_every_cell_in_a_state_of_the_ruleset() {
    let mut world = World::new(8, 8, life()).unwrap();
    world.randomise(&generator(42));
    let mut seen_alive = false;
    let mut seen_dead = false;
    for y in 0..8 {
        for x in 0..8 {
            let cell = world.get_cell(x, y);
            assert!(*cell == alive() || *cell == dead());
            seen_alive |= *cell == alive();
            seen_dead |= *cell == dead();
        }
    }
    assert!(seen_alive && seen_dead);
}

#[test]
fn randomise_repeats_with_the_seed() {
    let mut first = World::new(8, 8, life()).unwrap();
    first.randomise(&generator(7));
    let mut second = World::new(8, 8, life()).unwrap();
    second.randomise(&generator(7));
    assert_eq!(picture(&first), picture(&second));
}

#[test]
fn spawning_nothing_changes_nothing() {
    let mut world = World::new(5, 5, life()).unwrap();
    world.set_cell(2, 2, alive());
    let before = picture(&world);
    let rng = generator(3);
    world.spawn_group(1, 1, 0, "alive", &rng);
    assert_eq!(picture(&world), before);
    world.spawn_group(1, 1, -4, "alive", &rng);
    assert_eq!(picture(&world), before);
    world.spawn_group(1, 1, 1, "zombie", &rng);
    world.spawn_group(1, 1, 3, "zombie", &rng);
    assert_eq!(picture(&world), before);
}

#[test]
fn spawning_one_sets_the_cell() {
    let rng = generator(3);
    for x in 0..5 {
        for y in 0..5 {
            let mut world = World::new(5, 5, life()).unwrap();
            world.spawn_group(x, y, 1, "alive", &rng);
            assert_eq!(*world.get_cell(x, y), alive());
            assert_eq!(count_alive(&world), 1);
        }
    }
    let mut world = World::new(5, 5, life()).unwrap();
    world.spawn_group(2, 2, 1, "alive", &rng);
    world.spawn_group(2, 2, 1, "dead", &rng);
    assert_eq!(count_alive(&world), 0);
}

#[test]
fn spawning_a_group_stays_in_its_square() {
    for seed in 0..20u64 {
        let mut world = World::new(9, 9, life()).unwrap();
        world.spawn_group(4, 4, 3, "alive", &generator(seed));
        for y in 0..9isize {
            for x in 0..9isize {
                if !(3..=5).contains(&x) || !(3..=5).contains(&y) {
                    assert_eq!(*world.get_cell(x, y), dead());
                }
            }
        }
    }
}

#[test]
fn spawning_a_group_sets_some_cells_and_not_all() {
    let mut world = World::new(40, 40, life()).unwrap();
    world.spawn_group(1, 1, 40, "alive", &generator(11));
    let spawned = count_alive(&world);
    assert!(spawned > 300 && spawned < 800, "{}", spawned);
}

#[test]
fn a_group_at_an_edge_is_cut_off_and_does_not_wrap() {
    let mut corner_set = false;
    let mut far_set = false;
    for seed in 0..40u64 {
        let mut world = World::new(6, 6, life()).unwrap();
        world.spawn_group(0, 0, 2, "alive", &generator(seed));
        for y in 0..6isize {
            for x in 0..6isize {
                if (x, y) != (0, 0) {
                    assert_eq!(*world.get_cell(x, y), dead());
                }
            }
        }
        corner_set |= *world.get_cell(0, 0) == alive();
        let mut world = World::new(6, 6, life()).unwrap();
        world.spawn_group(5, 5, 3, "alive", &generator(seed));
        for y in 0..6isize {
            for x in 0..6isize {
                if x < 4 || y < 4 {
                    assert_eq!(*world.get_cell(x, y), dead());
                }
            }
        }
        far_set |= count_alive(&world) > 0;
        let mut world = World::new(6, 6, life()).unwrap();
        world.spawn_group(-3, 2, 3, "alive", &generator(seed));
        world.spawn_group(2, 9, 4, "alive", &generator(seed));
        world.spawn_group(7, 7, 2, "alive", &generator(seed));
        assert_eq!(count_alive(&world), 0);
    }
    assert!(corner_set && far_set);
}

#[test]
fn one_draw_in_three_spawns() {
    assert!(should_spawn(0));
    assert!(should_spawn(1431655764));
    assert!(!should_spawn(1431655765));
    assert!(!should_spawn(u32::MAX));
}

#[test]
fn the_cell_of_a_state_has_its_name_and_its_colour() {
    let ruleset = life();
    let entry = &ruleset.states()[1];
    assert_eq!(cell_of(entry), alive());
    assert_eq!(cell_of(&ruleset.states()[0]), dead());
}

#[test]
fn a_pick_makes_the_cell_of_the_state_picked() {
    let ruleset = life();
    let stranger =
        Cell { state: "zombie".to_string(), colour: Rgba { r: 1, g: 2, b: 3, a: 4 } };
    assert_eq!(picked_cell(Some(&ruleset.states()[1]), &stranger), alive());
    assert_eq!(picked_cell(Some(&ruleset.states()[0]), &stranger), dead());
    assert_eq!(picked_cell(None, &stranger), stranger);
    assert_eq!(picked_cell(None, &dead()), dead());
}

#[test]
fn randomise_leaves_no_cell_outside_the_ruleset() {
    for seed in 0..10u64 {
        let mut world = World::new(4, 4, life()).unwrap();
        for y in 0..4 {
            for x in 0..4 {
                world.set_cell(
                    x,
                    y,
                    Cell { state: "zombie".to_string(), colour: Rgba { r: 1, g: 2, b: 3, a: 4 } },
                );
            }
        }
        world.set_cell(1, 1, Cell { state: "alive".to_string(), colour: Rgba { r: 9, g: 9, b: 9, a: 9 } });
        world.randomise(&generator(seed));
        for y in 0..4 {
            for x in 0..4 {
                let cell = world.get_cell(x, y);
                assert!(*cell == alive() || *cell == dead());
            }
        }
    }
}
