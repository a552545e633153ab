use nanorand::Rng;
use nystopia::args::ProgArgs;
use nystopia::bot::{pick_weighted, NekoDirs, Nekobot, NekobotState};
use nystopia::map::NystopiaMap;

fn args(food_prob: u8, regrow_time: u16) -> ProgArgs {
    ProgArgs { bots: 1, tick_delay: 250, sight: 10, regrow_time, food_prob }
}

/// A `rows` by `cols` grid whose only food is at `(fr, fc)`.
fn one_food_map(rows: u16, cols: u16, fr: u16, fc: u16) -> NystopiaMap {
    let mut map = NystopiaMap::new(&args(100, 1000), cols, rows);
    for r in 0..rows {
        for c in 0..cols {
            if (r, c) != (fr, fc) {
                assert!(map.consume(r, c));
            }
        }
    }
    map
}

#[test]
fn state_follows_energy_at_creation() {
    assert_eq!(Nekobot::new("a", 0, 0, 0, 3).get_state(), NekobotState::Dead);
    assert_eq!(Nekobot::new("a", 0, 0, 50, 3).get_state(), NekobotState::Forage);
    assert_eq!(Nekobot::new("a", 0, 0, 80, 3).get_state(), NekobotState::Wander);
}

#[test]
fn getters_report_fields() {
    let b = Nekobot::new("Q", 4, 7, 33, 2);
    assert_eq!(b.get_row(), 4);
    assert_eq!(b.get_col(), 7);
    assert_eq!(b.get_energy(), 33);
    assert_eq!(b.get_label().as_str(), "Q");
}

#[test]
fn random_bot_is_in_range() {
    for _ in 0..200 {
        let b = Nekobot::new_rand("x", 5, 3, &args(5, 5));
        assert!(b.get_row() < 5);
        assert!(b.get_col() < 3);
        assert!(b.get_energy() >= 10 && b.get_energy() <= 99);
    }
}

#[test]
fn pick_weighted_walks_the_weights() {
    let s = vec![1u64, 2, 3];
    assert_eq!(pick_weighted(&s, 0), 0);
    assert_eq!(pick_weighted(&s, 1), 1);
    assert_eq!(pick_weighted(&s, 2), 1);
    assert_eq!(pick_weighted(&s, 3), 2);
    assert_eq!(pick_weighted(&s, 5), 2);
    let e = vec![100u64; 5];
    assert_eq!(pick_weighted(&e, 0), 0);
    assert_eq!(pick_weighted(&e, 99), 0);
    assert_eq!(pick_weighted(&e, 250), 2);
    assert_eq!(pick_weighted(&e, 499), 4);
}

#[test]
fn fed_bot_scores_are_equal_and_draws_uniform() {
    let map = NystopiaMap::new(&args(100, 5), 9, 9);
    let b = Nekobot::new("a", 4, 4, 90, 3);
    let found = b.nearest_food(&map);
    let scores = b.op_sense(&map, found);
    assert_eq!(scores, vec![100u64; 5]);
    let total: u64 = scores.iter().sum();
    let mut counts = [0u32; 5];
    let mut rng = nanorand::tls_rng();
    let trials = 50000;
    for _ in 0..trials {
        let i = pick_weighted(&scores, rng.generate::<u64>() % total);
        counts[i] += 1;
    }
    for c in counts {
        assert!(c > 9000 && c < 11000, "count {} out of range", c);
    }
}

#[test]
fn single_food_rewards_best_direction() {
    let map = one_food_map(7, 7, 2, 5);
    let b = Nekobot::new("a", 3, 3, 50, 3);
    let found = b.nearest_food(&map);
    assert_eq!(found, Some((2, 5, 2)));
    // Left, Down, Right, Up, Here
    assert_eq!(b.op_sense(&map, found), vec![100, 100, 51029, 100, 100]);
}

#[test]
fn single_food_vertical_direction() {
    let map = one_food_map(9, 9, 7, 4);
    let b = Nekobot::new("a", 4, 3, 50, 5);
    let found = b.nearest_food(&map);
    assert_eq!(found, Some((7, 4, 3)));
    // bonus: round(200000 * (5 - sqrt(10)) / 5) = 73509
    assert_eq!(b.op_sense(&map, found), vec![100, 73609, 100, 100, 100]);
}

#[test]
fn food_at_sight_edge_ties_with_others() {
    let map = one_food_map(9, 9, 4, 0);
    let b = Nekobot::new("a", 4, 4, 50, 4);
    let found = b.nearest_food(&map);
    assert_eq!(found, Some((4, 0, 4)));
    assert_eq!(b.op_sense(&map, found), vec![100; 5]);
}

#[test]
fn food_out_of_sight_is_not_found() {
    let map = one_food_map(9, 9, 0, 0);
    let b = Nekobot::new("a", 4, 4, 50, 3);
    assert_eq!(b.nearest_food(&map), None);
}

#[test]
fn food_beyond_floored_distance_is_not_found() {
    // distance sqrt(18) rounds down to 4, beyond a sight of 3
    let map = one_food_map(9, 9, 1, 1);
    let b = Nekobot::new("a", 4, 4, 50, 3);
    assert_eq!(b.nearest_food(&map), None);
    // distance sqrt(8) rounds down to 2
    let map = one_food_map(9, 9, 2, 2);
    assert_eq!(b.nearest_food(&map), Some((2, 2, 2)));
}

#[test]
fn nearest_of_two_is_chosen() {
    let mut map = one_food_map(9, 9, 0, 4);
    map.tick_map();
    let b = Nekobot::new("a", 4, 4, 50, 5);
    assert_eq!(b.nearest_food(&map), Some((0, 4, 4)));
    // a nearer one appears once its regrowth is done
    let mut fresh = NystopiaMap::new(&args(100, 1), 9, 9);
    for r in 0..9u16 {
        for c in 0..9u16 {
            if (r, c) != (0, 4) {
                assert!(fresh.consume(r, c));
            }
        }
    }
    fresh.tick_map();
    assert_eq!(b.nearest_food(&fresh), Some((4, 4, 0)));
}

#[test]
fn blind_bot_only_rewards_staying() {
    let map = NystopiaMap::new(&args(100, 5), 3, 3);
    let b = Nekobot::new("a", 1, 1, 50, 0);
    let found = b.nearest_food(&map);
    assert_eq!(found, Some((1, 1, 0)));
    assert_eq!(b.op_sense(&map, found), vec![100, 100, 100, 100, 200000]);
}

#[test]
fn own_tile_food_favours_best_direction_over_staying() {
    let map = NystopiaMap::new(&args(100, 5), 3, 3);
    let b = Nekobot::new("a", 1, 1, 50, 2);
    let found = b.nearest_food(&map);
    assert_eq!(found, Some((1, 1, 0)));
    assert_eq!(b.op_sense(&map, found), vec![100, 100, 200100, 100, 200000]);
}

#[test]
fn step_moves_by_draw() {
    let map0 = NystopiaMap::new(&args(0, 5), 7, 7);
    let cases = [(0u64, 3u16, 2u16), (150, 4, 3), (250, 3, 4), (350, 2, 3), (450, 3, 3), (500, 3, 2)];
    for (draw, row, col) in cases {
        let mut map = NystopiaMap::new(&args(0, 5), 7, 7);
        let mut b = Nekobot::new("a", 3, 3, 100, 2);
        let found = b.nearest_food(&map0);
        b.step(&mut map, found, draw);
        assert_eq!((b.get_row(), b.get_col()), (row, col));
        assert_eq!(b.get_energy(), 99);
        assert_eq!(b.get_state(), NekobotState::Wander);
    }
}

#[test]
fn moves_are_clamped_at_edges() {
    let mut map = NystopiaMap::new(&args(0, 5), 2, 2);
    let mut b = Nekobot::new("a", 0, 0, 100, 2);
    b.step(&mut map, None, 0);
    assert_eq!((b.get_row(), b.get_col()), (0, 0));
    b.step(&mut map, None, 350);
    assert_eq!((b.get_row(), b.get_col()), (0, 0));
    let mut c = Nekobot::new("c", 1, 1, 100, 2);
    c.step(&mut map, None, 150);
    assert_eq!((c.get_row(), c.get_col()), (1, 1));
    c.step(&mut map, None, 250);
    assert_eq!((c.get_row(), c.get_col()), (1, 1));
}

#[test]
fn energy_and_state_each_tick() {
    let mut map = NystopiaMap::new(&args(0, 5), 5, 5);
    let mut b = Nekobot::new("a", 2, 2, 81, 2);
    b.tick(&mut map);
    assert_eq!(b.get_energy(), 80);
    assert_eq!(b.get_state(), NekobotState::Wander);
    b.tick(&mut map);
    assert_eq!(b.get_energy(), 79);
    assert_eq!(b.get_state(), NekobotState::Forage);
}

#[test]
fn dead_bot_stays_dead() {
    let mut map = NystopiaMap::new(&args(0, 5), 5, 5);
    let mut b = Nekobot::new("a", 2, 2, 1, 2);
    b.tick(&mut map);
    assert_eq!(b.get_energy(), 0);
    assert_eq!(b.get_state(), NekobotState::Dead);
    let place = (b.get_row(), b.get_col());
    for _ in 0..10 {
        b.tick(&mut map);
        assert_eq!(b.get_energy(), 0);
        assert_eq!(b.get_state(), NekobotState::Dead);
        assert_eq!((b.get_row(), b.get_col()), place);
    }
}

#[test]
fn single_tile_eat_and_regrow() {
    let mut map = NystopiaMap::new(&args(100, 3), 1, 1);
    let mut b = Nekobot::new("a", 0, 0, 50, 10);
    map.tick_map();
    b.tick(&mut map);
    assert_eq!(b.get_energy(), 69);
    assert_eq!((b.get_row(), b.get_col()), (0, 0));
    assert!(map.get_tile(0, 0).unwrap().eaten());
    map.tick_map();
    assert!(map.get_tile(0, 0).unwrap().eaten());
    map.tick_map();
    assert!(map.get_tile(0, 0).unwrap().eaten());
    map.tick_map();
    assert!(map.get_tile(0, 0).unwrap().has_food_now());
}

#[test]
fn fed_bot_does_not_eat() {
    let mut map = NystopiaMap::new(&args(100, 3), 1, 1);
    let mut b = Nekobot::new("a", 0, 0, 90, 10);
    b.tick(&mut map);
    assert_eq!(b.get_energy(), 89);
    assert!(map.get_tile(0, 0).unwrap().has_food_now());
}

#[test]
fn food_score_uses_true_distance() {
    let map = NystopiaMap::new(&args(0, 5), 20, 20);
    let b = Nekobot::new("a", 0, 0, 50, 10);
    // round(200000 * (10 - sqrt(2)) / 10) = 171716
    assert_eq!(b.compute_food_move_score(1, 1), 171816);
    assert_eq!(b.compute_food_move_score(0, 0), 200100);
    assert_eq!(b.compute_food_move_score(6, 8), 100);
    assert_eq!(b.compute_food_move_score(7, 8), 100);
    let _ = map;
}

#[test]
fn forage2_scores_single_food() {
    let map = one_food_map(7, 7, 2, 5);
    let b = Nekobot::new("a", 3, 3, 50, 3);
    let found = b.nearest_food(&map);
    assert_eq!(b.forage2(&map, NekoDirs::Right, found), 51029);
    assert_eq!(b.forage2(&map, NekoDirs::Up, found), 100);
    assert_eq!(b.forage2(&map, NekoDirs::Here, found), 100);
}

#[test]
fn sight_window_of_blind_bot_is_own_cell() {
    let map = NystopiaMap::new(&args(0, 5), 5, 5);
    let b = Nekobot::new("a", 2, 3, 50, 0);
    assert_eq!(b.sight_dims(&map), (3, 3, 2, 2));
    let c = Nekobot::new("c", 0, 4, 50, 2);
    assert_eq!(c.sight_dims(&map), (2, 4, 0, 2));
}

#[test]
fn bot_from_draws_is_exact() {
    let a = args(5, 5);
    let b = Nekobot::from_draws("z", 5, 3, 12, 7, 95, &a);
    assert_eq!((b.get_row(), b.get_col()), (2, 1));
    assert_eq!(b.get_energy(), 15);
    assert_eq!(b.get_state(), NekobotState::Forage);
    assert_eq!(b.get_label().as_str(), "z");
}
