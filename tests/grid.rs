use nystopia::args::ProgArgs;
use nystopia::map::{NystopiaMap, NystopiaTile};

fn args(food_prob: u8, regrow_time: u16) -> ProgArgs {
    ProgArgs { bots: 1, tick_delay: 250, sight: 10, regrow_time, food_prob }
}

#[test]
fn out_of_bounds_is_absent_and_not_eaten() {
    let mut map = NystopiaMap::new(&args(100, 5), 4, 3);
    assert!(map.get_tile(3, 0).is_none());
    assert!(map.get_tile(0, 4).is_none());
    assert!(map.get_tile(65535, 65535).is_none());
    assert!(!map.consume(3, 0));
    assert!(!map.consume(0, 4));
    for r in 0..3u16 {
        for c in 0..4u16 {
            let t = map.get_tile(r, c).unwrap();
            assert!(t.has_food());
            assert!(!t.eaten());
        }
    }
}

#[test]
fn dimensions_are_kept() {
    let map = NystopiaMap::new(&args(5, 5), 7, 2);
    assert_eq!(map.get_cols(), 7);
    assert_eq!(map.get_rows(), 2);
    assert!(map.get_tile(1, 6).is_some());
}

#[test]
fn no_food_at_zero_probability() {
    let mut map = NystopiaMap::new(&args(0, 5), 5, 5);
    for r in 0..5u16 {
        for c in 0..5u16 {
            assert!(!map.get_tile(r, c).unwrap().has_food());
            assert!(!map.get_tile(r, c).unwrap().eaten());
            assert!(!map.consume(r, c));
        }
    }
}

#[test]
fn consume_succeeds_once() {
    let mut map = NystopiaMap::new(&args(100, 4), 2, 2);
    assert!(map.consume(1, 1));
    assert!(!map.consume(1, 1));
    assert!(map.get_tile(1, 1).unwrap().eaten());
    assert!(!map.get_tile(0, 1).unwrap().eaten());
    assert!(map.consume(0, 1));
}

#[test]
fn regrows_after_exactly_regrowth_ticks() {
    let mut map = NystopiaMap::new(&args(100, 3), 1, 1);
    assert!(map.consume(0, 0));
    for _ in 0..2 {
        map.tick_map();
        assert!(!map.get_tile(0, 0).unwrap().has_food_now());
        assert!(!map.consume(0, 0));
    }
    map.tick_map();
    assert!(map.get_tile(0, 0).unwrap().has_food_now());
    assert!(map.consume(0, 0));
}

#[test]
fn zero_regrowth_is_back_after_one_tick() {
    let mut map = NystopiaMap::new(&args(100, 0), 1, 1);
    assert!(map.consume(0, 0));
    assert!(!map.consume(0, 0));
    map.tick_map();
    assert!(map.consume(0, 0));
}

#[test]
fn tick_leaves_uneaten_tiles_alone() {
    let mut map = NystopiaMap::new(&args(100, 3), 3, 3);
    map.tick_map();
    for r in 0..3u16 {
        for c in 0..3u16 {
            assert!(map.get_tile(r, c).unwrap().has_food_now());
        }
    }
}

#[test]
fn tile_from_draw_follows_percentage() {
    let a = args(5, 9);
    let t = NystopiaTile::from_draw(4, &a);
    assert!(t.has_food());
    assert!(!t.eaten());
    let t = NystopiaTile::from_draw(105, &a);
    assert!(!t.has_food());
    let t = NystopiaTile::from_draw(199, &args(100, 9));
    assert!(t.has_food());
    let t = NystopiaTile::from_draw(0, &args(0, 9));
    assert!(!t.has_food());
}

#[test]
fn random_tile_respects_extremes() {
    for _ in 0..50 {
        assert!(NystopiaTile::new(&args(100, 1)).has_food());
        assert!(!NystopiaTile::new(&args(0, 1)).has_food());
    }
}
