use legion_prof_viewer::data::{TileID, TileSet};
use legion_prof_viewer::tile_manager::steps::{
    best_level, count_tiles, extend_tiles, overlapping_tiles, probe, shifted_tile, span,
    zoom_kept,
};
use legion_prof_viewer::tile_manager::{contains_tile, TileManager};
use legion_prof_viewer::timestamp::{Interval, Timestamp};
use std::collections::BTreeMap;

fn iv(start: i64, stop: i64) -> Interval {
    Interval::new(Timestamp(start), Timestamp(stop))
}

fn tile(start: i64, stop: i64) -> TileID {
    TileID(iv(start, stop))
}

fn two_levels() -> TileSet {
    TileSet { tiles: vec![vec![tile(0, 100)], vec![tile(0, 50), tile(50, 100)]] }
}

fn three_levels() -> TileSet {
    TileSet {
        tiles: vec![
            vec![tile(0, 100)],
            vec![tile(0, 50), tile(50, 100)],
            vec![tile(0, 25), tile(25, 50), tile(50, 75), tile(75, 100)],
        ],
    }
}

fn covered(tiles: &[TileID], r: Interval) -> bool {
    (r.start.0..r.stop.0).all(|t| tiles.iter().any(|x| x.0.start.0 <= t && t < x.0.stop.0))
}

#[test]
fn repeat_gives_the_same_answer() {
    let mut tm = TileManager::new(TileSet::default(), iv(0, 100));
    tm.request_tiles(iv(20, 40), false);
    let first = tm.request_tiles(iv(30, 55), false);
    let other = tm.request_tiles(iv(0, 100), true);
    let second = tm.request_tiles(iv(30, 55), false);
    assert_eq!(first, vec![tile(20, 40), tile(40, 60)]);
    assert_eq!(second, first);
    assert_eq!(other, vec![tile(0, 100)]);
    assert_eq!(tm.request_tiles(iv(0, 100), true), other);
}

#[test]
fn answers_cover_the_request() {
    let views = [iv(0, 20), iv(10, 30), iv(25, 60), iv(55, 100), iv(-50, 7), iv(3, 4), iv(0, 100)];
    let row = iv(0, 100);
    let mut dynamic = TileManager::new(TileSet::default(), row);
    let mut fixed = TileManager::new(three_levels(), row);
    for view in views {
        for full in [false, true] {
            let r = view.intersection(row);
            assert!(covered(&dynamic.request_tiles(view, full), r));
            assert!(covered(&fixed.request_tiles(view, full), r));
        }
    }
}

#[test]
fn answers_stay_inside_the_row() {
    let row = iv(10, 95);
    let mut tm = TileManager::new(TileSet::default(), row);
    let mut seen = Vec::new();
    for view in [iv(40, 60), iv(30, 65), iv(0, 70), iv(50, 200), iv(-100, 300)] {
        seen.extend(tm.request_tiles(view, false));
    }
    assert!(!seen.is_empty());
    for t in seen {
        assert!(row.contains_interval(t.0));
        assert!(t.0.duration_ns() > 0);
    }
}

#[test]
fn extension_is_cut_at_the_edges_of_the_row() {
    let mut tm = TileManager::new(TileSet::default(), iv(0, 100));
    assert_eq!(tm.request_tiles(iv(15, 85), false), vec![tile(15, 85)]);
    assert_eq!(
        tm.request_tiles(iv(10, 90), false),
        vec![tile(0, 15), tile(15, 85), tile(85, 100)]
    );
}

#[test]
fn tile_size_is_that_of_the_first_tile() {
    let mut tm = TileManager::new(TileSet::default(), iv(0, 100));
    assert_eq!(tm.request_tiles(iv(5, 25), false), vec![tile(5, 25)]);
    assert_eq!(tm.request_tiles(iv(0, 20), false), vec![tile(0, 5), tile(5, 25)]);
    assert_eq!(
        tm.request_tiles(iv(10, 30), false),
        vec![tile(0, 5), tile(5, 25), tile(10, 30)]
    );
}

#[test]
fn full_request_takes_the_finest_level() {
    let mut tm = TileManager::new(three_levels(), iv(0, 100));
    assert_eq!(tm.request_tiles(iv(30, 60), true), vec![tile(25, 50), tile(50, 75)]);
    assert_eq!(
        tm.request_tiles(iv(0, 100), true),
        vec![tile(0, 25), tile(25, 50), tile(50, 75), tile(75, 100)]
    );
    assert_eq!(tm.request_tiles(iv(25, 50), true), vec![tile(25, 50)]);
}

#[test]
fn partial_request_takes_the_level_nearest_in_size() {
    let mut tm = TileManager::new(three_levels(), iv(0, 100));
    assert_eq!(tm.request_tiles(iv(10, 90), false), vec![tile(0, 100)]);
    assert_eq!(tm.request_tiles(iv(10, 55), false), vec![tile(0, 50), tile(50, 100)]);
    assert_eq!(tm.request_tiles(iv(30, 50), false), vec![tile(25, 50)]);
}

#[test]
fn equal_ratios_take_the_coarser_level() {
    // A request of 50 is as far from tiles of 100 as from tiles of 25.
    let ts = TileSet {
        tiles: vec![
            vec![tile(0, 100)],
            vec![tile(0, 25), tile(25, 50), tile(50, 75), tile(75, 100)],
        ],
    };
    let mut tm = TileManager::new(ts, iv(0, 100));
    assert_eq!(tm.request_tiles(iv(0, 50), false), vec![tile(0, 100)]);
}

#[test]
fn empty_request_inside_a_tile_gets_nothing() {
    let mut tm = TileManager::new(two_levels(), iv(0, 100));
    assert!(tm.request_tiles(iv(25, 25), true).is_empty());
    assert!(tm.request_tiles(iv(200, 300), true).is_empty());
    assert!(tm.request_tiles(iv(200, 300), false).is_empty());
}

#[test]
fn drift_of_more_than_two_makes_a_new_tile() {
    let mut tm = TileManager::new(TileSet::default(), iv(0, 1000));
    assert_eq!(tm.request_tiles(iv(0, 100), false), vec![tile(0, 100)]);
    // Twice the size is kept, one more is not.
    assert_eq!(tm.request_tiles(iv(0, 200), false), vec![tile(0, 100), tile(100, 200)]);
    assert_eq!(tm.request_tiles(iv(0, 201), false), vec![tile(0, 201)]);
    // Half the size is kept, one less is not.
    let mut tm = TileManager::new(TileSet::default(), iv(0, 1000));
    assert_eq!(tm.request_tiles(iv(0, 100), false), vec![tile(0, 100)]);
    assert_eq!(tm.request_tiles(iv(0, 50), false), vec![tile(0, 100)]);
    assert_eq!(tm.request_tiles(iv(0, 49), false), vec![tile(0, 49)]);
}

#[test]
fn view_beyond_the_row_is_cut_to_the_row() {
    let mut tm = TileManager::new(TileSet::default(), iv(0, 100));
    assert_eq!(tm.request_tiles(iv(-50, 150), false), vec![tile(0, 100)]);
    assert_eq!(tm.request_tiles(iv(90, 150), true), vec![tile(90, 100)]);
}

#[test]
fn rows_at_the_ends_of_time_are_served() {
    let row = iv(i64::MIN, i64::MIN + 100);
    let mut tm = TileManager::new(TileSet::default(), row);
    assert_eq!(
        tm.request_tiles(iv(i64::MIN + 5, i64::MIN + 25), false),
        vec![tile(i64::MIN + 5, i64::MIN + 25)]
    );
    assert_eq!(
        tm.request_tiles(iv(i64::MIN, i64::MIN + 20), false),
        vec![tile(i64::MIN, i64::MIN + 5), tile(i64::MIN + 5, i64::MIN + 25)]
    );
    let row = iv(i64::MAX - 100, i64::MAX);
    let mut tm = TileManager::new(TileSet::default(), row);
    assert_eq!(
        tm.request_tiles(iv(i64::MAX - 30, i64::MAX - 10), false),
        vec![tile(i64::MAX - 30, i64::MAX - 10)]
    );
    assert_eq!(
        tm.request_tiles(iv(i64::MAX - 20, i64::MAX), false),
        vec![tile(i64::MAX - 30, i64::MAX - 10), tile(i64::MAX - 10, i64::MAX)]
    );
}

#[test]
fn invalidate_cache_keeps_the_listed_tiles() {
    let mut cache: BTreeMap<TileID, &str> = BTreeMap::new();
    cache.insert(tile(0, 10), "a");
    cache.insert(tile(10, 20), "b");
    cache.insert(tile(20, 30), "c");
    TileManager::invalidate_cache(&[tile(10, 20), tile(40, 50), tile(0, 10)], &mut cache);
    assert_eq!(cache.len(), 2);
    assert_eq!(cache.get(&tile(0, 10)), Some(&"a"));
    assert_eq!(cache.get(&tile(10, 20)), Some(&"b"));
    assert_eq!(cache.get(&tile(20, 30)), None);
    TileManager::invalidate_cache(&[], &mut cache);
    assert!(cache.is_empty());
}

#[test]
fn contains_tile_finds_listed_tiles() {
    let tiles = [tile(0, 10), tile(10, 20)];
    assert!(contains_tile(&tiles, &tile(10, 20)));
    assert!(!contains_tile(&tiles, &tile(10, 21)));
    assert!(!contains_tile(&[], &tile(0, 10)));
}

#[test]
fn partition_is_checked() {
    let row = iv(0, 100);
    assert!(TileSet::default().is_partition_of(row));
    assert!(two_levels().is_partition_of(row));
    assert!(three_levels().is_partition_of(row));
    assert!(!two_levels().is_partition_of(iv(0, 90)));
    assert!(!two_levels().is_partition_of(iv(10, 100)));
    let gap = TileSet { tiles: vec![vec![tile(0, 40), tile(50, 100)]] };
    assert!(!gap.is_partition_of(row));
    let overlap = TileSet { tiles: vec![vec![tile(0, 60), tile(50, 100)]] };
    assert!(!overlap.is_partition_of(row));
    let backwards = TileSet { tiles: vec![vec![tile(0, 120), tile(120, 100)]] };
    assert!(!backwards.is_partition_of(row));
    let empty_level = TileSet { tiles: vec![vec![]] };
    assert!(!empty_level.is_partition_of(row));
}

#[test]
fn measurable_is_checked() {
    assert!(TileSet::default().is_measurable());
    assert!(three_levels().is_measurable());
    let gap = TileSet { tiles: vec![vec![tile(0, 40), tile(50, 100)]] };
    assert!(gap.is_measurable());
    let empty_level = TileSet { tiles: vec![vec![tile(0, 1)], vec![]] };
    assert!(!empty_level.is_measurable());
    let backwards = TileSet { tiles: vec![vec![tile(10, 0)]] };
    assert!(!backwards.is_measurable());
    let too_long = TileSet { tiles: vec![vec![tile(-2, i64::MAX)]] };
    assert!(!too_long.is_measurable());
    let longest = TileSet { tiles: vec![vec![tile(0, i64::MAX), tile(7, 7)]] };
    assert!(longest.is_measurable());
}

#[test]
fn levels_that_do_not_fill_the_row_are_served_as_they_are() {
    let ts = TileSet { tiles: vec![vec![tile(-50, 40), tile(60, 150)]] };
    let mut tm = TileManager::new(ts, iv(0, 100));
    assert_eq!(tm.request_tiles(iv(30, 70), true), vec![tile(-50, 40), tile(60, 150)]);
    assert!(tm.request_tiles(iv(45, 55), false).is_empty());
    assert_eq!(tm.request_tiles(iv(45, 55), false), Vec::new());
}

#[test]
fn probe_takes_the_longer_of_the_first_two() {
    assert_eq!(probe(&vec![tile(0, 15), tile(15, 85), tile(85, 100)]), 70);
    assert_eq!(probe(&vec![tile(0, 70), tile(70, 100)]), 70);
    assert_eq!(probe(&vec![tile(3, 10)]), 7);
}

#[test]
fn zoom_is_kept_within_a_factor_of_two() {
    let tiles = vec![tile(0, 100)];
    assert!(zoom_kept(&tiles, 100));
    assert!(zoom_kept(&tiles, 200));
    assert!(!zoom_kept(&tiles, 201));
    assert!(zoom_kept(&tiles, 50));
    assert!(!zoom_kept(&tiles, 49));
    assert!(!zoom_kept(&vec![tile(5, 5)], 1));
}

#[test]
fn best_level_is_the_first_with_the_least_ratio() {
    let levels = three_levels().tiles;
    assert_eq!(best_level(&levels, 80), 0);
    assert_eq!(best_level(&levels, 45), 1);
    assert_eq!(best_level(&levels, 20), 2);
    assert_eq!(best_level(&levels, 1000), 0);
    // 100/50 and 50/25 are the same ratio: the first of the two wins.
    assert_eq!(best_level(&vec![vec![tile(0, 100)], vec![tile(0, 25)], vec![tile(0, 100)]], 50), 0);
}

#[test]
fn overlapping_tiles_keep_their_order() {
    let level = vec![tile(0, 25), tile(25, 50), tile(50, 75), tile(75, 100)];
    assert_eq!(overlapping_tiles(&level, iv(25, 75)), vec![tile(25, 50), tile(50, 75)]);
    assert_eq!(overlapping_tiles(&level, iv(24, 76)), level);
    assert!(overlapping_tiles(&level, iv(100, 120)).is_empty());
}

#[test]
fn span_is_the_envelope() {
    assert_eq!(span(&vec![tile(5, 25), tile(10, 30), tile(0, 7)]), iv(0, 30));
    assert_eq!(span(&vec![tile(5, 25)]), iv(5, 25));
}

#[test]
fn count_tiles_rounds_up() {
    assert_eq!(count_tiles(0, 10), 0);
    assert_eq!(count_tiles(-5, 10), 0);
    assert_eq!(count_tiles(1, 10), 1);
    assert_eq!(count_tiles(10, 10), 1);
    assert_eq!(count_tiles(11, 10), 2);
    assert_eq!(count_tiles(i64::MAX, 1), i64::MAX);
    assert_eq!(count_tiles(i64::MAX, i64::MAX), 1);
}

#[test]
fn shifted_tile_is_moved_and_cut() {
    let row = iv(0, 100);
    assert_eq!(shifted_tile(iv(20, 40), 1, 20, row), iv(40, 60));
    assert_eq!(shifted_tile(iv(20, 40), -1, 20, row), iv(0, 20));
    assert_eq!(shifted_tile(iv(20, 40), 4, 15, row), iv(80, 100));
    assert_eq!(shifted_tile(iv(20, 40), -2, 15, row), iv(0, 10));
}

#[test]
fn extend_tiles_adds_to_both_sides() {
    let row = iv(0, 100);
    assert_eq!(
        extend_tiles(&vec![tile(40, 50)], iv(25, 71), row),
        vec![tile(20, 30), tile(30, 40), tile(40, 50), tile(50, 60), tile(60, 70), tile(70, 80)]
    );
    assert_eq!(extend_tiles(&vec![tile(40, 50)], iv(41, 49), row), vec![tile(40, 50)]);
}
