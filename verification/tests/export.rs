use legion_prof_viewer::data::{
    Color, DataSource, DataSourceDescription, DataSourceInfo, EntryID, EntryIndex, EntryInfo,
    Item, ItemMeta, Precedence, SlotMetaTile, SlotMetaTileData, SlotTile, SlotTileData,
    SummaryTile, SummaryTileData, TileID, TileSet,
};
use legion_prof_viewer::deferred_data::{
    CountingDeferredDataSource, DeferredDataSource, DeferredDataSourceWrapper, TileRequest,
};
use legion_prof_viewer::export::entries::{stream_name, walk_entry_list, LEGION_DOMAIN_NAME};
use legion_prof_viewer::export::events::{argb, event_time, item_event, matched_events, row_events};
use legion_prof_viewer::export::matcher::{process_responses, UnmatchedTileHold};
use legion_prof_viewer::export::requests::{fetch_row, must_drain, MAX_IN_FLIGHT_REQUESTS};
use legion_prof_viewer::timestamp::{Interval, Timestamp};

fn iv(start: i64, stop: i64) -> Interval {
    Interval::new(Timestamp(start), Timestamp(stop))
}

fn slot(short_name: &str, long_name: &str) -> EntryInfo {
    EntryInfo::Slot {
        short_name: short_name.to_string(),
        long_name: long_name.to_string(),
        max_rows: 4,
    }
}

fn panel(short_name: &str, summary: bool, slots: Vec<EntryInfo>) -> EntryInfo {
    EntryInfo::Panel {
        short_name: short_name.to_string(),
        long_name: format!("long {}", short_name),
        summary: if summary {
            Some(Box::new(EntryInfo::Summary { color: Color { r: 0, g: 0, b: 0, a: 255 } }))
        } else {
            None
        },
        slots,
    }
}

fn value(entry_id: &EntryID, boxes: Vec<Vec<(i64, i64)>>) -> SlotTile {
    SlotTile {
        entry_id: entry_id.clone(),
        tile_id: TileID(iv(0, 100)),
        data: SlotTileData {
            items: boxes
                .into_iter()
                .map(|row| {
                    row.into_iter()
                        .map(|(a, b)| Item {
                            interval: iv(a, b),
                            color: Color { r: 0x12, g: 0x34, b: 0x56, a: 0x78 },
                        })
                        .collect()
                })
                .collect(),
        },
    }
}

fn meta(entry_id: &EntryID, titles: Vec<Vec<&str>>) -> SlotMetaTile {
    SlotMetaTile {
        entry_id: entry_id.clone(),
        tile_id: TileID(iv(0, 100)),
        data: SlotMetaTileData {
            items: titles
                .into_iter()
                .map(|row| row.into_iter().map(|t| ItemMeta { title: t.to_string() }).collect())
                .collect(),
        },
    }
}

fn request(entry_id: &EntryID) -> TileRequest {
    TileRequest { entry_id: entry_id.clone(), tile_id: TileID(iv(0, 100)), full: true }
}

struct Fixed;

impl DataSource for Fixed {
    fn fetch_description(&self) -> DataSourceDescription {
        DataSourceDescription { source_locator: Vec::new() }
    }

    fn fetch_info(&self) -> DataSourceInfo {
        DataSourceInfo {
            entry_info: slot("s", "slot"),
            interval: iv(0, 100),
            tile_set: TileSet::default(),
            warning_message: None,
        }
    }

    fn fetch_summary_tile(&self, entry_id: &EntryID, tile_id: TileID, _full: bool) -> SummaryTile {
        SummaryTile {
            entry_id: entry_id.clone(),
            tile_id,
            data: SummaryTileData { utilization: Vec::new() },
        }
    }

    fn fetch_slot_tile(&self, entry_id: &EntryID, _tile_id: TileID, _full: bool) -> SlotTile {
        value(entry_id, vec![vec![(1, 2)]])
    }

    fn fetch_slot_meta_tile(
        &self,
        entry_id: &EntryID,
        _tile_id: TileID,
        _full: bool,
    ) -> SlotMetaTile {
        meta(entry_id, vec![vec!["one"]])
    }
}

#[test]
fn entry_ids_are_paths() {
    let root = EntryID::root();
    assert_eq!(root.level(), 0);
    assert_eq!(root.last_index(), None);
    let row = root.child(2).child(5);
    assert_eq!(row.level(), 2);
    assert_eq!(row.last_index(), Some(EntryIndex::Slot(5)));
    assert_eq!(row.summary().last_index(), Some(EntryIndex::Summary));
    assert_eq!(row.summary().level(), 3);
    assert_eq!(row.clone(), row);
    assert_ne!(root.child(2).child(6), row);
}

#[test]
fn entry_ids_are_ordered_as_words() {
    let root = EntryID::root();
    let a = root.child(1);
    let ab = root.child(1).child(0);
    let b = root.child(2);
    let s = root.summary();
    assert_eq!(root.precedence(&root), Precedence::Same);
    assert_eq!(root.precedence(&a), Precedence::Before);
    assert_eq!(a.precedence(&root), Precedence::After);
    assert_eq!(a.precedence(&ab), Precedence::Before);
    assert_eq!(ab.precedence(&b), Precedence::Before);
    assert_eq!(b.precedence(&ab), Precedence::After);
    assert_eq!(s.precedence(&a), Precedence::Before);
    assert_eq!(a.precedence(&s), Precedence::After);
    assert_eq!(ab.precedence(&root.child(1).child(0)), Precedence::Same);
    // The order is that of the derived comparison.
    for (x, y) in [(&root, &a), (&a, &ab), (&ab, &b), (&s, &a), (&b, &s), (&ab, &ab)] {
        let expected = match x.cmp(y) {
            std::cmp::Ordering::Less => Precedence::Before,
            std::cmp::Ordering::Equal => Precedence::Same,
            std::cmp::Ordering::Greater => Precedence::After,
        };
        assert_eq!(x.precedence(y), expected);
    }
}

#[test]
fn walk_lists_the_slots_in_order() {
    let tree = panel(
        "root",
        true,
        vec![
            panel("node", true, vec![slot("cpu", "CPU 0"), slot("gpu", "GPU 0")]),
            slot("top", "Top"),
            panel("empty", false, vec![]),
            panel("deep", false, vec![panel("er", false, vec![slot("x", "X")])]),
        ],
    );
    let root = EntryID::root();
    let listed = walk_entry_list(&tree);
    let expected = vec![
        (root.child(0).child(0), "CPU 0".to_string(), "Legion/node/cpu".to_string()),
        (root.child(0).child(1), "GPU 0".to_string(), "Legion/node/gpu".to_string()),
        (root.child(1), "Top".to_string(), "Legion/top".to_string()),
        (root.child(3).child(0).child(0), "X".to_string(), "Legion/deep/er/x".to_string()),
    ];
    assert_eq!(listed, expected);
}

#[test]
fn walk_of_a_single_slot_and_of_a_summary() {
    let listed = walk_entry_list(&slot("only", "Only"));
    assert_eq!(listed, vec![(EntryID::root(), "Only".to_string(), "Legion/only".to_string())]);
    let summary = EntryInfo::Summary { color: Color { r: 1, g: 2, b: 3, a: 4 } };
    assert!(walk_entry_list(&summary).is_empty());
    assert!(walk_entry_list(&panel("root", true, vec![])).is_empty());
}

#[test]
fn streams_are_named_after_the_domain() {
    assert_eq!(LEGION_DOMAIN_NAME, "Legion");
    assert_eq!(stream_name("CPU 0"), "Legion CPU 0");
    assert_eq!(stream_name(""), "Legion ");
}

#[test]
fn event_time_adds_the_zero_time() {
    assert_eq!(event_time(Timestamp(5), 100), Some(105));
    assert_eq!(event_time(Timestamp(0), 0), Some(0));
    assert_eq!(event_time(Timestamp(i64::MAX), i64::MAX), Some(u64::MAX - 1));
}

#[test]
fn event_time_is_the_sum_where_it_fits() {
    assert_eq!(event_time(Timestamp(5), -1), Some(4));
    assert_eq!(event_time(Timestamp(-1), 1), Some(0));
    assert_eq!(event_time(Timestamp(-10), 13), Some(3));
    assert_eq!(event_time(Timestamp(i64::MAX), i64::MIN + 1), Some(0));
}

#[test]
fn event_time_rejects_what_does_not_fit() {
    assert_eq!(event_time(Timestamp(-1), 0), None);
    assert_eq!(event_time(Timestamp(5), -6), None);
    assert_eq!(event_time(Timestamp(-10), 3), None);
    assert_eq!(event_time(Timestamp(i64::MIN), i64::MAX), None);
    assert_eq!(event_time(Timestamp(i64::MIN), i64::MIN), None);
}

#[test]
fn argb_has_full_alpha() {
    assert_eq!(argb(Color { r: 0x12, g: 0x34, b: 0x56, a: 0x78 }), 0xff123456);
    assert_eq!(argb(Color { r: 0, g: 0, b: 0, a: 0 }), 0xff000000);
    assert_eq!(argb(Color { r: 255, g: 255, b: 255, a: 255 }), 0xffffffff);
}

#[test]
fn events_of_matching_tiles() {
    let row = EntryID::root().child(0);
    let tile = value(&row, vec![vec![(1, 2), (3, 7)], vec![], vec![(10, 20)]]);
    let meta_tile = meta(&row, vec![vec!["a", "b"], vec![], vec!["c"]]);
    let events = matched_events(1000, &tile, &meta_tile).unwrap();
    assert_eq!(events.len(), 3);
    assert_eq!(events[0].len(), 2);
    assert!(events[1].is_empty());
    assert_eq!(events[0][1].time_start, 1003);
    assert_eq!(events[0][1].time_stop, 1007);
    assert_eq!(events[0][1].name, "b");
    assert_eq!(events[0][1].color, 0xff123456);
    assert_eq!(events[2][0].time_start, 1010);
    assert_eq!(events[2][0].name, "c");
}

#[test]
fn events_of_tiles_that_differ_in_shape() {
    let row = EntryID::root().child(0);
    let tile = value(&row, vec![vec![(1, 2), (3, 7)]]);
    assert!(matched_events(0, &tile, &meta(&row, vec![vec!["a"]])).is_none());
    assert!(matched_events(0, &tile, &meta(&row, vec![vec!["a", "b"], vec![]])).is_none());
    assert!(matched_events(0, &tile, &meta(&row, vec![])).is_none());
    assert!(matched_events(0, &tile, &meta(&row, vec![vec!["a", "b"]])).is_some());
}

#[test]
fn events_that_do_not_fit_the_clock() {
    let row = EntryID::root().child(0);
    let tile = value(&row, vec![vec![(1, 2), (-5, 7)]]);
    let meta_tile = meta(&row, vec![vec!["a", "b"]]);
    assert!(matched_events(4, &tile, &meta_tile).is_none());
    assert!(matched_events(-1, &tile, &meta_tile).is_none());
    assert!(row_events(&tile.data.items[0], &meta_tile.data.items[0], 4).is_none());
    assert!(item_event(&tile.data.items[0][0], &meta_tile.data.items[0][0], 4).is_some());
    assert!(item_event(&tile.data.items[0][1], &meta_tile.data.items[0][1], 4).is_none());
    // With a zero time late enough, the box that starts before zero fits.
    let events = matched_events(10, &tile, &meta_tile).unwrap();
    assert_eq!(events[0][1].time_start, 5);
    assert_eq!(events[0][1].time_stop, 17);
    let events = matched_events(-1, &value(&row, vec![vec![(1, 2)]]), &meta(&row, vec![vec!["a"]]));
    assert_eq!(events.unwrap()[0][0].time_start, 0);
}

#[test]
fn matcher_pairs_each_row_once() {
    let root = EntryID::root();
    let rows: Vec<EntryID> = vec![root.child(2), root.child(0), root.child(1).child(4), root.child(1)];
    let mut hold = UnmatchedTileHold::new();
    // The values come first, in one order, and nothing matches yet.
    let values = rows.iter().map(|r| (Ok(value(r, vec![vec![(1, 2)]])), request(r))).collect();
    let out = process_responses(&mut hold, values, Vec::new());
    assert!(out.matched.is_empty());
    assert!(out.failed.is_empty());
    assert_eq!(hold.len(), 4);
    // Two of the metas come, in another order.
    let metas = vec![
        (Ok(meta(&rows[3], vec![vec!["d"]])), request(&rows[3])),
        (Ok(meta(&rows[0], vec![vec!["a"]])), request(&rows[0])),
    ];
    let out = process_responses(&mut hold, Vec::new(), metas);
    let ids: Vec<EntryID> = out.matched.iter().map(|m| m.tile.entry_id.clone()).collect();
    assert_eq!(ids, vec![root.child(1), root.child(2)]);
    for m in &out.matched {
        assert_eq!(m.tile.entry_id, m.meta_tile.entry_id);
    }
    assert_eq!(out.matched[0].meta_tile.data.items[0][0].title, "d");
    assert_eq!(hold.len(), 2);
    // The rest comes, and the hold is empty again.
    let metas = vec![
        (Ok(meta(&rows[2], vec![vec!["c"]])), request(&rows[2])),
        (Ok(meta(&rows[1], vec![vec!["b"]])), request(&rows[1])),
    ];
    let out = process_responses(&mut hold, Vec::new(), metas);
    let ids: Vec<EntryID> = out.matched.iter().map(|m| m.tile.entry_id.clone()).collect();
    assert_eq!(ids, vec![root.child(0), root.child(1).child(4)]);
    assert!(hold.is_empty());
}

#[test]
fn matcher_pairs_within_one_round() {
    let row = EntryID::root().child(9);
    let mut hold = UnmatchedTileHold::new();
    let out = process_responses(
        &mut hold,
        vec![(Ok(value(&row, vec![vec![(1, 2)]])), request(&row))],
        vec![(Ok(meta(&row, vec![vec!["x"]])), request(&row))],
    );
    assert_eq!(out.matched.len(), 1);
    assert!(hold.is_empty());
}

#[test]
fn matcher_keeps_the_latest_of_a_kind() {
    let row = EntryID::root().child(9);
    let mut hold = UnmatchedTileHold::new();
    hold.hold_tile(value(&row, vec![vec![(1, 2)]]));
    hold.hold_tile(value(&row, vec![vec![(3, 4)]]));
    assert_eq!(hold.len(), 1);
    assert!(hold.take_matched().is_empty());
    hold.hold_meta_tile(meta(&row, vec![vec!["x"]]));
    let matched = hold.take_matched();
    assert_eq!(matched.len(), 1);
    assert_eq!(matched[0].tile.data.items[0][0].interval, iv(3, 4));
    assert!(hold.is_empty());
    assert!(hold.take_matched().is_empty());
}

#[test]
fn matcher_reports_failed_requests() {
    let a = EntryID::root().child(0);
    let b = EntryID::root().child(1);
    let mut hold = UnmatchedTileHold::new();
    let out = process_responses(
        &mut hold,
        vec![
            (Err("no such tile".to_string()), request(&a)),
            (Ok(value(&b, vec![vec![(1, 2)]])), request(&b)),
        ],
        vec![
            (Ok(meta(&b, vec![vec!["x"]])), request(&b)),
            (Err("timed out".to_string()), request(&a)),
        ],
    );
    assert_eq!(out.matched.len(), 1);
    assert_eq!(out.matched[0].tile.entry_id, b);
    assert_eq!(out.failed.len(), 2);
    assert_eq!(out.failed[0].message, "no such tile");
    assert_eq!(out.failed[0].request.entry_id, a);
    assert_eq!(out.failed[1].message, "timed out");
    assert!(hold.is_empty());
}

#[test]
fn export_loop_drains_to_quiescence() {
    let tree = panel(
        "root",
        true,
        vec![panel("node", true, vec![slot("cpu", "CPU 0"), slot("gpu", "GPU 0")]), slot("t", "T")],
    );
    let entries = walk_entry_list(&tree);
    let mut source = CountingDeferredDataSource::new(DeferredDataSourceWrapper::new(Fixed));
    let mut hold = UnmatchedTileHold::new();
    let mut written: Vec<EntryID> = Vec::new();
    for (entry_id, _, _) in &entries {
        assert!(fetch_row(&mut source, entry_id, TileID(iv(0, 100)), true));
        while must_drain(source.outstanding_requests(), 2) {
            let tiles = source.get_slot_tiles();
            let metas = source.get_slot_meta_tiles();
            for m in process_responses(&mut hold, tiles, metas).matched {
                assert_eq!(matched_events(0, &m.tile, &m.meta_tile).unwrap()[0][0].name, "one");
                written.push(m.tile.entry_id);
            }
        }
    }
    while must_drain(source.outstanding_requests(), 0) {
        let tiles = source.get_slot_tiles();
        let metas = source.get_slot_meta_tiles();
        for m in process_responses(&mut hold, tiles, metas).matched {
            written.push(m.tile.entry_id);
        }
    }
    assert!(hold.is_empty());
    assert_eq!(source.outstanding_requests(), 0);
    written.sort();
    let mut expected: Vec<EntryID> = entries.iter().map(|e| e.0.clone()).collect();
    expected.sort();
    assert_eq!(written, expected);
}

#[test]
fn summary_rows_are_not_asked_for() {
    let mut source = CountingDeferredDataSource::new(DeferredDataSourceWrapper::new(Fixed));
    let row = EntryID::root().child(0).summary();
    assert!(!fetch_row(&mut source, &row, TileID(iv(0, 1)), true));
    assert_eq!(source.outstanding_requests(), 0);
    assert!(fetch_row(&mut source, &EntryID::root().child(0), TileID(iv(0, 1)), true));
    assert_eq!(source.outstanding_requests(), 2);
}

#[test]
fn backpressure_limit() {
    assert_eq!(MAX_IN_FLIGHT_REQUESTS, 100);
    assert!(must_drain(101, MAX_IN_FLIGHT_REQUESTS));
    assert!(!must_drain(100, MAX_IN_FLIGHT_REQUESTS));
    assert!(must_drain(1, 0));
    assert!(!must_drain(0, 0));
}
