use crate::data::{
    lemma_path_before_irreflexive, path_before, EntryIndex, SlotMetaTile, SlotTile,
};
use crate::export::matcher::{
    complete_pairs, in_order, is_complete, lemma_place_of, lemma_place_splits,
    lemma_with_meta_tile_in_order, lemma_with_tile_in_order, place_of, waiting, well_keyed,
    with_meta_tile, with_tile, Held, MatchedTile,
};
use vstd::prelude::*;

verus! {

/// The row that is held for the path `key`, if there is one.
pub open spec fn row_for(rows: Seq<Held>, key: Seq<EntryIndex>) -> Option<Held> {
    let at = place_of(rows, key, 0);
    if at < rows.len() && rows[at].0 == key {
        Some(rows[at])
    } else {
        None
    }
}

/// The test whether a pair is of the row with the path `key`.
pub open spec fn of_path(key: Seq<EntryIndex>) -> spec_fn(MatchedTile) -> bool {
    |pair: MatchedTile| pair.tile.entry_id@ == key
}

/// The pairs that are handed out for the path `key`.
pub open spec fn pairs_for(pairs: Seq<MatchedTile>, key: Seq<EntryIndex>) -> Seq<MatchedTile> {
    pairs.filter(of_path(key))
}

/// Among rows in order, a row is the row for its path.
pub proof fn lemma_row_for_found(rows: Seq<Held>, i: int)
    requires
        in_order(rows),
        0 <= i < rows.len(),
    ensures
        row_for(rows, rows[i].0) == Some(rows[i]),
{
    let key = rows[i].0;
    lemma_path_before_irreflexive(key);
    assert forall|j: int| 0 <= j < i implies path_before(rows[j].0, key) by {}
    lemma_place_of(rows, key, 0, i);
}

/// Among rows in order, a path that no row has has no row for it, and a
/// row for a path is one of the rows and has that path.
pub proof fn lemma_row_for_is_a_row(rows: Seq<Held>, key: Seq<EntryIndex>)
    requires
        in_order(rows),
    ensures
        row_for(rows, key) is Some <==> exists|i: int| 0 <= i < rows.len() && rows[i].0 == key,
        row_for(rows, key) is Some ==> (row_for(rows, key)->0).0 == key,
{
    lemma_place_splits(rows, key, 0);
    if exists|i: int| 0 <= i < rows.len() && rows[i].0 == key {
        let i = choose|i: int| 0 <= i < rows.len() && rows[i].0 == key;
        lemma_row_for_found(rows, i);
    }
}

/// After a tile has been put in its place, the row for its path holds it,
/// with what was told of it before if anything was, and the rows for all
/// other paths are as they were.
pub proof fn lemma_with_tile_rows(rows: Seq<Held>, tile: SlotTile, key: Seq<EntryIndex>)
    requires
        in_order(rows),
        well_keyed(rows),
    ensures
        key == tile.entry_id@ ==> row_for(with_tile(rows, tile), key) == Some(
            (
                key,
                Some(tile),
                match row_for(rows, key) {
                    Some(row) => row.2,
                    None => None,
                },
            ),
        ),
        key != tile.entry_id@ ==> row_for(with_tile(rows, tile), key) == row_for(rows, key),
{
    let own = tile.entry_id@;
    let next = with_tile(rows, tile);
    let at = place_of(rows, own, 0);
    lemma_with_tile_in_order(rows, tile);
    lemma_place_splits(rows, own, 0);
    lemma_row_for_is_a_row(rows, key);
    lemma_row_for_is_a_row(next, key);
    let updated = at < rows.len() && rows[at].0 == own;
    if key == own {
        lemma_row_for_found(next, at);
    } else if row_for(rows, key) is Some {
        let i = choose|i: int| 0 <= i < rows.len() && rows[i].0 == key;
        lemma_row_for_found(rows, i);
        if updated {
            assert(next[i] == rows[i]);
            lemma_row_for_found(next, i);
        } else if i < at {
            assert(next[i] == rows[i]);
            lemma_row_for_found(next, i);
        } else {
            assert(next[i + 1] == rows[i]);
            lemma_row_for_found(next, i + 1);
        }
    } else {
        if row_for(next, key) is Some {
            let j = choose|j: int| 0 <= j < next.len() && next[j].0 == key;
            if updated {
                assert(next[j].0 == rows[j].0);
            } else if j < at {
                assert(next[j] == rows[j]);
            } else if j > at {
                assert(next[j] == rows[j - 1]);
            }
        }
    }
}

/// After what is told of a tile has been put in its place, the row for its
/// path holds it, with the tile that came before if one did, and the rows
/// for all other paths are as they were.
pub proof fn lemma_with_meta_tile_rows(
    rows: Seq<Held>,
    meta_tile: SlotMetaTile,
    key: Seq<EntryIndex>,
)
    requires
        in_order(rows),
        well_keyed(rows),
    ensures
        key == meta_tile.entry_id@ ==> row_for(with_meta_tile(rows, meta_tile), key) == Some(
            (
                key,
                match row_for(rows, key) {
                    Some(row) => row.1,
                    None => None,
                },
                Some(meta_tile),
            ),
        ),
        key != meta_tile.entry_id@ ==> row_for(with_meta_tile(rows, meta_tile), key) == row_for(
            rows,
            key,
        ),
{
    let own = meta_tile.entry_id@;
    let next = with_meta_tile(rows, meta_tile);
    let at = place_of(rows, own, 0);
    lemma_with_meta_tile_in_order(rows, meta_tile);
    lemma_place_splits(rows, own, 0);
    lemma_row_for_is_a_row(rows, key);
    lemma_row_for_is_a_row(next, key);
    let updated = at < rows.len() && rows[at].0 == own;
    if key == own {
        lemma_row_for_found(next, at);
    } else if row_for(rows, key) is Some {
        let i = choose|i: int| 0 <= i < rows.len() && rows[i].0 == key;
        lemma_row_for_found(rows, i);
        if updated {
            assert(next[i] == rows[i]);
            lemma_row_for_found(next, i);
        } else if i < at {
            assert(next[i] == rows[i]);
            lemma_row_for_found(next, i);
        } else {
            assert(next[i + 1] == rows[i]);
            lemma_row_for_found(next, i + 1);
        }
    } else {
        if row_for(next, key) is Some {
            let j = choose|j: int| 0 <= j < next.len() && next[j].0 == key;
            if updated {
                assert(next[j].0 == rows[j].0);
            } else if j < at {
                assert(next[j] == rows[j]);
            } else if j > at {
                assert(next[j] == rows[j - 1]);
            }
        }
    }
}

/// The rows that stay when some are taken out are still in order, with each
/// tile in the row of its path.
pub proof fn lemma_kept_in_order(rows: Seq<Held>, keep: spec_fn(Held) -> bool)
    requires
        in_order(rows),
        well_keyed(rows),
    ensures
        in_order(rows.filter(keep)),
        well_keyed(rows.filter(keep)),
    decreases rows.len(),
{
    let kept = rows.filter(keep);
    assert forall|i: int| 0 <= i < kept.len() implies rows.contains(#[trigger] kept[i]) by {
        assert(kept.contains(kept[i]));
        rows.lemma_filter_contains_rev(keep, kept[i]);
    }
    assert forall|i: int| 0 <= i < kept.len() implies {
        &&& (#[trigger] kept[i]).1 is Some ==> kept[i].1->0.entry_id@ == kept[i].0
        &&& kept[i].2 is Some ==> kept[i].2->0.entry_id@ == kept[i].0
    } by {
        assert(rows.contains(kept[i]));
        let j = choose|j: int| 0 <= j < rows.len() && rows[j] == kept[i];
        assert(rows[j].1 is Some ==> rows[j].1->0.entry_id@ == rows[j].0);
    }
    reveal(Seq::filter);
    if rows.len() > 0 {
        let front = rows.drop_last();
        assert forall|a: int, b: int| 0 <= a < b < front.len() implies path_before(
            front[a].0,
            front[b].0,
        ) by {
            assert(front[a] == rows[a] && front[b] == rows[b]);
        }
        assert forall|i: int| 0 <= i < front.len() implies {
            &&& (#[trigger] front[i]).1 is Some ==> front[i].1->0.entry_id@ == front[i].0
            &&& front[i].2 is Some ==> front[i].2->0.entry_id@ == front[i].0
        } by {
            assert(front[i] == rows[i]);
        }
        lemma_kept_in_order(front, keep);
        let kept_front = front.filter(keep);
        if keep(rows.last()) {
            assert(kept == kept_front.push(rows.last()));
            assert forall|a: int, b: int| 0 <= a < b < kept.len() implies path_before(
                kept[a].0,
                kept[b].0,
            ) by {
                if b < kept_front.len() {
                    assert(kept[a] == kept_front[a] && kept[b] == kept_front[b]);
                } else {
                    assert(kept[a] == kept_front[a]);
                    assert(kept_front.contains(kept_front[a]));
                    front.lemma_filter_contains_rev(keep, kept_front[a]);
                    let j = choose|j: int| 0 <= j < front.len() && front[j] == kept_front[a];
                    assert(front[j] == rows[j]);
                }
            }
        } else {
            assert(kept == kept_front);
        }
    }
}

/// When the complete rows are taken out, a row that waits for a tile stays
/// as it is, and for the path of a complete row no row is left.
pub proof fn lemma_waiting_rows(rows: Seq<Held>, key: Seq<EntryIndex>)
    requires
        in_order(rows),
        well_keyed(rows),
    ensures
        row_for(waiting(rows), key) == match row_for(rows, key) {
            Some(row) => if is_complete(row) {
                None
            } else {
                Some(row)
            },
            None => None,
        },
{
    let keep = |row: Held| !is_complete(row);
    let kept = waiting(rows);
    lemma_kept_in_order(rows, keep);
    lemma_row_for_is_a_row(rows, key);
    lemma_row_for_is_a_row(kept, key);
    if row_for(kept, key) is Some {
        let j = choose|j: int| 0 <= j < kept.len() && kept[j].0 == key;
        lemma_row_for_found(kept, j);
        rows.lemma_filter_pred(keep, j);
        assert(kept.contains(kept[j]));
        rows.lemma_filter_contains_rev(keep, kept[j]);
        let i = choose|i: int| 0 <= i < rows.len() && rows[i] == kept[j];
        lemma_row_for_found(rows, i);
    } else if row_for(rows, key) is Some {
        let i = choose|i: int| 0 <= i < rows.len() && rows[i].0 == key;
        lemma_row_for_found(rows, i);
        if !is_complete(rows[i]) {
            rows.lemma_filter_contains(keep, i);
            let j = choose|j: int| 0 <= j < kept.len() && kept[j] == rows[i];
            assert(kept[j].0 == key);
        }
    }
}

/// The pairs that are handed out for a path: the pair of its row where the
/// row is complete, and that pair once; none for any other path.
pub proof fn lemma_pairs_for(rows: Seq<Held>, key: Seq<EntryIndex>)
    requires
        in_order(rows),
        well_keyed(rows),
    ensures
        pairs_for(complete_pairs(rows), key) == match row_for(rows, key) {
            Some(row) => if is_complete(row) {
                seq![MatchedTile { tile: row.1->0, meta_tile: row.2->0 }]
            } else {
                Seq::empty()
            },
            None => Seq::empty(),
        },
    decreases rows.len(),
{
    let complete = |row: Held| is_complete(row);
    let paired = |row: Held| MatchedTile { tile: row.1->0, meta_tile: row.2->0 };
    let of_key = of_path(key);
    reveal(Seq::filter);
    lemma_row_for_is_a_row(rows, key);
    if rows.len() == 0 {
        assert(complete_pairs(rows) =~= Seq::empty());
    } else {
        let front = rows.drop_last();
        let last = rows.last();
        assert forall|a: int, b: int| 0 <= a < b < front.len() implies path_before(
            front[a].0,
            front[b].0,
        ) by {
            assert(front[a] == rows[a] && front[b] == rows[b]);
        }
        assert forall|i: int| 0 <= i < front.len() implies {
            &&& (#[trigger] front[i]).1 is Some ==> front[i].1->0.entry_id@ == front[i].0
            &&& front[i].2 is Some ==> front[i].2->0.entry_id@ == front[i].0
        } by {
            assert(front[i] == rows[i]);
        }
        lemma_pairs_for(front, key);
        lemma_row_for_is_a_row(front, key);
        let front_pairs = complete_pairs(front);
        assert(last.1 is Some ==> last.1->0.entry_id@ == last.0);
        lemma_row_for_found(rows, rows.len() - 1);
        // the row for the path among the earlier rows
        if last.0 == key {
            if row_for(front, key) is Some {
                let i = choose|i: int| 0 <= i < front.len() && front[i].0 == key;
                assert(front[i] == rows[i]);
                lemma_path_before_irreflexive(key);
            }
            assert(row_for(front, key) is None);
            assert(pairs_for(front_pairs, key) == Seq::<MatchedTile>::empty());
        } else {
            if row_for(rows, key) is Some {
                let i = choose|i: int| 0 <= i < rows.len() && rows[i].0 == key;
                lemma_row_for_found(rows, i);
                assert(front[i] == rows[i]);
                lemma_row_for_found(front, i);
            } else if row_for(front, key) is Some {
                let i = choose|i: int| 0 <= i < front.len() && front[i].0 == key;
                assert(front[i] == rows[i]);
            }
            assert(row_for(front, key) == row_for(rows, key));
        }
        // what the last row adds
        if is_complete(last) {
            assert(rows.filter(complete) == front.filter(complete).push(last));
            assert(complete_pairs(rows) =~= front_pairs.push(paired(last)));
            front_pairs.lemma_filter_push(paired(last), of_key);
            if last.0 == key {
                assert(pairs_for(complete_pairs(rows), key) =~= seq![paired(last)]);
            }
        } else {
            assert(rows.filter(complete) == front.filter(complete));
            assert(complete_pairs(rows) =~= front_pairs);
        }
    }
}

/// A row whose two tiles come, in either order and with or without a round
/// in between, is handed out as one pair, once, and leaves nothing behind.
///
/// `rows` hold nothing for the path of `tile` and `meta_tile`. Whichever of
/// the two is taken in first, the row waits through any round until the
/// other has come; the round after that hands out the pair of the two and
/// no other pair for the path, and no row for the path is left in the hold.
pub proof fn lemma_row_is_paired_once(rows: Seq<Held>, tile: SlotTile, meta_tile: SlotMetaTile)
    requires
        in_order(rows),
        well_keyed(rows),
        tile.entry_id@ == meta_tile.entry_id@,
        row_for(rows, tile.entry_id@) is None,
    ensures
        ({
            let key = tile.entry_id@;
            let pair = MatchedTile { tile, meta_tile };
            let tile_first = with_tile(rows, tile);
            let meta_first = with_meta_tile(rows, meta_tile);
            let both = with_meta_tile(tile_first, meta_tile);
            let both_late = with_meta_tile(waiting(tile_first), meta_tile);
            let other = with_tile(meta_first, tile);
            let other_late = with_tile(waiting(meta_first), tile);
            &&& pairs_for(complete_pairs(tile_first), key) == Seq::<MatchedTile>::empty()
            &&& pairs_for(complete_pairs(meta_first), key) == Seq::<MatchedTile>::empty()
            &&& pairs_for(complete_pairs(both), key) == seq![pair]
            &&& pairs_for(complete_pairs(both_late), key) == seq![pair]
            &&& pairs_for(complete_pairs(other), key) == seq![pair]
            &&& pairs_for(complete_pairs(other_late), key) == seq![pair]
            &&& row_for(waiting(both), key) is None
            &&& row_for(waiting(both_late), key) is None
            &&& row_for(waiting(other), key) is None
            &&& row_for(waiting(other_late), key) is None
        }),
{
    let key = tile.entry_id@;
    let tile_first = with_tile(rows, tile);
    let meta_first = with_meta_tile(rows, meta_tile);
    lemma_with_tile_in_order(rows, tile);
    lemma_with_meta_tile_in_order(rows, meta_tile);
    lemma_with_tile_rows(rows, tile, key);
    lemma_with_meta_tile_rows(rows, meta_tile, key);
    lemma_pairs_for(tile_first, key);
    lemma_pairs_for(meta_first, key);
    let keep = |row: Held| !is_complete(row);
    lemma_kept_in_order(tile_first, keep);
    lemma_kept_in_order(meta_first, keep);
    lemma_waiting_rows(tile_first, key);
    lemma_waiting_rows(meta_first, key);

    let both = with_meta_tile(tile_first, meta_tile);
    lemma_with_meta_tile_in_order(tile_first, meta_tile);
    lemma_with_meta_tile_rows(tile_first, meta_tile, key);
    lemma_pairs_for(both, key);
    lemma_waiting_rows(both, key);

    let both_late = with_meta_tile(waiting(tile_first), meta_tile);
    lemma_with_meta_tile_in_order(waiting(tile_first), meta_tile);
    lemma_with_meta_tile_rows(waiting(tile_first), meta_tile, key);
    lemma_pairs_for(both_late, key);
    lemma_waiting_rows(both_late, key);

    let other = with_tile(meta_first, tile);
    lemma_with_tile_in_order(meta_first, tile);
    lemma_with_tile_rows(meta_first, tile, key);
    lemma_pairs_for(other, key);
    lemma_waiting_rows(other, key);

    let other_late = with_tile(waiting(meta_first), tile);
    lemma_with_tile_in_order(waiting(meta_first), tile);
    lemma_with_tile_rows(waiting(meta_first), tile, key);
    lemma_pairs_for(other_late, key);
    lemma_waiting_rows(other_late, key);
}

} // verus!
