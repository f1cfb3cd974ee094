use crate::data::{
    lemma_path_before_irreflexive, lemma_path_before_transitive, path_before, EntryID,
    EntryIndex, Precedence, SlotMetaTile, SlotTile,
};
use crate::deferred_data::{SlotMetaTileResponse, SlotTileResponse, TileRequest};
use vstd::prelude::*;

verus! {

/// What is held of one row while one of its two tiles is waited for.
pub struct HeldRow {
    pub entry_id: EntryID,
    pub tile: Option<SlotTile>,
    pub meta_tile: Option<SlotMetaTile>,
}

/// The tile of a row together with what is told of it.
pub struct MatchedTile {
    pub tile: SlotTile,
    pub meta_tile: SlotMetaTile,
}

/// A request that came back with an error, and what the error said.
pub struct FailedRequest {
    pub message: String,
    pub request: TileRequest,
}

/// What a round of responses brought: the rows whose two tiles are both
/// there, in the order of their paths, and the requests that failed.
pub struct Processed {
    pub matched: Vec<MatchedTile>,
    pub failed: Vec<FailedRequest>,
}

/// A row that is held, as contracts speak of it: its path and its two
/// places.
pub type Held = (Seq<EntryIndex>, Option<SlotTile>, Option<SlotMetaTile>);

/// The rows stand in the order of their paths, no path twice.
pub open spec fn in_order(rows: Seq<Held>) -> bool {
    forall|a: int, b: int| 0 <= a < b < rows.len() ==> path_before(rows[a].0, rows[b].0)
}

/// Each tile that is held stands in the row of its own path.
pub open spec fn well_keyed(rows: Seq<Held>) -> bool {
    forall|i: int|
        0 <= i < rows.len() ==> {
            &&& (#[trigger] rows[i]).1 is Some ==> rows[i].1->0.entry_id@ == rows[i].0
            &&& rows[i].2 is Some ==> rows[i].2->0.entry_id@ == rows[i].0
        }
}

/// The pairs stand in the order of their paths, no path twice, and the two
/// tiles of a pair are of one row.
pub open spec fn pairs_in_order(pairs: Seq<MatchedTile>) -> bool {
    &&& forall|i: int|
        0 <= i < pairs.len() ==> (#[trigger] pairs[i]).tile.entry_id@
            == pairs[i].meta_tile.entry_id@
    &&& forall|a: int, b: int|
        0 <= a < b < pairs.len() ==> path_before(
            (#[trigger] pairs[a]).tile.entry_id@,
            (#[trigger] pairs[b]).tile.entry_id@,
        )
}

/// The place of the path `key` among rows in order: the first place at or
/// after `from` whose row does not come before `key`.
pub open spec fn place_of(rows: Seq<Held>, key: Seq<EntryIndex>, from: int) -> int
    decreases rows.len() - from,
{
    if from < 0 || from >= rows.len() {
        rows.len() as int
    } else if !path_before(rows[from].0, key) {
        from
    } else {
        place_of(rows, key, from + 1)
    }
}

/// The rows after `tile` has been put in the first place of its row: the
/// row of its path has it there, and if there was no such row, there is a
/// new one in the order of the paths.
pub open spec fn with_tile(rows: Seq<Held>, tile: SlotTile) -> Seq<Held> {
    let key = tile.entry_id@;
    let at = place_of(rows, key, 0);
    if at < rows.len() && rows[at].0 == key {
        rows.update(at, (key, Some(tile), rows[at].2))
    } else {
        rows.insert(at, (key, Some(tile), None))
    }
}

/// The rows after `meta_tile` has been put in the second place of its row.
pub open spec fn with_meta_tile(rows: Seq<Held>, meta_tile: SlotMetaTile) -> Seq<Held> {
    let key = meta_tile.entry_id@;
    let at = place_of(rows, key, 0);
    if at < rows.len() && rows[at].0 == key {
        rows.update(at, (key, rows[at].1, Some(meta_tile)))
    } else {
        rows.insert(at, (key, None, Some(meta_tile)))
    }
}

/// Both tiles of the row are there.
pub open spec fn is_complete(row: Held) -> bool {
    row.1 is Some && row.2 is Some
}

/// The rows that still wait for a tile, in order.
pub open spec fn waiting(rows: Seq<Held>) -> Seq<Held> {
    rows.filter(|row: Held| !is_complete(row))
}

/// The pairs of the rows that wait for nothing more, in order.
pub open spec fn complete_pairs(rows: Seq<Held>) -> Seq<MatchedTile> {
    rows.filter(|row: Held| is_complete(row)).map_values(
        |row: Held| MatchedTile { tile: row.1->0, meta_tile: row.2->0 },
    )
}

/// The rows after the first `n` of the responses have been taken in: each
/// tile that came is put in the place of its row, and a response that is
/// an error changes nothing.
pub open spec fn with_tiles(rows: Seq<Held>, responses: Seq<SlotTileResponse>, n: nat) -> Seq<Held>
    decreases n,
{
    if n == 0 || n > responses.len() {
        rows
    } else {
        let before = with_tiles(rows, responses, (n - 1) as nat);
        match responses[n - 1].0 {
            Ok(tile) => with_tile(before, tile),
            Err(_) => before,
        }
    }
}

/// The same for the responses that tell of tiles.
pub open spec fn with_meta_tiles(
    rows: Seq<Held>,
    responses: Seq<SlotMetaTileResponse>,
    n: nat,
) -> Seq<Held>
    decreases n,
{
    if n == 0 || n > responses.len() {
        rows
    } else {
        let before = with_meta_tiles(rows, responses, (n - 1) as nat);
        match responses[n - 1].0 {
            Ok(meta_tile) => with_meta_tile(before, meta_tile),
            Err(_) => before,
        }
    }
}

/// The failures among the first `n` of the responses, in order.
pub open spec fn failures<T>(responses: Seq<(Result<T, String>, TileRequest)>, n: nat) -> Seq<
    FailedRequest,
>
    decreases n,
{
    if n == 0 || n > responses.len() {
        Seq::empty()
    } else {
        let before = failures(responses, (n - 1) as nat);
        match responses[n - 1].0 {
            Ok(_) => before,
            Err(message) => before.push(FailedRequest { message, request: responses[n - 1].1 }),
        }
    }
}

/// Where every earlier row comes before `key` and the row at `at` does
/// not, `at` is the place of `key`.
pub proof fn lemma_place_of(rows: Seq<Held>, key: Seq<EntryIndex>, from: int, at: int)
    requires
        0 <= from <= at <= rows.len(),
        forall|j: int| from <= j < at ==> path_before(rows[j].0, key),
        at < rows.len() ==> !path_before(rows[at].0, key),
    ensures
        place_of(rows, key, from) == at,
    decreases at - from,
{
    if from < at {
        lemma_place_of(rows, key, from + 1, at);
    }
}

/// Putting a tile in its place keeps the rows in order and each tile in
/// the row of its path.
pub proof fn lemma_with_tile_in_order(rows: Seq<Held>, tile: SlotTile)
    requires
        in_order(rows),
        well_keyed(rows),
    ensures
        in_order(with_tile(rows, tile)),
        well_keyed(with_tile(rows, tile)),
{
    lemma_put_in_order(rows, tile.entry_id@, (tile.entry_id@, Some(tile), None));
    lemma_place_splits(rows, tile.entry_id@, 0);
    let next = with_tile(rows, tile);
    let at = place_of(rows, tile.entry_id@, 0);
    assert forall|i: int| 0 <= i < next.len() implies {
        &&& (#[trigger] next[i]).1 is Some ==> next[i].1->0.entry_id@ == next[i].0
        &&& next[i].2 is Some ==> next[i].2->0.entry_id@ == next[i].0
    } by {
        if at < rows.len() && rows[at].0 == tile.entry_id@ {
            assert(rows[i].0 == next[i].0);
        } else if i < at {
            assert(next[i] == rows[i]);
        } else if i > at {
            assert(next[i] == rows[i - 1]);
        }
    }
}

/// Putting what is told of a tile in its place keeps the rows in order and
/// each tile in the row of its path.
pub proof fn lemma_with_meta_tile_in_order(rows: Seq<Held>, meta_tile: SlotMetaTile)
    requires
        in_order(rows),
        well_keyed(rows),
    ensures
        in_order(with_meta_tile(rows, meta_tile)),
        well_keyed(with_meta_tile(rows, meta_tile)),
{
    lemma_put_in_order(rows, meta_tile.entry_id@, (meta_tile.entry_id@, None, Some(meta_tile)));
    lemma_place_splits(rows, meta_tile.entry_id@, 0);
    let next = with_meta_tile(rows, meta_tile);
    let at = place_of(rows, meta_tile.entry_id@, 0);
    assert forall|i: int| 0 <= i < next.len() implies {
        &&& (#[trigger] next[i]).1 is Some ==> next[i].1->0.entry_id@ == next[i].0
        &&& next[i].2 is Some ==> next[i].2->0.entry_id@ == next[i].0
    } by {
        if at < rows.len() && rows[at].0 == meta_tile.entry_id@ {
            assert(rows[i].0 == next[i].0);
        } else if i < at {
            assert(next[i] == rows[i]);
        } else if i > at {
            assert(next[i] == rows[i - 1]);
        }
    }
}

/// The place of a path among rows in order: the rows before it come before
/// the path, and the rows from it on do not.
pub proof fn lemma_place_splits(rows: Seq<Held>, key: Seq<EntryIndex>, from: int)
    requires
        0 <= from <= rows.len(),
    ensures
        from <= place_of(rows, key, from) <= rows.len(),
        forall|j: int| from <= j < place_of(rows, key, from) ==> path_before(rows[j].0, key),
        place_of(rows, key, from) < rows.len() ==> !path_before(
            rows[place_of(rows, key, from)].0,
            key,
        ),
    decreases rows.len() - from,
{
    if from < rows.len() && path_before(rows[from].0, key) {
        lemma_place_splits(rows, key, from + 1);
    }
}

proof fn lemma_put_in_order(rows: Seq<Held>, key: Seq<EntryIndex>, fresh: Held)
    requires
        in_order(rows),
        fresh.0 == key,
    ensures
        ({
            let at = place_of(rows, key, 0);
            &&& at < rows.len() && rows[at].0 == key ==> forall|row: Held|
                row.0 == key ==> in_order(#[trigger] rows.update(at, row))
            &&& !(at < rows.len() && rows[at].0 == key) ==> in_order(rows.insert(at, fresh))
        }),
{
    let at = place_of(rows, key, 0);
    lemma_place_splits(rows, key, 0);
    if at < rows.len() && rows[at].0 == key {
        assert forall|row: Held| row.0 == key implies in_order(#[trigger] rows.update(at, row)) by {
            let next = rows.update(at, row);
            assert forall|a: int, b: int| 0 <= a < b < next.len() implies path_before(
                next[a].0,
                next[b].0,
            ) by {
                assert(next[a].0 == rows[a].0);
                assert(next[b].0 == rows[b].0);
            }
        }
    } else {
        let next = rows.insert(at, fresh);
        assert forall|a: int, b: int| 0 <= a < b < next.len() implies path_before(
            next[a].0,
            next[b].0,
        ) by {
            if b < at {
            } else if a < at && b == at {
            } else if a < at {
                assert(next[b] == rows[b - 1]);
            } else if a == at {
                assert(next[b] == rows[b - 1]);
                lemma_after_place(rows, key, at, b - 1);
            } else {
                assert(next[a] == rows[a - 1]);
                assert(next[b] == rows[b - 1]);
            }
        }
    }
}

/// A path that has no row comes before every row from its place on.
proof fn lemma_after_place(rows: Seq<Held>, key: Seq<EntryIndex>, at: int, j: int)
    requires
        in_order(rows),
        0 <= at <= j < rows.len(),
        !path_before(rows[at].0, key),
        rows[at].0 != key,
    ensures
        path_before(key, rows[j].0),
{
    crate::data::lemma_path_total(rows[at].0, key);
    if at < j {
        lemma_path_before_transitive(key, rows[at].0, rows[j].0);
    }
}

/// The elements of `v` from the last to the first.
fn reversed<T>(v: Vec<T>) -> (r: Vec<T>)
    ensures
        r@.len() == v@.len(),
        forall|i: int| 0 <= i < r@.len() ==> r@[i] == v@[v@.len() - 1 - i],
{
    let ghost all = v@;
    let mut v = v;
    let mut r: Vec<T> = Vec::new();
    while v.len() > 0
        invariant
            v@.len() + r@.len() == all.len(),
            forall|i: int| 0 <= i < v@.len() ==> v@[i] == all[i],
            forall|i: int| 0 <= i < r@.len() ==> r@[i] == all[all.len() - 1 - i],
        decreases v@.len(),
    {
        let last = v.pop();
        match last {
            Some(x) => {
                r.push(x);
            },
            None => {},
        }
    }
    r
}

/// The rows of which one tile has come and the other is waited for, in
/// the order of their paths.
pub struct UnmatchedTileHold {
    rows: Vec<HeldRow>,
}

/// What contracts say of held rows.
pub open spec fn held(rows: Seq<HeldRow>) -> Seq<Held> {
    rows.map_values(|row: HeldRow| (row.entry_id@, row.tile, row.meta_tile))
}

impl UnmatchedTileHold {
    /// The rows that are held, in order.
    pub closed spec fn entries(&self) -> Seq<Held> {
        held(self.rows@)
    }

    /// The rows stand in the order of their paths, and each tile that is
    /// held stands in the row of its own path.
    pub open spec fn wf(&self) -> bool {
        in_order(self.entries()) && well_keyed(self.entries())
    }

    pub fn new() -> (hold: Self)
        ensures
            hold.wf(),
            hold.entries().len() == 0,
    {
        UnmatchedTileHold { rows: Vec::new() }
    }

    pub fn is_empty(&self) -> (empty: bool)
        ensures
            empty == (self.entries().len() == 0),
    {
        self.rows.len() == 0
    }

    pub fn len(&self) -> (n: usize)
        ensures
            n == self.entries().len(),
    {
        self.rows.len()
    }

    /// Where the row of `key` stands or would stand, and whether it is
    /// there.
    fn find(&self, key: &EntryID) -> (r: (usize, bool))
        ensures
            r.0 == place_of(self.entries(), key@, 0),
            r.0 <= self.rows@.len(),
            r.1 == (r.0 < self.rows@.len() && self.entries()[r.0 as int].0 == key@),
    {
        let ghost rows = self.entries();
        let mut at: usize = 0;
        let mut stop = false;
        let mut found = false;
        while at < self.rows.len() && !stop
            invariant
                at <= self.rows@.len(),
                rows == held(self.rows@),
                forall|j: int| 0 <= j < at ==> path_before(rows[j].0, key@),
                stop ==> at < self.rows@.len() && !path_before(rows[at as int].0, key@),
                stop ==> found == (rows[at as int].0 == key@),
                !stop ==> !found,
            decreases self.rows@.len() - at + (if stop { 0int } else { 1int }),
        {
            proof {
                lemma_path_before_irreflexive(key@);
            }
            match self.rows[at].entry_id.precedence(key) {
                Precedence::Before => {
                    at += 1;
                },
                Precedence::Same => {
                    stop = true;
                    found = true;
                },
                Precedence::After => {
                    proof {
                        if path_before(rows[at as int].0, key@) {
                            lemma_path_before_transitive(key@, rows[at as int].0, key@);
                        }
                    }
                    stop = true;
                },
            }
        }
        proof {
            lemma_place_of(rows, key@, 0, at as int);
        }
        (at, found)
    }

    /// Puts `tile` in the first place of its row.
    pub fn hold_tile(&mut self, tile: SlotTile)
        requires
            old(self).wf(),
        ensures
            final(self).wf(),
            final(self).entries() == with_tile(old(self).entries(), tile),
    {
        proof {
            lemma_with_tile_in_order(self.entries(), tile);
        }
        let (at, found) = self.find(&tile.entry_id);
        if found {
            let row = self.rows.remove(at);
            self.rows.insert(
                at,
                HeldRow { entry_id: row.entry_id, tile: Some(tile), meta_tile: row.meta_tile },
            );
        } else {
            let entry_id = tile.entry_id.clone();
            self.rows.insert(at, HeldRow { entry_id, tile: Some(tile), meta_tile: None });
        }
        assert(held(self.rows@) =~= with_tile(held(old(self).rows@), tile));
    }

    /// Puts `meta_tile` in the second place of its row.
    pub fn hold_meta_tile(&mut self, meta_tile: SlotMetaTile)
        requires
            old(self).wf(),
        ensures
            final(self).wf(),
            final(self).entries() == with_meta_tile(old(self).entries(), meta_tile),
    {
        proof {
            lemma_with_meta_tile_in_order(self.entries(), meta_tile);
        }
        let (at, found) = self.find(&meta_tile.entry_id);
        if found {
            let row = self.rows.remove(at);
            self.rows.insert(
                at,
                HeldRow { entry_id: row.entry_id, tile: row.tile, meta_tile: Some(meta_tile) },
            );
        } else {
            let entry_id = meta_tile.entry_id.clone();
            self.rows.insert(at, HeldRow { entry_id, tile: None, meta_tile: Some(meta_tile) });
        }
        assert(held(self.rows@) =~= with_meta_tile(held(old(self).rows@), meta_tile));
    }

    /// Takes out the rows whose two tiles are both there and hands them
    /// out as pairs, in the order of their paths. The other rows stay.
    pub fn take_matched(&mut self) -> (matched: Vec<MatchedTile>)
        requires
            old(self).wf(),
        ensures
            final(self).wf(),
            final(self).entries() == waiting(old(self).entries()),
            matched@ == complete_pairs(old(self).entries()),
            pairs_in_order(matched@),
            forall|i: int|
                0 <= i < final(self).entries().len() ==> !is_complete(
                    #[trigger] final(self).entries()[i],
                ),
    {
        let ghost all = self.entries();
        let ghost keep = |row: Held| !is_complete(row);
        let ghost pair = |row: Held| is_complete(row);
        let ghost paired = |row: Held| MatchedTile { tile: row.1->0, meta_tile: row.2->0 };
        let mut taken: Vec<HeldRow> = Vec::new();
        std::mem::swap(&mut taken, &mut self.rows);
        let n = taken.len();
        let mut rest = reversed(taken);
        let mut kept: Vec<HeldRow> = Vec::new();
        let mut matched: Vec<MatchedTile> = Vec::new();
        let mut i: usize = 0;
        proof {
            reveal(Seq::filter);
            assert(all.take(0) =~= Seq::<Held>::empty());
            assert(held(kept@) =~= Seq::<Held>::empty());
        }
        while i < n
            invariant
                i <= n,
                n == all.len(),
                in_order(all),
                rest@.len() == n - i,
                forall|j: int|
                    0 <= j < rest@.len() ==> (#[trigger] held(rest@)[j]) == all[n - 1 - j],
                keep == (|row: Held| !is_complete(row)),
                pair == (|row: Held| is_complete(row)),
                paired == (|row: Held| MatchedTile { tile: row.1->0, meta_tile: row.2->0 }),
                held(kept@) == all.take(i as int).filter(keep),
                matched@ == all.take(i as int).filter(pair).map_values(paired),
                in_order(held(kept@)),
                well_keyed(all),
                well_keyed(held(kept@)),
                pairs_in_order(matched@),
                forall|a: int, j: int|
                    0 <= a < kept@.len() && i <= j < n ==> path_before(
                        #[trigger] held(kept@)[a].0,
                        #[trigger] all[j].0,
                    ),
                forall|a: int, j: int|
                    0 <= a < matched@.len() && i <= j < n ==> path_before(
                        (#[trigger] matched@[a]).tile.entry_id@,
                        #[trigger] all[j].0,
                    ),
                forall|a: int| 0 <= a < kept@.len() ==> !is_complete(#[trigger] held(kept@)[a]),
            decreases n - i,
        {
            let ghost shown = held(rest@)[rest@.len() - 1];
            let ghost kept_before = held(kept@);
            let ghost rest_before = rest@;
            let row = rest.pop();
            proof {
                assert(shown == all[i as int]);
                assert(all.take(i + 1) =~= all.take(i as int).push(all[i as int]));
                all.take(i as int).lemma_filter_push(all[i as int], keep);
                all.take(i as int).lemma_filter_push(all[i as int], pair);
                assert forall|j: int| 0 <= j < rest@.len() implies (#[trigger] held(rest@)[j])
                    == all[n - 1 - j] by {
                    assert(rest@[j] == rest_before[j]);
                    assert(held(rest_before)[j] == all[n - 1 - j]);
                }
            }
            match row {
                Some(HeldRow { entry_id, tile: Some(tile), meta_tile: Some(meta_tile) }) => {
                    let ghost matched_before = matched@;
                    matched.push(MatchedTile { tile, meta_tile });
                    proof {
                        assert(is_complete(all[i as int]));
                        assert(matched@ =~= all.take(i + 1).filter(pair).map_values(paired));
                        assert(all[i as int].1->0.entry_id@ == all[i as int].0);
                        assert(all[i as int].2->0.entry_id@ == all[i as int].0);
                        assert forall|a: int, b: int|
                            0 <= a < b < matched@.len() implies path_before(
                            (#[trigger] matched@[a]).tile.entry_id@,
                            (#[trigger] matched@[b]).tile.entry_id@,
                        ) by {
                            assert(matched@[a] == matched_before[a]);
                            if b < matched_before.len() {
                                assert(matched@[b] == matched_before[b]);
                            }
                        }
                        assert forall|a: int| 0 <= a < matched@.len() implies (
                        #[trigger] matched@[a]).tile.entry_id@
                            == matched@[a].meta_tile.entry_id@ by {
                            if a < matched_before.len() {
                                assert(matched@[a] == matched_before[a]);
                            }
                        }
                    }
                },
                Some(HeldRow { entry_id, tile, meta_tile }) => {
                    kept.push(HeldRow { entry_id, tile, meta_tile });
                    proof {
                        assert(!is_complete(all[i as int]));
                        assert(held(kept@) =~= kept_before.push(all[i as int]));
                        assert forall|a: int| 0 <= a < held(kept@).len() implies {
                            &&& (#[trigger] held(kept@)[a]).1 is Some ==> held(
                                kept@,
                            )[a].1->0.entry_id@ == held(kept@)[a].0
                            &&& held(kept@)[a].2 is Some ==> held(kept@)[a].2->0.entry_id@
                                == held(kept@)[a].0
                        } by {
                            if a < kept_before.len() {
                                assert(held(kept@)[a] == kept_before[a]);
                            }
                        }
                        assert forall|a: int, b: int|
                            0 <= a < b < held(kept@).len() implies path_before(
                            held(kept@)[a].0,
                            held(kept@)[b].0,
                        ) by {
                            if b < kept_before.len() {
                                assert(held(kept@)[a] == kept_before[a]);
                                assert(held(kept@)[b] == kept_before[b]);
                            } else {
                                assert(held(kept@)[a] == kept_before[a]);
                            }
                        }
                    }
                },
                None => {},
            }
            i += 1;
        }
        proof {
            assert(all.take(n as int) =~= all);
        }
        self.rows = kept;
        matched
    }
}

/// The rows after a round of responses of both kinds has been taken in:
/// first the tiles, then what is told of tiles.
pub open spec fn after_round(
    rows: Seq<Held>,
    slot_tiles: Seq<SlotTileResponse>,
    slot_meta_tiles: Seq<SlotMetaTileResponse>,
) -> Seq<Held> {
    with_meta_tiles(
        with_tiles(rows, slot_tiles, slot_tiles.len()),
        slot_meta_tiles,
        slot_meta_tiles.len(),
    )
}

/// Takes in the tiles that came, in the order in which they came, and
/// files the requests that failed behind `failed`.
fn take_in_tiles(
    unmatched_tiles: &mut UnmatchedTileHold,
    slot_tiles: Vec<SlotTileResponse>,
    failed: &mut Vec<FailedRequest>,
)
    requires
        old(unmatched_tiles).wf(),
    ensures
        final(unmatched_tiles).wf(),
        final(unmatched_tiles).entries() == with_tiles(
            old(unmatched_tiles).entries(),
            slot_tiles@,
            slot_tiles@.len(),
        ),
        final(failed)@ == old(failed)@ + failures(slot_tiles@, slot_tiles@.len()),
{
    let ghost all = slot_tiles@;
    let ghost start = unmatched_tiles.entries();
    let ghost failed_start = failed@;
    let n = slot_tiles.len();
    let mut rest = reversed(slot_tiles);
    let mut i: usize = 0;
    assert(failed@ =~= failed_start + failures(all, 0));
    while i < n
        invariant
            i <= n,
            n == all.len(),
            rest@.len() == n - i,
            forall|j: int| 0 <= j < rest@.len() ==> rest@[j] == all[n - 1 - j],
            unmatched_tiles.wf(),
            unmatched_tiles.entries() == with_tiles(start, all, i as nat),
            failed@ == failed_start + failures(all, i as nat),
        decreases n - i,
    {
        let response = rest.pop();
        match response {
            Some((Ok(tile), _)) => {
                unmatched_tiles.hold_tile(tile);
            },
            Some((Err(message), request)) => {
                failed.push(FailedRequest { message, request });
                assert(failed@ =~= failed_start + failures(all, (i + 1) as nat));
            },
            None => {},
        }
        i += 1;
    }
}

/// Takes in what is told of tiles, in the order in which it came, and
/// files the requests that failed behind `failed`.
fn take_in_meta_tiles(
    unmatched_tiles: &mut UnmatchedTileHold,
    slot_meta_tiles: Vec<SlotMetaTileResponse>,
    failed: &mut Vec<FailedRequest>,
)
    requires
        old(unmatched_tiles).wf(),
    ensures
        final(unmatched_tiles).wf(),
        final(unmatched_tiles).entries() == with_meta_tiles(
            old(unmatched_tiles).entries(),
            slot_meta_tiles@,
            slot_meta_tiles@.len(),
        ),
        final(failed)@ == old(failed)@ + failures(slot_meta_tiles@, slot_meta_tiles@.len()),
{
    let ghost all = slot_meta_tiles@;
    let ghost start = unmatched_tiles.entries();
    let ghost failed_start = failed@;
    let n = slot_meta_tiles.len();
    let mut rest = reversed(slot_meta_tiles);
    let mut i: usize = 0;
    assert(failed@ =~= failed_start + failures(all, 0));
    while i < n
        invariant
            i <= n,
            n == all.len(),
            rest@.len() == n - i,
            forall|j: int| 0 <= j < rest@.len() ==> rest@[j] == all[n - 1 - j],
            unmatched_tiles.wf(),
            unmatched_tiles.entries() == with_meta_tiles(start, all, i as nat),
            failed@ == failed_start + failures(all, i as nat),
        decreases n - i,
    {
        let response = rest.pop();
        match response {
            Some((Ok(meta_tile), _)) => {
                unmatched_tiles.hold_meta_tile(meta_tile);
            },
            Some((Err(message), request)) => {
                failed.push(FailedRequest { message, request });
                assert(failed@ =~= failed_start + failures(all, (i + 1) as nat));
            },
            None => {},
        }
        i += 1;
    }
}

/// One round of matching: takes in the responses of both kinds that have
/// come, then hands out every row whose two tiles are now both there,
/// each row once and in the order of the paths, and with them the requests
/// that failed. The rows that still wait for a tile stay in the hold.
pub fn process_responses(
    unmatched_tiles: &mut UnmatchedTileHold,
    slot_tiles: Vec<SlotTileResponse>,
    slot_meta_tiles: Vec<SlotMetaTileResponse>,
) -> (out: Processed)
    requires
        old(unmatched_tiles).wf(),
    ensures
        final(unmatched_tiles).wf(),
        final(unmatched_tiles).entries() == waiting(
            after_round(old(unmatched_tiles).entries(), slot_tiles@, slot_meta_tiles@),
        ),
        out.matched@ == complete_pairs(
            after_round(old(unmatched_tiles).entries(), slot_tiles@, slot_meta_tiles@),
        ),
        out.failed@ == failures(slot_tiles@, slot_tiles@.len()) + failures(
            slot_meta_tiles@,
            slot_meta_tiles@.len(),
        ),
        pairs_in_order(out.matched@),
        forall|i: int|
            0 <= i < final(unmatched_tiles).entries().len() ==> !is_complete(
                #[trigger] final(unmatched_tiles).entries()[i],
            ),
{
    let mut failed: Vec<FailedRequest> = Vec::new();
    take_in_tiles(unmatched_tiles, slot_tiles, &mut failed);
    take_in_meta_tiles(unmatched_tiles, slot_meta_tiles, &mut failed);
    let matched = unmatched_tiles.take_matched();
    assert(failed@ =~= failures(slot_tiles@, slot_tiles@.len()) + failures(
        slot_meta_tiles@,
        slot_meta_tiles@.len(),
    ));
    Processed { matched, failed }
}

} // verus!
