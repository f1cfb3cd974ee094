pub mod model;
pub mod proofs;
pub mod steps;

use crate::data::{level_partitions, measurable, TileID, TileSet};
use crate::tile_manager::model::{
    chosen_level, extended, is_best_level, is_chain, keeps_cache, requested_tiles, static_tiles,
    tiles_cover, tiles_within, within_double,
};
use crate::tile_manager::proofs::{
    lemma_best_level_unique, lemma_extended_chain, lemma_linked_covers, lemma_linked_envelope,
    lemma_overlapping_covers,
};
use crate::tile_manager::steps::{
    best_level, extend_tiles, lemma_measurable, overlapping_tiles, span, zoom_kept,
};
use crate::timestamp::Interval;
use std::collections::BTreeMap;
use vstd::prelude::*;

verus! {

/// The tiles that are handed out fill the row: there are no levels, so
/// that the tiles are made to measure, or every level cuts the row into
/// consecutive tiles.
pub open spec fn fills_row(levels: Seq<Seq<TileID>>, bound: Interval) -> bool {
    forall|k: int| 0 <= k < levels.len() ==> level_partitions(#[trigger] levels[k], bound)
}

/// What holds of one memo slot of a row between requests.
///
/// `last` is the request that the slot answered last and `cache` the tiles
/// it answered with. Nothing is cached before the first request, nor for an
/// empty request. In a row without levels the tiles form a chain; in a row
/// with levels they are the overlapping tiles of the level that the request
/// chooses. Where the tiles fill the row, those that are cached lie in the
/// row and cover the request they were cached for.
pub open spec fn slot_ok(
    levels: Seq<Seq<TileID>>,
    bound: Interval,
    last: Option<Interval>,
    cache: Seq<TileID>,
    full: bool,
) -> bool {
    &&& fills_row(levels, bound) ==> tiles_within(cache, bound)
    &&& last is None ==> cache.len() == 0
    &&& last is Some && last->0.duration() <= 0 ==> cache.len() == 0
    &&& fills_row(levels, bound) && last is Some && last->0.duration() > 0 ==> tiles_cover(
        cache,
        last->0,
    )
    &&& levels.len() == 0 && cache.len() > 0 ==> is_chain(cache, bound)
    &&& levels.len() > 0 && last is Some && last->0.duration() > 0 ==> cache == static_tiles(
        levels,
        last->0,
        full,
    )
}

/// Decides, for one row, which tiles to load for the part of the row in
/// view, and remembers its last answer for each of the two kinds of request.
pub struct TileManager {
    tile_set: TileSet,
    interval: Interval,
    last_request_interval: (Option<Interval>, Option<Interval>),  // full: false, true
    tile_cache: (Vec<TileID>, Vec<TileID>),  // full: false, true
}

fn select<'a, T>(cond: bool, true_value: &'a mut T, false_value: &'a mut T) -> (r: &'a mut T)
    ensures
        cond ==> *r == *old(true_value) && *final(true_value) == *final(r) && *final(false_value)
            == *old(false_value),
        !cond ==> *r == *old(false_value) && *final(false_value) == *final(r) && *final(true_value)
            == *old(true_value),
{
    if cond {
        true_value
    } else {
        false_value
    }
}

fn fill_cache(
    cache: &mut Vec<TileID>,
    values: Vec<TileID>,
    last_key: &mut Option<Interval>,
    key: Interval,
) -> (r: Vec<TileID>)
    ensures
        *final(last_key) == Some(key),
        final(cache)@ == values@,
        r@ == values@,
{
    *last_key = Some(key);
    *cache = values;
    copy_tiles(cache)
}

fn reuse_cache(cache: &Vec<TileID>, last_key: &mut Option<Interval>, key: Interval) -> (r: Vec<
    TileID,
>)
    ensures
        *final(last_key) == Some(key),
        r@ == cache@,
{
    *last_key = Some(key);
    copy_tiles(cache)
}

fn copy_tiles(tiles: &Vec<TileID>) -> (r: Vec<TileID>)
    ensures
        r@ == tiles@,
{
    let r = tiles.clone();
    assert(r@ =~= tiles@);
    r
}

/// Whether `tile_id` is one of `tile_ids`.
pub fn contains_tile(tile_ids: &[TileID], tile_id: &TileID) -> (found: bool)
    ensures
        found == tile_ids@.contains(*tile_id),
{
    let mut i: usize = 0;
    while i < tile_ids.len()
        invariant
            i <= tile_ids.len(),
            forall|j: int| 0 <= j < i ==> tile_ids@[j] != *tile_id,
        decreases tile_ids.len() - i,
    {
        if tile_ids[i] == *tile_id {
            return true;
        }
        i += 1;
    }
    false
}

/// `BTreeMap::retain` with the test "the key is one of `tile_ids`": the
/// entries whose key passes stay as they were, and all others leave.
#[verifier::external_body]
fn retain_listed<T>(cache: &mut BTreeMap<TileID, T>, tile_ids: &[TileID])
    ensures
        final(cache)@ == old(cache)@.restrict(tile_ids@.to_set()),
{
    cache.retain(|tile_id, _| contains_tile(tile_ids, tile_id));
}

impl TileManager {
    /// The levels of the row's tile set; none for a row whose tiles are
    /// made up on demand.
    pub closed spec fn levels(&self) -> Seq<Seq<TileID>> {
        self.tile_set.levels()
    }

    /// The whole span of the row.
    pub closed spec fn interval(&self) -> Interval {
        self.interval
    }

    /// The request that the slot for `full` answered last.
    pub closed spec fn last_request(&self, full: bool) -> Option<Interval> {
        if full {
            self.last_request_interval.1
        } else {
            self.last_request_interval.0
        }
    }

    /// The tiles that the slot for `full` answered last.
    pub closed spec fn cache(&self, full: bool) -> Seq<TileID> {
        if full {
            self.tile_cache.1@
        } else {
            self.tile_cache.0@
        }
    }

    /// The part of `view` that lies in the row: what a request is for.
    pub open spec fn request_of(&self, view: Interval) -> Interval {
        view.spec_intersection(self.interval())
    }

    /// The answer that a request for `view` gets in the present state.
    pub open spec fn answer(&self, view: Interval, full: bool) -> Seq<TileID> {
        requested_tiles(
            self.levels(),
            self.interval(),
            self.last_request(full),
            self.cache(full),
            self.request_of(view),
            full,
        )
    }

    /// The row's length fits in an `i64`, every level can be measured, and
    /// both memo slots are in order.
    pub open spec fn wf(&self) -> bool {
        &&& self.interval().duration() <= i64::MAX
        &&& forall|k: int| 0 <= k < self.levels().len() ==> measurable(#[trigger] self.levels()[k])
        &&& slot_ok(
            self.levels(),
            self.interval(),
            self.last_request(false),
            self.cache(false),
            false,
        )
        &&& slot_ok(self.levels(), self.interval(), self.last_request(true), self.cache(true), true)
    }

    pub fn new(tile_set: TileSet, interval: Interval) -> (tm: Self)
        requires
            interval.duration() <= i64::MAX,
            tile_set.measurable(),
        ensures
            tm.wf(),
            tm.levels() == tile_set.levels(),
            tm.interval() == interval,
            forall|full: bool| tm.last_request(full) is None,
            forall|full: bool| tm.cache(full).len() == 0,
    {
        Self {
            tile_set,
            interval,
            last_request_interval: (None, None),
            tile_cache: (Vec::new(), Vec::new()),
        }
    }

    /// The tiles to load for the part of the row that `view_interval`
    /// shows, with full detail or without.
    pub fn request_tiles(&mut self, view_interval: Interval, full: bool) -> (tiles: Vec<TileID>)
        requires
            old(self).wf(),
        ensures
            final(self).wf(),
            final(self).levels() == old(self).levels(),
            final(self).interval() == old(self).interval(),
            final(self).last_request(!full) == old(self).last_request(!full),
            final(self).cache(!full) == old(self).cache(!full),
            final(self).last_request(full) == Some(old(self).request_of(view_interval)),
            final(self).cache(full) == tiles@,
            tiles@ == old(self).answer(view_interval, full),
            fills_row(old(self).levels(), old(self).interval()) ==> tiles_within(
                tiles@,
                old(self).interval(),
            ),
            fills_row(old(self).levels(), old(self).interval()) && old(self).request_of(
                view_interval,
            ).duration() > 0 ==> tiles_cover(tiles@, old(self).request_of(view_interval)),
            old(self).request_of(view_interval).duration() <= 0 ==> tiles@.len() == 0,
            old(self).levels().len() > 0 && old(self).request_of(view_interval).duration() > 0
                ==> tiles@ == static_tiles(
                old(self).levels(),
                old(self).request_of(view_interval),
                full,
            ),
            old(self).levels().len() == 0 && old(self).request_of(view_interval).duration() > 0
                && old(self).last_request(full) != Some(old(self).request_of(view_interval))
                && tiles@ != seq![TileID(old(self).request_of(view_interval))] ==> keeps_cache(
                old(self).cache(full),
                old(self).request_of(view_interval),
            ),
    {
        let last_request_interval = select(
            full,
            &mut self.last_request_interval.1,
            &mut self.last_request_interval.0,
        );
        let tile_cache = select(full, &mut self.tile_cache.1, &mut self.tile_cache.0);
        Self::serve(
            &self.tile_set,
            self.interval,
            last_request_interval,
            tile_cache,
            view_interval,
            full,
        )
    }

    fn serve(
        tile_set: &TileSet,
        bound: Interval,
        last: &mut Option<Interval>,
        cache: &mut Vec<TileID>,
        view: Interval,
        full: bool,
    ) -> (tiles: Vec<TileID>)
        requires
            bound.duration() <= i64::MAX,
            tile_set.measurable(),
            slot_ok(tile_set.levels(), bound, *old(last), old(cache)@, full),
        ensures
            slot_ok(tile_set.levels(), bound, *final(last), final(cache)@, full),
            *final(last) == Some(view.spec_intersection(bound)),
            final(cache)@ == tiles@,
            tiles@ == requested_tiles(
                tile_set.levels(),
                bound,
                *old(last),
                old(cache)@,
                view.spec_intersection(bound),
                full,
            ),
    {
        let ghost levels = tile_set.levels();
        let request_interval = view.intersection(bound);
        let hit = match *last {
            Some(previous) => previous == request_interval,
            None => false,
        };
        if hit {
            return copy_tiles(cache);
        }
        let request_duration = request_interval.duration_ns();
        if request_duration <= 0 {
            return fill_cache(cache, Vec::new(), last, request_interval);
        }
        assert(bound.spec_contains_interval(request_interval));

        // Dynamic profile.
        if tile_set.tiles.len() == 0 {
            if cache.len() > 0 {
                proof {
                    lemma_measurable(cache@, bound);
                    lemma_linked_envelope(cache@);
                }
                // The existing tiles serve again if they overlap the new
                // request and the request has not drifted too far from
                // their size.
                if zoom_kept(cache, request_duration) {
                    let cache_interval = span(cache);
                    if cache_interval.contains_interval(request_interval) {
                        proof {
                            lemma_linked_covers(cache@, request_interval);
                        }
                        return reuse_cache(cache, last, request_interval);
                    } else if cache_interval.overlaps(request_interval) {
                        proof {
                            lemma_extended_chain(cache@, request_interval, bound);
                        }
                        let new_tiles = extend_tiles(cache, request_interval, bound);
                        return fill_cache(cache, new_tiles, last, request_interval);
                    }
                }
            }
            // Otherwise the request itself is the one tile.
            let mut fresh: Vec<TileID> = Vec::new();
            fresh.push(TileID(request_interval));
            proof {
                assert(fresh@ =~= seq![TileID(request_interval)]);
                assert(fresh@[0].0.has_point(request_interval.start.0 as int));
                assert forall|t: int| #[trigger]
                    request_interval.has_point(t) implies exists|i: int|
                    0 <= i < fresh@.len() && (#[trigger] fresh@[i]).0.has_point(t) by {
                    assert(fresh@[0].0.has_point(t));
                }
            }
            return fill_cache(cache, fresh, last, request_interval);
        }
        // Static profile: choose the level to load.

        let chosen: usize = if full {
            // A full request always gets the finest level.
            tile_set.tiles.len() - 1
        } else {
            let best = best_level(&tile_set.tiles, request_duration);
            proof {
                let picked = choose|k: int| is_best_level(levels, request_duration as int, k);
                lemma_best_level_unique(levels, request_duration as int, best as int, picked);
            }
            best
        };
        assert(chosen == chosen_level(levels, request_duration as int, full));
        assert(levels[chosen as int] == tile_set.tiles@[chosen as int]@);
        proof {
            if fills_row(levels, bound) {
                lemma_overlapping_covers(levels[chosen as int], bound, request_interval);
            }
        }
        // Of that level, the tiles that overlap the request.
        let tiles = overlapping_tiles(&tile_set.tiles[chosen], request_interval);
        fill_cache(cache, tiles, last, request_interval)
    }

    /// A request repeated gets the answer it got before: once a request
    /// for `view` has been answered and the slot holds that request and
    /// that answer, the same request is answered by the same tiles, whatever
    /// was asked of the other slot in between.
    pub proof fn lemma_repeat_is_stable(before: Self, after: Self, view: Interval, full: bool)
        requires
            after.levels() == before.levels(),
            after.interval() == before.interval(),
            after.last_request(full) == Some(before.request_of(view)),
            after.cache(full) == before.answer(view, full),
        ensures
            after.answer(view, full) == before.answer(view, full),
    {
    }

    /// A row without levels keeps its zoom only within a factor of two: a
    /// request that is no repeat is answered with tiles of the last answer,
    /// as they are or with more on either side, only where the size of
    /// those tiles is within a factor of two of the request. Any other such
    /// request is answered with the request itself as one tile.
    pub proof fn lemma_drift_is_bounded(tm: Self, view: Interval, full: bool)
        requires
            tm.levels().len() == 0,
            tm.request_of(view).duration() > 0,
            tm.last_request(full) != Some(tm.request_of(view)),
        ensures
            keeps_cache(tm.cache(full), tm.request_of(view)) ==> within_double(
                tm.cache(full),
                tm.request_of(view).duration(),
            ),
            keeps_cache(tm.cache(full), tm.request_of(view)) ==> tm.answer(view, full)
                == tm.cache(full) || tm.answer(view, full) == extended(
                tm.cache(full),
                tm.request_of(view),
                tm.interval(),
            ),
            !keeps_cache(tm.cache(full), tm.request_of(view)) ==> tm.answer(view, full) == seq![
                TileID(tm.request_of(view)),
            ],
    {
    }

    /// Drops from `cache` every entry whose key is not one of `tile_ids`.
    pub fn invalidate_cache<T>(tile_ids: &[TileID], cache: &mut BTreeMap<TileID, T>)
        ensures
            final(cache)@ == old(cache)@.restrict(tile_ids@.to_set()),
    {
        retain_listed(cache, tile_ids);
    }
}

} // verus!
