use crate::data::TileID;
use crate::timestamp::{earlier, later, Interval, Timestamp};
use vstd::prelude::*;

verus! {

/// Every tile is a valid interval inside `bound`.
pub open spec fn tiles_within(tiles: Seq<TileID>, bound: Interval) -> bool {
    forall|i: int|
        0 <= i < tiles.len() ==> (#[trigger] tiles[i]).0.is_valid()
            && bound.spec_contains_interval(tiles[i].0)
}

/// Every instant of `r` lies in some tile.
pub open spec fn tiles_cover(tiles: Seq<TileID>, r: Interval) -> bool {
    forall|t: int| #[trigger]
        r.has_point(t) ==> exists|i: int| 0 <= i < tiles.len() && (#[trigger] tiles[i]).0.has_point(t)
}

/// The tile size that a list is measured by: the longer of its first two
/// tiles, or its only one. A tile at the edge of a row may have been cut
/// short, and of two neighbours at most one is at an edge.
pub open spec fn probe_size(tiles: Seq<TileID>) -> int
    recommends
        tiles.len() > 0,
{
    if tiles.len() > 1 {
        later(tiles[0].0.duration(), tiles[1].0.duration())
    } else {
        tiles[0].0.duration()
    }
}

/// The numerator of the size ratio between a tile list and a request that
/// lasts `d`: the larger of the two sizes. The ratio is never below one.
pub open spec fn ratio_num(tiles: Seq<TileID>, d: int) -> int {
    later(probe_size(tiles), d)
}

/// The denominator of that ratio: the smaller of the two sizes. It is zero
/// where the probed tiles are empty, and the ratio then exceeds every number.
pub open spec fn ratio_den(tiles: Seq<TileID>, d: int) -> int {
    earlier(probe_size(tiles), d)
}

/// The ratio of `tiles` to a request of `d` is at most two.
pub open spec fn within_double(tiles: Seq<TileID>, d: int) -> bool {
    ratio_num(tiles, d) <= 2 * ratio_den(tiles, d)
}

/// The ratio of `a` is strictly below that of `b`, both taken against a
/// request of `d`.
pub open spec fn ratio_below(a: Seq<TileID>, b: Seq<TileID>, d: int) -> bool {
    ratio_num(a, d) * ratio_den(b, d) < ratio_num(b, d) * ratio_den(a, d)
}

/// Level `k` has the least ratio of all levels, and is the first to have it.
pub open spec fn is_best_level(levels: Seq<Seq<TileID>>, d: int, k: int) -> bool {
    &&& 0 <= k < levels.len()
    &&& forall|j: int| 0 <= j < k ==> ratio_below(levels[k], #[trigger] levels[j], d)
    &&& forall|j: int| k < j < levels.len() ==> !ratio_below(#[trigger] levels[j], levels[k], d)
}

/// The level that answers a request of `d`: the finest one when full detail
/// is asked for, else the first of those whose ratio is least.
pub open spec fn chosen_level(levels: Seq<Seq<TileID>>, d: int, full: bool) -> int {
    if full {
        levels.len() - 1
    } else {
        choose|k: int| is_best_level(levels, d, k)
    }
}

/// The tiles of `level` that overlap `r`, in their order.
pub open spec fn overlapping(level: Seq<TileID>, r: Interval) -> Seq<TileID> {
    level.filter(|t: TileID| r.spec_overlaps(t.0))
}

/// What a row with fixed levels answers to the non-empty request `r`.
pub open spec fn static_tiles(levels: Seq<Seq<TileID>>, r: Interval, full: bool) -> Seq<TileID> {
    overlapping(levels[chosen_level(levels, r.duration(), full)], r)
}

/// The span from the earliest start to the latest stop of the tiles.
pub open spec fn envelope(tiles: Seq<TileID>) -> Interval
    recommends
        tiles.len() > 0,
    decreases tiles.len(),
{
    if tiles.len() <= 1 {
        tiles[0].0
    } else {
        envelope(tiles.drop_last()).spec_union(tiles.last().0)
    }
}

/// How many tiles of `size` it takes to span `length`: the quotient rounded
/// up, and none for a length that is not positive.
pub open spec fn tiles_needed(length: int, size: int) -> int
    recommends
        size > 0,
{
    if length <= 0 {
        0
    } else {
        (length + size - 1) / size
    }
}

/// `tile` moved by `delta` nanoseconds and then cut to `bound`. The move is
/// made on mathematical integers, so a tile that leaves the range of `i64`
/// on its way is still cut to what `bound` holds of it.
pub open spec fn shifted_within(tile: Interval, delta: int, bound: Interval) -> Interval {
    let start = later(tile.start.0 + delta, bound.start.0 as int);
    let stop = earlier(tile.stop.0 + delta, bound.stop.0 as int);
    Interval { start: Timestamp(start as i64), stop: Timestamp(later(start, stop) as i64) }
}

/// The tiles put before a cached list to reach back to the start of `r`:
/// copies of the first tile, one tile size apart, cut to `bound`.
pub open spec fn tiles_before(cache: Seq<TileID>, r: Interval, bound: Interval) -> Seq<TileID> {
    let size = cache[0].0.duration();
    let gap = r.spec_subtract_after(envelope(cache).start).duration();
    let count = tiles_needed(gap, size);
    Seq::new(count as nat, |i: int| TileID(shifted_within(cache[0].0, (i - count) * size, bound)))
}

/// The tiles put behind a cached list to reach the end of `r`: copies of the
/// last tile, one size of the first tile apart, cut to `bound`.
pub open spec fn tiles_after(cache: Seq<TileID>, r: Interval, bound: Interval) -> Seq<TileID> {
    let size = cache[0].0.duration();
    let gap = r.spec_subtract_before(envelope(cache).stop).duration();
    let count = tiles_needed(gap, size);
    Seq::new(count as nat, |i: int| TileID(shifted_within(cache.last().0, (i + 1) * size, bound)))
}

/// A cached list with tiles added on both sides as far as `r` reaches.
pub open spec fn extended(cache: Seq<TileID>, r: Interval, bound: Interval) -> Seq<TileID> {
    tiles_before(cache, r, bound) + cache + tiles_after(cache, r, bound)
}

/// The tiles of the last answer serve again for the request `r`: there are
/// some, their size is within a factor of two of the request, and their
/// span contains the request or at least overlaps it.
pub open spec fn keeps_cache(cache: Seq<TileID>, r: Interval) -> bool {
    &&& cache.len() > 0
    &&& within_double(cache, r.duration())
    &&& (envelope(cache).spec_contains_interval(r) || envelope(cache).spec_overlaps(r))
}

/// What a row without levels answers to the non-empty request `r`, given
/// the tiles `cache` of its last answer: where those serve again, the same
/// tiles if they contain `r`, and else those tiles with more of their kind
/// on either side; where they do not, `r` as one new tile.
pub open spec fn dynamic_tiles(cache: Seq<TileID>, r: Interval, bound: Interval) -> Seq<TileID> {
    if keeps_cache(cache, r) {
        if envelope(cache).spec_contains_interval(r) {
            cache
        } else {
            extended(cache, r, bound)
        }
    } else {
        seq![TileID(r)]
    }
}

/// The answer to a request for `r`, the part of the view inside the row,
/// from a slot that last answered `last` with `cache`.
pub open spec fn requested_tiles(
    levels: Seq<Seq<TileID>>,
    bound: Interval,
    last: Option<Interval>,
    cache: Seq<TileID>,
    r: Interval,
    full: bool,
) -> Seq<TileID> {
    if last == Some(r) {
        cache
    } else if r.duration() <= 0 {
        Seq::empty()
    } else if levels.len() == 0 {
        dynamic_tiles(cache, r, bound)
    } else {
        static_tiles(levels, r, full)
    }
}

/// Non-empty tiles in a row, each beginning no earlier than the one before
/// it and no later than that one ends, and ending no earlier.
pub open spec fn is_linked(tiles: Seq<TileID>) -> bool {
    &&& tiles.len() > 0
    &&& forall|i: int| 0 <= i < tiles.len() ==> (#[trigger] tiles[i]).0.duration() > 0
    &&& forall|i: int|
        0 <= i < tiles.len() - 1 ==> {
            &&& (#[trigger] tiles[i]).0.start.0 <= tiles[i + 1].0.start.0
            &&& tiles[i + 1].0.start.0 <= tiles[i].0.stop.0
            &&& tiles[i].0.stop.0 <= tiles[i + 1].0.stop.0
        }
}

/// The shape of a cached tile list in a row without levels: the tiles are
/// linked and lie in the row, and the last is at least as long as the first
/// unless it reaches the end of the row.
pub open spec fn is_chain(tiles: Seq<TileID>, bound: Interval) -> bool {
    &&& is_linked(tiles)
    &&& tiles_within(tiles, bound)
    &&& (tiles.last().0.duration() >= tiles[0].0.duration() || tiles.last().0.stop == bound.stop)
}

} // verus!
