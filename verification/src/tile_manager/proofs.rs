use crate::data::{level_partitions, measurable, TileID, TileSet};
use crate::tile_manager::model::{
    envelope, extended, is_best_level, is_chain, is_linked, overlapping, ratio_below, ratio_den,
    ratio_num, shifted_within, tiles_after, tiles_before, tiles_cover, tiles_needed, tiles_within,
};
use crate::timestamp::{earlier, later, Interval};
use vstd::prelude::*;

verus! {

/// `tiles_needed` rounds the quotient up: that many tiles reach the length,
/// and one fewer would not.
pub proof fn lemma_tiles_needed(length: int, size: int)
    requires
        size > 0,
    ensures
        tiles_needed(length, size) >= 0,
        length <= 0 ==> tiles_needed(length, size) == 0,
        length > 0 ==> tiles_needed(length, size) >= 1,
        length > 0 ==> (tiles_needed(length, size) - 1) * size < length,
        length <= tiles_needed(length, size) * size,
{
    if length > 0 {
        let n = (length + size - 1) / size;
        assert(n * size <= length + size - 1 < n * size + size && n >= 1) by (nonlinear_arith)
            requires
                n == (length + size - 1) / size,
                size > 0,
                length > 0,
        ;
        assert((n - 1) * size == n * size - size) by (nonlinear_arith);
    } else {
        assert(0 * size == 0) by (nonlinear_arith);
    }
}

/// A ratio below a second that is below a third is below the third.
pub proof fn lemma_ratio_below_transitive(a: Seq<TileID>, b: Seq<TileID>, c: Seq<TileID>, d: int)
    requires
        d > 0,
        ratio_den(a, d) >= 0,
        ratio_den(b, d) >= 0,
        ratio_den(c, d) >= 0,
        ratio_below(a, b, d),
        ratio_below(b, c, d),
    ensures
        ratio_below(a, c, d),
{
    let (na, da) = (ratio_num(a, d), ratio_den(a, d));
    let (nb, db) = (ratio_num(b, d), ratio_den(b, d));
    let (nc, dc) = (ratio_num(c, d), ratio_den(c, d));
    assert(na * dc < nc * da) by (nonlinear_arith)
        requires
            na > 0,
            nb > 0,
            nc > 0,
            da >= 0,
            db >= 0,
            dc >= 0,
            na * db < nb * da,
            nb * dc < nc * db,
    {
        assert(da > 0);
        assert(db > 0);
        assert((na * db) * dc <= (nb * da) * dc);
        assert((nb * dc) * da < (nc * db) * da);
        assert(db * (na * dc) < db * (nc * da));
    }
}

/// A ratio below a second is below any third that is not below the second.
pub proof fn lemma_ratio_below_then_not_above(
    a: Seq<TileID>,
    b: Seq<TileID>,
    c: Seq<TileID>,
    d: int,
)
    requires
        d > 0,
        ratio_den(a, d) >= 0,
        ratio_den(b, d) >= 0,
        ratio_den(c, d) >= 0,
        ratio_below(a, b, d),
        !ratio_below(c, b, d),
    ensures
        ratio_below(a, c, d),
{
    let (na, da) = (ratio_num(a, d), ratio_den(a, d));
    let (nb, db) = (ratio_num(b, d), ratio_den(b, d));
    let (nc, dc) = (ratio_num(c, d), ratio_den(c, d));
    assert(na * dc < nc * da) by (nonlinear_arith)
        requires
            na > 0,
            nb > 0,
            nc > 0,
            da >= 0,
            db >= 0,
            dc >= 0,
            na * db < nb * da,
            nc * db >= nb * dc,
    {
        assert(da > 0);
        if dc == 0 {
            assert(nc * da > 0);
        } else if db == 0 {
            assert(nb * dc > 0);
        } else {
            assert((na * db) * dc < (nb * da) * dc);
            assert((nc * db) * da >= (nb * dc) * da);
            assert(db * (na * dc) < db * (nc * da));
        }
    }
}

/// At most one level is the first with the least ratio.
pub proof fn lemma_best_level_unique(levels: Seq<Seq<TileID>>, d: int, k1: int, k2: int)
    requires
        is_best_level(levels, d, k1),
        is_best_level(levels, d, k2),
    ensures
        k1 == k2,
{
    if k1 < k2 {
        assert(ratio_below(levels[k2], levels[k1], d));
        assert(!ratio_below(levels[k2], levels[k1], d));
    } else if k2 < k1 {
        assert(ratio_below(levels[k1], levels[k2], d));
        assert(!ratio_below(levels[k1], levels[k2], d));
    }
}

/// The tiles of a level that cuts `bound` into pieces lie in `bound`, in
/// order.
pub proof fn lemma_partition_within(level: Seq<TileID>, bound: Interval)
    requires
        level_partitions(level, bound),
    ensures
        tiles_within(level, bound),
        bound.is_valid(),
{
    assert forall|i: int| 0 <= i < level.len() implies bound.start.0 <= (#[trigger] level[i]).0.start.0 by {
        lemma_partition_starts(level, bound, i);
    }
    assert forall|i: int| 0 <= i < level.len() implies (#[trigger] level[i]).0.stop.0 <= bound.stop.0 by {
        lemma_partition_stops(level, bound, i);
    }
    assert(level[0].0.is_valid());
}

proof fn lemma_partition_starts(level: Seq<TileID>, bound: Interval, i: int)
    requires
        level_partitions(level, bound),
        0 <= i < level.len(),
    ensures
        bound.start.0 <= level[i].0.start.0,
    decreases i,
{
    if i > 0 {
        lemma_partition_starts(level, bound, i - 1);
        assert(level[i - 1].0.is_valid());
        assert(level[i - 1].0.stop == level[i - 1 + 1].0.start);
    }
}

proof fn lemma_partition_stops(level: Seq<TileID>, bound: Interval, i: int)
    requires
        level_partitions(level, bound),
        0 <= i < level.len(),
    ensures
        level[i].0.stop.0 <= bound.stop.0,
    decreases level.len() - i,
{
    if i < level.len() - 1 {
        lemma_partition_stops(level, bound, i + 1);
        assert(level[i + 1].0.is_valid());
        assert(level[i].0.stop == level[i + 1].0.start);
    }
}

/// A tile set whose levels cut a row into consecutive tiles can be
/// measured, if the length of the row fits in an `i64`.
pub proof fn lemma_partitions_are_measurable(tile_set: TileSet, bound: Interval)
    requires
        tile_set.partitions(bound),
        bound.duration() <= i64::MAX,
    ensures
        tile_set.measurable(),
{
    assert forall|k: int| 0 <= k < tile_set.levels().len() implies measurable(
        #[trigger] tile_set.levels()[k],
    ) by {
        let level = tile_set.levels()[k];
        lemma_partition_within(level, bound);
        assert forall|i: int| 0 <= i < level.len() implies 0 <= (#[trigger] level[i]).0.duration()
            <= i64::MAX by {
            assert(level[i].0.is_valid() && bound.spec_contains_interval(level[i].0));
        }
    }
}

/// An instant between the start of a level and the end of its tile `n`
/// lies in one of the tiles up to `n`.
proof fn lemma_partition_point(level: Seq<TileID>, bound: Interval, n: int, t: int) -> (i: int)
    requires
        level_partitions(level, bound),
        0 <= n < level.len(),
        bound.start.0 <= t < level[n].0.stop.0,
    ensures
        0 <= i <= n,
        level[i].0.has_point(t),
    decreases n,
{
    if level[n].0.start.0 <= t {
        n
    } else {
        assert(n > 0);
        assert(level[n - 1].0.stop == level[n - 1 + 1].0.start);
        lemma_partition_point(level, bound, n - 1, t)
    }
}

/// The tiles of a level that overlap a request inside the row cover the
/// request and lie in the row.
pub proof fn lemma_overlapping_covers(level: Seq<TileID>, bound: Interval, r: Interval)
    requires
        level_partitions(level, bound),
        bound.spec_contains_interval(r),
    ensures
        tiles_cover(overlapping(level, r), r),
        tiles_within(overlapping(level, r), bound),
{
    let pred = |t: TileID| r.spec_overlaps(t.0);
    let out = overlapping(level, r);
    lemma_partition_within(level, bound);
    assert forall|i: int| 0 <= i < out.len() implies (#[trigger] out[i]).0.is_valid()
        && bound.spec_contains_interval(out[i].0) by {
        assert(out.contains(out[i]));
        level.lemma_filter_contains_rev(pred, out[i]);
        let j = choose|j: int| 0 <= j < level.len() && level[j] == out[i];
        assert(level[j].0.is_valid());
    }
    assert forall|t: int| #[trigger] r.has_point(t) implies exists|i: int|
        0 <= i < out.len() && (#[trigger] out[i]).0.has_point(t) by {
        let j = lemma_partition_point(level, bound, level.len() - 1, t);
        assert(pred(level[j]));
        level.lemma_filter_contains(pred, j);
        let i = choose|i: int| 0 <= i < out.len() && out[i] == level[j];
        assert(out[i].0.has_point(t));
    }
}

/// Linked tiles span from the start of the first to the end of the last.
pub proof fn lemma_linked_envelope(tiles: Seq<TileID>)
    requires
        is_linked(tiles),
    ensures
        envelope(tiles).start == tiles[0].0.start,
        envelope(tiles).stop == tiles.last().0.stop,
    decreases tiles.len(),
{
    if tiles.len() > 1 {
        let front = tiles.drop_last();
        assert(is_linked(front)) by {
            assert forall|i: int| 0 <= i < front.len() implies (#[trigger] front[i]).0.duration()
                > 0 by {
                assert(front[i] == tiles[i]);
            }
            assert forall|i: int| 0 <= i < front.len() - 1 implies {
                &&& (#[trigger] front[i]).0.start.0 <= front[i + 1].0.start.0
                &&& front[i + 1].0.start.0 <= front[i].0.stop.0
                &&& front[i].0.stop.0 <= front[i + 1].0.stop.0
            } by {
                assert(front[i] == tiles[i]);
                assert(front[i + 1] == tiles[i + 1]);
            }
        }
        lemma_linked_envelope(front);
        lemma_linked_order(tiles, 0, tiles.len() - 1);
        let n = tiles.len() - 2;
        assert(front.last() == tiles[n]);
        assert(tiles[n].0.stop.0 <= tiles[n + 1].0.stop.0);
        assert(front[0] == tiles[0]);
    }
}

/// In linked tiles a later tile starts and stops no earlier than an
/// earlier one.
pub proof fn lemma_linked_order(tiles: Seq<TileID>, i: int, j: int)
    requires
        is_linked(tiles),
        0 <= i <= j < tiles.len(),
    ensures
        tiles[i].0.start.0 <= tiles[j].0.start.0,
        tiles[i].0.stop.0 <= tiles[j].0.stop.0,
    decreases j - i,
{
    if i < j {
        lemma_linked_order(tiles, i, j - 1);
        assert(tiles[j - 1].0.start.0 <= tiles[j - 1 + 1].0.start.0);
        assert(tiles[j - 1].0.stop.0 <= tiles[j - 1 + 1].0.stop.0);
    }
}

/// An instant between the start of linked tiles and the end of tile `n`
/// lies in one of the tiles up to `n`.
proof fn lemma_linked_point(tiles: Seq<TileID>, n: int, t: int) -> (i: int)
    requires
        is_linked(tiles),
        0 <= n < tiles.len(),
        tiles[0].0.start.0 <= t < tiles[n].0.stop.0,
    ensures
        0 <= i <= n,
        tiles[i].0.has_point(t),
    decreases n,
{
    if tiles[n].0.start.0 <= t {
        n
    } else {
        assert(n > 0);
        assert(tiles[n - 1 + 1].0.start.0 <= tiles[n - 1].0.stop.0);
        lemma_linked_point(tiles, n - 1, t)
    }
}

/// Linked tiles cover every interval that their span contains.
pub proof fn lemma_linked_covers(tiles: Seq<TileID>, r: Interval)
    requires
        is_linked(tiles),
        tiles[0].0.start.0 <= r.start.0,
        r.stop.0 <= tiles.last().0.stop.0,
    ensures
        tiles_cover(tiles, r),
{
    assert forall|t: int| #[trigger] r.has_point(t) implies exists|i: int|
        0 <= i < tiles.len() && (#[trigger] tiles[i]).0.has_point(t) by {
        let i = lemma_linked_point(tiles, tiles.len() - 1, t);
        assert(tiles[i].0.has_point(t));
    }
}

/// A tile put before the first one: where it lies.
pub proof fn lemma_tile_before(
    first: Interval,
    size: int,
    count: int,
    i: int,
    bound: Interval,
    reach: int,
)
    requires
        size == first.duration(),
        size > 0,
        bound.spec_contains_interval(first),
        0 <= i < count,
        (count - 1) * size < first.start.0 - reach,
        bound.start.0 <= reach,
    ensures
        ({
            let p = shifted_within(first, (i - count) * size, bound);
            &&& p.start.0 == later(first.start.0 + (i - count) * size, bound.start.0 as int)
            &&& p.stop.0 == first.start.0 + (i - count) * size + size
            &&& bound.start.0 <= p.start.0 < p.stop.0 <= first.start.0
            &&& p.duration() <= size
            &&& reach < p.stop.0
            &&& i + 1 == count ==> p.stop.0 == first.start.0
            &&& i + 1 < count ==> shifted_within(first, (i + 1 - count) * size, bound).start.0
                == p.stop.0
        }),
{
    let k = i - count;
    let off = k * size;
    assert(off + size == (k + 1) * size && off + size <= 0 && off + size >= -((count - 1) * size)
        && (i + 1 == count ==> off + size == 0)) by (nonlinear_arith)
        requires
            off == k * size,
            -count <= k <= -1,
            k == i - count,
            size > 0,
    ;
    assert((i + 1 - count) * size == off + size) by (nonlinear_arith)
        requires
            off == (i - count) * size,
    ;
}

/// A tile put behind the last one: where it lies.
pub proof fn lemma_tile_after(
    last: Interval,
    size: int,
    count: int,
    i: int,
    bound: Interval,
    reach: int,
)
    requires
        size > 0,
        last.duration() >= size,
        bound.spec_contains_interval(last),
        0 <= i < count,
        (count - 1) * size < reach - last.stop.0,
        reach <= bound.stop.0,
    ensures
        ({
            let a = shifted_within(last, (i + 1) * size, bound);
            &&& a.start.0 == last.start.0 + (i + 1) * size
            &&& a.stop.0 == earlier(last.stop.0 + (i + 1) * size, bound.stop.0 as int)
            &&& last.start.0 < a.start.0 < a.stop.0 <= bound.stop.0
            &&& a.start.0 < reach
            &&& last.stop.0 <= a.stop.0
            &&& (a.duration() >= size || a.stop == bound.stop)
            &&& i == 0 ==> a.start.0 <= last.stop.0
            &&& i + 1 < count ==> {
                let next = shifted_within(last, (i + 1 + 1) * size, bound);
                &&& a.start.0 <= next.start.0 <= a.stop.0 <= next.stop.0
            }
        }),
{
    let off = (i + 1) * size;
    assert(off >= size && off - size <= (count - 1) * size && (i == 0 ==> off == size)
        && (i + 1 + 1) * size == off + size) by (nonlinear_arith)
        requires
            off == (i + 1) * size,
            0 <= i < count,
            size > 0,
    ;
    if i + 1 < count {
        assert((i + 1 + 1) * size - size <= (count - 1) * size) by (nonlinear_arith)
            requires
                i + 1 < count,
                size > 0,
        ;
    }
}

/// What is asked of a cached list and a request before the list is
/// extended: a chain, and a non-empty request inside the row that the span
/// of the chain overlaps.
pub open spec fn can_extend(cache: Seq<TileID>, r: Interval, bound: Interval) -> bool {
    &&& is_chain(cache, bound)
    &&& r.duration() > 0
    &&& bound.spec_contains_interval(r)
    &&& envelope(cache).spec_overlaps(r)
}

/// How many tiles are put on either side, and why they are enough.
proof fn lemma_extended_counts(cache: Seq<TileID>, r: Interval, bound: Interval)
    requires
        can_extend(cache, r, bound),
    ensures
        ({
            let first = cache[0].0;
            let last = cache.last().0;
            let size = first.duration();
            let nb = tiles_before(cache, r, bound).len() as int;
            let na = tiles_after(cache, r, bound).len() as int;
            &&& size > 0
            &&& bound.spec_contains_interval(first)
            &&& bound.spec_contains_interval(last)
            &&& extended(cache, r, bound).len() == nb + cache.len() + na
            &&& nb > 0 ==> (nb - 1) * size < first.start.0 - r.start.0 <= nb * size
            &&& nb == 0 ==> first.start.0 <= r.start.0
            &&& na > 0 ==> (na - 1) * size < r.stop.0 - last.stop.0 <= na * size
            &&& na > 0 ==> last.duration() >= size
            &&& na == 0 ==> r.stop.0 <= last.stop.0
        }),
{
    lemma_linked_envelope(cache);
    let first = cache[0].0;
    let last = cache.last().0;
    let size = first.duration();
    let gap_b = r.spec_subtract_after(envelope(cache).start).duration();
    let gap_a = r.spec_subtract_before(envelope(cache).stop).duration();
    lemma_tiles_needed(gap_b, size);
    lemma_tiles_needed(gap_a, size);
    assert(first.is_valid() && bound.spec_contains_interval(first));
    assert(last.is_valid() && bound.spec_contains_interval(last));
    assert(gap_b == later(0, first.start.0 - r.start.0));
    assert(gap_a == later(0, r.stop.0 - last.stop.0));
}

/// Which tile stands at place `j` of an extended list.
proof fn lemma_extended_index(cache: Seq<TileID>, r: Interval, bound: Interval, j: int)
    requires
        cache.len() > 0,
        cache[0].0.duration() > 0,
        0 <= j < extended(cache, r, bound).len(),
    ensures
        ({
            let nb = tiles_before(cache, r, bound).len() as int;
            let n = cache.len() as int;
            let size = cache[0].0.duration();
            let out = extended(cache, r, bound);
            &&& j < nb ==> out[j] == TileID(shifted_within(cache[0].0, (j - nb) * size, bound))
            &&& nb <= j < nb + n ==> out[j] == cache[j - nb]
            &&& nb + n <= j ==> out[j] == TileID(
                shifted_within(cache.last().0, (j - nb - n + 1) * size, bound),
            )
        }),
{
    let before = tiles_before(cache, r, bound);
    let after = tiles_after(cache, r, bound);
    let nb = before.len() as int;
    let n = cache.len() as int;
    let out = extended(cache, r, bound);
    let size = cache[0].0.duration();
    lemma_tiles_needed(r.spec_subtract_after(envelope(cache).start).duration(), size);
    lemma_tiles_needed(r.spec_subtract_before(envelope(cache).stop).duration(), size);
    if j < nb {
        assert(out[j] == before[j]);
    } else if j < nb + n {
        assert(out[j] == cache[j - nb]);
    } else {
        assert(out[j] == after[j - nb - n]);
    }
}

/// Each tile of an extended list is non-empty and lies in the row.
proof fn lemma_extended_tile(cache: Seq<TileID>, r: Interval, bound: Interval, j: int)
    requires
        can_extend(cache, r, bound),
        0 <= j < extended(cache, r, bound).len(),
    ensures
        extended(cache, r, bound)[j].0.duration() > 0,
        bound.spec_contains_interval(extended(cache, r, bound)[j].0),
{
    lemma_extended_counts(cache, r, bound);
    lemma_extended_index(cache, r, bound, j);
    let nb = tiles_before(cache, r, bound).len() as int;
    let na = tiles_after(cache, r, bound).len() as int;
    let n = cache.len() as int;
    let size = cache[0].0.duration();
    if j < nb {
        lemma_tile_before(cache[0].0, size, nb, j, bound, r.start.0 as int);
    } else if j < nb + n {
        assert(cache[j - nb].0.duration() > 0);
        assert(bound.spec_contains_interval(cache[j - nb].0));
    } else {
        lemma_tile_after(cache.last().0, size, na, j - nb - n, bound, r.stop.0 as int);
    }
}

/// Neighbours in an extended list are linked.
proof fn lemma_extended_pair(cache: Seq<TileID>, r: Interval, bound: Interval, j: int)
    requires
        can_extend(cache, r, bound),
        0 <= j < extended(cache, r, bound).len() - 1,
    ensures
        ({
            let out = extended(cache, r, bound);
            &&& out[j].0.start.0 <= out[j + 1].0.start.0
            &&& out[j + 1].0.start.0 <= out[j].0.stop.0
            &&& out[j].0.stop.0 <= out[j + 1].0.stop.0
        }),
{
    lemma_extended_counts(cache, r, bound);
    lemma_extended_index(cache, r, bound, j);
    lemma_extended_index(cache, r, bound, j + 1);
    let nb = tiles_before(cache, r, bound).len() as int;
    let na = tiles_after(cache, r, bound).len() as int;
    let n = cache.len() as int;
    let first = cache[0].0;
    let last = cache.last().0;
    let size = first.duration();
    if j < nb {
        lemma_tile_before(first, size, nb, j, bound, r.start.0 as int);
        if j + 1 < nb {
            lemma_tile_before(first, size, nb, j + 1, bound, r.start.0 as int);
        }
    } else if j + 1 < nb + n {
        let k = j - nb;
        assert(cache[k].0.start.0 <= cache[k + 1].0.start.0);
    } else if j + 1 == nb + n {
        lemma_tile_after(last, size, na, 0, bound, r.stop.0 as int);
    } else {
        let k = j - nb - n;
        lemma_tile_after(last, size, na, k, bound, r.stop.0 as int);
        assert(j + 1 - nb - n + 1 == k + 1 + 1);
    }
}

/// The ends of an extended list reach the ends of the request, and its
/// last tile is as long as its first unless it ends with the row.
proof fn lemma_extended_ends(cache: Seq<TileID>, r: Interval, bound: Interval)
    requires
        can_extend(cache, r, bound),
    ensures
        ({
            let out = extended(cache, r, bound);
            &&& out.len() >= cache.len()
            &&& out[0].0.start.0 <= r.start.0
            &&& r.stop.0 <= out.last().0.stop.0
            &&& (out.last().0.duration() >= out[0].0.duration() || out.last().0.stop
                == bound.stop)
        }),
{
    lemma_extended_counts(cache, r, bound);
    let nb = tiles_before(cache, r, bound).len() as int;
    let na = tiles_after(cache, r, bound).len() as int;
    let n = cache.len() as int;
    let first = cache[0].0;
    let last = cache.last().0;
    let size = first.duration();
    let out = extended(cache, r, bound);
    lemma_extended_index(cache, r, bound, 0);
    lemma_extended_index(cache, r, bound, nb + n + na - 1);
    if nb > 0 {
        lemma_tile_before(first, size, nb, 0, bound, r.start.0 as int);
        assert((0 - nb) * size == -(nb * size)) by (nonlinear_arith);
    }
    assert(out[0].0.duration() <= size);
    if na > 0 {
        lemma_tile_after(last, size, na, na - 1, bound, r.stop.0 as int);
        assert(nb + n + na - 1 - nb - n + 1 == na - 1 + 1);
    }
}

/// Extending a chain that overlaps a request inside the row gives a chain
/// that covers the request.
pub proof fn lemma_extended_chain(cache: Seq<TileID>, r: Interval, bound: Interval)
    requires
        can_extend(cache, r, bound),
    ensures
        is_chain(extended(cache, r, bound), bound),
        tiles_cover(extended(cache, r, bound), r),
{
    let out = extended(cache, r, bound);
    lemma_extended_ends(cache, r, bound);
    assert forall|j: int| 0 <= j < out.len() implies (#[trigger] out[j]).0.duration() > 0
        && out[j].0.is_valid() && bound.spec_contains_interval(out[j].0) by {
        lemma_extended_tile(cache, r, bound, j);
    }
    assert forall|j: int| 0 <= j < out.len() - 1 implies {
        &&& (#[trigger] out[j]).0.start.0 <= out[j + 1].0.start.0
        &&& out[j + 1].0.start.0 <= out[j].0.stop.0
        &&& out[j].0.stop.0 <= out[j + 1].0.stop.0
    } by {
        lemma_extended_pair(cache, r, bound, j);
    }
    lemma_linked_covers(out, r);
}

} // verus!
