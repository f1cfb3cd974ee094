use crate::data::{levels_of, measurable, TileID};
use crate::tile_manager::model::{
    envelope, extended, is_best_level, overlapping, probe_size, ratio_below, ratio_den,
    shifted_within, tiles_after, tiles_before, tiles_needed, tiles_within, within_double,
};
use crate::tile_manager::proofs::{
    can_extend, lemma_linked_envelope, lemma_ratio_below_then_not_above,
    lemma_ratio_below_transitive, lemma_tile_after, lemma_tiles_needed,
};
use crate::timestamp::{Interval, Timestamp};
use vstd::arithmetic::div_mod::{lemma_fundamental_div_mod, lemma_fundamental_div_mod_converse};
use vstd::prelude::*;

verus! {

/// Tiles inside a bound whose length fits can be measured.
pub proof fn lemma_measurable(tiles: Seq<TileID>, bound: Interval)
    requires
        tiles.len() > 0,
        tiles_within(tiles, bound),
        bound.duration() <= i64::MAX,
    ensures
        measurable(tiles),
{
    assert forall|i: int| 0 <= i < tiles.len() implies 0 <= (#[trigger] tiles[i]).0.duration()
        <= i64::MAX by {
        assert(tiles[i].0.is_valid() && bound.spec_contains_interval(tiles[i].0));
    }
}

/// The tile size that the list is measured by.
pub fn probe(tiles: &Vec<TileID>) -> (size: i64)
    requires
        measurable(tiles@),
    ensures
        size == probe_size(tiles@),
        0 <= size,
{
    assert(0 <= tiles@[0].0.duration() <= i64::MAX);
    let first = tiles[0].0.duration_ns();
    if tiles.len() > 1 {
        assert(0 <= tiles@[1].0.duration() <= i64::MAX);
        let second = tiles[1].0.duration_ns();
        if first >= second {
            first
        } else {
            second
        }
    } else {
        first
    }
}

/// Whether the tile size is within a factor of two of a request that lasts
/// `d`.
pub fn zoom_kept(tiles: &Vec<TileID>, d: i64) -> (kept: bool)
    requires
        measurable(tiles@),
    ensures
        kept == within_double(tiles@, d as int),
{
    let size = probe(tiles);
    let (num, den) = if size < d {
        (d, size)
    } else {
        (size, d)
    };
    num as i128 <= 2 * (den as i128)
}

/// Whether the ratio of `a` to a request that lasts `d` is below that of
/// `b`.
pub fn ratio_is_below(a: &Vec<TileID>, b: &Vec<TileID>, d: i64) -> (below: bool)
    requires
        measurable(a@),
        measurable(b@),
        d > 0,
    ensures
        below == ratio_below(a@, b@, d as int),
{
    let size_a = probe(a);
    let size_b = probe(b);
    let (num_a, den_a) = if size_a < d {
        (d, size_a)
    } else {
        (size_a, d)
    };
    let (num_b, den_b) = if size_b < d {
        (d, size_b)
    } else {
        (size_b, d)
    };
    proof {
        assert(0 <= num_a * den_b <= 0x7fff_ffff_ffff_ffff * 0x7fff_ffff_ffff_ffff)
            by (nonlinear_arith)
            requires
                0 <= num_a <= 0x7fff_ffff_ffff_ffff,
                0 <= den_b <= 0x7fff_ffff_ffff_ffff,
        ;
        assert(0 <= num_b * den_a <= 0x7fff_ffff_ffff_ffff * 0x7fff_ffff_ffff_ffff)
            by (nonlinear_arith)
            requires
                0 <= num_b <= 0x7fff_ffff_ffff_ffff,
                0 <= den_a <= 0x7fff_ffff_ffff_ffff,
        ;
    }
    (num_a as i128) * (den_b as i128) < (num_b as i128) * (den_a as i128)
}

/// The first of the levels whose ratio to a request that lasts `d` is
/// least.
pub fn best_level(levels: &Vec<Vec<TileID>>, d: i64) -> (best: usize)
    requires
        levels@.len() > 0,
        forall|k: int| 0 <= k < levels@.len() ==> measurable(#[trigger] levels_of(levels@)[k]),
        d > 0,
    ensures
        is_best_level(levels_of(levels@), d as int, best as int),
{
    let ghost lv = levels_of(levels@);
    proof {
        assert forall|k: int| 0 <= k < lv.len() implies measurable(#[trigger] lv[k])
            && ratio_den(lv[k], d as int) >= 0 by {
            assert(lv[k][0].0.duration() >= 0);
            if lv[k].len() > 1 {
                assert(lv[k][1].0.duration() >= 0);
            }
        }
    }
    let mut best: usize = 0;
    let mut k: usize = 1;
    while k < levels.len()
        invariant
            1 <= k <= levels.len(),
            best < k,
            lv == levels_of(levels@),
            d > 0,
            forall|j: int|
                0 <= j < lv.len() ==> measurable(#[trigger] lv[j]) && ratio_den(
                    lv[j],
                    d as int,
                ) >= 0,
            forall|j: int|
                0 <= j < best ==> ratio_below(lv[best as int], #[trigger] lv[j], d as int),
            forall|j: int|
                best < j < k ==> !ratio_below(#[trigger] lv[j], lv[best as int], d as int),
        decreases levels.len() - k,
    {
        assert(lv[k as int] == levels@[k as int]@);
        assert(lv[best as int] == levels@[best as int]@);
        if ratio_is_below(&levels[k], &levels[best], d) {
            proof {
                assert forall|j: int| 0 <= j < k implies ratio_below(
                    lv[k as int],
                    #[trigger] lv[j],
                    d as int,
                ) by {
                    if j < best {
                        lemma_ratio_below_transitive(lv[k as int], lv[best as int], lv[j], d as int);
                    } else if j > best {
                        lemma_ratio_below_then_not_above(
                            lv[k as int],
                            lv[best as int],
                            lv[j],
                            d as int,
                        );
                    }
                }
            }
            best = k;
        }
        k += 1;
    }
    best
}

/// The tiles of `level` that overlap `r`, in their order.
pub fn overlapping_tiles(level: &Vec<TileID>, r: Interval) -> (out: Vec<TileID>)
    ensures
        out@ == overlapping(level@, r),
{
    let ghost pred = |t: TileID| r.spec_overlaps(t.0);
    let mut out: Vec<TileID> = Vec::new();
    let mut i: usize = 0;
    assert(level@.take(0) =~= Seq::<TileID>::empty());
    proof {
        reveal(Seq::filter);
    }
    while i < level.len()
        invariant
            i <= level.len(),
            pred == (|t: TileID| r.spec_overlaps(t.0)),
            out@ == level@.take(i as int).filter(pred),
        decreases level.len() - i,
    {
        let tile = level[i];
        proof {
            assert(level@.take(i + 1) =~= level@.take(i as int).push(tile));
            level@.take(i as int).lemma_filter_push(tile, pred);
        }
        if r.overlaps(tile.0) {
            out.push(tile);
        }
        i += 1;
    }
    assert(level@.take(level@.len() as int) =~= level@);
    out
}

/// The span from the earliest start to the latest stop of the tiles.
pub fn span(tiles: &Vec<TileID>) -> (e: Interval)
    requires
        tiles@.len() > 0,
    ensures
        e == envelope(tiles@),
{
    let mut e = tiles[0].0;
    let mut i: usize = 1;
    assert(tiles@.take(1) =~= seq![tiles@[0]]);
    while i < tiles.len()
        invariant
            1 <= i <= tiles.len(),
            e == envelope(tiles@.take(i as int)),
        decreases tiles.len() - i,
    {
        proof {
            let next = tiles@.take(i + 1);
            assert(next.drop_last() =~= tiles@.take(i as int));
            assert(next.last() == tiles@[i as int]);
        }
        e = e.union(tiles[i].0);
        i += 1;
    }
    assert(tiles@.take(tiles@.len() as int) =~= tiles@);
    e
}

/// How many tiles of `size` it takes to span `length`.
pub fn count_tiles(length: i64, size: i64) -> (count: i64)
    requires
        size > 0,
    ensures
        count == tiles_needed(length as int, size as int),
        0 <= count,
{
    if length <= 0 {
        0
    } else {
        let whole = length / size;
        let rest = length % size;
        proof {
            lemma_fundamental_div_mod(length as int, size as int);
            assert(0 <= rest < size && whole >= 0 && whole * size <= length) by (nonlinear_arith)
                requires
                    length == size * whole + rest,
                    rest == length % size,
                    whole == length / size,
                    length > 0,
                    size > 0,
            ;
            if rest == 0 {
                assert(length + size - 1 == whole * size + (size - 1)) by (nonlinear_arith)
                    requires
                        length == size * whole + rest,
                        rest == 0,
                ;
                lemma_fundamental_div_mod_converse(
                    length + size - 1,
                    size as int,
                    whole as int,
                    size - 1,
                );
            } else {
                assert(length + size - 1 == (whole + 1) * size + (rest - 1)) by (nonlinear_arith)
                    requires
                        length == size * whole + rest,
                ;
                lemma_fundamental_div_mod_converse(
                    length + size - 1,
                    size as int,
                    whole + 1,
                    rest - 1,
                );
                assert(whole < length) by (nonlinear_arith)
                    requires
                        length == size * whole + rest,
                        rest > 0,
                        size > 0,
                        whole >= 0,
                ;
            }
        }
        if rest == 0 {
            whole
        } else {
            whole + 1
        }
    }
}

/// `tile` moved by `steps` times `size` nanoseconds and cut to `bound`.
pub fn shifted_tile(tile: Interval, steps: i64, size: i64, bound: Interval) -> (r: Interval)
    requires
        tile.start.0 + steps * size <= i64::MAX,
    ensures
        r == shifted_within(tile, steps * size, bound),
{
    proof {
        assert(-0x8000_0000_0000_0000 * 0x8000_0000_0000_0000 <= steps * size
            <= 0x8000_0000_0000_0000 * 0x8000_0000_0000_0000) by (nonlinear_arith)
            requires
                -0x8000_0000_0000_0000 <= steps <= 0x7fff_ffff_ffff_ffff,
                -0x8000_0000_0000_0000 <= size <= 0x7fff_ffff_ffff_ffff,
        ;
    }
    let delta: i128 = (steps as i128) * (size as i128);
    let moved_start: i128 = tile.start.0 as i128 + delta;
    let moved_stop: i128 = tile.stop.0 as i128 + delta;
    let start: i128 = if moved_start >= bound.start.0 as i128 {
        moved_start
    } else {
        bound.start.0 as i128
    };
    let stop: i128 = if moved_stop <= bound.stop.0 as i128 {
        moved_stop
    } else {
        bound.stop.0 as i128
    };
    let stop: i128 = if start >= stop {
        start
    } else {
        stop
    };
    Interval { start: Timestamp(start as i64), stop: Timestamp(stop as i64) }
}

/// The cached list with tiles added on both sides as far as `r` reaches.
pub fn extend_tiles(cache: &Vec<TileID>, r: Interval, bound: Interval) -> (out: Vec<TileID>)
    requires
        can_extend(cache@, r, bound),
        bound.duration() <= i64::MAX,
    ensures
        out@ == extended(cache@, r, bound),
{
    let n = cache.len();
    let first = cache[0].0;
    let last = cache[n - 1].0;
    proof {
        lemma_linked_envelope(cache@);
        assert(first.is_valid() && bound.spec_contains_interval(first));
        assert(last.is_valid() && bound.spec_contains_interval(last));
        assert(cache@[0].0.duration() > 0);
    }
    let e = span(cache);
    let size = first.duration_ns();
    let gap_before = r.subtract_after(e.start).duration_ns();
    let gap_after = r.subtract_before(e.stop).duration_ns();
    let count_before = count_tiles(gap_before, size);
    let count_after = count_tiles(gap_after, size);
    let ghost before = tiles_before(cache@, r, bound);
    let ghost after = tiles_after(cache@, r, bound);
    proof {
        lemma_tiles_needed(gap_before as int, size as int);
        lemma_tiles_needed(gap_after as int, size as int);
        assert(before.len() == count_before);
        assert(after.len() == count_after);
    }
    let mut out: Vec<TileID> = Vec::new();
    let mut i: i64 = 0;
    while i < count_before
        invariant
            0 <= i <= count_before,
            size > 0,
            size == first.duration(),
            first == cache@[0].0,
            bound.spec_contains_interval(first),
            before == tiles_before(cache@, r, bound),
            before.len() == count_before,
            count_before == tiles_needed(
                r.spec_subtract_after(envelope(cache@).start).duration(),
                size as int,
            ),
            out@ == before.take(i as int),
        decreases count_before - i,
    {
        proof {
            assert((i - count_before) * size <= 0) by (nonlinear_arith)
                requires
                    i - count_before <= 0,
                    size > 0,
            ;
        }
        let tile = shifted_tile(first, i - count_before, size, bound);
        out.push(TileID(tile));
        proof {
            assert(before[i as int] == TileID(tile));
            assert(before.take(i + 1) =~= before.take(i as int).push(TileID(tile)));
        }
        i += 1;
    }
    assert(before.take(count_before as int) =~= before);
    let mut k: usize = 0;
    while k < n
        invariant
            k <= n,
            n == cache@.len(),
            out@ == before + cache@.take(k as int),
        decreases n - k,
    {
        out.push(cache[k]);
        proof {
            assert(cache@.take(k + 1) =~= cache@.take(k as int).push(cache@[k as int]));
            assert(before + cache@.take(k + 1) =~= (before + cache@.take(k as int)).push(
                cache@[k as int],
            ));
        }
        k += 1;
    }
    assert(cache@.take(n as int) =~= cache@);
    let mut i: i64 = 0;
    while i < count_after
        invariant
            0 <= i <= count_after,
            can_extend(cache@, r, bound),
            size > 0,
            size == cache@[0].0.duration(),
            last == cache@.last().0,
            bound.spec_contains_interval(last),
            after == tiles_after(cache@, r, bound),
            after.len() == count_after,
            count_after == tiles_needed(gap_after as int, size as int),
            gap_after == r.spec_subtract_before(envelope(cache@).stop).duration(),
            envelope(cache@).stop == last.stop,
            out@ == before + cache@ + after.take(i as int),
        decreases count_after - i,
    {
        proof {
            lemma_tiles_needed(gap_after as int, size as int);
            assert(last.duration() >= size);
            lemma_tile_after(last, size as int, count_after as int, i as int, bound, r.stop.0 as int);
        }
        let tile = shifted_tile(last, i + 1, size, bound);
        out.push(TileID(tile));
        proof {
            assert(after[i as int] == TileID(tile));
            assert(after.take(i + 1) =~= after.take(i as int).push(TileID(tile)));
            assert(before + cache@ + after.take(i + 1) =~= (before + cache@ + after.take(
                i as int,
            )).push(TileID(tile)));
        }
        i += 1;
    }
    assert(after.take(count_after as int) =~= after);
    out
}

} // verus!
