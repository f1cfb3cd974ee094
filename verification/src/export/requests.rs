use crate::data::{EntryID, EntryIndex, TileID};
use crate::deferred_data::{CountingDeferredDataSource, DeferredDataSource};
use vstd::prelude::*;

verus! {

/// The most requests that an export keeps waiting at a time.
pub const MAX_IN_FLIGHT_REQUESTS: u64 = 100;

/// Whether responses are to be taken in before more is asked for: more
/// requests wait than `num_requests`.
pub fn must_drain(outstanding: u64, num_requests: u64) -> (drain: bool)
    ensures
        drain == (outstanding > num_requests),
{
    outstanding > num_requests
}

/// Asks for what an export writes of one row: its tile and what is told of
/// the tile if the row is a slot, and nothing if it is a summary.
pub fn fetch_row<T: DeferredDataSource>(
    data_source: &mut CountingDeferredDataSource<T>,
    entry_id: &EntryID,
    tile_id: TileID,
    full: bool,
) -> (asked: bool)
    requires
        old(data_source).valid(),
        old(data_source).outstanding() + 2 <= u64::MAX,
        entry_id@.len() > 0,
    ensures
        final(data_source).valid(),
        asked == (entry_id@.last() is Slot),
        asked ==> final(data_source).outstanding() == old(data_source).outstanding() + 2,
        asked ==> exists|first: &mut T, second: &mut T|
            {
                &&& *first == old(data_source).source()
                &&& #[trigger] call_ensures(
                    T::fetch_slot_tile,
                    (first, entry_id, tile_id, full),
                    (),
                )
                &&& *second == *final(first)
                &&& #[trigger] call_ensures(
                    T::fetch_slot_meta_tile,
                    (second, entry_id, tile_id, full),
                    (),
                )
                &&& *final(second) == final(data_source).source()
            },
        !asked ==> *final(data_source) == *old(data_source),
{
    match entry_id.last_index() {
        Some(EntryIndex::Slot(_)) => {
            data_source.fetch_slot_tile(entry_id, tile_id, full);
            data_source.fetch_slot_meta_tile(entry_id, tile_id, full);
            true
        },
        _ => false,
    }
}

} // verus!
