use crate::data::{Color, Item, ItemMeta, SlotMetaTile, SlotTile};
use crate::timestamp::Timestamp;
use vstd::prelude::*;

verus! {

/// One box of a row as it is written out: its two ends on the clock of the
/// export, its title, and its colour as alpha, red, green and blue in one
/// number.
#[derive(Debug)]
pub struct ExportEvent {
    pub time_start: u64,
    pub time_stop: u64,
    pub name: String,
    pub color: u32,
}

/// A timestamp on the clock of the export: the timestamp plus the time
/// that the profile's clock calls zero. There is none where that sum is
/// negative or more than 64 bits hold.
pub open spec fn spec_event_time(ts: i64, zero_time: i64) -> Option<u64> {
    if 0 <= ts + zero_time <= u64::MAX {
        Some((ts + zero_time) as u64)
    } else {
        None
    }
}

pub fn event_time(ts: Timestamp, zero_time: i64) -> (time: Option<u64>)
    ensures
        time == spec_event_time(ts.0, zero_time),
{
    let sum: i128 = ts.0 as i128 + zero_time as i128;
    if 0 <= sum && sum <= u64::MAX as i128 {
        Some(sum as u64)
    } else {
        None
    }
}

/// A colour without its transparency: full alpha above red, green and
/// blue, eight bits each.
pub open spec fn spec_argb(color: Color) -> u32 {
    (0xff00_0000 + color.r * 0x1_0000 + color.g * 0x100 + color.b) as u32
}

pub fn argb(color: Color) -> (packed: u32)
    ensures
        packed == spec_argb(color),
{
    let r = color.r as u32;
    let g = color.g as u32;
    let b = color.b as u32;
    assert((r << 16) | (g << 8) | b | (0xFFu32 << 24) == 0xff00_0000 + r * 0x1_0000 + g * 0x100
        + b) by (bit_vector)
        requires
            r < 256,
            g < 256,
            b < 256,
    ;
    (r << 16) | (g << 8) | b | (0xFF << 24)
}

/// `event` is what is written for the box `item` that `meta` tells of.
pub open spec fn is_event_of(event: ExportEvent, item: Item, meta: ItemMeta, zero_time: i64) -> bool {
    &&& Some(event.time_start) == spec_event_time(item.interval.start.0, zero_time)
    &&& Some(event.time_stop) == spec_event_time(item.interval.stop.0, zero_time)
    &&& event.name@ == meta.title@
    &&& event.color == spec_argb(item.color)
}

/// Both ends of the box have a time on the clock of the export.
pub open spec fn item_fits(item: Item, zero_time: i64) -> bool {
    &&& spec_event_time(item.interval.start.0, zero_time) is Some
    &&& spec_event_time(item.interval.stop.0, zero_time) is Some
}

/// The two rows have a box each for the same places, and each box fits.
pub open spec fn row_matches(row: Seq<Item>, meta_row: Seq<ItemMeta>, zero_time: i64) -> bool {
    &&& row.len() == meta_row.len()
    &&& forall|j: int| 0 <= j < row.len() ==> item_fits(#[trigger] row[j], zero_time)
}

/// The two tiles have the same rows of the same lengths, and each box fits.
pub open spec fn tiles_match(tile: SlotTile, meta_tile: SlotMetaTile, zero_time: i64) -> bool {
    &&& tile.data.items@.len() == meta_tile.data.items@.len()
    &&& forall|i: int|
        0 <= i < tile.data.items@.len() ==> row_matches(
            #[trigger] tile.data.items@[i]@,
            meta_tile.data.items@[i]@,
            zero_time,
        )
}

/// The events of one row are those of its boxes, in order.
pub open spec fn is_row_of(
    events: Seq<ExportEvent>,
    row: Seq<Item>,
    meta_row: Seq<ItemMeta>,
    zero_time: i64,
) -> bool {
    &&& events.len() == row.len()
    &&& row.len() == meta_row.len()
    &&& forall|j: int|
        0 <= j < events.len() ==> is_event_of(#[trigger] events[j], row[j], meta_row[j], zero_time)
}

/// The event that is written for one box, where both its ends fit.
pub fn item_event(item: &Item, meta: &ItemMeta, zero_time: i64) -> (event: Option<ExportEvent>)
    ensures
        event is Some <==> item_fits(*item, zero_time),
        event is Some ==> is_event_of(event->0, *item, *meta, zero_time),
{
    let time_start = match event_time(item.interval.start, zero_time) {
        Some(time) => time,
        None => {
            return None;
        },
    };
    let time_stop = match event_time(item.interval.stop, zero_time) {
        Some(time) => time,
        None => {
            return None;
        },
    };
    Some(ExportEvent { time_start, time_stop, name: meta.title.clone(), color: argb(item.color) })
}

/// The events that are written for one row of a tile.
pub fn row_events(row: &Vec<Item>, meta_row: &Vec<ItemMeta>, zero_time: i64) -> (events: Option<
    Vec<ExportEvent>,
>)
    ensures
        events is Some <==> row_matches(row@, meta_row@, zero_time),
        events is Some ==> is_row_of(events->0@, row@, meta_row@, zero_time),
{
    if row.len() != meta_row.len() {
        return None;
    }
    let mut events: Vec<ExportEvent> = Vec::new();
    let mut j: usize = 0;
    while j < row.len()
        invariant
            j <= row.len(),
            row.len() == meta_row.len(),
            events@.len() == j,
            forall|k: int| 0 <= k < j ==> item_fits(#[trigger] row@[k], zero_time),
            forall|k: int|
                0 <= k < j ==> is_event_of(#[trigger] events@[k], row@[k], meta_row@[k], zero_time),
        decreases row.len() - j,
    {
        match item_event(&row[j], &meta_row[j], zero_time) {
            Some(event) => {
                events.push(event);
            },
            None => {
                assert(!item_fits(row@[j as int], zero_time));
                return None;
            },
        }
        j += 1;
    }
    Some(events)
}

/// The events that are written for a tile and what is told of it, row by
/// row: one for each box, with the title that is told of the box in the
/// same place. There are none to write where the two tiles differ in
/// shape, or where an end of a box has no time on the clock of the export.
pub fn matched_events(zero_time: i64, tile: &SlotTile, meta_tile: &SlotMetaTile) -> (events:
    Option<Vec<Vec<ExportEvent>>>)
    ensures
        events is Some <==> tiles_match(*tile, *meta_tile, zero_time),
        events is Some ==> events->0@.len() == tile.data.items@.len(),
        events is Some ==> forall|i: int|
            0 <= i < tile.data.items@.len() ==> is_row_of(
                (#[trigger] events->0@[i])@,
                tile.data.items@[i]@,
                meta_tile.data.items@[i]@,
                zero_time,
            ),
{
    if tile.data.items.len() != meta_tile.data.items.len() {
        return None;
    }
    let mut events: Vec<Vec<ExportEvent>> = Vec::new();
    let mut i: usize = 0;
    while i < tile.data.items.len()
        invariant
            i <= tile.data.items.len(),
            tile.data.items.len() == meta_tile.data.items.len(),
            events@.len() == i,
            forall|k: int|
                0 <= k < i ==> row_matches(
                    #[trigger] tile.data.items@[k]@,
                    meta_tile.data.items@[k]@,
                    zero_time,
                ),
            forall|k: int|
                0 <= k < i ==> is_row_of(
                    (#[trigger] events@[k])@,
                    tile.data.items@[k]@,
                    meta_tile.data.items@[k]@,
                    zero_time,
                ),
        decreases tile.data.items.len() - i,
    {
        match row_events(&tile.data.items[i], &meta_tile.data.items[i], zero_time) {
            Some(row) => {
                events.push(row);
            },
            None => {
                assert(!row_matches(
                    tile.data.items@[i as int]@,
                    meta_tile.data.items@[i as int]@,
                    zero_time,
                ));
                return None;
            },
        }
        i += 1;
    }
    Some(events)
}

} // verus!
