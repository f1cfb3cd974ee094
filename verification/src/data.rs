use crate::timestamp::{Interval, Timestamp};
use vstd::prelude::*;

verus! {

/// A tile of one row: the span of time it covers is its identity.
#[derive(Debug, Clone, Copy, PartialEq, Eq, Structural, PartialOrd, Ord, Hash, Default)]
pub struct TileID(pub Interval);

/// The tiles a row was cut into ahead of time, one list per level of detail,
/// coarsest level first. A row without such levels has its tiles made up on
/// demand.
#[derive(Debug, Clone, PartialEq, Eq)]
pub struct TileSet {
    pub tiles: Vec<Vec<TileID>>,
}

/// The levels of a tile set as sequences of tiles.
pub open spec fn levels_of(tiles: Seq<Vec<TileID>>) -> Seq<Seq<TileID>> {
    Seq::new(tiles.len(), |k: int| tiles[k]@)
}

/// `level` cuts `bound` into consecutive valid tiles: it starts where `bound`
/// starts, each tile begins where the one before it ends, and the last one
/// ends where `bound` ends.
pub open spec fn level_partitions(level: Seq<TileID>, bound: Interval) -> bool {
    &&& level.len() > 0
    &&& level[0].0.start == bound.start
    &&& level[level.len() - 1].0.stop == bound.stop
    &&& forall|i: int| 0 <= i < level.len() ==> (#[trigger] level[i]).0.is_valid()
    &&& forall|i: int|
        0 <= i < level.len() - 1 ==> (#[trigger] level[i]).0.stop == level[i + 1].0.start
}

/// The tiles can be measured: there is one, and each is valid and no
/// longer than an `i64` can say.
pub open spec fn measurable(tiles: Seq<TileID>) -> bool {
    &&& tiles.len() > 0
    &&& forall|i: int|
        0 <= i < tiles.len() ==> 0 <= (#[trigger] tiles[i]).0.duration() <= i64::MAX
}

impl TileSet {
    /// The levels as sequences of tiles.
    pub open spec fn levels(&self) -> Seq<Seq<TileID>> {
        levels_of(self.tiles@)
    }

    /// Every level cuts `bound` into consecutive tiles.
    pub open spec fn partitions(&self, bound: Interval) -> bool {
        forall|k: int|
            0 <= k < self.levels().len() ==> level_partitions(#[trigger] self.levels()[k], bound)
    }

    /// Every level can be measured.
    pub open spec fn measurable(&self) -> bool {
        forall|k: int| 0 <= k < self.levels().len() ==> measurable(#[trigger] self.levels()[k])
    }

    /// Whether every level can be measured.
    pub fn is_measurable(&self) -> (b: bool)
        ensures
            b == self.measurable(),
    {
        let mut k: usize = 0;
        while k < self.tiles.len()
            invariant
                k <= self.tiles.len(),
                forall|j: int| 0 <= j < k ==> measurable(#[trigger] self.levels()[j]),
            decreases self.tiles.len() - k,
        {
            let level = &self.tiles[k];
            assert(self.levels()[k as int] == level@);
            if level.len() == 0 {
                return false;
            }
            let mut i: usize = 0;
            while i < level.len()
                invariant
                    i <= level.len(),
                    k < self.tiles.len(),
                    self.levels()[k as int] == level@,
                    forall|j: int|
                        0 <= j < i ==> 0 <= (#[trigger] level@[j]).0.duration() <= i64::MAX,
                decreases level.len() - i,
            {
                let tile = level[i].0;
                if tile.start.0 > tile.stop.0 || tile.stop.0.checked_sub(tile.start.0).is_none() {
                    assert(!(0 <= level@[i as int].0.duration() <= i64::MAX));
                    assert(!measurable(self.levels()[k as int]));
                    return false;
                }
                i += 1;
            }
            k += 1;
        }
        true
    }

    /// Whether every level cuts `bound` into consecutive tiles.
    pub fn is_partition_of(&self, bound: Interval) -> (b: bool)
        ensures
            b == self.partitions(bound),
    {
        let mut k: usize = 0;
        while k < self.tiles.len()
            invariant
                k <= self.tiles.len(),
                forall|j: int| 0 <= j < k ==> level_partitions(#[trigger] self.levels()[j], bound),
            decreases self.tiles.len() - k,
        {
            let level = &self.tiles[k];
            assert(self.levels()[k as int] == level@);
            let n = level.len();
            if n == 0 {
                return false;
            }
            if level[0].0.start.0 != bound.start.0 || level[n - 1].0.stop.0 != bound.stop.0 {
                return false;
            }
            let mut i: usize = 0;
            while i < n
                invariant
                    i <= n,
                    n == level.len(),
                    n > 0,
                    k < self.tiles.len(),
                    self.levels()[k as int] == level@,
                    forall|j: int| 0 <= j < i ==> (#[trigger] level@[j]).0.is_valid(),
                    forall|j: int|
                        0 <= j < i && j < n - 1 ==> (#[trigger] level@[j]).0.stop == level@[j
                            + 1].0.start,
                decreases n - i,
            {
                if level[i].0.start.0 > level[i].0.stop.0 {
                    assert(!level@[i as int].0.is_valid());
                    assert(!level_partitions(self.levels()[k as int], bound));
                    return false;
                }
                if i + 1 < n && level[i].0.stop.0 != level[i + 1].0.start.0 {
                    assert(level@[i as int].0.stop != level@[i + 1].0.start);
                    assert(!level_partitions(self.levels()[k as int], bound));
                    return false;
                }
                i += 1;
            }
            k += 1;
        }
        true
    }
}

impl Default for TileSet {
    fn default() -> (r: TileSet)
        ensures
            r.tiles@.len() == 0,
    {
        TileSet { tiles: Vec::new() }
    }
}

/// One step of the path to a row: into the summary of a panel, or into one
/// of its slots. A summary comes before every slot, and slots come in the
/// order of their numbers.
#[derive(Debug, Clone, Copy, PartialEq, Eq, Structural, PartialOrd, Ord, Hash)]
pub enum EntryIndex {
    Summary,
    Slot(u64),
}

/// The name of a row: the path that leads to it from the root of the tree
/// of panels.
#[derive(Debug, PartialEq, Eq, PartialOrd, Ord, Hash)]
pub struct EntryID(Vec<EntryIndex>);

/// Which of two values comes first.
#[derive(Debug, Clone, Copy, PartialEq, Eq, Structural)]
pub enum Precedence {
    Before,
    Same,
    After,
}

/// `a` comes before `b`.
pub open spec fn index_before(a: EntryIndex, b: EntryIndex) -> bool {
    match (a, b) {
        (EntryIndex::Summary, EntryIndex::Slot(_)) => true,
        (EntryIndex::Slot(x), EntryIndex::Slot(y)) => x < y,
        _ => false,
    }
}

/// The two paths agree on their first `k` steps and part ways there, or
/// one of them ends there.
pub open spec fn parts_at(a: Seq<EntryIndex>, b: Seq<EntryIndex>, k: int) -> bool {
    &&& 0 <= k <= a.len()
    &&& k <= b.len()
    &&& forall|j: int| 0 <= j < k ==> a[j] == b[j]
    &&& (k == a.len() || k == b.len() || a[k] != b[k])
}

/// `a` comes before `b` in the order of the dictionary: where they part
/// ways, `a` ends or takes the earlier step.
pub open spec fn path_before(a: Seq<EntryIndex>, b: Seq<EntryIndex>) -> bool {
    exists|k: int|
        #[trigger] parts_at(a, b, k) && k < b.len() && (k == a.len() || index_before(a[k], b[k]))
}

/// Two paths part ways at one place only.
pub proof fn lemma_parts_at_unique(a: Seq<EntryIndex>, b: Seq<EntryIndex>, k1: int, k2: int)
    requires
        parts_at(a, b, k1),
        parts_at(a, b, k2),
    ensures
        k1 == k2,
{
    if k1 < k2 {
        assert(a[k1] == b[k1]);
    } else if k2 < k1 {
        assert(a[k2] == b[k2]);
    }
}

/// No path comes before itself.
pub proof fn lemma_path_before_irreflexive(a: Seq<EntryIndex>)
    ensures
        !path_before(a, a),
{
    if path_before(a, a) {
        let k = choose|k: int|
            #[trigger] parts_at(a, a, k) && k < a.len() && (k == a.len() || index_before(
                a[k],
                a[k],
            ));
        assert(a[k] == a[k]);
    }
}

/// A path before a second that is before a third is before the third.
pub proof fn lemma_path_before_transitive(
    a: Seq<EntryIndex>,
    b: Seq<EntryIndex>,
    c: Seq<EntryIndex>,
)
    requires
        path_before(a, b),
        path_before(b, c),
    ensures
        path_before(a, c),
{
    let k1 = choose|k: int|
        #[trigger] parts_at(a, b, k) && k < b.len() && (k == a.len() || index_before(a[k], b[k]));
    let k2 = choose|k: int|
        #[trigger] parts_at(b, c, k) && k < c.len() && (k == b.len() || index_before(b[k], c[k]));
    let k = if k1 <= k2 {
        k1
    } else {
        k2
    };
    assert forall|j: int| 0 <= j < k implies a[j] == c[j] by {
        assert(a[j] == b[j]);
        assert(b[j] == c[j]);
    }
    if k1 < k2 {
        assert(b[k1] == c[k1]);
    } else if k2 < k1 {
        assert(a[k2] == b[k2]);
    }
    assert(parts_at(a, c, k));
}

/// Of two paths that differ, one comes before the other.
pub proof fn lemma_path_total(a: Seq<EntryIndex>, b: Seq<EntryIndex>)
    ensures
        a == b || path_before(a, b) || path_before(b, a),
{
    let k = first_parting(a, b, 0);
    lemma_first_parting(a, b, 0);
    assert(parts_at(b, a, k));
    if k == a.len() && k == b.len() {
        assert(a =~= b);
    } else if k < a.len() && k < b.len() {
        assert(index_before(a[k], b[k]) || index_before(b[k], a[k]));
    }
}

/// The first place at or after `from` where two paths part ways.
pub open spec fn first_parting(a: Seq<EntryIndex>, b: Seq<EntryIndex>, from: int) -> int
    decreases a.len() - from,
{
    if from < 0 || from >= a.len() || from >= b.len() || a[from] != b[from] {
        from
    } else {
        first_parting(a, b, from + 1)
    }
}

proof fn lemma_first_parting(a: Seq<EntryIndex>, b: Seq<EntryIndex>, from: int)
    requires
        0 <= from <= a.len(),
        from <= b.len(),
        forall|j: int| 0 <= j < from ==> a[j] == b[j],
    ensures
        parts_at(a, b, first_parting(a, b, from)),
    decreases a.len() - from,
{
    if from < a.len() && from < b.len() && a[from] == b[from] {
        lemma_first_parting(a, b, from + 1);
    }
}

impl View for EntryID {
    type V = Seq<EntryIndex>;

    closed spec fn view(&self) -> Seq<EntryIndex> {
        self.0@
    }
}

impl Clone for EntryID {
    fn clone(&self) -> (r: Self)
        ensures
            r@ == self@,
    {
        let r = EntryID(self.0.clone());
        assert(r@ =~= self@);
        r
    }
}

impl EntryID {
    /// The empty path: the root of the tree.
    pub fn root() -> (r: Self)
        ensures
            r@ == Seq::<EntryIndex>::empty(),
    {
        EntryID(Vec::new())
    }

    /// The path to the summary of the panel that `self` names.
    pub fn summary(&self) -> (r: Self)
        ensures
            r@ == self@.push(EntryIndex::Summary),
    {
        let mut r = self.clone();
        r.0.push(EntryIndex::Summary);
        r
    }

    /// The path to slot `index` of the panel that `self` names.
    pub fn child(&self, index: u64) -> (r: Self)
        ensures
            r@ == self@.push(EntryIndex::Slot(index)),
    {
        let mut r = self.clone();
        r.0.push(EntryIndex::Slot(index));
        r
    }

    /// The number of steps from the root.
    pub fn level(&self) -> (n: u64)
        ensures
            n == self@.len(),
    {
        self.0.len() as u64
    }

    /// The last step of the path, if it has one.
    pub fn last_index(&self) -> (last: Option<EntryIndex>)
        ensures
            self@.len() == 0 ==> last is None,
            self@.len() > 0 ==> last == Some(self@.last()),
    {
        let n = self.0.len();
        if n == 0 {
            None
        } else {
            Some(self.0[n - 1])
        }
    }

    /// The step at place `level` of the path, if the path is that long.
    pub fn index(&self, level: u64) -> (step: Option<EntryIndex>)
        ensures
            level < self@.len() ==> step == Some(self@[level as int]),
            level >= self@.len() ==> step is None,
    {
        if level < self.0.len() as u64 {
            Some(self.0[level as usize])
        } else {
            None
        }
    }

    /// Where `self` stands against `other` in the order of the dictionary.
    pub fn precedence(&self, other: &EntryID) -> (p: Precedence)
        ensures
            p == Precedence::Before <==> path_before(self@, other@),
            p == Precedence::Same <==> self@ == other@,
            p == Precedence::After <==> path_before(other@, self@),
    {
        let mut k: usize = 0;
        while k < self.0.len() && k < other.0.len() && self.0[k] == other.0[k]
            invariant
                k <= self@.len(),
                k <= other@.len(),
                forall|j: int| 0 <= j < k ==> self@[j] == other@[j],
            decreases self@.len() - k,
        {
            k += 1;
        }
        assert(parts_at(self@, other@, k as int));
        assert(parts_at(other@, self@, k as int));
        proof {
            if path_before(self@, other@) {
                let w = choose|w: int|
                    #[trigger] parts_at(self@, other@, w) && w < other@.len() && (w
                        == self@.len() || index_before(self@[w], other@[w]));
                lemma_parts_at_unique(self@, other@, w, k as int);
            }
            if path_before(other@, self@) {
                let w = choose|w: int|
                    #[trigger] parts_at(other@, self@, w) && w < self@.len() && (w
                        == other@.len() || index_before(other@[w], self@[w]));
                lemma_parts_at_unique(other@, self@, w, k as int);
            }
        }
        if k == self.0.len() {
            if k == other.0.len() {
                assert(self@ =~= other@);
                Precedence::Same
            } else {
                Precedence::Before
            }
        } else if k == other.0.len() {
            Precedence::After
        } else {
            match (self.0[k], other.0[k]) {
                (EntryIndex::Summary, EntryIndex::Slot(_)) => Precedence::Before,
                (EntryIndex::Slot(_), EntryIndex::Summary) => Precedence::After,
                (EntryIndex::Slot(x), EntryIndex::Slot(y)) => {
                    if x < y {
                        Precedence::Before
                    } else {
                        Precedence::After
                    }
                },
                (EntryIndex::Summary, EntryIndex::Summary) => Precedence::Same,
            }
        }
    }
}

/// A colour, by its red, green, blue and alpha parts.
#[derive(Debug, Clone, Copy, PartialEq, Eq, Structural, Hash, Default)]
pub struct Color {
    pub r: u8,
    pub g: u8,
    pub b: u8,
    pub a: u8,
}

/// The tree of panels and slots that the rows of a profile hang in.
#[derive(Debug)]
pub enum EntryInfo {
    Panel {
        short_name: String,
        long_name: String,
        summary: Option<Box<EntryInfo>>,
        slots: Vec<EntryInfo>,
    },
    Slot { short_name: String, long_name: String, max_rows: u64 },
    Summary { color: Color },
}

/// One box on a row: when it lasts and in what colour it is drawn.
#[derive(Debug, Clone)]
pub struct Item {
    pub interval: Interval,
    pub color: Color,
}

/// What is told about one box on a row.
#[derive(Debug, Clone)]
pub struct ItemMeta {
    pub title: String,
}

/// A point of a utilisation curve, its height in thousandths.
#[derive(Debug, Clone, Copy, PartialEq, Eq, Structural)]
pub struct UtilPoint {
    pub time: Timestamp,
    pub util_permille: u32,
}

#[derive(Debug, Clone)]
pub struct SummaryTileData {
    pub utilization: Vec<UtilPoint>,
}

/// The payload of one tile of a summary row.
#[derive(Debug, Clone)]
pub struct SummaryTile {
    pub entry_id: EntryID,
    pub tile_id: TileID,
    pub data: SummaryTileData,
}

#[derive(Debug, Clone)]
pub struct SlotTileData {
    pub items: Vec<Vec<Item>>,
}

/// The boxes of one tile of a slot, row by row.
#[derive(Debug, Clone)]
pub struct SlotTile {
    pub entry_id: EntryID,
    pub tile_id: TileID,
    pub data: SlotTileData,
}

#[derive(Debug, Clone)]
pub struct SlotMetaTileData {
    pub items: Vec<Vec<ItemMeta>>,
}

/// What is told about the boxes of one tile of a slot, row by row.
#[derive(Debug, Clone)]
pub struct SlotMetaTile {
    pub entry_id: EntryID,
    pub tile_id: TileID,
    pub data: SlotMetaTileData,
}

/// Where a data source reads from.
#[derive(Debug, Clone)]
pub struct DataSourceDescription {
    pub source_locator: Vec<String>,
}

/// What a data source tells of itself before any tile is asked for.
#[derive(Debug)]
pub struct DataSourceInfo {
    pub entry_info: EntryInfo,
    pub interval: Interval,
    pub tile_set: TileSet,
    pub warning_message: Option<String>,
}

/// A source of profile data that answers at once.
pub trait DataSource {
    /// `description` is what the source may tell of where it reads from. A
    /// source that says nothing else may tell anything.
    open spec fn describes(&self, description: DataSourceDescription) -> bool {
        true
    }

    fn fetch_description(&self) -> (description: DataSourceDescription)
        ensures
            self.describes(description),
    ;

    fn fetch_info(&self) -> DataSourceInfo;

    fn fetch_summary_tile(&self, entry_id: &EntryID, tile_id: TileID, full: bool) -> SummaryTile;

    fn fetch_slot_tile(&self, entry_id: &EntryID, tile_id: TileID, full: bool) -> SlotTile;

    fn fetch_slot_meta_tile(&self, entry_id: &EntryID, tile_id: TileID, full: bool) -> SlotMetaTile;
}

} // verus!
