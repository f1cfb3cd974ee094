use crate::data::{
    DataSource, DataSourceDescription, DataSourceInfo, EntryID, SlotMetaTile, SlotTile,
    SummaryTile, TileID,
};
use vstd::prelude::*;

verus! {

/// The request that a response answers.
pub struct TileRequest {
    pub entry_id: EntryID,
    pub tile_id: TileID,
    pub full: bool,
}

pub type TileResult<T> = Result<T, String>;

pub type TileResponse<T> = (TileResult<T>, TileRequest);

pub type SummaryTileResult = TileResult<SummaryTile>;

pub type SlotTileResult = TileResult<SlotTile>;

pub type SlotMetaTileResult = TileResult<SlotMetaTile>;

pub type SummaryTileResponse = TileResponse<SummaryTile>;

pub type SlotTileResponse = TileResponse<SlotTile>;

pub type SlotMetaTileResponse = TileResponse<SlotMetaTile>;

/// A source of profile data that is asked first and answers later.
///
/// A `fetch_` method files a request and returns at once. A `get_` method
/// hands out the responses of its kind that have come in since it was last
/// called, each response once. `outstanding` counts the requests filed whose
/// responses have not been handed out: a source never hands out more. What
/// a source may hand out, and what it may tell of itself, each source says
/// for itself; a source that is made of another says it of that other.
pub trait DeferredDataSource {
    /// The source is in a state in which its methods may be called. A
    /// source that says nothing else always is.
    open spec fn valid(&self) -> bool {
        true
    }

    /// The number of requests filed whose responses have not been handed
    /// out yet. A source that says nothing else leaves the number open.
    open spec fn outstanding(&self) -> nat {
        arbitrary()
    }

    /// `description` is what the source may tell of where it reads from. A
    /// source that says nothing else may tell anything.
    open spec fn describes(&self, description: DataSourceDescription) -> bool {
        true
    }

    /// `infos` are responses that the source, as it stands, may hand out to
    /// `get_infos`. A source that says nothing else may hand out any.
    open spec fn may_hand_out_infos(&self, infos: Seq<DataSourceInfo>) -> bool {
        true
    }

    /// `tiles` are responses that the source, as it stands, may hand out to
    /// `get_summary_tiles`.
    open spec fn may_hand_out_summary_tiles(&self, tiles: Seq<SummaryTileResponse>) -> bool {
        true
    }

    /// `tiles` are responses that the source, as it stands, may hand out to
    /// `get_slot_tiles`.
    open spec fn may_hand_out_slot_tiles(&self, tiles: Seq<SlotTileResponse>) -> bool {
        true
    }

    /// `tiles` are responses that the source, as it stands, may hand out to
    /// `get_slot_meta_tiles`.
    open spec fn may_hand_out_slot_meta_tiles(&self, tiles: Seq<SlotMetaTileResponse>) -> bool {
        true
    }

    fn fetch_description(&self) -> (description: DataSourceDescription)
        requires
            self.valid(),
        ensures
            self.describes(description),
    ;

    fn fetch_info(&mut self)
        requires
            old(self).valid(),
            old(self).outstanding() < u64::MAX,
        ensures
            final(self).valid(),
            final(self).outstanding() == old(self).outstanding() + 1,
    ;

    fn get_infos(&mut self) -> (infos: Vec<DataSourceInfo>)
        requires
            old(self).valid(),
        ensures
            final(self).valid(),
            old(self).may_hand_out_infos(infos@),
            infos@.len() <= old(self).outstanding(),
            final(self).outstanding() == old(self).outstanding() - infos@.len(),
    ;

    fn fetch_summary_tile(&mut self, entry_id: &EntryID, tile_id: TileID, full: bool)
        requires
            old(self).valid(),
            old(self).outstanding() < u64::MAX,
        ensures
            final(self).valid(),
            final(self).outstanding() == old(self).outstanding() + 1,
    ;

    fn get_summary_tiles(&mut self) -> (tiles: Vec<SummaryTileResponse>)
        requires
            old(self).valid(),
        ensures
            final(self).valid(),
            old(self).may_hand_out_summary_tiles(tiles@),
            tiles@.len() <= old(self).outstanding(),
            final(self).outstanding() == old(self).outstanding() - tiles@.len(),
    ;

    fn fetch_slot_tile(&mut self, entry_id: &EntryID, tile_id: TileID, full: bool)
        requires
            old(self).valid(),
            old(self).outstanding() < u64::MAX,
        ensures
            final(self).valid(),
            final(self).outstanding() == old(self).outstanding() + 1,
    ;

    fn get_slot_tiles(&mut self) -> (tiles: Vec<SlotTileResponse>)
        requires
            old(self).valid(),
        ensures
            final(self).valid(),
            old(self).may_hand_out_slot_tiles(tiles@),
            tiles@.len() <= old(self).outstanding(),
            final(self).outstanding() == old(self).outstanding() - tiles@.len(),
    ;

    fn fetch_slot_meta_tile(&mut self, entry_id: &EntryID, tile_id: TileID, full: bool)
        requires
            old(self).valid(),
            old(self).outstanding() < u64::MAX,
        ensures
            final(self).valid(),
            final(self).outstanding() == old(self).outstanding() + 1,
    ;

    fn get_slot_meta_tiles(&mut self) -> (tiles: Vec<SlotMetaTileResponse>)
        requires
            old(self).valid(),
        ensures
            final(self).valid(),
            old(self).may_hand_out_slot_meta_tiles(tiles@),
            tiles@.len() <= old(self).outstanding(),
            final(self).outstanding() == old(self).outstanding() - tiles@.len(),
    ;
}

/// Lets a source that answers at once stand where one that answers later
/// is asked for: each request is answered when it is filed, and the answer
/// waits in a queue of its kind until it is asked for.
pub struct DeferredDataSourceWrapper<T: DataSource> {
    data_source: T,
    infos: Vec<DataSourceInfo>,
    summary_tiles: Vec<SummaryTileResponse>,
    slot_tiles: Vec<SlotTileResponse>,
    slot_meta_tiles: Vec<SlotMetaTileResponse>,
}

/// Empties a queue and hands out what it held, in order.
fn drain<E>(queue: &mut Vec<E>) -> (all: Vec<E>)
    ensures
        all@ == old(queue)@,
        final(queue)@.len() == 0,
{
    let mut all: Vec<E> = Vec::new();
    std::mem::swap(&mut all, queue);
    all
}

impl<T: DataSource> DeferredDataSourceWrapper<T> {
    /// The source that answers.
    pub closed spec fn source(&self) -> T {
        self.data_source
    }

    /// The responses that wait for `get_infos`.
    pub closed spec fn waiting_infos(&self) -> Seq<DataSourceInfo> {
        self.infos@
    }

    /// The responses that wait for `get_summary_tiles`.
    pub closed spec fn waiting_summary_tiles(&self) -> Seq<SummaryTileResponse> {
        self.summary_tiles@
    }

    /// The responses that wait for `get_slot_tiles`.
    pub closed spec fn waiting_slot_tiles(&self) -> Seq<SlotTileResponse> {
        self.slot_tiles@
    }

    /// The responses that wait for `get_slot_meta_tiles`.
    pub closed spec fn waiting_slot_meta_tiles(&self) -> Seq<SlotMetaTileResponse> {
        self.slot_meta_tiles@
    }

    pub fn new(data_source: T) -> (w: Self)
        ensures
            w.valid(),
            w.outstanding() == 0,
            w.source() == data_source,
            w.waiting_infos().len() == 0,
            w.waiting_summary_tiles().len() == 0,
            w.waiting_slot_tiles().len() == 0,
            w.waiting_slot_meta_tiles().len() == 0,
    {
        Self {
            data_source,
            infos: Vec::new(),
            summary_tiles: Vec::new(),
            slot_tiles: Vec::new(),
            slot_meta_tiles: Vec::new(),
        }
    }
}

impl<T: DataSource> DeferredDataSource for DeferredDataSourceWrapper<T> {
    open spec fn valid(&self) -> bool {
        true
    }

    open spec fn outstanding(&self) -> nat {
        self.waiting_infos().len() + self.waiting_summary_tiles().len()
            + self.waiting_slot_tiles().len() + self.waiting_slot_meta_tiles().len()
    }

    open spec fn describes(&self, description: DataSourceDescription) -> bool {
        self.source().describes(description)
    }

    open spec fn may_hand_out_infos(&self, infos: Seq<DataSourceInfo>) -> bool {
        infos == self.waiting_infos()
    }

    open spec fn may_hand_out_summary_tiles(&self, tiles: Seq<SummaryTileResponse>) -> bool {
        tiles == self.waiting_summary_tiles()
    }

    open spec fn may_hand_out_slot_tiles(&self, tiles: Seq<SlotTileResponse>) -> bool {
        tiles == self.waiting_slot_tiles()
    }

    open spec fn may_hand_out_slot_meta_tiles(&self, tiles: Seq<SlotMetaTileResponse>) -> bool {
        tiles == self.waiting_slot_meta_tiles()
    }

    fn fetch_description(&self) -> (description: DataSourceDescription) {
        self.data_source.fetch_description()
    }

    fn fetch_info(&mut self)
        ensures
            final(self).source() == old(self).source(),
            final(self).waiting_infos().len() == old(self).waiting_infos().len() + 1,
            final(self).waiting_infos().drop_last() == old(self).waiting_infos(),
            call_ensures(T::fetch_info, (&old(self).source(),), final(self).waiting_infos().last()),
            final(self).waiting_summary_tiles() == old(self).waiting_summary_tiles(),
            final(self).waiting_slot_tiles() == old(self).waiting_slot_tiles(),
            final(self).waiting_slot_meta_tiles() == old(self).waiting_slot_meta_tiles(),
    {
        let info = self.data_source.fetch_info();
        self.infos.push(info);
        assert(self.infos@.drop_last() =~= old(self).infos@);
    }

    fn get_infos(&mut self) -> (infos: Vec<DataSourceInfo>)
        ensures
            infos@ == old(self).waiting_infos(),
            final(self).source() == old(self).source(),
            final(self).waiting_infos().len() == 0,
            final(self).waiting_summary_tiles() == old(self).waiting_summary_tiles(),
            final(self).waiting_slot_tiles() == old(self).waiting_slot_tiles(),
            final(self).waiting_slot_meta_tiles() == old(self).waiting_slot_meta_tiles(),
    {
        drain(&mut self.infos)
    }

    fn fetch_summary_tile(&mut self, entry_id: &EntryID, tile_id: TileID, full: bool)
        ensures
            final(self).waiting_summary_tiles().len() == old(self).waiting_summary_tiles().len()
                + 1,
            final(self).waiting_summary_tiles().drop_last() == old(self).waiting_summary_tiles(),
            final(self).source() == old(self).source(),
            final(self).waiting_summary_tiles().last().0 is Ok,
            call_ensures(
                T::fetch_summary_tile,
                (&old(self).source(), entry_id, tile_id, full),
                final(self).waiting_summary_tiles().last().0->Ok_0,
            ),
            final(self).waiting_summary_tiles().last().1.entry_id@ == entry_id@,
            final(self).waiting_summary_tiles().last().1.tile_id == tile_id,
            final(self).waiting_summary_tiles().last().1.full == full,
            final(self).waiting_infos() == old(self).waiting_infos(),
            final(self).waiting_slot_tiles() == old(self).waiting_slot_tiles(),
            final(self).waiting_slot_meta_tiles() == old(self).waiting_slot_meta_tiles(),
    {
        let tile = self.data_source.fetch_summary_tile(entry_id, tile_id, full);
        self.summary_tiles.push((Ok(tile), TileRequest { entry_id: entry_id.clone(), tile_id, full }));
        assert(self.summary_tiles@.drop_last() =~= old(self).summary_tiles@);
    }

    fn get_summary_tiles(&mut self) -> (tiles: Vec<SummaryTileResponse>)
        ensures
            tiles@ == old(self).waiting_summary_tiles(),
            final(self).source() == old(self).source(),
            final(self).waiting_summary_tiles().len() == 0,
            final(self).waiting_infos() == old(self).waiting_infos(),
            final(self).waiting_slot_tiles() == old(self).waiting_slot_tiles(),
            final(self).waiting_slot_meta_tiles() == old(self).waiting_slot_meta_tiles(),
    {
        drain(&mut self.summary_tiles)
    }

    fn fetch_slot_tile(&mut self, entry_id: &EntryID, tile_id: TileID, full: bool)
        ensures
            final(self).waiting_slot_tiles().len() == old(self).waiting_slot_tiles().len() + 1,
            final(self).waiting_slot_tiles().drop_last() == old(self).waiting_slot_tiles(),
            final(self).source() == old(self).source(),
            final(self).waiting_slot_tiles().last().0 is Ok,
            call_ensures(
                T::fetch_slot_tile,
                (&old(self).source(), entry_id, tile_id, full),
                final(self).waiting_slot_tiles().last().0->Ok_0,
            ),
            final(self).waiting_slot_tiles().last().1.entry_id@ == entry_id@,
            final(self).waiting_slot_tiles().last().1.tile_id == tile_id,
            final(self).waiting_slot_tiles().last().1.full == full,
            final(self).waiting_infos() == old(self).waiting_infos(),
            final(self).waiting_summary_tiles() == old(self).waiting_summary_tiles(),
            final(self).waiting_slot_meta_tiles() == old(self).waiting_slot_meta_tiles(),
    {
        let tile = self.data_source.fetch_slot_tile(entry_id, tile_id, full);
        self.slot_tiles.push((Ok(tile), TileRequest { entry_id: entry_id.clone(), tile_id, full }));
        assert(self.slot_tiles@.drop_last() =~= old(self).slot_tiles@);
    }

    fn get_slot_tiles(&mut self) -> (tiles: Vec<SlotTileResponse>)
        ensures
            tiles@ == old(self).waiting_slot_tiles(),
            final(self).source() == old(self).source(),
            final(self).waiting_slot_tiles().len() == 0,
            final(self).waiting_infos() == old(self).waiting_infos(),
            final(self).waiting_summary_tiles() == old(self).waiting_summary_tiles(),
            final(self).waiting_slot_meta_tiles() == old(self).waiting_slot_meta_tiles(),
    {
        drain(&mut self.slot_tiles)
    }

    fn fetch_slot_meta_tile(&mut self, entry_id: &EntryID, tile_id: TileID, full: bool)
        ensures
            final(self).waiting_slot_meta_tiles().len() == old(
                self,
            ).waiting_slot_meta_tiles().len() + 1,
            final(self).waiting_slot_meta_tiles().drop_last() == old(
                self,
            ).waiting_slot_meta_tiles(),
            final(self).source() == old(self).source(),
            final(self).waiting_slot_meta_tiles().last().0 is Ok,
            call_ensures(
                T::fetch_slot_meta_tile,
                (&old(self).source(), entry_id, tile_id, full),
                final(self).waiting_slot_meta_tiles().last().0->Ok_0,
            ),
            final(self).waiting_slot_meta_tiles().last().1.entry_id@ == entry_id@,
            final(self).waiting_slot_meta_tiles().last().1.tile_id == tile_id,
            final(self).waiting_slot_meta_tiles().last().1.full == full,
            final(self).waiting_infos() == old(self).waiting_infos(),
            final(self).waiting_summary_tiles() == old(self).waiting_summary_tiles(),
            final(self).waiting_slot_tiles() == old(self).waiting_slot_tiles(),
    {
        let tile = self.data_source.fetch_slot_meta_tile(entry_id, tile_id, full);
        self.slot_meta_tiles.push(
            (Ok(tile), TileRequest { entry_id: entry_id.clone(), tile_id, full }),
        );
        assert(self.slot_meta_tiles@.drop_last() =~= old(self).slot_meta_tiles@);
    }

    fn get_slot_meta_tiles(&mut self) -> (tiles: Vec<SlotMetaTileResponse>)
        ensures
            tiles@ == old(self).waiting_slot_meta_tiles(),
            final(self).source() == old(self).source(),
            final(self).waiting_slot_meta_tiles().len() == 0,
            final(self).waiting_infos() == old(self).waiting_infos(),
            final(self).waiting_summary_tiles() == old(self).waiting_summary_tiles(),
            final(self).waiting_slot_tiles() == old(self).waiting_slot_tiles(),
    {
        drain(&mut self.slot_meta_tiles)
    }
}

/// Counts, for the source it holds, the requests filed whose responses have
/// not been handed out.
///
/// A source that keeps to what `DeferredDataSource` asks of it never hands
/// out more than was asked for. Of a source that does, or of one that is
/// asked for more than can be counted, the count is lost, and the counter
/// says so from then on.
pub struct CountingDeferredDataSource<T: DeferredDataSource> {
    data_source: T,
    outstanding_requests: u64,
    lost_count: bool,
}

impl<T: DeferredDataSource> CountingDeferredDataSource<T> {
    /// The source that is counted for.
    pub closed spec fn source(&self) -> T {
        self.data_source
    }

    /// The count as it stands.
    pub closed spec fn count(&self) -> u64 {
        self.outstanding_requests
    }

    /// The count has been lost: more was handed out than was asked for, or
    /// more was asked for than can be counted.
    pub closed spec fn lost_count(&self) -> bool {
        self.lost_count
    }

    pub fn new(data_source: T) -> (c: Self)
        requires
            data_source.valid(),
            data_source.outstanding() == 0,
        ensures
            c.valid(),
            c.outstanding() == 0,
            c.count() == 0,
            !c.lost_count(),
            c.source() == data_source,
    {
        Self { data_source, outstanding_requests: 0, lost_count: false }
    }

    /// The number of requests that wait for their responses, as counted.
    pub fn outstanding_requests(&self) -> (n: u64)
        ensures
            n == self.count(),
            self.valid() ==> n == self.outstanding(),
    {
        self.outstanding_requests
    }

    /// Whether the count has been lost. It never is while the source keeps
    /// to what is asked of it.
    pub fn has_lost_count(&self) -> (lost: bool)
        ensures
            lost == self.lost_count(),
            self.valid() ==> !lost,
    {
        self.lost_count
    }

    fn start_request(&mut self)
        ensures
            final(self).data_source == old(self).data_source,
            old(self).outstanding_requests < u64::MAX ==> final(self).outstanding_requests == old(
                self,
            ).outstanding_requests + 1 && final(self).lost_count == old(self).lost_count,
            old(self).outstanding_requests == u64::MAX ==> final(self).outstanding_requests
                == u64::MAX && final(self).lost_count,
    {
        match self.outstanding_requests.checked_add(1) {
            Some(count) => {
                self.outstanding_requests = count;
            },
            None => {
                self.lost_count = true;
            },
        }
    }

    fn finish_request<E>(&mut self, result: Vec<E>) -> (r: Vec<E>)
        ensures
            final(self).data_source == old(self).data_source,
            r == result,
            old(self).outstanding_requests >= result@.len() ==> final(self).outstanding_requests
                == old(self).outstanding_requests - result@.len() && final(self).lost_count == old(
                self,
            ).lost_count,
            old(self).outstanding_requests < result@.len() ==> final(self).outstanding_requests
                == 0 && final(self).lost_count,
    {
        let count = result.len() as u64;
        match self.outstanding_requests.checked_sub(count) {
            Some(left) => {
                self.outstanding_requests = left;
            },
            None => {
                self.outstanding_requests = 0;
                self.lost_count = true;
            },
        }
        result
    }
}

impl<T: DeferredDataSource> DeferredDataSource for CountingDeferredDataSource<T> {
    open spec fn valid(&self) -> bool {
        self.source().valid() && self.count() == self.source().outstanding() && !self.lost_count()
    }

    open spec fn outstanding(&self) -> nat {
        self.source().outstanding()
    }

    open spec fn describes(&self, description: DataSourceDescription) -> bool {
        self.source().describes(description)
    }

    open spec fn may_hand_out_infos(&self, infos: Seq<DataSourceInfo>) -> bool {
        self.source().may_hand_out_infos(infos)
    }

    open spec fn may_hand_out_summary_tiles(&self, tiles: Seq<SummaryTileResponse>) -> bool {
        self.source().may_hand_out_summary_tiles(tiles)
    }

    open spec fn may_hand_out_slot_tiles(&self, tiles: Seq<SlotTileResponse>) -> bool {
        self.source().may_hand_out_slot_tiles(tiles)
    }

    open spec fn may_hand_out_slot_meta_tiles(&self, tiles: Seq<SlotMetaTileResponse>) -> bool {
        self.source().may_hand_out_slot_meta_tiles(tiles)
    }

    fn fetch_description(&self) -> (description: DataSourceDescription) {
        self.data_source.fetch_description()
    }

    fn fetch_info(&mut self)
        ensures
            exists|source: &mut T|
                *source == old(self).source() && *final(source) == final(self).source()
                    && #[trigger] call_ensures(T::fetch_info, (source,), ()),
    {
        self.start_request();
        self.data_source.fetch_info()
    }

    fn get_infos(&mut self) -> (infos: Vec<DataSourceInfo>)
        ensures
            exists|source: &mut T|
                *source == old(self).source() && *final(source) == final(self).source()
                    && #[trigger] call_ensures(T::get_infos, (source,), infos),
    {
        let result = self.data_source.get_infos();
        self.finish_request(result)
    }

    fn fetch_summary_tile(&mut self, entry_id: &EntryID, tile_id: TileID, full: bool)
        ensures
            exists|source: &mut T|
                *source == old(self).source() && *final(source) == final(self).source()
                    && #[trigger] call_ensures(T::fetch_summary_tile, (source, entry_id, tile_id, full), ()),
    {
        self.start_request();
        self.data_source.fetch_summary_tile(entry_id, tile_id, full)
    }

    fn get_summary_tiles(&mut self) -> (tiles: Vec<SummaryTileResponse>)
        ensures
            exists|source: &mut T|
                *source == old(self).source() && *final(source) == final(self).source()
                    && #[trigger] call_ensures(T::get_summary_tiles, (source,), tiles),
    {
        let result = self.data_source.get_summary_tiles();
        self.finish_request(result)
    }

    fn fetch_slot_tile(&mut self, entry_id: &EntryID, tile_id: TileID, full: bool)
        ensures
            exists|source: &mut T|
                *source == old(self).source() && *final(source) == final(self).source()
                    && #[trigger] call_ensures(T::fetch_slot_tile, (source, entry_id, tile_id, full), ()),
    {
        self.start_request();
        self.data_source.fetch_slot_tile(entry_id, tile_id, full)
    }

    fn get_slot_tiles(&mut self) -> (tiles: Vec<SlotTileResponse>)
        ensures
            exists|source: &mut T|
                *source == old(self).source() && *final(source) == final(self).source()
                    && #[trigger] call_ensures(T::get_slot_tiles, (source,), tiles),
    {
        let result = self.data_source.get_slot_tiles();
        self.finish_request(result)
    }

    fn fetch_slot_meta_tile(&mut self, entry_id: &EntryID, tile_id: TileID, full: bool)
        ensures
            exists|source: &mut T|
                *source == old(self).source() && *final(source) == final(self).source()
                    && #[trigger] call_ensures(T::fetch_slot_meta_tile, (source, entry_id, tile_id, full), ()),
    {
        self.start_request();
        self.data_source.fetch_slot_meta_tile(entry_id, tile_id, full)
    }

    fn get_slot_meta_tiles(&mut self) -> (tiles: Vec<SlotMetaTileResponse>)
        ensures
            exists|source: &mut T|
                *source == old(self).source() && *final(source) == final(self).source()
                    && #[trigger] call_ensures(T::get_slot_meta_tiles, (source,), tiles),
    {
        let result = self.data_source.get_slot_meta_tiles();
        self.finish_request(result)
    }
}

impl DeferredDataSource for Box<dyn DeferredDataSource> {
    open spec fn valid(&self) -> bool {
        (**self).valid()
    }

    open spec fn outstanding(&self) -> nat {
        (**self).outstanding()
    }

    open spec fn describes(&self, description: DataSourceDescription) -> bool {
        (**self).describes(description)
    }

    open spec fn may_hand_out_infos(&self, infos: Seq<DataSourceInfo>) -> bool {
        (**self).may_hand_out_infos(infos)
    }

    open spec fn may_hand_out_summary_tiles(&self, tiles: Seq<SummaryTileResponse>) -> bool {
        (**self).may_hand_out_summary_tiles(tiles)
    }

    open spec fn may_hand_out_slot_tiles(&self, tiles: Seq<SlotTileResponse>) -> bool {
        (**self).may_hand_out_slot_tiles(tiles)
    }

    open spec fn may_hand_out_slot_meta_tiles(&self, tiles: Seq<SlotMetaTileResponse>) -> bool {
        (**self).may_hand_out_slot_meta_tiles(tiles)
    }

    fn fetch_description(&self) -> (description: DataSourceDescription) {
        (**self).fetch_description()
    }

    fn fetch_info(&mut self) {
        (**self).fetch_info()
    }

    fn get_infos(&mut self) -> (infos: Vec<DataSourceInfo>) {
        (**self).get_infos()
    }

    fn fetch_summary_tile(&mut self, entry_id: &EntryID, tile_id: TileID, full: bool) {
        (**self).fetch_summary_tile(entry_id, tile_id, full)
    }

    fn get_summary_tiles(&mut self) -> (tiles: Vec<SummaryTileResponse>) {
        (**self).get_summary_tiles()
    }

    fn fetch_slot_tile(&mut self, entry_id: &EntryID, tile_id: TileID, full: bool) {
        (**self).fetch_slot_tile(entry_id, tile_id, full)
    }

    fn get_slot_tiles(&mut self) -> (tiles: Vec<SlotTileResponse>) {
        (**self).get_slot_tiles()
    }

    fn fetch_slot_meta_tile(&mut self, entry_id: &EntryID, tile_id: TileID, full: bool) {
        (**self).fetch_slot_meta_tile(entry_id, tile_id, full)
    }

    fn get_slot_meta_tiles(&mut self) -> (tiles: Vec<SlotMetaTileResponse>) {
        (**self).get_slot_meta_tiles()
    }
}

} // verus!
