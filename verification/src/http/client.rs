use crate::http::urls::{
    as_directory_or_same, ensure_directory_or_keep, join_url, joined, set_query_text, url_bytes,
    url_length, with_query, MAX_URL_LEN,
};
use url::Url;
use vstd::prelude::*;

verus! {

/// The kinds of tile that a server hands out.
#[derive(Debug, Clone, Copy, PartialEq, Eq, Structural)]
pub enum TileKind {
    Summary,
    Slot,
    SlotMeta,
}

/// Why no URL could be made for a request.
#[derive(Debug, Clone, Copy, PartialEq, Eq, Structural)]
pub enum UrlError {
    /// The base URL and the name do not make a URL.
    InvalidBase,
    /// The URL would be longer than a URL can be.
    TooLong,
}

/// The room that the query of a tile request may take in a URL's text.
pub const QUERY_ROOM: usize = 121;

impl TileKind {
    /// The directory, below the base URL, that tiles of this kind are
    /// asked for in.
    pub open spec fn spec_endpoint(self) -> Seq<char> {
        match self {
            TileKind::Summary => "summary_tile/"@,
            TileKind::Slot => "slot_tile/"@,
            TileKind::SlotMeta => "slot_meta_tile/"@,
        }
    }

    pub fn endpoint(self) -> (name: &'static str)
        ensures
            name@ == self.spec_endpoint(),
    {
        match self {
            TileKind::Summary => "summary_tile/",
            TileKind::Slot => "slot_tile/",
            TileKind::SlotMeta => "slot_meta_tile/",
        }
    }
}

/// The query that says whether full detail is asked for.
pub open spec fn spec_full_query(full: bool) -> Seq<char> {
    if full {
        "full=true"@
    } else {
        "full=false"@
    }
}

pub fn full_query(full: bool) -> (query: &'static str)
    ensures
        query@ == spec_full_query(full),
        query@.len() <= 10,
{
    proof {
        reveal_strlit("full=true");
        reveal_strlit("full=false");
    }
    if full {
        "full=true"
    } else {
        "full=false"
    }
}

/// The text of the URL that a source's description of itself is asked for
/// at: `info` below the base URL as a directory, where that is a URL.
pub open spec fn info_path(base: Seq<u8>) -> Option<Seq<u8>> {
    joined(as_directory_or_same(base), "info"@)
}

/// The URL that a source's description of itself is asked for at: `info`
/// below the base URL, which is taken as a directory.
pub fn info_url(base: &Url) -> (r: Result<Url, UrlError>)
    ensures
        match r {
            Ok(url) => info_path(url_bytes(base)) == Some(url_bytes(&url)),
            Err(e) => e == UrlError::InvalidBase && info_path(url_bytes(base)) is None,
        },
{
    let directory = ensure_directory_or_keep(base);
    match join_url(&directory, "info") {
        Ok(url) => Ok(url),
        Err(_) => Err(UrlError::InvalidBase),
    }
}

/// The text of the URL for a tile, before its query: the slug below the
/// directory of the kind below the base as a directory, where both joins
/// give a URL.
pub open spec fn tile_path(base: Seq<u8>, kind: TileKind, slug: Seq<char>) -> Option<Seq<u8>> {
    match joined(as_directory_or_same(base), kind.spec_endpoint()) {
        Some(directory) => joined(directory, slug),
        None => None,
    }
}

/// The URL that a tile is asked for at: the slug of the request below the
/// directory of its kind below the base URL, which is taken as a directory,
/// with the query `full=true` or `full=false`.
pub fn tile_url(base: &Url, kind: TileKind, slug: &str, full: bool) -> (r: Result<Url, UrlError>)
    ensures
        match r {
            Ok(url) => {
                &&& tile_path(url_bytes(base), kind, slug@) is Some
                &&& tile_path(url_bytes(base), kind, slug@)->0.len() + QUERY_ROOM <= MAX_URL_LEN
                &&& url_bytes(&url) == with_query(
                    tile_path(url_bytes(base), kind, slug@)->0,
                    spec_full_query(full),
                )
            },
            Err(UrlError::InvalidBase) => tile_path(url_bytes(base), kind, slug@) is None,
            Err(UrlError::TooLong) => {
                &&& tile_path(url_bytes(base), kind, slug@) is Some
                &&& tile_path(url_bytes(base), kind, slug@)->0.len() + QUERY_ROOM > MAX_URL_LEN
            },
        },
{
    let base = ensure_directory_or_keep(base);
    let directory = match join_url(&base, kind.endpoint()) {
        Ok(url) => url,
        Err(_) => {
            return Err(UrlError::InvalidBase);
        },
    };
    let mut url = match join_url(&directory, slug) {
        Ok(url) => url,
        Err(_) => {
            return Err(UrlError::InvalidBase);
        },
    };
    if url_length(&url) > MAX_URL_LEN - QUERY_ROOM {
        return Err(UrlError::TooLong);
    }
    set_query_text(&mut url, full_query(full));
    Ok(url)
}

} // verus!
