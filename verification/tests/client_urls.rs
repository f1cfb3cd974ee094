use legion_prof_viewer::http::client::{full_query, info_url, tile_url, TileKind, UrlError};
use legion_prof_viewer::http::urls::{
    ensure_directory, ensure_directory_or_keep, url_length, url_text,
};
use url::Url;

fn parse(text: &str) -> Url {
    Url::parse(text).unwrap()
}

#[test]
fn directory_of_an_empty_path() {
    assert_eq!(ensure_directory(&parse("foo://host")), parse("foo://host/"));
    assert_eq!(ensure_directory(&parse("foo://host")).as_str(), "foo://host/");
}

#[test]
fn directory_is_left_alone() {
    let url = parse("https://example.net/a/b/c/?q=1#top");
    assert_eq!(ensure_directory(&url).as_str(), "https://example.net/a/b/c/?q=1#top");
    assert_eq!(ensure_directory(&ensure_directory(&url)), ensure_directory(&url));
}

#[test]
fn or_keep_does_the_same_for_short_urls() {
    for text in ["https://example.net/a/b/c", "https://example.net", "mailto:user@example.com"] {
        assert_eq!(ensure_directory_or_keep(&parse(text)), ensure_directory(&parse(text)));
    }
    assert_eq!(
        ensure_directory_or_keep(&parse("https://example.net/a?x=y")).as_str(),
        "https://example.net/a/?x=y"
    );
}

#[test]
fn info_is_below_the_base() {
    let base = ensure_directory(&parse("https://example.net/profile"));
    assert_eq!(info_url(&base).unwrap().as_str(), "https://example.net/profile/info");
    let file = parse("https://example.net/profile?user=me");
    assert_eq!(info_url(&file).unwrap().as_str(), "https://example.net/profile/info");
}

#[test]
fn info_of_a_url_without_a_path_is_refused() {
    assert_eq!(info_url(&parse("mailto:user@example.com")), Err(UrlError::InvalidBase));
}

#[test]
fn tile_urls_have_kind_slug_and_query() {
    let base = parse("https://example.net/profile/");
    assert_eq!(
        tile_url(&base, TileKind::Summary, "0_1/7-9", true).unwrap().as_str(),
        "https://example.net/profile/summary_tile/0_1/7-9?full=true"
    );
    assert_eq!(
        tile_url(&base, TileKind::Slot, "0_1/7-9", false).unwrap().as_str(),
        "https://example.net/profile/slot_tile/0_1/7-9?full=false"
    );
    assert_eq!(
        tile_url(&base, TileKind::SlotMeta, "3", true).unwrap().as_str(),
        "https://example.net/profile/slot_meta_tile/3?full=true"
    );
}

#[test]
fn tile_url_takes_the_base_as_a_directory() {
    let base = parse("https://example.net/profile");
    assert_eq!(
        tile_url(&base, TileKind::Slot, "0/1-2", false).unwrap().as_str(),
        "https://example.net/profile/slot_tile/0/1-2?full=false"
    );
    assert_eq!(
        tile_url(&parse("https://example.net"), TileKind::Slot, "0/1-2", false).unwrap().as_str(),
        "https://example.net/slot_tile/0/1-2?full=false"
    );
}

#[test]
fn tile_url_replaces_a_query_in_the_slug() {
    let base = parse("https://example.net/");
    assert_eq!(
        tile_url(&base, TileKind::Slot, "a?x=1#frag", true).unwrap().as_str(),
        "https://example.net/slot_tile/a?full=true#frag"
    );
}

#[test]
fn tile_url_of_a_url_without_a_path_is_refused() {
    let base = parse("mailto:user@example.com");
    assert_eq!(tile_url(&base, TileKind::Slot, "a", true), Err(UrlError::InvalidBase));
}

#[test]
fn endpoints_and_queries() {
    assert_eq!(TileKind::Summary.endpoint(), "summary_tile/");
    assert_eq!(TileKind::Slot.endpoint(), "slot_tile/");
    assert_eq!(TileKind::SlotMeta.endpoint(), "slot_meta_tile/");
    assert_eq!(full_query(true), "full=true");
    assert_eq!(full_query(false), "full=false");
}

#[test]
fn text_and_length_of_a_url() {
    let url = parse("https://example.net/a/b?x=1");
    assert_eq!(url_text(&url), b"https://example.net/a/b?x=1");
    assert_eq!(url_length(&url), 27);
    assert_eq!(url_text(&ensure_directory(&url)), b"https://example.net/a/b/?x=1");
}

#[test]
fn directory_of_paths_with_empty_segments() {
    assert_eq!(ensure_directory(&parse("https://example.net/a//")).as_str(), "https://example.net/a//");
    assert_eq!(ensure_directory(&parse("unix:/run/foo")).as_str(), "unix:/run/foo/");
    assert_eq!(ensure_directory(&parse("data:text/plain,Stuff")).as_str(), "data:text/plain,Stuff");
}
