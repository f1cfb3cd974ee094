use url::{ParseError, Url};
use vstd::prelude::*;

verus! {

/// `url::Url`: a parsed URL. Nothing of what it holds is known here but
/// what the functions below say.
#[verifier::external_type_specification]
#[verifier::external_body]
pub struct ExUrl(url::Url);

/// `url::ParseError`: why a text is no URL.
#[verifier::external_type_specification]
#[verifier::external_body]
pub struct ExParseError(url::ParseError);

/// The text of a URL as `Url::as_str` gives it, byte by byte.
pub uninterp spec fn url_bytes(url: &Url) -> Seq<u8>;

/// The text of a URL after `pop_if_empty` on its path segments: the last
/// segment of the path is taken off if it is empty and not the only one.
pub uninterp spec fn without_empty_last(text: Seq<u8>) -> Seq<u8>;

/// The text of a URL after `push` on its path segments: `segment` is put
/// behind the last segment of the path.
pub uninterp spec fn with_segment(text: Seq<u8>, segment: Seq<char>) -> Seq<u8>;

/// What `Url::join` makes of a base URL's text and a reference: the text of
/// the URL that the reference names, or nothing where it names none.
pub uninterp spec fn joined(base: Seq<u8>, input: Seq<char>) -> Option<Seq<u8>>;

/// The text of a URL after `Url::set_query` has put a query in place of
/// the one it had, if any.
pub uninterp spec fn with_query(text: Seq<u8>, query: Seq<char>) -> Seq<u8>;

/// The longest text that the parts of a URL can be told apart in.
pub const MAX_URL_LEN: usize = 0xffff_ffff;

/// The first place at or after `from` where `text` holds a colon, or the
/// length of `text`.
pub open spec fn colon_at(text: Seq<u8>, from: int) -> int
    decreases text.len() - from,
{
    if from < 0 || from >= text.len() {
        text.len() as int
    } else if text[from] == 0x3a {
        from
    } else {
        colon_at(text, from + 1)
    }
}

/// The URL has a path made of segments: a slash follows the colon that
/// ends its scheme. A URL such as `mailto:someone@example.net` has none.
pub open spec fn is_hierarchical(text: Seq<u8>) -> bool {
    let after = colon_at(text, 0) + 1;
    after < text.len() && text[after] == 0x2f
}

/// `Url::as_str`, as the bytes that `str::as_bytes` gives: the text of the
/// URL.
#[verifier::external_body]
fn text_of(url: &Url) -> (text: &[u8])
    ensures
        text@ == url_bytes(url),
{
    url.as_str().as_bytes()
}

/// The text of the URL, byte by byte.
pub fn url_text(url: &Url) -> (text: &[u8])
    ensures
        text@ == url_bytes(url),
{
    text_of(url)
}

/// The number of bytes of the URL's text.
pub fn url_length(url: &Url) -> (n: usize)
    ensures
        n == url_bytes(url).len(),
{
    text_of(url).len()
}

/// `Url::clone`: a URL with the same text.
#[verifier::external_body]
fn clone_url(url: &Url) -> (r: Url)
    ensures
        url_bytes(&r) == url_bytes(url),
{
    url.clone()
}

/// `Url::path_segments_mut`, then `pop_if_empty` on what it gives. A URL
/// without path segments is refused and left as it was. In any other the
/// last segment is taken off if it is empty and not the only one: the text
/// grows no longer, and the slash behind the scheme stays where it is.
#[verifier::external_body]
fn pop_empty_segment(url: &mut Url) -> (done: bool)
    requires
        url_bytes(old(url)).len() <= MAX_URL_LEN,
    ensures
        done == is_hierarchical(url_bytes(old(url))),
        done ==> url_bytes(final(url)) == without_empty_last(url_bytes(old(url))),
        !done ==> url_bytes(final(url)) == url_bytes(old(url)),
        url_bytes(final(url)).len() <= url_bytes(old(url)).len(),
        is_hierarchical(url_bytes(final(url))) == is_hierarchical(url_bytes(old(url))),
{
    match url.path_segments_mut() {
        Ok(mut segments) => {
            segments.pop_if_empty();
            true
        },
        Err(()) => false,
    }
}

/// `Url::path_segments_mut`, then `push` on what it gives. A URL without
/// path segments is refused and left as it was. In any other `segment` is
/// put behind the last segment of the path. The text and the segment, which
/// may grow threefold for each of its bytes when it is encoded, must
/// together, with a slash, stay within the longest text.
#[verifier::external_body]
fn push_segment(url: &mut Url, segment: &str) -> (done: bool)
    requires
        url_bytes(old(url)).len() + 12 * segment@.len() + 1 <= MAX_URL_LEN,
    ensures
        done == is_hierarchical(url_bytes(old(url))),
        done ==> url_bytes(final(url)) == with_segment(url_bytes(old(url)), segment@),
        !done ==> url_bytes(final(url)) == url_bytes(old(url)),
{
    match url.path_segments_mut() {
        Ok(mut segments) => {
            segments.push(segment);
            true
        },
        Err(()) => false,
    }
}

/// `Url::join`: the URL that `input` names when read against `base`, or
/// the error of the parser.
#[verifier::external_body]
pub(crate) fn join_url(base: &Url, input: &str) -> (r: Result<Url, ParseError>)
    ensures
        match r {
            Ok(url) => joined(url_bytes(base), input@) == Some(url_bytes(&url)),
            Err(_) => joined(url_bytes(base), input@) is None,
        },
{
    base.join(input)
}

/// `Url::set_query` with a query: the URL's text gets that query in place
/// of its own. The text and the query, which may grow threefold for each of
/// its bytes when it is encoded, must together stay within the longest
/// text.
#[verifier::external_body]
pub(crate) fn set_query_text(url: &mut Url, query: &str)
    requires
        url_bytes(old(url)).len() + 12 * query@.len() + 1 <= MAX_URL_LEN,
    ensures
        url_bytes(final(url)) == with_query(url_bytes(old(url)), query@),
{
    url.set_query(Some(query));
}

/// The text of a URL with path segments whose path ends in the empty
/// segment, and so in a slash: an empty last segment is taken off, and an
/// empty segment is put behind what is left.
pub open spec fn directory_form(text: Seq<u8>) -> Seq<u8> {
    with_segment(without_empty_last(text), Seq::<char>::empty())
}

/// What `ensure_directory` makes of a URL's text: the directory form for a
/// URL with path segments, and the same text for any other.
pub open spec fn as_directory(text: Seq<u8>) -> Seq<u8> {
    if is_hierarchical(text) {
        directory_form(text)
    } else {
        text
    }
}

/// The URL as a directory: its path ends in a slash, so that a name joined
/// to it is put below it and not in the place of its last segment. A URL
/// without path segments is given back as it is.
pub fn ensure_directory(url: &Url) -> (result: Url)
    requires
        url_bytes(url).len() < MAX_URL_LEN,
    ensures
        url_bytes(&result) == as_directory(url_bytes(url)),
{
    let mut result = clone_url(url);
    proof {
        reveal_strlit("");
        assert(""@ =~= Seq::<char>::empty());
    }
    if pop_empty_segment(&mut result) {
        let _ = push_segment(&mut result, "");
    }
    result
}

/// What `ensure_directory_or_keep` makes of a URL's text: what
/// `ensure_directory` makes of it, or the same text where that has reached
/// the longest that a URL can have.
pub open spec fn as_directory_or_same(text: Seq<u8>) -> Seq<u8> {
    if text.len() < MAX_URL_LEN {
        as_directory(text)
    } else {
        text
    }
}

/// `ensure_directory` for a URL of any length: one whose text has reached
/// the longest that a URL can have is given back as it is.
pub fn ensure_directory_or_keep(url: &Url) -> (result: Url)
    ensures
        url_bytes(&result) == as_directory_or_same(url_bytes(url)),
{
    if url_length(url) < MAX_URL_LEN {
        ensure_directory(url)
    } else {
        clone_url(url)
    }
}

} // verus!
