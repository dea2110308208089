//! What a request is aimed at: the parts of a URL that the wire format reads.

use vstd::prelude::*;

verus! {

/// The parts of a parsed URL that a request is built from.
///
/// `query` is written to the wire directly behind `path`, with nothing put
/// between the two: where a `?` is wanted on the wire, `query` begins with it.
#[derive(Debug, PartialEq, Eq)]
pub struct Target {
    pub host: Option<String>,
    pub path: String,
    pub query: Option<String>,
}

/// A target as mathematics: its texts.
pub struct TargetView {
    pub host: Option<Seq<char>>,
    pub path: Seq<char>,
    pub query: Option<Seq<char>>,
}

/// The text of an optional string.
pub open spec fn text_view(text: Option<String>) -> Option<Seq<char>> {
    match text {
        Some(s) => Some(s@),
        None => None,
    }
}

impl View for Target {
    type V = TargetView;

    open spec fn view(&self) -> TargetView {
        TargetView {
            host: text_view(self.host),
            path: self.path@,
            query: text_view(self.query),
        }
    }
}

/// `url::ParseError`, the reason `url::Url::parse` gives for rejecting a
/// text. It is carried as it comes; nothing is claimed of what it holds.
#[verifier::external_type_specification]
#[verifier::external_body]
pub struct ExParseError(url::ParseError);

/// What the `url` crate makes of `text` read as an absolute URL: the host,
/// path and query it reports, or nothing where it rejects the text. The
/// crate's parser is not modelled; the name stands for its outcome.
pub uninterp spec fn parsed_url(text: Seq<char>) -> Option<TargetView>;

/// Calls `url::Url::parse` on `text`, and on success `host_str`, `path` and
/// `query` on the URL it gives. Assumed, not proved: the outcome depends on
/// `text` alone, so it is [`parsed_url`] of it. `query` is stored as the
/// crate reports it, which is without the `?` that came before it.
#[verifier::external_body]
fn parse_url(text: &str) -> (r: Result<Target, url::ParseError>)
    ensures
        match r {
            Ok(target) => parsed_url(text@) == Some(target@),
            Err(_) => parsed_url(text@) is None,
        },
{
    match url::Url::parse(text) {
        Ok(url) => Ok(
            Target {
                host: url.host_str().map(String::from),
                path: String::from(url.path()),
                query: url.query().map(String::from),
            },
        ),
        Err(e) => Err(e),
    }
}

impl Target {
    /// Parses `text` as an absolute URL with the `url` crate and keeps its
    /// host, path and query; `None` where the crate rejects the text.
    ///
    /// The query is kept as the crate reports it, without the `?` that stood
    /// before it in `text`.
    pub fn parse(text: &str) -> (r: Option<Target>)
        ensures
            match r {
                Some(target) => parsed_url(text@) == Some(target@),
                None => parsed_url(text@) is None,
            },
    {
        match parse_url(text) {
            Ok(target) => Some(target),
            Err(_) => None,
        }
    }
}

} // verus!
