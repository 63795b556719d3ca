use crate::errors::{Error, Kind};
use vstd::prelude::*;

verus! {

/// The location of a module, identified by its URL.
#[derive(Clone, Debug, PartialEq, Eq, PartialOrd, Ord, Hash)]
pub struct Locator {
    url: String,
}

impl Locator {
    /// The characters of the URL.
    pub closed spec fn view(&self) -> Seq<char> {
        self.url@
    }

    /// Creates a locator from a URL.
    pub fn new(url: &str) -> (r: Locator)
        ensures
            r@ == url@,
    {
        Locator { url: url.to_owned() }
    }

    /// Returns the URL of the locator.
    pub fn url(&self) -> (r: &str)
        ensures
            r@ == self@,
    {
        self.url.as_str()
    }

    /// Returns a copy of the locator.
    pub fn duplicate(&self) -> (r: Locator)
        ensures
            r@ == self@,
    {
        Locator { url: self.url.clone() }
    }

    /// Compares two locators by their URL.
    pub fn same(&self, other: &Locator) -> (r: bool)
        ensures
            r == (self@ == other@),
    {
        self.url == other.url
    }

    /// Resolves a relative URL against the locator: the joined URL, or a
    /// `Locator` error with the text of the URL parser's error.
    pub fn join(&self, path: &str) -> (r: Result<Locator, Error>)
        ensures
            match url_join(self@, path@) {
                Ok(u) => r matches Ok(l) && l@ == u,
                Err(m) => r matches Err(e) && e.kind matches Kind::Locator(t) && t@ == m
                    && e.msg@.len() == 0 && e.span is None,
            },
    {
        match join_url(self.url.as_str(), path) {
            Ok(u) => Ok(Locator { url: u }),
            Err(m) => {
                proof {
                    reveal_strlit("");
                }
                Err(Error::new(Kind::Locator(m), ""))
            },
        }
    }
}

/// What `url::Url::parse` of `base` followed by `Url::join` of `rel` gives:
/// the text of the joined URL, or the text of the parser's error.
pub uninterp spec fn url_join(base: Seq<char>, rel: Seq<char>) -> Result<Seq<char>, Seq<char>>;

/// `url::Url::parse` then `Url::join`: the result, as text, is named by
/// `url_join`; what URL comes out is not stated here.
#[verifier::external_body]
fn join_url(base: &str, rel: &str) -> (r: Result<String, String>)
    ensures
        url_join(base@, rel@) == match r {
            Ok(u) => Ok::<Seq<char>, Seq<char>>(u@),
            Err(e) => Err::<Seq<char>, Seq<char>>(e@),
        },
{
    match url::Url::parse(base).and_then(|u| u.join(rel)) {
        Ok(u) => Ok(u.as_str().to_owned()),
        Err(e) => Err(e.to_string()),
    }
}

/// A range of UTF-8 indices in a module.
#[derive(Clone, Debug)]
pub struct Span {
    pub loc: Locator,
    pub start: usize,
    pub end: usize,
}

impl Span {
    /// Creates a new span.
    pub fn new(loc: Locator, start: usize, end: usize) -> (r: Span)
        ensures
            r.loc == loc,
            r.start == start,
            r.end == end,
    {
        Span { loc, start, end }
    }

    /// Returns a copy of the span.
    pub fn duplicate(&self) -> (r: Span)
        ensures
            r.loc@ == self.loc@,
            r.start == self.start,
            r.end == self.end,
    {
        Span { loc: self.loc.duplicate(), start: self.start, end: self.end }
    }
}

} // verus!
