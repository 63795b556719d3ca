use crate::locator::{Locator, Span};
use crate::position::{first_reach, utf8_len, utf8_to_char_index};
use vstd::prelude::*;

verus! {

/// The CLI compilation processor.
#[derive(Debug, Default)]
pub struct Processor;

impl Processor {
    /// Creates a processor.
    pub fn new() -> (r: Processor)
        ensures
            r == Processor,
    {
        Processor
    }
}

/// A span of Unicode code points.
pub struct CharSpan {
    pub start: usize,
    pub end: usize,
    pub loc: Locator,
}

impl CharSpan {
    /// The characters of `input` that a span of UTF-8 indices covers.
    pub fn from(input: &str, span: Span) -> (r: CharSpan)
        requires
            utf8_len(input@) <= usize::MAX,
        ensures
            r.start == first_reach(input@, span.start as nat, 0),
            r.end == first_reach(input@, span.end as nat, 0),
            r.loc == span.loc,
    {
        CharSpan {
            start: utf8_to_char_index(input, span.start),
            end: utf8_to_char_index(input, span.end),
            loc: span.loc,
        }
    }
}

/// The file system of the host, reached through `file` locators.
#[derive(Debug, Default)]
pub struct DefaultFileSystem;

} // verus!
