use crate::locator::{Locator, Span};
use std::fmt::Debug;
use vstd::prelude::*;
use vstd::string::StringExecFns;

verus! {

/// The kind of a compiler error.
#[derive(Debug)]
pub enum Kind {
    /// An invalid locator, with its text.
    Locator(String),
    /// An invalid YAML annotation, with the message of the YAML parser.
    Yaml(String),
    /// A syntax error, with its message.
    Syntax(String),
    NotInScope,
    NotAFunction,
    InvalidTypes,
    CycleDetected,
    InvalidLiteral,
    InvalidIdentifier,
    InvalidSyntax,
    InvalidModule(Locator),
    Unknown,
}

/// A compiler error: a kind, a message, details and an optional span.
#[derive(Debug)]
pub struct Error {
    pub msg: String,
    pub details: Vec<String>,
    pub span: Option<Span>,
    pub kind: Kind,
}

/// `format!` with `{:?}`: renders a value with its `Debug` formatting; nothing
/// is claimed of the text.
#[verifier::external_body]
fn describe<T: Debug>(e: &T) -> String {
    format!("{e:?}")
}

impl Error {
    /// Creates an error of the given kind with a message.
    pub fn new(kind: Kind, msg: &str) -> (r: Error)
        ensures
            r.kind == kind,
            r.msg@ == msg@,
            r.details@.len() == 0,
            r.span is None,
    {
        Error { msg: msg.to_owned(), details: Vec::new(), span: None, kind }
    }

    /// Adds the `Debug` rendering of a value to the details.
    pub fn with<T: Debug>(self, e: &T) -> (r: Error)
        ensures
            r.kind == self.kind,
            r.msg == self.msg,
            r.span == self.span,
            r.details@.len() == self.details@.len() + 1,
            r.details@.take(self.details@.len() as int) == self.details@,
    {
        let mut s = self;
        let d = describe(e);
        s.details.push(d);
        s
    }

    /// Sets the span of the error.
    pub fn at(self, span: Option<Span>) -> (r: Error)
        ensures
            r.kind == self.kind,
            r.msg == self.msg,
            r.details == self.details,
            r.span == span,
    {
        let mut s = self;
        s.span = span;
        s
    }

    /// Returns the span of the error, if any.
    pub fn span(&self) -> (r: Option<&Span>)
        ensures
            r == match self.span {
                Some(ref s) => Some(s),
                None => None::<&Span>,
            },
    {
        match &self.span {
            Some(s) => Some(s),
            None => None,
        }
    }
}


/// The text of an error kind.
pub open spec fn kind_text(k: Kind) -> Seq<char> {
    match k {
        Kind::Locator(e) => "invalid locator: "@ + e@,
        Kind::Yaml(e) => "invalid YAML: "@ + e@,
        Kind::Syntax(e) => "invalid syntax: "@ + e@,
        Kind::NotInScope => "not in scope"@,
        Kind::NotAFunction => "not a function"@,
        Kind::InvalidTypes => "invalid type"@,
        Kind::CycleDetected => "cycle detected"@,
        Kind::InvalidLiteral => "invalid literal"@,
        Kind::InvalidIdentifier => "invalid identifier"@,
        Kind::InvalidSyntax => "invalid syntax"@,
        Kind::InvalidModule(l) => "invalid module: "@ + l@,
        Kind::Unknown => "unknown error"@,
    }
}

impl Kind {
    /// The text of the kind.
    pub fn text(&self) -> (r: String)
        ensures
            r@ == kind_text(*self),
    {
        match self {
            Kind::Locator(e) => String::from_str("invalid locator: ").concat(e.as_str()),
            Kind::Yaml(e) => String::from_str("invalid YAML: ").concat(e.as_str()),
            Kind::Syntax(e) => String::from_str("invalid syntax: ").concat(e.as_str()),
            Kind::NotInScope => String::from_str("not in scope"),
            Kind::NotAFunction => String::from_str("not a function"),
            Kind::InvalidTypes => String::from_str("invalid type"),
            Kind::CycleDetected => String::from_str("cycle detected"),
            Kind::InvalidLiteral => String::from_str("invalid literal"),
            Kind::InvalidIdentifier => String::from_str("invalid identifier"),
            Kind::InvalidSyntax => String::from_str("invalid syntax"),
            Kind::InvalidModule(l) => String::from_str("invalid module: ").concat(l.url()),
            Kind::Unknown => String::from_str("unknown error"),
        }
    }
}

impl Error {
    /// The text of the error: the text of its kind, then its message if any.
    pub fn message(&self) -> (r: String)
        ensures
            r@ == if self.msg@.len() == 0 {
                kind_text(self.kind)
            } else {
                kind_text(self.kind) + ": "@ + self.msg@
            },
    {
        let mut s = self.kind.text();
        if !self.msg.as_str().is_empty() {
            s.append(": ");
            s.append(self.msg.as_str());
        }
        s
    }
}

} // verus!
