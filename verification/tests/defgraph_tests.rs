use oal_compiler::cli::{CharSpan, Processor};
use oal_compiler::defgraph::{DefGraph, External};
use oal_compiler::errors::{Error, Kind};
use oal_compiler::locator::{Locator, Span};

fn ext(i: usize) -> External {
    External {
        loc: Locator::new("file:///main.oal"),
        index: i,
        generation: 0,
    }
}

#[test]
fn recursion_is_identified() {
    let mut g = DefGraph::new();
    // a -> b -> a is mutual recursion; c -> c is self recursion; d -> a is not recursive.
    g.open(ext(0));
    g.connect(ext(1));
    g.close();
    g.open(ext(1));
    g.connect(ext(0));
    g.close();
    g.open(ext(2));
    g.connect(ext(2));
    g.close();
    g.open(ext(3));
    g.connect(ext(0));
    g.close();
    let flags = g.identify_recursion();
    // Nodes are numbered in order of first appearance: a, b, c, d.
    assert_eq!(flags, vec![true, true, true, false]);
}

#[test]
fn connect_without_current_definition_does_nothing() {
    let mut g = DefGraph::new();
    g.connect(ext(0));
    assert!(g.identify_recursion().is_empty());
}

#[test]
fn error_messages() {
    let e = Error::new(Kind::NotInScope, "variable is not defined");
    assert_eq!(e.message(), "not in scope: variable is not defined");
    let e = Error::new(Kind::CycleDetected, "");
    assert_eq!(e.message(), "cycle detected");
    let e = Error::new(Kind::Yaml("bad".to_owned()), "x")
        .with(&42)
        .at(Some(Span::new(Locator::new("file:///a.oal"), 1, 2)));
    assert_eq!(e.message(), "invalid YAML: bad: x");
    assert_eq!(e.details, vec!["42".to_owned()]);
    assert_eq!(e.span().map(|s| (s.start, s.end)), Some((1, 2)));
}

#[test]
fn processor_is_created() {
    let _p = Processor::new();
}

#[test]
fn char_span_counts_characters() {
    let input = "some😉text!";
    let s = CharSpan::from(input, Span::new(Locator::new("file:///a.oal"), 4, 8));
    assert_eq!((s.start, s.end), (4, 5));
    assert_eq!(s.loc.url(), "file:///a.oal");
}
