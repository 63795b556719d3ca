use oal_compiler::errors::{Error, Kind};
use oal_compiler::locator::{Locator, Span};
use oal_compiler::position::{Position, PositionRange};
use oal_compiler::workspace::{TextChange, Workspace};

fn range(l1: u32, c1: u32, l2: u32, c2: u32) -> Option<PositionRange> {
    Some(PositionRange {
        start: Position { line: l1, character: c1 },
        end: Position { line: l2, character: c2 },
    })
}

#[test]
fn open_change_close() {
    let mut ws = Workspace::new();
    let loc = Locator::new("file:///main.oal");
    let r = ws.open(loc.duplicate(), "let a = num;\nres /;".to_owned());
    assert_eq!(r.url(), "file:///main.oal");
    assert_eq!(ws.document(&loc).map(|s| s.as_str()), Some("let a = num;\nres /;"));

    // Replace `num` by `str`, then the whole second line.
    ws.change(
        loc.duplicate(),
        vec![
            TextChange { range: range(0, 8, 0, 11), text: "str".to_owned() },
            TextChange { range: range(1, 0, 1, 6), text: "res /a;".to_owned() },
        ],
    );
    assert_eq!(ws.document(&loc).map(|s| s.as_str()), Some("let a = str;\nres /a;"));

    // A change without a range replaces the whole text.
    ws.change(loc.duplicate(), vec![TextChange { range: None, text: "res /;".to_owned() }]);
    assert_eq!(ws.document(&loc).map(|s| s.as_str()), Some("res /;"));

    ws.close(loc.duplicate());
    assert!(ws.document(&loc).is_none());
}

#[test]
fn change_counts_utf16_columns() {
    let mut ws = Workspace::new();
    let loc = Locator::new("file:///emoji.oal");
    ws.open(loc.duplicate(), "a😉b".to_owned());
    // The emoji spans two UTF-16 code units.
    ws.change(
        loc.duplicate(),
        vec![TextChange { range: range(0, 1, 0, 3), text: "-".to_owned() }],
    );
    assert_eq!(ws.document(&loc).map(|s| s.as_str()), Some("a-b"));
}

#[test]
fn change_of_closed_document_is_ignored() {
    let mut ws = Workspace::new();
    let loc = Locator::new("file:///none.oal");
    ws.change(loc.duplicate(), vec![TextChange { range: None, text: "x".to_owned() }]);
    assert!(ws.document(&loc).is_none());
    assert!(ws.locators().is_empty());
}

#[test]
fn errors_are_logged_and_taken() {
    let mut ws = Workspace::new();
    let loc = Locator::new("file:///main.oal");
    ws.open(loc.duplicate(), "res num;".to_owned());
    ws.log_error(Span::new(loc.duplicate(), 4, 7), "bad".to_owned());
    ws.log_compiler_error(&loc, &Error::new(Kind::InvalidTypes, "ill-formed resource"));
    let errs = ws.take_errors();
    assert_eq!(errs.len(), 2);
    assert_eq!(errs[0].1, "bad");
    assert_eq!((errs[0].0.start, errs[0].0.end), (4, 7));
    assert_eq!(errs[1].1, "invalid type: ill-formed resource");
    assert_eq!((errs[1].0.start, errs[1].0.end), (0, 0));
    assert_eq!(errs[1].0.loc.url(), "file:///main.oal");
    assert!(ws.take_errors().is_empty());
    assert_eq!(ws.locators().len(), 1);
}

#[test]
fn reopening_replaces_the_text() {
    let mut ws = Workspace::default();
    let loc = Locator::new("file:///main.oal");
    ws.open(loc.duplicate(), "one".to_owned());
    ws.open(loc.duplicate(), "two".to_owned());
    assert_eq!(ws.document(&loc).map(|s| s.as_str()), Some("two"));
    assert_eq!(ws.locators().len(), 1);
}
