use oal_compiler::server::{Event, Notice, Reaction, ServerState};

fn reaction(stop: bool, refresh: bool, handle: bool) -> Reaction {
    Reaction { stop, refresh, handle }
}

#[test]
fn refresh_only_when_stale() {
    let mut s = ServerState::new();
    assert!(s.is_stale);
    // The first request refreshes, the next one does not.
    assert_eq!(s.react(Event::Request(false)), reaction(false, true, true));
    assert_eq!(s.react(Event::Request(false)), reaction(false, false, true));
    assert_eq!(s.react(Event::Idle), reaction(false, false, false));
    // A change makes the folders stale again.
    assert_eq!(
        s.react(Event::Notification(Notice::DidChangeTextDocument)),
        reaction(false, false, true)
    );
    assert!(s.is_stale);
    assert_eq!(s.react(Event::Idle), reaction(false, true, false));
    assert!(!s.is_stale);
}

#[test]
fn shutdown_stops() {
    let mut s = ServerState::new();
    assert_eq!(s.react(Event::Request(true)), reaction(true, false, false));
    assert!(s.is_stale);
}

#[test]
fn other_messages_change_nothing() {
    let mut s = ServerState { is_stale: false };
    assert_eq!(s.react(Event::Response), reaction(false, false, false));
    assert_eq!(s.react(Event::Notification(Notice::Other)), reaction(false, false, false));
    assert!(!s.is_stale);
    for n in [
        Notice::DidOpenTextDocument,
        Notice::DidCloseTextDocument,
        Notice::DidChangeWorkspaceFolders,
    ] {
        let mut s = ServerState { is_stale: false };
        assert_eq!(s.react(Event::Notification(n)), reaction(false, false, true));
        assert!(s.is_stale);
    }
}

#[test]
fn requests_refresh_exactly_after_changes() {
    let mut s = ServerState::new();
    let events = [
        Event::Request(false),
        Event::Request(false),
        Event::Notification(Notice::Other),
        Event::Request(false),
        Event::Notification(Notice::DidChangeTextDocument),
        Event::Response,
        Event::Idle,
        Event::Request(false),
        Event::Notification(Notice::DidOpenTextDocument),
        Event::Request(false),
    ];
    let refreshed: Vec<bool> = events.iter().map(|e| s.react(*e).refresh).collect();
    assert_eq!(
        refreshed,
        vec![true, false, false, false, false, false, true, false, false, true]
    );
}
