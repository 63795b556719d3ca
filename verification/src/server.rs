use vstd::prelude::*;

verus! {

/// A notification of the language client, as the server tells them apart.
#[derive(Clone, Copy, Debug, PartialEq, Eq)]
pub enum Notice {
    DidOpenTextDocument,
    DidCloseTextDocument,
    DidChangeTextDocument,
    DidChangeWorkspaceFolders,
    Other,
}

/// What the server's loop receives: a message of the client, or nothing
/// within the waiting time.
#[derive(Clone, Copy, Debug, PartialEq, Eq)]
pub enum Event {
    /// A request, and whether it asks the server to shut down.
    Request(bool),
    Response,
    Notification(Notice),
    /// No message came within the waiting time.
    Idle,
}

/// What the loop does for an event.
#[derive(Clone, Copy, Debug, PartialEq, Eq)]
pub struct Reaction {
    /// Leave the loop.
    pub stop: bool,
    /// Re-evaluate the folders and publish their diagnostics, first.
    pub refresh: bool,
    /// Hand the message to its handler.
    pub handle: bool,
}

/// The state of the server's loop: whether the folders must be evaluated
/// again before they are used.
#[derive(Clone, Copy, Debug, PartialEq, Eq)]
pub struct ServerState {
    pub is_stale: bool,
}

/// A notification that changes documents or folders.
pub open spec fn changes_workspace(n: Notice) -> bool {
    !(n is Other)
}

impl ServerState {
    /// The state at start: nothing has been evaluated yet.
    pub fn new() -> (r: ServerState)
        ensures
            r.is_stale,
    {
        ServerState { is_stale: true }
    }

    /// Decides what to do for an event: a shutdown request stops the loop; any
    /// other request, and an idle wait, first refresh the folders when they are
    /// stale; a notification that changes documents or folders is handled and
    /// makes them stale.
    pub fn react(&mut self, e: Event) -> (r: Reaction)
        ensures
            match e {
                Event::Request(true) => r == (Reaction { stop: true, refresh: false, handle: false })
                    && *final(self) == *old(self),
                Event::Request(false) => r == (Reaction { stop: false, refresh: old(self).is_stale, handle: true })
                    && !final(self).is_stale,
                Event::Response => r == (Reaction { stop: false, refresh: false, handle: false })
                    && *final(self) == *old(self),
                Event::Notification(n) => r == (Reaction { stop: false, refresh: false, handle: changes_workspace(n) })
                    && final(self).is_stale == (old(self).is_stale || changes_workspace(n)),
                Event::Idle => r == (Reaction { stop: false, refresh: old(self).is_stale, handle: false })
                    && !final(self).is_stale,
            },
    {
        match e {
            Event::Request(shutdown) => {
                if shutdown {
                    return Reaction { stop: true, refresh: false, handle: false };
                }
                let refresh = self.is_stale;
                self.is_stale = false;
                Reaction { stop: false, refresh, handle: true }
            },
            Event::Response => Reaction { stop: false, refresh: false, handle: false },
            Event::Notification(n) => {
                let changes = match n {
                    Notice::Other => false,
                    _ => true,
                };
                if changes {
                    self.is_stale = true;
                }
                Reaction { stop: false, refresh: false, handle: changes }
            },
            Event::Idle => {
                let refresh = self.is_stale;
                self.is_stale = false;
                Reaction { stop: false, refresh, handle: false }
            },
        }
    }
}

/// The state after a run of events from `s`.
pub open spec fn run_state(s: bool, es: Seq<Event>) -> bool
    decreases es.len(),
{
    if es.len() == 0 {
        s
    } else {
        let s1 = match es[0] {
            Event::Request(true) => s,
            Event::Request(false) => false,
            Event::Response => s,
            Event::Notification(n) => s || changes_workspace(n),
            Event::Idle => false,
        };
        run_state(s1, es.drop_first())
    }
}

/// The folders are fresh after a refresh until a notification changes the
/// workspace: a run of events without such a notification, from a fresh
/// state, leaves it fresh, so no refresh happens in it.
pub proof fn lemma_fresh_until_change(es: Seq<Event>)
    requires
        forall|i: int| 0 <= i < es.len() ==> !(#[trigger] es[i] matches Event::Notification(n) && changes_workspace(n)),
    ensures
        !run_state(false, es),
    decreases es.len(),
{
    if es.len() > 0 {
        assert forall|i: int| 0 <= i < es.drop_first().len() implies !(#[trigger] es.drop_first()[i] matches Event::Notification(n) && changes_workspace(n)) by {
            assert(es.drop_first()[i] == es[i + 1]);
        }
        assert(!(es[0] matches Event::Notification(n) && changes_workspace(n)));
        lemma_fresh_until_change(es.drop_first());
    }
}

/// The event makes the loop evaluate the folders when they are stale.
pub open spec fn refreshes(e: Event) -> bool {
    e matches Event::Request(false) || e is Idle
}

/// The event is a notification that changes the workspace.
pub open spec fn changes(e: Event) -> bool {
    e matches Event::Notification(n) && changes_workspace(n)
}

/// No event of `es` from index `from` on refreshes the folders.
pub open spec fn no_refresh_from(es: Seq<Event>, from: int) -> bool {
    forall|k: int| from <= k < es.len() ==> !#[trigger] refreshes(es[k])
}

/// After a run of events the folders are stale exactly when they were stale
/// at its start and no event of the run refreshed them, or when a
/// notification of the run changed the workspace and no later event
/// refreshed them. So each request, and each idle wait, re-evaluates the
/// folders exactly when the workspace changed since they were last
/// evaluated, or they never were.
pub proof fn lemma_stale_since_change(s: bool, es: Seq<Event>)
    ensures
        run_state(s, es) == ((s && no_refresh_from(es, 0)) || exists|j: int|
            0 <= j < es.len() && #[trigger] changes(es[j]) && no_refresh_from(es, j + 1)),
    decreases es.len(),
{
    if es.len() > 0 {
        let e = es[0];
        let rest = es.drop_first();
        let s1 = match e {
            Event::Request(true) => s,
            Event::Request(false) => false,
            Event::Response => s,
            Event::Notification(n) => s || changes_workspace(n),
            Event::Idle => false,
        };
        lemma_stale_since_change(s1, rest);
        assert forall|j: int| 0 <= j < rest.len() implies (no_refresh_from(rest, j) == no_refresh_from(es, j + 1)) by {
            if no_refresh_from(rest, j) {
                assert forall|k: int| j + 1 <= k < es.len() implies !#[trigger] refreshes(es[k]) by {
                    assert(rest[k - 1] == es[k]);
                }
            }
            if no_refresh_from(es, j + 1) {
                assert forall|k: int| j <= k < rest.len() implies !#[trigger] refreshes(rest[k]) by {
                    assert(rest[k] == es[k + 1]);
                }
            }
        }
        assert(no_refresh_from(rest, rest.len() as int));
        assert(no_refresh_from(es, es.len() as int));
        let rhs = (s && no_refresh_from(es, 0)) || exists|j: int|
            0 <= j < es.len() && #[trigger] changes(es[j]) && no_refresh_from(es, j + 1);
        let rrhs = (s1 && no_refresh_from(rest, 0)) || exists|j: int|
            0 <= j < rest.len() && #[trigger] changes(rest[j]) && no_refresh_from(rest, j + 1);
        assert(no_refresh_from(es, 0) == (!refreshes(e) && no_refresh_from(es, 1))) by {
            if !refreshes(e) && no_refresh_from(es, 1) {
                assert(forall|k: int| 0 <= k < es.len() ==> !#[trigger] refreshes(es[k]));
            }
        }
        if rest.len() > 0 {
            assert(no_refresh_from(rest, 0) == no_refresh_from(es, 1));
        } else {
            assert(no_refresh_from(es, 1));
        }
        if rrhs {
            if s1 && no_refresh_from(rest, 0) {
                if changes(e) {
                    assert(changes(es[0]) && no_refresh_from(es, 1));
                } else {
                    assert(s && no_refresh_from(es, 0));
                }
            } else {
                let j = choose|j: int|
                    0 <= j < rest.len() && #[trigger] changes(rest[j]) && no_refresh_from(rest, j + 1);
                assert(rest[j] == es[j + 1]);
                assert(no_refresh_from(es, j + 2));
                assert(changes(es[j + 1]) && no_refresh_from(es, j + 2));
            }
            assert(rhs);
        }
        if rhs {
            if s && no_refresh_from(es, 0) {
                assert(!refreshes(e));
                assert(s1);
            } else {
                let j = choose|j: int|
                    0 <= j < es.len() && #[trigger] changes(es[j]) && no_refresh_from(es, j + 1);
                if j == 0 {
                    assert(s1);
                    assert(no_refresh_from(es, 1));
                } else {
                    assert(rest[j - 1] == es[j]);
                    if j < rest.len() {
                        assert(no_refresh_from(rest, j));
                    }
                    assert(changes(rest[j - 1]) && no_refresh_from(rest, j));
                }
            }
            assert(rrhs);
        }
    } else {
        assert(no_refresh_from(es, 0));
    }
}

} // verus!
