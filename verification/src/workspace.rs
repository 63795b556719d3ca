use crate::errors::{kind_text, Error};
use crate::locator::{Locator, Span};
use crate::position::{char_index, first_stop, fits_positions, utf8_len, PositionRange};
use vstd::prelude::*;
use vstd::string::{StrSliceExecFns, StringExecFns};

verus! {

/// A change of a text document: the replacement of the characters between
/// two positions, or of the whole text when there is no range.
pub struct TextChange {
    pub range: Option<PositionRange>,
    pub text: String,
}

/// The text after one change.
pub open spec fn apply_change(t: Seq<char>, range: Option<PositionRange>, new: Seq<char>) -> Seq<
    char,
> {
    match range {
        None => new,
        Some(r) => t.take(first_stop(t, r.start, 0)) + new + t.skip(first_stop(t, r.end, 0)),
    }
}

/// The text after the changes, in order.
pub open spec fn apply_changes(t: Seq<char>, cs: Seq<TextChange>) -> Seq<char>
    decreases cs.len(),
{
    if cs.len() == 0 {
        t
    } else {
        apply_changes(apply_change(t, cs[0].range, cs[0].text@), cs.drop_first())
    }
}

/// Each change applies: positions fit their integers, and no range ends
/// before it starts.
pub open spec fn changes_ok(t: Seq<char>, cs: Seq<TextChange>) -> bool
    decreases cs.len(),
{
    cs.len() == 0 || ({
        &&& fits_positions(t)
        &&& utf8_len(t) <= usize::MAX
        &&& (cs[0].range matches Some(r) ==> first_stop(t, r.start, 0) <= first_stop(t, r.end, 0))
        &&& changes_ok(apply_change(t, cs[0].range, cs[0].text@), cs.drop_first())
    })
}

/// The documents of a list of pairs, as a map from locators to texts.
pub open spec fn docs_map(s: Seq<(Locator, String)>) -> Map<Seq<char>, Seq<char>>
    decreases s.len(),
{
    if s.len() == 0 {
        Map::empty()
    } else {
        docs_map(s.drop_last()).insert(s.last().0@, s.last().1@)
    }
}

/// No locator holds two documents.
pub open spec fn locs_distinct(s: Seq<(Locator, String)>) -> bool {
    forall|i: int, j: int| 0 <= i < j < s.len() ==> #[trigger] s[i].0@ != #[trigger] s[j].0@
}

proof fn lemma_docs_map(s: Seq<(Locator, String)>)
    requires
        locs_distinct(s),
    ensures
        forall|i: int|
            0 <= i < s.len() ==> #[trigger] docs_map(s).contains_key(s[i].0@) && docs_map(
                s,
            )[s[i].0@] == s[i].1@,
        forall|e: Seq<char>|
            #[trigger] docs_map(s).contains_key(e) ==> exists|i: int|
                0 <= i < s.len() && #[trigger] s[i].0@ == e,
    decreases s.len(),
{
    if s.len() > 0 {
        lemma_docs_map(s.drop_last());
        assert forall|i: int| 0 <= i < s.len() implies #[trigger] docs_map(s).contains_key(
            s[i].0@,
        ) && docs_map(s)[s[i].0@] == s[i].1@ by {
            if i < s.len() - 1 {
                assert(s.drop_last()[i] == s[i]);
                assert(s[i].0@ != s[s.len() - 1].0@);
                assert(docs_map(s.drop_last()).contains_key(s.drop_last()[i].0@));
            }
        }
        assert forall|e: Seq<char>| #[trigger] docs_map(s).contains_key(e) implies exists|i: int|
            0 <= i < s.len() && #[trigger] s[i].0@ == e by {
            if e != s.last().0@ {
                assert(docs_map(s.drop_last()).contains_key(e));
                let i = choose|i: int|
                    0 <= i < s.drop_last().len() && #[trigger] s.drop_last()[i].0@ == e;
                assert(s.drop_last()[i] == s[i]);
            } else {
                assert(s[s.len() - 1].0@ == e);
            }
        }
    }
}

/// The number of documents is the number of pairs.
proof fn lemma_docs_len(s: Seq<(Locator, String)>)
    requires
        locs_distinct(s),
    ensures
        docs_map(s).dom().finite(),
        docs_map(s).len() == s.len(),
    decreases s.len(),
{
    if s.len() > 0 {
        lemma_docs_len(s.drop_last());
        lemma_docs_map(s.drop_last());
        let last = s.last().0@;
        assert(!docs_map(s.drop_last()).contains_key(last)) by {
            if docs_map(s.drop_last()).contains_key(last) {
                let i = choose|i: int|
                    0 <= i < s.drop_last().len() && #[trigger] s.drop_last()[i].0@ == last;
                assert(s[i].0@ == s[s.len() - 1].0@);
            }
        }
        assert(s.drop_last().len() + 1 == s.len());
    } else {
        assert(docs_map(s).dom() =~= Set::empty());
    }
}

/// Replacing the pair at `i` by one of the same locator sets its document.
proof fn lemma_docs_update(before: Seq<(Locator, String)>, i: int, after: Seq<(Locator, String)>)
    requires
        locs_distinct(before),
        0 <= i < before.len(),
        after.len() == before.len(),
        after[i].0@ == before[i].0@,
        forall|j: int| 0 <= j < before.len() && j != i ==> #[trigger] after[j] == before[j],
    ensures
        locs_distinct(after),
        docs_map(after) == docs_map(before).insert(before[i].0@, after[i].1@),
{
    assert forall|a: int, b: int| 0 <= a < b < after.len() implies #[trigger] after[a].0@
        != #[trigger] after[b].0@ by {
        assert(before[a].0@ != before[b].0@);
        if a != i {
            assert(after[a] == before[a]);
        }
        if b != i {
            assert(after[b] == before[b]);
        }
    }
    lemma_docs_map(before);
    lemma_docs_map(after);
    let m1 = docs_map(after);
    let m2 = docs_map(before).insert(before[i].0@, after[i].1@);
    assert forall|k: Seq<char>| #[trigger] m1.contains_key(k) == m2.contains_key(k) by {
        if m1.contains_key(k) {
            let j = choose|j: int| 0 <= j < after.len() && #[trigger] after[j].0@ == k;
            if j != i {
                assert(after[j] == before[j]);
                assert(docs_map(before).contains_key(before[j].0@));
            }
        }
        if docs_map(before).contains_key(k) {
            let j = choose|j: int| 0 <= j < before.len() && #[trigger] before[j].0@ == k;
            if j != i {
                assert(after[j] == before[j]);
            }
            assert(m1.contains_key(after[j].0@));
        }
        if k == before[i].0@ {
            assert(m1.contains_key(after[i].0@));
        }
    }
    assert forall|k: Seq<char>| #[trigger] m1.contains_key(k) implies m1[k] == m2[k] by {
        let j = choose|j: int| 0 <= j < after.len() && #[trigger] after[j].0@ == k;
        if j != i {
            assert(after[j] == before[j]);
            assert(before[j].0@ != before[i].0@);
            assert(docs_map(before).contains_key(before[j].0@));
        }
    }
    assert(m1 =~= m2);
}

/// Removing the pair at `i` removes its document.
proof fn lemma_docs_remove(before: Seq<(Locator, String)>, i: int)
    requires
        locs_distinct(before),
        0 <= i < before.len(),
    ensures
        locs_distinct(before.remove(i)),
        docs_map(before.remove(i)) == docs_map(before).remove(before[i].0@),
{
    let after = before.remove(i);
    assert forall|a: int, b: int| 0 <= a < b < after.len() implies #[trigger] after[a].0@
        != #[trigger] after[b].0@ by {
        let a2 = if a < i { a } else { a + 1 };
        let b2 = if b < i { b } else { b + 1 };
        assert(after[a] == before[a2]);
        assert(after[b] == before[b2]);
        assert(before[a2].0@ != before[b2].0@);
    }
    lemma_docs_map(before);
    lemma_docs_map(after);
    let m1 = docs_map(after);
    let m2 = docs_map(before).remove(before[i].0@);
    assert forall|k: Seq<char>| #[trigger] m1.contains_key(k) == m2.contains_key(k) by {
        if m1.contains_key(k) {
            let j = choose|j: int| 0 <= j < after.len() && #[trigger] after[j].0@ == k;
            let j2 = if j < i { j } else { j + 1 };
            assert(after[j] == before[j2]);
            assert(before[j2].0@ != before[i].0@);
            assert(docs_map(before).contains_key(before[j2].0@));
        }
        if m2.contains_key(k) {
            let j = choose|j: int| 0 <= j < before.len() && #[trigger] before[j].0@ == k;
            assert(j != i);
            let j2 = if j < i { j } else { j - 1 };
            assert(after[j2] == before[j]);
            assert(m1.contains_key(after[j2].0@));
        }
    }
    assert forall|k: Seq<char>| #[trigger] m1.contains_key(k) implies m1[k] == m2[k] by {
        let j = choose|j: int| 0 <= j < after.len() && #[trigger] after[j].0@ == k;
        let j2 = if j < i { j } else { j + 1 };
        assert(after[j] == before[j2]);
        assert(before[j2].0@ != before[i].0@);
        assert(docs_map(before).contains_key(before[j2].0@));
    }
    assert(m1 =~= m2);
}

/// The open documents of the language server, and the errors found while
/// loading and evaluating programs.
pub struct Workspace {
    docs: Vec<(Locator, String)>,
    errors: Option<Vec<(Span, String)>>,
}

impl Workspace {
    /// The texts of the open documents, by locator.
    pub closed spec fn docs(&self) -> Map<Seq<char>, Seq<char>> {
        docs_map(self.docs@)
    }

    /// The errors logged since they were last taken, as spans and messages.
    pub closed spec fn errors(&self) -> Seq<(Span, Seq<char>)> {
        match self.errors {
            Some(e) => e@.map_values(|x: (Span, String)| (x.0, x.1@)),
            None => Seq::empty(),
        }
    }

    /// No locator holds two documents.
    pub closed spec fn wf(&self) -> bool {
        locs_distinct(self.docs@)
    }

    /// Creates a workspace with no document and no error.
    pub fn new() -> (r: Workspace)
        ensures
            r.wf(),
            r.docs() == Map::<Seq<char>, Seq<char>>::empty(),
            r.errors() == Seq::<(Span, Seq<char>)>::empty(),
    {
        Workspace { docs: Vec::new(), errors: None }
    }

    /// The position of the document of `loc`, if it is open.
    fn find(&self, loc: &Locator) -> (r: Option<usize>)
        requires
            self.wf(),
        ensures
            match r {
                Some(i) => i < self.docs@.len() && self.docs@[i as int].0@ == loc@,
                None => !self.docs().contains_key(loc@),
            },
    {
        let mut i: usize = 0;
        while i < self.docs.len()
            invariant
                self.wf(),
                i <= self.docs.len(),
                forall|j: int| 0 <= j < i ==> #[trigger] self.docs@[j].0@ != loc@,
            decreases self.docs.len() - i,
        {
            if self.docs[i].0.same(loc) {
                return Some(i);
            }
            i = i + 1;
        }
        proof {
            lemma_docs_map(self.docs@);
            if self.docs().contains_key(loc@) {
                let j = choose|j: int| 0 <= j < self.docs@.len() && #[trigger] self.docs@[j].0@ == loc@;
                assert(self.docs@[j].0@ != loc@);
            }
        }
        None
    }

    /// Returns the text of the document of `loc`, if it is open.
    pub fn document(&self, loc: &Locator) -> (r: Option<&String>)
        requires
            self.wf(),
        ensures
            match r {
                Some(t) => self.docs().contains_key(loc@) && self.docs()[loc@] == t@,
                None => !self.docs().contains_key(loc@),
            },
    {
        match self.find(loc) {
            Some(i) => {
                proof {
                    lemma_docs_map(self.docs@);
                    assert(self.docs().contains_key(self.docs@[i as int].0@));
                }
                Some(&self.docs[i].1)
            },
            None => None,
        }
    }

    /// Reacts to an open file event: the document of `loc` is now `text`.
    pub fn open(&mut self, loc: Locator, text: String) -> (r: Locator)
        requires
            old(self).wf(),
        ensures
            final(self).wf(),
            r@ == loc@,
            final(self).docs() == old(self).docs().insert(loc@, text@),
            final(self).errors() == old(self).errors(),
    {
        let r = loc.duplicate();
        let ghost lv = loc@;
        let ghost tv = text@;
        match self.find(&loc) {
            Some(i) => {
                let ghost before = self.docs@;
                let _ = self.docs.remove(i);
                self.docs.insert(i, (loc, text));
                proof {
                    assert forall|j: int| 0 <= j < before.len() && j != i implies #[trigger] self.docs@[j]
                        == before[j] by {}
                    lemma_docs_update(before, i as int, self.docs@);
                }
            },
            None => {
                let ghost before = self.docs@;
                self.docs.push((loc, text));
                proof {
                    assert(self.docs@.drop_last() =~= before);
                    lemma_docs_map(before);
                    assert forall|a: int, b: int| 0 <= a < b < self.docs@.len() implies #[trigger] self.docs@[a].0@
                        != #[trigger] self.docs@[b].0@ by {
                        assert(self.docs@[a] == before[a]);
                        if b < before.len() {
                            assert(self.docs@[b] == before[b]);
                        } else {
                            assert(docs_map(before).contains_key(before[a].0@));
                        }
                    }
                }
            },
        }
        r
    }

    /// Reacts to a close file event: the document of `loc` is dropped.
    pub fn close(&mut self, loc: Locator) -> (r: Locator)
        requires
            old(self).wf(),
        ensures
            final(self).wf(),
            r@ == loc@,
            final(self).docs() == old(self).docs().remove(loc@),
            final(self).errors() == old(self).errors(),
    {
        match self.find(&loc) {
            Some(i) => {
                let ghost before = self.docs@;
                let _ = self.docs.remove(i);
                proof {
                    lemma_docs_remove(before, i as int);
                }
            },
            None => {
                assert(self.docs() =~= self.docs().remove(loc@));
            },
        }
        loc
    }

    /// Reacts to a file change event: the changes apply in order to the
    /// document of `loc`, if it is open.
    pub fn change(&mut self, loc: Locator, changes: Vec<TextChange>) -> (r: Locator)
        requires
            old(self).wf(),
            old(self).docs().contains_key(loc@) ==> changes_ok(old(self).docs()[loc@], changes@),
        ensures
            final(self).wf(),
            r@ == loc@,
            final(self).docs() == if old(self).docs().contains_key(loc@) {
                old(self).docs().insert(loc@, apply_changes(old(self).docs()[loc@], changes@))
            } else {
                old(self).docs()
            },
            final(self).errors() == old(self).errors(),
    {
        match self.find(&loc) {
            Some(i) => {
                let ghost before = self.docs@;
                proof {
                    lemma_docs_map(before);
                    assert(self.docs().contains_key(before[i as int].0@));
                }
                let (l, text) = self.docs.remove(i);
                let text = apply_text_changes(text, changes);
                self.docs.insert(i, (l, text));
                proof {
                    assert forall|j: int| 0 <= j < before.len() && j != i implies #[trigger] self.docs@[j]
                        == before[j] by {}
                    lemma_docs_update(before, i as int, self.docs@);
                }
            },
            None => {},
        }
        loc
    }

    /// Logs an error.
    pub fn log_error(&mut self, span: Span, err: String)
        ensures
            final(self).wf() == old(self).wf(),
            final(self).docs() == old(self).docs(),
            final(self).errors() == old(self).errors().push((span, err@)),
    {
        let ghost sv = span;
        let ghost ev = err@;
        match &mut self.errors {
            Some(errs) => {
                errs.push((span, err));
            },
            None => {
                let mut errs = Vec::new();
                errs.push((span, err));
                self.errors = Some(errs);
            },
        }
        assert(self.errors() =~= old(self).errors().push((sv, ev)));
    }

    /// Logs a compiler error at its span, or at the start of module `loc`.
    pub fn log_compiler_error(&mut self, loc: &Locator, err: &Error)
        ensures
            final(self).wf() == old(self).wf(),
            final(self).docs() == old(self).docs(),
            final(self).errors().len() == old(self).errors().len() + 1,
            final(self).errors().drop_last() == old(self).errors(),
            ({
                let (s, m) = final(self).errors().last();
                &&& match err.span {
                    Some(es) => s.loc@ == es.loc@ && s.start == es.start && s.end == es.end,
                    None => s.loc@ == loc@ && s.start == 0 && s.end == 0,
                }
                &&& m == if err.msg@.len() == 0 {
                    kind_text(err.kind)
                } else {
                    kind_text(err.kind) + ": "@ + err.msg@
                }
            }),
    {
        let span = match err.span() {
            Some(s) => s.duplicate(),
            None => Span::new(loc.duplicate(), 0, 0),
        };
        let msg = err.message();
        self.log_error(span, msg);
        assert(self.errors().drop_last() =~= old(self).errors());
    }

    /// Returns the logged errors and forgets them.
    pub fn take_errors(&mut self) -> (r: Vec<(Span, String)>)
        ensures
            final(self).wf() == old(self).wf(),
            final(self).docs() == old(self).docs(),
            final(self).errors() == Seq::<(Span, Seq<char>)>::empty(),
            r@.map_values(|x: (Span, String)| (x.0, x.1@)) == old(self).errors(),
    {
        match self.errors.take() {
            Some(errs) => errs,
            None => Vec::new(),
        }
    }

    /// The locators of the open documents.
    pub fn locators(&self) -> (r: Vec<Locator>)
        requires
            self.wf(),
        ensures
            forall|i: int| 0 <= i < r@.len() ==> #[trigger] self.docs().contains_key(r@[i]@),
            forall|k: Seq<char>| #[trigger] self.docs().contains_key(k) ==> exists|i: int|
                0 <= i < r@.len() && #[trigger] r@[i]@ == k,
            r@.len() == self.docs().len(),
    {
        proof {
            lemma_docs_map(self.docs@);
            lemma_docs_len(self.docs@);
        }
        let mut r: Vec<Locator> = Vec::new();
        let mut i: usize = 0;
        while i < self.docs.len()
            invariant
                i <= self.docs.len(),
                r@.len() == i,
                forall|j: int| 0 <= j < i ==> #[trigger] r@[j]@ == self.docs@[j].0@,
            decreases self.docs.len() - i,
        {
            r.push(self.docs[i].0.duplicate());
            i = i + 1;
        }
        proof {
            assert forall|j: int| 0 <= j < r@.len() implies #[trigger] self.docs().contains_key(r@[j]@) by {
                assert(self.docs().contains_key(self.docs@[j].0@));
            }
            assert forall|k: Seq<char>| #[trigger] self.docs().contains_key(k) implies exists|j: int|
                0 <= j < r@.len() && #[trigger] r@[j]@ == k by {
                let j = choose|j: int| 0 <= j < self.docs@.len() && #[trigger] self.docs@[j].0@ == k;
                assert(r@[j]@ == k);
            }
        }
        r
    }
}

impl Default for Workspace {
    /// A workspace with no document and no error.
    fn default() -> (r: Self)
        ensures
            r.wf(),
            r.docs() == Map::<Seq<char>, Seq<char>>::empty(),
            r.errors() == Seq::<(Span, Seq<char>)>::empty(),
    {
        Workspace::new()
    }
}

/// Applies one change to a text.
fn apply_text_change(text: String, change: TextChange) -> (r: String)
    requires
        changes_ok(text@, seq![change]),
    ensures
        r@ == apply_change(text@, change.range, change.text@),
{
    match change.range {
        None => change.text,
        Some(range) => {
            let start = char_index(text.as_str(), range.start);
            let end = char_index(text.as_str(), range.end);
            let n = text.as_str().unicode_len();
            proof {
                crate::position::lemma_first_stop_bounds(text@, range.start);
                crate::position::lemma_first_stop_bounds(text@, range.end);
            }
            let head = text.as_str().substring_char(0, start);
            let tail = text.as_str().substring_char(end, n);
            let r = String::from_str(head).concat(change.text.as_str()).concat(tail);
            assert(r@ =~= apply_change(text@, change.range, change.text@));
            r
        },
    }
}

/// Applies the changes to a text, in order.
fn apply_text_changes(text: String, changes: Vec<TextChange>) -> (r: String)
    requires
        changes_ok(text@, changes@),
    ensures
        r@ == apply_changes(text@, changes@),
{
    let ghost all = changes@;
    let mut rest = changes;
    let mut t = text;
    let ghost mut done: int = 0;
    while rest.len() > 0
        invariant
            0 <= done <= all.len(),
            rest@ == all.subrange(done, all.len() as int),
            changes_ok(t@, rest@),
            apply_changes(t@, rest@) == apply_changes(text@, all),
        decreases rest.len(),
    {
        let ghost r0 = rest@;
        let c = rest.remove(0);
        proof {
            assert(rest@ =~= r0.drop_first());
            assert(c == r0[0]);
            assert(changes_ok(t@, seq![c])) by {
                let one = seq![c];
                assert(one.drop_first() =~= Seq::<TextChange>::empty());
                assert(changes_ok(apply_change(t@, one[0].range, one[0].text@), one.drop_first()));
                assert(one[0] == r0[0]);
            }
            done = done + 1;
            assert(rest@ =~= all.subrange(done, all.len() as int));
        }
        t = apply_text_change(t, c);
    }
    t
}

} // verus!
