use crate::disjoin::{subst, subst_f, subst_ok, Substitution};
use crate::errors::{Error, Kind};
use crate::tag::{Tag, TagV};
use vstd::prelude::*;

verus! {

/// The kind of a literal token.
#[derive(Clone, Copy, Debug, PartialEq, Eq)]
pub enum LiteralKind {
    HttpStatus,
    Number,
    Symbol,
}

/// The type tag of a literal: a status, a number or a text.
pub fn literal_tag(l: LiteralKind) -> (r: Tag)
    ensures
        r@ == match l {
            LiteralKind::HttpStatus => TagV::Status,
            LiteralKind::Number => TagV::Number,
            LiteralKind::Symbol => TagV::Text,
        },
{
    match l {
        LiteralKind::HttpStatus => Tag::Status,
        LiteralKind::Number => Tag::Number,
        LiteralKind::Symbol => Tag::Text,
    }
}

pub open spec fn opt_tag_view(t: Option<Tag>) -> Option<TagV> {
    match t {
        Some(t) => Some(t@),
        None => None,
    }
}

pub open spec fn is_unsolved(t: Option<TagV>) -> bool {
    t matches Some(TagV::Var(_))
}

/// Substitutes the tag of each tagged node by the complete substitution.
pub fn substitute(set: &Substitution, tags: &mut Vec<Option<Tag>>)
    requires
        set.wf(),
        forall|i: int|
            0 <= i < old(tags)@.len() ==> (#[trigger] old(tags)@[i] matches Some(t) ==> subst_ok(
                set@,
                t@,
            )),
    ensures
        final(tags)@.len() == old(tags)@.len(),
        forall|i: int|
            0 <= i < old(tags)@.len() ==> #[trigger] opt_tag_view(final(tags)@[i]) == match old(
                tags,
            )@[i] {
                Some(t) => Some(subst(set@, t@)),
                None => None,
            },
{
    let ghost before = tags@;
    let mut i: usize = 0;
    while i < tags.len()
        invariant
            set.wf(),
            i <= tags.len(),
            tags@.len() == before.len(),
            forall|j: int|
                0 <= j < before.len() ==> (#[trigger] before[j] matches Some(t) ==> subst_ok(
                    set@,
                    t@,
                )),
            forall|j: int| i <= j < before.len() ==> #[trigger] tags@[j] == before[j],
            forall|j: int|
                0 <= j < i ==> #[trigger] opt_tag_view(tags@[j]) == match before[j] {
                    Some(t) => Some(subst(set@, t@)),
                    None => None,
                },
        decreases tags.len() - i,
    {
        let next = match &tags[i] {
            Some(t) => Some(set.substitute(t)),
            None => None,
        };
        tags.set(i, next);
        i = i + 1;
    }
}

/// Substitutes as `substitute` does when each tag's substitution unfolds at
/// most `fuel` bindings in a chain, and returns true; otherwise returns
/// false and leaves the tags unchanged.
pub fn substitute_within(set: &Substitution, tags: &mut Vec<Option<Tag>>, fuel: u64) -> (r: bool)
    requires
        set.wf(),
    ensures
        r <==> forall|i: int|
            0 <= i < old(tags)@.len() ==> (#[trigger] old(tags)@[i] matches Some(t) ==> subst_f(
                set@,
                t@,
                fuel as nat,
            ) is Some),
        !r ==> final(tags)@ == old(tags)@,
        final(tags)@.len() == old(tags)@.len(),
        r ==> forall|i: int|
            0 <= i < old(tags)@.len() ==> #[trigger] opt_tag_view(final(tags)@[i]) == match old(
                tags,
            )@[i] {
                Some(t) => Some(subst(set@, t@)),
                None => None,
            },
{
    let ghost before = tags@;
    let mut out: Vec<Option<Tag>> = Vec::new();
    let mut i: usize = 0;
    while i < tags.len()
        invariant
            set.wf(),
            i <= tags.len(),
            tags@ == before,
            out@.len() == i,
            forall|j: int|
                0 <= j < i ==> (#[trigger] before[j] matches Some(t) ==> subst_f(
                    set@,
                    t@,
                    fuel as nat,
                ) is Some),
            forall|j: int|
                0 <= j < i ==> #[trigger] opt_tag_view(out@[j]) == match before[j] {
                    Some(t) => Some(subst(set@, t@)),
                    None => None,
                },
        decreases tags.len() - i,
    {
        let next = match &tags[i] {
            Some(t) => match set.substitute_within(t, fuel) {
                Some(x) => Some(x),
                None => {
                    return false;
                },
            },
            None => None,
        };
        out.push(next);
        i = i + 1;
    }
    *tags = out;
    true
}

/// Returns an error if there is at least one remaining tag variable.
pub fn check_complete(tags: &Vec<Option<Tag>>) -> (r: Result<(), Error>)
    ensures
        r is Ok <==> forall|i: int| 0 <= i < tags@.len() ==> !is_unsolved(
            #[trigger] opt_tag_view(tags@[i]),
        ),
        r matches Err(e) ==> e.kind is InvalidTypes && e.msg@ == "unsolved tag variable"@
            && e.span is None,
{
    let mut i: usize = 0;
    while i < tags.len()
        invariant
            i <= tags.len(),
            forall|j: int| 0 <= j < i ==> !is_unsolved(#[trigger] opt_tag_view(tags@[j])),
        decreases tags.len() - i,
    {
        if let Some(Tag::Var(_)) = &tags[i] {
            assert(is_unsolved(opt_tag_view(tags@[i as int])));
            return Err(Error::new(Kind::InvalidTypes, "unsolved tag variable"));
        }
        i = i + 1;
    }
    Ok(())
}

} // verus!
