use crate::disjoin::{
    lemma_subst_compose, lemma_subst_fuel, lemma_subst_seq_elems, lemma_subst_seq_from_elems,
    lemma_subst_unbound, lemma_subst_value, subst, subst_f, subst_ok, subst_seq_f, Substitution,
};
use crate::errors::{Error, Kind};
use crate::locator::Span;
use crate::tag::{lemma_views, tag_eq, views, FuncTag, Tag, TagIdV, TagV};
use vstd::prelude::*;

verus! {

/// The reasons why two tags cannot be unified.
pub enum UnifyFailure {
    /// A variable would be bound to a function type that holds it.
    Recursive,
    /// Two function types differ in their number of bindings.
    Arity,
    /// Two concrete tags differ.
    Mismatch,
}

/// The message of the error reported for each failure.
pub open spec fn failure_msg(e: UnifyFailure) -> Seq<char> {
    match e {
        UnifyFailure::Recursive => "recursive type"@,
        UnifyFailure::Arity => "function arity mismatch"@,
        UnifyFailure::Mismatch => "type mismatch"@,
    }
}

/// The variable `a` is `b` or appears in the bindings or range of the function type `b`.
pub open spec fn occurs_v(a: TagV, b: TagV) -> bool
    decreases b,
{
    a == b || match b {
        TagV::Func(bs, r) => occurs_v(a, *r) || occurs_seq(a, bs),
        _ => false,
    }
}

pub open spec fn occurs_seq(a: TagV, bs: Seq<TagV>) -> bool
    decreases bs,
{
    bs.len() > 0 && (occurs_seq(a, bs.drop_last()) || occurs_v(a, bs.last()))
}

proof fn lemma_occurs_seq(a: TagV, bs: Seq<TagV>)
    ensures
        occurs_seq(a, bs) <==> exists|i: int| 0 <= i < bs.len() && #[trigger] occurs_v(a, bs[i]),
    decreases bs.len(),
{
    if bs.len() > 0 {
        lemma_occurs_seq(a, bs.drop_last());
        if occurs_seq(a, bs.drop_last()) {
            let i = choose|i: int| 0 <= i < bs.drop_last().len() && #[trigger] occurs_v(a, bs.drop_last()[i]);
            assert(bs[i] == bs.drop_last()[i]);
        }
        if occurs_v(a, bs.last()) {
            assert(occurs_v(a, bs[bs.len() - 1]));
        }
        if exists|i: int| 0 <= i < bs.len() && #[trigger] occurs_v(a, bs[i]) {
            let i = choose|i: int| 0 <= i < bs.len() && #[trigger] occurs_v(a, bs[i]);
            if i < bs.len() - 1 {
                assert(bs.drop_last()[i] == bs[i]);
            }
        }
    }
}

/// Unifies `l` and `r` under the bindings `m`, with at most `fuel` nested steps.
/// A failure comes with the bindings at the point where it happened.
/// `None` when the fuel runs out or a substitution does not terminate.
pub open spec fn unify_f(m: Map<TagIdV, TagV>, l: TagV, r: TagV, fuel: nat) -> Option<
    Result<Map<TagIdV, TagV>, (UnifyFailure, Map<TagIdV, TagV>)>,
>
    decreases fuel, 0int,
{
    if fuel == 0 || !subst_ok(m, l) || !subst_ok(m, r) {
        None
    } else {
        let l2 = subst(m, l);
        let r2 = subst(m, r);
        if l2 == r2 {
            Some(Ok(m))
        } else {
            match l2 {
                TagV::Var(v) => if occurs_v(l2, r2) {
                    Some(Err((UnifyFailure::Recursive, m)))
                } else {
                    Some(Ok(m.insert(v, r2)))
                },
                _ => match r2 {
                    TagV::Var(w) => if occurs_v(r2, l2) {
                        Some(Err((UnifyFailure::Recursive, m)))
                    } else {
                        Some(Ok(m.insert(w, l2)))
                    },
                    _ => match (l2, r2) {
                        (TagV::Func(lb, lr), TagV::Func(rb, rr)) => if lb.len() != rb.len() {
                            Some(Err((UnifyFailure::Arity, m)))
                        } else {
                            match unify_f(m, *lr, *rr, (fuel - 1) as nat) {
                                Some(Ok(m1)) => unify_seq_f(m1, lb, rb, (fuel - 1) as nat),
                                o => o,
                            }
                        },
                        (TagV::Property(lp), TagV::Property(rp)) => unify_f(
                            m,
                            *lp,
                            *rp,
                            (fuel - 1) as nat,
                        ),
                        _ => Some(Err((UnifyFailure::Mismatch, m))),
                    },
                },
            }
        }
    }
}

/// Unifies the tags of `ls` and `rs` pairwise, in order, stopping at the first failure.
pub open spec fn unify_seq_f(m: Map<TagIdV, TagV>, ls: Seq<TagV>, rs: Seq<TagV>, fuel: nat) -> Option<
    Result<Map<TagIdV, TagV>, (UnifyFailure, Map<TagIdV, TagV>)>,
>
    decreases fuel, ls.len() + 1,
{
    if ls.len() == 0 {
        Some(Ok(m))
    } else {
        match unify_f(m, ls[0], rs[0], fuel) {
            Some(Ok(m1)) => unify_seq_f(m1, ls.drop_first(), rs.drop_first(), fuel),
            o => o,
        }
    }
}

/// Equal substitutions under smaller bindings stay equal under larger bindings.
proof fn lemma_lift(m1: Map<TagIdV, TagV>, m2: Map<TagIdV, TagV>, a: TagV, b: TagV, g: nat)
    requires
        m1.submap_of(m2),
        subst_f(m2, a, g) is Some,
        subst_f(m2, b, g) is Some,
        subst_ok(m1, a) && subst_ok(m1, b) ==> subst(m1, a) == subst(m1, b),
    ensures
        subst_f(m2, a, g) == subst_f(m2, b, g),
{
    lemma_subst_compose(m1, m2, a, g);
    lemma_subst_compose(m1, m2, b, g);
    lemma_subst_value(m1, a, g);
    lemma_subst_value(m1, b, g);
}

proof fn lemma_submap_trans(a: Map<TagIdV, TagV>, b: Map<TagIdV, TagV>, c: Map<TagIdV, TagV>)
    requires
        a.submap_of(b),
        b.submap_of(c),
    ensures
        a.submap_of(c),
{
    assert forall|k: TagIdV| #[trigger] a.contains_key(k) implies c.contains_key(k) && c[k] == a[k] by {
        assert(b.contains_key(k));
    }
}

/// Picks a fuel with which both substitutions terminate.
proof fn lemma_common_fuel(m: Map<TagIdV, TagV>, a: TagV, b: TagV) -> (g: nat)
    requires
        subst_ok(m, a),
        subst_ok(m, b),
    ensures
        subst_f(m, a, g) is Some,
        subst_f(m, b, g) is Some,
        subst(m, a) == subst_f(m, a, g)->0,
        subst(m, b) == subst_f(m, b, g)->0,
{
    let ga = choose|f: nat| #[trigger] subst_f(m, a, f) is Some;
    let gb = choose|f: nat| #[trigger] subst_f(m, b, f) is Some;
    let g = if ga <= gb {
        gb
    } else {
        ga
    };
    lemma_subst_fuel(m, a, ga, g);
    lemma_subst_fuel(m, b, gb, g);
    lemma_subst_value(m, a, g);
    lemma_subst_value(m, b, g);
    g
}

/// Unification is sound: a successful unification only adds bindings, and
/// under the resulting bindings both tags substitute to the same tag.
pub proof fn lemma_unify_sound(
    m: Map<TagIdV, TagV>,
    l: TagV,
    r: TagV,
    f: nat,
    m2: Map<TagIdV, TagV>,
)
    requires
        unify_f(m, l, r, f) == Some(Ok::<Map<TagIdV, TagV>, (UnifyFailure, Map<TagIdV, TagV>)>(m2)),
    ensures
        m.submap_of(m2),
        subst_ok(m2, l) && subst_ok(m2, r) ==> subst(m2, l) == subst(m2, r),
    decreases f, 0int,
{
    let l2 = subst(m, l);
    let r2 = subst(m, r);
    let g0 = lemma_common_fuel(m, l, r);
    lemma_subst_unbound(m, l, g0);
    lemma_subst_unbound(m, r, g0);
    if l2 == r2 {
        return ;
    }
    if l2 is Var || r2 is Var {
        let (v, t) = if l2 is Var {
            (l2->Var_0, r2)
        } else {
            (r2->Var_0, l2)
        };
        assert(!m.contains_key(v));
        assert(m2 == m.insert(v, t));
        if subst_ok(m2, l) && subst_ok(m2, r) {
            let g1 = lemma_common_fuel(m2, l, r);
            let g = g1 + g0 + 1;
            lemma_subst_fuel(m2, l, g1, g);
            lemma_subst_fuel(m2, r, g1, g);
            lemma_subst_compose(m, m2, l, g);
            lemma_subst_compose(m, m2, r, g);
            lemma_subst_fuel(m, l, g0, g);
            lemma_subst_fuel(m, r, g0, g);
            // The variable unfolds to its bound tag.
            assert(subst_f(m2, TagV::Var(v), g) == subst_f(m2, t, (g - 1) as nat));
            lemma_subst_fuel(m2, t, (g - 1) as nat, g);
            lemma_subst_value(m2, l, g);
            lemma_subst_value(m2, r, g);
        }
        return ;
    }
    match (l2, r2) {
        (TagV::Func(lb, lr), TagV::Func(rb, rr)) => {
            let m1 = unify_f(m, *lr, *rr, (f - 1) as nat)->0->Ok_0;
            lemma_unify_sound(m, *lr, *rr, (f - 1) as nat, m1);
            lemma_unify_seq_sound(m1, lb, rb, (f - 1) as nat, m2);
            lemma_submap_trans(m, m1, m2);
            if subst_ok(m2, l) && subst_ok(m2, r) {
                let g1 = lemma_common_fuel(m2, l, r);
                let g = g1 + g0;
                lemma_subst_fuel(m2, l, g1, g);
                lemma_subst_fuel(m2, r, g1, g);
                lemma_subst_compose(m, m2, l, g);
                lemma_subst_compose(m, m2, r, g);
                lemma_subst_fuel(m, l, g0, g);
                lemma_subst_fuel(m, r, g0, g);
                // Both sides are function types whose parts substitute alike.
                lemma_subst_compose(m1, m2, *lr, g);
                lemma_subst_compose(m1, m2, *rr, g);
                lemma_lift(m1, m2, *lr, *rr, g);
                let xs = subst_seq_f(m2, lb, g)->0;
                let ys = subst_seq_f(m2, rb, g)->0;
                lemma_subst_seq_elems(m2, lb, g);
                lemma_subst_seq_elems(m2, rb, g);
                assert forall|i: int| 0 <= i < xs.len() implies xs[i] == ys[i] by {
                    assert(subst_f(m2, lb[i], g) is Some);
                    assert(subst_f(m2, rb[i], g) is Some);
                    lemma_subst_value(m2, lb[i], g);
                    lemma_subst_value(m2, rb[i], g);
                }
                assert(xs =~= ys);
                lemma_subst_value(m2, l, g);
                lemma_subst_value(m2, r, g);
            }
        },
        (TagV::Property(lp), TagV::Property(rp)) => {
            lemma_unify_sound(m, *lp, *rp, (f - 1) as nat, m2);
            if subst_ok(m2, l) && subst_ok(m2, r) {
                let g1 = lemma_common_fuel(m2, l, r);
                let g = g1 + g0;
                lemma_subst_fuel(m2, l, g1, g);
                lemma_subst_fuel(m2, r, g1, g);
                lemma_subst_compose(m, m2, l, g);
                lemma_subst_compose(m, m2, r, g);
                lemma_subst_fuel(m, l, g0, g);
                lemma_subst_fuel(m, r, g0, g);
                lemma_subst_value(m2, *lp, g);
                lemma_subst_value(m2, *rp, g);
                lemma_subst_value(m2, l, g);
                lemma_subst_value(m2, r, g);
            }
        },
        _ => {},
    }
}

/// Pairwise unification is sound for each pair.
pub proof fn lemma_unify_seq_sound(
    m: Map<TagIdV, TagV>,
    ls: Seq<TagV>,
    rs: Seq<TagV>,
    f: nat,
    m2: Map<TagIdV, TagV>,
)
    requires
        unify_seq_f(m, ls, rs, f) == Some(Ok::<Map<TagIdV, TagV>, (UnifyFailure, Map<TagIdV, TagV>)>(m2)),
        ls.len() == rs.len(),
    ensures
        m.submap_of(m2),
        forall|i: int|
            0 <= i < ls.len() && subst_ok(m2, ls[i]) && subst_ok(m2, rs[i]) ==> subst(m2, #[trigger] ls[i])
                == subst(m2, rs[i]),
    decreases f, ls.len() + 1,
{
    if ls.len() > 0 {
        let m1 = unify_f(m, ls[0], rs[0], f)->0->Ok_0;
        lemma_unify_sound(m, ls[0], rs[0], f, m1);
        lemma_unify_seq_sound(m1, ls.drop_first(), rs.drop_first(), f, m2);
        lemma_submap_trans(m, m1, m2);
        assert forall|i: int|
            0 <= i < ls.len() && subst_ok(m2, ls[i]) && subst_ok(m2, rs[i]) implies subst(
            m2,
            #[trigger] ls[i],
        ) == subst(m2, rs[i]) by {
            if i == 0 {
                let g = lemma_common_fuel(m2, ls[0], rs[0]);
                lemma_lift(m1, m2, ls[0], rs[0], g);
            } else {
                assert(ls.drop_first()[i - 1] == ls[i]);
                assert(rs.drop_first()[i - 1] == rs[i]);
            }
        }
    }
}

/// Returns true if the variable `a` is `b` or appears in the function type `b`.
fn occurs(a: &Tag, b: &Tag) -> (r: bool)
    requires
        a@ is Var,
    ensures
        r == occurs_v(a@, b@),
    decreases b,
{
    if tag_eq(a, b) {
        true
    } else if let Tag::Func(FuncTag { bindings, range }) = b {
        if occurs(a, &**range) {
            return true;
        }
        proof {
            lemma_views(bindings@);
            lemma_occurs_seq(a@, views(bindings@));
        }
        let mut i: usize = 0;
        #[verifier::loop_isolation(false)]
        while i < bindings.len()
            invariant
                i <= bindings.len(),
                forall|j: int| 0 <= j < i ==> !occurs_v(a@, #[trigger] views(bindings@)[j]),
            decreases bindings.len() - i,
        {
            proof {
                assert(decreases_to!(*b => bindings@[i as int]));
            }
            if occurs(a, &bindings[i]) {
                assert(views(bindings@)[i as int] == bindings@[i as int]@);
                assert(occurs_v(a@, views(bindings@)[i as int]));
                return true;
            }
            i = i + 1;
        }
        false
    } else {
        false
    }
}

/// Unifies two tags, extending the substitution `s`.
fn unify(s: &mut Substitution, left: &Tag, right: &Tag, Ghost(fuel): Ghost<nat>) -> (res: Result<
    (),
    Error,
>)
    requires
        old(s).wf(),
        unify_f(old(s)@, left@, right@, fuel) is Some,
    ensures
        final(s).wf(),
        match unify_f(old(s)@, left@, right@, fuel)->0 {
            Ok(m) => res is Ok && final(s)@ == m,
            Err((e, m2)) => res matches Err(err) && err.kind is InvalidTypes && err.msg@
                == failure_msg(e) && final(s)@ == m2,
        },
    decreases fuel,
{
    let ghost m = s@;
    let l = s.substitute(left);
    let r = s.substitute(right);
    if tag_eq(&l, &r) {
        Ok(())
    } else if let Tag::Var(v) = &l {
        if occurs(&l, &r) {
            Err(Error::new(Kind::InvalidTypes, "recursive type").with(&(&l, &r)))
        } else {
            s.extend(v.duplicate(), r);
            Ok(())
        }
    } else if let Tag::Var(v) = &r {
        if occurs(&r, &l) {
            Err(Error::new(Kind::InvalidTypes, "recursive type").with(&(&r, &l)))
        } else {
            s.extend(v.duplicate(), l);
            Ok(())
        }
    } else if let (Tag::Func(lf), Tag::Func(rf)) = (&l, &r) {
        proof {
            lemma_views(lf.bindings@);
            lemma_views(rf.bindings@);
        }
        if lf.bindings.len() != rf.bindings.len() {
            return Err(
                Error::new(Kind::InvalidTypes, "function arity mismatch").with(
                    &(&lf.bindings, &rf.bindings),
                ),
            );
        }
        let ghost lb = views(lf.bindings@);
        let ghost rb = views(rf.bindings@);
        let ghost fuel1 = (fuel - 1) as nat;
        let ghost result = unify_f(m, left@, right@, fuel);
        unify(s, &*lf.range, &*rf.range, Ghost(fuel1))?;
        assert(lb.skip(0) =~= lb);
        assert(rb.skip(0) =~= rb);
        let mut i: usize = 0;
        while i < lf.bindings.len()
            invariant
                s.wf(),
                i <= lf.bindings.len(),
                lf.bindings.len() == rf.bindings.len(),
                lb.len() == lf.bindings.len(),
                rb.len() == rf.bindings.len(),
                forall|j: int| 0 <= j < lb.len() ==> #[trigger] lb[j] == lf.bindings@[j]@,
                forall|j: int| 0 <= j < rb.len() ==> #[trigger] rb[j] == rf.bindings@[j]@,
                unify_seq_f(s@, lb.skip(i as int), rb.skip(i as int), fuel1) == result,
                result is Some,
                result == unify_f(m, left@, right@, fuel),
                fuel1 + 1 == fuel,
                m == old(s)@,
            decreases lf.bindings.len() - i,
        {
            assert(lb.skip(i as int)[0] == lb[i as int]);
            assert(rb.skip(i as int)[0] == rb[i as int]);
            assert(lb.skip(i as int).drop_first() =~= lb.skip(i + 1));
            assert(rb.skip(i as int).drop_first() =~= rb.skip(i + 1));
            assert(result == match unify_f(s@, lb[i as int], rb[i as int], fuel1) {
                Some(Ok(m1)) => unify_seq_f(m1, lb.skip(i + 1), rb.skip(i + 1), fuel1),
                o => o,
            });
            unify(s, &lf.bindings[i], &rf.bindings[i], Ghost(fuel1))?;
            i = i + 1;
        }
        Ok(())
    } else if let (Tag::Property(lp), Tag::Property(rp)) = (&l, &r) {
        unify(s, &**lp, &**rp, Ghost((fuel - 1) as nat))
    } else {
        Err(Error::new(Kind::InvalidTypes, "type mismatch").with(&(&l, &r)))
    }
}

/// More fuel never changes a defined unification.
proof fn lemma_unify_fuel(m: Map<TagIdV, TagV>, l: TagV, r: TagV, f: nat, g: nat)
    requires
        unify_f(m, l, r, f) is Some,
        f <= g,
    ensures
        unify_f(m, l, r, g) == unify_f(m, l, r, f),
    decreases f, 0int,
{
    let l2 = subst(m, l);
    let r2 = subst(m, r);
    if l2 != r2 && !(l2 is Var) && !(r2 is Var) {
        match (l2, r2) {
            (TagV::Func(lb, lr), TagV::Func(rb, rr)) => {
                if lb.len() == rb.len() {
                    lemma_unify_fuel(m, *lr, *rr, (f - 1) as nat, (g - 1) as nat);
                    match unify_f(m, *lr, *rr, (f - 1) as nat) {
                        Some(Ok(m1)) => {
                            lemma_unify_seq_fuel(m1, lb, rb, (f - 1) as nat, (g - 1) as nat);
                        },
                        _ => {},
                    }
                }
            },
            (TagV::Property(lp), TagV::Property(rp)) => {
                lemma_unify_fuel(m, *lp, *rp, (f - 1) as nat, (g - 1) as nat);
            },
            _ => {},
        }
    }
}

proof fn lemma_unify_seq_fuel(m: Map<TagIdV, TagV>, ls: Seq<TagV>, rs: Seq<TagV>, f: nat, g: nat)
    requires
        unify_seq_f(m, ls, rs, f) is Some,
        f <= g,
    ensures
        unify_seq_f(m, ls, rs, g) == unify_seq_f(m, ls, rs, f),
    decreases f, ls.len() + 1,
{
    if ls.len() > 0 {
        lemma_unify_fuel(m, ls[0], rs[0], f, g);
        match unify_f(m, ls[0], rs[0], f) {
            Some(Ok(m1)) => {
                lemma_unify_seq_fuel(m1, ls.drop_first(), rs.drop_first(), f, g);
            },
            _ => {},
        }
    }
}

proof fn lemma_unify_eqs_fuel(m: Map<TagIdV, TagV>, eqs: Seq<(TagV, TagV)>, i: int, f: nat, g: nat)
    requires
        unify_eqs_f(m, eqs, i, f) is Some,
        f <= g,
    ensures
        unify_eqs_f(m, eqs, i, g) == unify_eqs_f(m, eqs, i, f),
    decreases eqs.len() - i,
{
    if 0 <= i < eqs.len() {
        lemma_unify_fuel(m, eqs[i].0, eqs[i].1, f, g);
        match unify_f(m, eqs[i].0, eqs[i].1, f) {
            Some(Ok(m1)) => {
                lemma_unify_eqs_fuel(m1, eqs, i + 1, f, g);
            },
            _ => {},
        }
    }
}

/// Unifies `l` and `r` under the bindings `m` as `unify_f` does, with at
/// most `fuel` nested steps, each substitution unfolding at most `depth`
/// bindings in a chain; `None` when these bounds are not enough.
pub open spec fn unify_bf(m: Map<TagIdV, TagV>, l: TagV, r: TagV, fuel: nat, depth: nat) -> Option<
    Result<Map<TagIdV, TagV>, (UnifyFailure, Map<TagIdV, TagV>)>,
>
    decreases fuel, 0int,
{
    if fuel == 0 || subst_f(m, l, depth) is None || subst_f(m, r, depth) is None {
        None
    } else {
        let l2 = subst_f(m, l, depth)->0;
        let r2 = subst_f(m, r, depth)->0;
        if l2 == r2 {
            Some(Ok(m))
        } else {
            match l2 {
                TagV::Var(v) => if occurs_v(l2, r2) {
                    Some(Err((UnifyFailure::Recursive, m)))
                } else {
                    Some(Ok(m.insert(v, r2)))
                },
                _ => match r2 {
                    TagV::Var(w) => if occurs_v(r2, l2) {
                        Some(Err((UnifyFailure::Recursive, m)))
                    } else {
                        Some(Ok(m.insert(w, l2)))
                    },
                    _ => match (l2, r2) {
                        (TagV::Func(lb, lr), TagV::Func(rb, rr)) => if lb.len() != rb.len() {
                            Some(Err((UnifyFailure::Arity, m)))
                        } else {
                            match unify_bf(m, *lr, *rr, (fuel - 1) as nat, depth) {
                                Some(Ok(m1)) => unify_seq_bf(m1, lb, rb, (fuel - 1) as nat, depth),
                                o => o,
                            }
                        },
                        (TagV::Property(lp), TagV::Property(rp)) => unify_bf(
                            m,
                            *lp,
                            *rp,
                            (fuel - 1) as nat,
                            depth,
                        ),
                        _ => Some(Err((UnifyFailure::Mismatch, m))),
                    },
                },
            }
        }
    }
}

/// Unifies pairwise as `unify_seq_f` does, within the same bounds as `unify_bf`.
pub open spec fn unify_seq_bf(
    m: Map<TagIdV, TagV>,
    ls: Seq<TagV>,
    rs: Seq<TagV>,
    fuel: nat,
    depth: nat,
) -> Option<Result<Map<TagIdV, TagV>, (UnifyFailure, Map<TagIdV, TagV>)>>
    decreases fuel, ls.len() + 1,
{
    if ls.len() == 0 {
        Some(Ok(m))
    } else {
        match unify_bf(m, ls[0], rs[0], fuel, depth) {
            Some(Ok(m1)) => unify_seq_bf(m1, ls.drop_first(), rs.drop_first(), fuel, depth),
            o => o,
        }
    }
}

/// Unifies the equations as `unify_eqs_f` does, within the bounds of `unify_bf`.
pub open spec fn unify_eqs_bf(
    m: Map<TagIdV, TagV>,
    eqs: Seq<(TagV, TagV)>,
    i: int,
    fuel: nat,
    depth: nat,
) -> Option<Result<Map<TagIdV, TagV>, (int, UnifyFailure)>>
    decreases eqs.len() - i,
{
    if i < 0 || i >= eqs.len() {
        Some(Ok(m))
    } else {
        match unify_bf(m, eqs[i].0, eqs[i].1, fuel, depth) {
            Some(Ok(m1)) => unify_eqs_bf(m1, eqs, i + 1, fuel, depth),
            Some(Err((e, _))) => Some(Err((i, e))),
            None => None,
        }
    }
}

/// Where the bounds suffice, they give what the unification gives.
proof fn lemma_unify_bf(m: Map<TagIdV, TagV>, l: TagV, r: TagV, f: nat, d: nat)
    requires
        unify_bf(m, l, r, f, d) is Some,
    ensures
        unify_f(m, l, r, f) == unify_bf(m, l, r, f, d),
    decreases f, 0int,
{
    lemma_subst_value(m, l, d);
    lemma_subst_value(m, r, d);
    let l2 = subst(m, l);
    let r2 = subst(m, r);
    if l2 != r2 && !(l2 is Var) && !(r2 is Var) {
        match (l2, r2) {
            (TagV::Func(lb, lr), TagV::Func(rb, rr)) => {
                if lb.len() == rb.len() {
                    lemma_unify_bf(m, *lr, *rr, (f - 1) as nat, d);
                    match unify_bf(m, *lr, *rr, (f - 1) as nat, d) {
                        Some(Ok(m1)) => {
                            lemma_unify_seq_bf(m1, lb, rb, (f - 1) as nat, d);
                        },
                        _ => {},
                    }
                }
            },
            (TagV::Property(lp), TagV::Property(rp)) => {
                lemma_unify_bf(m, *lp, *rp, (f - 1) as nat, d);
            },
            _ => {},
        }
    }
}

proof fn lemma_unify_seq_bf(m: Map<TagIdV, TagV>, ls: Seq<TagV>, rs: Seq<TagV>, f: nat, d: nat)
    requires
        unify_seq_bf(m, ls, rs, f, d) is Some,
    ensures
        unify_seq_f(m, ls, rs, f) == unify_seq_bf(m, ls, rs, f, d),
    decreases f, ls.len() + 1,
{
    if ls.len() > 0 {
        lemma_unify_bf(m, ls[0], rs[0], f, d);
        match unify_bf(m, ls[0], rs[0], f, d) {
            Some(Ok(m1)) => {
                lemma_unify_seq_bf(m1, ls.drop_first(), rs.drop_first(), f, d);
            },
            _ => {},
        }
    }
}

proof fn lemma_unify_eqs_bf(m: Map<TagIdV, TagV>, eqs: Seq<(TagV, TagV)>, i: int, f: nat, d: nat)
    requires
        unify_eqs_bf(m, eqs, i, f, d) is Some,
    ensures
        unify_eqs_f(m, eqs, i, f) == unify_eqs_bf(m, eqs, i, f, d),
    decreases eqs.len() - i,
{
    if 0 <= i < eqs.len() {
        lemma_unify_bf(m, eqs[i].0, eqs[i].1, f, d);
        match unify_bf(m, eqs[i].0, eqs[i].1, f, d) {
            Some(Ok(m1)) => {
                lemma_unify_eqs_bf(m1, eqs, i + 1, f, d);
            },
            _ => {},
        }
    }
}

proof fn lemma_unify_bf_depth(m: Map<TagIdV, TagV>, l: TagV, r: TagV, f: nat, d: nat, d2: nat)
    requires
        unify_bf(m, l, r, f, d) is Some,
        d <= d2,
    ensures
        unify_bf(m, l, r, f, d2) == unify_bf(m, l, r, f, d),
    decreases f, 0int,
{
    lemma_subst_fuel(m, l, d, d2);
    lemma_subst_fuel(m, r, d, d2);
    let l2 = subst_f(m, l, d)->0;
    let r2 = subst_f(m, r, d)->0;
    if l2 != r2 && !(l2 is Var) && !(r2 is Var) {
        match (l2, r2) {
            (TagV::Func(lb, lr), TagV::Func(rb, rr)) => {
                if lb.len() == rb.len() {
                    lemma_unify_bf_depth(m, *lr, *rr, (f - 1) as nat, d, d2);
                    match unify_bf(m, *lr, *rr, (f - 1) as nat, d) {
                        Some(Ok(m1)) => {
                            lemma_unify_seq_bf_depth(m1, lb, rb, (f - 1) as nat, d, d2);
                        },
                        _ => {},
                    }
                }
            },
            (TagV::Property(lp), TagV::Property(rp)) => {
                lemma_unify_bf_depth(m, *lp, *rp, (f - 1) as nat, d, d2);
            },
            _ => {},
        }
    }
}

proof fn lemma_unify_seq_bf_depth(
    m: Map<TagIdV, TagV>,
    ls: Seq<TagV>,
    rs: Seq<TagV>,
    f: nat,
    d: nat,
    d2: nat,
)
    requires
        unify_seq_bf(m, ls, rs, f, d) is Some,
        d <= d2,
    ensures
        unify_seq_bf(m, ls, rs, f, d2) == unify_seq_bf(m, ls, rs, f, d),
    decreases f, ls.len() + 1,
{
    if ls.len() > 0 {
        lemma_unify_bf_depth(m, ls[0], rs[0], f, d, d2);
        match unify_bf(m, ls[0], rs[0], f, d) {
            Some(Ok(m1)) => {
                lemma_unify_seq_bf_depth(m1, ls.drop_first(), rs.drop_first(), f, d, d2);
            },
            _ => {},
        }
    }
}

proof fn lemma_unify_eqs_bf_depth(
    m: Map<TagIdV, TagV>,
    eqs: Seq<(TagV, TagV)>,
    i: int,
    f: nat,
    d: nat,
    d2: nat,
)
    requires
        unify_eqs_bf(m, eqs, i, f, d) is Some,
        d <= d2,
    ensures
        unify_eqs_bf(m, eqs, i, f, d2) == unify_eqs_bf(m, eqs, i, f, d),
    decreases eqs.len() - i,
{
    if 0 <= i < eqs.len() {
        lemma_unify_bf_depth(m, eqs[i].0, eqs[i].1, f, d, d2);
        match unify_bf(m, eqs[i].0, eqs[i].1, f, d) {
            Some(Ok(m1)) => {
                lemma_unify_eqs_bf_depth(m1, eqs, i + 1, f, d, d2);
            },
            _ => {},
        }
    }
}

/// A unification that ends within `f` steps ends within some depth of
/// substitution too.
proof fn lemma_unify_depth_exists(m: Map<TagIdV, TagV>, l: TagV, r: TagV, f: nat) -> (d: nat)
    requires
        unify_f(m, l, r, f) is Some,
    ensures
        unify_bf(m, l, r, f, d) == unify_f(m, l, r, f),
    decreases f, 0int,
{
    let dl = choose|g: nat| #[trigger] subst_f(m, l, g) is Some;
    let dr = choose|g: nat| #[trigger] subst_f(m, r, g) is Some;
    let d0 = dl + dr;
    lemma_subst_fuel(m, l, dl, d0);
    lemma_subst_fuel(m, r, dr, d0);
    lemma_subst_value(m, l, d0);
    lemma_subst_value(m, r, d0);
    let l2 = subst(m, l);
    let r2 = subst(m, r);
    if l2 != r2 && !(l2 is Var) && !(r2 is Var) {
        match (l2, r2) {
            (TagV::Func(lb, lr), TagV::Func(rb, rr)) => {
                if lb.len() == rb.len() {
                    let d1 = lemma_unify_depth_exists(m, *lr, *rr, (f - 1) as nat);
                    match unify_f(m, *lr, *rr, (f - 1) as nat) {
                        Some(Ok(m1)) => {
                            let d2 = lemma_unify_seq_depth_exists(m1, lb, rb, (f - 1) as nat);
                            let d = d0 + d1 + d2;
                            lemma_subst_fuel(m, l, d0, d);
                            lemma_subst_fuel(m, r, d0, d);
                            lemma_unify_bf_depth(m, *lr, *rr, (f - 1) as nat, d1, d);
                            lemma_unify_seq_bf_depth(m1, lb, rb, (f - 1) as nat, d2, d);
                            return d;
                        },
                        _ => {
                            let d = d0 + d1;
                            lemma_subst_fuel(m, l, d0, d);
                            lemma_subst_fuel(m, r, d0, d);
                            lemma_unify_bf_depth(m, *lr, *rr, (f - 1) as nat, d1, d);
                            return d;
                        },
                    }
                }
                d0
            },
            (TagV::Property(lp), TagV::Property(rp)) => {
                let d1 = lemma_unify_depth_exists(m, *lp, *rp, (f - 1) as nat);
                let d = d0 + d1;
                lemma_subst_fuel(m, l, d0, d);
                lemma_subst_fuel(m, r, d0, d);
                lemma_unify_bf_depth(m, *lp, *rp, (f - 1) as nat, d1, d);
                d
            },
            _ => d0,
        }
    } else {
        d0
    }
}

proof fn lemma_unify_seq_depth_exists(m: Map<TagIdV, TagV>, ls: Seq<TagV>, rs: Seq<TagV>, f: nat) -> (d: nat)
    requires
        unify_seq_f(m, ls, rs, f) is Some,
    ensures
        unify_seq_bf(m, ls, rs, f, d) == unify_seq_f(m, ls, rs, f),
    decreases f, ls.len() + 1,
{
    if ls.len() == 0 {
        0
    } else {
        let d1 = lemma_unify_depth_exists(m, ls[0], rs[0], f);
        match unify_f(m, ls[0], rs[0], f) {
            Some(Ok(m1)) => {
                let d2 = lemma_unify_seq_depth_exists(m1, ls.drop_first(), rs.drop_first(), f);
                let d = d1 + d2;
                lemma_unify_bf_depth(m, ls[0], rs[0], f, d1, d);
                lemma_unify_seq_bf_depth(m1, ls.drop_first(), rs.drop_first(), f, d2, d);
                d
            },
            _ => d1,
        }
    }
}

proof fn lemma_unify_eqs_depth_exists(m: Map<TagIdV, TagV>, eqs: Seq<(TagV, TagV)>, i: int, f: nat) -> (d: nat)
    requires
        unify_eqs_f(m, eqs, i, f) is Some,
    ensures
        unify_eqs_bf(m, eqs, i, f, d) == unify_eqs_f(m, eqs, i, f),
    decreases eqs.len() - i,
{
    if i < 0 || i >= eqs.len() {
        0
    } else {
        let d1 = lemma_unify_depth_exists(m, eqs[i].0, eqs[i].1, f);
        match unify_f(m, eqs[i].0, eqs[i].1, f) {
            Some(Ok(m1)) => {
                let d2 = lemma_unify_eqs_depth_exists(m1, eqs, i + 1, f);
                let d = d1 + d2;
                lemma_unify_bf_depth(m, eqs[i].0, eqs[i].1, f, d1, d);
                lemma_unify_eqs_bf_depth(m1, eqs, i + 1, f, d2, d);
                d
            },
            _ => d1,
        }
    }
}

/// The bounded unification gives the outcome of the unification of the
/// equations exactly when that unification ends: then some fuel and depth
/// suffice, and whatever bounds suffice give that outcome.
pub proof fn lemma_unify_bounds_suffice(eqs: Seq<(TagV, TagV)>)
    ensures
        unify_terminates(eqs) <==> exists|f: nat, d: nat|
            #[trigger] unify_eqs_bf(Map::empty(), eqs, 0, f, d) is Some,
        forall|f: nat, d: nat|
            #[trigger] unify_eqs_bf(Map::empty(), eqs, 0, f, d) is Some ==> unify_eqs_bf(
                Map::empty(),
                eqs,
                0,
                f,
                d,
            )->0 == unify_result(eqs),
{
    if unify_terminates(eqs) {
        let f = choose|f: nat| #[trigger] unify_eqs_f(Map::empty(), eqs, 0, f) is Some;
        let d = lemma_unify_eqs_depth_exists(Map::empty(), eqs, 0, f);
        assert(unify_eqs_bf(Map::empty(), eqs, 0, f, d) is Some);
    }
    assert forall|f: nat, d: nat|
        #[trigger] unify_eqs_bf(Map::empty(), eqs, 0, f, d) is Some implies unify_terminates(eqs)
            && unify_eqs_bf(Map::empty(), eqs, 0, f, d)->0 == unify_result(eqs) by {
        lemma_unify_eqs_bf(Map::empty(), eqs, 0, f, d);
        assert(unify_eqs_f(Map::empty(), eqs, 0, f) is Some);
        let g = choose|g: nat| #[trigger] unify_eqs_f(Map::empty(), eqs, 0, g) is Some;
        if g <= f {
            lemma_unify_eqs_fuel(Map::empty(), eqs, 0, g, f);
        } else {
            lemma_unify_eqs_fuel(Map::empty(), eqs, 0, f, g);
        }
    }
}

/// Unifies as `unify` does with `fuel` nested steps, each substitution
/// unfolding at most `depth` bindings in a chain: `None` when these bounds
/// are not enough.
fn unify_bounded(s: &mut Substitution, left: &Tag, right: &Tag, fuel: u64, depth: u64) -> (res: Option<
    Result<(), Error>,
>)
    requires
        old(s).wf(),
    ensures
        final(s).wf(),
        match unify_bf(old(s)@, left@, right@, fuel as nat, depth as nat) {
            None => res is None,
            Some(Ok(m)) => res matches Some(x) && x is Ok && final(s)@ == m,
            Some(Err((e, m2))) => res matches Some(x) && x matches Err(err) && err.kind is InvalidTypes
                && err.msg@ == failure_msg(e) && final(s)@ == m2,
        },
    decreases fuel,
{
    if fuel == 0 {
        return None;
    }
    let ghost m = s@;
    let l = match s.substitute_within(left, depth) {
        Some(x) => x,
        None => {
            return None;
        },
    };
    let r = match s.substitute_within(right, depth) {
        Some(x) => x,
        None => {
            return None;
        },
    };
    proof {
        lemma_subst_value(m, left@, depth as nat);
        lemma_subst_value(m, right@, depth as nat);
    }
    if tag_eq(&l, &r) {
        Some(Ok(()))
    } else if let Tag::Var(v) = &l {
        if occurs(&l, &r) {
            Some(Err(Error::new(Kind::InvalidTypes, "recursive type").with(&(&l, &r))))
        } else {
            s.extend(v.duplicate(), r);
            Some(Ok(()))
        }
    } else if let Tag::Var(v) = &r {
        if occurs(&r, &l) {
            Some(Err(Error::new(Kind::InvalidTypes, "recursive type").with(&(&r, &l))))
        } else {
            s.extend(v.duplicate(), l);
            Some(Ok(()))
        }
    } else if let (Tag::Func(lf), Tag::Func(rf)) = (&l, &r) {
        proof {
            lemma_views(lf.bindings@);
            lemma_views(rf.bindings@);
        }
        if lf.bindings.len() != rf.bindings.len() {
            return Some(
                Err(
                    Error::new(Kind::InvalidTypes, "function arity mismatch").with(
                        &(&lf.bindings, &rf.bindings),
                    ),
                ),
            );
        }
        let ghost lb = views(lf.bindings@);
        let ghost rb = views(rf.bindings@);
        let ghost fuel1 = (fuel - 1) as nat;
        let ghost result = unify_bf(m, left@, right@, fuel as nat, depth as nat);
        match unify_bounded(s, &*lf.range, &*rf.range, fuel - 1, depth) {
            None => {
                return None;
            },
            Some(Err(e)) => {
                return Some(Err(e));
            },
            Some(Ok(())) => {},
        }
        assert(lb.skip(0) =~= lb);
        assert(rb.skip(0) =~= rb);
        let mut i: usize = 0;
        while i < lf.bindings.len()
            invariant
                s.wf(),
                i <= lf.bindings.len(),
                lf.bindings.len() == rf.bindings.len(),
                lb.len() == lf.bindings.len(),
                rb.len() == rf.bindings.len(),
                forall|j: int| 0 <= j < lb.len() ==> #[trigger] lb[j] == lf.bindings@[j]@,
                forall|j: int| 0 <= j < rb.len() ==> #[trigger] rb[j] == rf.bindings@[j]@,
                unify_seq_bf(s@, lb.skip(i as int), rb.skip(i as int), fuel1, depth as nat) == result,
                result == unify_bf(m, left@, right@, fuel as nat, depth as nat),
                fuel1 + 1 == fuel,
                m == old(s)@,
            decreases lf.bindings.len() - i,
        {
            assert(lb.skip(i as int)[0] == lb[i as int]);
            assert(rb.skip(i as int)[0] == rb[i as int]);
            assert(lb.skip(i as int).drop_first() =~= lb.skip(i + 1));
            assert(rb.skip(i as int).drop_first() =~= rb.skip(i + 1));
            assert(result == match unify_bf(s@, lb[i as int], rb[i as int], fuel1, depth as nat) {
                Some(Ok(m1)) => unify_seq_bf(m1, lb.skip(i + 1), rb.skip(i + 1), fuel1, depth as nat),
                o => o,
            });
            match unify_bounded(s, &lf.bindings[i], &rf.bindings[i], fuel - 1, depth) {
                None => {
                    return None;
                },
                Some(Err(e)) => {
                    return Some(Err(e));
                },
                Some(Ok(())) => {},
            }
            i = i + 1;
        }
        Some(Ok(()))
    } else if let (Tag::Property(lp), Tag::Property(rp)) = (&l, &r) {
        unify_bounded(s, &**lp, &**rp, fuel - 1, depth)
    } else {
        Some(Err(Error::new(Kind::InvalidTypes, "type mismatch").with(&(&l, &r))))
    }
}

/// Unifies the equations of `eqs` from the `i`-th on, in order, stopping at the
/// first failure, which is reported with the index of its equation.
pub open spec fn unify_eqs_f(
    m: Map<TagIdV, TagV>,
    eqs: Seq<(TagV, TagV)>,
    i: int,
    fuel: nat,
) -> Option<Result<Map<TagIdV, TagV>, (int, UnifyFailure)>>
    decreases eqs.len() - i,
{
    if i < 0 || i >= eqs.len() {
        Some(Ok(m))
    } else {
        match unify_f(m, eqs[i].0, eqs[i].1, fuel) {
            Some(Ok(m1)) => unify_eqs_f(m1, eqs, i + 1, fuel),
            Some(Err((e, _))) => Some(Err((i, e))),
            None => None,
        }
    }
}

/// The unification of the equations terminates.
pub open spec fn unify_terminates(eqs: Seq<(TagV, TagV)>) -> bool {
    exists|f: nat| #[trigger] unify_eqs_f(Map::empty(), eqs, 0, f) is Some
}

/// The outcome of the unification of the equations, from no binding.
pub open spec fn unify_result(eqs: Seq<(TagV, TagV)>) -> Result<
    Map<TagIdV, TagV>,
    (int, UnifyFailure),
> {
    unify_eqs_f(
        Map::empty(),
        eqs,
        0,
        choose|f: nat| #[trigger] unify_eqs_f(Map::empty(), eqs, 0, f) is Some,
    )->0
}

/// Unifying a list of equations is sound: every equation whose sides
/// substitute completely under the resulting bindings is solved by them.
pub proof fn lemma_unify_eqs_sound(
    m: Map<TagIdV, TagV>,
    eqs: Seq<(TagV, TagV)>,
    i: int,
    f: nat,
    m2: Map<TagIdV, TagV>,
)
    requires
        0 <= i,
        unify_eqs_f(m, eqs, i, f) == Some(Ok::<Map<TagIdV, TagV>, (int, UnifyFailure)>(m2)),
    ensures
        m.submap_of(m2),
        forall|j: int|
            i <= j < eqs.len() && subst_ok(m2, #[trigger] eqs[j].0) && subst_ok(m2, eqs[j].1)
                ==> subst(m2, eqs[j].0) == subst(m2, eqs[j].1),
    decreases eqs.len() - i,
{
    if i < eqs.len() {
        let m1 = unify_f(m, eqs[i].0, eqs[i].1, f)->0->Ok_0;
        lemma_unify_sound(m, eqs[i].0, eqs[i].1, f, m1);
        lemma_unify_eqs_sound(m1, eqs, i + 1, f, m2);
        lemma_submap_trans(m, m1, m2);
        assert forall|j: int|
            i <= j < eqs.len() && subst_ok(m2, #[trigger] eqs[j].0) && subst_ok(
                m2,
                eqs[j].1,
            ) implies subst(m2, eqs[j].0) == subst(m2, eqs[j].1) by {
            if j == i {
                let g = lemma_common_fuel(m2, eqs[i].0, eqs[i].1);
                lemma_lift(m1, m2, eqs[i].0, eqs[i].1, g);
                lemma_subst_value(m2, eqs[i].0, g);
                lemma_subst_value(m2, eqs[i].1, g);
            }
        }
    }
}

/// Two optional spans designate the same range.
pub open spec fn same_span(a: Option<Span>, b: Option<Span>) -> bool {
    match (a, b) {
        (Some(x), Some(y)) => x.loc@ == y.loc@ && x.start == y.start && x.end == y.end,
        (None, None) => true,
        _ => false,
    }
}

fn duplicate_span(span: &Option<Span>) -> (r: Option<Span>)
    ensures
        same_span(r, *span),
{
    match span {
        Some(s) => Some(s.duplicate()),
        None => None,
    }
}

/// A type equation between two tags, with the span of its expression.
#[derive(Debug)]
struct TypeEquation {
    left: Tag,
    right: Tag,
    span: Option<Span>,
}

/// An ordered set of type equations.
#[derive(Debug)]
pub struct InferenceSet(Vec<TypeEquation>);

impl InferenceSet {
    /// The equations, as pairs of tags.
    pub closed spec fn view(&self) -> Seq<(TagV, TagV)> {
        Seq::new(self.0@.len(), |i: int| (self.0@[i].left@, self.0@[i].right@))
    }

    /// The spans of the equations.
    pub closed spec fn spans(&self) -> Seq<Option<Span>> {
        Seq::new(self.0@.len(), |i: int| self.0@[i].span)
    }

    /// Creates an empty set of equations.
    pub fn new() -> (r: InferenceSet)
        ensures
            r@ == Seq::<(TagV, TagV)>::empty(),
            r.spans() == Seq::<Option<Span>>::empty(),
    {
        let r = InferenceSet(Vec::new());
        assert(r@ =~= Seq::<(TagV, TagV)>::empty());
        assert(r.spans() =~= Seq::<Option<Span>>::empty());
        r
    }

    /// Adds the equation `left = right`.
    pub fn push(&mut self, left: Tag, right: Tag, span: Option<Span>)
        ensures
            final(self)@ == old(self)@.push((left@, right@)),
            final(self).spans() == old(self).spans().push(span),
    {
        let ghost l = left@;
        let ghost r = right@;
        let ghost sp = span;
        self.0.push(TypeEquation { left, right, span });
        assert(self@ =~= old(self)@.push((l, r)));
        assert(self.spans() =~= old(self).spans().push(sp));
    }

    /// Returns the number of equations.
    pub fn len(&self) -> (r: usize)
        ensures
            r == self@.len(),
    {
        self.0.len()
    }

    /// Unifies the equations in order, from a substitution without binding.
    /// Fails at the first equation that cannot be unified, with its span.
    pub fn unify(&self) -> (res: Result<Substitution, Error>)
        requires
            unify_terminates(self@),
        ensures
            match unify_result(self@) {
                Ok(m) => res matches Ok(s) && s.wf() && s@ == m,
                Err((i, e)) => res matches Err(err) && err.kind is InvalidTypes && err.msg@
                    == failure_msg(e) && same_span(err.span, self.spans()[i]),
            },
            res matches Ok(s) ==> forall|i: int|
                0 <= i < self@.len() && subst_ok(s@, #[trigger] self@[i].0) && subst_ok(
                    s@,
                    self@[i].1,
                ) ==> subst(s@, self@[i].0) == subst(s@, self@[i].1),
    {
        let ghost f = choose|f: nat| #[trigger] unify_eqs_f(Map::empty(), self@, 0, f) is Some;
        let ghost result = unify_eqs_f(Map::empty(), self@, 0, f);
        let mut s = Substitution::new();
        let mut i: usize = 0;
        while i < self.0.len()
            invariant
                s.wf(),
                i <= self.0.len(),
                unify_eqs_f(s@, self@, i as int, f) == result,
                result is Some,
                result == unify_eqs_f(Map::empty(), self@, 0, f),
                result->0 == unify_result(self@),
            decreases self.0.len() - i,
        {
            let eq = &self.0[i];
            assert(self@[i as int] == (eq.left@, eq.right@));
            assert(result == match unify_f(s@, eq.left@, eq.right@, f) {
                Some(Ok(m1)) => unify_eqs_f(m1, self@, i + 1, f),
                Some(Err((e, _))) => Some(Err((i as int, e))),
                None => None,
            });
            match unify(&mut s, &eq.left, &eq.right, Ghost(f)) {
                Ok(()) => {},
                Err(err) => {
                    assert(self.spans()[i as int] == eq.span);
                    return Err(err.at(duplicate_span(&eq.span)));
                },
            }
            i = i + 1;
        }
        proof {
            lemma_unify_eqs_sound(Map::empty(), self@, 0, f, s@);
        }
        Ok(s)
    }

    /// Unifies as `unify` does, with `fuel` nested steps for each equation and
    /// at most `depth` bindings unfolded in a chain by each substitution:
    /// `None` when these bounds are not enough; otherwise the outcome of
    /// `unify`, whose unification then terminates.
    pub fn unify_within(&self, fuel: u64, depth: u64) -> (res: Option<Result<Substitution, Error>>)
        ensures
            res is Some <==> unify_eqs_bf(Map::empty(), self@, 0, fuel as nat, depth as nat) is Some,
            res is Some ==> unify_terminates(self@),
            res matches Some(x) ==> match unify_result(self@) {
                Ok(m) => x matches Ok(s) && s.wf() && s@ == m,
                Err((i, e)) => x matches Err(err) && err.kind is InvalidTypes && err.msg@
                    == failure_msg(e) && same_span(err.span, self.spans()[i]),
            },
    {
        let ghost f = fuel as nat;
        let ghost d = depth as nat;
        let ghost result = unify_eqs_bf(Map::empty(), self@, 0, f, d);
        let mut s = Substitution::new();
        let mut i: usize = 0;
        while i < self.0.len()
            invariant
                s.wf(),
                i <= self.0.len(),
                f == fuel as nat,
                d == depth as nat,
                unify_eqs_bf(s@, self@, i as int, f, d) == result,
                result == unify_eqs_bf(Map::empty(), self@, 0, f, d),
            decreases self.0.len() - i,
        {
            let eq = &self.0[i];
            assert(self@[i as int] == (eq.left@, eq.right@));
            assert(result == match unify_bf(s@, eq.left@, eq.right@, f, d) {
                Some(Ok(m1)) => unify_eqs_bf(m1, self@, i + 1, f, d),
                Some(Err((e, _))) => Some(Err((i as int, e))),
                None => None,
            });
            match unify_bounded(&mut s, &eq.left, &eq.right, fuel, depth) {
                None => {
                    return None;
                },
                Some(Ok(())) => {},
                Some(Err(err)) => {
                    assert(self.spans()[i as int] == eq.span);
                    proof {
                        lemma_unify_eqs_bf(Map::empty(), self@, 0, f, d);
                        self.lemma_result_of_fuel(f);
                    }
                    return Some(Err(err.at(duplicate_span(&eq.span))));
                },
            }
            i = i + 1;
        }
        proof {
            lemma_unify_eqs_bf(Map::empty(), self@, 0, f, d);
            self.lemma_result_of_fuel(f);
        }
        Some(Ok(s))
    }

    /// A fuel that suffices gives the outcome of the unification.
    proof fn lemma_result_of_fuel(&self, f: nat)
        requires
            unify_eqs_f(Map::empty(), self@, 0, f) is Some,
        ensures
            unify_terminates(self@),
            unify_result(self@) == unify_eqs_f(Map::empty(), self@, 0, f)->0,
    {
        let g = choose|g: nat| #[trigger] unify_eqs_f(Map::empty(), self@, 0, g) is Some;
        if g <= f {
            lemma_unify_eqs_fuel(Map::empty(), self@, 0, g, f);
        } else {
            lemma_unify_eqs_fuel(Map::empty(), self@, 0, f, g);
        }
    }
}

} // verus!
