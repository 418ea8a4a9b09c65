//! The constraint lattice: building per-instruction constraints from clause
//! lists and merging constraints by a component-wise meet.

use vstd::prelude::*;
use crate::ir::{ConstraintError, CsView, DepthNum, SetConstraint};
use crate::nsset::{ns_set_of, NsSet};

verus! {

/// One clause annotating an operator: a namespace restriction or a depth.
pub enum Constraint {
    Ns(Vec<i64>),
    Depth(DepthNum),
}

/// The component-wise meet of two constraints: namespace sets intersect,
/// depths must agree; a depth disagreement is a conflict.
pub open spec fn merge_spec(a: CsView, b: CsView) -> Result<CsView, ConstraintError> {
    let ns = match (a.ns, b.ns) {
        (Option::None, x) => x,
        (x, Option::None) => x,
        (Option::Some(x), Option::Some(y)) => Option::Some(x.intersect(y)),
    };
    match (a.depth, b.depth) {
        (Option::Some(x), Option::Some(y)) => if x != y {
            Result::Err(ConstraintError::ConflictDepth)
        } else {
            Result::Ok(CsView { ns, depth: Option::Some(x) })
        },
        (Option::None, d) => Result::Ok(CsView { ns, depth: d }),
        (d, Option::None) => Result::Ok(CsView { ns, depth: d }),
    }
}

/// The meet of a constraint with the result of an earlier merge.
pub open spec fn merge_after(
    r: Result<CsView, ConstraintError>,
    c: CsView,
) -> Result<CsView, ConstraintError> {
    match r {
        Result::Ok(v) => merge_spec(v, c),
        Result::Err(e) => Result::Err(e),
    }
}

/// The meet of an earlier merge's result under a constraint on the left.
pub open spec fn merge_before(
    a: CsView,
    r: Result<CsView, ConstraintError>,
) -> Result<CsView, ConstraintError> {
    match r {
        Result::Ok(v) => merge_spec(a, v),
        Result::Err(e) => Result::Err(e),
    }
}

/// The meet is commutative: `merge(a, b) = merge(b, a)`.
pub proof fn lemma_merge_commutative(a: CsView, b: CsView)
    ensures
        merge_spec(a, b) == merge_spec(b, a),
{
    if a.ns is Some && b.ns is Some {
        assert(a.ns->0.intersect(b.ns->0) =~= b.ns->0.intersect(a.ns->0));
    }
}

/// The meet is associative: `merge(a, merge(b, c)) = merge(merge(a, b), c)`,
/// conflicts included.
pub proof fn lemma_merge_associative(a: CsView, b: CsView, c: CsView)
    ensures
        merge_after(merge_spec(a, b), c) == merge_before(a, merge_spec(b, c)),
{
    if a.ns is Some && b.ns is Some && c.ns is Some {
        assert((a.ns->0.intersect(b.ns->0)).intersect(c.ns->0) =~= a.ns->0.intersect(
            b.ns->0.intersect(c.ns->0),
        ));
    }
}

/// The unconstrained constraint is the unit of the meet.
pub proof fn lemma_merge_unit(a: CsView)
    ensures
        merge_spec(a, CsView::free()) == Result::<CsView, ConstraintError>::Ok(a),
        merge_spec(CsView::free(), a) == Result::<CsView, ConstraintError>::Ok(a),
{
}

/// Merge two constraints: namespace restrictions intersect, depths must
/// agree.  Returns `ConflictDepth` exactly when both constraints carry a
/// depth and the two differ.
pub fn merge_constraints(orig: &SetConstraint, other: &SetConstraint) -> (r: Result<
    SetConstraint,
    ConstraintError,
>)
    requires
        orig.wf(),
        other.wf(),
    ensures
        match merge_spec(orig@, other@) {
            Result::Ok(c) => r is Ok && r->Ok_0@ == c && r->Ok_0.wf(),
            Result::Err(e) => r == Result::<SetConstraint, ConstraintError>::Err(e),
        },
{
    let merged_depth = match (&orig.depth, &other.depth) {
        (Option::Some(x), Option::Some(y)) => {
            if *x != *y {
                return Result::Err(ConstraintError::ConflictDepth);
            }
            Option::Some(*x)
        },
        (Option::None, d) => *d,
        (d, Option::None) => *d,
    };
    let merged_ns = match (&orig.ns, &other.ns) {
        (Option::None, Option::None) => Option::None,
        (Option::None, Option::Some(y)) => Option::Some(y.duplicate()),
        (Option::Some(x), Option::None) => Option::Some(x.duplicate()),
        (Option::Some(x), Option::Some(y)) => Option::Some(x.intersect(y)),
    };
    Result::Ok(SetConstraint { ns: merged_ns, depth: merged_depth })
}

/// Fold a clause list into one constraint, from the left: namespace
/// clauses intersect, depth clauses must all agree.
pub open spec fn construct_spec(s: Seq<Constraint>) -> Result<CsView, ConstraintError>
    decreases s.len(),
{
    if s.len() == 0 {
        Result::Ok(CsView::free())
    } else {
        match construct_spec(s.drop_last()) {
            Result::Err(e) => Result::Err(e),
            Result::Ok(c) => match s.last() {
                Constraint::Ns(v) => Result::Ok(
                    CsView {
                        ns: match c.ns {
                            Option::None => Option::Some(ns_set_of(v@)),
                            Option::Some(x) => Option::Some(x.intersect(ns_set_of(v@))),
                        },
                        depth: c.depth,
                    },
                ),
                Constraint::Depth(d) => match c.depth {
                    Option::Some(d0) => if d0 != d as int {
                        Result::Err(ConstraintError::ConflictDepth)
                    } else {
                        Result::Ok(c)
                    },
                    Option::None => Result::Ok(CsView { ns: c.ns, depth: Option::Some(d as int) }),
                },
            },
        }
    }
}

/// Once a prefix of the clause list conflicts, the whole list conflicts.
proof fn lemma_construct_err(s: Seq<Constraint>, i: int)
    requires
        0 <= i <= s.len(),
        construct_spec(s.take(i)) is Err,
    ensures
        construct_spec(s) is Err,
    decreases s.len() - i,
{
    if i == s.len() {
        assert(s.take(i) =~= s);
    } else {
        assert(s.take(i + 1).drop_last() =~= s.take(i));
        lemma_construct_err(s, i + 1);
    }
}

/// Build one constraint from a clause list.  Namespace clauses are
/// intersected; depth clauses must all agree, and a disagreement yields
/// `ConflictDepth`.  A missing clause kind leaves that axis unconstrained.
pub fn construct_constraints_from_vec(orig: &Vec<Constraint>) -> (r: Result<
    SetConstraint,
    ConstraintError,
>)
    ensures
        match construct_spec(orig@) {
            Result::Ok(c) => r is Ok && r->Ok_0@ == c && r->Ok_0.wf(),
            Result::Err(e) => r == Result::<SetConstraint, ConstraintError>::Err(e),
        },
{
    let mut acc = SetConstraint::unconstrained();
    let mut i: usize = 0;
    let len = orig.len();
    while i < len
        invariant
            len == orig@.len(),
            0 <= i <= len,
            acc.wf(),
            construct_spec(orig@.take(i as int)) == Result::<CsView, ConstraintError>::Ok(acc@),
        decreases len - i,
    {
        proof {
            assert(orig@.take(i + 1 as int).drop_last() =~= orig@.take(i as int));
            assert(orig@.take(i + 1 as int).last() == orig@[i as int]);
        }
        match &orig[i] {
            Constraint::Ns(v) => {
                let nv = NsSet::from_vec(v);
                let new_ns = match acc.ns {
                    Option::None => Option::Some(nv),
                    Option::Some(x) => Option::Some(x.intersect(&nv)),
                };
                acc = SetConstraint { ns: new_ns, depth: acc.depth };
            },
            Constraint::Depth(d) => {
                match acc.depth {
                    Option::Some(d0) => {
                        if d0 != *d {
                            proof {
                                lemma_construct_err(orig@, i + 1);
                            }
                            return Result::Err(ConstraintError::ConflictDepth);
                        }
                    },
                    Option::None => {
                        acc = SetConstraint { ns: acc.ns, depth: Option::Some(*d) };
                    },
                }
            },
        }
        i += 1;
    }
    proof {
        assert(orig@.take(len as int) =~= orig@);
    }
    Result::Ok(acc)
}

} // verus!
