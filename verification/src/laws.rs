//! Laws tying the optimizer to the executor's semantics: rewrites must
//! not change what a query evaluates to against any deterministic wiki.

use vstd::prelude::*;
use crate::ir::{defines_reg, wf_prog, IView, RegID, SolveError, TitleKey};
use crate::optim::{pass_d_from, spec_pass_d, sub_get, subst_iview};
use crate::solve::{inst_sem, run_prog, solve_spec, ApiEnv};

verus! {

/// The state of no-op elision after the first `n` instructions: the
/// surviving instructions so far and the register substitution so far.
pub open spec fn d_prefix(p: Seq<IView>, n: int) -> (Seq<IView>, Map<RegID, RegID>)
    decreases n,
{
    if n <= 0 {
        (Seq::empty(), Map::empty())
    } else {
        let s = d_prefix(p, n - 1);
        match p[n - 1] {
            IView::Nop { dest, op } => (s.0, s.1.insert(dest, sub_get(s.1, op))),
            _ => (s.0.push(subst_iview(p[n - 1], s.1)), s.1),
        }
    }
}

/// Processing the whole program equals processing a prefix and going on
/// from there.
proof fn lemma_d_split(p: Seq<IView>, n: int)
    requires
        0 <= n <= p.len(),
    ensures
        spec_pass_d(p) == pass_d_from(p, n, d_prefix(p, n).1, d_prefix(p, n).0),
    decreases n,
{
    if n == 0 {
        assert(d_prefix(p, 0).0 =~= Seq::<IView>::empty());
        assert(d_prefix(p, 0).1 =~= Map::<RegID, RegID>::empty());
    } else {
        lemma_d_split(p, n - 1);
    }
}

/// The surviving-instruction sequence only grows with the prefix.
proof fn lemma_d_prefix_grows(p: Seq<IView>, n: int, j: int)
    requires
        0 <= n <= j <= p.len(),
    ensures
        d_prefix(p, n).0.len() <= d_prefix(p, j).0.len(),
        forall|k: int|
            0 <= k < d_prefix(p, n).0.len() ==> d_prefix(p, j).0[k] == d_prefix(p, n).0[k],
    decreases j - n,
{
    if n < j {
        lemma_d_prefix_grows(p, n + 1, j);
    }
}

/// An errored run stays errored.
proof fn lemma_run_err_sticky(e: ApiEnv, q: Seq<IView>, k: int, j: int)
    requires
        0 <= k <= j,
        run_prog(e, q, k) is Err,
    ensures
        run_prog(e, q, j) == run_prog(e, q, k),
    decreases j - k,
{
    if k < j {
        lemma_run_err_sticky(e, q, k + 1, j);
    }
}

/// The executor-facing relation between a program's run and the run of
/// its no-op-elided form: every register of the original is readable in
/// the elided run through the substitution, with the same value.
pub open spec fn d_inv(
    p: Seq<IView>,
    n: int,
    rp: Map<RegID, Set<TitleKey>>,
    rq: Map<RegID, Set<TitleKey>>,
) -> bool {
    let m = d_prefix(p, n).1;
    &&& forall|r: RegID| rp.dom().contains(r) <==> defines_reg(p, n, r)
    &&& forall|r: RegID| m.dom().contains(r) ==> rp.dom().contains(r)
    &&& forall|r: RegID| rq.dom().contains(r) ==> rp.dom().contains(r)
    &&& forall|r: RegID|
        #[trigger] rp.dom().contains(r) ==> rq.dom().contains(sub_get(m, r)) && rp[r]
            == rq[sub_get(m, r)]
}

/// Running the first `n` instructions and running their elided form
/// agree: same first error, or registers related by the substitution.
proof fn lemma_d_run(e: ApiEnv, p: Seq<IView>, n: int)
    requires
        wf_prog(p),
        0 <= n <= p.len(),
    ensures
        match run_prog(e, p, n) {
            Result::Ok(rp) => {
                &&& run_prog(e, spec_pass_d(p).0, d_prefix(p, n).0.len() as int) matches
                    Result::Ok(rq)
                &&& d_inv(p, n, rp, run_prog(e, spec_pass_d(p).0, d_prefix(p, n).0.len() as int)->Ok_0)
            },
            Result::Err(er) => run_prog(e, spec_pass_d(p).0, spec_pass_d(p).0.len() as int)
                == Result::<Map<RegID, Set<TitleKey>>, SolveError>::Err(er),
        },
    decreases n,
{
    let q = spec_pass_d(p).0;
    lemma_d_split(p, p.len() as int);
    assert(q == d_prefix(p, p.len() as int).0);
    if n == 0 {
        assert(run_prog(e, p, 0) == Result::<Map<RegID, Set<TitleKey>>, SolveError>::Ok(
            Map::empty(),
        ));
        assert(run_prog(e, q, 0) == Result::<Map<RegID, Set<TitleKey>>, SolveError>::Ok(
            Map::empty(),
        ));
        assert(d_prefix(p, 0).0.len() == 0);
        let rp = Map::<RegID, Set<TitleKey>>::empty();
        assert forall|r: RegID| rp.dom().contains(r) <==> defines_reg(p, 0, r) by {
            if defines_reg(p, 0, r) {
                let j = choose|j: int| 0 <= j < 0 && (#[trigger] p[j].dest()) == r;
            }
        }
    } else {
        lemma_d_run(e, p, n - 1);
        let v = p[n - 1];
        let prev_out = d_prefix(p, n - 1).0;
        let m = d_prefix(p, n - 1).1;
        match run_prog(e, p, n - 1) {
            Result::Err(er) => {
                assert(run_prog(e, p, n) == run_prog(e, p, n - 1));
            },
            Result::Ok(rp) => {
                let rq = run_prog(e, q, prev_out.len() as int)->Ok_0;
                assert(d_inv(p, n - 1, rp, rq));
                // Operands of the instruction are defined, in both runs.
                assert forall|k: int| 0 <= k < v.operands().len() implies rp.dom().contains(
                    #[trigger] v.operands()[k],
                ) by {
                    assert(defines_reg(p, n - 1, v.operands()[k]));
                }
                match v {
                    IView::Nop { dest, op } => {
                        assert(v.operands()[0] == op);
                        assert(rp.dom().contains(op));
                        assert(inst_sem(e, v, rp) == Result::<Set<TitleKey>, SolveError>::Ok(
                            rp[op],
                        ));
                        assert(run_prog(e, p, n) == Result::<
                            Map<RegID, Set<TitleKey>>,
                            SolveError,
                        >::Ok(rp.insert(dest, rp[op])));
                        assert(d_prefix(p, n).0 == prev_out);
                        assert(d_prefix(p, n).1 == m.insert(dest, sub_get(m, op)));
                        let rp2 = rp.insert(dest, rp[op]);
                        let m2 = m.insert(dest, sub_get(m, op));
                        assert forall|r: RegID| rp2.dom().contains(r) <==> defines_reg(p, n, r) by {
                            lemma_defines_step(p, n, r);
                        }
                        assert forall|r: RegID| #[trigger] rp2.dom().contains(r) implies rq.dom()
                            .contains(sub_get(m2, r)) && rp2[r] == rq[sub_get(m2, r)] by {
                            if r == dest {
                                assert(sub_get(m2, dest) == sub_get(m, op));
                            } else {
                                assert(sub_get(m2, r) == sub_get(m, r));
                            }
                        }
                    },
                    _ => {
                        let w = subst_iview(v, m);
                        assert(d_prefix(p, n).0 == prev_out.push(w));
                        assert(d_prefix(p, n).1 == m);
                        lemma_d_prefix_grows(p, n, p.len() as int);
                        assert(q[prev_out.len() as int] == w);
                        lemma_subst_sem(e, v, m, rp, rq);
                        match inst_sem(e, v, rp) {
                            Result::Err(er) => {
                                assert(run_prog(e, p, n) == Result::<
                                    Map<RegID, Set<TitleKey>>,
                                    SolveError,
                                >::Err(er));
                                assert(run_prog(e, q, prev_out.len() as int + 1) == Result::<
                                    Map<RegID, Set<TitleKey>>,
                                    SolveError,
                                >::Err(er));
                                lemma_run_err_sticky(
                                    e,
                                    q,
                                    prev_out.len() as int + 1,
                                    q.len() as int,
                                );
                            },
                            Result::Ok(s) => {
                                let dest = v.dest();
                                assert(w.dest() == dest) by {
                                    lemma_subst_dest(v, m);
                                }
                                assert(run_prog(e, p, n) == Result::<
                                    Map<RegID, Set<TitleKey>>,
                                    SolveError,
                                >::Ok(rp.insert(dest, s)));
                                assert(run_prog(e, q, prev_out.len() as int + 1) == Result::<
                                    Map<RegID, Set<TitleKey>>,
                                    SolveError,
                                >::Ok(rq.insert(dest, s)));
                                let rp2 = rp.insert(dest, s);
                                let rq2 = rq.insert(dest, s);
                                assert forall|r: RegID| rp2.dom().contains(r) <==> defines_reg(
                                    p,
                                    n,
                                    r,
                                ) by {
                                    lemma_defines_step(p, n, r);
                                }
                                assert(!m.dom().contains(dest)) by {
                                    lemma_m_keys_are_dests(p, n - 1, dest);
                                    if m.dom().contains(dest) {
                                        assert(rp.dom().contains(dest));
                                        assert(defines_reg(p, n - 1, dest));
                                        let j = choose|j: int|
                                            0 <= j < n - 1 && (#[trigger] p[j].dest()) == dest;
                                        assert(p[j].dest() < p[n - 1].dest());
                                    }
                                }
                                assert forall|r: RegID| #[trigger] rp2.dom().contains(r) implies
                                    rq2.dom().contains(sub_get(m, r)) && rp2[r] == rq2[sub_get(
                                    m,
                                    r,
                                )] by {
                                    if r == dest {
                                        assert(sub_get(m, dest) == dest);
                                    } else {
                                        assert(rp.dom().contains(r));
                                        assert(sub_get(m, r) != dest) by {
                                            if sub_get(m, r) == dest {
                                                assert(rq.dom().contains(dest));
                                                assert(rp.dom().contains(dest));
                                                assert(defines_reg(p, n - 1, dest));
                                                let j = choose|j: int|
                                                    0 <= j < n - 1 && (#[trigger] p[j].dest())
                                                        == dest;
                                                assert(p[j].dest() < p[n - 1].dest());
                                            }
                                        }
                                    }
                                }
                            },
                        }
                    },
                }
            },
        }
    }
}

/// Registers defined by `n + 1` instructions are those defined by `n`
/// plus the last destination.
proof fn lemma_defines_step(p: Seq<IView>, n: int, r: RegID)
    requires
        0 < n <= p.len(),
    ensures
        defines_reg(p, n, r) <==> (defines_reg(p, n - 1, r) || p[n - 1].dest() == r),
{
    if defines_reg(p, n, r) {
        let j = choose|j: int| 0 <= j < n && (#[trigger] p[j].dest()) == r;
        if j < n - 1 {
            assert(defines_reg(p, n - 1, r));
        }
    }
    if defines_reg(p, n - 1, r) {
        let j = choose|j: int| 0 <= j < n - 1 && (#[trigger] p[j].dest()) == r;
        assert(0 <= j < n && p[j].dest() == r);
    }
    if p[n - 1].dest() == r {
        assert(0 <= n - 1 < n && p[n - 1].dest() == r);
    }
}

/// The substitution's keys are destinations of already-seen no-ops.
proof fn lemma_m_keys_are_dests(p: Seq<IView>, n: int, r: RegID)
    requires
        0 <= n <= p.len(),
    ensures
        d_prefix(p, n).1.dom().contains(r) ==> defines_reg(p, n, r),
    decreases n,
{
    if n > 0 {
        lemma_m_keys_are_dests(p, n - 1, r);
        if d_prefix(p, n).1.dom().contains(r) {
            match p[n - 1] {
                IView::Nop { dest, op } => {
                    if r == dest {
                        assert(0 <= n - 1 < n && p[n - 1].dest() == r);
                    } else {
                        assert(d_prefix(p, n - 1).1.dom().contains(r));
                        assert(defines_reg(p, n - 1, r));
                        let j = choose|j: int| 0 <= j < n - 1 && (#[trigger] p[j].dest()) == r;
                        assert(0 <= j < n && p[j].dest() == r);
                    }
                },
                _ => {
                    assert(defines_reg(p, n - 1, r));
                    let j = choose|j: int| 0 <= j < n - 1 && (#[trigger] p[j].dest()) == r;
                    assert(0 <= j < n && p[j].dest() == r);
                },
            }
        }
    }
}

/// Substituting operands does not change the destination.
proof fn lemma_subst_dest(v: IView, m: Map<RegID, RegID>)
    ensures
        subst_iview(v, m).dest() == v.dest(),
{
}

/// An instruction evaluated over the original registers means the same
/// as its substituted form over the related registers.
proof fn lemma_subst_sem(
    e: ApiEnv,
    v: IView,
    m: Map<RegID, RegID>,
    rp: Map<RegID, Set<TitleKey>>,
    rq: Map<RegID, Set<TitleKey>>,
)
    requires
        forall|k: int| 0 <= k < v.operands().len() ==> rp.dom().contains(
            #[trigger] v.operands()[k],
        ),
        forall|r: RegID|
            #[trigger] rp.dom().contains(r) ==> rq.dom().contains(sub_get(m, r)) && rp[r]
                == rq[sub_get(m, r)],
    ensures
        inst_sem(e, subst_iview(v, m), rq) == inst_sem(e, v, rp),
{
    match v {
        IView::SetLit { .. } => {},
        IView::And { dest, op1, op2 } => {
            assert(v.operands()[0] == op1 && v.operands()[1] == op2);
        },
        IView::Or { dest, op1, op2 } => {
            assert(v.operands()[0] == op1 && v.operands()[1] == op2);
        },
        IView::Exclude { dest, op1, op2 } => {
            assert(v.operands()[0] == op1 && v.operands()[1] == op2);
        },
        IView::Xor { dest, op1, op2 } => {
            assert(v.operands()[0] == op1 && v.operands()[1] == op2);
        },
        IView::LinkTo { dest, op, cs } => {
            assert(v.operands()[0] == op);
        },
        IView::InCat { dest, op, cs } => {
            assert(v.operands()[0] == op);
        },
        IView::Prefix { dest, op } => {
            assert(v.operands()[0] == op);
        },
        IView::Toggle { dest, op } => {
            assert(v.operands()[0] == op);
        },
        IView::Nop { dest, op } => {
            assert(v.operands()[0] == op);
        },
    }
}

/// No-op elision preserves what a query evaluates to, errors included:
/// for every well-formed program and every deterministic wiki, solving
/// the elided program at the substituted result register gives exactly
/// what solving the original at its result register gives.
pub proof fn lemma_pass_d_preserves_solve(e: ApiEnv, p: Seq<IView>, result: RegID)
    requires
        wf_prog(p),
    ensures
        solve_spec(e, spec_pass_d(p).0, sub_get(spec_pass_d(p).1, result)) == solve_spec(
            e,
            p,
            result,
        ),
{
    let q = spec_pass_d(p).0;
    let m = spec_pass_d(p).1;
    lemma_d_split(p, p.len() as int);
    assert(m == d_prefix(p, p.len() as int).1);
    assert(q == d_prefix(p, p.len() as int).0);
    lemma_d_run(e, p, p.len() as int);
    match run_prog(e, p, p.len() as int) {
        Result::Err(er) => {},
        Result::Ok(rp) => {
            let rq = run_prog(e, q, q.len() as int)->Ok_0;
            assert(d_inv(p, p.len() as int, rp, rq));
            if rp.dom().contains(result) {
                assert(rq.dom().contains(sub_get(m, result)) && rp[result] == rq[sub_get(
                    m,
                    result,
                )]);
            } else {
                assert(!m.dom().contains(result)) by {
                    if m.dom().contains(result) {
                        assert(rp.dom().contains(result));
                    }
                }
                assert(sub_get(m, result) == result);
                assert(!rq.dom().contains(result)) by {
                    if rq.dom().contains(result) {
                        assert(rp.dom().contains(result));
                    }
                }
            }
        },
    }
}

/// A tree-shaped program, as lowering an expression tree produces it:
/// every register is consumed by at most one operand position, and the
/// result register is consumed by none.
pub open spec fn tree_shaped(p: Seq<IView>, result: RegID) -> bool {
    &&& forall|i: int, k: int, i2: int, k2: int|
        0 <= i < p.len() && 0 <= k < p[i].operands().len() && 0 <= i2 < p.len() && 0 <= k2
            < p[i2].operands().len() && (#[trigger] p[i].operands()[k]) == (
        #[trigger] p[i2].operands()[k2]) ==> i == i2 && k == k2
    &&& forall|i: int, k: int|
        0 <= i < p.len() && 0 <= k < p[i].operands().len() ==> (#[trigger] p[i].operands()[k])
            != result
}

/// Toggling a set of titles twice gives the set back.
proof fn lemma_toggle_set_involution(s: Set<TitleKey>)
    ensures
        crate::titleset::toggle_set(crate::titleset::toggle_set(s)) == s,
{
    let t = crate::titleset::toggle_set(s);
    assert(crate::titleset::toggle_set(t) =~= s) by {
        assert forall|x: TitleKey|
            crate::titleset::toggle_set(t).contains(x) == s.contains(x) by {
            crate::titleset::lemma_toggle_set_contains(t, x);
            crate::titleset::lemma_toggle_set_contains(s, crate::ir::toggle_key(x));
            crate::ir::lemma_toggle_involution(x);
        }
    }
}

/// Instruction meaning depends only on the values of its operands.
proof fn lemma_sem_congruence(
    e: ApiEnv,
    v: IView,
    rp: Map<RegID, Set<TitleKey>>,
    rq: Map<RegID, Set<TitleKey>>,
)
    requires
        forall|k: int|
            0 <= k < v.operands().len() ==> rp.dom().contains(#[trigger] v.operands()[k])
                == rq.dom().contains(v.operands()[k]),
        forall|k: int|
            0 <= k < v.operands().len() && rp.dom().contains(#[trigger] v.operands()[k])
                ==> rp[v.operands()[k]] == rq[v.operands()[k]],
    ensures
        inst_sem(e, v, rq) == inst_sem(e, v, rp),
{
    match v {
        IView::SetLit { .. } => {},
        IView::And { dest, op1, op2 } => {
            assert(v.operands()[0] == op1 && v.operands()[1] == op2);
        },
        IView::Or { dest, op1, op2 } => {
            assert(v.operands()[0] == op1 && v.operands()[1] == op2);
        },
        IView::Exclude { dest, op1, op2 } => {
            assert(v.operands()[0] == op1 && v.operands()[1] == op2);
        },
        IView::Xor { dest, op1, op2 } => {
            assert(v.operands()[0] == op1 && v.operands()[1] == op2);
        },
        IView::LinkTo { dest, op, cs } => {
            assert(v.operands()[0] == op);
        },
        IView::InCat { dest, op, cs } => {
            assert(v.operands()[0] == op);
        },
        IView::Prefix { dest, op } => {
            assert(v.operands()[0] == op);
        },
        IView::Toggle { dest, op } => {
            assert(v.operands()[0] == op);
        },
        IView::Nop { dest, op } => {
            assert(v.operands()[0] == op);
        },
    }
}

/// Inserting the same register and value on both sides keeps the runs
/// related.
proof fn lemma_a_rel_insert_same(
    rp: Map<RegID, Set<TitleKey>>,
    rq: Map<RegID, Set<TitleKey>>,
    r: RegID,
    r2: RegID,
    dest: RegID,
    s: Set<TitleKey>,
)
    requires
        a_rel(rp, rq, r, r2),
        dest != r,
        rp.dom().contains(r) ==> dest != r2,
    ensures
        a_rel(rp.insert(dest, s), rq.insert(dest, s), r, r2),
{
    let rp2 = rp.insert(dest, s);
    let rq2 = rq.insert(dest, s);
    assert(rp2.dom() =~= rq2.dom());
    assert forall|x: RegID| #[trigger] rp2.dom().contains(x) && x != r implies rp2[x]
        == rq2[x] by {
        if x != dest {
            assert(rp.dom().contains(x));
        }
    }
    if rp2.dom().contains(r) {
        assert(rp.dom().contains(r));
    }
}

/// The register-map relation carried while one toggle pair is cancelled:
/// both runs agree everywhere but at the inner register `r`, where the
/// original holds the toggled image of what the rewritten run holds, both
/// being copies of the inner operand `r2`.
spec fn a_rel(
    rp: Map<RegID, Set<TitleKey>>,
    rq: Map<RegID, Set<TitleKey>>,
    r: RegID,
    r2: RegID,
) -> bool {
    &&& rp.dom() == rq.dom()
    &&& forall|x: RegID| #[trigger] rp.dom().contains(x) && x != r ==> rp[x] == rq[x]
    &&& (rp.dom().contains(r) ==> rp.dom().contains(r2) && r2 != r && rq[r] == rq[r2] && rp[r]
        == crate::titleset::toggle_set(rp[r2]))
}

/// Running a program and running it with one toggle pair cancelled agree
/// step by step, up to the inner register.
proof fn lemma_a_run(
    e: ApiEnv,
    p: Seq<IView>,
    i: int,
    j: int,
    result: RegID,
    n: int,
)
    requires
        wf_prog(p),
        tree_shaped(p, result),
        0 <= j < i < p.len(),
        p[i] matches IView::Toggle { dest: d, op: r } && p[j] matches IView::Toggle {
            dest: r2d,
            op: r3,
        } && r2d == r,
        0 <= n <= p.len(),
    ensures
        ({
            let d = p[i]->Toggle_dest;
            let r = p[i]->Toggle_op;
            let r3 = p[j]->Toggle_op;
            let p2 = p.update(i, IView::Nop { dest: d, op: r }).update(
                j,
                IView::Nop { dest: r, op: r3 },
            );
            match run_prog(e, p, n) {
                Result::Ok(rp) => run_prog(e, p2, n) matches Result::Ok(rq) && a_rel(
                    rp,
                    run_prog(e, p2, n)->Ok_0,
                    r,
                    r3,
                ) && (forall|x: RegID| (#[trigger] rp.dom().contains(x)) == defines_reg(p, n, x)),
                Result::Err(er) => run_prog(e, p2, n) == Result::<
                    Map<RegID, Set<TitleKey>>,
                    SolveError,
                >::Err(er),
            }
        }),
    decreases n,
{
    let d = p[i]->Toggle_dest;
    let r = p[i]->Toggle_op;
    let r3 = p[j]->Toggle_op;
    let p2 = p.update(i, IView::Nop { dest: d, op: r }).update(
        j,
        IView::Nop { dest: r, op: r3 },
    );
    if n == 0 {
        assert(run_prog(e, p, 0) == Result::<Map<RegID, Set<TitleKey>>, SolveError>::Ok(
            Map::empty(),
        ));
        let rp = Map::<RegID, Set<TitleKey>>::empty();
        assert forall|x: RegID| (#[trigger] rp.dom().contains(x)) == defines_reg(p, 0, x) by {
            if defines_reg(p, 0, x) {
                let jj = choose|jj: int| 0 <= jj < 0 && (#[trigger] p[jj].dest()) == x;
            }
        }
    } else {
        lemma_a_run(e, p, i, j, result, n - 1);
        match run_prog(e, p, n - 1) {
            Result::Err(er) => {},
            Result::Ok(rp) => {
                let rq = run_prog(e, p2, n - 1)->Ok_0;
                assert(a_rel(rp, rq, r, r3));
                let v = p[n - 1];
                let v2 = p2[n - 1];
                // Operands are defined in both runs.
                assert forall|k: int| 0 <= k < v.operands().len() implies rp.dom().contains(
                    #[trigger] v.operands()[k],
                ) by {
                    assert(defines_reg(p, n - 1, v.operands()[k]));
                    let jj = choose|jj: int|
                        0 <= jj < n - 1 && (#[trigger] p[jj].dest()) == v.operands()[k];
                    lemma_run_dom(e, p, n - 1, jj);
                }
                if n - 1 == j {
                    assert(v == (IView::Toggle { dest: r, op: r3 }));
                    assert(v2 == (IView::Nop { dest: r, op: r3 }));
                    assert(v.operands() =~= seq![r3] && v2.operands() =~= seq![r3]);
                    assert(v.operands()[0] == r3);
                    assert(rp.dom().contains(r3));
                    assert(r3 != r) by {
                        crate::ir::lemma_operand_below_dest(p, j, 0);
                    }
                    assert(rp.dom().contains(r3) && r3 != r);
                    assert(rp[r3] == rq[r3]);
                    assert(run_prog(e, p, n) == Result::<
                        Map<RegID, Set<TitleKey>>,
                        SolveError,
                    >::Ok(rp.insert(r, crate::titleset::toggle_set(rp[r3]))));
                    assert(run_prog(e, p2, n) == Result::<
                        Map<RegID, Set<TitleKey>>,
                        SolveError,
                    >::Ok(rq.insert(r, rq[r3])));
                    let rp2 = rp.insert(r, crate::titleset::toggle_set(rp[r3]));
                    let rq2 = rq.insert(r, rq[r3]);
                    assert(rp2.dom() =~= rq2.dom());
                    assert forall|x: RegID| #[trigger] rp2.dom().contains(x) && x != r implies
                        rp2[x] == rq2[x] by {
                        assert(rp.dom().contains(x));
                    }
                    assert(rp2.dom().contains(r) && rp2.dom().contains(r3));
                    assert(rq2[r] == rq[r3] && rq2[r3] == rq[r3]);
                    assert(rp2[r] == crate::titleset::toggle_set(rp2[r3]));
                    assert(a_rel(rp2, rq2, r, r3));
                    assert forall|x: RegID| (#[trigger] rp2.dom().contains(x)) == defines_reg(
                        p,
                        n,
                        x,
                    ) by {
                        lemma_defines_step(p, n, x);
                    }
                } else if n - 1 == i {
                    assert(v == (IView::Toggle { dest: d, op: r }));
                    assert(v2 == (IView::Nop { dest: d, op: r }));
                    assert(v.operands() =~= seq![r]);
                    assert(v.operands()[0] == r);
                    assert(rp.dom().contains(r));
                    assert(d != r) by {
                        crate::ir::lemma_operand_below_dest(p, i, 0);
                    }
                    assert(rp[r] == crate::titleset::toggle_set(rp[r3]));
                    lemma_toggle_set_involution(rp[r3]);
                    assert(crate::titleset::toggle_set(rp[r]) == rp[r3]);
                    assert(run_prog(e, p, n) == Result::<
                        Map<RegID, Set<TitleKey>>,
                        SolveError,
                    >::Ok(rp.insert(d, rp[r3])));
                    assert(rq[r] == rq[r3]);
                    assert(rq[r3] == rp[r3]) by {
                        assert(r3 != r) by {
                            crate::ir::lemma_operand_below_dest(p, j, 0);
                        }
                    }
                    assert(run_prog(e, p2, n) == Result::<
                        Map<RegID, Set<TitleKey>>,
                        SolveError,
                    >::Ok(rq.insert(d, rp[r3])));
                    assert(d != r3) by {
                        assert(p[j].operands()[0] == r3);
                        assert(defines_reg(p, j, r3));
                        let jj = choose|jj: int| 0 <= jj < j && (#[trigger] p[jj].dest()) == r3;
                        lemma_dest_unique_at(p, i, jj);
                    }
                    lemma_a_rel_insert_same(rp, rq, r, r3, d, rp[r3]);
                    let rp2 = rp.insert(d, rp[r3]);
                    assert forall|x: RegID| (#[trigger] rp2.dom().contains(x)) == defines_reg(
                        p,
                        n,
                        x,
                    ) by {
                        lemma_defines_step(p, n, x);
                    }
                } else {
                    assert(v2 == v);
                    // No operand of this instruction is the inner register.
                    assert forall|k: int| 0 <= k < v.operands().len() implies (
                    #[trigger] v.operands()[k]) != r by {
                        assert(p[i].operands()[0] == r);
                        if v.operands()[k] == r {
                            assert(p[n - 1].operands()[k] == p[i].operands()[0]);
                        }
                    }
                    lemma_sem_congruence(e, v, rp, rq);
                    match inst_sem(e, v, rp) {
                        Result::Err(er) => {},
                        Result::Ok(s) => {
                            let dest = v.dest();
                            assert(dest != r) by {
                                lemma_dest_unique_at(p, n - 1, j);
                            }
                            assert(rp.dom().contains(r) ==> dest != r3) by {
                                if rp.dom().contains(r) {
                                    assert(defines_reg(p, n - 1, r));
                                    let pj = choose|pj: int|
                                        0 <= pj < n - 1 && (#[trigger] p[pj].dest()) == r;
                                    if pj != j {
                                        lemma_dest_unique_at(p, pj, j);
                                    }
                                    assert(j < n - 1);
                                    assert(p[j].operands()[0] == r3);
                                    assert(defines_reg(p, j, r3));
                                    let jj = choose|jj: int|
                                        0 <= jj < j && (#[trigger] p[jj].dest()) == r3;
                                    if dest == r3 {
                                        lemma_dest_unique_at(p, n - 1, jj);
                                    }
                                }
                            }
                            lemma_a_rel_insert_same(rp, rq, r, r3, dest, s);
                            let rp2 = rp.insert(dest, s);
                            assert forall|x: RegID| (#[trigger] rp2.dom().contains(x))
                                == defines_reg(p, n, x) by {
                                lemma_defines_step(p, n, x);
                            }
                        },
                    }
                }
            },
        }
    }
}

/// Pointwise-equal destinations and operands carry well-formedness and
/// tree shape across a rewrite.
proof fn lemma_shape_carries(p: Seq<IView>, q: Seq<IView>, result: RegID)
    requires
        q.len() == p.len(),
        forall|k: int| 0 <= k < p.len() ==> (#[trigger] q[k]).dest() == p[k].dest(),
        forall|k: int| 0 <= k < p.len() ==> (#[trigger] q[k]).operands() == p[k].operands(),
        wf_prog(p),
        tree_shaped(p, result),
    ensures
        wf_prog(q),
        tree_shaped(q, result),
{
    assert forall|a: int, b: int| 0 <= a < b < q.len() implies (#[trigger] q[a]).dest() < (
    #[trigger] q[b]).dest() by {
        assert(q[a].dest() == p[a].dest() && q[b].dest() == p[b].dest());
    }
    assert forall|i: int, k: int|
        #![trigger q[i].operands()[k]]
        0 <= i < q.len() && 0 <= k < q[i].operands().len() implies defines_reg(
        q,
        i,
        q[i].operands()[k],
    ) by {
        assert(q[i].operands() == p[i].operands());
        assert(defines_reg(p, i, p[i].operands()[k]));
        let j = choose|j: int| 0 <= j < i && (#[trigger] p[j].dest()) == p[i].operands()[k];
        assert(q[j].dest() == q[i].operands()[k]);
    }
    assert forall|i: int, k: int, i2: int, k2: int|
        0 <= i < q.len() && 0 <= k < q[i].operands().len() && 0 <= i2 < q.len() && 0 <= k2
            < q[i2].operands().len() && (#[trigger] q[i].operands()[k]) == (
        #[trigger] q[i2].operands()[k2]) implies i == i2 && k == k2 by {
        assert(q[i].operands() == p[i].operands());
        assert(q[i2].operands() == p[i2].operands());
        assert(p[i].operands()[k] == p[i2].operands()[k2]);
    }
    assert forall|i: int, k: int|
        0 <= i < q.len() && 0 <= k < q[i].operands().len() implies (#[trigger] q[i].operands()[k])
            != result by {
        assert(q[i].operands() == p[i].operands());
        assert(p[i].operands()[k] != result);
    }
}

/// One cancellation step preserves what the query evaluates to.
proof fn lemma_pass_a_at_solve(e: ApiEnv, p: Seq<IView>, i: int, result: RegID)
    requires
        wf_prog(p),
        tree_shaped(p, result),
        0 <= i < p.len(),
    ensures
        solve_spec(e, crate::optim::pass_a_at(p, i), result) == solve_spec(e, p, result),
        run_prog(e, crate::optim::pass_a_at(p, i), p.len() as int) is Ok == run_prog(
            e,
            p,
            p.len() as int,
        ) is Ok,
{
    match p[i] {
        IView::Toggle { dest: d, op: r } => {
            match crate::optim::find_dest(p, r) {
                Option::Some(j) => {
                    assert(0 <= j < p.len() && p[j].dest() == r);
                    match p[j] {
                        IView::Toggle { dest: d2, op: r3 } => {
                            assert(d2 == r);
                            assert(p[i].operands()[0] == r);
                            assert(defines_reg(p, i, r));
                            let pj = choose|pj: int|
                                0 <= pj < i && (#[trigger] p[pj].dest()) == r;
                            if pj != j {
                                lemma_dest_unique_at(p, pj, j);
                            }
                            assert(j < i);
                            let p2 = p.update(i, IView::Nop { dest: d, op: r }).update(
                                j,
                                IView::Nop { dest: r, op: r3 },
                            );
                            assert(crate::optim::pass_a_at(p, i) == p2);
                            lemma_a_run(e, p, i, j, result, p.len() as int);
                            assert(p2.len() == p.len());
                            match run_prog(e, p, p.len() as int) {
                                Result::Err(er) => {},
                                Result::Ok(rp) => {
                                    let rq = run_prog(e, p2, p2.len() as int)->Ok_0;
                                    assert(a_rel(rp, rq, r, r3));
                                    assert(result != r) by {
                                        assert(p[i].operands()[0] == r);
                                    }
                                    if rp.dom().contains(result) {
                                        assert(rp[result] == rq[result]);
                                    }
                                },
                            }
                        },
                        _ => {},
                    }
                },
                Option::None => {},
            }
        },
        _ => {},
    }
}

/// Cancellation scanned from position `i` preserves what the query
/// evaluates to.
proof fn lemma_pass_a_from_solve(e: ApiEnv, p: Seq<IView>, i: int, result: RegID)
    requires
        wf_prog(p),
        tree_shaped(p, result),
        0 <= i,
    ensures
        solve_spec(e, crate::optim::pass_a_from(p, i), result) == solve_spec(e, p, result),
        run_prog(e, crate::optim::pass_a_from(p, i), p.len() as int) is Ok == run_prog(
            e,
            p,
            p.len() as int,
        ) is Ok,
    decreases p.len() - i,
{
    if i >= p.len() {
    } else {
        let p1 = crate::optim::pass_a_at(p, i);
        lemma_pass_a_at_solve(e, p, i, result);
        crate::optim::lemma_pass_a_at_preserves(p, i);
        lemma_shape_carries(p, p1, result);
        lemma_pass_a_from_solve(e, p1, i + 1, result);
    }
}

/// Toggle-pair cancellation preserves what a query evaluates to: for
/// every well-formed, tree-shaped program and every deterministic wiki,
/// the cancelled program solves to exactly what the original solves to.
/// The toggle is an involution, so a toggle fed by a toggle hands its
/// consumer the inner set unchanged.
pub proof fn lemma_pass_a_preserves_solve(e: ApiEnv, p: Seq<IView>, result: RegID)
    requires
        wf_prog(p),
        tree_shaped(p, result),
    ensures
        solve_spec(e, crate::optim::spec_pass_a(p), result) == solve_spec(e, p, result),
        run_prog(e, crate::optim::spec_pass_a(p), p.len() as int) is Ok == run_prog(
            e,
            p,
            p.len() as int,
        ) is Ok,
{
    lemma_pass_a_from_solve(e, p, 0, result);
}

/// An explicitly empty namespace restriction lets nothing through.
proof fn lemma_filter_parsed_empty_ns(ks: Seq<TitleKey>)
    ensures
        crate::solve::filter_parsed(ks, Option::Some(Set::empty())) == Set::<TitleKey>::empty(),
    decreases ks.len(),
{
    if ks.len() == 0 {
    } else {
        lemma_filter_parsed_empty_ns(ks.drop_last());
    }
}

/// Every pending register of the propagation walk was put there as an
/// operand of some marked instruction.
proof fn lemma_b_pending_source(p: Seq<IView>, i: int, x: RegID)
    requires
        0 <= i,
        crate::optim::b_state(p, i).0.contains(x),
    ensures
        exists|j: int|
            i <= j < p.len() && crate::optim::b_marked(p).contains(j) && (
            #[trigger] p[j].operands()).to_set().contains(x),
    decreases p.len() - i,
{
    if i >= p.len() {
    } else {
        let s = crate::optim::b_state(p, i + 1);
        if p[i].ns_empty() || s.0.contains(p[i].dest()) {
            if p[i].operands().to_set().contains(x) {
                assert(crate::optim::b_state(p, i).1.contains(i));
                crate::optim::lemma_b_state_mono(p, 0, i);
                assert(crate::optim::b_marked(p).contains(i));
            } else {
                assert(s.0.contains(x));
                lemma_b_pending_source(p, i + 1, x);
            }
        } else {
            lemma_b_pending_source(p, i + 1, x);
        }
    }
}

/// Whether some marked instruction among the first `n` defines `x`.
spec fn marked_dest(p: Seq<IView>, n: int, x: RegID) -> bool {
    exists|k: int|
        0 <= k < n && (#[trigger] p[k].dest()) == x && crate::optim::b_marked(p).contains(k)
}

/// Whether some empty-restricted instruction among the first `n` defines
/// `x`.
spec fn empty_dest(p: Seq<IView>, n: int, x: RegID) -> bool {
    exists|k: int| 0 <= k < n && (#[trigger] p[k].dest()) == x && p[k].ns_empty()
}

/// The register-map relation carried through empty-namespace
/// propagation: registers of untouched instructions agree, every
/// propagated register is empty in the rewritten run, and every
/// empty-restricted register is empty in the original run.
spec fn b_rel(p: Seq<IView>, n: int, rp: Map<RegID, Set<TitleKey>>, rq: Map<RegID, Set<TitleKey>>) -> bool {
    &&& rp.dom() == rq.dom()
    &&& forall|x: RegID| (#[trigger] rp.dom().contains(x)) == defines_reg(p, n, x)
    &&& forall|x: RegID|
        #[trigger] rp.dom().contains(x) && !marked_dest(p, n, x) ==> rp[x] == rq[x]
    &&& forall|x: RegID| #[trigger] marked_dest(p, n, x) ==> rq.dom().contains(x) && rq[x]
        == Set::<TitleKey>::empty()
    &&& forall|x: RegID| #[trigger] empty_dest(p, n, x) ==> rp.dom().contains(x) && rp[x]
        == Set::<TitleKey>::empty()
}

/// Running the first `n` instructions of a program and of its
/// empty-namespace-propagated form agree as `b_rel` says, provided the
/// whole original run succeeds.
proof fn lemma_b_run(e: ApiEnv, p: Seq<IView>, result: RegID, n: int)
    requires
        wf_prog(p),
        tree_shaped(p, result),
        crate::solve::wf_env(e),
        run_prog(e, p, p.len() as int) is Ok,
        0 <= n <= p.len(),
    ensures
        run_prog(e, p, n) matches Result::Ok(rp),
        run_prog(e, crate::optim::spec_pass_b(p), n) matches Result::Ok(rq),
        b_rel(
            p,
            n,
            run_prog(e, p, n)->Ok_0,
            run_prog(e, crate::optim::spec_pass_b(p), n)->Ok_0,
        ),
    decreases n,
{
    let q = crate::optim::spec_pass_b(p);
    assert(run_prog(e, p, n) is Ok) by {
        if run_prog(e, p, n) is Err {
            lemma_run_err_sticky(e, p, n, p.len() as int);
        }
    }
    if n == 0 {
        let rp = Map::<RegID, Set<TitleKey>>::empty();
        assert forall|x: RegID| (#[trigger] rp.dom().contains(x)) == defines_reg(p, 0, x) by {
            if defines_reg(p, 0, x) {
                let jj = choose|jj: int| 0 <= jj < 0 && (#[trigger] p[jj].dest()) == x;
            }
        }
        assert forall|x: RegID| !(#[trigger] marked_dest(p, 0, x)) by {
            if marked_dest(p, 0, x) {
                let k = choose|k: int|
                    0 <= k < 0 && (#[trigger] p[k].dest()) == x
                        && crate::optim::b_marked(p).contains(k);
            }
        }
        assert forall|x: RegID| !(#[trigger] empty_dest(p, 0, x)) by {
            if empty_dest(p, 0, x) {
                let k = choose|k: int| 0 <= k < 0 && (#[trigger] p[k].dest()) == x && p[k].ns_empty();
            }
        }
    } else {
        lemma_b_run(e, p, result, n - 1);
        let rp = run_prog(e, p, n - 1)->Ok_0;
        let rq = run_prog(e, q, n - 1)->Ok_0;
        let v = p[n - 1];
        let dest = v.dest();
        let marked = crate::optim::b_marked(p).contains(n - 1);
        crate::optim::lemma_pass_b_preserves(p);
        assert(q[n - 1] == if marked {
            crate::optim::b_rewrite(v)
        } else {
            v
        });
        // Operands are defined in both runs.
        assert forall|k: int| 0 <= k < v.operands().len() implies rp.dom().contains(
            #[trigger] v.operands()[k],
        ) by {
            assert(defines_reg(p, n - 1, v.operands()[k]));
        }
        // The original step succeeds.
        let sp = match inst_sem(e, v, rp) {
            Result::Ok(s) => s,
            Result::Err(er) => {
                assert(run_prog(e, p, n) is Err);
                lemma_run_err_sticky(e, p, n, p.len() as int);
                arbitrary()
            },
        };
        assert(inst_sem(e, v, rp) == Result::<Set<TitleKey>, SolveError>::Ok(sp));
        assert(run_prog(e, p, n) == Result::<Map<RegID, Set<TitleKey>>, SolveError>::Ok(
            rp.insert(dest, sp),
        ));
        let rp2 = rp.insert(dest, sp);
        // Every operand of a marked instruction is a marked register; every
        // operand of an unmarked instruction is either untouched or the
        // destination of an empty-restricted (hence marked) instruction.
        assert forall|k: int|
            0 <= k < v.operands().len() implies op_case(p, n, v.operands()[k], marked) by {
            let x = #[trigger] v.operands()[k];
            assert(defines_reg(p, n - 1, x));
            let m = choose|m: int| 0 <= m < n - 1 && (#[trigger] p[m].dest()) == x;
            if marked {
                crate::optim::lemma_b_marked_closed(p, n - 1, k, m);
                assert(marked_dest(p, n - 1, x));
            } else {
                if crate::optim::b_marked(p).contains(m) {
                    // The producer is marked: it must be a trigger, since
                    // its one consumer is this unmarked instruction.
                    crate::optim::lemma_b_marks_triggers(p, 0);
                    crate::optim::lemma_b_marked_at(p, 0, m);
                    if !p[m].ns_empty() {
                        let s = crate::optim::b_state(p, m + 1);
                        assert(s.0.contains(p[m].dest()));
                        lemma_b_pending_source(p, m + 1, x);
                        let c = choose|c: int|
                            m + 1 <= c < p.len() && crate::optim::b_marked(p).contains(c) && (
                            #[trigger] p[c].operands()).to_set().contains(x);
                        assert(p[c].operands().contains(x));
                        let kc = choose|kc: int|
                            0 <= kc < p[c].operands().len() && p[c].operands()[kc] == x;
                        assert(p[c].operands()[kc] == p[n - 1].operands()[k]);
                        assert(c == n - 1 && kc == k);
                        assert(false);
                    }
                    assert(empty_dest(p, n - 1, x) && marked_dest(p, n - 1, x));
                } else {
                    assert(!marked_dest(p, n - 1, x)) by {
                        if marked_dest(p, n - 1, x) {
                            let k2 = choose|k2: int|
                                0 <= k2 < n - 1 && (#[trigger] p[k2].dest()) == x
                                    && crate::optim::b_marked(p).contains(k2);
                            lemma_dest_unique_at_eq(p, k2, m);
                        }
                    }
                }
            }
        }
        if marked {
            // The rewritten instruction stores the empty set.
            let w = crate::optim::b_rewrite(v);
            assert(inst_sem(e, w, rq) == Result::<Set<TitleKey>, SolveError>::Ok(
                Set::<TitleKey>::empty(),
            )) by {
                match v {
                    IView::SetLit { .. } => {
                        assert(Seq::<Seq<char>>::empty().map_values(
                            |t: Seq<char>| (e.parse)(t),
                        ) =~= Seq::<TitleKey>::empty());
                    },
                    IView::And { dest, op1, op2 } => {
                        assert(v.operands()[0] == op1 && v.operands()[1] == op2);
                        assert(rq[op1] == Set::<TitleKey>::empty());
                        assert(rq[op2] == Set::<TitleKey>::empty());
                        assert(rq[op1].intersect(rq[op2]) =~= Set::<TitleKey>::empty());
                    },
                    IView::Or { dest, op1, op2 } => {
                        assert(v.operands()[0] == op1 && v.operands()[1] == op2);
                        assert(rq[op1] == Set::<TitleKey>::empty());
                        assert(rq[op2] == Set::<TitleKey>::empty());
                        assert(rq[op1].union(rq[op2]) =~= Set::<TitleKey>::empty());
                    },
                    IView::Exclude { dest, op1, op2 } => {
                        assert(v.operands()[0] == op1 && v.operands()[1] == op2);
                        assert(rq[op1] == Set::<TitleKey>::empty());
                        assert(rq[op1].difference(rq[op2]) =~= Set::<TitleKey>::empty());
                    },
                    IView::Xor { dest, op1, op2 } => {
                        assert(v.operands()[0] == op1 && v.operands()[1] == op2);
                        assert(rq[op1] == Set::<TitleKey>::empty());
                        assert(rq[op2] == Set::<TitleKey>::empty());
                        assert(rq[op1].difference(rq[op2]).union(
                            rq[op2].difference(rq[op1]),
                        ) =~= Set::<TitleKey>::empty());
                    },
                    IView::LinkTo { dest, op, cs } => {
                        assert(v.operands()[0] == op);
                        assert(rq[op] == Set::<TitleKey>::empty());
                        assert(rq[op].len() == 0);
                    },
                    IView::InCat { dest, op, cs } => {
                        assert(v.operands()[0] == op);
                        assert(rq[op] == Set::<TitleKey>::empty());
                        assert(rq[op].len() == 0);
                    },
                    IView::Prefix { dest, op } => {
                        assert(v.operands()[0] == op);
                        assert(rq[op] == Set::<TitleKey>::empty());
                        assert(rq[op].len() == 0);
                    },
                    IView::Toggle { dest, op } => {
                        assert(v.operands()[0] == op);
                        assert(rq[op] == Set::<TitleKey>::empty());
                        assert(crate::titleset::toggle_set(rq[op]) =~= Set::<TitleKey>::empty());
                    },
                    IView::Nop { dest, op } => {
                        assert(v.operands()[0] == op);
                        assert(rq[op] == Set::<TitleKey>::empty());
                    },
                }
            }
            crate::optim::lemma_b_rewrite_preserves(v);
            assert(run_prog(e, q, n) == Result::<Map<RegID, Set<TitleKey>>, SolveError>::Ok(
                rq.insert(dest, Set::empty()),
            ));
            let rq2 = rq.insert(dest, Set::<TitleKey>::empty());
            // If this instruction is a trigger, the original stores the
            // empty set too.
            if v.ns_empty() {
                assert(sp == Set::<TitleKey>::empty()) by {
                    match v {
                        IView::SetLit { dest: d2, titles, cs } => {
                            lemma_filter_parsed_empty_ns(
                                titles.map_values(|t: Seq<char>| (e.parse)(t)),
                            );
                            assert(cs.ns == Option::Some(Set::<int>::empty())) by {
                                assert(cs.ns_empty());
                                assert(cs.ns->0 =~= Set::<int>::empty());
                            }
                        },
                        IView::LinkTo { dest: d2, op, cs } => {
                            assert(cs.ns == Option::Some(Set::<int>::empty())) by {
                                assert(cs.ns->0 =~= Set::<int>::empty());
                            }
                            if rp[op].len() != 0 {
                                assert(rp[op].len() == 1);
                                let t = crate::solve::the_elem(rp[op]);
                                assert((e.backlinks)(t, Option::Some(Set::empty()))
                                    =~= Set::<TitleKey>::empty()) by {
                                    assert forall|x: TitleKey|
                                        !(#[trigger] (e.backlinks)(
                                            t,
                                            Option::Some(Set::<int>::empty()),
                                        ).contains(x)) by {
                                        if (e.backlinks)(
                                            t,
                                            Option::Some(Set::<int>::empty()),
                                        ).contains(x) {
                                            assert(Set::<int>::empty().contains(x.ns));
                                        }
                                    }
                                }
                            }
                        },
                        IView::InCat { dest: d2, op, cs } => {
                            assert(cs.ns == Option::Some(Set::<int>::empty())) by {
                                assert(cs.ns->0 =~= Set::<int>::empty());
                            }
                            if rp[op].len() != 0 {
                                assert(rp[op].len() == 1);
                                let t = crate::solve::the_elem(rp[op]);
                                let dep = crate::solve::depth_of(cs);
                                assert((e.cat_members)(t, Option::Some(Set::empty()), dep)
                                    =~= Set::<TitleKey>::empty()) by {
                                    assert forall|x: TitleKey|
                                        !(#[trigger] (e.cat_members)(
                                            t,
                                            Option::Some(Set::<int>::empty()),
                                            dep,
                                        ).contains(x)) by {
                                        if (e.cat_members)(
                                            t,
                                            Option::Some(Set::<int>::empty()),
                                            dep,
                                        ).contains(x) {
                                            assert(Set::<int>::empty().contains(x.ns));
                                        }
                                    }
                                }
                            }
                        },
                        _ => {},
                    }
                }
            }
            lemma_b_rel_step(p, n, rp, rq, rp2, rq2, dest, sp, Set::empty(), marked, v.ns_empty());
        } else {
            assert(q[n - 1] == v);
            lemma_sem_congruence_b(e, v, p, n, rp, rq);
            assert(inst_sem(e, v, rq) == Result::<Set<TitleKey>, SolveError>::Ok(sp));
            assert(run_prog(e, q, n) == Result::<Map<RegID, Set<TitleKey>>, SolveError>::Ok(
                rq.insert(dest, sp),
            ));
            let rq2 = rq.insert(dest, sp);
            assert(!v.ns_empty()) by {
                if v.ns_empty() {
                    crate::optim::lemma_pass_b_marks_empty(p, n - 1);
                }
            }
            lemma_b_rel_step(p, n, rp, rq, rp2, rq2, dest, sp, sp, marked, false);
        }
    }
}

/// How one operand of the instruction at `n - 1` relates to the two runs.
spec fn op_case(p: Seq<IView>, n: int, x: RegID, marked: bool) -> bool {
    if marked {
        marked_dest(p, n - 1, x)
    } else {
        marked_dest(p, n - 1, x) ==> empty_dest(p, n - 1, x)
    }
}

/// Operand values agree for an unmarked instruction: untouched registers
/// agree outright, and an empty-restricted register is empty in both runs.
proof fn lemma_sem_congruence_b(
    e: ApiEnv,
    v: IView,
    p: Seq<IView>,
    n: int,
    rp: Map<RegID, Set<TitleKey>>,
    rq: Map<RegID, Set<TitleKey>>,
)
    requires
        b_rel(p, n - 1, rp, rq),
        forall|k: int| 0 <= k < v.operands().len() ==> rp.dom().contains(
            #[trigger] v.operands()[k],
        ),
        forall|k: int| 0 <= k < v.operands().len() ==> op_case(p, n, v.operands()[k], false),
    ensures
        inst_sem(e, v, rq) == inst_sem(e, v, rp),
{
    assert forall|k: int| 0 <= k < v.operands().len() implies rp[#[trigger] v.operands()[k]]
        == rq[v.operands()[k]] by {
        let x = v.operands()[k];
        if marked_dest(p, n - 1, x) {
            assert(empty_dest(p, n - 1, x));
            assert(rp[x] == Set::<TitleKey>::empty());
            assert(rq[x] == Set::<TitleKey>::empty());
        }
    }
    lemma_sem_congruence(e, v, rp, rq);
}

/// One step of the propagation relation: inserting the instruction's
/// destination on both sides keeps the relation.
proof fn lemma_b_rel_step(
    p: Seq<IView>,
    n: int,
    rp: Map<RegID, Set<TitleKey>>,
    rq: Map<RegID, Set<TitleKey>>,
    rp2: Map<RegID, Set<TitleKey>>,
    rq2: Map<RegID, Set<TitleKey>>,
    dest: RegID,
    sp: Set<TitleKey>,
    sq: Set<TitleKey>,
    marked: bool,
    is_trigger: bool,
)
    requires
        wf_prog(p),
        0 < n <= p.len(),
        b_rel(p, n - 1, rp, rq),
        dest == p[n - 1].dest(),
        rp2 == rp.insert(dest, sp),
        rq2 == rq.insert(dest, sq),
        marked == crate::optim::b_marked(p).contains(n - 1),
        is_trigger == p[n - 1].ns_empty(),
        marked ==> sq == Set::<TitleKey>::empty(),
        !marked ==> sq == sp,
        is_trigger ==> sp == Set::<TitleKey>::empty() && marked,
    ensures
        b_rel(p, n, rp2, rq2),
{
    assert(rp2.dom() =~= rq2.dom());
    assert forall|x: RegID| (#[trigger] rp2.dom().contains(x)) == defines_reg(p, n, x) by {
        lemma_defines_step(p, n, x);
    }
    assert forall|x: RegID| #[trigger] marked_dest(p, n, x) implies (marked_dest(p, n - 1, x)
        || (x == dest && marked)) by {
        let k = choose|k: int|
            0 <= k < n && (#[trigger] p[k].dest()) == x && crate::optim::b_marked(p).contains(k);
        if k < n - 1 {
        }
    }
    assert forall|x: RegID| #[trigger] empty_dest(p, n, x) implies (empty_dest(p, n - 1, x) || (
    x == dest && is_trigger)) by {
        let k = choose|k: int| 0 <= k < n && (#[trigger] p[k].dest()) == x && p[k].ns_empty();
        if k < n - 1 {
        }
    }
    assert forall|x: RegID| #[trigger] rp2.dom().contains(x) && !marked_dest(p, n, x) implies
        rp2[x] == rq2[x] by {
        if x == dest {
            assert(!marked) by {
                if marked {
                    assert(marked_dest(p, n, dest));
                }
            }
        } else {
            assert(!marked_dest(p, n - 1, x)) by {
                if marked_dest(p, n - 1, x) {
                    let k = choose|k: int|
                        0 <= k < n - 1 && (#[trigger] p[k].dest()) == x
                            && crate::optim::b_marked(p).contains(k);
                    assert(marked_dest(p, n, x));
                }
            }
        }
    }
    assert forall|x: RegID| #[trigger] marked_dest(p, n, x) implies rq2.dom().contains(x)
        && rq2[x] == Set::<TitleKey>::empty() by {
        if x == dest {
            if marked {
            } else {
                assert(marked_dest(p, n - 1, dest));
                let k = choose|k: int|
                    0 <= k < n - 1 && (#[trigger] p[k].dest()) == dest
                        && crate::optim::b_marked(p).contains(k);
                lemma_dest_unique_at_eq(p, k, n - 1);
            }
        } else {
            assert(marked_dest(p, n - 1, x));
        }
    }
    assert forall|x: RegID| #[trigger] empty_dest(p, n, x) implies rp2.dom().contains(x) && rp2[x]
        == Set::<TitleKey>::empty() by {
        if x == dest {
            if is_trigger {
            } else {
                assert(empty_dest(p, n - 1, x));
                let k = choose|k: int|
                    0 <= k < n - 1 && (#[trigger] p[k].dest()) == dest && p[k].ns_empty();
                lemma_dest_unique_at_eq(p, k, n - 1);
            }
        } else {
            assert(empty_dest(p, n - 1, x));
        }
    }
}

/// Two positions with the same destination are the same position.
proof fn lemma_dest_unique_at_eq(p: Seq<IView>, a: int, b: int)
    requires
        wf_prog(p),
        0 <= a < p.len(),
        0 <= b < p.len(),
        p[a].dest() == p[b].dest(),
    ensures
        a == b,
{
    if a != b {
        lemma_dest_unique_at(p, a, b);
    }
}

/// Empty-namespace propagation preserves what a query evaluates to, for
/// every well-formed, tree-shaped program whose solve succeeds against a
/// well-behaved deterministic wiki.  (A program whose solve fails can
/// genuinely change: collapsing the producers of an empty-restricted
/// instruction can remove a `QueryForMultiplePages` failure that the
/// unoptimized program would have raised inside the collapsed subtree.)
pub proof fn lemma_pass_b_preserves_solve(e: ApiEnv, p: Seq<IView>, result: RegID)
    requires
        wf_prog(p),
        tree_shaped(p, result),
        crate::solve::wf_env(e),
        run_prog(e, p, p.len() as int) is Ok,
    ensures
        solve_spec(e, crate::optim::spec_pass_b(p), result) == solve_spec(e, p, result),
{
    let q = crate::optim::spec_pass_b(p);
    crate::optim::lemma_pass_b_preserves(p);
    lemma_b_run(e, p, result, p.len() as int);
    let rp = run_prog(e, p, p.len() as int)->Ok_0;
    let rq = run_prog(e, q, q.len() as int)->Ok_0;
    assert(b_rel(p, p.len() as int, rp, rq));
    if rp.dom().contains(result) {
        if marked_dest(p, p.len() as int, result) {
            // A marked definition of the result register must itself be
            // empty-restricted: propagation reaches a register only as a
            // trigger or through its one consumer, and the result register
            // has no consumer.  Both runs then hold the empty set there.
            let k = choose|k: int|
                0 <= k < p.len() && (#[trigger] p[k].dest()) == result
                    && crate::optim::b_marked(p).contains(k);
            crate::optim::lemma_b_marks_triggers(p, 0);
            crate::optim::lemma_b_marked_at(p, 0, k);
            if !p[k].ns_empty() {
                let s = crate::optim::b_state(p, k + 1);
                assert(s.0.contains(p[k].dest()));
                lemma_b_pending_source(p, k + 1, result);
                let c = choose|c: int|
                    k + 1 <= c < p.len() && crate::optim::b_marked(p).contains(c) && (
                    #[trigger] p[c].operands()).to_set().contains(result);
                assert(p[c].operands().contains(result));
                let kc = choose|kc: int|
                    0 <= kc < p[c].operands().len() && p[c].operands()[kc] == result;
                assert(p[c].operands()[kc] != result);
                assert(false);
            }
            assert(empty_dest(p, p.len() as int, result));
            assert(rp[result] == Set::<TitleKey>::empty());
            assert(rq[result] == Set::<TitleKey>::empty());
        } else {
            assert(rp[result] == rq[result]);
        }
    }
}

/// Distinct positions of an ordered program have distinct destinations.
proof fn lemma_dest_unique_at(p: Seq<IView>, a: int, b: int)
    requires
        wf_prog(p),
        0 <= a < p.len(),
        0 <= b < p.len(),
        a != b,
    ensures
        p[a].dest() != p[b].dest(),
{
    if a < b {
        assert(p[a].dest() < p[b].dest());
    } else {
        assert(p[b].dest() < p[a].dest());
    }
}

/// A register defined by the first `n` instructions is in the register
/// file after them.
proof fn lemma_run_dom(e: ApiEnv, p: Seq<IView>, n: int, jj: int)
    requires
        0 <= jj < n <= p.len(),
        run_prog(e, p, n) is Ok,
    ensures
        run_prog(e, p, n)->Ok_0.dom().contains(p[jj].dest()),
    decreases n,
{
    if jj == n - 1 {
    } else {
        lemma_run_dom(e, p, n - 1, jj);
    }
}

/// No toggle's operand is produced by another toggle.
pub open spec fn toggle_pair_free(p: Seq<IView>) -> bool {
    forall|i: int, j: int|
        0 <= i < p.len() && 0 <= j < p.len() && (#[trigger] p[i]) is Toggle && (
        #[trigger] p[j]) is Toggle ==> p[j].dest() != p[i]->Toggle_op
}

/// Cancellation does nothing to a program without toggle pairs.
proof fn lemma_pass_a_identity_from(p: Seq<IView>, i: int)
    requires
        toggle_pair_free(p),
    ensures
        crate::optim::pass_a_from(p, i) == p,
    decreases p.len() - i,
{
    if i < 0 || i >= p.len() {
    } else {
        assert(crate::optim::pass_a_at(p, i) == p) by {
            match p[i] {
                IView::Toggle { dest: d, op: r } => {
                    match crate::optim::find_dest(p, r) {
                        Option::Some(j) => {
                            assert(0 <= j < p.len() && p[j].dest() == r);
                            match p[j] {
                                IView::Toggle { dest: d2, op: r2 } => {
                                    assert(p[j].dest() != p[i]->Toggle_op);
                                    assert(false);
                                },
                                _ => {},
                            }
                        },
                        Option::None => {},
                    }
                },
                _ => {},
            }
        }
        lemma_pass_a_identity_from(p, i + 1);
    }
}

/// A substitution with nothing in it changes nothing.
proof fn lemma_subst_empty(v: IView)
    ensures
        subst_iview(v, Map::empty()) == v,
{
}

/// No-op elision does nothing to a program without no-ops.
proof fn lemma_pass_d_identity_from(p: Seq<IView>, i: int, out: Seq<IView>)
    requires
        0 <= i <= p.len(),
        forall|k: int| 0 <= k < p.len() ==> !((#[trigger] p[k]) is Nop),
    ensures
        pass_d_from(p, i, Map::empty(), out) == (out.add(p.skip(i)), Map::<RegID, RegID>::empty()),
    decreases p.len() - i,
{
    if i >= p.len() {
        assert(out.add(p.skip(i)) =~= out);
    } else {
        lemma_subst_empty(p[i]);
        lemma_pass_d_identity_from(p, i + 1, out.push(p[i]));
        assert(out.push(p[i]).add(p.skip(i + 1)) =~= out.add(p.skip(i)));
    }
}

/// No no-op survives elision, and an instruction with an empty namespace
/// restriction survives it only if it went in with one: the elided
/// sequence holds substituted copies of the surviving instructions.
pub proof fn lemma_pass_d_no_nop(p: Seq<IView>, n: int)
    requires
        0 <= n <= p.len(),
    ensures
        forall|k: int|
            0 <= k < d_prefix(p, n).0.len() ==> !((#[trigger] d_prefix(p, n).0[k]) is Nop),
        (forall|k: int| 0 <= k < p.len() ==> !((#[trigger] p[k]).ns_empty())) ==> forall|k: int|
            0 <= k < d_prefix(p, n).0.len() ==> !((#[trigger] d_prefix(p, n).0[k]).ns_empty()),
    decreases n,
{
    if n > 0 {
        lemma_pass_d_no_nop(p, n - 1);
        match p[n - 1] {
            IView::Nop { .. } => {},
            _ => {
                let w = subst_iview(p[n - 1], d_prefix(p, n - 1).1);
                assert(!(w is Nop));
                assert(w.ns_empty() == p[n - 1].ns_empty());
            },
        }
    }
}

/// After the whole elision pass, no no-op remains.
pub proof fn lemma_spec_pass_d_no_nop(p: Seq<IView>)
    ensures
        forall|k: int|
            0 <= k < spec_pass_d(p).0.len() ==> !((#[trigger] spec_pass_d(p).0[k]) is Nop),
{
    lemma_d_split(p, p.len() as int);
    lemma_pass_d_no_nop(p, p.len() as int);
}

/// The optimizer does nothing to a program already in its normal form:
/// ordered, with no no-op, no empty namespace restriction, and no toggle
/// fed by a toggle.  On such programs optimizing twice is optimizing
/// once.
pub proof fn lemma_optimize_identity_on_normal(p: Seq<IView>, result: RegID)
    requires
        toggle_pair_free(p),
        forall|k: int| 0 <= k < p.len() ==> !((#[trigger] p[k]) is Nop),
        forall|k: int| 0 <= k < p.len() ==> !((#[trigger] p[k]).ns_empty()),
    ensures
        crate::optim::spec_optimize(p, result) == (p, result),
{
    lemma_pass_a_identity_from(p, 0);
    crate::optim::lemma_pass_b_identity(p);
    lemma_pass_d_identity_from(p, 0, Seq::empty());
    assert(Seq::<IView>::empty().add(p.skip(0)) =~= p);
    assert(sub_get(Map::<RegID, RegID>::empty(), result) == result);
}

/// The optimizer preserves what a query evaluates to.  For every
/// well-formed, tree-shaped program whose solve succeeds against a
/// well-behaved deterministic wiki, solving the optimized query — its
/// rewritten instruction sequence at its substituted result register —
/// gives exactly what solving the original gives.
pub proof fn lemma_optimize_preserves_solve(e: ApiEnv, p: Seq<IView>, result: RegID)
    requires
        wf_prog(p),
        tree_shaped(p, result),
        crate::solve::wf_env(e),
        run_prog(e, p, p.len() as int) is Ok,
    ensures
        solve_spec(
            e,
            crate::optim::spec_optimize(p, result).0,
            crate::optim::spec_optimize(p, result).1,
        ) == solve_spec(e, p, result),
{
    let a = crate::optim::spec_pass_a(p);
    lemma_pass_a_preserves_solve(e, p, result);
    crate::optim::lemma_pass_a_from_preserves(p, 0);
    lemma_shape_carries(p, a, result);
    let b = crate::optim::spec_pass_b(a);
    lemma_pass_b_preserves_solve(e, a, result);
    crate::optim::lemma_pass_b_preserves(a);
    lemma_shape_carries(a, b, result);
    lemma_pass_d_preserves_solve(e, b, result);
}

} // verus!
