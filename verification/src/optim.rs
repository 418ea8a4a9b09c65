//! The optimizer: a fixed pipeline of rewrites over the instruction
//! sequence.  Toggle pairs cancel, empty-namespace facts propagate through
//! the producer graph, and identity instructions are elided; every pass
//! keeps the sequence ordered by destination.

use vstd::prelude::*;
use crate::ir::{
    defs_before_use, prog_view, sorted_by_dest, CsView, IView, Instruction, Query, RegID,
    SetConstraint,
};

verus! {

/// The index of the instruction defining register `r`, if any.
pub open spec fn find_dest(p: Seq<IView>, r: RegID) -> Option<int> {
    if exists|j: int| 0 <= j < p.len() && (#[trigger] p[j].dest()) == r {
        Option::Some(choose|j: int| 0 <= j < p.len() && (#[trigger] p[j].dest()) == r)
    } else {
        Option::None
    }
}

/// In an ordered program a destination determines its instruction.
pub proof fn lemma_dest_unique(p: Seq<IView>, i: int, j: int)
    requires
        sorted_by_dest(p),
        0 <= i < p.len(),
        0 <= j < p.len(),
        p[i].dest() == p[j].dest(),
    ensures
        i == j,
{
    if i < j {
        assert(p[i].dest() < p[j].dest());
    }
    if j < i {
        assert(p[j].dest() < p[i].dest());
    }
}

/// Find the instruction defining `reg` by binary search on destinations.
pub fn find_by_dest(ir: &Vec<Instruction>, reg: RegID) -> (r: Option<usize>)
    requires
        sorted_by_dest(prog_view(ir@)),
    ensures
        match r {
            Option::Some(i) => i < ir@.len() && prog_view(ir@)[i as int].dest() == reg,
            Option::None => forall|j: int|
                0 <= j < ir@.len() ==> (#[trigger] prog_view(ir@)[j].dest()) != reg,
        },
        match r {
            Option::Some(i) => find_dest(prog_view(ir@), reg) == Option::Some(i as int),
            Option::None => find_dest(prog_view(ir@), reg) is None,
        },
{
    let ghost p = prog_view(ir@);
    let mut lo: usize = 0;
    let mut hi: usize = ir.len();
    while lo < hi
        invariant
            0 <= lo <= hi <= ir@.len(),
            p == prog_view(ir@),
            p.len() == ir@.len(),
            sorted_by_dest(p),
            forall|j: int| 0 <= j < lo ==> (#[trigger] p[j].dest()) < reg,
            forall|j: int| hi <= j < p.len() ==> (#[trigger] p[j].dest()) > reg,
        decreases hi - lo,
    {
        let mid = lo + (hi - lo) / 2;
        let d = ir[mid].get_dest();
        proof {
            assert(p[mid as int].dest() == d);
        }
        if d == reg {
            proof {
                let j = choose|j: int| 0 <= j < p.len() && (#[trigger] p[j].dest()) == reg;
                lemma_dest_unique(p, mid as int, j);
            }
            return Option::Some(mid);
        } else if d < reg {
            lo = mid + 1;
        } else {
            hi = mid;
        }
    }
    proof {
        if exists|j: int| 0 <= j < p.len() && (#[trigger] p[j].dest()) == reg {
            let j = choose|j: int| 0 <= j < p.len() && (#[trigger] p[j].dest()) == reg;
            assert(p[j].dest() != reg);
        }
    }
    Option::None
}

/// One step of toggle-pair cancellation: if instruction `i` is a toggle
/// whose operand is produced by another toggle, both become no-ops.
pub open spec fn pass_a_at(p: Seq<IView>, i: int) -> Seq<IView> {
    if !(0 <= i < p.len()) {
        p
    } else {
        pass_a_at_in(p, i)
    }
}

/// The in-range case of one cancellation step.
pub open spec fn pass_a_at_in(p: Seq<IView>, i: int) -> Seq<IView> {
    match p[i] {
        IView::Toggle { dest: d, op: r } => match find_dest(p, r) {
            Option::Some(j) => match p[j] {
                IView::Toggle { dest: d2, op: r2 } => p.update(
                    i,
                    IView::Nop { dest: d, op: r },
                ).update(j, IView::Nop { dest: d2, op: r2 }),
                _ => p,
            },
            Option::None => p,
        },
        _ => p,
    }
}

/// Toggle-pair cancellation scanned from instruction `i` on.
pub open spec fn pass_a_from(p: Seq<IView>, i: int) -> Seq<IView>
    decreases p.len() - i,
{
    if i < 0 || i >= p.len() {
        p
    } else {
        pass_a_from(pass_a_at(p, i), i + 1)
    }
}

/// Toggle-pair cancellation over the whole program.
pub open spec fn spec_pass_a(p: Seq<IView>) -> Seq<IView> {
    pass_a_from(p, 0)
}

/// One cancellation step never changes lengths, destinations or operands.
pub proof fn lemma_pass_a_at_preserves(p: Seq<IView>, i: int)
    ensures
        pass_a_at(p, i).len() == p.len(),
        forall|k: int|
            0 <= k < p.len() ==> (#[trigger] pass_a_at(p, i)[k]).dest() == p[k].dest(),
        forall|k: int|
            0 <= k < p.len() ==> (#[trigger] pass_a_at(p, i)[k]).operands() == p[k].operands(),
{
    let q = pass_a_at(p, i);
    if 0 <= i < p.len() {
        match p[i] {
            IView::Toggle { dest: d, op: r } => {
                match find_dest(p, r) {
                    Option::Some(j) => {
                        assert(0 <= j < p.len() && p[j].dest() == r);
                        match p[j] {
                            IView::Toggle { dest: d2, op: r2 } => {
                                assert forall|k: int|
                                    0 <= k < p.len() implies (#[trigger] q[k]).dest()
                                    == p[k].dest() && q[k].operands() == p[k].operands() by {
                                    if k == j {
                                        assert(q[k] == (IView::Nop { dest: d2, op: r2 }));
                                        assert(q[k].operands() =~= p[k].operands());
                                    } else if k == i {
                                        assert(q[k] == (IView::Nop { dest: d, op: r }));
                                        assert(q[k].operands() =~= p[k].operands());
                                    }
                                }
                            },
                            _ => {},
                        }
                    },
                    _ => {},
                }
            },
            _ => {},
        }
    }
}

/// Cancellation from any point never changes lengths, destinations or
/// operands.
pub proof fn lemma_pass_a_from_preserves(p: Seq<IView>, i: int)
    ensures
        pass_a_from(p, i).len() == p.len(),
        forall|k: int|
            0 <= k < p.len() ==> (#[trigger] pass_a_from(p, i)[k]).dest() == p[k].dest(),
        forall|k: int|
            0 <= k < p.len() ==> (#[trigger] pass_a_from(p, i)[k]).operands() == p[k].operands(),
    decreases p.len() - i,
{
    if i < 0 || i >= p.len() {
    } else {
        lemma_pass_a_at_preserves(p, i);
        lemma_pass_a_from_preserves(pass_a_at(p, i), i + 1);
    }
}

/// Cancellation preserves ordering and definition order.
pub proof fn lemma_pass_a_wf(p: Seq<IView>)
    requires
        sorted_by_dest(p),
    ensures
        sorted_by_dest(spec_pass_a(p)),
        defs_before_use(p) ==> defs_before_use(spec_pass_a(p)),
{
    lemma_pass_a_from_preserves(p, 0);
    let q = spec_pass_a(p);
    if defs_before_use(p) {
        assert forall|i: int, k: int|
            #![trigger q[i].operands()[k]]
            0 <= i < q.len() && 0 <= k < q[i].operands().len() implies crate::ir::defines_reg(
            q,
            i,
            q[i].operands()[k],
        ) by {
            assert(q[i].operands() == p[i].operands());
            assert(0 <= k < p[i].operands().len());
            assert(q[i].operands()[k] == p[i].operands()[k]);
            assert(crate::ir::defines_reg(p, i, p[i].operands()[k]));
            let j = choose|j: int|
                0 <= j < i && (#[trigger] p[j].dest()) == (p[i].operands()[k]);
            assert(0 <= j < i);
            assert(q[j].dest() == p[j].dest());
            assert(q[j].dest() == q[i].operands()[k]);
        }
    }
}

/// Pass A: cancel producer/consumer toggle pairs.  The toggle is an
/// involution, so a toggle fed directly by another toggle computes the
/// inner operand back; both instructions become no-ops and are elided by
/// the no-op pass.
pub fn remove_redundant_toggle(ir: &mut Vec<Instruction>)
    requires
        sorted_by_dest(prog_view(old(ir)@)),
    ensures
        prog_view(final(ir)@) == spec_pass_a(prog_view(old(ir)@)),
        final(ir)@.len() == old(ir)@.len(),
{
    let ghost orig = prog_view(old(ir)@);
    let mut idx: usize = 0;
    let len = ir.len();
    proof {
        lemma_pass_a_from_preserves(orig, 0);
    }
    while idx < len
        invariant
            len == ir@.len(),
            0 <= idx <= len,
            spec_pass_a(orig) == pass_a_from(prog_view(ir@), idx as int),
            sorted_by_dest(prog_view(ir@)),
        decreases len - idx,
    {
        let ghost before = prog_view(ir@);
        let is_tog: bool;
        let cur_d: RegID;
        let cur_r: RegID;
        match &ir[idx] {
            Instruction::Toggle { dest, op } => {
                is_tog = true;
                cur_d = *dest;
                cur_r = *op;
            },
            _ => {
                is_tog = false;
                cur_d = 0;
                cur_r = 0;
            },
        }
        if is_tog {
            let found = find_by_dest(ir, cur_r);
            match found {
                Option::Some(idx2) => {
                    let is2: bool;
                    let d2: RegID;
                    let r2: RegID;
                    match &ir[idx2] {
                        Instruction::Toggle { dest, op } => {
                            is2 = true;
                            d2 = *dest;
                            r2 = *op;
                        },
                        _ => {
                            is2 = false;
                            d2 = 0;
                            r2 = 0;
                        },
                    }
                    if is2 {
                        ir[idx] = Instruction::Nop { dest: cur_d, op: cur_r };
                        ir[idx2] = Instruction::Nop { dest: d2, op: r2 };
                        proof {
                            assert(find_dest(before, cur_r) == Option::Some(idx2 as int));
                            assert(prog_view(ir@) =~= pass_a_at(before, idx as int));
                        }
                    } else {
                        proof {
                            assert(find_dest(before, cur_r) == Option::Some(idx2 as int));
                            assert(pass_a_at(before, idx as int) == before);
                        }
                    }
                },
                Option::None => {
                    proof {
                        assert(pass_a_at(before, idx as int) == before);
                    }
                },
            }
        } else {
            proof {
                assert(pass_a_at(before, idx as int) == before);
            }
        }
        proof {
            lemma_pass_a_at_preserves(before, idx as int);
            assert(pass_a_from(before, idx as int) == pass_a_from(
                pass_a_at(before, idx as int),
                idx as int + 1,
            ));
            assert(prog_view(ir@) == pass_a_at(before, idx as int) || prog_view(ir@) == before);
            if prog_view(ir@) == before {
                assert(pass_a_at(before, idx as int) == before);
            }
            assert forall|a: int, b: int|
                0 <= a < b < prog_view(ir@).len() implies (#[trigger] prog_view(ir@)[a]).dest()
                < (#[trigger] prog_view(ir@)[b]).dest() by {
                assert(prog_view(ir@)[a].dest() == before[a].dest());
                assert(prog_view(ir@)[b].dest() == before[b].dest());
            }
        }
        idx += 1;
    }
}

/// A bag of register names awaiting a visit, viewed as a set.
struct RegPend {
    v: Vec<RegID>,
}

impl View for RegPend {
    type V = Set<RegID>;

    closed spec fn view(&self) -> Set<RegID> {
        self.v@.to_set()
    }
}

impl RegPend {
    fn new() -> (s: RegPend)
        ensures
            s@ == Set::<RegID>::empty(),
    {
        let s = RegPend { v: Vec::new() };
        proof {
            assert(s@ =~= Set::<RegID>::empty());
        }
        s
    }

    fn contains(&self, r: RegID) -> (b: bool)
        ensures
            b == self@.contains(r),
    {
        let mut i: usize = 0;
        let len = self.v.len();
        while i < len
            invariant
                len == self.v@.len(),
                0 <= i <= len,
                forall|k: int| 0 <= k < i ==> self.v@[k] != r,
            decreases len - i,
        {
            if self.v[i] == r {
                assert(self.v@.contains(r));
                return true;
            }
            i += 1;
        }
        assert(!self.v@.contains(r));
        false
    }

    fn insert(&mut self, r: RegID)
        ensures
            final(self)@ == old(self)@.insert(r),
    {
        self.v.push(r);
        proof {
            assert(self.v@.drop_last() == old(self).v@);
            assert(final(self)@ =~= old(self)@.insert(r)) by {
                assert forall|x: RegID| self.v@.to_set().contains(x) implies old(self).v@.to_set()
                    .insert(r).contains(x) by {
                    let k = choose|k: int| 0 <= k < self.v@.len() && self.v@[k] == x;
                    if k < old(self).v@.len() {
                        assert(old(self).v@.contains(x));
                    }
                }
                assert forall|x: RegID| old(self).v@.to_set().insert(r).contains(x) implies self
                    .v@.to_set().contains(x) by {
                    if x == r {
                        assert(self.v@[self.v@.len() - 1] == r);
                        assert(self.v@.contains(r));
                    } else {
                        let k = choose|k: int|
                            0 <= k < old(self).v@.len() && old(self).v@[k] == x;
                        assert(self.v@[k] == x);
                        assert(self.v@.contains(x));
                    }
                }
            }
        }
    }
}

/// How empty-namespace propagation rewrites a visited instruction: leaves
/// are emptied, unary relational operators become no-ops, combining
/// instructions are left for the no-op pass to fold.
pub open spec fn b_rewrite(v: IView) -> IView {
    match v {
        IView::SetLit { dest, .. } => IView::SetLit {
            dest,
            titles: Seq::empty(),
            cs: CsView::free(),
        },
        IView::LinkTo { dest, op, .. } => IView::Nop { dest, op },
        IView::InCat { dest, op, .. } => IView::Nop { dest, op },
        IView::Prefix { dest, op } => IView::Nop { dest, op },
        IView::Toggle { dest, op } => IView::Nop { dest, op },
        other => other,
    }
}

/// The state of the backwards propagation walk once every instruction at
/// or after position `i` has been visited: the registers still awaiting
/// their producer, and the positions rewritten.
pub open spec fn b_state(p: Seq<IView>, i: int) -> (Set<RegID>, Set<int>)
    decreases p.len() - i,
{
    if i < 0 || i >= p.len() {
        (Set::empty(), Set::empty())
    } else {
        let s = b_state(p, i + 1);
        if p[i].ns_empty() || s.0.contains(p[i].dest()) {
            (s.0.union(p[i].operands().to_set()), s.1.insert(i))
        } else {
            s
        }
    }
}

/// The positions that empty-namespace propagation rewrites.
pub open spec fn b_marked(p: Seq<IView>) -> Set<int> {
    b_state(p, 0).1
}

/// The program after empty-namespace propagation.
pub open spec fn spec_pass_b(p: Seq<IView>) -> Seq<IView> {
    Seq::new(p.len(), |i: int| if b_marked(p).contains(i) {
        b_rewrite(p[i])
    } else {
        p[i]
    })
}

/// The rewrite of a visited instruction keeps its destination and
/// operands.
pub proof fn lemma_b_rewrite_preserves(v: IView)
    ensures
        b_rewrite(v).dest() == v.dest(),
        b_rewrite(v).operands() == v.operands(),
        !b_rewrite(v).ns_empty(),
{
    match v {
        IView::SetLit { .. } => {
            assert(b_rewrite(v).operands() =~= v.operands());
        },
        IView::LinkTo { dest, op, .. } => {
            assert(b_rewrite(v).operands() =~= v.operands());
        },
        IView::InCat { dest, op, .. } => {
            assert(b_rewrite(v).operands() =~= v.operands());
        },
        IView::Prefix { dest, op } => {
            assert(b_rewrite(v).operands() =~= v.operands());
        },
        IView::Toggle { dest, op } => {
            assert(b_rewrite(v).operands() =~= v.operands());
        },
        _ => {},
    }
}

/// Propagation keeps lengths, destinations and operands, and leaves no
/// instruction with an empty namespace constraint.
pub proof fn lemma_pass_b_preserves(p: Seq<IView>)
    ensures
        spec_pass_b(p).len() == p.len(),
        forall|k: int|
            0 <= k < p.len() ==> (#[trigger] spec_pass_b(p)[k]).dest() == p[k].dest(),
        forall|k: int|
            0 <= k < p.len() ==> (#[trigger] spec_pass_b(p)[k]).operands() == p[k].operands(),
        forall|k: int| 0 <= k < p.len() ==> !(#[trigger] spec_pass_b(p)[k]).ns_empty(),
        sorted_by_dest(p) ==> sorted_by_dest(spec_pass_b(p)),
        defs_before_use(p) ==> defs_before_use(spec_pass_b(p)),
{
    let q = spec_pass_b(p);
    lemma_b_marks_triggers(p, 0);
    assert forall|k: int|
        0 <= k < p.len() implies (#[trigger] q[k]).dest() == p[k].dest() && q[k].operands()
        == p[k].operands() && !q[k].ns_empty() by {
        if b_marked(p).contains(k) {
            lemma_b_rewrite_preserves(p[k]);
        } else {
            assert(!p[k].ns_empty());
        }
    }
    if defs_before_use(p) {
        assert forall|i: int, k: int|
            #![trigger q[i].operands()[k]]
            0 <= i < q.len() && 0 <= k < q[i].operands().len() implies crate::ir::defines_reg(
            q,
            i,
            q[i].operands()[k],
        ) by {
            assert(q[i].operands() == p[i].operands());
            assert(crate::ir::defines_reg(p, i, p[i].operands()[k]));
            let j = choose|j: int| 0 <= j < i && (#[trigger] p[j].dest()) == (p[i].operands()[k]);
            assert(q[j].dest() == p[j].dest());
            assert(q[j].dest() == q[i].operands()[k]);
        }
    }
}

/// Every instruction whose constraint names an empty namespace set is
/// visited by the walk, at or after position `i`.
pub proof fn lemma_b_marks_triggers(p: Seq<IView>, i: int)
    requires
        0 <= i,
    ensures
        forall|k: int|
            i <= k < p.len() && (#[trigger] p[k]).ns_empty() ==> b_state(p, i).1.contains(k),
        forall|k: int| b_state(p, i).1.contains(k) ==> i <= k < p.len(),
    decreases p.len() - i,
{
    if i < 0 || i >= p.len() {
    } else {
        lemma_b_marks_triggers(p, i + 1);
        let s = b_state(p, i + 1);
        let cur = b_state(p, i);
        assert forall|k: int|
            i <= k < p.len() && (#[trigger] p[k]).ns_empty() implies cur.1.contains(k) by {
            if k == i {
                assert(cur.1 == s.1.insert(i));
            } else {
                assert(s.1.contains(k));
                if p[i].ns_empty() || s.0.contains(p[i].dest()) {
                    assert(cur.1 == s.1.insert(i));
                } else {
                    assert(cur.1 == s.1);
                }
            }
        }
        assert forall|k: int| cur.1.contains(k) implies i <= k < p.len() by {
            if p[i].ns_empty() || s.0.contains(p[i].dest()) {
                assert(cur.1 == s.1.insert(i));
                if k != i {
                    assert(s.1.contains(k));
                }
            } else {
                assert(cur.1 == s.1);
                assert(s.1.contains(k));
            }
        }
    }
}

/// When no instruction carries an empty namespace set, propagation is the
/// identity.
pub proof fn lemma_pass_b_identity(p: Seq<IView>)
    requires
        forall|k: int| 0 <= k < p.len() ==> !(#[trigger] p[k]).ns_empty(),
    ensures
        spec_pass_b(p) == p,
{
    lemma_b_state_trivial(p, 0);
    assert(spec_pass_b(p) =~= p);
}

/// With no trigger anywhere, the walk does nothing.
proof fn lemma_b_state_trivial(p: Seq<IView>, i: int)
    requires
        forall|k: int| 0 <= k < p.len() ==> !(#[trigger] p[k]).ns_empty(),
    ensures
        b_state(p, i) == (Set::<RegID>::empty(), Set::<int>::empty()),
    decreases p.len() - i,
{
    if i < 0 || i >= p.len() {
    } else {
        lemma_b_state_trivial(p, i + 1);
    }
}

/// Earlier walk states hold everything later ones do: the walk only adds
/// pending registers and marks as it moves down.
pub proof fn lemma_b_state_mono(p: Seq<IView>, i: int, j: int)
    requires
        0 <= i <= j,
    ensures
        b_state(p, j).0.subset_of(b_state(p, i).0),
        b_state(p, j).1.subset_of(b_state(p, i).1),
    decreases j - i,
{
    if i < j {
        lemma_b_state_mono(p, i + 1, j);
        let s = b_state(p, i + 1);
        if 0 <= i < p.len() && (p[i].ns_empty() || s.0.contains(p[i].dest())) {
            assert(b_state(p, i).0 == s.0.union(p[i].operands().to_set()));
            assert(b_state(p, i).1 == s.1.insert(i));
        }
    }
}

/// A position is marked exactly at its own step, and its operands then
/// join the pending registers.
pub proof fn lemma_b_marked_at(p: Seq<IView>, i: int, j: int)
    requires
        0 <= i <= j,
        b_state(p, i).1.contains(j),
    ensures
        p[j].operands().to_set().subset_of(b_state(p, j).0),
        p[j].ns_empty() || b_state(p, j + 1).0.contains(p[j].dest()),
    decreases j - i,
{
    lemma_b_marks_triggers(p, i);
    if i == j {
        let s = b_state(p, i + 1);
        lemma_b_marks_triggers(p, i + 1);
        assert(0 <= i < p.len());
        assert(p[i].ns_empty() || s.0.contains(p[i].dest())) by {
            if !(p[i].ns_empty() || s.0.contains(p[i].dest())) {
                assert(b_state(p, i) == s);
                assert(s.1.contains(i));
            }
        }
        assert(b_state(p, i).0 == s.0.union(p[i].operands().to_set()));
    } else {
        let s = b_state(p, i + 1);
        if 0 <= i < p.len() && (p[i].ns_empty() || s.0.contains(p[i].dest())) {
            assert(b_state(p, i).1 == s.1.insert(i));
        }
        assert(s.1.contains(j));
        lemma_b_marked_at(p, i + 1, j);
    }
}

/// The marked positions are closed under producers: the producer of any
/// operand of a marked instruction is marked too.  Together with
/// `lemma_pass_b_marks_empty` and `lemma_pass_b_rewrites_marked`, this is
/// the empty-namespace annihilation law: every instruction reachable
/// through operands from one whose constraint names the empty namespace
/// set is rewritten, so no relational operator — and hence no wiki
/// request — survives anywhere in that instruction's producer subtree.
pub proof fn lemma_b_marked_closed(p: Seq<IView>, j: int, k: int, m: int)
    requires
        sorted_by_dest(p),
        b_marked(p).contains(j),
        0 <= k < p[j].operands().len(),
        0 <= m < p.len(),
        m < j,
        p[m].dest() == p[j].operands()[k],
    ensures
        b_marked(p).contains(m),
{
    lemma_b_marks_triggers(p, 0);
    lemma_b_marked_at(p, 0, j);
    let op = p[j].operands()[k];
    assert(p[j].operands().to_set().contains(op)) by {
        assert(p[j].operands().contains(op));
    }
    assert(b_state(p, j).0.contains(op));
    lemma_b_state_mono(p, m + 1, j);
    assert(b_state(p, m + 1).0.contains(p[m].dest()));
    assert(b_state(p, m).1.contains(m));
    lemma_b_state_mono(p, 0, m);
}

/// Every instruction whose constraint names the empty namespace set is
/// marked for rewriting.
pub proof fn lemma_pass_b_marks_empty(p: Seq<IView>, t: int)
    requires
        0 <= t < p.len(),
        p[t].ns_empty(),
    ensures
        b_marked(p).contains(t),
{
    lemma_b_marks_triggers(p, 0);
}

/// After the pass, no marked position holds a relational operator: the
/// wiki is never asked for a register known to be empty.
pub proof fn lemma_pass_b_rewrites_marked(p: Seq<IView>, j: int)
    requires
        0 <= j < p.len(),
        b_marked(p).contains(j),
    ensures
        !(spec_pass_b(p)[j] is LinkTo),
        !(spec_pass_b(p)[j] is InCat),
        !(spec_pass_b(p)[j] is Prefix),
        !(spec_pass_b(p)[j] is Toggle),
{
}

/// Pass B: empty-namespace propagation.  An instruction constrained to an
/// empty namespace set can only produce the empty set, so the whole
/// producer subtree feeding it is collapsed: relational operators become
/// no-ops (preventing their wiki requests) and literal leaves are emptied.
pub fn remove_empty_ns(ir: &mut Vec<Instruction>)
    requires
        sorted_by_dest(prog_view(old(ir)@)),
    ensures
        prog_view(final(ir)@) == spec_pass_b(prog_view(old(ir)@)),
        final(ir)@.len() == old(ir)@.len(),
{
    let ghost orig = prog_view(old(ir)@);
    let mut pending = RegPend::new();
    let mut i: usize = ir.len();
    while i > 0
        invariant
            ir@.len() == orig.len(),
            0 <= i <= orig.len(),
            pending@ == b_state(orig, i as int).0,
            forall|j: int| 0 <= j < i ==> (#[trigger] prog_view(ir@)[j]) == orig[j],
            forall|j: int|
                i <= j < orig.len() ==> (#[trigger] prog_view(ir@)[j]) == (if b_state(
                    orig,
                    i as int,
                ).1.contains(j) {
                    b_rewrite(orig[j])
                } else {
                    orig[j]
                }),
        decreases i,
    {
        i -= 1;
        let ghost prev_ir = ir@;
        let ghost pend0 = pending@;
        let hit = ir[i].ns_empty();
        let dest = ir[i].get_dest();
        proof {
            assert(prog_view(ir@)[i as int] == orig[i as int]);
        }
        if hit || pending.contains(dest) {
            match &ir[i] {
                Instruction::SetLit { dest, .. } => {
                    let d = *dest;
                    ir[i] = Instruction::SetLit {
                        dest: d,
                        titles: Vec::new(),
                        cs: SetConstraint::unconstrained(),
                    };
                    proof {
                        assert(Seq::<String>::empty().map_values(|s: String| s@)
                            =~= Seq::<Seq<char>>::empty());
                        assert(prog_view(ir@)[i as int] == b_rewrite(orig[i as int]));
                    }
                },
                Instruction::LinkTo { dest, op, .. } => {
                    let d = *dest;
                    let o = *op;
                    ir[i] = Instruction::Nop { dest: d, op: o };
                    pending.insert(o);
                },
                Instruction::InCat { dest, op, .. } => {
                    let d = *dest;
                    let o = *op;
                    ir[i] = Instruction::Nop { dest: d, op: o };
                    pending.insert(o);
                },
                Instruction::Prefix { dest, op } => {
                    let d = *dest;
                    let o = *op;
                    ir[i] = Instruction::Nop { dest: d, op: o };
                    pending.insert(o);
                },
                Instruction::Toggle { dest, op } => {
                    let d = *dest;
                    let o = *op;
                    ir[i] = Instruction::Nop { dest: d, op: o };
                    pending.insert(o);
                },
                Instruction::Nop { op, .. } => {
                    let o = *op;
                    pending.insert(o);
                },
                Instruction::And { op1, op2, .. } => {
                    let o1 = *op1;
                    let o2 = *op2;
                    pending.insert(o1);
                    pending.insert(o2);
                },
                Instruction::Or { op1, op2, .. } => {
                    let o1 = *op1;
                    let o2 = *op2;
                    pending.insert(o1);
                    pending.insert(o2);
                },
                Instruction::Exclude { op1, op2, .. } => {
                    let o1 = *op1;
                    let o2 = *op2;
                    pending.insert(o1);
                    pending.insert(o2);
                },
                Instruction::Xor { op1, op2, .. } => {
                    let o1 = *op1;
                    let o2 = *op2;
                    pending.insert(o1);
                    pending.insert(o2);
                },
            }
            proof {
                let s_new = b_state(orig, i as int);
                let s_old = b_state(orig, i as int + 1);
                assert(s_new.1 == s_old.1.insert(i as int));
                assert(s_new.0 == s_old.0.union(orig[i as int].operands().to_set()));
                assert(pending@ =~= s_new.0) by {
                    lemma_operands_to_set(orig[i as int]);
                }
                assert(prog_view(ir@)[i as int] == b_rewrite(orig[i as int]));
            }
        } else {
            proof {
                assert(b_state(orig, i as int) == b_state(orig, i as int + 1));
                assert(!b_state(orig, i as int).1.contains(i as int)) by {
                    lemma_b_marks_triggers(orig, i as int + 1);
                }
            }
        }
        proof {
            let s_new = b_state(orig, i as int);
            let s_old = b_state(orig, i as int + 1);
            assert forall|j: int|
                0 <= j < orig.len() && j != i as int implies #[trigger] ir@[j] == prev_ir[j] by {}
            assert forall|j: int| 0 <= j < i as int implies (#[trigger] prog_view(ir@)[j])
                == orig[j] by {
                assert(ir@[j] == prev_ir[j]);
                assert(prog_view(prev_ir)[j] == orig[j]);
            }
            assert forall|j: int|
                i as int <= j < orig.len() implies (#[trigger] prog_view(ir@)[j]) == (if s_new.1
                .contains(j) {
                b_rewrite(orig[j])
            } else {
                orig[j]
            }) by {
                if j != i as int {
                    assert(ir@[j] == prev_ir[j]);
                    assert(prog_view(ir@)[j] == prog_view(prev_ir)[j]);
                    assert(s_new.1.contains(j) == s_old.1.contains(j)) by {
                        lemma_b_marks_triggers(orig, i as int + 1);
                        if s_new.1 != s_old.1 {
                            assert(s_new.1 == s_old.1.insert(i as int));
                        }
                    }
                }
            }
        }
    }
    proof {
        assert(prog_view(ir@) =~= spec_pass_b(orig));
    }
}

/// Look a register up in a substitution; unmapped registers stay put.
pub open spec fn sub_get(m: Map<RegID, RegID>, r: RegID) -> RegID {
    if m.dom().contains(r) {
        m[r]
    } else {
        r
    }
}

/// Apply a register substitution to an instruction's operands.
pub open spec fn subst_iview(v: IView, m: Map<RegID, RegID>) -> IView {
    match v {
        IView::SetLit { dest, titles, cs } => IView::SetLit { dest, titles, cs },
        IView::And { dest, op1, op2 } => IView::And {
            dest,
            op1: sub_get(m, op1),
            op2: sub_get(m, op2),
        },
        IView::Or { dest, op1, op2 } => IView::Or {
            dest,
            op1: sub_get(m, op1),
            op2: sub_get(m, op2),
        },
        IView::Exclude { dest, op1, op2 } => IView::Exclude {
            dest,
            op1: sub_get(m, op1),
            op2: sub_get(m, op2),
        },
        IView::Xor { dest, op1, op2 } => IView::Xor {
            dest,
            op1: sub_get(m, op1),
            op2: sub_get(m, op2),
        },
        IView::LinkTo { dest, op, cs } => IView::LinkTo { dest, op: sub_get(m, op), cs },
        IView::InCat { dest, op, cs } => IView::InCat { dest, op: sub_get(m, op), cs },
        IView::Prefix { dest, op } => IView::Prefix { dest, op: sub_get(m, op) },
        IView::Toggle { dest, op } => IView::Toggle { dest, op: sub_get(m, op) },
        IView::Nop { dest, op } => IView::Nop { dest, op: sub_get(m, op) },
    }
}

/// No-op elision from position `i` on: a no-op is dropped and its
/// destination thereafter reads as its (already substituted) operand;
/// every other instruction is kept with substituted operands.
pub open spec fn pass_d_from(
    p: Seq<IView>,
    i: int,
    m: Map<RegID, RegID>,
    out: Seq<IView>,
) -> (Seq<IView>, Map<RegID, RegID>)
    decreases p.len() - i,
{
    if i < 0 || i >= p.len() {
        (out, m)
    } else {
        match p[i] {
            IView::Nop { dest, op } => pass_d_from(p, i + 1, m.insert(dest, sub_get(m, op)), out),
            _ => pass_d_from(p, i + 1, m, out.push(subst_iview(p[i], m))),
        }
    }
}

/// No-op elision over the whole program: the surviving instructions and
/// the final register substitution.
pub open spec fn spec_pass_d(p: Seq<IView>) -> (Seq<IView>, Map<RegID, RegID>) {
    pass_d_from(p, 0, Map::empty(), Seq::empty())
}

/// A register substitution stored as an association vector; later entries
/// shadow earlier ones.
struct RegSub {
    pairs: Vec<(RegID, RegID)>,
}

/// The map named by an association vector, later entries winning.
pub open spec fn assoc_map(s: Seq<(RegID, RegID)>) -> Map<RegID, RegID>
    decreases s.len(),
{
    if s.len() == 0 {
        Map::empty()
    } else {
        assoc_map(s.drop_last()).insert(s.last().0, s.last().1)
    }
}

impl View for RegSub {
    type V = Map<RegID, RegID>;

    closed spec fn view(&self) -> Map<RegID, RegID> {
        assoc_map(self.pairs@)
    }
}

impl RegSub {
    fn new() -> (s: RegSub)
        ensures
            s@ == Map::<RegID, RegID>::empty(),
    {
        RegSub { pairs: Vec::new() }
    }

    /// The image of `r`, or `r` itself when unmapped.
    fn get(&self, r: RegID) -> (v: RegID)
        ensures
            v == sub_get(self@, r),
    {
        let mut i: usize = self.pairs.len();
        proof {
            assert(self.pairs@.take(i as int) =~= self.pairs@);
        }
        while i > 0
            invariant
                0 <= i <= self.pairs@.len(),
                sub_get(assoc_map(self.pairs@), r) == sub_get(assoc_map(self.pairs@.take(i as int)), r),
            decreases i,
        {
            i -= 1;
            let (k, v) = self.pairs[i];
            proof {
                assert(self.pairs@.take(i as int + 1).drop_last() =~= self.pairs@.take(i as int));
                assert(self.pairs@.take(i as int + 1).last() == (k, v));
            }
            if k == r {
                return v;
            }
        }
        proof {
            assert(self.pairs@.take(0) =~= Seq::<(RegID, RegID)>::empty());
        }
        r
    }

    fn insert(&mut self, k: RegID, v: RegID)
        ensures
            final(self)@ == old(self)@.insert(k, v),
    {
        self.pairs.push((k, v));
        proof {
            assert(self.pairs@.drop_last() =~= old(self).pairs@);
            assert(self.pairs@.last() == (k, v));
        }
    }
}

/// Pass D: elide no-op instructions.  Each no-op is removed and every
/// later use of its destination is re-pointed at its operand; the result
/// register follows the same substitution.
pub fn remove_nop(ir: Vec<Instruction>, result: RegID) -> (r: (Vec<Instruction>, RegID))
    ensures
        prog_view(r.0@) == spec_pass_d(prog_view(ir@)).0,
        r.1 == sub_get(spec_pass_d(prog_view(ir@)).1, result),
{
    let ghost orig = prog_view(ir@);
    let mut rest = ir;
    let mut out: Vec<Instruction> = Vec::new();
    let mut sub = RegSub::new();
    let ghost mut idx: int = 0;
    proof {
        assert(prog_view(rest@) =~= orig.skip(0));
        assert(prog_view(out@) =~= Seq::<IView>::empty());
        assert(sub@ =~= Map::<RegID, RegID>::empty());
    }
    while rest.len() > 0
        invariant
            0 <= idx <= orig.len(),
            prog_view(rest@) =~= orig.skip(idx),
            rest@.len() == orig.len() - idx,
            pass_d_from(orig, idx, sub@, prog_view(out@)) == spec_pass_d(orig),
        decreases rest@.len(),
    {
        let ghost prev_rest = rest@;
        let inst = rest.remove(0);
        proof {
            assert(inst@ == prog_view(prev_rest)[0]);
            assert(inst@ == orig[idx]);
            assert(rest@ == prev_rest.remove(0));
            assert(prog_view(rest@) =~= orig.skip(idx + 1)) by {
                assert forall|j: int| 0 <= j < rest@.len() implies prog_view(rest@)[j] == orig.skip(
                    idx + 1,
                )[j] by {
                    assert(rest@[j] == prev_rest[j + 1]);
                    assert(prog_view(prev_rest)[j + 1] == orig.skip(idx)[j + 1]);
                    assert(orig.skip(idx)[j + 1] == orig[idx + 1 + j]);
                    assert(orig.skip(idx + 1)[j] == orig[idx + 1 + j]);
                }
            }
        }
        let ghost out0 = prog_view(out@);
        let ghost m0 = sub@;
        match inst {
            Instruction::Nop { dest, op } => {
                let v = sub.get(op);
                sub.insert(dest, v);
            },
            Instruction::SetLit { dest, titles, cs } => {
                out.push(Instruction::SetLit { dest, titles, cs });
                proof {
                    assert(prog_view(out@) =~= out0.push(subst_iview(orig[idx], m0)));
                }
            },
            Instruction::And { dest, op1, op2 } => {
                let n1 = sub.get(op1);
                let n2 = sub.get(op2);
                out.push(Instruction::And { dest, op1: n1, op2: n2 });
                proof {
                    assert(prog_view(out@) =~= out0.push(subst_iview(orig[idx], m0)));
                }
            },
            Instruction::Or { dest, op1, op2 } => {
                let n1 = sub.get(op1);
                let n2 = sub.get(op2);
                out.push(Instruction::Or { dest, op1: n1, op2: n2 });
                proof {
                    assert(prog_view(out@) =~= out0.push(subst_iview(orig[idx], m0)));
                }
            },
            Instruction::Exclude { dest, op1, op2 } => {
                let n1 = sub.get(op1);
                let n2 = sub.get(op2);
                out.push(Instruction::Exclude { dest, op1: n1, op2: n2 });
                proof {
                    assert(prog_view(out@) =~= out0.push(subst_iview(orig[idx], m0)));
                }
            },
            Instruction::Xor { dest, op1, op2 } => {
                let n1 = sub.get(op1);
                let n2 = sub.get(op2);
                out.push(Instruction::Xor { dest, op1: n1, op2: n2 });
                proof {
                    assert(prog_view(out@) =~= out0.push(subst_iview(orig[idx], m0)));
                }
            },
            Instruction::LinkTo { dest, op, cs } => {
                let n = sub.get(op);
                out.push(Instruction::LinkTo { dest, op: n, cs });
                proof {
                    assert(prog_view(out@) =~= out0.push(subst_iview(orig[idx], m0)));
                }
            },
            Instruction::InCat { dest, op, cs } => {
                let n = sub.get(op);
                out.push(Instruction::InCat { dest, op: n, cs });
                proof {
                    assert(prog_view(out@) =~= out0.push(subst_iview(orig[idx], m0)));
                }
            },
            Instruction::Prefix { dest, op } => {
                let n = sub.get(op);
                out.push(Instruction::Prefix { dest, op: n });
                proof {
                    assert(prog_view(out@) =~= out0.push(subst_iview(orig[idx], m0)));
                }
            },
            Instruction::Toggle { dest, op } => {
                let n = sub.get(op);
                out.push(Instruction::Toggle { dest, op: n });
                proof {
                    assert(prog_view(out@) =~= out0.push(subst_iview(orig[idx], m0)));
                }
            },
        }
        proof {
            idx = idx + 1;
        }
    }
    proof {
        assert(prog_view(rest@).len() == 0);
        assert(idx == orig.len());
        assert(pass_d_from(orig, idx, sub@, prog_view(out@)) == (prog_view(out@), sub@));
    }
    let res = sub.get(result);
    (out, res)
}

/// The whole optimizer pipeline, on program values: toggle-pair
/// cancellation, then empty-namespace propagation, then no-op elision.
pub open spec fn spec_optimize(p: Seq<IView>, result: RegID) -> (Seq<IView>, RegID) {
    let a = spec_pass_a(p);
    let b = spec_pass_b(a);
    let d = spec_pass_d(b);
    (d.0, sub_get(d.1, result))
}

/// Optimize a query: cancel toggle pairs, propagate empty-namespace
/// facts, elide no-ops.  The instruction sequence stays ordered by
/// destination, and the result register follows the no-op elision's
/// register substitution.
pub fn optimize(q: Query) -> (r: Query)
    requires
        sorted_by_dest(prog_view(q.instructions@)),
    ensures
        prog_view(r.instructions@) == spec_optimize(prog_view(q.instructions@), q.result).0,
        r.result == spec_optimize(prog_view(q.instructions@), q.result).1,
{
    let Query { mut instructions, result } = q;
    let ghost p0 = prog_view(instructions@);
    remove_redundant_toggle(&mut instructions);
    proof {
        lemma_pass_a_wf(p0);
        lemma_pass_a_from_preserves(p0, 0);
    }
    remove_empty_ns(&mut instructions);
    let (instructions2, result2) = remove_nop(instructions, result);
    Query { instructions: instructions2, result: result2 }
}

/// The operand set of each instruction shape, written out.
proof fn lemma_operands_to_set(v: IView)
    ensures
        match v {
            IView::SetLit { .. } => v.operands().to_set() =~= Set::<RegID>::empty(),
            IView::And { op1, op2, .. } => v.operands().to_set() =~= Set::<RegID>::empty().insert(
                op1,
            ).insert(op2),
            IView::Or { op1, op2, .. } => v.operands().to_set() =~= Set::<RegID>::empty().insert(
                op1,
            ).insert(op2),
            IView::Exclude { op1, op2, .. } => v.operands().to_set()
                =~= Set::<RegID>::empty().insert(op1).insert(op2),
            IView::Xor { op1, op2, .. } => v.operands().to_set() =~= Set::<RegID>::empty().insert(
                op1,
            ).insert(op2),
            IView::LinkTo { op, .. } => v.operands().to_set() =~= Set::<RegID>::empty().insert(op),
            IView::InCat { op, .. } => v.operands().to_set() =~= Set::<RegID>::empty().insert(op),
            IView::Prefix { op, .. } => v.operands().to_set() =~= Set::<RegID>::empty().insert(op),
            IView::Toggle { op, .. } => v.operands().to_set() =~= Set::<RegID>::empty().insert(op),
            IView::Nop { op, .. } => v.operands().to_set() =~= Set::<RegID>::empty().insert(op),
        },
{
    let ops = v.operands();
    assert forall|x: RegID| ops.to_set().contains(x) implies ops.contains(x) by {}
    match v {
        IView::And { op1, op2, .. } => {
            assert(ops[0] == op1 && ops[1] == op2);
            assert(ops.contains(op1) && ops.contains(op2));
        },
        IView::Or { op1, op2, .. } => {
            assert(ops[0] == op1 && ops[1] == op2);
            assert(ops.contains(op1) && ops.contains(op2));
        },
        IView::Exclude { op1, op2, .. } => {
            assert(ops[0] == op1 && ops[1] == op2);
            assert(ops.contains(op1) && ops.contains(op2));
        },
        IView::Xor { op1, op2, .. } => {
            assert(ops[0] == op1 && ops[1] == op2);
            assert(ops.contains(op1) && ops.contains(op2));
        },
        IView::LinkTo { op, .. } => {
            assert(ops[0] == op);
            assert(ops.contains(op));
        },
        IView::InCat { op, .. } => {
            assert(ops[0] == op);
            assert(ops.contains(op));
        },
        IView::Prefix { op, .. } => {
            assert(ops[0] == op);
            assert(ops.contains(op));
        },
        IView::Toggle { op, .. } => {
            assert(ops[0] == op);
            assert(ops.contains(op));
        },
        IView::Nop { op, .. } => {
            assert(ops[0] == op);
            assert(ops.contains(op));
        },
        _ => {},
    }
}

} // verus!
