//! The intermediate representation: titles, constraints, instructions, queries.

use vstd::prelude::*;
use crate::nsset::NsSet;

verus! {

/// Register name in the linear instruction sequence.
pub type RegID = u64;

/// Category-descent depth; negative means unbounded.
pub type DepthNum = i64;

/// How redirect pages are treated by a listing request.
#[derive(Clone, Copy, PartialEq, Eq, Structural, Debug)]
pub enum RedirectStrategy {
    NoRedirect,
    OnlyRedirect,
    All,
}

impl RedirectStrategy {
    /// The wire word for the strategy.
    pub fn param_value(&self) -> (r: &'static str)
        ensures
            self is NoRedirect ==> r@ == "no redirect"@,
            self is OnlyRedirect ==> r@ == "only redirects"@,
            self is All ==> r@ == "all"@,
    {
        match self {
            RedirectStrategy::NoRedirect => "no redirect",
            RedirectStrategy::OnlyRedirect => "only redirects",
            RedirectStrategy::All => "all",
        }
    }

    /// Whether results of a listing made under the strategy may keep redirects.
    pub fn keeps_redirects(&self) -> (r: bool)
        ensures
            r == !(self is NoRedirect),
    {
        match self {
            RedirectStrategy::NoRedirect => false,
            _ => true,
        }
    }
}

/// The mathematical value of a title: a namespace id and a textual key.
pub ghost struct TitleKey {
    pub ns: int,
    pub text: Seq<char>,
}

/// The namespace paired with `n` under the talk/subject toggle.
/// Non-negative even ids gain one, odd ids lose one; virtual (negative)
/// namespaces have no talk pair and stay put.
pub open spec fn toggle_ns(n: int) -> int {
    if n >= 0 {
        if n % 2 == 0 {
            n + 1
        } else {
            n - 1
        }
    } else {
        n
    }
}

/// The talk/subject toggle on title values.
pub open spec fn toggle_key(k: TitleKey) -> TitleKey {
    TitleKey { ns: toggle_ns(k.ns), text: k.text }
}

/// The toggle is an involution: applying it twice gives the title back.
pub proof fn lemma_toggle_involution(k: TitleKey)
    ensures
        toggle_key(toggle_key(k)) == k,
{
}

/// A page title: a namespace id plus the namespace-local text.
pub struct Title {
    ns: i64,
    text: String,
}

impl View for Title {
    type V = TitleKey;

    closed spec fn view(&self) -> TitleKey {
        TitleKey { ns: self.ns as int, text: self.text@ }
    }
}

impl Title {
    pub fn new(ns: i64, text: String) -> (t: Title)
        ensures
            t@ == (TitleKey { ns: ns as int, text: text@ }),
    {
        Title { ns, text }
    }

    /// The namespace id.
    pub fn namespace_id(&self) -> (r: i64)
        ensures
            r as int == self@.ns,
    {
        self.ns
    }

    /// The namespace-local text.
    pub fn text(&self) -> (r: &String)
        ensures
            r@ == self@.text,
    {
        &self.text
    }

    /// Whether two titles name the same page.
    pub fn key_eq(&self, other: &Title) -> (r: bool)
        ensures
            r == (self@ == other@),
    {
        let r = self.ns == other.ns && self.text == other.text;
        proof {
            if self.ns == other.ns && self.text@ == other.text@ {
                assert(self@ == other@);
            }
        }
        r
    }

    /// An exact copy.
    pub fn duplicate(&self) -> (t: Title)
        ensures
            t@ == self@,
    {
        Title { ns: self.ns, text: self.text.clone() }
    }

    /// The other member of this title's talk/subject pair.
    pub fn toggle_talk(self) -> (t: Title)
        ensures
            t@ == toggle_key(self@),
    {
        proof {
            assert(0x7fff_ffff_ffff_ffffi64 % 2 == 1);
        }
        if self.ns >= 0 {
            if self.ns % 2 == 0 {
                Title { ns: self.ns + 1, text: self.text }
            } else {
                Title { ns: self.ns - 1, text: self.text }
            }
        } else {
            self
        }
    }
}

/// The mathematical value of a constraint.
pub ghost struct CsView {
    pub ns: Option<Set<int>>,
    pub depth: Option<int>,
}

/// A per-instruction set constraint: an optional namespace restriction and
/// an optional category-descent depth.  An explicit empty namespace set is
/// legal and means no page can satisfy the instruction.
pub struct SetConstraint {
    pub ns: Option<NsSet>,
    pub depth: Option<DepthNum>,
}

impl View for SetConstraint {
    type V = CsView;

    open spec fn view(&self) -> CsView {
        CsView {
            ns: match self.ns {
                Option::Some(s) => Option::Some(s@),
                Option::None => Option::None,
            },
            depth: match self.depth {
                Option::Some(d) => Option::Some(d as int),
                Option::None => Option::None,
            },
        }
    }
}

impl SetConstraint {
    /// The backing namespace vector, if restricted, holds no duplicates.
    pub open spec fn wf(&self) -> bool {
        match self.ns {
            Option::Some(s) => s.wf(),
            Option::None => true,
        }
    }

    /// The fully unconstrained element.
    pub fn unconstrained() -> (c: SetConstraint)
        ensures
            c@ == (CsView { ns: Option::None, depth: Option::None }),
            c.wf(),
    {
        SetConstraint { ns: Option::None, depth: Option::None }
    }

    /// Whether the constraint carries an explicitly empty namespace set.
    pub fn ns_is_empty(&self) -> (r: bool)
        ensures
            r == self@.ns_empty(),
    {
        match &self.ns {
            Option::Some(s) => s.is_empty(),
            Option::None => false,
        }
    }

    /// An exact copy.
    pub fn duplicate(&self) -> (c: SetConstraint)
        ensures
            c@ == self@,
            c.wf() == self.wf(),
    {
        SetConstraint {
            ns: match &self.ns {
                Option::Some(s) => Option::Some(s.duplicate()),
                Option::None => Option::None,
            },
            depth: self.depth,
        }
    }
}

impl CsView {
    /// Whether the namespace restriction is present and empty.
    pub open spec fn ns_empty(self) -> bool {
        match self.ns {
            Option::Some(s) => s.is_empty(),
            Option::None => false,
        }
    }

    /// The unconstrained element, as a value.
    pub open spec fn free() -> CsView {
        CsView { ns: Option::None, depth: Option::None }
    }
}

/// One instruction of a query program.  Every variant carries its
/// destination register; leaves are literal title sets, interior
/// instructions combine or transform earlier registers.
pub enum Instruction {
    /// Materialize a literal title list, filtered by the constraint's
    /// namespace restriction.
    SetLit { dest: RegID, titles: Vec<String>, cs: SetConstraint },
    /// Intersection of two registers.
    And { dest: RegID, op1: RegID, op2: RegID },
    /// Union of two registers.
    Or { dest: RegID, op1: RegID, op2: RegID },
    /// Difference of two registers.
    Exclude { dest: RegID, op1: RegID, op2: RegID },
    /// Symmetric difference of two registers.
    Xor { dest: RegID, op1: RegID, op2: RegID },
    /// Backlinks of the single title in the operand register.
    LinkTo { dest: RegID, op: RegID, cs: SetConstraint },
    /// Category members of the single title in the operand register,
    /// transitively to the constraint's depth.
    InCat { dest: RegID, op: RegID, cs: SetConstraint },
    /// Prefix-index entries of the single title in the operand register.
    Prefix { dest: RegID, op: RegID },
    /// The talk/subject toggle applied to every title in the operand.
    Toggle { dest: RegID, op: RegID },
    /// Identity: copy the operand register.
    Nop { dest: RegID, op: RegID },
}

impl Instruction {
    /// The destination register.
    pub open spec fn dest(&self) -> RegID {
        match *self {
            Instruction::SetLit { dest, .. } => dest,
            Instruction::And { dest, .. } => dest,
            Instruction::Or { dest, .. } => dest,
            Instruction::Exclude { dest, .. } => dest,
            Instruction::Xor { dest, .. } => dest,
            Instruction::LinkTo { dest, .. } => dest,
            Instruction::InCat { dest, .. } => dest,
            Instruction::Prefix { dest, .. } => dest,
            Instruction::Toggle { dest, .. } => dest,
            Instruction::Nop { dest, .. } => dest,
        }
    }

    /// The destination register, executably.
    pub fn get_dest(&self) -> (r: RegID)
        ensures
            r == self.dest(),
    {
        match self {
            Instruction::SetLit { dest, .. } => *dest,
            Instruction::And { dest, .. } => *dest,
            Instruction::Or { dest, .. } => *dest,
            Instruction::Exclude { dest, .. } => *dest,
            Instruction::Xor { dest, .. } => *dest,
            Instruction::LinkTo { dest, .. } => *dest,
            Instruction::InCat { dest, .. } => *dest,
            Instruction::Prefix { dest, .. } => *dest,
            Instruction::Toggle { dest, .. } => *dest,
            Instruction::Nop { dest, .. } => *dest,
        }
    }

    /// Whether the instruction's constraint carries an empty namespace set.
    pub open spec fn spec_ns_empty(&self) -> bool {
        match *self {
            Instruction::SetLit { cs, .. } => cs@.ns_empty(),
            Instruction::LinkTo { cs, .. } => cs@.ns_empty(),
            Instruction::InCat { cs, .. } => cs@.ns_empty(),
            _ => false,
        }
    }

    /// Whether the instruction's constraint carries an empty namespace
    /// set, executably.
    pub fn ns_empty(&self) -> (r: bool)
        ensures
            r == self.spec_ns_empty(),
    {
        match self {
            Instruction::SetLit { cs, .. } => cs.ns_is_empty(),
            Instruction::LinkTo { cs, .. } => cs.ns_is_empty(),
            Instruction::InCat { cs, .. } => cs.ns_is_empty(),
            _ => false,
        }
    }
}

/// The mathematical value of an instruction: register names, title texts
/// and constraint values, with the storage stripped away.
pub ghost enum IView {
    SetLit { dest: RegID, titles: Seq<Seq<char>>, cs: CsView },
    And { dest: RegID, op1: RegID, op2: RegID },
    Or { dest: RegID, op1: RegID, op2: RegID },
    Exclude { dest: RegID, op1: RegID, op2: RegID },
    Xor { dest: RegID, op1: RegID, op2: RegID },
    LinkTo { dest: RegID, op: RegID, cs: CsView },
    InCat { dest: RegID, op: RegID, cs: CsView },
    Prefix { dest: RegID, op: RegID },
    Toggle { dest: RegID, op: RegID },
    Nop { dest: RegID, op: RegID },
}

impl View for Instruction {
    type V = IView;

    open spec fn view(&self) -> IView {
        match *self {
            Instruction::SetLit { dest, titles, cs } => IView::SetLit {
                dest,
                titles: titles@.map_values(|s: String| s@),
                cs: cs@,
            },
            Instruction::And { dest, op1, op2 } => IView::And { dest, op1, op2 },
            Instruction::Or { dest, op1, op2 } => IView::Or { dest, op1, op2 },
            Instruction::Exclude { dest, op1, op2 } => IView::Exclude { dest, op1, op2 },
            Instruction::Xor { dest, op1, op2 } => IView::Xor { dest, op1, op2 },
            Instruction::LinkTo { dest, op, cs } => IView::LinkTo { dest, op, cs: cs@ },
            Instruction::InCat { dest, op, cs } => IView::InCat { dest, op, cs: cs@ },
            Instruction::Prefix { dest, op } => IView::Prefix { dest, op },
            Instruction::Toggle { dest, op } => IView::Toggle { dest, op },
            Instruction::Nop { dest, op } => IView::Nop { dest, op },
        }
    }
}

impl IView {
    /// The destination register.
    pub open spec fn dest(&self) -> RegID {
        match *self {
            IView::SetLit { dest, .. } => dest,
            IView::And { dest, .. } => dest,
            IView::Or { dest, .. } => dest,
            IView::Exclude { dest, .. } => dest,
            IView::Xor { dest, .. } => dest,
            IView::LinkTo { dest, .. } => dest,
            IView::InCat { dest, .. } => dest,
            IView::Prefix { dest, .. } => dest,
            IView::Toggle { dest, .. } => dest,
            IView::Nop { dest, .. } => dest,
        }
    }

    /// The operand registers, in order.
    pub open spec fn operands(&self) -> Seq<RegID> {
        match *self {
            IView::SetLit { .. } => Seq::empty(),
            IView::And { op1, op2, .. } => seq![op1, op2],
            IView::Or { op1, op2, .. } => seq![op1, op2],
            IView::Exclude { op1, op2, .. } => seq![op1, op2],
            IView::Xor { op1, op2, .. } => seq![op1, op2],
            IView::LinkTo { op, .. } => seq![op],
            IView::InCat { op, .. } => seq![op],
            IView::Prefix { op, .. } => seq![op],
            IView::Toggle { op, .. } => seq![op],
            IView::Nop { op, .. } => seq![op],
        }
    }

    /// Whether the instruction's constraint carries an empty namespace set.
    pub open spec fn ns_empty(&self) -> bool {
        match *self {
            IView::SetLit { cs, .. } => cs.ns_empty(),
            IView::LinkTo { cs, .. } => cs.ns_empty(),
            IView::InCat { cs, .. } => cs.ns_empty(),
            _ => false,
        }
    }
}

/// The mathematical value of an instruction sequence.
pub open spec fn prog_view(s: Seq<Instruction>) -> Seq<IView> {
    s.map_values(|i: Instruction| i@)
}

/// Destinations strictly increase along the sequence; this packages the
/// single-definition invariant with orderedness, so that the producer of a
/// register can be found by binary search.
pub open spec fn sorted_by_dest(p: Seq<IView>) -> bool {
    forall|i: int, j: int| 0 <= i < j < p.len() ==> p[i].dest() < p[j].dest()
}

/// Whether some instruction before position `i` defines register `r`.
pub open spec fn defines_reg(p: Seq<IView>, i: int, r: RegID) -> bool {
    exists|j: int| 0 <= j < i && (#[trigger] p[j].dest()) == r
}

/// Every operand is defined by an earlier instruction.
pub open spec fn defs_before_use(p: Seq<IView>) -> bool {
    forall|i: int, k: int|
        #![trigger p[i].operands()[k]]
        0 <= i < p.len() && 0 <= k < p[i].operands().len() ==> defines_reg(
            p,
            i,
            p[i].operands()[k],
        )
}

/// A well-formed program: ordered by destination and in definition order.
pub open spec fn wf_prog(p: Seq<IView>) -> bool {
    &&& sorted_by_dest(p)
    &&& defs_before_use(p)
}

/// In a well-formed program, operands are strictly below their
/// instruction's destination.
pub proof fn lemma_operand_below_dest(p: Seq<IView>, i: int, k: int)
    requires
        wf_prog(p),
        0 <= i < p.len(),
        0 <= k < p[i].operands().len(),
    ensures
        p[i].operands()[k] < p[i].dest(),
{
    let op = p[i].operands()[k];
    assert(defines_reg(p, i, op));
    let j = choose|j: int| 0 <= j < i && (#[trigger] p[j].dest()) == op;
    assert(p[j].dest() < p[i].dest());
}

/// A compiled query: an instruction sequence and the result register.
pub struct Query {
    pub instructions: Vec<Instruction>,
    pub result: RegID,
}

/// Errors raised while building or merging constraints.
#[derive(Clone, Copy, PartialEq, Eq, Structural, Debug)]
pub enum ConstraintError {
    /// Two clauses demanded different category depths.
    ConflictDepth,
}

/// Errors raised while executing a query.
#[derive(Clone, Copy, PartialEq, Eq, Structural, Debug)]
pub enum SolveError {
    /// An instruction named a register that no earlier instruction defined.
    MissingRegister,
    /// A single-source operator received an operand set of two or more titles.
    QueryForMultiplePages,
    /// Category traversal dequeued a title outside the category namespace.
    NotCategory,
    /// The wiki API collaborator failed; surfaced verbatim, never retried.
    Transport,
}

} // verus!
