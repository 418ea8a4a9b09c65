//! The query executor: an interpreter over the instruction sequence that
//! materializes register values as title sets.  Wiki listings cannot be
//! computed here, so the executor is a step machine: it emits one request
//! at a time and consumes the caller's response; everything between two
//! requests is computed and specified exactly.

use vstd::prelude::*;
use crate::ir::{
    prog_view, CsView, IView, Instruction, Query, RedirectStrategy, RegID, SolveError, Title,
    TitleKey,
};
use crate::nsset::NsSet;
use crate::titleset::{toggle_set, TitleSet};

verus! {

/// One request to the wiki's query API, as plain values.
pub enum ApiRequest {
    /// Turn literal texts into titles via the wiki's title parser.
    ParseTitles { titles: Vec<String> },
    /// Pages linking to `title`; `level_2` asks for pages linking through
    /// a redirect as well.
    Backlinks { title: Title, ns: Option<NsSet>, level_2: bool, strategy: RedirectStrategy },
    /// Members of the category `title`, transitively to `depth`.
    CategoryMembers { title: Title, ns: Option<NsSet>, depth: i64 },
    /// Pages whose title starts with `title`'s text, in its namespace.
    PrefixIndex { title: Title, ns: Option<NsSet>, strategy: RedirectStrategy },
    /// Pages transcluding `title`.
    EmbeddedIn { title: Title, ns: Option<NsSet>, strategy: RedirectStrategy },
}

/// The mathematical value of a request.
pub ghost enum ReqView {
    ParseTitles { titles: Seq<Seq<char>> },
    Backlinks { title: TitleKey, ns: Option<Set<int>>, level_2: bool, strategy: RedirectStrategy },
    CategoryMembers { title: TitleKey, ns: Option<Set<int>>, depth: int },
    PrefixIndex { title: TitleKey, ns: Option<Set<int>>, strategy: RedirectStrategy },
    EmbeddedIn { title: TitleKey, ns: Option<Set<int>>, strategy: RedirectStrategy },
}

/// The value of an optional namespace restriction.
pub open spec fn ns_view(ns: Option<NsSet>) -> Option<Set<int>> {
    match ns {
        Option::Some(s) => Option::Some(s@),
        Option::None => Option::None,
    }
}

impl View for ApiRequest {
    type V = ReqView;

    open spec fn view(&self) -> ReqView {
        match *self {
            ApiRequest::ParseTitles { titles } => ReqView::ParseTitles {
                titles: titles@.map_values(|s: String| s@),
            },
            ApiRequest::Backlinks { title, ns, level_2, strategy } => ReqView::Backlinks {
                title: title@,
                ns: ns_view(ns),
                level_2,
                strategy,
            },
            ApiRequest::CategoryMembers { title, ns, depth } => ReqView::CategoryMembers {
                title: title@,
                ns: ns_view(ns),
                depth: depth as int,
            },
            ApiRequest::PrefixIndex { title, ns, strategy } => ReqView::PrefixIndex {
                title: title@,
                ns: ns_view(ns),
                strategy,
            },
            ApiRequest::EmbeddedIn { title, ns, strategy } => ReqView::EmbeddedIn {
                title: title@,
                ns: ns_view(ns),
                strategy,
            },
        }
    }
}

/// An abstract wiki: what the title parser and the three listings used by
/// the executor answer.  Determinism of the collaborator is exactly what
/// a value of this type expresses.
pub ghost struct ApiEnv {
    pub parse: spec_fn(Seq<char>) -> TitleKey,
    pub backlinks: spec_fn(TitleKey, Option<Set<int>>) -> Set<TitleKey>,
    pub cat_members: spec_fn(TitleKey, Option<Set<int>>, int) -> Set<TitleKey>,
    pub prefix: spec_fn(TitleKey) -> Set<TitleKey>,
}

/// A well-behaved wiki: listings are finite and honor the namespace
/// restriction handed to them.
pub open spec fn wf_env(e: ApiEnv) -> bool {
    &&& forall|t: TitleKey, ns: Option<Set<int>>| (#[trigger] (e.backlinks)(t, ns)).finite()
    &&& forall|t: TitleKey, ns: Option<Set<int>>, d: int|
        (#[trigger] (e.cat_members)(t, ns, d)).finite()
    &&& forall|t: TitleKey| (#[trigger] (e.prefix)(t)).finite()
    &&& forall|t: TitleKey, s: Set<int>, x: TitleKey|
        #[trigger] (e.backlinks)(t, Option::Some(s)).contains(x) ==> s.contains(x.ns)
    &&& forall|t: TitleKey, s: Set<int>, d: int, x: TitleKey|
        #[trigger] (e.cat_members)(t, Option::Some(s), d).contains(x) ==> s.contains(x.ns)
}

/// Whether a namespace id passes an optional restriction.
pub open spec fn ns_ok(ns: Option<Set<int>>, n: int) -> bool {
    match ns {
        Option::Some(s) => s.contains(n),
        Option::None => true,
    }
}

/// The set of already-parsed titles that pass a namespace restriction.
pub open spec fn filter_parsed(ks: Seq<TitleKey>, ns: Option<Set<int>>) -> Set<TitleKey>
    decreases ks.len(),
{
    if ks.len() == 0 {
        Set::empty()
    } else {
        let rest = filter_parsed(ks.drop_last(), ns);
        if ns_ok(ns, ks.last().ns) {
            rest.insert(ks.last())
        } else {
            rest
        }
    }
}

/// A filtered parse result is finite.
pub proof fn lemma_filter_parsed_finite(ks: Seq<TitleKey>, ns: Option<Set<int>>)
    ensures
        filter_parsed(ks, ns).finite(),
    decreases ks.len(),
{
    if ks.len() == 0 {
    } else {
        lemma_filter_parsed_finite(ks.drop_last(), ns);
    }
}

/// What a literal-title instruction materializes: its texts parsed, then
/// filtered by the constraint's namespace restriction.
pub open spec fn lit_titles(e: ApiEnv, titles: Seq<Seq<char>>, cs: CsView) -> Set<TitleKey> {
    filter_parsed(titles.map_values(|t: Seq<char>| (e.parse)(t)), cs.ns)
}

/// The depth bound an `InCat` instruction uses: its constraint's depth, or
/// zero (root only) when unconstrained.
pub open spec fn depth_of(cs: CsView) -> int {
    match cs.depth {
        Option::Some(d) => d,
        Option::None => 0,
    }
}

/// The single element of a one-element set.
pub open spec fn the_elem(s: Set<TitleKey>) -> TitleKey {
    s.choose()
}

/// The value one instruction stores into its destination register, given
/// the registers so far — or the error it raises.  This is the
/// per-instruction meaning the executor implements.
pub open spec fn inst_sem(e: ApiEnv, v: IView, regs: Map<RegID, Set<TitleKey>>) -> Result<
    Set<TitleKey>,
    SolveError,
> {
    match v {
        IView::SetLit { dest, titles, cs } => Result::Ok(lit_titles(e, titles, cs)),
        IView::And { dest, op1, op2 } => if regs.dom().contains(op1) && regs.dom().contains(op2) {
            Result::Ok(regs[op1].intersect(regs[op2]))
        } else {
            Result::Err(SolveError::MissingRegister)
        },
        IView::Or { dest, op1, op2 } => if regs.dom().contains(op1) && regs.dom().contains(op2) {
            Result::Ok(regs[op1].union(regs[op2]))
        } else {
            Result::Err(SolveError::MissingRegister)
        },
        IView::Exclude { dest, op1, op2 } => if regs.dom().contains(op1) && regs.dom().contains(
            op2,
        ) {
            Result::Ok(regs[op1].difference(regs[op2]))
        } else {
            Result::Err(SolveError::MissingRegister)
        },
        IView::Xor { dest, op1, op2 } => if regs.dom().contains(op1) && regs.dom().contains(op2) {
            Result::Ok(
                regs[op1].difference(regs[op2]).union(regs[op2].difference(regs[op1])),
            )
        } else {
            Result::Err(SolveError::MissingRegister)
        },
        IView::LinkTo { dest, op, cs } => if !regs.dom().contains(op) {
            Result::Err(SolveError::MissingRegister)
        } else if regs[op].len() == 0 {
            Result::Ok(Set::empty())
        } else if regs[op].len() > 1 {
            Result::Err(SolveError::QueryForMultiplePages)
        } else {
            Result::Ok((e.backlinks)(the_elem(regs[op]), cs.ns))
        },
        IView::InCat { dest, op, cs } => if !regs.dom().contains(op) {
            Result::Err(SolveError::MissingRegister)
        } else if regs[op].len() == 0 {
            Result::Ok(Set::empty())
        } else if regs[op].len() > 1 {
            Result::Err(SolveError::QueryForMultiplePages)
        } else {
            Result::Ok((e.cat_members)(the_elem(regs[op]), cs.ns, depth_of(cs)))
        },
        IView::Prefix { dest, op } => if !regs.dom().contains(op) {
            Result::Err(SolveError::MissingRegister)
        } else if regs[op].len() == 0 {
            Result::Ok(Set::empty())
        } else if regs[op].len() > 1 {
            Result::Err(SolveError::QueryForMultiplePages)
        } else {
            Result::Ok((e.prefix)(the_elem(regs[op])))
        },
        IView::Toggle { dest, op } => if regs.dom().contains(op) {
            Result::Ok(toggle_set(regs[op]))
        } else {
            Result::Err(SolveError::MissingRegister)
        },
        IView::Nop { dest, op } => if regs.dom().contains(op) {
            Result::Ok(regs[op])
        } else {
            Result::Err(SolveError::MissingRegister)
        },
    }
}

/// The register file after the first `n` instructions, or the first error.
pub open spec fn run_prog(e: ApiEnv, p: Seq<IView>, n: int) -> Result<
    Map<RegID, Set<TitleKey>>,
    SolveError,
>
    decreases n,
{
    if n <= 0 {
        Result::Ok(Map::empty())
    } else {
        match run_prog(e, p, n - 1) {
            Result::Err(err) => Result::Err(err),
            Result::Ok(regs) => match inst_sem(e, p[n - 1], regs) {
                Result::Err(err) => Result::Err(err),
                Result::Ok(s) => Result::Ok(regs.insert(p[n - 1].dest(), s)),
            },
        }
    }
}

/// What a whole query evaluates to against an abstract wiki.
pub open spec fn solve_spec(e: ApiEnv, p: Seq<IView>, result: RegID) -> Result<
    Set<TitleKey>,
    SolveError,
> {
    match run_prog(e, p, p.len() as int) {
        Result::Err(err) => Result::Err(err),
        Result::Ok(regs) => if regs.dom().contains(result) {
            Result::Ok(regs[result])
        } else {
            Result::Err(SolveError::MissingRegister)
        },
    }
}

/// A one-element set's chosen element is its only member.
pub proof fn lemma_single_elem(s: Set<TitleKey>, k: TitleKey)
    requires
        s == Set::<TitleKey>::empty().insert(k),
    ensures
        the_elem(s) == k,
{
    assert(s.contains(k));
    assert(s.contains(s.choose()));
}

/// The association list giving the register file, later entries winning.
pub open spec fn reg_map(s: Seq<(RegID, TitleSet)>) -> Map<RegID, Set<TitleKey>>
    decreases s.len(),
{
    if s.len() == 0 {
        Map::empty()
    } else {
        reg_map(s.drop_last()).insert(s.last().0, s.last().1@)
    }
}

/// The register file: registers written once, in program order.
pub struct RegFile {
    entries: Vec<(RegID, TitleSet)>,
}

impl View for RegFile {
    type V = Map<RegID, Set<TitleKey>>;

    closed spec fn view(&self) -> Map<RegID, Set<TitleKey>> {
        reg_map(self.entries@)
    }
}

impl RegFile {
    /// Every stored set is free of duplicates.
    pub closed spec fn wf(&self) -> bool {
        forall|i: int| 0 <= i < self.entries@.len() ==> (#[trigger] self.entries@[i]).1.wf()
    }

    pub fn new() -> (r: RegFile)
        ensures
            r.wf(),
            r@ == Map::<RegID, Set<TitleKey>>::empty(),
    {
        RegFile { entries: Vec::new() }
    }

    /// Store a register's value.
    pub fn insert(&mut self, reg: RegID, val: TitleSet)
        requires
            old(self).wf(),
            val.wf(),
        ensures
            final(self).wf(),
            final(self)@ == old(self)@.insert(reg, val@),
    {
        self.entries.push((reg, val));
        proof {
            assert(self.entries@.drop_last() =~= old(self).entries@);
            assert(self.entries@.last() == (reg, self.entries@.last().1));
        }
    }

    /// Read a register, if defined.
    pub fn get(&self, reg: RegID) -> (r: Option<&TitleSet>)
        requires
            self.wf(),
        ensures
            match r {
                Option::Some(s) => self@.dom().contains(reg) && s@ == self@[reg] && s.wf(),
                Option::None => !self@.dom().contains(reg),
            },
    {
        let mut i: usize = self.entries.len();
        proof {
            assert(self.entries@.take(i as int) =~= self.entries@);
        }
        while i > 0
            invariant
                0 <= i <= self.entries@.len(),
                self.wf(),
                reg_map(self.entries@).dom().contains(reg) == reg_map(
                    self.entries@.take(i as int),
                ).dom().contains(reg),
                reg_map(self.entries@).dom().contains(reg) ==> reg_map(self.entries@)[reg]
                    == reg_map(self.entries@.take(i as int))[reg],
            decreases i,
        {
            i -= 1;
            proof {
                assert(self.entries@.take(i as int + 1).drop_last() =~= self.entries@.take(
                    i as int,
                ));
                assert(self.entries@.take(i as int + 1).last() == self.entries@[i as int]);
            }
            if self.entries[i].0 == reg {
                return Option::Some(&self.entries[i].1);
            }
        }
        proof {
            assert(self.entries@.take(0) =~= Seq::<(RegID, TitleSet)>::empty());
        }
        Option::None
    }
}

/// What one executor step produced.
pub enum StepOutcome {
    /// A set-algebra instruction was executed locally; step again.
    Continue,
    /// The wiki must be asked; answer with `provide_parsed` or
    /// `provide_listing` before stepping again.
    Request(ApiRequest),
    /// The query's result set.
    Done(TitleSet),
    /// The solve failed; no partial result is returned.
    Failed(SolveError),
}

/// What the executor is waiting for.
enum Pending {
    Idle,
    Parse,
    Listing,
}

/// The query executor.  It walks the instruction sequence in order,
/// keeping a register file of title sets; set algebra is computed here,
/// and each wiki listing is emitted as a request whose response the
/// caller feeds back in.
pub struct Solver {
    query: Query,
    pc: usize,
    regs: RegFile,
    pending: Pending,
    pending_dest: RegID,
    pending_cs: crate::ir::SetConstraint,
}

/// How the executor handles one instruction at position `i`: either a
/// local update of the register file, a failure, or a request together
/// with the register it will fill.  This is the executable counterpart
/// of `inst_sem`, with the wiki's answer left open.
pub open spec fn step_post(
    p: Seq<IView>,
    i: int,
    regs: Map<RegID, Set<TitleKey>>,
    rr: RegID,
    out: StepOutcome,
    s2: Solver,
) -> bool {
    if i >= p.len() {
        &&& s2.pc_spec() == i
        &&& s2.regs_map() == regs
        &&& s2.is_idle()
        &&& if regs.dom().contains(rr) {
            match out {
                StepOutcome::Done(ts) => ts@ == regs[rr] && ts.wf(),
                _ => false,
            }
        } else {
            out matches StepOutcome::Failed(SolveError::MissingRegister)
        }
    } else {
        match p[i] {
            IView::SetLit { dest, titles, cs } => {
                &&& s2.pc_spec() == i
                &&& s2.regs_map() == regs
                &&& match out {
                    StepOutcome::Request(req) => req@ == (ReqView::ParseTitles { titles }),
                    _ => false,
                }
                &&& s2.is_parse()
                &&& s2.pending_dest_spec() == dest
                &&& s2.pending_ns_spec() == cs.ns
            },
            IView::And { dest, op1, op2 } => local_binary_post(
                regs,
                i,
                dest,
                op1,
                op2,
                if regs.dom().contains(op1) && regs.dom().contains(op2) {
                    regs[op1].intersect(regs[op2])
                } else {
                    Set::empty()
                },
                out,
                s2,
            ),
            IView::Or { dest, op1, op2 } => local_binary_post(
                regs,
                i,
                dest,
                op1,
                op2,
                if regs.dom().contains(op1) && regs.dom().contains(op2) {
                    regs[op1].union(regs[op2])
                } else {
                    Set::empty()
                },
                out,
                s2,
            ),
            IView::Exclude { dest, op1, op2 } => local_binary_post(
                regs,
                i,
                dest,
                op1,
                op2,
                if regs.dom().contains(op1) && regs.dom().contains(op2) {
                    regs[op1].difference(regs[op2])
                } else {
                    Set::empty()
                },
                out,
                s2,
            ),
            IView::Xor { dest, op1, op2 } => local_binary_post(
                regs,
                i,
                dest,
                op1,
                op2,
                if regs.dom().contains(op1) && regs.dom().contains(op2) {
                    regs[op1].difference(regs[op2]).union(regs[op2].difference(regs[op1]))
                } else {
                    Set::empty()
                },
                out,
                s2,
            ),
            IView::LinkTo { dest, op, cs } => single_source_post(
                regs,
                i,
                dest,
                op,
                ReqView::Backlinks {
                    title: the_elem(regs[op]),
                    ns: cs.ns,
                    level_2: true,
                    strategy: RedirectStrategy::All,
                },
                out,
                s2,
            ),
            IView::InCat { dest, op, cs } => single_source_post(
                regs,
                i,
                dest,
                op,
                ReqView::CategoryMembers {
                    title: the_elem(regs[op]),
                    ns: cs.ns,
                    depth: depth_of(cs),
                },
                out,
                s2,
            ),
            IView::Prefix { dest, op } => single_source_post(
                regs,
                i,
                dest,
                op,
                ReqView::PrefixIndex {
                    title: the_elem(regs[op]),
                    ns: Option::None,
                    strategy: RedirectStrategy::All,
                },
                out,
                s2,
            ),
            IView::Toggle { dest, op } => if regs.dom().contains(op) {
                &&& out matches StepOutcome::Continue
                &&& s2.pc_spec() == i + 1
                &&& s2.regs_map() == regs.insert(dest, toggle_set(regs[op]))
                &&& s2.is_idle()
            } else {
                &&& out matches StepOutcome::Failed(SolveError::MissingRegister)
                &&& s2.pc_spec() == i
                &&& s2.regs_map() == regs
                &&& s2.is_idle()
            },
            IView::Nop { dest, op } => if regs.dom().contains(op) {
                &&& out matches StepOutcome::Continue
                &&& s2.pc_spec() == i + 1
                &&& s2.regs_map() == regs.insert(dest, regs[op])
                &&& s2.is_idle()
            } else {
                &&& out matches StepOutcome::Failed(SolveError::MissingRegister)
                &&& s2.pc_spec() == i
                &&& s2.regs_map() == regs
                &&& s2.is_idle()
            },
        }
    }
}

/// The outcome of a set-algebra instruction over two registers.
pub open spec fn local_binary_post(
    regs: Map<RegID, Set<TitleKey>>,
    i: int,
    dest: RegID,
    op1: RegID,
    op2: RegID,
    value: Set<TitleKey>,
    out: StepOutcome,
    s2: Solver,
) -> bool {
    if regs.dom().contains(op1) && regs.dom().contains(op2) {
        &&& out matches StepOutcome::Continue
        &&& s2.pc_spec() == i + 1
        &&& s2.regs_map() == regs.insert(dest, value)
        &&& s2.is_idle()
    } else {
        &&& out matches StepOutcome::Failed(SolveError::MissingRegister)
        &&& s2.pc_spec() == i
        &&& s2.regs_map() == regs
        &&& s2.is_idle()
    }
}

/// The outcome of a single-source relational instruction: an undefined
/// operand fails, an empty operand writes the empty set without any
/// request, two or more titles fail without any request, and exactly one
/// title turns into the given request.
pub open spec fn single_source_post(
    regs: Map<RegID, Set<TitleKey>>,
    i: int,
    dest: RegID,
    op: RegID,
    req: ReqView,
    out: StepOutcome,
    s2: Solver,
) -> bool {
    if !regs.dom().contains(op) {
        &&& out matches StepOutcome::Failed(SolveError::MissingRegister)
        &&& s2.pc_spec() == i
        &&& s2.regs_map() == regs
        &&& s2.is_idle()
    } else if regs[op].len() == 0 {
        &&& out matches StepOutcome::Continue
        &&& s2.pc_spec() == i + 1
        &&& s2.regs_map() == regs.insert(dest, Set::empty())
        &&& s2.is_idle()
    } else if regs[op].len() > 1 {
        &&& out matches StepOutcome::Failed(SolveError::QueryForMultiplePages)
        &&& s2.pc_spec() == i
        &&& s2.regs_map() == regs
        &&& s2.is_idle()
    } else {
        &&& match out {
            StepOutcome::Request(r) => r@ == req,
            _ => false,
        }
        &&& s2.pc_spec() == i
        &&& s2.regs_map() == regs
        &&& s2.is_listing()
        &&& s2.pending_dest_spec() == dest
    }
}

impl Solver {
    /// The program being executed, as a value.
    pub closed spec fn prog(&self) -> Seq<IView> {
        prog_view(self.query.instructions@)
    }

    /// The query's result register.
    pub closed spec fn result_reg(&self) -> RegID {
        self.query.result
    }

    /// The next instruction to execute.
    pub closed spec fn pc_spec(&self) -> int {
        self.pc as int
    }

    /// The register file, as a map.
    pub closed spec fn regs_map(&self) -> Map<RegID, Set<TitleKey>> {
        self.regs@
    }

    /// Not waiting for any response.
    pub closed spec fn is_idle(&self) -> bool {
        self.pending is Idle
    }

    /// Waiting for parsed titles.
    pub closed spec fn is_parse(&self) -> bool {
        self.pending is Parse
    }

    /// Waiting for a listing's result set.
    pub closed spec fn is_listing(&self) -> bool {
        self.pending is Listing
    }

    /// The register the pending response will fill.
    pub closed spec fn pending_dest_spec(&self) -> RegID {
        self.pending_dest
    }

    /// The namespace restriction a pending parse will filter with.
    pub closed spec fn pending_ns_spec(&self) -> Option<Set<int>> {
        ns_view(self.pending_cs.ns)
    }

    /// The executor's internal invariant.
    pub closed spec fn wf(&self) -> bool {
        &&& self.pc as int <= self.query.instructions@.len()
        &&& self.regs.wf()
        &&& ((self.pending is Parse || self.pending is Listing) ==> (self.pc as int)
            < self.query.instructions@.len())
    }

    /// Start executing a query from an empty register file.
    pub fn new(query: Query) -> (s: Solver)
        ensures
            s.wf(),
            s.is_idle(),
            s.prog() == prog_view(query.instructions@),
            s.result_reg() == query.result,
            s.pc_spec() == 0,
            s.regs_map() == Map::<RegID, Set<TitleKey>>::empty(),
    {
        Solver {
            query,
            pc: 0,
            regs: RegFile::new(),
            pending: Pending::Idle,
            pending_dest: 0,
            pending_cs: crate::ir::SetConstraint::unconstrained(),
        }
    }

    /// Execute the next instruction.  Set algebra happens here; the
    /// single-source relational instructions check their operand first
    /// (an undefined register fails, an empty set short-circuits to the
    /// empty set without a request, two or more titles fail with
    /// `QueryForMultiplePages` without a request) and otherwise emit the
    /// request for the operand's one title.  Past the last instruction,
    /// the result register's set is returned.
    pub fn step(&mut self) -> (out: StepOutcome)
        requires
            old(self).wf(),
            old(self).is_idle(),
        ensures
            final(self).wf(),
            final(self).prog() == old(self).prog(),
            final(self).result_reg() == old(self).result_reg(),
            step_post(
                old(self).prog(),
                old(self).pc_spec(),
                old(self).regs_map(),
                old(self).result_reg(),
                out,
                *final(self),
            ),
    {
        let len = self.query.instructions.len();
        let pc = self.pc;
        if pc >= len {
            match self.regs.get(self.query.result) {
                Option::Some(s) => {
                    let d = s.duplicate();
                    return StepOutcome::Done(d);
                },
                Option::None => {
                    return StepOutcome::Failed(SolveError::MissingRegister);
                },
            }
        }
        match &self.query.instructions[pc] {
            Instruction::SetLit { dest, titles, cs } => {
                let d = *dest;
                let mut copies: Vec<String> = Vec::new();
                let mut i: usize = 0;
                let n = titles.len();
                while i < n
                    invariant
                        n == titles@.len(),
                        0 <= i <= n,
                        copies@ =~= titles@.take(i as int),
                    decreases n - i,
                {
                    copies.push(titles[i].clone());
                    proof {
                        assert(copies@ =~= titles@.take(i as int + 1));
                    }
                    i += 1;
                }
                proof {
                    assert(titles@.take(n as int) =~= titles@);
                }
                self.pending_cs = cs.duplicate();
                self.pending_dest = d;
                self.pending = Pending::Parse;
                StepOutcome::Request(ApiRequest::ParseTitles { titles: copies })
            },
            Instruction::And { dest, op1, op2 } => {
                let d = *dest;
                let o1 = *op1;
                let o2 = *op2;
                let r1 = self.regs.get(o1);
                let r2 = self.regs.get(o2);
                match (r1, r2) {
                    (Option::Some(s1), Option::Some(s2)) => {
                        let v = s1.intersect(s2);
                        self.regs.insert(d, v);
                        self.pc = pc + 1;
                        StepOutcome::Continue
                    },
                    _ => StepOutcome::Failed(SolveError::MissingRegister),
                }
            },
            Instruction::Or { dest, op1, op2 } => {
                let d = *dest;
                let o1 = *op1;
                let o2 = *op2;
                let r1 = self.regs.get(o1);
                let r2 = self.regs.get(o2);
                match (r1, r2) {
                    (Option::Some(s1), Option::Some(s2)) => {
                        let v = s1.union(s2);
                        self.regs.insert(d, v);
                        self.pc = pc + 1;
                        StepOutcome::Continue
                    },
                    _ => StepOutcome::Failed(SolveError::MissingRegister),
                }
            },
            Instruction::Exclude { dest, op1, op2 } => {
                let d = *dest;
                let o1 = *op1;
                let o2 = *op2;
                let r1 = self.regs.get(o1);
                let r2 = self.regs.get(o2);
                match (r1, r2) {
                    (Option::Some(s1), Option::Some(s2)) => {
                        let v = s1.difference(s2);
                        self.regs.insert(d, v);
                        self.pc = pc + 1;
                        StepOutcome::Continue
                    },
                    _ => StepOutcome::Failed(SolveError::MissingRegister),
                }
            },
            Instruction::Xor { dest, op1, op2 } => {
                let d = *dest;
                let o1 = *op1;
                let o2 = *op2;
                let r1 = self.regs.get(o1);
                let r2 = self.regs.get(o2);
                match (r1, r2) {
                    (Option::Some(s1), Option::Some(s2)) => {
                        let v = s1.symmetric_difference(s2);
                        self.regs.insert(d, v);
                        self.pc = pc + 1;
                        StepOutcome::Continue
                    },
                    _ => StepOutcome::Failed(SolveError::MissingRegister),
                }
            },
            Instruction::LinkTo { dest, op, cs } => {
                let d = *dest;
                let o = *op;
                match self.regs.get(o) {
                    Option::None => StepOutcome::Failed(SolveError::MissingRegister),
                    Option::Some(s) => {
                        let c = s.count();
                        if c == 0 {
                            self.regs.insert(d, TitleSet::new());
                            self.pc = pc + 1;
                            StepOutcome::Continue
                        } else if c > 1 {
                            StepOutcome::Failed(SolveError::QueryForMultiplePages)
                        } else {
                            let t = s.single();
                            let td = t.duplicate();
                            proof {
                                lemma_single_elem(s@, t@);
                            }
                            let nsdup = match &cs.ns {
                                Option::Some(x) => Option::Some(x.duplicate()),
                                Option::None => Option::None,
                            };
                            self.pending_dest = d;
                            self.pending = Pending::Listing;
                            StepOutcome::Request(
                                ApiRequest::Backlinks {
                                    title: td,
                                    ns: nsdup,
                                    level_2: true,
                                    strategy: RedirectStrategy::All,
                                },
                            )
                        }
                    },
                }
            },
            Instruction::InCat { dest, op, cs } => {
                let d = *dest;
                let o = *op;
                match self.regs.get(o) {
                    Option::None => StepOutcome::Failed(SolveError::MissingRegister),
                    Option::Some(s) => {
                        let c = s.count();
                        if c == 0 {
                            self.regs.insert(d, TitleSet::new());
                            self.pc = pc + 1;
                            StepOutcome::Continue
                        } else if c > 1 {
                            StepOutcome::Failed(SolveError::QueryForMultiplePages)
                        } else {
                            let t = s.single();
                            let td = t.duplicate();
                            proof {
                                lemma_single_elem(s@, t@);
                            }
                            let nsdup = match &cs.ns {
                                Option::Some(x) => Option::Some(x.duplicate()),
                                Option::None => Option::None,
                            };
                            let dep = match cs.depth {
                                Option::Some(x) => x,
                                Option::None => 0,
                            };
                            self.pending_dest = d;
                            self.pending = Pending::Listing;
                            StepOutcome::Request(
                                ApiRequest::CategoryMembers { title: td, ns: nsdup, depth: dep },
                            )
                        }
                    },
                }
            },
            Instruction::Prefix { dest, op } => {
                let d = *dest;
                let o = *op;
                match self.regs.get(o) {
                    Option::None => StepOutcome::Failed(SolveError::MissingRegister),
                    Option::Some(s) => {
                        let c = s.count();
                        if c == 0 {
                            self.regs.insert(d, TitleSet::new());
                            self.pc = pc + 1;
                            StepOutcome::Continue
                        } else if c > 1 {
                            StepOutcome::Failed(SolveError::QueryForMultiplePages)
                        } else {
                            let t = s.single();
                            let td = t.duplicate();
                            proof {
                                lemma_single_elem(s@, t@);
                            }
                            self.pending_dest = d;
                            self.pending = Pending::Listing;
                            StepOutcome::Request(
                                ApiRequest::PrefixIndex {
                                    title: td,
                                    ns: Option::None,
                                    strategy: RedirectStrategy::All,
                                },
                            )
                        }
                    },
                }
            },
            Instruction::Toggle { dest, op } => {
                let d = *dest;
                let o = *op;
                match self.regs.get(o) {
                    Option::None => StepOutcome::Failed(SolveError::MissingRegister),
                    Option::Some(s) => {
                        let v = s.toggle_all();
                        self.regs.insert(d, v);
                        self.pc = pc + 1;
                        StepOutcome::Continue
                    },
                }
            },
            Instruction::Nop { dest, op } => {
                let d = *dest;
                let o = *op;
                match self.regs.get(o) {
                    Option::None => StepOutcome::Failed(SolveError::MissingRegister),
                    Option::Some(s) => {
                        let v = s.duplicate();
                        self.regs.insert(d, v);
                        self.pc = pc + 1;
                        StepOutcome::Continue
                    },
                }
            },
        }
    }

    /// Answer a pending title-parse request: the parsed titles, in the
    /// order their texts were given.  They are filtered by the stored
    /// namespace restriction and written to the pending register.
    pub fn provide_parsed(&mut self, parsed: Vec<Title>)
        requires
            old(self).wf(),
            old(self).is_parse(),
        ensures
            final(self).wf(),
            final(self).is_idle(),
            final(self).prog() == old(self).prog(),
            final(self).result_reg() == old(self).result_reg(),
            final(self).pc_spec() == old(self).pc_spec() + 1,
            final(self).regs_map() == old(self).regs_map().insert(
                old(self).pending_dest_spec(),
                filter_parsed(
                    parsed@.map_values(|t: Title| t@),
                    old(self).pending_ns_spec(),
                ),
            ),
    {
        let ghost ns = ns_view(self.pending_cs.ns);
        let mut ts = TitleSet::new();
        let mut i: usize = 0;
        let len = parsed.len();
        proof {
            assert(parsed@.map_values(|t: Title| t@).take(0) =~= Seq::<TitleKey>::empty());
        }
        while i < len
            invariant
                len == parsed@.len(),
                0 <= i <= len,
                ts.wf(),
                ns == ns_view(self.pending_cs.ns),
                self == old(self),
                ts@ == filter_parsed(parsed@.map_values(|t: Title| t@).take(i as int), ns),
            decreases len - i,
        {
            let keep = match &self.pending_cs.ns {
                Option::Some(s) => s.contains(parsed[i].namespace_id()),
                Option::None => true,
            };
            let ghost keys = parsed@.map_values(|t: Title| t@);
            proof {
                assert(keys.take(i as int + 1).drop_last() =~= keys.take(i as int));
                assert(keys.take(i as int + 1).last() == parsed@[i as int]@);
                assert(keep == ns_ok(ns, parsed@[i as int]@.ns));
            }
            if keep {
                ts.insert(parsed[i].duplicate());
            } else {
                proof {
                    assert(ts@ =~= filter_parsed(keys.take(i as int + 1), ns));
                }
            }
            i += 1;
        }
        proof {
            assert(parsed@.map_values(|t: Title| t@).take(len as int) =~= parsed@.map_values(
                |t: Title| t@,
            ));
        }
        let n = self.query.instructions.len();
        proof {
            assert(self.pc < n);
        }
        let dest = self.pending_dest;
        self.regs.insert(dest, ts);
        self.pending = Pending::Idle;
        self.pc = self.pc + 1;
    }

    /// Answer a pending listing request with its result set, written to
    /// the pending register.
    pub fn provide_listing(&mut self, result: TitleSet)
        requires
            old(self).wf(),
            old(self).is_listing(),
            result.wf(),
        ensures
            final(self).wf(),
            final(self).is_idle(),
            final(self).prog() == old(self).prog(),
            final(self).result_reg() == old(self).result_reg(),
            final(self).pc_spec() == old(self).pc_spec() + 1,
            final(self).regs_map() == old(self).regs_map().insert(
                old(self).pending_dest_spec(),
                result@,
            ),
    {
        let n = self.query.instructions.len();
        proof {
            assert(self.pc < n);
        }
        let dest = self.pending_dest;
        self.regs.insert(dest, result);
        self.pending = Pending::Idle;
        self.pc = self.pc + 1;
    }
}

} // verus!
