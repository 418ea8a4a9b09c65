//! The adapter for the wiki's listings: how each request is shaped, how
//! responses are folded into title sets, and the breadth-first traversal
//! of the category graph.  The caller performs the transport; everything
//! decided here is verified.

use vstd::prelude::*;
use crate::ir::{RedirectStrategy, SolveError, Title, TitleKey};
use crate::jsonmodel::{result_array_to_titles_ex, titles_of_node, JsonNode};
use crate::nsset::{NsSet, NS_CATEGORY, NS_FILE};
use crate::solve::{filter_parsed, ns_view};
use crate::titleset::TitleSet;

verus! {

/// How a backlinks listing is to be made and post-processed.  When pages
/// linking through redirects are wanted (`fetch_redirect_chains`), the
/// server-side namespace filter would hide an inter-namespace redirect
/// chain and lose valid results, so no server filter is sent and the
/// restriction is applied locally instead.
pub struct BacklinksPlan {
    /// The namespace filter to send with the request, if any.
    pub server_ns: Option<NsSet>,
    /// Whether to ask the server for nested redirect chains.
    pub fetch_redirect_chains: bool,
    /// The namespace filter to apply to the flattened result, if any.
    pub local_ns: Option<NsSet>,
    /// Whether redirect entries themselves stay in the result.
    pub keep_redirects: bool,
}

/// Decide how a backlinks listing is made: with `level_2` the namespace
/// restriction moves from the request to local post-processing.
pub fn plan_backlinks(ns: &Option<NsSet>, level_2: bool, strategy: RedirectStrategy) -> (r:
    BacklinksPlan)
    requires
        match ns {
            Option::Some(s) => s.wf(),
            Option::None => true,
        },
    ensures
        r.fetch_redirect_chains == level_2,
        r.keep_redirects == !(strategy is NoRedirect),
        level_2 ==> r.server_ns is None && ns_view(r.local_ns) == ns_view(*ns),
        !level_2 ==> ns_view(r.server_ns) == ns_view(*ns) && r.local_ns is None,
        match r.server_ns {
            Option::Some(s) => s.wf(),
            Option::None => true,
        },
        match r.local_ns {
            Option::Some(s) => s.wf(),
            Option::None => true,
        },
{
    let dup = match ns {
        Option::Some(s) => Option::Some(s.duplicate()),
        Option::None => Option::None,
    };
    if level_2 {
        BacklinksPlan {
            server_ns: Option::None,
            fetch_redirect_chains: true,
            local_ns: dup,
            keep_redirects: strategy.keeps_redirects(),
        }
    } else {
        BacklinksPlan {
            server_ns: dup,
            fetch_redirect_chains: false,
            local_ns: Option::None,
            keep_redirects: strategy.keeps_redirects(),
        }
    }
}

/// Fold a backlinks response into a title set under a plan: the tree is
/// flattened (redirect entries kept as the plan says) and the local
/// namespace restriction, when present, is applied.
pub fn backlinks_collect(tree: &JsonNode, plan: &BacklinksPlan) -> (r: TitleSet)
    requires
        match plan.local_ns {
            Option::Some(s) => s.wf(),
            Option::None => true,
        },
    ensures
        r.wf(),
        r@ == filter_parsed(
            titles_of_node(*tree, plan.keep_redirects),
            ns_view(plan.local_ns),
        ),
{
    let flat = result_array_to_titles_ex(tree, plan.keep_redirects);
    let mut r = TitleSet::new();
    let mut i: usize = 0;
    let len = flat.len();
    let ghost keys = flat@.map_values(|t: Title| t@);
    proof {
        assert(keys.take(0) =~= Seq::<TitleKey>::empty());
    }
    while i < len
        invariant
            len == flat@.len(),
            0 <= i <= len,
            r.wf(),
            keys == flat@.map_values(|t: Title| t@),
            match plan.local_ns {
                Option::Some(s) => s.wf(),
                Option::None => true,
            },
            r@ == filter_parsed(keys.take(i as int), ns_view(plan.local_ns)),
        decreases len - i,
    {
        let keep = match &plan.local_ns {
            Option::Some(s) => s.contains(flat[i].namespace_id()),
            Option::None => true,
        };
        proof {
            assert(keys.take(i as int + 1).drop_last() =~= keys.take(i as int));
            assert(keys.take(i as int + 1).last() == flat@[i as int]@);
        }
        if keep {
            r.insert(flat[i].duplicate());
        }
        i += 1;
    }
    proof {
        assert(keys.take(len as int) =~= keys);
    }
    r
}

/// Fold any listing response into the set of all titles it names.
pub fn collect_titles(tree: &JsonNode) -> (r: TitleSet)
    ensures
        r.wf(),
        r@ == titles_of_node(*tree, true).to_set(),
{
    let flat = result_array_to_titles_ex(tree, true);
    let mut r = TitleSet::new();
    let mut i: usize = 0;
    let len = flat.len();
    let ghost keys = flat@.map_values(|t: Title| t@);
    while i < len
        invariant
            len == flat@.len(),
            0 <= i <= len,
            r.wf(),
            keys == flat@.map_values(|t: Title| t@),
            forall|k: TitleKey|
                r@.contains(k) == exists|j: int| 0 <= j < i && (#[trigger] keys[j]) == k,
        decreases len - i,
    {
        r.insert(flat[i].duplicate());
        proof {
            assert forall|k: TitleKey|
                r@.contains(k) == exists|j: int| 0 <= j < i + 1 && (#[trigger] keys[j]) == k by {
                if k == keys[i as int] {
                    assert(keys[i as int] == k);
                }
            }
        }
        i += 1;
    }
    proof {
        assert(r@ =~= titles_of_node(*tree, true).to_set()) by {
            assert forall|k: TitleKey| keys.to_set().contains(k) implies r@.contains(k) by {
                let j = choose|j: int| 0 <= j < keys.len() && keys[j] == k;
                assert(keys[j] == k);
            }
            assert forall|k: TitleKey| r@.contains(k) implies keys.to_set().contains(k) by {
                let j = choose|j: int| 0 <= j < len && (#[trigger] keys[j]) == k;
                assert(keys.contains(k));
            }
        }
    }
    r
}

/// Build a prefix-index request, or answer the empty set outright: the
/// prefix index is namespace-scoped, so a restriction that excludes the
/// title's own namespace cannot match anything and no request is made.
pub fn prefix_request(title: &Title, ns: &Option<NsSet>, strategy: RedirectStrategy) -> (r: Option<
    crate::solve::ApiRequest,
>)
    ensures
        match r {
            Option::None => match *ns {
                Option::Some(s) => !s@.contains(title@.ns),
                Option::None => false,
            },
            Option::Some(req) => req@ == (crate::solve::ReqView::PrefixIndex {
                title: title@,
                ns: Option::None,
                strategy,
            }) && ns_ok_opt(ns_view(*ns), title@.ns),
        },
{
    match ns {
        Option::Some(s) => {
            if !s.contains(title.namespace_id()) {
                return Option::None;
            }
        },
        Option::None => {},
    }
    Option::Some(
        crate::solve::ApiRequest::PrefixIndex {
            title: title.duplicate(),
            ns: Option::None,
            strategy,
        },
    )
}

/// Whether a namespace id passes an optional restriction.
pub open spec fn ns_ok_opt(ns: Option<Set<int>>, n: int) -> bool {
    crate::solve::ns_ok(ns, n)
}

/// Build an embedding-in request; the namespace restriction rides along
/// server-side.
pub fn embed_request(title: &Title, ns: &Option<NsSet>, strategy: RedirectStrategy) -> (req:
    crate::solve::ApiRequest)
    ensures
        req@ == (crate::solve::ReqView::EmbeddedIn {
            title: title@,
            ns: ns_view(*ns),
            strategy,
        }),
{
    let dup = match ns {
        Option::Some(s) => Option::Some(s.duplicate()),
        Option::None => Option::None,
    };
    crate::solve::ApiRequest::EmbeddedIn { title: title.duplicate(), ns: dup, strategy }
}

/// One category-members request: which member kinds to ask for and the
/// server-side namespace filter.  Because of the server's miser mode,
/// files and subcategories must be requested by member kind, not by
/// namespace alone.
pub struct CatQuery {
    /// The category to list.
    pub title: Title,
    /// Ask for regular pages.
    pub want_page: bool,
    /// Ask for files.
    pub want_file: bool,
    /// Ask for subcategories.
    pub want_subcat: bool,
    /// The namespace filter to send, if the caller restricted namespaces.
    pub server_ns: Option<NsSet>,
}

/// How one response folds into the traversal: walking the members in
/// order, each unvisited subcategory is marked visited and enqueued one
/// level deeper (levels saturate at the largest machine level).
pub open spec fn absorb(ms: Seq<TitleKey>, visited: Set<TitleKey>, lvl: int, des: bool) -> (
    Set<TitleKey>,
    Seq<(TitleKey, int)>,
)
    decreases ms.len(),
{
    if ms.len() == 0 {
        (visited, Seq::empty())
    } else {
        let s = absorb(ms.drop_last(), visited, lvl, des);
        let m = ms.last();
        if des && m.ns == NS_CATEGORY as int && !s.0.contains(m) {
            (s.0.insert(m), s.1.push((m, if lvl < i64::MAX as int { lvl + 1 } else { lvl })))
        } else {
            s
        }
    }
}

/// The members a response contributes to the result: category-namespace
/// entries stay only when the caller asked for categories.
pub open spec fn kept_members(ms: Seq<TitleKey>, keep_cat: bool) -> Set<TitleKey>
    decreases ms.len(),
{
    if ms.len() == 0 {
        Set::empty()
    } else {
        let rest = kept_members(ms.drop_last(), keep_cat);
        if keep_cat || ms.last().ns != NS_CATEGORY as int {
            rest.insert(ms.last())
        } else {
            rest
        }
    }
}

/// A breadth-first traversal of the category graph, which may contain
/// cycles: a visited set seeded with the root keeps every category from
/// being listed twice.  The traversal emits one request per category and
/// absorbs each response; the caller loops until no request is left.
pub struct CatTraversal {
    result: TitleSet,
    visited: TitleSet,
    queue: Vec<(Title, i64)>,
    depth: i64,
    ns_rest: Option<NsSet>,
    want_page: bool,
    want_file: bool,
    want_category: bool,
    awaiting: bool,
    pending_level: i64,
}

impl CatTraversal {
    /// The titles collected so far.
    pub closed spec fn result_set(&self) -> Set<TitleKey> {
        self.result@
    }

    /// The categories already seen.
    pub closed spec fn visited_set(&self) -> Set<TitleKey> {
        self.visited@
    }

    /// The categories still to visit, with their levels.
    pub closed spec fn queue_seq(&self) -> Seq<(TitleKey, int)> {
        self.queue@.map_values(|p: (Title, i64)| (p.0@, p.1 as int))
    }

    /// The requested depth bound; negative means unbounded.
    pub closed spec fn depth_spec(&self) -> int {
        self.depth as int
    }

    /// Whether the traversal descends below a node at this level.
    pub open spec fn descend_at(&self, lvl: int) -> bool {
        self.depth_spec() < 0 || lvl < self.depth_spec()
    }

    /// Whether category-namespace members stay in the result.
    pub closed spec fn keeps_categories(&self) -> bool {
        self.want_category
    }

    /// Whether a response is pending.
    pub closed spec fn awaiting_spec(&self) -> bool {
        self.awaiting
    }

    /// The level of the category whose response is pending.
    pub closed spec fn pending_level_spec(&self) -> int {
        self.pending_level as int
    }

    /// The traversal's internal invariant.
    pub closed spec fn wf(&self) -> bool {
        &&& self.result.wf()
        &&& self.visited.wf()
        &&& match self.ns_rest {
            Option::Some(s) => s.wf(),
            Option::None => true,
        }
    }

    /// Start a traversal at a category title.  A namespace restriction is
    /// split: files and categories must be requested by member kind, the
    /// rest rides as the server-side filter; with no restriction all
    /// three kinds are wanted.
    pub fn new(title: Title, ns: &Option<NsSet>, depth: i64) -> (s: CatTraversal)
        requires
            match ns {
                Option::Some(x) => x.wf(),
                Option::None => true,
            },
        ensures
            s.wf(),
            !s.awaiting_spec(),
            s.result_set() == Set::<TitleKey>::empty(),
            s.visited_set() == Set::<TitleKey>::empty().insert(title@),
            s.queue_seq() == seq![(title@, 0int)],
            s.depth_spec() == depth as int,
            s.keeps_categories() == match ns_view(*ns) {
                Option::Some(x) => x.contains(NS_CATEGORY as int),
                Option::None => true,
            },
    {
        let (ns_rest, want_page, want_file, want_category) = match ns {
            Option::Some(x) => {
                let want_category = x.contains(NS_CATEGORY);
                let want_file = x.contains(NS_FILE);
                let rest = x.remove(NS_CATEGORY);
                let rest = rest.remove(NS_FILE);
                let want_page = !rest.is_empty();
                (Option::Some(rest), want_page, want_file, want_category)
            },
            Option::None => (Option::None, true, true, true),
        };
        let mut visited = TitleSet::new();
        let mut queue: Vec<(Title, i64)> = Vec::new();
        visited.insert(title.duplicate());
        queue.push((title, 0));
        let s = CatTraversal {
            result: TitleSet::new(),
            visited,
            queue,
            depth,
            ns_rest,
            want_page,
            want_file,
            want_category,
            awaiting: false,
            pending_level: 0,
        };
        proof {
            assert(s.queue_seq() =~= seq![(s.queue@[0].0@, 0int)]);
        }
        s
    }

    /// Take the next category to list.  `Ok(None)` means the traversal is
    /// complete.  A queued title outside the category namespace is a
    /// corrupt graph and fails with `NotCategory`.  Subcategories are
    /// requested when the caller asked for categories or descent below
    /// this node is still allowed.
    pub fn next_request(&mut self) -> (r: Result<Option<CatQuery>, SolveError>)
        requires
            old(self).wf(),
            !old(self).awaiting_spec(),
        ensures
            final(self).wf(),
            final(self).depth_spec() == old(self).depth_spec(),
            final(self).keeps_categories() == old(self).keeps_categories(),
            final(self).result_set() == old(self).result_set(),
            final(self).visited_set() == old(self).visited_set(),
            match r {
                Result::Ok(Option::None) => old(self).queue_seq().len() == 0 && *final(self)
                    == *old(self),
                Result::Ok(Option::Some(q)) => {
                    &&& old(self).queue_seq().len() > 0
                    &&& old(self).queue_seq()[0].0.ns == NS_CATEGORY as int
                    &&& q.title@ == old(self).queue_seq()[0].0
                    &&& q.want_subcat == (old(self).keeps_categories() || old(self).descend_at(
                        old(self).queue_seq()[0].1,
                    ))
                    &&& final(self).queue_seq() == old(self).queue_seq().drop_first()
                    &&& final(self).awaiting_spec()
                    &&& final(self).pending_level_spec() == old(self).queue_seq()[0].1
                },
                Result::Err(e) => e == SolveError::NotCategory && old(self).queue_seq().len() > 0
                    && old(self).queue_seq()[0].0.ns != NS_CATEGORY as int,
            },
    {
        if self.queue.len() == 0 {
            return Result::Ok(Option::None);
        }
        let (t, lvl) = self.queue.remove(0);
        proof {
            assert(old(self).queue_seq()[0] == (t@, lvl as int));
            assert(self.queue_seq() =~= old(self).queue_seq().drop_first());
        }
        if t.namespace_id() != NS_CATEGORY {
            let ghost q0 = old(self).queue_seq();
            self.queue.insert(0, (t, lvl));
            proof {
                assert(self.queue_seq() =~= q0);
            }
            return Result::Err(SolveError::NotCategory);
        }
        let want_subcat = if self.want_category {
            true
        } else if self.depth < 0 {
            true
        } else {
            lvl < self.depth
        };
        let server_ns = match &self.ns_rest {
            Option::Some(rest) => {
                let mut cm = rest.duplicate();
                if self.want_file {
                    cm.insert(NS_FILE);
                }
                if want_subcat {
                    cm.insert(NS_CATEGORY);
                }
                Option::Some(cm)
            },
            Option::None => Option::None,
        };
        let q = CatQuery {
            title: t,
            want_page: self.want_page,
            want_file: self.want_file,
            want_subcat,
            server_ns,
        };
        self.awaiting = true;
        self.pending_level = lvl;
        Result::Ok(Option::Some(q))
    }

    /// Absorb one response: unvisited subcategories are enqueued one
    /// level deeper when descent is allowed, and the members join the
    /// result, category-namespace entries only when asked for.
    pub fn provide_members(&mut self, members: &Vec<Title>)
        requires
            old(self).wf(),
            old(self).awaiting_spec(),
        ensures
            final(self).wf(),
            !final(self).awaiting_spec(),
            final(self).depth_spec() == old(self).depth_spec(),
            final(self).keeps_categories() == old(self).keeps_categories(),
            final(self).visited_set() == absorb(
                members@.map_values(|t: Title| t@),
                old(self).visited_set(),
                old(self).pending_level_spec(),
                old(self).descend_at(old(self).pending_level_spec()),
            ).0,
            final(self).queue_seq() == old(self).queue_seq().add(
                absorb(
                    members@.map_values(|t: Title| t@),
                    old(self).visited_set(),
                    old(self).pending_level_spec(),
                    old(self).descend_at(old(self).pending_level_spec()),
                ).1,
            ),
            final(self).result_set() == old(self).result_set().union(
                kept_members(
                    members@.map_values(|t: Title| t@),
                    old(self).keeps_categories(),
                ),
            ),
    {
        let des = if self.depth < 0 {
            true
        } else {
            self.pending_level < self.depth
        };
        let lvl = self.pending_level;
        let next_lvl: i64 = if lvl < i64::MAX {
            lvl + 1
        } else {
            lvl
        };
        let ghost ms = members@.map_values(|t: Title| t@);
        let ghost v0 = self.visited@;
        let ghost q0 = self.queue_seq();
        let ghost r0 = self.result@;
        let mut i: usize = 0;
        let len = members.len();
        proof {
            assert(ms.take(0) =~= Seq::<TitleKey>::empty());
            assert(q0.add(Seq::<(TitleKey, int)>::empty()) =~= q0);
            assert(r0.union(Set::<TitleKey>::empty()) =~= r0);
        }
        while i < len
            invariant
                len == members@.len(),
                0 <= i <= len,
                ms == members@.map_values(|t: Title| t@),
                self.wf(),
                self.awaiting == old(self).awaiting,
                self.depth == old(self).depth,
                self.want_category == old(self).want_category,
                self.want_page == old(self).want_page,
                self.want_file == old(self).want_file,
                self.ns_rest == old(self).ns_rest,
                self.pending_level == old(self).pending_level,
                des == (old(self).depth_spec() < 0 || old(self).pending_level_spec() < old(
                    self,
                ).depth_spec()),
                lvl == old(self).pending_level,
                next_lvl as int == (if (lvl as int) < (i64::MAX as int) {
                    lvl as int + 1
                } else {
                    lvl as int
                }),
                v0 == old(self).visited_set(),
                q0 == old(self).queue_seq(),
                r0 == old(self).result_set(),
                self.visited@ == absorb(ms.take(i as int), v0, lvl as int, des).0,
                self.queue_seq() == q0.add(absorb(ms.take(i as int), v0, lvl as int, des).1),
                self.result@ == r0.union(kept_members(ms.take(i as int), self.want_category)),
            decreases len - i,
        {
            proof {
                assert(ms.take(i as int + 1).drop_last() =~= ms.take(i as int));
                assert(ms.take(i as int + 1).last() == members@[i as int]@);
            }
            let m = &members[i];
            let is_cat = m.namespace_id() == NS_CATEGORY;
            let ghost qbefore = self.queue_seq();
            if des && is_cat && !self.visited.contains(m) {
                self.visited.insert(m.duplicate());
                self.queue.push((m.duplicate(), next_lvl));
                proof {
                    assert(self.queue_seq() =~= qbefore.push((members@[i as int]@, next_lvl as int)));
                }
            }
            if self.want_category || !is_cat {
                self.result.insert(m.duplicate());
            } else {
                proof {
                    assert(self.result@ =~= r0.union(
                        kept_members(ms.take(i as int + 1), self.want_category),
                    ));
                }
            }
            proof {
                assert(self.result@ =~= r0.union(
                    kept_members(ms.take(i as int + 1), self.want_category),
                ));
                assert(self.queue_seq() =~= q0.add(
                    absorb(ms.take(i as int + 1), v0, lvl as int, des).1,
                ));
            }
            i += 1;
        }
        proof {
            assert(ms.take(len as int) =~= ms);
        }
        self.awaiting = false;
    }

    /// The traversal's accumulated result.
    pub fn finish(self) -> (r: TitleSet)
        requires
            self.wf(),
        ensures
            r.wf(),
            r@ == self.result_set(),
    {
        self.result
    }
}

/// Absorbing a response pays for every enqueued category out of the
/// unvisited remainder of the (finite) category graph: the unvisited
/// count plus the queue length never grows.
pub proof fn lemma_absorb_measure(
    ms: Seq<TitleKey>,
    visited: Set<TitleKey>,
    lvl: int,
    des: bool,
    cats: Set<TitleKey>,
)
    requires
        cats.finite(),
        forall|j: int|
            0 <= j < ms.len() && (#[trigger] ms[j]).ns == NS_CATEGORY as int ==> cats.contains(
                ms[j],
            ),
    ensures
        cats.difference(absorb(ms, visited, lvl, des).0).len() + absorb(ms, visited, lvl, des).1.len()
            <= cats.difference(visited).len(),
    decreases ms.len(),
{
    if ms.len() == 0 {
    } else {
        let rest = ms.drop_last();
        assert forall|j: int|
            0 <= j < rest.len() && (#[trigger] rest[j]).ns == NS_CATEGORY as int implies cats
            .contains(rest[j]) by {
            assert(rest[j] == ms[j]);
        }
        lemma_absorb_measure(rest, visited, lvl, des, cats);
        let s = absorb(rest, visited, lvl, des);
        let m = ms.last();
        if des && m.ns == NS_CATEGORY as int && !s.0.contains(m) {
            assert(m == ms[ms.len() - 1]);
            assert(cats.contains(m));
            assert(cats.difference(s.0.insert(m)) =~= cats.difference(s.0).remove(m));
            assert(cats.difference(s.0).contains(m));
            assert(cats.difference(s.0).finite());
            assert(cats.difference(s.0).remove(m).len() == cats.difference(s.0).len() - 1);
        } else {
        }
    }
}

/// Every round of the traversal — taking one category off the queue and
/// absorbing its members — strictly decreases the number of unvisited
/// categories of the graph plus the queue length.  The traversal over a
/// finite category graph therefore terminates, cycles included.
pub proof fn lemma_traversal_round_decreases(
    ms: Seq<TitleKey>,
    visited: Set<TitleKey>,
    queue: Seq<(TitleKey, int)>,
    lvl: int,
    des: bool,
    cats: Set<TitleKey>,
)
    requires
        cats.finite(),
        queue.len() > 0,
        forall|j: int|
            0 <= j < ms.len() && (#[trigger] ms[j]).ns == NS_CATEGORY as int ==> cats.contains(
                ms[j],
            ),
    ensures
        cats.difference(absorb(ms, visited, lvl, des).0).len() + queue.drop_first().len() + absorb(
            ms,
            visited,
            lvl,
            des,
        ).1.len() < cats.difference(visited).len() + queue.len(),
{
    lemma_absorb_measure(ms, visited, lvl, des, cats);
}

} // verus!
