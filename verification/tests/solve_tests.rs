use plbot::api::{backlinks_collect, plan_backlinks, prefix_request, CatTraversal};
use plbot::ir::{Instruction, Query, RedirectStrategy, SetConstraint, SolveError, Title};
use plbot::jsonmodel::{JsonNode, PageEntry};
use plbot::nsset::NsSet;
use plbot::solve::{ApiRequest, Solver, StepOutcome};
use plbot::titleset::TitleSet;

fn ns_of(ids: &[i64]) -> NsSet {
    NsSet::from_vec(&ids.to_vec())
}

fn cs_ns(ids: &[i64]) -> SetConstraint {
    SetConstraint { ns: Some(ns_of(ids)), depth: None }
}

fn lit(dest: u64, titles: &[&str], cs: SetConstraint) -> Instruction {
    Instruction::SetLit {
        dest,
        titles: titles.iter().map(|s| s.to_string()).collect(),
        cs,
    }
}

/// A stub title parser: every literal parses into the main namespace.
fn parse_stub(texts: &[String]) -> Vec<Title> {
    texts.iter().map(|t| Title::new(0, t.clone())).collect()
}

/// Drive a query whose requests are all title parses, with the stub
/// parser answering.
fn run_parse_only(query: Query) -> Result<TitleSet, SolveError> {
    let mut solver = Solver::new(query);
    let mut requests = 0;
    loop {
        match solver.step() {
            StepOutcome::Continue => {}
            StepOutcome::Done(ts) => return Ok(ts),
            StepOutcome::Failed(e) => return Err(e),
            StepOutcome::Request(req) => match req {
                ApiRequest::ParseTitles { titles } => {
                    solver.provide_parsed(parse_stub(&titles));
                }
                _ => panic!("unexpected wiki listing request"),
            },
        }
        requests += 1;
        assert!(requests < 100);
    }
}

#[test]
fn union_intersect_scenario() {
    // S1: r0 = Set(["A","B"], ns={0}), r1 = Set(["B","C"], ns={0}),
    // r2 = And(r0, r1); result {B}.
    let q = Query {
        instructions: vec![
            lit(0, &["A", "B"], cs_ns(&[0])),
            lit(1, &["B", "C"], cs_ns(&[0])),
            Instruction::And { dest: 2, op1: 0, op2: 1 },
        ],
        result: 2,
    };
    let ts = run_parse_only(q).unwrap();
    assert_eq!(ts.count(), 1);
    assert!(ts.contains(&Title::new(0, "B".to_string())));
}

#[test]
fn toggle_cancel_scenario_output() {
    // S2 after the optimizer: solving yields {A} in the main namespace.
    let q = Query {
        instructions: vec![
            lit(0, &["A"], SetConstraint::unconstrained()),
            Instruction::Toggle { dest: 1, op: 0 },
            Instruction::Toggle { dest: 2, op: 1 },
        ],
        result: 2,
    };
    let plain = run_parse_only(Query {
        instructions: vec![
            lit(0, &["A"], SetConstraint::unconstrained()),
            Instruction::Toggle { dest: 1, op: 0 },
            Instruction::Toggle { dest: 2, op: 1 },
        ],
        result: 2,
    })
    .unwrap();
    let optimized = run_parse_only(plbot::optim::optimize(q)).unwrap();
    assert_eq!(plain.count(), 1);
    assert_eq!(optimized.count(), 1);
    assert!(plain.contains(&Title::new(0, "A".to_string())));
    assert!(optimized.contains(&Title::new(0, "A".to_string())));
}

#[test]
fn empty_ns_scenario_no_listing_requests() {
    // S3: after the optimizer the solve makes no listing request and
    // returns the empty set.
    let q = Query {
        instructions: vec![
            lit(0, &["A"], cs_ns(&[])),
            Instruction::LinkTo { dest: 1, op: 0, cs: cs_ns(&[4]) },
        ],
        result: 1,
    };
    let opt = plbot::optim::optimize(q);
    let ts = run_parse_only(opt).unwrap();
    assert_eq!(ts.count(), 0);
}

#[test]
fn set_operations() {
    let q = Query {
        instructions: vec![
            lit(0, &["A", "B", "C"], SetConstraint::unconstrained()),
            lit(1, &["B", "C", "D"], SetConstraint::unconstrained()),
            Instruction::Xor { dest: 2, op1: 0, op2: 1 },
            Instruction::Exclude { dest: 3, op1: 2, op2: 0 },
            Instruction::Or { dest: 4, op1: 3, op2: 3 },
        ],
        result: 4,
    };
    let ts = run_parse_only(q).unwrap();
    // Xor = {A, D}; Exclude {A,D} minus {A,B,C} = {D}.
    assert_eq!(ts.count(), 1);
    assert!(ts.contains(&Title::new(0, "D".to_string())));
}

#[test]
fn namespace_filter_on_literals() {
    let q = Query {
        instructions: vec![lit(0, &["A", "B"], cs_ns(&[4]))],
        result: 0,
    };
    // The stub parses everything into namespace 0, which {4} rejects.
    let ts = run_parse_only(q).unwrap();
    assert_eq!(ts.count(), 0);
}

#[test]
fn missing_register_fails() {
    let q = Query {
        instructions: vec![
            lit(0, &["A"], SetConstraint::unconstrained()),
            Instruction::And { dest: 1, op1: 0, op2: 9 },
        ],
        result: 1,
    };
    assert!(matches!(run_parse_only(q), Err(SolveError::MissingRegister)));
}

#[test]
fn missing_result_register_fails() {
    let q = Query { instructions: vec![lit(0, &["A"], SetConstraint::unconstrained())], result: 7 };
    assert!(matches!(run_parse_only(q), Err(SolveError::MissingRegister)));
}

#[test]
fn multi_page_source_fails_without_request() {
    // P6: a single-source operator over two titles fails and never asks
    // the wiki.
    let q = Query {
        instructions: vec![
            lit(0, &["A", "B"], SetConstraint::unconstrained()),
            Instruction::LinkTo { dest: 1, op: 0, cs: SetConstraint::unconstrained() },
        ],
        result: 1,
    };
    let mut solver = Solver::new(q);
    loop {
        match solver.step() {
            StepOutcome::Continue => {}
            StepOutcome::Done(_) => panic!("expected a failure"),
            StepOutcome::Failed(e) => {
                assert_eq!(e, SolveError::QueryForMultiplePages);
                break;
            }
            StepOutcome::Request(req) => match req {
                ApiRequest::ParseTitles { titles } => {
                    solver.provide_parsed(parse_stub(&titles));
                }
                _ => panic!("a listing request was made for a multi-title source"),
            },
        }
    }
}

#[test]
fn backlinks_request_carries_constraint() {
    let q = Query {
        instructions: vec![
            lit(0, &["A"], SetConstraint::unconstrained()),
            Instruction::LinkTo { dest: 1, op: 0, cs: cs_ns(&[4]) },
        ],
        result: 1,
    };
    let mut solver = Solver::new(q);
    let mut answered_parse = false;
    loop {
        match solver.step() {
            StepOutcome::Continue => {}
            StepOutcome::Done(ts) => {
                assert_eq!(ts.count(), 2);
                break;
            }
            StepOutcome::Failed(e) => panic!("unexpected failure: {:?}", e),
            StepOutcome::Request(req) => match req {
                ApiRequest::ParseTitles { titles } => {
                    assert!(!answered_parse);
                    answered_parse = true;
                    solver.provide_parsed(parse_stub(&titles));
                }
                ApiRequest::Backlinks { title, ns, level_2, strategy } => {
                    assert_eq!(title.namespace_id(), 0);
                    assert_eq!(title.text(), "A");
                    assert!(level_2);
                    assert_eq!(strategy, RedirectStrategy::All);
                    let ns = ns.expect("the constraint's namespaces ride along");
                    assert!(ns.contains(4));
                    let mut answer = TitleSet::new();
                    answer.insert(Title::new(4, "L1".to_string()));
                    answer.insert(Title::new(4, "L2".to_string()));
                    solver.provide_listing(answer);
                }
                _ => panic!("unexpected request"),
            },
        }
    }
}

#[test]
fn category_traversal_visits_cycle_once() {
    // S5: X contains subcat Y; Y contains X.  Unbounded depth visits each
    // exactly once; with namespaces {0} requested, the categories
    // themselves stay out of the result.
    let x = Title::new(14, "X".to_string());
    let mut tr = CatTraversal::new(x, &Some(ns_of(&[0])), -1);
    let q1 = tr.next_request().unwrap().expect("root request");
    assert_eq!(q1.title.text(), "X");
    assert!(q1.want_subcat);
    tr.provide_members(&vec![Title::new(14, "Y".to_string())]);
    let q2 = tr.next_request().unwrap().expect("subcategory request");
    assert_eq!(q2.title.text(), "Y");
    tr.provide_members(&vec![Title::new(14, "X".to_string())]);
    let done = tr.next_request().unwrap();
    assert!(done.is_none());
    let result = tr.finish();
    assert_eq!(result.count(), 0);
}

#[test]
fn category_traversal_keeps_categories_when_asked() {
    let x = Title::new(14, "X".to_string());
    let mut tr = CatTraversal::new(x, &None, 0);
    let q1 = tr.next_request().unwrap().expect("root request");
    // Depth 0 and no namespace restriction: subcategories are still
    // requested because categories belong in the result.
    assert!(q1.want_subcat && q1.want_page && q1.want_file);
    assert!(q1.server_ns.is_none());
    tr.provide_members(&vec![
        Title::new(14, "Y".to_string()),
        Title::new(0, "Page".to_string()),
    ]);
    // Depth 0 means no descent: Y is not enqueued.
    let done = tr.next_request().unwrap();
    assert!(done.is_none());
    let result = tr.finish();
    assert_eq!(result.count(), 2);
    assert!(result.contains(&Title::new(14, "Y".to_string())));
    assert!(result.contains(&Title::new(0, "Page".to_string())));
}

#[test]
fn category_traversal_rejects_non_category() {
    let a = Title::new(0, "A".to_string());
    let mut tr = CatTraversal::new(a, &None, 0);
    assert!(matches!(tr.next_request(), Err(SolveError::NotCategory)));
}

#[test]
fn level_2_backlinks_keep_inter_namespace_linkers() {
    // S6: a page links to a redirect of the target; the redirect and the
    // linking page live in namespace 4 while the target is in namespace
    // 0.  With level_2 the namespace filter must be applied locally.
    let response = JsonNode::Array(vec![PageEntry {
        ns: 4,
        title: "Wikipedia:R".to_string(),
        redirect: true,
        redirlinks: Some(Box::new(JsonNode::Array(vec![PageEntry {
            ns: 4,
            title: "Wikipedia:Linker".to_string(),
            redirect: false,
            redirlinks: None,
        }]))),
    }]);
    let plan = plan_backlinks(&Some(ns_of(&[4])), true, RedirectStrategy::All);
    assert!(plan.server_ns.is_none());
    assert!(plan.fetch_redirect_chains);
    let got = backlinks_collect(&response, &plan);
    assert!(got.contains(&Title::new(4, "Linker".to_string())));
    assert!(got.contains(&Title::new(4, "R".to_string())));

    // Without level_2 the filter rides server-side and no redirect chains
    // are fetched: the response holds only direct linkers.
    let plan2 = plan_backlinks(&Some(ns_of(&[4])), false, RedirectStrategy::All);
    assert!(plan2.server_ns.is_some());
    assert!(!plan2.fetch_redirect_chains);
    let direct_only = JsonNode::Array(vec![]);
    let got2 = backlinks_collect(&direct_only, &plan2);
    assert!(!got2.contains(&Title::new(4, "Linker".to_string())));
}

#[test]
fn no_redirect_strategy_drops_redirect_entries() {
    let response = JsonNode::Array(vec![PageEntry {
        ns: 0,
        title: "R".to_string(),
        redirect: true,
        redirlinks: None,
    }]);
    let plan = plan_backlinks(&None, true, RedirectStrategy::NoRedirect);
    let got = backlinks_collect(&response, &plan);
    assert_eq!(got.count(), 0);
}

#[test]
fn prefix_request_short_circuits_on_foreign_namespace() {
    let t = Title::new(0, "Abc".to_string());
    let r = prefix_request(&t, &Some(ns_of(&[4])), RedirectStrategy::All);
    assert!(r.is_none());
    let r2 = prefix_request(&t, &Some(ns_of(&[0])), RedirectStrategy::All);
    assert!(r2.is_some());
    let r3 = prefix_request(&t, &None, RedirectStrategy::NoRedirect);
    assert!(r3.is_some());
}

#[test]
fn embed_request_passes_namespaces_through() {
    let t = Title::new(10, "Infobox".to_string());
    let req = plbot::api::embed_request(&t, &Some(ns_of(&[0, 4])), RedirectStrategy::NoRedirect);
    match req {
        ApiRequest::EmbeddedIn { title, ns, strategy } => {
            assert_eq!(title.namespace_id(), 10);
            assert_eq!(title.text(), "Infobox");
            let ns = ns.expect("server-side filter rides along");
            assert!(ns.contains(0) && ns.contains(4) && !ns.contains(10));
            assert_eq!(strategy, RedirectStrategy::NoRedirect);
        }
        _ => panic!("expected an embedded-in request"),
    }
}

#[test]
fn collect_titles_deduplicates() {
    let tree = JsonNode::Array(vec![
        PageEntry { ns: 0, title: "A".to_string(), redirect: false, redirlinks: None },
        PageEntry { ns: 0, title: "A".to_string(), redirect: false, redirlinks: None },
        PageEntry { ns: 0, title: "B".to_string(), redirect: false, redirlinks: None },
    ]);
    let set = plbot::api::collect_titles(&tree);
    assert_eq!(set.count(), 2);
    assert!(set.contains(&Title::new(0, "A".to_string())));
    assert!(set.contains(&Title::new(0, "B".to_string())));
}

#[test]
fn redirect_strategy_wire_words() {
    assert_eq!(RedirectStrategy::NoRedirect.param_value(), "no redirect");
    assert_eq!(RedirectStrategy::OnlyRedirect.param_value(), "only redirects");
    assert_eq!(RedirectStrategy::All.param_value(), "all");
    assert!(matches!(SolveError::Transport, SolveError::Transport));
}
