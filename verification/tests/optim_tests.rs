use plbot::constraint::{construct_constraints_from_vec, merge_constraints, Constraint};
use plbot::ir::{ConstraintError, Instruction, Query, SetConstraint, Title};
use plbot::nsset::NsSet;
use plbot::optim::optimize;

fn ns_of(ids: &[i64]) -> NsSet {
    NsSet::from_vec(&ids.to_vec())
}

fn cs_ns(ids: &[i64]) -> SetConstraint {
    SetConstraint { ns: Some(ns_of(ids)), depth: None }
}

fn lit(dest: u64, titles: &[&str], cs: SetConstraint) -> Instruction {
    Instruction::SetLit {
        dest,
        titles: titles.iter().map(|s| s.to_string()).collect(),
        cs,
    }
}

#[test]
fn merge_is_commutative_on_values() {
    let a = SetConstraint { ns: Some(ns_of(&[0, 4])), depth: Some(2) };
    let b = SetConstraint { ns: Some(ns_of(&[4, 6])), depth: None };
    let ab = merge_constraints(&a, &b).unwrap();
    let ba = merge_constraints(&b, &a).unwrap();
    let ab_ns = ab.ns.unwrap();
    let ba_ns = ba.ns.unwrap();
    assert!(ab_ns.contains(4) && ba_ns.contains(4));
    assert!(!ab_ns.contains(0) && !ba_ns.contains(0));
    assert!(!ab_ns.contains(6) && !ba_ns.contains(6));
    assert_eq!(ab.depth, Some(2));
    assert_eq!(ba.depth, Some(2));
}

#[test]
fn merge_is_associative_on_values() {
    let a = SetConstraint { ns: Some(ns_of(&[0, 4, 6])), depth: None };
    let b = SetConstraint { ns: Some(ns_of(&[4, 6])), depth: Some(2) };
    let c = SetConstraint { ns: Some(ns_of(&[6, 14])), depth: Some(2) };
    let left = merge_constraints(&merge_constraints(&a, &b).unwrap(), &c).unwrap();
    let bc = merge_constraints(&b, &c).unwrap();
    let right = merge_constraints(&a, &bc).unwrap();
    for n in [0, 4, 6, 14] {
        assert_eq!(left.ns.as_ref().unwrap().contains(n), n == 6);
        assert_eq!(right.ns.as_ref().unwrap().contains(n), n == 6);
    }
    assert_eq!(left.depth, Some(2));
    assert_eq!(right.depth, Some(2));
}

#[test]
fn merge_with_unconstrained_is_identity() {
    let a = SetConstraint { ns: Some(ns_of(&[0])), depth: Some(1) };
    let free = SetConstraint::unconstrained();
    let m = merge_constraints(&a, &free).unwrap();
    assert!(m.ns.as_ref().unwrap().contains(0));
    assert_eq!(m.depth, Some(1));
}

#[test]
fn merge_conflicting_depths_fails() {
    let a = SetConstraint { ns: None, depth: Some(1) };
    let b = SetConstraint { ns: None, depth: Some(2) };
    assert!(matches!(merge_constraints(&a, &b), Err(ConstraintError::ConflictDepth)));
}

#[test]
fn depth_conflict_in_clause_list() {
    let clauses = vec![Constraint::Depth(1), Constraint::Depth(2)];
    assert!(matches!(
        construct_constraints_from_vec(&clauses),
        Err(ConstraintError::ConflictDepth)
    ));
}

#[test]
fn clause_list_intersects_namespaces() {
    let clauses = vec![
        Constraint::Ns(vec![0, 4, 6]),
        Constraint::Ns(vec![4, 6, 14]),
        Constraint::Depth(3),
    ];
    let cs = construct_constraints_from_vec(&clauses).unwrap();
    let ns = cs.ns.unwrap();
    assert!(ns.contains(4) && ns.contains(6));
    assert!(!ns.contains(0) && !ns.contains(14));
    assert_eq!(cs.depth, Some(3));
}

#[test]
fn empty_clause_list_is_unconstrained() {
    let cs = construct_constraints_from_vec(&Vec::new()).unwrap();
    assert!(cs.ns.is_none());
    assert!(cs.depth.is_none());
}

#[test]
fn toggle_is_involutive() {
    let t = Title::new(0, "Test".to_string());
    let once = t.duplicate().toggle_talk();
    assert_eq!(once.namespace_id(), 1);
    let twice = once.toggle_talk();
    assert_eq!(twice.namespace_id(), 0);
    assert!(twice.key_eq(&t));
    let special = Title::new(-1, "Search".to_string());
    assert_eq!(special.toggle_talk().namespace_id(), -1);
}

#[test]
fn toggle_pair_cancels_and_elides() {
    // S2: r0 = Set(["A"], {}), r1 = Toggle(r0), r2 = Toggle(r1); result r2.
    let q = Query {
        instructions: vec![
            lit(0, &["A"], SetConstraint::unconstrained()),
            Instruction::Toggle { dest: 1, op: 0 },
            Instruction::Toggle { dest: 2, op: 1 },
        ],
        result: 2,
    };
    let opt = optimize(q);
    assert_eq!(opt.instructions.len(), 1);
    match &opt.instructions[0] {
        Instruction::SetLit { dest, titles, .. } => {
            assert_eq!(*dest, 0);
            assert_eq!(titles.len(), 1);
            assert_eq!(titles[0], "A");
        }
        _ => panic!("expected the literal leaf to survive"),
    }
    assert_eq!(opt.result, 0);
}

#[test]
fn single_toggle_survives() {
    let q = Query {
        instructions: vec![
            lit(0, &["A"], SetConstraint::unconstrained()),
            Instruction::Toggle { dest: 1, op: 0 },
        ],
        result: 1,
    };
    let opt = optimize(q);
    assert_eq!(opt.instructions.len(), 2);
    assert!(matches!(opt.instructions[1], Instruction::Toggle { dest: 1, op: 0 }));
    assert_eq!(opt.result, 1);
}

#[test]
fn empty_ns_clears_leaf() {
    // S3: r0 = Set(["A"], ns = empty), r1 = LinkTo(r0, ns={4}); result r1.
    let q = Query {
        instructions: vec![
            lit(0, &["A"], cs_ns(&[])),
            Instruction::LinkTo { dest: 1, op: 0, cs: cs_ns(&[4]) },
        ],
        result: 1,
    };
    let opt = optimize(q);
    // The leaf is emptied and unconstrained; nothing downstream can ask
    // the wiki anything (the executor short-circuits an empty operand).
    match &opt.instructions[0] {
        Instruction::SetLit { dest, titles, cs } => {
            assert_eq!(*dest, 0);
            assert!(titles.is_empty());
            assert!(cs.ns.is_none());
            assert!(cs.depth.is_none());
        }
        _ => panic!("expected a cleared literal leaf"),
    }
}

#[test]
fn empty_ns_collapses_producer_chain() {
    // The trigger sits above a relational operator: the whole producer
    // subtree collapses and the no-op pass elides it.
    let q = Query {
        instructions: vec![
            lit(0, &["A"], SetConstraint::unconstrained()),
            Instruction::Toggle { dest: 1, op: 0 },
            Instruction::LinkTo { dest: 2, op: 1, cs: cs_ns(&[]) },
        ],
        result: 2,
    };
    let opt = optimize(q);
    assert_eq!(opt.instructions.len(), 1);
    match &opt.instructions[0] {
        Instruction::SetLit { dest, titles, .. } => {
            assert_eq!(*dest, 0);
            assert!(titles.is_empty());
        }
        _ => panic!("expected a cleared literal leaf"),
    }
    assert_eq!(opt.result, 0);
}

#[test]
fn nop_elision_substitutes_operands() {
    let q = Query {
        instructions: vec![
            lit(0, &["A"], SetConstraint::unconstrained()),
            Instruction::Nop { dest: 1, op: 0 },
            Instruction::Nop { dest: 2, op: 1 },
            Instruction::Toggle { dest: 3, op: 2 },
        ],
        result: 3,
    };
    let opt = optimize(q);
    assert_eq!(opt.instructions.len(), 2);
    assert!(matches!(opt.instructions[1], Instruction::Toggle { dest: 3, op: 0 }));
    assert_eq!(opt.result, 3);
}

#[test]
fn optimize_twice_gives_same_program() {
    let q = Query {
        instructions: vec![
            lit(0, &["A", "B"], cs_ns(&[0])),
            lit(4, &["C"], SetConstraint::unconstrained()),
            Instruction::Toggle { dest: 5, op: 4 },
            Instruction::Toggle { dest: 6, op: 5 },
            Instruction::Or { dest: 7, op1: 0, op2: 6 },
        ],
        result: 7,
    };
    let once = optimize(q);
    let shape1: Vec<String> = once.instructions.iter().map(|i| format!("{:?}", view_shape(i))).collect();
    let r1 = once.result;
    let twice = optimize(once);
    let shape2: Vec<String> = twice.instructions.iter().map(|i| format!("{:?}", view_shape(i))).collect();
    assert_eq!(shape1, shape2);
    assert_eq!(r1, twice.result);
}

fn view_shape(i: &Instruction) -> (u64, Vec<u64>, Vec<String>) {
    match i {
        Instruction::SetLit { dest, titles, .. } => (*dest, vec![], titles.clone()),
        Instruction::And { dest, op1, op2 } => (*dest, vec![*op1, *op2], vec!["and".into()]),
        Instruction::Or { dest, op1, op2 } => (*dest, vec![*op1, *op2], vec!["or".into()]),
        Instruction::Exclude { dest, op1, op2 } => (*dest, vec![*op1, *op2], vec!["ex".into()]),
        Instruction::Xor { dest, op1, op2 } => (*dest, vec![*op1, *op2], vec!["xor".into()]),
        Instruction::LinkTo { dest, op, .. } => (*dest, vec![*op], vec!["link".into()]),
        Instruction::InCat { dest, op, .. } => (*dest, vec![*op], vec!["cat".into()]),
        Instruction::Prefix { dest, op } => (*dest, vec![*op], vec!["prefix".into()]),
        Instruction::Toggle { dest, op } => (*dest, vec![*op], vec!["toggle".into()]),
        Instruction::Nop { dest, op } => (*dest, vec![*op], vec!["nop".into()]),
    }
}
