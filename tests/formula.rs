use expterminator::literal::{Assignment, Literal};
use expterminator::qbf::{universal_literals, Clause, QBFLiteral, CNF, QBF};
use std::collections::hash_map::DefaultHasher;
use std::hash::{Hash, Hasher};

fn lit(positive: bool, variable: usize) -> Literal {
    Literal {
        positive,
        variable,
        assignment: Assignment::new(),
    }
}

fn annotated(positive: bool, variable: usize, entries: &[(usize, bool)]) -> Literal {
    let mut a = Assignment::new();
    for (k, v) in entries {
        a.insert(*k, *v);
    }
    Literal {
        positive,
        variable,
        assignment: a,
    }
}

fn create1() -> QBF {
    let lit1 = lit(true, 0);
    let lit2 = annotated(false, 3, &[(2, true), (24, false)]);
    QBF {
        vars: vec![1, 2, 4, 2],
        cnf: CNF::from_clauses(vec![
            Clause::from_literals(vec![lit1, lit2]),
            Clause::from_literals(vec![]),
        ]),
    }
}

fn create2() -> QBF {
    let lit1 = lit(true, 0);
    let lit2 = annotated(false, 3, &[(2, true), (24, false)]);
    QBF {
        vars: vec![1, 2, 4, 2],
        cnf: CNF::from_clauses(vec![
            Clause::from_literals(vec![lit1.clone(), lit2.clone()]),
            Clause::from_literals(vec![lit1.invert()]),
            Clause::from_literals(vec![lit2.invert()]),
        ]),
    }
}

fn create3() -> QBF {
    let lit1 = lit(true, 0);
    let lit2 = annotated(false, 3, &[(2, true), (24, false)]);
    QBF {
        vars: vec![1, 2, 4, 2],
        cnf: CNF::from_clauses(vec![
            Clause::from_literals(vec![lit1.clone(), lit2.clone()]),
            Clause::from_literals(vec![lit1]),
            Clause::from_literals(vec![lit2.invert()]),
        ]),
    }
}

fn create4() -> QBF {
    let a = lit(true, 0);
    let b = lit(true, 1);
    let x = lit(true, 2);
    let y = lit(true, 3);
    let c = lit(true, 4);
    QBF {
        vars: vec![0, 0, 1, 1, 2],
        cnf: CNF::from_clauses(vec![
            Clause::from_literals(vec![b.clone().invert(), y.clone().invert(), c.clone()]),
            Clause::from_literals(vec![a.clone(), y.clone().invert(), c.clone()]),
            Clause::from_literals(vec![a.clone(), b.clone(), x.clone()]),
            Clause::from_literals(vec![b, x, y]),
        ]),
    }
}

fn create5() -> QBF {
    let u = lit(false, 1);
    let x = lit(true, 2);
    let v = lit(true, 3);
    let y = lit(false, 4);
    QBF {
        vars: vec![0, 1, 2, 3, 4],
        cnf: CNF::from_clauses(vec![Clause::from_literals(vec![u, x, v, y])]),
    }
}

fn create6() -> Clause {
    let x = annotated(true, 2, &[(1, true)]);
    let y = annotated(false, 4, &[(1, true), (3, false)]);
    Clause::from_literals(vec![x, y])
}

#[test]
fn display() {
    println!("{:?}", create1());
    println!("{:?}", create2());
    println!("{:?}", create3());
    println!("{:?}", create4());
    println!("{:?}", create5());
}

#[test]
fn implies_bot() {
    assert!(create1().cnf.implies_bot());
    assert!(create2().cnf.implies_bot());
    assert!(!create3().cnf.implies_bot());
}

#[test]
fn axiom_expansion() {
    let qbf = create5();
    let clause = qbf.expansion(qbf.cnf.clause(0)).unwrap();
    println!("{}", clause.to_text());
    assert_eq!(clause, create6());
}

#[test]
fn clause_eq() {
    let a = lit(true, 0);
    let b = lit(true, 1);
    assert_eq!(
        Clause::from_literals(vec![a.clone(), b.clone()]),
        Clause::from_literals(vec![a.clone(), b.clone()])
    );
    assert_eq!(
        Clause::from_literals(vec![a.clone(), b.clone()]),
        Clause::from_literals(vec![b.clone(), a.clone()])
    );
    assert!(Clause::from_literals(vec![a.clone(), b.clone()]) != Clause::from_literals(vec![a.clone()]));
}

#[test]
fn clause_hash() {
    let a = lit(true, 0);
    let b = lit(true, 1);
    let mut h1 = DefaultHasher::new();
    let c1 = Clause::from_literals(vec![a.clone(), b.clone()]);
    c1.hash(&mut h1);
    println!("h1:{}", c1.hash_helper());
    let mut h2 = DefaultHasher::new();
    let c2 = Clause::from_literals(vec![b.clone(), a.clone()]);
    c2.hash(&mut h2);
    println!("h2:{}", c2.hash_helper());
    assert_eq!(h1.finish(), h2.finish());
}

#[test]
fn qrat_literal() {
    let b = lit(true, 1);
    let x = lit(true, 2);
    let y = lit(true, 3);
    let qbf = create4();
    println!("qbf: {:?}", qbf);
    let clause = Clause::from_literals(vec![b, x, y.clone()]);
    let literal = y;
    assert!(qbf.is_qrat_literal(&clause, &literal));
}

#[test]
fn permuted_clauses_are_equal_and_hash_alike() {
    let l1 = lit(true, 3);
    let l2 = annotated(false, 2, &[(1, false), (5, true)]);
    let l3 = lit(false, 7);
    let orders = vec![
        vec![l1.clone(), l2.clone(), l3.clone()],
        vec![l3.clone(), l1.clone(), l2.clone()],
        vec![l2.clone(), l3.clone(), l1.clone(), l2.clone()],
    ];
    let first = Clause::from_literals(orders[0].clone());
    for o in orders {
        let c = Clause::from_literals(o);
        assert_eq!(c, first);
        assert_eq!(c.hash_helper(), first.hash_helper());
        let mut h1 = DefaultHasher::new();
        let mut h2 = DefaultHasher::new();
        c.hash(&mut h1);
        first.hash(&mut h2);
        assert_eq!(h1.finish(), h2.finish());
    }
    assert_eq!(first.len(), 3);
}

#[test]
fn annotation_insertion_order_is_irrelevant() {
    let a = annotated(true, 1, &[(9, true), (2, false), (5, true)]);
    let b = annotated(true, 1, &[(5, true), (9, true), (2, false)]);
    assert_eq!(a, b);
    assert!(a.var_eq(&b));
    assert_eq!(a.assignment.get(2), Some(false));
    assert_eq!(a.assignment.get(3), None);
    let mut c = Assignment::new();
    c.insert(4, true);
    c.insert(4, false);
    assert_eq!(c.len(), 1);
    assert_eq!(c.get(4), Some(false));
}

#[test]
fn inverse_involution() {
    let l = annotated(false, 6, &[(1, true)]);
    assert_eq!(l.clone().invert().invert(), l);
    assert!(l.is_inverse(&l.clone().invert()));
    assert!(!l.is_inverse(&l));
    assert!(!l.is_inverse(&lit(true, 6)));
}

#[test]
fn literal_order_and_purity() {
    let vars = vec![0, 1, 2, 2];
    let a = lit(true, 1);
    let b = annotated(false, 2, &[(1, true)]);
    let c = lit(true, 3);
    assert!(a.less(&b, &vars));
    assert!(!b.less(&c, &vars));
    assert!(b.less_equal(&c, &vars));
    assert!(!c.less_equal(&a, &vars));
    assert_eq!(b.cmp(&c, &vars), std::cmp::Ordering::Equal);
    assert!(!a.is_existential(&vars));
    assert!(b.is_existential(&vars));
    assert!(!b.is_pure());
    let p = b.clone().purify();
    assert!(p.is_pure());
    assert_eq!(p, lit(false, 2));
}

#[test]
fn unit_propagation_scenarios() {
    let x = lit(true, 1);
    let y = lit(true, 2);
    let chain = CNF::from_clauses(vec![
        Clause::from_literals(vec![x.clone().invert()]),
        Clause::from_literals(vec![x.clone(), y.clone().invert()]),
        Clause::from_literals(vec![y.clone()]),
    ]);
    assert!(chain.implies(&Clause::new()));
    assert!(chain.implies_bot());
    let open = CNF::from_clauses(vec![
        Clause::from_literals(vec![x.clone(), y.clone()]),
        Clause::from_literals(vec![x.clone()]),
    ]);
    assert!(!open.implies_bot());
    assert!(!open.implies(&Clause::new()));
    assert!(open.implies(&Clause::from_literals(vec![x.clone()])));
    assert!(!open.implies(&Clause::from_literals(vec![y.clone()])));
}

#[test]
fn outer_resolvent_domain() {
    let qbf = QBF::new(vec![0, 0, 1, 2], CNF::new());
    let a = lit(true, 1);
    let u = lit(true, 2);
    let e = lit(true, 3);
    let c = Clause::from_literals(vec![a.clone(), u.clone()]);
    let c2 = Clause::from_literals(vec![a.clone().invert(), e.clone(), u.clone().invert()]);
    assert!(qbf.outer_resolvent(&c, &e, &c2).is_none());
    assert!(qbf.outer_resolvent(&c, &u.clone().invert(), &c2).is_none());
    let r = qbf.outer_resolvent(&c, &u, &c2).unwrap();
    assert_eq!(r, Clause::from_literals(vec![a.clone(), a.clone().invert()]));
    assert!(!r.contains(&e));
    let r2 = qbf.outer_resolvent(&c, &a, &c2).unwrap();
    assert_eq!(r2, Clause::from_literals(vec![u.clone()]));
}

#[test]
fn qrat_clause_and_resolution() {
    let qbf = create4();
    let b = lit(true, 1);
    let x = lit(true, 2);
    let y = lit(true, 3);
    let clause = Clause::from_literals(vec![b.clone(), x.clone(), y.clone()]);
    assert!(!qbf.is_qrat_clause(&clause));
    let pure = QBF::new(vec![0, 0], CNF::from_clauses(vec![Clause::from_literals(vec![lit(true, 1)])]));
    assert!(pure.is_qrat_clause(&Clause::from_literals(vec![lit(true, 1)])));
    let free = QBF::new(
        vec![0, 0, 0],
        CNF::from_clauses(vec![Clause::from_literals(vec![lit(false, 1), lit(true, 2)])]),
    );
    assert!(!free.is_qrat_clause(&Clause::from_literals(vec![lit(true, 1)])));
    let f = QBF::new(
        vec![0, 0, 0, 0],
        CNF::from_clauses(vec![
            Clause::from_literals(vec![lit(true, 2)]),
            Clause::from_literals(vec![lit(true, 3)]),
        ]),
    );
    let c1 = Clause::from_literals(vec![lit(true, 1), lit(true, 2)]);
    let c2 = Clause::from_literals(vec![lit(false, 1), lit(true, 3)]);
    let r = f.resolution(&c1, &lit(true, 1), &c2).unwrap();
    assert_eq!(r, Clause::from_literals(vec![lit(true, 2), lit(true, 3)]));
    assert!(f.resolution(&c1, &lit(false, 1), &c2).is_none());
    let c3 = Clause::from_literals(vec![lit(false, 1), lit(true, 2), lit(true, 3)]);
    assert!(f.resolution(&c1, &lit(true, 1), &c3).is_none());
}

#[test]
fn expansion_has_one_copy_per_existential_literal() {
    let qbf = create5();
    let e = qbf.expansion(qbf.cnf.clause(0)).unwrap();
    assert_eq!(e.len(), 2);
    let x = e.literal(0);
    assert_eq!(x.variable, 2);
    assert_eq!(x.assignment.len(), 1);
    let y = e.literal(1);
    assert_eq!(y.variable, 4);
    assert_eq!(y.assignment.len(), 2);
    assert_eq!(y.assignment.get(3), Some(false));
    let absent = Clause::from_literals(vec![lit(true, 2)]);
    assert!(qbf.expansion(&absent).is_none());
}

#[test]
fn universal_literals_innermost_first() {
    let vars = vec![0, 3, 1, 2, 3, 1, 0];
    assert_eq!(universal_literals(&vars), vec![(3, 1), (3, 4), (1, 2), (1, 5)]);
    assert_eq!(universal_literals(&vec![0, 2]), vec![]);
}

#[test]
fn hash_values() {
    assert_eq!(lit(true, 3).hash_helper(), 3);
    assert_eq!(lit(false, 3).hash_helper(), 4);
    let a = annotated(true, 2, &[(1, true), (3, false)]);
    assert_eq!(a.assignment.hash_helper(), 9);
    assert_eq!(a.hash_helper(), 20);
    let c = Clause::from_literals(vec![lit(true, 3), lit(false, 3)]);
    assert_eq!(c.hash_helper(), 110);
    assert_eq!(Clause::new().hash_helper(), 1);
}

#[test]
fn signed_literals() {
    assert_eq!(QBFLiteral(-7).variable(), 7);
    assert_eq!(QBFLiteral(7).variable(), 7);
    assert_eq!(QBFLiteral(7).hash_helper(), 15);
    assert_eq!(QBFLiteral(-7).hash_helper(), 14);
    assert_eq!(QBFLiteral(-7).increase_var(3), QBFLiteral(-10));
    assert_eq!(QBFLiteral(7).increase_var(3), QBFLiteral(10));
    assert_eq!(QBFLiteral(-2).to_literal(), lit(false, 2));
    assert_eq!(QBFLiteral::from_literal(&lit(false, 2)), QBFLiteral(-2));
}

#[test]
fn literal_text_paints_the_annotation() {
    let l = annotated(false, 4, &[(1, true), (3, false)]);
    assert_eq!(l.to_text(), "¬4[\u{1b}[38;2;100;100;100m1,¬3\u{1b}[0m]");
    assert_eq!(lit(true, 12).to_text(), "12");
    let c = Clause::from_literals(vec![lit(true, 2), lit(false, 1)]);
    assert_eq!(c.to_text(), "¬1 2 ");
    assert_eq!(l.assignment.to_text(), "1,¬3");
}
