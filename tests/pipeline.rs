use expterminator::literal::Literal;
use expterminator::parse::{parse_proof, parse_qdimacs, ParseError};
use expterminator::qbf::Clause;
use expterminator::rules::{AllExpResRule, QRATRule};
use expterminator::translate::{translate, TranslateError};

fn clause(lits: &[isize]) -> Clause {
    let v: Vec<Literal> = lits
        .iter()
        .map(|x| Literal::new(*x > 0, x.unsigned_abs()))
        .collect();
    Clause::from_literals(v)
}

fn lines(rules: &[QRATRule]) -> String {
    rules.iter().map(|r| r.to_line()).collect::<Vec<_>>().join("")
}

fn run(formula: &str, proof: &str) -> Result<String, TranslateError> {
    let (clauses, vars) = parse_qdimacs(formula.to_string()).unwrap();
    let (table, rules) = parse_proof(proof.to_string()).unwrap();
    translate(&clauses, &vars, &table, &rules).map(|r| lines(&r))
}

#[test]
fn parses_a_qdimacs_file() {
    let text = "c a comment\nc another\np cnf 4 2\ne 1 0\ne 3 0\na 2 0\ne 4 0\n1 -2 0\n-3 4 2 0\n";
    let (clauses, vars) = parse_qdimacs(text.to_string()).unwrap();
    assert_eq!(vars, vec![0, 0, 1, 0, 2]);
    assert_eq!(clauses.len(), 2);
    assert_eq!(clauses[0], clause(&[1, -2]));
    assert_eq!(clauses[1], clause(&[2, -3, 4]));
}

#[test]
fn first_universal_line_opens_block_one() {
    let (_, vars) = parse_qdimacs("p cnf 3 0\r\na 1 2 0\r\ne 3 0\r\n".to_string()).unwrap();
    assert_eq!(vars, vec![0, 1, 1, 2]);
}

#[test]
fn qdimacs_errors() {
    assert_eq!(parse_qdimacs("".to_string()), Err(ParseError::Preamble));
    assert_eq!(parse_qdimacs("c only\n".to_string()), Err(ParseError::Preamble));
    assert_eq!(parse_qdimacs("p dnf 1 1\n".to_string()), Err(ParseError::Preamble));
    assert_eq!(parse_qdimacs("p cnf x 1\n".to_string()), Err(ParseError::Preamble));
    assert_eq!(parse_qdimacs("p cnf 2 1\ne 3 0\n1 0\n".to_string()), Err(ParseError::Quantifier));
    assert_eq!(parse_qdimacs("p cnf 2 1\ne 1\n1 0\n".to_string()), Err(ParseError::Quantifier));
    assert_eq!(parse_qdimacs("p cnf 2 1\ne 1 0\n1 2\n".to_string()), Err(ParseError::Clause));
    assert_eq!(parse_qdimacs("p cnf 2 2\ne 1 0\n1 2 0\n".to_string()), Err(ParseError::Clause));
    assert_eq!(parse_qdimacs("p cnf 2 1\ne 1 0\n1 5 0\n".to_string()), Err(ParseError::Clause));
}

#[test]
fn parses_a_proof() {
    let text = "x 1 2 0 5 6 0\nx 0 7 0\n3 5 -6 0 1 0\n4 -7 0 3 2\n";
    let (table, rules) = parse_proof(text.to_string()).unwrap();
    assert_eq!(table, vec![0, 5, 6, 7]);
    assert_eq!(rules.len(), 2);
    match &rules[0] {
        AllExpResRule::Axiom(c, a) => {
            assert_eq!(*c, clause(&[5, -6]));
            assert_eq!(*a, 1);
        }
        _ => panic!("expected an expansion step"),
    }
    match &rules[1] {
        AllExpResRule::Resolution(c, a1, a2) => {
            assert_eq!(*c, clause(&[-7]));
            assert_eq!((*a1, *a2), (3, 2));
        }
        _ => panic!("expected a resolution step"),
    }
}

#[test]
fn proof_errors() {
    assert_eq!(parse_proof("".to_string()).err(), Some(ParseError::Annotation));
    assert_eq!(parse_proof("x 1 0 5\n1 0 1 0\n".to_string()).err(), Some(ParseError::Annotation));
    assert_eq!(parse_proof("x 1 0 5 0\n".to_string()).err(), Some(ParseError::Annotation));
    assert_eq!(parse_proof("1 2 0 1\n".to_string()).err(), Some(ParseError::Rule));
    assert_eq!(parse_proof("a 2 0 1 0\n".to_string()).err(), Some(ParseError::Rule));
}

#[test]
fn bridging_round_trip() {
    let clauses = vec![clause(&[1, 2])];
    let vars = vec![0, 0, 1, 0];
    let table = vec![0, 5];
    let rules: Vec<AllExpResRule> = vec![];
    let out = translate(&clauses, &vars, &table, &rules).unwrap();
    assert_eq!(
        lines(&out),
        "a 5 4 0\n-4 5 0\n4 -5 0\nd 1 2 0\nd -4 5 0\nd 4 -5 0\n"
    );
    match (&out[1], &out[2], &out[4], &out[5]) {
        (
            QRATRule::AddClause(a),
            QRATRule::AddClause(b),
            QRATRule::RemoveClause(c),
            QRATRule::RemoveClause(d),
        ) => {
            assert_eq!(*a, clause(&[5, -4]));
            assert_eq!(*b, clause(&[-5, 4]));
            assert_eq!(c, a);
            assert_eq!(d, b);
        }
        _ => panic!("unexpected rule kinds"),
    }
}

#[test]
fn universal_elimination_innermost_block_first() {
    let clauses = vec![clause(&[1, 2, 3, 4])];
    let vars = vec![0, 1, 0, 3, 2];
    let table = vec![0];
    let rules = vec![AllExpResRule::Axiom(clause(&[]), 1)];
    let out = translate(&clauses, &vars, &table, &rules).unwrap();
    assert_eq!(lines(&out), "1 2 3 4 0\nd 1 2 3 4 0\nu 3 1 2 4 0\nu 1 2 4 0\n");
}

#[test]
fn end_to_end_scenario() {
    let formula = "p cnf 2 1\ne 1 0\na 2 0\n1 2 0\n";
    assert_eq!(run(formula, "1 0 1 0\n").unwrap(), "1 2 0\nd 1 2 0\nu 2 1 0\n");
    assert_eq!(
        run(formula, "x 1 2 0 1 0\n2 1 0 1 0\n").unwrap(),
        "a 1 3 0\n1 -3 0\n-1 3 0\n2 3 0\nd 1 2 0\nd 1 -3 0\nd -1 3 0\nu 2 3 0\n"
    );
}

#[test]
fn resolution_steps_are_shifted() {
    let formula = "p cnf 2 1\ne 1 0\na 2 0\n1 2 0\n";
    let proof = "x 1 2 0 1 0\n2 1 0 1 0\n3 0 2 1\n4 -1 0 2 1\n";
    let out = run(formula, proof).unwrap();
    assert!(out.ends_with("u 2 3 0\n0\n-3 0\n"));
}

#[test]
fn translation_errors() {
    let clauses = vec![clause(&[1, 2])];
    let vars = vec![0, 0, 1];
    let table = vec![0, 1];
    let bad_index = vec![AllExpResRule::Axiom(clause(&[1]), 2)];
    assert_eq!(
        translate(&clauses, &vars, &table, &bad_index).err(),
        Some(TranslateError::AntecedentOutOfRange)
    );
    let zero_index = vec![AllExpResRule::Axiom(clause(&[1]), 0)];
    assert_eq!(
        translate(&clauses, &vars, &table, &zero_index).err(),
        Some(TranslateError::AntecedentOutOfRange)
    );
    let no_copy = vec![AllExpResRule::Axiom(clause(&[2]), 1)];
    assert_eq!(
        translate(&clauses, &vars, &table, &no_copy).err(),
        Some(TranslateError::VariableOutOfRange)
    );
    let empty_map: Vec<usize> = vec![];
    assert_eq!(
        translate(&clauses, &empty_map, &table, &vec![]).err(),
        Some(TranslateError::VariableOutOfRange)
    );
    let huge = vec![AllExpResRule::Resolution(clause(&[isize::MAX]), 1, 1)];
    assert!(translate(&clauses, &vars, &table, &huge).is_ok());
    let too_big = vec![AllExpResRule::Resolution(
        Clause::from_literals(vec![Literal::new(true, usize::MAX)]),
        1,
        1,
    )];
    assert_eq!(
        translate(&clauses, &vars, &table, &too_big).err(),
        Some(TranslateError::VariableOutOfRange)
    );
}

#[test]
fn rule_lines() {
    assert_eq!(QRATRule::AddVariable(12, 340).to_line(), "a 12 340 0\n");
    assert_eq!(QRATRule::AddClause(clause(&[])).to_line(), "0\n");
    assert_eq!(QRATRule::RemoveClause(clause(&[-3, 10])).to_line(), "d -3 10 0\n");
    assert_eq!(QRATRule::RemoveLiteral(clause(&[7]), -2).to_line(), "u -2 7 0\n");
    assert_eq!(QRATRule::RemoveLiteral(clause(&[7]), isize::MIN).to_line(), format!("u {} 7 0\n", isize::MIN));
}
