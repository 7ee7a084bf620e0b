use std::collections::BTreeSet;

use satsolver::lexer::get_tokens;
use satsolver::parser::{run_parser, Expression};
use satsolver::solver::solve;

fn parse(text: &str) -> Expression {
    run_parser(get_tokens(String::from(text)).unwrap()).unwrap()
}

fn eval(formula: &Expression, truth: &BTreeSet<String>) -> bool {
    match formula {
        Expression::Var(name) => truth.contains(name),
        Expression::Not(inner) => !eval(inner, truth),
        Expression::And(left, right) => eval(left, truth) && eval(right, truth),
        Expression::Or(left, right) => eval(left, truth) || eval(right, truth),
    }
}

fn variables(formula: &Expression, names: &mut BTreeSet<String>) {
    match formula {
        Expression::Var(name) => {
            names.insert(name.clone());
        }
        Expression::Not(inner) => variables(inner, names),
        Expression::And(left, right) | Expression::Or(left, right) => {
            variables(left, names);
            variables(right, names);
        }
    }
}

fn assignments(names: &BTreeSet<String>) -> Vec<BTreeSet<String>> {
    let names: Vec<&String> = names.iter().collect();
    let mut result = Vec::new();
    for bits in 0..(1u32 << names.len()) {
        let mut truth = BTreeSet::new();
        for (position, name) in names.iter().enumerate() {
            if bits & (1 << position) != 0 {
                truth.insert((*name).clone());
            }
        }
        result.push(truth);
    }
    result
}

fn is_nnf(formula: &Expression) -> bool {
    match formula {
        Expression::Var(_) => true,
        Expression::Not(inner) => matches!(**inner, Expression::Var(_)),
        Expression::And(left, right) | Expression::Or(left, right) => {
            is_nnf(left) && is_nnf(right)
        }
    }
}

fn is_clause(formula: &Expression) -> bool {
    match formula {
        Expression::Or(left, right) => is_clause(left) && is_clause(right),
        Expression::And(_, _) => false,
        _ => is_nnf(formula),
    }
}

fn is_cnf(formula: &Expression) -> bool {
    match formula {
        Expression::And(left, right) => is_cnf(left) && is_cnf(right),
        _ => is_clause(formula),
    }
}

fn listing(entry: &[String]) -> (BTreeSet<String>, BTreeSet<String>) {
    let mut named = BTreeSet::new();
    let mut truth = BTreeSet::new();
    for text in entry {
        match text.strip_prefix('!') {
            Some(name) => {
                assert!(named.insert(name.to_string()));
            }
            None => {
                assert!(named.insert(text.clone()));
                truth.insert(text.clone());
            }
        }
    }
    (named, truth)
}

const FORMULAS: [&str; 12] = [
    "A",
    "!A",
    "A&!A",
    "A|!A",
    "A|B&C",
    "!(A|B)&C",
    "!(A&B)|!(C&!D)",
    "(A|B)&(!A|C)&(!B|!C)",
    "!(!(p&q)|!(r|s))",
    "a&b|c&d|e&f",
    "(x|y|z)&(!x|!y)&(!y|!z)&(!x|!z)",
    "!!(!a|!!b)&!(c&!(d|a))",
];

#[test]
fn nnf_keeps_truth_and_has_the_shape() {
    for text in FORMULAS {
        let formula = parse(text);
        let normal = parse(text).expr_to_nnf();
        assert!(is_nnf(&normal), "{}", text);
        let mut names = BTreeSet::new();
        variables(&formula, &mut names);
        for truth in assignments(&names) {
            assert_eq!(eval(&normal, &truth), eval(&formula, &truth), "{}", text);
        }
    }
}

#[test]
fn cnf_keeps_truth_and_has_the_shape() {
    for text in FORMULAS {
        let formula = parse(text);
        let normal = parse(text).expr_to_nnf().nnf_to_cnf();
        assert!(is_cnf(&normal), "{}", text);
        let mut names = BTreeSet::new();
        variables(&formula, &mut names);
        let mut normal_names = BTreeSet::new();
        variables(&normal, &mut normal_names);
        assert_eq!(normal_names, names, "{}", text);
        for truth in assignments(&names) {
            assert_eq!(eval(&normal, &truth), eval(&formula, &truth), "{}", text);
        }
    }
}

#[test]
fn distribute_is_a_disjunction() {
    let pairs = [("A&B", "C"), ("A", "B&C"), ("A&(B&C)", "(D&E)&F"), ("A|B", "!C")];
    for (left, right) in pairs {
        let joined = Expression::distribute(parse(left), parse(right));
        let mut names = BTreeSet::new();
        variables(&joined, &mut names);
        for truth in assignments(&names) {
            assert_eq!(
                eval(&joined, &truth),
                eval(&parse(left), &truth) || eval(&parse(right), &truth)
            );
        }
    }
}

#[test]
fn solve_lists_exactly_the_models() {
    for text in FORMULAS {
        let formula = parse(text);
        let mut names = BTreeSet::new();
        variables(&formula, &mut names);
        let expected: BTreeSet<BTreeSet<String>> = assignments(&names)
            .into_iter()
            .filter(|truth| eval(&formula, truth))
            .collect();
        let result = solve(parse(text));
        let mut listed = BTreeSet::new();
        for entry in &result {
            let (named, truth) = listing(entry);
            assert_eq!(named, names, "{}", text);
            assert!(listed.insert(truth), "{}", text);
        }
        assert_eq!(listed, expected, "{}", text);
    }
}
