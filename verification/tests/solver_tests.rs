use satsolver::encode::{contains_literal, merge_clauses, merge_into, VarMap};
use satsolver::expand::{all_assignments, expand, label_assignment};
use satsolver::lexer::get_tokens;
use satsolver::parser::{run_parser, Expression};
use satsolver::search::{clause_status, CNFRep, ClauseStatus};
use satsolver::solver::{solve, try_solve};

fn parse(text: &str) -> Expression {
    run_parser(get_tokens(String::from(text)).unwrap()).unwrap()
}

fn nnf(text: &str) -> String {
    parse(text).expr_to_nnf().to_string()
}

fn cnf(text: &str) -> String {
    parse(text).expr_to_nnf().nnf_to_cnf().to_string()
}

fn encode(text: &str) -> (Vec<Vec<i32>>, VarMap) {
    let mut varmap = VarMap::new();
    let clauses = parse(text)
        .expr_to_nnf()
        .nnf_to_cnf()
        .cnf_to_cnfrep_helper(&mut varmap);
    (clauses, varmap)
}

fn search(formula: Vec<Vec<i32>>) -> Vec<Vec<i32>> {
    CNFRep::new(formula).dpll()
}

fn models(text: &str) -> Vec<Vec<String>> {
    let mut result = solve(parse(text));
    for entry in result.iter_mut() {
        entry.sort();
    }
    result.sort();
    result
}

fn entries(rows: &[&[&str]]) -> Vec<Vec<String>> {
    let mut result: Vec<Vec<String>> = rows
        .iter()
        .map(|row| {
            let mut entry: Vec<String> = row.iter().map(|text| String::from(*text)).collect();
            entry.sort();
            entry
        })
        .collect();
    result.sort();
    result
}

fn status_text(status: ClauseStatus) -> String {
    match status {
        ClauseStatus::True => String::from("true"),
        ClauseStatus::False => String::from("false"),
        ClauseStatus::Single(literal) => format!("single {}", literal),
        ClauseStatus::Multiple(literals) => format!("multiple {:?}", literals),
    }
}

#[test]
fn nnf_drops_double_negation() {
    assert_eq!(nnf("!!A"), "A");
    assert_eq!(nnf("!!!A"), "!A");
}

#[test]
fn nnf_applies_de_morgan() {
    assert_eq!(nnf("!(A|B)"), "(!A & !B)");
    assert_eq!(nnf("!(A&B)"), "(!A | !B)");
    assert_eq!(nnf("!(A&!(B|C))"), "(!A | (B | C))");
}

#[test]
fn nnf_keeps_literals() {
    assert_eq!(nnf("A"), "A");
    assert_eq!(nnf("!A"), "!A");
    assert_eq!(nnf("A&!B|C"), "((A & !B) | C)");
}

#[test]
fn nnf_of_nnf_is_unchanged() {
    for text in ["A", "!A", "!(A|B)&C", "!(!(A&B)|!C)", "!!(A|!B)"] {
        let once = parse(text).expr_to_nnf();
        let text_once = once.to_string();
        assert_eq!(once.expr_to_nnf().to_string(), text_once);
    }
}

#[test]
fn distribute_splits_left_then_right() {
    let left = parse("A&B");
    let right = parse("C&D");
    assert_eq!(
        Expression::distribute(left, right).to_string(),
        "(((A | C) & (A | D)) & ((B | C) & (B | D)))"
    );
}

#[test]
fn distribute_without_conjunction_is_a_disjunction() {
    assert_eq!(
        Expression::distribute(parse("A|B"), parse("!C")).to_string(),
        "((A | B) | !C)"
    );
}

#[test]
fn cnf_distributes_or_over_and() {
    assert_eq!(cnf("A|B&C"), "((A | B) & (A | C))");
    assert_eq!(cnf("A&B|C"), "((A | C) & (B | C))");
    assert_eq!(cnf("A&B|C&D"), "(((A | C) & (A | D)) & ((B | C) & (B | D)))");
}

#[test]
fn cnf_keeps_conjunctions_of_clauses() {
    assert_eq!(cnf("(A|B)&(!C|D)"), "((A | B) & (!C | D))");
    assert_eq!(cnf("A"), "A");
    assert_eq!(cnf("!A"), "!A");
}

#[test]
fn cnf_doubles_at_each_level() {
    assert_eq!(
        cnf("A&B|C&D|E&F"),
        "((((A | (C | E)) & (A | (C | F))) & ((A | (D | E)) & (A | (D | F)))) \
         & (((B | (C | E)) & (B | (C | F))) & ((B | (D | E)) & (B | (D | F)))))"
    );
}

#[test]
fn var_map_numbers_from_one() {
    let mut varmap = VarMap::new();
    assert_eq!(varmap.len(), 0);
    assert_eq!(varmap.lookup(&String::from("A")), None);
    assert_eq!(varmap.update(String::from("A")), 1);
    assert_eq!(varmap.update(String::from("B")), 2);
    assert_eq!(varmap.update(String::from("C")), 3);
    assert_eq!(varmap.len(), 3);
    assert_eq!(varmap.lookup(&String::from("B")), Some(2));
    assert_eq!(varmap.lookup(&String::from("D")), None);
}

#[test]
fn reverse_lookup_gives_signed_names() {
    let mut varmap = VarMap::new();
    varmap.update(String::from("p"));
    varmap.update(String::from("q"));
    assert_eq!(varmap.reverse_lookup(1), "p");
    assert_eq!(varmap.reverse_lookup(2), "q");
    assert_eq!(varmap.reverse_lookup(-1), "!p");
    assert_eq!(varmap.reverse_lookup(-2), "!q");
}

#[test]
fn ids_follow_first_encounter() {
    let (clauses, varmap) = encode("(C|A)&(B|!C)&A");
    assert_eq!(clauses, vec![vec![1, 2], vec![3, -1], vec![2]]);
    assert_eq!(varmap.len(), 3);
    assert_eq!(varmap.reverse_lookup(1), "C");
    assert_eq!(varmap.reverse_lookup(2), "A");
    assert_eq!(varmap.reverse_lookup(3), "B");
}

#[test]
fn ids_follow_the_conjunctive_normal_form() {
    let (clauses, varmap) = encode("A&B|C");
    assert_eq!(clauses, vec![vec![1, 2], vec![3, 2]]);
    assert_eq!(varmap.reverse_lookup(2), "C");
    assert_eq!(varmap.reverse_lookup(3), "B");
}

#[test]
fn encoder_keeps_earlier_ids() {
    let mut varmap = VarMap::new();
    varmap.update(String::from("Z"));
    varmap.update(String::from("B"));
    let clauses = parse("A|!B").cnf_to_cnfrep_helper(&mut varmap);
    assert_eq!(clauses, vec![vec![3, -2]]);
    assert_eq!(varmap.len(), 3);
    assert_eq!(varmap.reverse_lookup(1), "Z");
    assert_eq!(varmap.reverse_lookup(3), "A");
}

#[test]
fn repeated_literals_collapse() {
    let (clauses, _) = encode("A|A|!B|A|!B");
    assert_eq!(clauses, vec![vec![1, -2]]);
}

#[test]
fn tautological_clause_is_kept() {
    let (clauses, _) = encode("A|!A");
    assert_eq!(clauses, vec![vec![1, -1]]);
}

#[test]
fn cnf_to_cnfrep_starts_with_empty_trail() {
    let mut varmap = VarMap::new();
    let rep = parse("(A|B)&!A").cnf_to_cnfrep(&mut varmap);
    assert_eq!(rep.formula, vec![vec![1, 2], vec![-1]]);
    assert!(rep.trues.is_empty());
}

#[test]
fn contains_literal_finds_exact_values() {
    let clause = vec![3, -1, 2];
    assert!(contains_literal(&clause, -1));
    assert!(!contains_literal(&clause, 1));
    assert!(!contains_literal(&Vec::new(), 1));
}

#[test]
fn merge_into_adds_missing_literals_in_order() {
    let mut clause = vec![1, -2];
    merge_into(&mut clause, &vec![-2, 3, 1, 3, -4]);
    assert_eq!(clause, vec![1, -2, 3, -4]);
}

#[test]
fn merge_clauses_unions_all() {
    assert_eq!(merge_clauses(&vec![vec![2, 1], vec![1, 3], vec![], vec![2]]), vec![2, 1, 3]);
    assert_eq!(merge_clauses(&Vec::new()), Vec::<i32>::new());
}

#[test]
fn clause_status_true() {
    assert_eq!(status_text(clause_status(&vec![1, -2], &vec![3, -2])), "true");
}

#[test]
fn clause_status_false() {
    assert_eq!(status_text(clause_status(&vec![1, -2], &vec![2, -1])), "false");
    assert_eq!(status_text(clause_status(&Vec::new(), &vec![1])), "false");
}

#[test]
fn clause_status_single() {
    assert_eq!(status_text(clause_status(&vec![1, -2, 3], &vec![-1, -3])), "single -2");
}

#[test]
fn clause_status_multiple() {
    assert_eq!(
        status_text(clause_status(&vec![1, -2, 3], &vec![-3])),
        "multiple [1, -2]"
    );
    assert_eq!(
        status_text(clause_status(&vec![4, -4], &Vec::new())),
        "multiple [4, -4]"
    );
}

#[test]
fn tautological_clause_is_true_once_decided() {
    assert_eq!(status_text(clause_status(&vec![4, -4], &vec![-4])), "true");
    assert_eq!(status_text(clause_status(&vec![4, -4], &vec![4])), "true");
}

#[test]
fn dpll_of_no_clauses_is_the_empty_trail() {
    assert_eq!(search(Vec::new()), vec![Vec::<i32>::new()]);
}

#[test]
fn dpll_of_empty_clause_has_no_result() {
    assert_eq!(search(vec![Vec::new()]), Vec::<Vec<i32>>::new());
}

#[test]
fn dpll_propagates_units() {
    assert_eq!(search(vec![vec![1], vec![-1, 2], vec![-2, 3]]), vec![vec![1, 2, 3]]);
}

#[test]
fn dpll_detects_conflict() {
    assert_eq!(search(vec![vec![1], vec![-1]]), Vec::<Vec<i32>>::new());
    assert_eq!(
        search(vec![vec![1, 2], vec![1, -2], vec![-1, 2], vec![-1, -2]]),
        Vec::<Vec<i32>>::new()
    );
}

#[test]
fn dpll_branches_on_last_scanned_literal() {
    assert_eq!(search(vec![vec![1, 2]]), vec![vec![2], vec![-2, 1]]);
    assert_eq!(
        search(vec![vec![1, 2], vec![3, 4]]),
        vec![vec![4, 2], vec![4, -2, 1], vec![-4, 3, 2], vec![-4, 3, -2, 1]]
    );
}

#[test]
fn dpll_stops_with_free_variables() {
    assert_eq!(search(vec![vec![1, 2, 3]]), vec![vec![3], vec![-3, 2], vec![-3, -2, 1]]);
}

#[test]
fn dpll_restores_the_trail() {
    let mut rep = CNFRep::new(vec![vec![1, 2], vec![-1, 3], vec![-3, -2]]);
    rep.trues.push(5);
    let formula = rep.formula.clone();
    let result = rep.dpll();
    assert_eq!(rep.trues, vec![5]);
    assert_eq!(rep.formula, formula);
    for solution in &result {
        assert_eq!(solution[0], 5);
    }
}

#[test]
fn dpll_extends_the_given_trail() {
    let mut rep = CNFRep::new(vec![vec![1, 2]]);
    rep.trues.push(-1);
    assert_eq!(rep.dpll(), vec![vec![-1, 2]]);
    assert_eq!(rep.trues, vec![-1]);
}

#[test]
fn all_assignments_of_a_total_solution_is_itself() {
    let mut varmap = VarMap::new();
    varmap.update(String::from("A"));
    varmap.update(String::from("B"));
    let mut solution = vec![-2, 1];
    assert_eq!(all_assignments(&varmap, &mut solution), vec![vec![-2, 1]]);
    assert_eq!(solution, vec![-2, 1]);
}

#[test]
fn all_assignments_branches_on_missing_ids_in_order() {
    let mut varmap = VarMap::new();
    varmap.update(String::from("A"));
    varmap.update(String::from("B"));
    varmap.update(String::from("C"));
    let mut solution = vec![-2];
    assert_eq!(
        all_assignments(&varmap, &mut solution),
        vec![vec![-2, 1, 3], vec![-2, 1, -3], vec![-2, -1, 3], vec![-2, -1, -3]]
    );
    assert_eq!(solution, vec![-2]);
}

#[test]
fn all_assignments_from_nothing_counts_two_to_the_k() {
    let mut varmap = VarMap::new();
    for name in ["A", "B", "C", "D"] {
        varmap.update(String::from(name));
    }
    let mut solution = Vec::new();
    let result = all_assignments(&varmap, &mut solution);
    assert_eq!(result.len(), 16);
    assert_eq!(result[0], vec![1, 2, 3, 4]);
    assert_eq!(result[15], vec![-1, -2, -3, -4]);
}

#[test]
fn label_assignment_writes_each_literal() {
    let mut varmap = VarMap::new();
    varmap.update(String::from("A"));
    varmap.update(String::from("B"));
    assert_eq!(label_assignment(&varmap, &vec![-2, 1]), vec!["!B", "A"]);
}

#[test]
fn expand_completes_and_labels() {
    let mut varmap = VarMap::new();
    varmap.update(String::from("A"));
    varmap.update(String::from("B"));
    let result = expand(varmap, vec![vec![2], vec![-2, 1]]);
    assert_eq!(
        result,
        vec![vec!["B", "A"], vec!["B", "!A"], vec!["!B", "A"]]
    );
}

#[test]
fn expand_of_no_solutions_is_empty() {
    let mut varmap = VarMap::new();
    varmap.update(String::from("A"));
    assert_eq!(expand(varmap, Vec::new()), Vec::<Vec<String>>::new());
}

#[test]
fn solve_single_variable() {
    assert_eq!(solve(parse("A")), vec![vec!["A"]]);
}

#[test]
fn solve_negated_variable() {
    assert_eq!(solve(parse("!A")), vec![vec!["!A"]]);
}

#[test]
fn solve_contradiction_has_no_models() {
    assert_eq!(solve(parse("A&!A")), Vec::<Vec<String>>::new());
    assert_eq!(solve(parse("(A|B)&!A&!B")), Vec::<Vec<String>>::new());
}

#[test]
fn solve_disjunction_has_three_models() {
    assert_eq!(
        solve(parse("A|B")),
        vec![vec!["B", "A"], vec!["B", "!A"], vec!["!B", "A"]]
    );
    assert_eq!(
        models("A|B"),
        entries(&[&["A", "B"], &["A", "!B"], &["!A", "B"]])
    );
}

#[test]
fn solve_tautology_lists_every_assignment() {
    assert_eq!(models("A|!A"), entries(&[&["A"], &["!A"]]));
    assert_eq!(
        models("(A|!A)&(B|!B)"),
        entries(&[&["A", "B"], &["A", "!B"], &["!A", "B"], &["!A", "!B"]])
    );
}

#[test]
fn solve_covers_every_variable_once() {
    let result = solve(parse("(a|b)&(c|!d)&e"));
    assert!(!result.is_empty());
    for entry in &result {
        let mut names: Vec<String> = entry
            .iter()
            .map(|text| text.trim_start_matches('!').to_string())
            .collect();
        names.sort();
        assert_eq!(names, vec!["a", "b", "c", "d", "e"]);
    }
}

#[test]
fn solve_lists_no_model_twice() {
    let result = models("(A|B)&(B|C)&(!A|!C)|D");
    for pair in result.windows(2) {
        assert_ne!(pair[0], pair[1]);
    }
    assert_eq!(result.len(), 8 + 3);
}

#[test]
fn solve_implication_chain() {
    assert_eq!(
        models("(!A|B)&(!B|C)&A"),
        entries(&[&["A", "B", "C"]])
    );
}

#[test]
fn solve_exclusive_or() {
    assert_eq!(
        models("(A|B)&!(A&B)"),
        entries(&[&["A", "!B"], &["!A", "B"]])
    );
}

#[test]
fn solve_multi_letter_names() {
    assert_eq!(
        models("rain & !umbrella"),
        entries(&[&["rain", "!umbrella"]])
    );
}

#[test]
fn try_solve_agrees_with_solve() {
    assert_eq!(try_solve(parse("A|B")), Some(solve(parse("A|B"))));
    assert_eq!(try_solve(parse("A&!A")), Some(Vec::new()));
}

#[test]
fn collect_names_keeps_first_occurrences() {
    let mut names = vec![String::from("B")];
    parse("A&B|!C&A").collect_names(&mut names);
    assert_eq!(names, vec!["B", "A", "C"]);
}

#[test]
fn cnf_leaves_negations_as_they_are() {
    assert_eq!(parse("!(A&B|C)").nnf_to_cnf().to_string(), "!((A & B) | C)");
    assert_eq!(parse("!A|B&C").nnf_to_cnf().to_string(), "((!A | B) & (!A | C))");
}

#[test]
fn encoder_numbers_exactly_the_variables() {
    let (clauses, varmap) = encode("(b|a)&(!a|c|b)&!c&(a|a)");
    assert_eq!(varmap.len(), 3);
    let mut names: Vec<String> = (1..=3).map(|id| varmap.reverse_lookup(id)).collect();
    assert_eq!(names, vec!["b", "a", "c"]);
    names.sort();
    assert_eq!(names, vec!["a", "b", "c"]);
    assert_eq!(clauses, vec![vec![1, 2], vec![-2, 3, 1], vec![-3], vec![2]]);
    for clause in &clauses {
        for (position, literal) in clause.iter().enumerate() {
            assert!(*literal != 0 && literal.abs() <= 3);
            assert!(!clause[..position].contains(literal));
        }
    }
}
