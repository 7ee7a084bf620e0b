//! How integer clauses and total assignments relate to the truth of the
//! formula they were made from.
use crate::encode::{
    any_contains, id_of, label, lemma_merge_all_contains, lemma_numbered_split, merge_all,
    numbered,
};
use crate::expand::{
    complete_all, completions, labels, lemma_completion, lemma_completion_within,
    lemma_missing_within, lemma_sign_pattern, missing, sign_patterns, within,
};
use crate::parser::SpecExpr;
use crate::search::{
    agrees, all_solutions, covers, distinct_variables, exclusive, holds, is_solution,
    lemma_negated, mentions, negated, pairwise_exclusive, proper, satisfied, satisfies,
    satisfies_clause, variable, variable_occurs,
};
use vstd::prelude::*;
use vstd::set_lib::{lemma_int_range, set_int_range};

verus! {

/// The integer model of an assignment of names: the ids of the names in
/// `truth`.
pub open spec fn model_of(names: Seq<Seq<char>>, truth: Set<Seq<char>>) -> Set<int> {
    Set::new(|id: int| 1 <= id <= names.len() && truth.contains(names[id - 1]))
}

/// The assignment of names of an integer model: the names of the ids in
/// `model`.
pub open spec fn truth_of(names: Seq<Seq<char>>, model: Set<int>) -> Set<Seq<char>> {
    Set::new(
        |name: Seq<char>|
            exists|id: int| 1 <= id <= names.len() && #[trigger] names[id - 1] == name
                && model.contains(id),
    )
}

/// The ids that a total assignment commits positively.
pub open spec fn positives(assignment: Seq<i32>) -> Set<int> {
    Set::new(|id: int| 1 <= id <= i32::MAX && assignment.contains(id as i32))
}

/// A total assignment over the ids from 1 to `count`: every id is
/// committed, none twice, and nothing else is.
pub open spec fn total(count: int, assignment: Seq<i32>) -> bool {
    &&& within(count, assignment)
    &&& distinct_variables(assignment)
    &&& forall|id: int| 1 <= id <= count ==> mentions(assignment, id)
}

/// A variable name as it is listed in an assignment: bare when true,
/// behind a `!` when false.
pub open spec fn signed(name: Seq<char>, positive: bool) -> Seq<char> {
    if positive {
        name
    } else {
        seq!['!'] + name
    }
}

/// `text` lists one of `variables` with the polarity it has in `truth`.
pub open spec fn lists_one(
    text: Seq<char>,
    variables: Set<Seq<char>>,
    truth: Set<Seq<char>>,
) -> bool {
    exists|name: Seq<char>|
        variables.contains(name) && text == #[trigger] signed(name, truth.contains(name))
}

/// `entry` lists the assignment `truth` of `variables`: it has one text
/// for each variable, every variable is listed with the polarity it has
/// in `truth`, and every text lists a variable so.
pub open spec fn lists(
    entry: Seq<Seq<char>>,
    variables: Set<Seq<char>>,
    truth: Set<Seq<char>>,
) -> bool {
    &&& entry.len() == variables.len()
    &&& forall|name: Seq<char>|
        variables.contains(name) ==> entry.contains(#[trigger] signed(name, truth.contains(name)))
    &&& forall|j: int| 0 <= j < entry.len() ==> lists_one(#[trigger] entry[j], variables, truth)
}

/// `entry` lists an assignment under which `formula` is true.
pub open spec fn is_model_listing(entry: Seq<Seq<char>>, formula: SpecExpr) -> bool {
    exists|truth: Set<Seq<char>>| #[trigger]
        lists(entry, formula.variables(), truth) && formula.eval(truth)
}

/// Some entry lists the assignment `truth` of `variables`.
pub open spec fn listed(
    entries: Seq<Seq<Seq<char>>>,
    variables: Set<Seq<char>>,
    truth: Set<Seq<char>>,
) -> bool {
    exists|i: int| 0 <= i < entries.len() && lists(#[trigger] entries[i], variables, truth)
}

/// The id of a numbered name is that of the place where it stands, and
/// its two literals tell whether the name is true.
proof fn lemma_literal(names: Seq<Seq<char>>, name: Seq<char>, truth: Set<Seq<char>>)
    requires
        names.no_duplicates(),
        names.len() <= i32::MAX,
        names.contains(name),
    ensures
        1 <= id_of(names, name) <= names.len(),
        names[id_of(names, name) - 1] == name,
        variable(id_of(names, name) as i32) == id_of(names, name),
        variable((-id_of(names, name)) as i32) == id_of(names, name),
        holds(model_of(names, truth), id_of(names, name) as i32) == truth.contains(name),
        holds(model_of(names, truth), (-id_of(names, name)) as i32) == !truth.contains(name),
{
    let at = names.index_of(name);
    assert(0 <= at < names.len() && names[at] == name);
}

/// The literals of an encoded formula are over the ids of its names.
pub proof fn lemma_clauses_within(formula: SpecExpr, names: Seq<Seq<char>>)
    requires
        formula.is_nnf(),
        names.no_duplicates(),
        names.len() <= i32::MAX,
        numbered(formula, names),
    ensures
        forall|c: int|
            0 <= c < formula.clauses(names).len() ==> within(
                names.len() as int,
                #[trigger] formula.clauses(names)[c],
            ),
    decreases formula,
{
    let count = names.len() as int;
    match formula {
        SpecExpr::Var(name) => {
            assert(formula.leaves()[0] == name);
            lemma_literal(names, name, Set::empty());
            let clause = formula.clauses(names)[0];
            assert forall|i: int| 0 <= i < clause.len() implies 1 <= variable(
                #[trigger] clause[i],
            ) <= count by {
                assert(clause[i] == id_of(names, name) as i32);
            }
        },
        SpecExpr::Not(inner) => {
            let name = inner->Var_0;
            assert(inner.leaves() =~= seq![name]);
            assert(formula.leaves()[0] == name);
            lemma_literal(names, name, Set::empty());
            let clause = formula.clauses(names)[0];
            assert forall|i: int| 0 <= i < clause.len() implies 1 <= variable(
                #[trigger] clause[i],
            ) <= count by {
                assert(clause[i] == (-id_of(names, name)) as i32);
            }
        },
        SpecExpr::And(left, right) => {
            assert(formula.leaves() == left.leaves() + right.leaves());
            lemma_numbered_split(*left, *right, names);
            lemma_clauses_within(*left, names);
            lemma_clauses_within(*right, names);
            let first = left.clauses(names);
            let both = formula.clauses(names);
            assert forall|c: int| 0 <= c < both.len() implies within(count, #[trigger] both[c]) by {
                if c < first.len() {
                    assert(both[c] == first[c]);
                } else {
                    assert(both[c] == right.clauses(names)[c - first.len()]);
                }
            }
        },
        SpecExpr::Or(left, right) => {
            assert(formula.leaves() == left.leaves() + right.leaves());
            lemma_numbered_split(*left, *right, names);
            lemma_clauses_within(*left, names);
            lemma_clauses_within(*right, names);
            let parts = left.clauses(names) + right.clauses(names);
            let merged = merge_all(parts);
            lemma_merge_all_contains(parts);
            assert forall|i: int| 0 <= i < merged.len() implies 1 <= variable(
                #[trigger] merged[i],
            ) <= count by {
                assert(merged.contains(merged[i]));
                assert(any_contains(parts, merged[i]));
                let k = choose|k: int|
                    0 <= k < parts.len() && (#[trigger] parts[k]).contains(merged[i]);
                assert(within(count, parts[k])) by {
                    if k < left.clauses(names).len() {
                        assert(parts[k] == left.clauses(names)[k]);
                    } else {
                        assert(parts[k] == right.clauses(names)[k - left.clauses(names).len()]);
                    }
                }
                let at = parts[k].index_of(merged[i]);
                assert(parts[k][at] == merged[i]);
            }
            assert(formula.clauses(names)[0] == merged);
        },
    }
}

/// The clause of a disjunction of literals is true in the integer model
/// of an assignment exactly when the disjunction is true under the
/// assignment.
pub proof fn lemma_clause_eval(formula: SpecExpr, names: Seq<Seq<char>>, truth: Set<Seq<char>>)
    requires
        formula.is_clause(),
        names.no_duplicates(),
        names.len() <= i32::MAX,
        numbered(formula, names),
    ensures
        formula.clauses(names).len() == 1,
        satisfies_clause(model_of(names, truth), formula.clauses(names)[0]) == formula.eval(truth),
    decreases formula,
{
    let model = model_of(names, truth);
    let clause = formula.clauses(names)[0];
    match formula {
        SpecExpr::Var(name) => {
            assert(formula.leaves()[0] == name);
            lemma_literal(names, name, truth);
            assert(clause =~= seq![id_of(names, name) as i32]);
            if formula.eval(truth) {
                assert(holds(model, clause[0]));
            }
            if satisfies_clause(model, clause) {
                let i = choose|i: int| 0 <= i < clause.len() && holds(model, #[trigger] clause[i]);
                assert(i == 0);
            }
        },
        SpecExpr::Not(inner) => {
            let name = inner->Var_0;
            assert(inner.leaves() =~= seq![name]);
            assert(formula.leaves()[0] == name);
            lemma_literal(names, name, truth);
            assert(clause =~= seq![(-id_of(names, name)) as i32]);
            assert(*inner == SpecExpr::Var(name));
            assert(inner.eval(truth) == truth.contains(name));
            assert(formula.eval(truth) == !truth.contains(name));
            if formula.eval(truth) {
                assert(holds(model, clause[0]));
            }
            if satisfies_clause(model, clause) {
                let i = choose|i: int| 0 <= i < clause.len() && holds(model, #[trigger] clause[i]);
                assert(i == 0);
            }
        },
        SpecExpr::And(_, _) => {},
        SpecExpr::Or(left, right) => {
            assert(formula.leaves() == left.leaves() + right.leaves());
            lemma_numbered_split(*left, *right, names);
            lemma_clause_eval(*left, names, truth);
            lemma_clause_eval(*right, names, truth);
            let first = left.clauses(names)[0];
            let second = right.clauses(names)[0];
            let parts = left.clauses(names) + right.clauses(names);
            assert(parts =~= seq![first, second]);
            lemma_merge_all_contains(parts);
            assert(clause == merge_all(parts));
            if satisfies_clause(model, clause) {
                let i = choose|i: int| 0 <= i < clause.len() && holds(model, #[trigger] clause[i]);
                assert(clause.contains(clause[i]));
                assert(any_contains(parts, clause[i]));
                let k = choose|k: int|
                    0 <= k < parts.len() && (#[trigger] parts[k]).contains(clause[i]);
                let at = parts[k].index_of(clause[i]);
                assert(holds(model, parts[k][at]));
                assert(satisfies_clause(model, parts[k]));
            }
            if satisfies_clause(model, first) {
                let i = choose|i: int| 0 <= i < first.len() && holds(model, #[trigger] first[i]);
                assert(parts[0].contains(first[i]));
                assert(any_contains(parts, first[i]));
                assert(merge_all(parts).contains(first[i]));
                let at = clause.index_of(first[i]);
                assert(holds(model, clause[at]));
            }
            if satisfies_clause(model, second) {
                let i = choose|i: int| 0 <= i < second.len() && holds(model, #[trigger] second[i]);
                assert(parts[1].contains(second[i]));
                assert(any_contains(parts, second[i]));
                assert(merge_all(parts).contains(second[i]));
                let at = clause.index_of(second[i]);
                assert(holds(model, clause[at]));
            }
        },
    }
}

/// The clause list of a conjunctive normal form is true in the integer
/// model of an assignment exactly when the formula is true under the
/// assignment.
pub proof fn lemma_clauses_eval(formula: SpecExpr, names: Seq<Seq<char>>, truth: Set<Seq<char>>)
    requires
        formula.is_cnf(),
        names.no_duplicates(),
        names.len() <= i32::MAX,
        numbered(formula, names),
    ensures
        satisfies(model_of(names, truth), formula.clauses(names)) == formula.eval(truth),
    decreases formula,
{
    let model = model_of(names, truth);
    match formula {
        SpecExpr::And(left, right) => {
            assert(formula.leaves() == left.leaves() + right.leaves());
            lemma_numbered_split(*left, *right, names);
            lemma_clauses_eval(*left, names, truth);
            lemma_clauses_eval(*right, names, truth);
            let first = left.clauses(names);
            let second = right.clauses(names);
            let both = first + second;
            if satisfies(model, both) {
                assert forall|c: int| 0 <= c < first.len() implies satisfies_clause(
                    model,
                    #[trigger] first[c],
                ) by {
                    assert(both[c] == first[c]);
                }
                assert forall|c: int| 0 <= c < second.len() implies satisfies_clause(
                    model,
                    #[trigger] second[c],
                ) by {
                    assert(both[first.len() + c] == second[c]);
                }
            }
            if satisfies(model, first) && satisfies(model, second) {
                assert forall|c: int| 0 <= c < both.len() implies satisfies_clause(
                    model,
                    #[trigger] both[c],
                ) by {
                    if c < first.len() {
                        assert(both[c] == first[c]);
                    } else {
                        assert(both[c] == second[c - first.len()]);
                    }
                }
            }
        },
        _ => {
            lemma_clause_eval(formula, names, truth);
            let list = formula.clauses(names);
            if formula.eval(truth) {
                assert forall|c: int| 0 <= c < list.len() implies satisfies_clause(
                    model,
                    #[trigger] list[c],
                ) by {
                    assert(c == 0);
                }
            }
            if satisfies(model, list) {
                assert(satisfies_clause(model, list[0]));
            }
        },
    }
}


/// Every clause holds a literal of the assignment.
pub open spec fn fulfils(assignment: Seq<i32>, formula: Seq<Seq<i32>>) -> bool {
    forall|c: int| 0 <= c < formula.len() ==> satisfied(#[trigger] formula[c], assignment)
}

/// The missing ids are listed in increasing order.
proof fn lemma_missing_increasing(count: int, solution: Seq<i32>)
    requires
        count <= i32::MAX,
    ensures
        forall|i: int, j: int|
            0 <= i < j < missing(count, solution).len() ==> #[trigger] missing(count, solution)[i]
                < #[trigger] missing(count, solution)[j],
    decreases count,
{
    if count > 0 {
        lemma_missing_increasing(count - 1, solution);
        lemma_missing_within(count - 1, solution);
        let shorter = missing(count - 1, solution);
        let all = missing(count, solution);
        assert forall|i: int, j: int| 0 <= i < j < all.len() implies #[trigger] all[i]
            < #[trigger] all[j] by {
            if j < shorter.len() {
                assert(all[i] == shorter[i] && all[j] == shorter[j]);
            } else {
                assert(all[i] == shorter[i]);
                assert(all[j] == count);
            }
        }
    }
}

/// A completion of a solution over distinct ids up to `count` is a total
/// assignment.
pub proof fn lemma_completion_total(count: int, solution: Seq<i32>, k: int)
    requires
        count <= i32::MAX,
        within(count, solution),
        distinct_variables(solution),
        0 <= k < completions(count, solution).len(),
    ensures
        total(count, completions(count, solution)[k]),
        solution.is_prefix_of(completions(count, solution)[k]),
{
    let whole = completions(count, solution)[k];
    let ids = missing(count, solution);
    let start = solution.len() as int;
    lemma_completion(count, solution, k);
    lemma_completion_within(count, solution, k);
    lemma_missing_within(count, solution);
    lemma_missing_increasing(count, solution);
    assert forall|j: int| 0 <= j < ids.len() implies variable(#[trigger] whole[start + j])
        == ids[j] by {
        assert(1 <= ids[j] <= count);
    }
    assert forall|i: int, j: int| 0 <= i < j < whole.len() implies variable(#[trigger] whole[i])
        != variable(#[trigger] whole[j]) by {
        if j < start {
            assert(whole[i] == solution[i] && whole[j] == solution[j]);
        } else if i < start {
            assert(whole[i] == solution[i]);
            assert(mentions(solution, variable(solution[i])));
            assert(variable(whole[start + (j - start)]) == ids[j - start]);
            assert(!mentions(solution, ids[j - start] as int));
        } else {
            assert(variable(whole[start + (i - start)]) == ids[i - start]);
            assert(variable(whole[start + (j - start)]) == ids[j - start]);
            assert(ids[i - start] < ids[j - start]);
        }
    }
    assert forall|id: int| 1 <= id <= count implies mentions(whole, id) by {
        if mentions(solution, id) {
            let at = choose|i: int|
                0 <= i < solution.len() && variable(#[trigger] solution[i]) == id;
            assert(whole[at] == solution[at]);
        } else {
            let j = ids.index_of(id as i32);
            assert(variable(whole[start + j]) == ids[j]);
        }
    }
}

/// Some sign pattern of positive ids agrees with any given model.
proof fn lemma_sign_patterns_cover(ids: Seq<i32>, model: Set<int>)
    requires
        forall|j: int| 0 <= j < ids.len() ==> 1 <= #[trigger] ids[j],
    ensures
        covers(sign_patterns(ids), model),
    decreases ids.len(),
{
    let all = sign_patterns(ids);
    if ids.len() == 0 {
        assert(agrees(model, all[0]));
    } else {
        let shorter = ids.drop_first();
        let rest = sign_patterns(shorter);
        assert forall|j: int| 0 <= j < shorter.len() implies 1 <= #[trigger] shorter[j] by {
            assert(shorter[j] == ids[j + 1]);
        }
        lemma_sign_patterns_cover(shorter, model);
        let inner = choose|k: int| 0 <= k < rest.len() && agrees(model, #[trigger] rest[k]);
        let tail = rest[inner];
        assert(1 <= ids[0]);
        if holds(model, ids[0]) {
            let pattern = seq![ids[0]] + tail;
            assert(all[inner] == pattern);
            assert forall|i: int| 0 <= i < pattern.len() implies holds(
                model,
                #[trigger] pattern[i],
            ) by {
                if i > 0 {
                    assert(pattern[i] == tail[i - 1]);
                }
            }
        } else {
            let pattern = seq![negated(ids[0])] + tail;
            assert(all[rest.len() + inner] == pattern);
            assert forall|i: int| 0 <= i < pattern.len() implies holds(
                model,
                #[trigger] pattern[i],
            ) by {
                if i > 0 {
                    assert(pattern[i] == tail[i - 1]);
                }
            }
        }
    }
}

/// Every model that agrees with a solution agrees with one of its
/// completions.
pub proof fn lemma_completions_cover(count: int, solution: Seq<i32>, model: Set<int>)
    requires
        count <= i32::MAX,
        agrees(model, solution),
    ensures
        covers(completions(count, solution), model),
{
    let ids = missing(count, solution);
    lemma_missing_within(count, solution);
    lemma_sign_patterns_cover(ids, model);
    let k = choose|k: int|
        0 <= k < sign_patterns(ids).len() && agrees(model, #[trigger] sign_patterns(ids)[k]);
    let tail = sign_patterns(ids)[k];
    let whole = completions(count, solution)[k];
    assert(whole == solution + tail);
    assert forall|i: int| 0 <= i < whole.len() implies holds(model, #[trigger] whole[i]) by {
        if i < solution.len() {
            assert(whole[i] == solution[i]);
        } else {
            assert(whole[i] == tail[i - solution.len()]);
        }
    }
}

/// A solution of a formula whose literals are within `count` is within
/// `count`.
pub proof fn lemma_solution_within(count: int, solution: Seq<i32>, formula: Seq<Seq<i32>>)
    requires
        is_solution(solution, formula, Seq::empty()),
        forall|c: int| 0 <= c < formula.len() ==> within(count, #[trigger] formula[c]),
    ensures
        within(count, solution),
{
    assert forall|j: int| 0 <= j < solution.len() implies 1 <= variable(#[trigger] solution[j])
        <= count by {
        let id = variable(solution[j]);
        assert(variable_occurs(formula, id));
        let (c, i) = choose|c: int, i: int|
            0 <= c < formula.len() && 0 <= i < formula[c].len() && variable(
                #[trigger] formula[c][i],
            ) == id;
        assert(within(count, formula[c]));
    }
}

/// An assignment that begins with one that holds a literal of every
/// clause holds a literal of every clause.
proof fn lemma_fulfils_prefix(solution: Seq<i32>, longer: Seq<i32>, formula: Seq<Seq<i32>>)
    requires
        solution.is_prefix_of(longer),
        fulfils(solution, formula),
    ensures
        fulfils(longer, formula),
{
    assert forall|c: int| 0 <= c < formula.len() implies satisfied(
        #[trigger] formula[c],
        longer,
    ) by {
        let clause = formula[c];
        assert(satisfied(clause, solution));
        let at = choose|at: int| 0 <= at < clause.len() && solution.contains(#[trigger] clause[at]);
        let inside = solution.index_of(clause[at]);
        assert(longer[inside] == solution[inside]);
        assert(longer.contains(clause[at]));
    }
}

/// A completion of a solution of a formula is a total assignment that
/// holds a literal of every clause.
proof fn lemma_completion_sound(
    count: int,
    solution: Seq<i32>,
    formula: Seq<Seq<i32>>,
    k: int,
)
    requires
        count <= i32::MAX,
        is_solution(solution, formula, Seq::empty()),
        forall|c: int| 0 <= c < formula.len() ==> within(count, #[trigger] formula[c]),
        0 <= k < completions(count, solution).len(),
    ensures
        total(count, completions(count, solution)[k]),
        fulfils(completions(count, solution)[k], formula),
{
    lemma_solution_within(count, solution, formula);
    lemma_completion_total(count, solution, k);
    lemma_fulfils_prefix(solution, completions(count, solution)[k], formula);
}

/// The completions of the solutions of a formula are total assignments
/// that hold a literal of every clause.
pub proof fn lemma_totals_sound(count: int, solutions: Seq<Seq<i32>>, formula: Seq<Seq<i32>>)
    requires
        count <= i32::MAX,
        all_solutions(solutions, formula, Seq::empty()),
        forall|c: int| 0 <= c < formula.len() ==> within(count, #[trigger] formula[c]),
    ensures
        forall|i: int|
            0 <= i < complete_all(count, solutions).len() ==> total(
                count,
                #[trigger] complete_all(count, solutions)[i],
            ) && fulfils(complete_all(count, solutions)[i], formula),
    decreases solutions.len(),
{
    if solutions.len() > 0 {
        let shorter = solutions.drop_last();
        let before = complete_all(count, shorter);
        let solution = solutions.last();
        let last = completions(count, solution);
        let all = complete_all(count, solutions);
        assert(all_solutions(shorter, formula, Seq::empty())) by {
            assert forall|k: int| 0 <= k < shorter.len() implies is_solution(
                #[trigger] shorter[k],
                formula,
                Seq::empty(),
            ) by {
                assert(shorter[k] == solutions[k]);
            }
        }
        lemma_totals_sound(count, shorter, formula);
        assert(is_solution(solutions[solutions.len() - 1], formula, Seq::empty()));
        assert forall|i: int| 0 <= i < all.len() implies total(count, #[trigger] all[i])
            && fulfils(all[i], formula) by {
            if i < before.len() {
                assert(all[i] == before[i]);
            } else {
                let k = i - before.len();
                assert(all[i] == last[k]);
                lemma_completion_sound(count, solution, formula, k);
            }
        }
    }
}

/// A model that agrees with a solution agrees with one of the completions
/// of the solutions.
pub proof fn lemma_totals_cover(count: int, solutions: Seq<Seq<i32>>, model: Set<int>)
    requires
        count <= i32::MAX,
        covers(solutions, model),
    ensures
        covers(complete_all(count, solutions), model),
    decreases solutions.len(),
{
    let found = choose|k: int| 0 <= k < solutions.len() && agrees(model, #[trigger] solutions[k]);
    let shorter = solutions.drop_last();
    let before = complete_all(count, shorter);
    let last = completions(count, solutions.last());
    let all = complete_all(count, solutions);
    if found < solutions.len() - 1 {
        assert(shorter[found] == solutions[found]);
        lemma_totals_cover(count, shorter, model);
        let k = choose|k: int| 0 <= k < before.len() && agrees(model, #[trigger] before[k]);
        assert(all[k] == before[k]);
    } else {
        lemma_completions_cover(count, solutions.last(), model);
        let k = choose|k: int| 0 <= k < last.len() && agrees(model, #[trigger] last[k]);
        assert(all[before.len() + k] == last[k]);
    }
}

/// A total assignment over the ids up to `count` has `count` literals.
pub proof fn lemma_total_len(count: int, assignment: Seq<i32>)
    requires
        0 <= count,
        total(count, assignment),
    ensures
        assignment.len() == count,
{
    let ids = assignment.map_values(|literal: i32| variable(literal));
    assert forall|i: int, j: int| 0 <= i < ids.len() && 0 <= j < ids.len() && i != j implies ids[i]
        != ids[j] by {
        if i < j {
            assert(variable(assignment[i]) != variable(assignment[j]));
        } else {
            assert(variable(assignment[j]) != variable(assignment[i]));
        }
    }
    ids.unique_seq_to_set();
    lemma_int_range(1, count + 1);
    assert forall|id: int| ids.to_set().contains(id) == set_int_range(1, count + 1).contains(
        id,
    ) by {
        if ids.contains(id) {
            let at = ids.index_of(id);
            assert(variable(assignment[at]) == id);
        }
        if 1 <= id <= count {
            assert(mentions(assignment, id));
            let at = choose|i: int|
                0 <= i < assignment.len() && variable(#[trigger] assignment[i]) == id;
            assert(ids[at] == id);
        }
    }
    assert(ids.to_set() =~= set_int_range(1, count + 1));
}

/// A total assignment is true in the model of the ids it commits
/// positively.
pub proof fn lemma_total_agrees(count: int, assignment: Seq<i32>)
    requires
        count <= i32::MAX,
        total(count, assignment),
    ensures
        agrees(positives(assignment), assignment),
{
    let model = positives(assignment);
    assert forall|i: int| 0 <= i < assignment.len() implies holds(
        model,
        #[trigger] assignment[i],
    ) by {
        let literal = assignment[i];
        assert(1 <= variable(literal) <= count);
        if literal > 0 {
            assert(assignment.contains(literal));
        } else {
            if assignment.contains(negated(literal)) {
                let at = assignment.index_of(negated(literal));
                assert(variable(assignment[at]) == variable(assignment[i]));
                if at < i {
                    assert(variable(assignment[at]) != variable(assignment[i]));
                } else {
                    assert(variable(assignment[i]) != variable(assignment[at]));
                }
            }
        }
    }
}

/// A total assignment that holds a literal of every clause is true in a
/// model of the formula.
pub proof fn lemma_fulfils_satisfies(count: int, assignment: Seq<i32>, formula: Seq<Seq<i32>>)
    requires
        count <= i32::MAX,
        total(count, assignment),
        fulfils(assignment, formula),
    ensures
        agrees(positives(assignment), assignment),
        satisfies(positives(assignment), formula),
{
    let model = positives(assignment);
    lemma_total_agrees(count, assignment);
    assert forall|c: int| 0 <= c < formula.len() implies satisfies_clause(
        model,
        #[trigger] formula[c],
    ) by {
        assert(satisfied(formula[c], assignment));
        let at = choose|at: int|
            0 <= at < formula[c].len() && assignment.contains(#[trigger] formula[c][at]);
        let inside = assignment.index_of(formula[c][at]);
        assert(holds(model, assignment[inside]));
    }
}

/// Over names without repetition, the integer model of the assignment of
/// names of a model is the model, as far as the ids of the names go.
pub proof fn lemma_truth_of(names: Seq<Seq<char>>, model: Set<int>)
    requires
        names.no_duplicates(),
    ensures
        forall|id: int|
            1 <= id <= names.len() ==> model_of(names, truth_of(names, model)).contains(id)
                == model.contains(id),
{
    assert forall|id: int| 1 <= id <= names.len() implies model_of(
        names,
        truth_of(names, model),
    ).contains(id) == model.contains(id) by {
        let name = names[id - 1];
        if truth_of(names, model).contains(name) {
            let other = choose|other: int|
                1 <= other <= names.len() && #[trigger] names[other - 1] == name
                    && model.contains(other);
            assert(other - 1 == id - 1);
        }
    }
}

/// Two models that hold the same ids up to `count` agree with the same
/// assignments within `count`, and make the same formulas within `count`
/// true.
pub proof fn lemma_same_model(
    count: int,
    first: Set<int>,
    second: Set<int>,
    assignment: Seq<i32>,
    formula: Seq<Seq<i32>>,
)
    requires
        forall|id: int| 1 <= id <= count ==> first.contains(id) == second.contains(id),
        within(count, assignment),
        forall|c: int| 0 <= c < formula.len() ==> within(count, #[trigger] formula[c]),
    ensures
        agrees(first, assignment) == agrees(second, assignment),
        satisfies(first, formula) == satisfies(second, formula),
{
    assert forall|i: int| 0 <= i < assignment.len() implies holds(first, #[trigger] assignment[i])
        == holds(second, assignment[i]) by {
        assert(1 <= variable(assignment[i]) <= count);
    }
    assert forall|c: int| 0 <= c < formula.len() implies satisfies_clause(
        first,
        #[trigger] formula[c],
    ) == satisfies_clause(second, formula[c]) by {
        let clause = formula[c];
        assert(within(count, clause));
        assert forall|i: int| 0 <= i < clause.len() implies holds(first, #[trigger] clause[i])
            == holds(second, clause[i]) by {
            assert(1 <= variable(clause[i]) <= count);
        }
    }
}

/// The texts of a total assignment list the assignment of names of every
/// model that agrees with it.
pub proof fn lemma_labels_list(names: Seq<Seq<char>>, assignment: Seq<i32>, truth: Set<Seq<char>>)
    requires
        names.no_duplicates(),
        names.len() <= i32::MAX,
        total(names.len() as int, assignment),
        agrees(model_of(names, truth), assignment),
    ensures
        lists(labels(names, assignment), names.to_set(), truth),
{
    let count = names.len() as int;
    let entry = labels(names, assignment);
    let model = model_of(names, truth);
    let variables = names.to_set();
    lemma_total_len(count, assignment);
    names.unique_seq_to_set();
    assert forall|j: int| 0 <= j < entry.len() implies {
        let name = names[variable(assignment[j]) - 1];
        &&& variables.contains(name)
        &&& #[trigger] entry[j] == signed(name, truth.contains(name))
    } by {
        let literal = assignment[j];
        let id = variable(literal);
        assert(1 <= id <= count);
        assert(holds(model, literal));
        assert(names.contains(names[id - 1]));
    }
    assert forall|j: int| 0 <= j < entry.len() implies lists_one(
        #[trigger] entry[j],
        variables,
        truth,
    ) by {
        let name = names[variable(assignment[j]) - 1];
        assert(entry[j] == signed(name, truth.contains(name)));
    }
    assert forall|name: Seq<char>| variables.contains(name) implies entry.contains(
        #[trigger] signed(name, truth.contains(name)),
    ) by {
        let at = names.index_of(name);
        let id = at + 1;
        assert(mentions(assignment, id));
        let j = choose|j: int|
            0 <= j < assignment.len() && variable(#[trigger] assignment[j]) == id;
        assert(entry[j] == signed(names[id - 1], truth.contains(names[id - 1])));
    }
}


/// Two different sign patterns of the same ids give some id opposite
/// polarities.
proof fn lemma_sign_patterns_differ(ids: Seq<i32>, first: int, second: int) -> (at: int)
    requires
        forall|j: int| 0 <= j < ids.len() ==> 1 <= #[trigger] ids[j],
        0 <= first < second < sign_patterns(ids).len(),
    ensures
        0 <= at < ids.len(),
        sign_patterns(ids)[first].len() == ids.len(),
        sign_patterns(ids)[second].len() == ids.len(),
        sign_patterns(ids)[first][at] == negated(sign_patterns(ids)[second][at]),
        proper(sign_patterns(ids)[second][at]),
    decreases ids.len(),
{
    lemma_sign_pattern(ids, first);
    lemma_sign_pattern(ids, second);
    if ids.len() == 0 {
        0
    } else {
        let shorter = ids.drop_first();
        let rest = sign_patterns(shorter);
        let half = rest.len() as int;
        assert forall|j: int| 0 <= j < shorter.len() implies 1 <= #[trigger] shorter[j] by {
            assert(shorter[j] == ids[j + 1]);
        }
        assert(1 <= ids[0]);
        if second < half {
            let inner = lemma_sign_patterns_differ(shorter, first, second);
            assert(sign_patterns(ids)[first] == seq![ids[0]] + rest[first]);
            assert(sign_patterns(ids)[second] == seq![ids[0]] + rest[second]);
            assert(sign_patterns(ids)[first][inner + 1] == rest[first][inner]);
            assert(sign_patterns(ids)[second][inner + 1] == rest[second][inner]);
            inner + 1
        } else if first >= half {
            let inner = lemma_sign_patterns_differ(shorter, first - half, second - half);
            assert(sign_patterns(ids)[first] == seq![negated(ids[0])] + rest[first - half]);
            assert(sign_patterns(ids)[second] == seq![negated(ids[0])] + rest[second - half]);
            assert(sign_patterns(ids)[first][inner + 1] == rest[first - half][inner]);
            assert(sign_patterns(ids)[second][inner + 1] == rest[second - half][inner]);
            inner + 1
        } else {
            assert(sign_patterns(ids)[first] == seq![ids[0]] + rest[first]);
            assert(sign_patterns(ids)[second] == seq![negated(ids[0])] + rest[second - half]);
            assert(sign_patterns(ids)[first][0] == ids[0]);
            assert(sign_patterns(ids)[second][0] == negated(ids[0]));
            0
        }
    }
}

/// No model agrees with two completions of one solution.
pub proof fn lemma_completions_exclusive(count: int, solution: Seq<i32>, first: int, second: int)
    requires
        count <= i32::MAX,
        0 <= first < second < completions(count, solution).len(),
    ensures
        exclusive(completions(count, solution)[first], completions(count, solution)[second]),
{
    let ids = missing(count, solution);
    lemma_missing_within(count, solution);
    let at = lemma_sign_patterns_differ(ids, first, second);
    let one = completions(count, solution)[first];
    let other = completions(count, solution)[second];
    assert(one == solution + sign_patterns(ids)[first]);
    assert(other == solution + sign_patterns(ids)[second]);
    let place = solution.len() + at;
    assert(one[place] == sign_patterns(ids)[first][at]);
    assert(other[place] == sign_patterns(ids)[second][at]);
    assert forall|model: Set<int>| !(agrees(model, one) && #[trigger] agrees(model, other)) by {
        if agrees(model, one) && agrees(model, other) {
            assert(holds(model, one[place]));
            assert(holds(model, other[place]));
            lemma_negated(model, other[place]);
        }
    }
}

/// Every completion of a list of solutions begins with one of the
/// solutions.
proof fn lemma_totals_extend(count: int, solutions: Seq<Seq<i32>>, i: int) -> (from: int)
    requires
        count <= i32::MAX,
        0 <= i < complete_all(count, solutions).len(),
    ensures
        0 <= from < solutions.len(),
        solutions[from].is_prefix_of(complete_all(count, solutions)[i]),
    decreases solutions.len(),
{
    let shorter = solutions.drop_last();
    let before = complete_all(count, shorter);
    let last = completions(count, solutions.last());
    if i < before.len() {
        let from = lemma_totals_extend(count, shorter, i);
        assert(shorter[from] == solutions[from]);
        assert(complete_all(count, solutions)[i] == before[i]);
        from
    } else {
        lemma_completion(count, solutions.last(), i - before.len());
        assert(complete_all(count, solutions)[i] == last[i - before.len()]);
        solutions.len() - 1
    }
}

/// Assignments that begin with exclusive assignments are exclusive.
proof fn lemma_exclusive_extend(
    first: Seq<i32>,
    second: Seq<i32>,
    longer_first: Seq<i32>,
    longer_second: Seq<i32>,
)
    requires
        exclusive(first, second),
        first.is_prefix_of(longer_first),
        second.is_prefix_of(longer_second),
    ensures
        exclusive(longer_first, longer_second),
{
    assert forall|model: Set<int>| !(agrees(model, longer_first) && #[trigger] agrees(
        model,
        longer_second,
    )) by {
        if agrees(model, longer_first) && agrees(model, longer_second) {
            assert forall|i: int| 0 <= i < first.len() implies holds(
                model,
                #[trigger] first[i],
            ) by {
                assert(first[i] == longer_first[i]);
            }
            assert forall|i: int| 0 <= i < second.len() implies holds(
                model,
                #[trigger] second[i],
            ) by {
                assert(second[i] == longer_second[i]);
            }
            assert(agrees(model, first) && agrees(model, second));
        }
    }
}

/// No model agrees with two completions of pairwise exclusive solutions.
pub proof fn lemma_totals_exclusive(count: int, solutions: Seq<Seq<i32>>)
    requires
        count <= i32::MAX,
        pairwise_exclusive(solutions),
    ensures
        pairwise_exclusive(complete_all(count, solutions)),
    decreases solutions.len(),
{
    if solutions.len() > 0 {
        let shorter = solutions.drop_last();
        let before = complete_all(count, shorter);
        let last = completions(count, solutions.last());
        let all = complete_all(count, solutions);
        assert(pairwise_exclusive(shorter)) by {
            assert forall|i: int, j: int| 0 <= i < j < shorter.len() implies exclusive(
                #[trigger] shorter[i],
                #[trigger] shorter[j],
            ) by {
                assert(shorter[i] == solutions[i] && shorter[j] == solutions[j]);
            }
        }
        lemma_totals_exclusive(count, shorter);
        assert forall|i: int, j: int| 0 <= i < j < all.len() implies exclusive(
            #[trigger] all[i],
            #[trigger] all[j],
        ) by {
            if j < before.len() {
                assert(all[i] == before[i] && all[j] == before[j]);
            } else if i >= before.len() {
                assert(all[i] == last[i - before.len()] && all[j] == last[j - before.len()]);
                lemma_completions_exclusive(
                    count,
                    solutions.last(),
                    i - before.len(),
                    j - before.len(),
                );
            } else {
                assert(all[i] == before[i] && all[j] == last[j - before.len()]);
                let from = lemma_totals_extend(count, shorter, i);
                assert(shorter[from] == solutions[from]);
                lemma_completion(count, solutions.last(), j - before.len());
                assert(exclusive(solutions[from], solutions[solutions.len() - 1]));
                lemma_exclusive_extend(solutions[from], solutions.last(), all[i], all[j]);
            }
        }
    }
}

/// A name that does not begin with the negation mark.
pub open spec fn plain_name(name: Seq<char>) -> bool {
    name.len() == 0 || name[0] != '!'
}

/// Every name of the set is plain.
pub open spec fn plain_names(variables: Set<Seq<char>>) -> bool {
    forall|name: Seq<char>| variables.contains(name) ==> plain_name(name)
}

/// No assignment is listed by two entries.
pub open spec fn listed_once(entries: Seq<Seq<Seq<char>>>, variables: Set<Seq<char>>) -> bool {
    forall|i: int, j: int, truth: Set<Seq<char>>|
        0 <= i < j < entries.len() ==> !(#[trigger] lists(entries[i], variables, truth)
            && #[trigger] lists(entries[j], variables, truth))
}

/// Over plain names without repetition, literals with the same text are
/// the same literal.
proof fn lemma_label_injective(names: Seq<Seq<char>>, first: i32, second: i32)
    requires
        names.no_duplicates(),
        plain_names(names.to_set()),
        1 <= variable(first) <= names.len(),
        1 <= variable(second) <= names.len(),
        label(names, first as int) == label(names, second as int),
    ensures
        first == second,
{
    let one = names[variable(first) - 1];
    let other = names[variable(second) - 1];
    assert(names.contains(one) && names.contains(other));
    assert(plain_name(one) && plain_name(other));
    let mark = seq!['!'];
    if first > 0 && second > 0 {
    } else if first < 0 && second < 0 {
        assert((mark + one).skip(1) =~= one);
        assert((mark + other).skip(1) =~= other);
    } else if first > 0 {
        assert(one == mark + other);
        assert(one[0] == '!');
    } else {
        assert(other == mark + one);
        assert(other[0] == '!');
    }
}

/// Over plain names, a total assignment whose texts list an assignment of
/// names is true in the integer model of that assignment.
pub proof fn lemma_lists_agrees(names: Seq<Seq<char>>, assignment: Seq<i32>, truth: Set<Seq<char>>)
    requires
        names.no_duplicates(),
        names.len() <= i32::MAX,
        plain_names(names.to_set()),
        total(names.len() as int, assignment),
        lists(labels(names, assignment), names.to_set(), truth),
    ensures
        agrees(model_of(names, truth), assignment),
{
    let entry = labels(names, assignment);
    let model = model_of(names, truth);
    assert forall|j: int| 0 <= j < assignment.len() implies holds(
        model,
        #[trigger] assignment[j],
    ) by {
        let literal = assignment[j];
        let id = variable(literal);
        assert(1 <= id <= names.len());
        let name = names[id - 1];
        assert(names.contains(name));
        let text = signed(name, truth.contains(name));
        assert(entry.contains(text));
        let at = entry.index_of(text);
        let expected: i32 = if truth.contains(name) {
            id as i32
        } else {
            (-id) as i32
        };
        assert(label(names, expected as int) == text);
        assert(1 <= variable(assignment[at]) <= names.len());
        lemma_label_injective(names, assignment[at], expected);
        if at < j {
            assert(variable(assignment[at]) != variable(assignment[j]));
        } else if j < at {
            assert(variable(assignment[j]) != variable(assignment[at]));
        }
    }
}

/// Over plain names, the texts of two exclusive total assignments list no
/// common assignment of names.
pub proof fn lemma_labels_exclusive(
    names: Seq<Seq<char>>,
    first: Seq<i32>,
    second: Seq<i32>,
    truth: Set<Seq<char>>,
)
    requires
        names.no_duplicates(),
        names.len() <= i32::MAX,
        plain_names(names.to_set()),
        total(names.len() as int, first),
        total(names.len() as int, second),
        exclusive(first, second),
    ensures
        !(lists(labels(names, first), names.to_set(), truth) && lists(
            labels(names, second),
            names.to_set(),
            truth,
        )),
{
    if lists(labels(names, first), names.to_set(), truth) && lists(
        labels(names, second),
        names.to_set(),
        truth,
    ) {
        lemma_lists_agrees(names, first, truth);
        lemma_lists_agrees(names, second, truth);
    }
}

} // verus!
