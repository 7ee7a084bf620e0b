//! The solver: every total assignment that makes a formula true.
use crate::encode::{
    lemma_clauses_distinct, lemma_register_all, lemma_register_all_concat,
    lemma_register_count, numbered, register_all, VarMap,
};
use crate::expand::{complete_all, expand, label_all, labels, within};
use crate::models::{
    fulfils, is_model_listing, lemma_clauses_eval, lemma_clauses_within, lemma_fulfils_satisfies,
    lemma_labels_exclusive, lemma_labels_list, lemma_same_model, lemma_solution_within,
    lemma_totals_cover, lemma_totals_exclusive, lemma_totals_sound, lemma_truth_of, listed,
    listed_once, lists, model_of, plain_names, positives, total, truth_of,
};
use crate::normal::{lemma_cnf_is_nnf, lemma_normal_form_sound, lemma_pushed_shape};
use crate::parser::{Expression, SpecExpr};
use crate::search::{
    agrees, all_solutions, covers, exclusive, lemma_search, pairwise_exclusive, proper,
    proper_clause, satisfies, search, searchable, variable, CNFRep,
};
use vstd::prelude::*;

verus! {

impl SpecExpr {
    /// The names of the formula in the order of the ids that the solver
    /// gives them: the order of their first occurrence, from left to
    /// right, in the conjunctive normal form.
    pub open spec fn numbering(self) -> Seq<Seq<char>> {
        register_all(Seq::empty(), self.nnf().cnf().leaves())
    }

    /// The clause list that the solver searches.
    pub open spec fn encoding(self) -> Seq<Seq<i32>> {
        self.nnf().cnf().clauses(self.numbering())
    }

    /// The assignments that the solver lists, in its order: the
    /// completions of the solutions that the search finds for the clause
    /// list, each written as the texts of its literals.
    pub open spec fn listing(self) -> Seq<Seq<Seq<char>>> {
        entries_of(self, search(self.encoding(), Seq::empty()))
    }
}

/// A formula has finitely many variables, and no more than occurrences of
/// variables.
pub proof fn lemma_variables_bounded(formula: SpecExpr)
    ensures
        formula.variables().finite(),
        formula.variables().len() <= formula.leaves().len(),
{
    formula.leaves().lemma_cardinality_of_set();
}

/// The numbering of a formula holds each of its variables once, and the
/// clause list over it is fit for the search when the ids fit a literal.
pub proof fn lemma_numbering(formula: SpecExpr)
    ensures
        formula.numbering().no_duplicates(),
        formula.numbering().to_set() == formula.variables(),
        formula.numbering().len() == formula.variables().len(),
        numbered(formula.nnf().cnf(), formula.numbering()),
        formula.nnf().cnf().is_cnf(),
        formula.nnf().cnf().is_nnf(),
        formula.numbering().len() <= i32::MAX ==> searchable(formula.encoding(), Seq::empty())
            && forall|c: int|
            0 <= c < formula.encoding().len() ==> within(
                formula.numbering().len() as int,
                #[trigger] formula.encoding()[c],
            ),
{
    let cnf = formula.nnf().cnf();
    let names = formula.numbering();
    lemma_normal_form_sound(formula, Set::empty());
    lemma_cnf_is_nnf(cnf);
    lemma_register_all(Seq::empty(), cnf.leaves());
    lemma_register_count(cnf.leaves());
    if names.len() <= i32::MAX {
        lemma_clauses_within(cnf, names);
        let encoding = formula.encoding();
        lemma_clauses_distinct(cnf, names);
        assert forall|c: int| 0 <= c < encoding.len() implies proper_clause(
            #[trigger] encoding[c],
        ) by {
            let clause = encoding[c];
            assert(within(names.len() as int, clause));
            assert forall|i: int| 0 <= i < clause.len() implies proper(
                #[trigger] clause[i],
            ) by {
                assert(1 <= variable(clause[i]) <= names.len());
            }
        }
    }
}

/// The texts of every completion of the solutions.
pub open spec fn entries_of(formula: SpecExpr, solutions: Seq<Seq<i32>>) -> Seq<Seq<Seq<char>>> {
    label_all(formula.numbering(), complete_all(formula.numbering().len() as int, solutions))
}

/// Every completion of a solution of the clause list of a formula, written
/// as texts, lists an assignment under which the formula is true.
proof fn lemma_entries_sound(formula: SpecExpr, solutions: Seq<Seq<i32>>, i: int)
    requires
        formula.variables().len() <= i32::MAX,
        all_solutions(solutions, formula.encoding(), Seq::empty()),
        0 <= i < entries_of(formula, solutions).len(),
    ensures
        is_model_listing(entries_of(formula, solutions)[i], formula),
{
    let cnf = formula.nnf().cnf();
    let names = formula.numbering();
    let count = names.len() as int;
    let encoding = formula.encoding();
    let assignment = complete_all(count, solutions)[i];
    lemma_numbering(formula);
    lemma_totals_sound(count, solutions, encoding);
    assert(total(count, assignment) && fulfils(assignment, encoding));
    let model = positives(assignment);
    lemma_fulfils_satisfies(count, assignment, encoding);
    let truth = truth_of(names, model);
    lemma_truth_of(names, model);
    lemma_same_model(count, model_of(names, truth), model, assignment, encoding);
    lemma_clauses_eval(cnf, names, truth);
    lemma_normal_form_sound(formula, truth);
    lemma_labels_list(names, assignment, truth);
    assert(lists(labels(names, assignment), formula.variables(), truth) && formula.eval(truth));
}

/// Every assignment under which a formula is true is listed by the texts
/// of a completion of a solution, when the solutions cover every model of
/// the clause list.
proof fn lemma_entries_complete(
    formula: SpecExpr,
    solutions: Seq<Seq<i32>>,
    truth: Set<Seq<char>>,
)
    requires
        formula.variables().len() <= i32::MAX,
        all_solutions(solutions, formula.encoding(), Seq::empty()),
        forall|model: Set<int>|
            agrees(model, Seq::empty()) && satisfies(model, formula.encoding()) ==> covers(
                solutions,
                model,
            ),
        formula.eval(truth),
    ensures
        listed(entries_of(formula, solutions), formula.variables(), truth),
{
    let cnf = formula.nnf().cnf();
    let names = formula.numbering();
    let count = names.len() as int;
    let encoding = formula.encoding();
    let totals = complete_all(count, solutions);
    let model = model_of(names, truth);
    lemma_numbering(formula);
    lemma_normal_form_sound(formula, truth);
    lemma_clauses_eval(cnf, names, truth);
    assert(agrees(model, Seq::empty()));
    assert(covers(solutions, model));
    lemma_totals_cover(count, solutions, model);
    let k = choose|k: int| 0 <= k < totals.len() && agrees(model, #[trigger] totals[k]);
    lemma_totals_sound(count, solutions, encoding);
    assert(total(count, totals[k]));
    lemma_labels_list(names, totals[k], truth);
    let entries = label_all(names, totals);
    assert(entries[k] == labels(names, totals[k]));
}

/// Over plain names, no assignment is listed twice by the texts of the
/// completions of pairwise exclusive solutions.
proof fn lemma_entries_once(formula: SpecExpr, solutions: Seq<Seq<i32>>)
    requires
        formula.variables().len() <= i32::MAX,
        plain_names(formula.variables()),
        all_solutions(solutions, formula.encoding(), Seq::empty()),
        pairwise_exclusive(solutions),
    ensures
        listed_once(entries_of(formula, solutions), formula.variables()),
{
    let names = formula.numbering();
    let count = names.len() as int;
    let totals = complete_all(count, solutions);
    let entries = label_all(names, totals);
    let variables = formula.variables();
    lemma_numbering(formula);
    lemma_totals_sound(count, solutions, formula.encoding());
    lemma_totals_exclusive(count, solutions);
    assert forall|i: int, j: int, truth: Set<Seq<char>>| 0 <= i < j < entries.len() implies !(
    #[trigger] lists(entries[i], variables, truth) && #[trigger] lists(
        entries[j],
        variables,
        truth,
    )) by {
        assert(total(count, totals[i]) && total(count, totals[j]));
        assert(exclusive(totals[i], totals[j]));
        lemma_labels_exclusive(names, totals[i], totals[j], truth);
        assert(entries[i] == labels(names, totals[i]));
        assert(entries[j] == labels(names, totals[j]));
    }
}

/// The listing of a formula is exactly its models: every entry lists an
/// assignment under which the formula is true, every such assignment is
/// listed, and where no name begins with `!` none is listed twice.
pub proof fn lemma_listing(formula: SpecExpr)
    requires
        formula.variables().len() <= i32::MAX,
    ensures
        forall|i: int|
            0 <= i < formula.listing().len() ==> is_model_listing(
                #[trigger] formula.listing()[i],
                formula,
            ),
        forall|truth: Set<Seq<char>>|
            formula.eval(truth) ==> listed(formula.listing(), formula.variables(), truth),
        plain_names(formula.variables()) ==> listed_once(formula.listing(), formula.variables()),
{
    let solutions = search(formula.encoding(), Seq::empty());
    let entries = entries_of(formula, solutions);
    assert(formula.listing() == entries);
    lemma_numbering(formula);
    lemma_search(formula.encoding(), Seq::empty());
    assert forall|i: int| 0 <= i < entries.len() implies is_model_listing(
        #[trigger] entries[i],
        formula,
    ) by {
        lemma_entries_sound(formula, solutions, i);
    }
    assert forall|truth: Set<Seq<char>>| formula.eval(truth) implies listed(
        entries,
        formula.variables(),
        truth,
    ) by {
        lemma_entries_complete(formula, solutions, truth);
    }
    if plain_names(formula.variables()) {
        lemma_entries_once(formula, solutions);
    }
}

impl Expression {
    /// Encodes a conjunctive normal form as a search state with an empty
    /// trail, numbering its variables as
    /// [`Expression::cnf_to_cnfrep_helper`] does. The state is fit for the
    /// search.
    pub fn cnf_to_cnfrep(self, varmap: &mut VarMap) -> (rep: CNFRep)
        requires
            old(varmap).wf(),
            self@.is_cnf(),
            register_all(old(varmap)@, self@.leaves()).len() <= i32::MAX,
        ensures
            final(varmap).wf(),
            final(varmap)@ == register_all(old(varmap)@, self@.leaves()),
            old(varmap)@.is_prefix_of(final(varmap)@),
            final(varmap)@.to_set() == old(varmap)@.to_set().union(self@.variables()),
            final(varmap)@.len() == old(varmap)@.to_set().union(self@.variables()).len(),
            rep.clauses() == self@.clauses(final(varmap)@),
            rep.trues@ == Seq::<i32>::empty(),
            rep.wf(),
            forall|c: int|
                0 <= c < rep.clauses().len() ==> within(
                    final(varmap)@.len() as int,
                    #[trigger] rep.clauses()[c],
                ),
    {
        let formula = self.cnf_to_cnfrep_helper(varmap);
        proof {
            assert forall|c: int| 0 <= c < formula.deep_view().len() implies proper_clause(
                #[trigger] formula.deep_view()[c],
            ) && within(varmap@.len() as int, formula.deep_view()[c]) by {
                assert(formula.deep_view()[c] == formula[c]@);
            }
        }
        CNFRep::new(formula)
    }
}

/// Finds every total assignment of the variables of a formula under which
/// the formula is true.
///
/// Each entry of the result lists one such assignment: one text for each
/// variable of the formula, the name of the variable where it is true and
/// the name behind a `!` where it is false. Every assignment under which
/// the formula is true is listed by some entry, and by one entry only
/// where no name begins with `!`, so that the texts can be told apart. An
/// unsatisfiable formula has no entries. The entries and their order are
/// those of [`SpecExpr::listing`].
pub fn solve(expr: Expression) -> (result: Vec<Vec<String>>)
    requires
        expr@.variables().len() <= i32::MAX,
    ensures
        result.deep_view() == expr@.listing(),
        forall|i: int|
            0 <= i < result.len() ==> is_model_listing(#[trigger] result.deep_view()[i], expr@),
        forall|truth: Set<Seq<char>>|
            expr@.eval(truth) ==> listed(result.deep_view(), expr@.variables(), truth),
        plain_names(expr@.variables()) ==> listed_once(result.deep_view(), expr@.variables()),
{
    let ghost formula = expr@;
    proof {
        lemma_numbering(formula);
        lemma_pushed_shape(formula, false);
    }
    let mut varmap = VarMap::new();
    let mut rep = expr.expr_to_nnf().nnf_to_cnf().cnf_to_cnfrep(&mut varmap);
    let solutions = rep.dpll();
    let ghost count = varmap@.len() as int;
    proof {
        assert(varmap@ == formula.numbering());
        assert forall|k: int| 0 <= k < solutions.len() implies within(
            count,
            #[trigger] solutions[k]@,
        ) by {
            assert(solutions.deep_view()[k] == solutions[k]@);
            lemma_solution_within(count, solutions.deep_view()[k], formula.encoding());
        }
    }
    let result = expand(varmap, solutions);
    proof {
        assert(result.deep_view().len() == result.len());
        lemma_listing(formula);
    }
    result
}

/// Whether `name` is among `names`.
fn contains_name(names: &Vec<String>, name: &String) -> (found: bool)
    ensures
        found == names.deep_view().contains(name@),
{
    let mut index: usize = 0;
    while index < names.len()
        invariant
            index <= names.len(),
            forall|i: int| 0 <= i < index ==> names.deep_view()[i] != name@,
        decreases names.len() - index,
    {
        if names[index] == *name {
            assert(names.deep_view()[index as int] == name@);
            return true;
        }
        index += 1;
    }
    false
}

impl Expression {
    /// Adds to `names` the variable names of the formula that it lacks, in
    /// the order of their first occurrence from left to right.
    pub fn collect_names(&self, names: &mut Vec<String>)
        ensures
            final(names).deep_view() == register_all(old(names).deep_view(), self@.leaves()),
        decreases self,
    {
        let ghost before = names.deep_view();
        match self {
            Expression::Var(name) => {
                proof {
                    let one = seq![name@];
                    assert(self@.leaves() =~= one);
                    assert(one.drop_last() =~= Seq::<Seq<char>>::empty());
                    assert(register_all(before, one.drop_last()) == before);
                }
                if !contains_name(names, name) {
                    names.push(name.clone());
                    assert(names.deep_view() =~= before.push(name@));
                }
            },
            Expression::Not(inner) => inner.collect_names(names),
            Expression::And(left, right) => {
                left.collect_names(names);
                right.collect_names(names);
                proof {
                    lemma_register_all_concat(before, left@.leaves(), right@.leaves());
                }
            },
            Expression::Or(left, right) => {
                left.collect_names(names);
                right.collect_names(names);
                proof {
                    lemma_register_all_concat(before, left@.leaves(), right@.leaves());
                }
            },
        }
    }
}

/// Solves a formula of any size: [`solve`] where the ids of its variables
/// fit a literal, and nothing otherwise.
///
/// The result is `None` exactly when the formula has more distinct
/// variables than the largest literal can number. Otherwise it is what
/// [`solve`] returns.
pub fn try_solve(expr: Expression) -> (result: Option<Vec<Vec<String>>>)
    ensures
        result is Some <==> expr@.variables().len() <= i32::MAX,
        result matches Some(entries) ==> {
            &&& entries.deep_view() == expr@.listing()
            &&& forall|i: int|
                0 <= i < entries.len() ==> is_model_listing(
                    #[trigger] entries.deep_view()[i],
                    expr@,
                )
            &&& forall|truth: Set<Seq<char>>|
                expr@.eval(truth) ==> listed(entries.deep_view(), expr@.variables(), truth)
            &&& plain_names(expr@.variables()) ==> listed_once(
                entries.deep_view(),
                expr@.variables(),
            )
        },
{
    let mut names: Vec<String> = Vec::new();
    assert(names.deep_view() =~= Seq::<Seq<char>>::empty());
    expr.collect_names(&mut names);
    proof {
        lemma_register_count(expr@.leaves());
        assert(names.deep_view().len() == names.len());
    }
    if names.len() > i32::MAX as usize {
        return None;
    }
    Some(solve(expr))
}

} // verus!
