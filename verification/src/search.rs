//! Backtracking search for the satisfying partial assignments of a clause
//! list.
use crate::encode::contains_literal;
use vstd::prelude::*;
use vstd::set_lib::{lemma_int_range, lemma_len_subset, set_int_range};

verus! {

/// A literal that names a variable and has a negation: not zero, and not
/// the one value without a positive counterpart.
pub open spec fn proper(literal: i32) -> bool {
    literal != 0 && literal != i32::MIN
}

/// Every literal of the sequence is proper.
pub open spec fn all_proper(literals: Seq<i32>) -> bool {
    forall|i: int| 0 <= i < literals.len() ==> proper(#[trigger] literals[i])
}

/// The literal of opposite polarity.
pub open spec fn negated(literal: i32) -> i32 {
    (-literal) as i32
}

/// The id of the variable of a literal.
pub open spec fn variable(literal: i32) -> int {
    if literal < 0 {
        -literal
    } else {
        literal as int
    }
}

/// Whether `literal` is true when exactly the variables in `model` are.
pub open spec fn holds(model: Set<int>, literal: i32) -> bool {
    if literal > 0 {
        model.contains(literal as int)
    } else {
        !model.contains(-literal)
    }
}

/// Some literal of the clause is true in `model`.
pub open spec fn satisfies_clause(model: Set<int>, clause: Seq<i32>) -> bool {
    exists|i: int| 0 <= i < clause.len() && holds(model, #[trigger] clause[i])
}

/// Every clause of the formula is true in `model`.
pub open spec fn satisfies(model: Set<int>, formula: Seq<Seq<i32>>) -> bool {
    forall|c: int| 0 <= c < formula.len() ==> satisfies_clause(model, #[trigger] formula[c])
}

/// Every literal of the trail is true in `model`.
pub open spec fn agrees(model: Set<int>, trail: Seq<i32>) -> bool {
    forall|i: int| 0 <= i < trail.len() ==> holds(model, #[trigger] trail[i])
}

/// The trail commits the variable `id`, to either polarity.
pub open spec fn mentions(trail: Seq<i32>, id: int) -> bool {
    exists|i: int| 0 <= i < trail.len() && variable(#[trigger] trail[i]) == id
}

/// No variable is committed twice; in particular the trail never holds a
/// literal together with its negation.
pub open spec fn distinct_variables(trail: Seq<i32>) -> bool {
    forall|i: int, j: int|
        0 <= i < j < trail.len() ==> variable(#[trigger] trail[i]) != variable(
            #[trigger] trail[j],
        )
}

/// The variable `id` occurs in some clause of the formula.
pub open spec fn variable_occurs(formula: Seq<Seq<i32>>, id: int) -> bool {
    exists|c: int, i: int|
        0 <= c < formula.len() && 0 <= i < formula[c].len() && variable(
            #[trigger] formula[c][i],
        ) == id
}

/// The trail decides `literal` neither way.
pub open spec fn free(trail: Seq<i32>, literal: i32) -> bool {
    !trail.contains(literal) && !trail.contains(negated(literal))
}

/// Some literal of the clause is on the trail.
pub open spec fn satisfied(clause: Seq<i32>, trail: Seq<i32>) -> bool {
    exists|i: int| 0 <= i < clause.len() && trail.contains(#[trigger] clause[i])
}

/// The literals of the clause that the trail leaves undecided, in the
/// order of the clause.
pub open spec fn undetermined(clause: Seq<i32>, trail: Seq<i32>) -> Seq<i32>
    decreases clause.len(),
{
    if clause.len() == 0 {
        Seq::empty()
    } else {
        let before = undetermined(clause.drop_last(), trail);
        if free(trail, clause.last()) {
            before.push(clause.last())
        } else {
            before
        }
    }
}

/// A clause is a set of proper literals: it holds no literal twice.
pub open spec fn proper_clause(clause: Seq<i32>) -> bool {
    all_proper(clause) && clause.no_duplicates()
}

/// Every clause is a set of proper literals, the literals of the trail are
/// proper, and the trail commits no variable twice.
pub open spec fn searchable(formula: Seq<Seq<i32>>, trail: Seq<i32>) -> bool {
    &&& forall|c: int| 0 <= c < formula.len() ==> proper_clause(#[trigger] formula[c])
    &&& all_proper(trail)
    &&& distinct_variables(trail)
}

/// The variables of the formula that the trail has not committed. Their
/// number bounds the depth of the search.
pub open spec fn open_variables(formula: Seq<Seq<i32>>, trail: Seq<i32>) -> Set<int> {
    Set::new(
        |id: int| 1 <= id <= i32::MAX && variable_occurs(formula, id) && !mentions(trail, id),
    )
}

/// What a scan of the clauses against the trail finds.
pub enum Survey {
    /// A clause that the trail has decided against.
    Conflict,
    /// The undecided literal of the first clause that has exactly one.
    Unit(i32),
    /// Neither: the undecided literals of all clauses that are not true,
    /// clause after clause.
    Open(Seq<i32>),
}

/// The scan of the clauses from position `from` on, with the undecided
/// literals `gathered` before it. It stops at the first clause that is
/// false or single.
pub open spec fn survey(
    formula: Seq<Seq<i32>>,
    trail: Seq<i32>,
    from: int,
    gathered: Seq<i32>,
) -> Survey
    decreases formula.len() - from,
{
    if from < 0 || from >= formula.len() {
        Survey::Open(gathered)
    } else if satisfied(formula[from], trail) {
        survey(formula, trail, from + 1, gathered)
    } else {
        let open = undetermined(formula[from], trail);
        if open.len() == 0 {
            Survey::Conflict
        } else if open.len() == 1 {
            Survey::Unit(open[0])
        } else {
            survey(formula, trail, from + 1, gathered + open)
        }
    }
}

/// Every literal is proper, undecided by the trail, and over a variable of
/// the formula.
pub open spec fn all_branchable(
    literals: Seq<i32>,
    formula: Seq<Seq<i32>>,
    trail: Seq<i32>,
) -> bool {
    forall|j: int|
        0 <= j < literals.len() ==> proper(#[trigger] literals[j]) && free(trail, literals[j])
            && variable_occurs(formula, variable(literals[j]))
}

/// The satisfying partial assignments that the search finds from `trail`,
/// in the order in which it finds them.
///
/// A conflict ends the branch with nothing. A unit literal is committed
/// and the search goes on. Where the scan leaves no literal undecided the
/// trail is the one result. Otherwise the search branches on the undecided
/// literal scanned last: the results with the literal committed come
/// first, then those with its negation.
pub open spec fn search(formula: Seq<Seq<i32>>, trail: Seq<i32>) -> Seq<Seq<i32>>
    decreases open_variables(formula, trail).len(),
    when searchable(formula, trail)
    via search_terminates
{
    match survey(formula, trail, 0, Seq::empty()) {
        Survey::Conflict => Seq::empty(),
        Survey::Unit(literal) => search(formula, trail.push(literal)),
        Survey::Open(found) => if found.len() == 0 {
            seq![trail]
        } else {
            search(formula, trail.push(found.last())) + search(
                formula,
                trail.push(negated(found.last())),
            )
        },
    }
}

/// A proper literal and its negation have opposite truth values, and the
/// same variable.
pub proof fn lemma_negated(model: Set<int>, literal: i32)
    requires
        proper(literal),
    ensures
        proper(negated(literal)),
        negated(negated(literal)) == literal,
        variable(negated(literal)) == variable(literal),
        1 <= variable(literal) <= i32::MAX,
        holds(model, negated(literal)) == !holds(model, literal),
{
}

/// What the undecided literals of a clause are.
pub proof fn lemma_undetermined(clause: Seq<i32>, trail: Seq<i32>)
    ensures
        forall|j: int|
            0 <= j < undetermined(clause, trail).len() ==> clause.contains(
                #[trigger] undetermined(clause, trail)[j],
            ) && free(trail, undetermined(clause, trail)[j]),
        forall|i: int|
            0 <= i < clause.len() && free(trail, #[trigger] clause[i]) ==> undetermined(
                clause,
                trail,
            ).contains(clause[i]),
    decreases clause.len(),
{
    if clause.len() > 0 {
        let shorter = clause.drop_last();
        let before = undetermined(shorter, trail);
        let all = undetermined(clause, trail);
        lemma_undetermined(shorter, trail);
        assert forall|j: int| 0 <= j < all.len() implies clause.contains(#[trigger] all[j])
            && free(trail, all[j]) by {
            if j < before.len() {
                assert(all[j] == before[j]);
                let at = shorter.index_of(before[j]);
                assert(clause[at] == before[j]);
            } else {
                assert(all[j] == clause[clause.len() - 1]);
            }
        }
        assert forall|i: int| 0 <= i < clause.len() && free(trail, #[trigger] clause[i])
            implies all.contains(clause[i]) by {
            if i < clause.len() - 1 {
                assert(shorter[i] == clause[i]);
                let at = before.index_of(clause[i]);
                assert(all[at] == clause[i]);
            } else {
                assert(all[all.len() - 1] == clause[i]);
            }
        }
    }
}

/// The undecided literals of a clause that is a set are a set: a clause
/// with one of them has exactly one literal that the trail leaves
/// undecided.
pub proof fn lemma_undetermined_distinct(clause: Seq<i32>, trail: Seq<i32>)
    requires
        clause.no_duplicates(),
    ensures
        undetermined(clause, trail).no_duplicates(),
    decreases clause.len(),
{
    if clause.len() > 0 {
        let shorter = clause.drop_last();
        let before = undetermined(shorter, trail);
        lemma_undetermined_distinct(shorter, trail);
        lemma_undetermined(shorter, trail);
        if before.contains(clause.last()) {
            let at = before.index_of(clause.last());
            assert(shorter.contains(before[at]));
            let inside = shorter.index_of(clause.last());
            assert(clause[inside] == clause[clause.len() - 1]);
        }
    }
}

/// The undecided literals of a clause of the formula can be branched on.
pub proof fn lemma_undetermined_branchable(formula: Seq<Seq<i32>>, trail: Seq<i32>, at: int)
    requires
        0 <= at < formula.len(),
        all_proper(formula[at]),
    ensures
        all_branchable(undetermined(formula[at], trail), formula, trail),
{
    let clause = formula[at];
    let open = undetermined(clause, trail);
    lemma_undetermined(clause, trail);
    assert forall|j: int| 0 <= j < open.len() implies proper(#[trigger] open[j]) && free(
        trail,
        open[j],
    ) && variable_occurs(formula, variable(open[j])) by {
        let inside = clause.index_of(open[j]);
        assert(formula[at][inside] == open[j]);
        assert(proper(clause[inside]));
    }
}

/// A literal that the trail leaves undecided is over a variable that the
/// trail does not commit.
pub proof fn lemma_free_unmentioned(trail: Seq<i32>, literal: i32)
    requires
        all_proper(trail),
        proper(literal),
        free(trail, literal),
    ensures
        !mentions(trail, variable(literal)),
{
    if mentions(trail, variable(literal)) {
        let i = choose|i: int| 0 <= i < trail.len() && variable(#[trigger] trail[i]) == variable(
            literal,
        );
        assert(proper(trail[i]));
        assert(trail[i] == literal || trail[i] == negated(literal));
        assert(trail.contains(trail[i]));
    }
}

/// Committing a literal over an uncommitted variable keeps the trail fit
/// for the search and leaves one open variable fewer.
pub proof fn lemma_commit(formula: Seq<Seq<i32>>, trail: Seq<i32>, literal: i32)
    requires
        searchable(formula, trail),
        proper(literal),
        variable_occurs(formula, variable(literal)),
        !mentions(trail, variable(literal)),
    ensures
        searchable(formula, trail.push(literal)),
        open_variables(formula, trail).finite(),
        open_variables(formula, trail.push(literal)).len() < open_variables(formula, trail).len(),
{
    let longer = trail.push(literal);
    let id = variable(literal);
    assert forall|i: int, j: int| 0 <= i < j < longer.len() implies variable(
        #[trigger] longer[i],
    ) != variable(#[trigger] longer[j]) by {
        if j == trail.len() {
            assert(longer[i] == trail[i]);
            assert(mentions(trail, variable(trail[i])));
        } else {
            assert(longer[i] == trail[i] && longer[j] == trail[j]);
        }
    }
    let before = open_variables(formula, trail);
    let after = open_variables(formula, longer);
    let bound = set_int_range(1, i32::MAX + 1);
    lemma_int_range(1, i32::MAX + 1);
    assert(before.subset_of(bound));
    lemma_len_subset(before, bound);
    assert(before.contains(id));
    assert forall|other: int| after.contains(other) == before.remove(id).contains(other) by {
        if mentions(trail, other) {
            let i = choose|i: int| 0 <= i < trail.len() && variable(#[trigger] trail[i]) == other;
            assert(longer[i] == trail[i]);
            assert(mentions(longer, other));
        }
        if other == id {
            assert(longer[trail.len() as int] == literal);
            assert(mentions(longer, other));
        }
        if mentions(longer, other) && other != id {
            let i = choose|i: int| 0 <= i < longer.len() && variable(#[trigger] longer[i]) == other;
            assert(longer[i] == trail[i]);
            assert(mentions(trail, other));
        }
    }
    assert(after =~= before.remove(id));
}

/// A scan finds only literals that can be branched on.
pub proof fn lemma_survey(formula: Seq<Seq<i32>>, trail: Seq<i32>, from: int, gathered: Seq<i32>)
    requires
        forall|c: int| 0 <= c < formula.len() ==> all_proper(#[trigger] formula[c]),
        all_branchable(gathered, formula, trail),
        0 <= from,
    ensures
        match survey(formula, trail, from, gathered) {
            Survey::Conflict => true,
            Survey::Unit(literal) => all_branchable(seq![literal], formula, trail),
            Survey::Open(found) => all_branchable(found, formula, trail),
        },
    decreases formula.len() - from,
{
    if from < formula.len() {
        if satisfied(formula[from], trail) {
            lemma_survey(formula, trail, from + 1, gathered);
        } else {
            let open = undetermined(formula[from], trail);
            lemma_undetermined_branchable(formula, trail, from);
            if open.len() == 1 {
                assert(all_branchable(seq![open[0]], formula, trail));
            } else if open.len() > 1 {
                let more = gathered + open;
                assert forall|j: int| 0 <= j < more.len() implies proper(#[trigger] more[j])
                    && free(trail, more[j]) && variable_occurs(formula, variable(more[j])) by {
                    if j < gathered.len() {
                        assert(more[j] == gathered[j]);
                    } else {
                        assert(more[j] == open[j - gathered.len()]);
                    }
                }
                lemma_survey(formula, trail, from + 1, more);
            }
        }
    }
}

/// Every step of the search commits a variable that was open, so the
/// number of open variables falls.
#[via_fn]
proof fn search_terminates(formula: Seq<Seq<i32>>, trail: Seq<i32>) {
    lemma_survey(formula, trail, 0, Seq::empty());
    match survey(formula, trail, 0, Seq::empty()) {
        Survey::Conflict => {},
        Survey::Unit(literal) => {
            assert(seq![literal][0] == literal);
            lemma_free_unmentioned(trail, literal);
            lemma_commit(formula, trail, literal);
        },
        Survey::Open(found) => {
            if found.len() > 0 {
                let literal = found.last();
                assert(found[found.len() - 1] == literal);
                lemma_negated(Set::empty(), literal);
                lemma_free_unmentioned(trail, literal);
                lemma_commit(formula, trail, literal);
                lemma_commit(formula, trail, negated(literal));
            }
        },
    }
}

/// A partial assignment that the search may return from `trail`: it
/// extends the trail by literals over variables of the formula, commits no
/// variable twice, and holds a literal of every clause.
pub open spec fn is_solution(solution: Seq<i32>, formula: Seq<Seq<i32>>, trail: Seq<i32>) -> bool {
    &&& trail.is_prefix_of(solution)
    &&& all_proper(solution)
    &&& distinct_variables(solution)
    &&& forall|c: int| 0 <= c < formula.len() ==> satisfied(#[trigger] formula[c], solution)
    &&& forall|j: int|
        trail.len() <= j < solution.len() ==> variable_occurs(
            formula,
            variable(#[trigger] solution[j]),
        )
}

/// Every entry is a solution of the formula from the trail.
pub open spec fn all_solutions(
    solutions: Seq<Seq<i32>>,
    formula: Seq<Seq<i32>>,
    trail: Seq<i32>,
) -> bool {
    forall|k: int| 0 <= k < solutions.len() ==> is_solution(#[trigger] solutions[k], formula, trail)
}

/// Some entry is true in `model` literal for literal.
pub open spec fn covers(solutions: Seq<Seq<i32>>, model: Set<int>) -> bool {
    exists|k: int| 0 <= k < solutions.len() && agrees(model, #[trigger] solutions[k])
}

/// No model agrees with both assignments.
pub open spec fn exclusive(first: Seq<i32>, second: Seq<i32>) -> bool {
    forall|model: Set<int>| !(agrees(model, first) && #[trigger] agrees(model, second))
}

/// No model agrees with two entries of the list.
pub open spec fn pairwise_exclusive(solutions: Seq<Seq<i32>>) -> bool {
    forall|i: int, j: int|
        0 <= i < j < solutions.len() ==> exclusive(#[trigger] solutions[i], #[trigger] solutions[j])
}

/// The trail has decided against every literal of the clause at `at`.
pub open spec fn conflict_at(formula: Seq<Seq<i32>>, trail: Seq<i32>, at: int) -> bool {
    &&& 0 <= at < formula.len()
    &&& !satisfied(formula[at], trail)
    &&& undetermined(formula[at], trail).len() == 0
}

/// The trail has decided against every literal of the clause at `at` but
/// `literal`, which it leaves undecided.
pub open spec fn unit_at(formula: Seq<Seq<i32>>, trail: Seq<i32>, at: int, literal: i32) -> bool {
    &&& 0 <= at < formula.len()
    &&& !satisfied(formula[at], trail)
    &&& undetermined(formula[at], trail) == seq![literal]
}

/// Every clause from position `from` on holds a literal of the trail.
pub open spec fn all_true_from(formula: Seq<Seq<i32>>, trail: Seq<i32>, from: int) -> bool {
    forall|c: int| from <= c < formula.len() ==> satisfied(#[trigger] formula[c], trail)
}

/// A model that agrees with the trail makes no clause true whose literals
/// the trail has all decided against.
pub proof fn lemma_conflict(model: Set<int>, clause: Seq<i32>, trail: Seq<i32>)
    requires
        all_proper(clause),
        agrees(model, trail),
        !satisfied(clause, trail),
        undetermined(clause, trail).len() == 0,
    ensures
        !satisfies_clause(model, clause),
{
    lemma_undetermined(clause, trail);
    assert forall|i: int| 0 <= i < clause.len() implies !holds(model, #[trigger] clause[i]) by {
        let literal = clause[i];
        assert(!trail.contains(literal));
        if free(trail, literal) {
            assert(undetermined(clause, trail).contains(literal));
        }
        let at = trail.index_of(negated(literal));
        assert(holds(model, trail[at]));
        lemma_negated(model, literal);
    }
}

/// A model that agrees with the trail and makes a clause true makes its
/// one undecided literal true, when the trail has decided against all the
/// others.
pub proof fn lemma_unit(model: Set<int>, clause: Seq<i32>, trail: Seq<i32>, unit: i32)
    requires
        all_proper(clause),
        agrees(model, trail),
        !satisfied(clause, trail),
        undetermined(clause, trail) == seq![unit],
        satisfies_clause(model, clause),
    ensures
        holds(model, unit),
{
    lemma_undetermined(clause, trail);
    let i = choose|i: int| 0 <= i < clause.len() && holds(model, #[trigger] clause[i]);
    let literal = clause[i];
    assert(!trail.contains(literal));
    if free(trail, literal) {
        let at = undetermined(clause, trail).index_of(literal);
        assert(literal == unit);
    } else {
        let at = trail.index_of(negated(literal));
        assert(holds(model, trail[at]));
        lemma_negated(model, literal);
    }
}

/// What the outcome of a scan says of the clauses: a conflict or a unit is
/// found at some clause, and a scan that gathers no undecided literal has
/// found every clause true.
pub proof fn lemma_survey_outcome(
    formula: Seq<Seq<i32>>,
    trail: Seq<i32>,
    from: int,
    gathered: Seq<i32>,
)
    requires
        0 <= from,
    ensures
        survey(formula, trail, from, gathered) is Conflict ==> exists|at: int| #[trigger]
            conflict_at(formula, trail, at),
        survey(formula, trail, from, gathered) is Unit ==> exists|at: int| #[trigger]
            unit_at(formula, trail, at, survey(formula, trail, from, gathered)->Unit_0),
        survey(formula, trail, from, gathered) is Open ==> survey(
            formula,
            trail,
            from,
            gathered,
        )->Open_0.len() >= gathered.len(),
        survey(formula, trail, from, gathered) is Open && survey(
            formula,
            trail,
            from,
            gathered,
        )->Open_0.len() == gathered.len() ==> all_true_from(formula, trail, from),
    decreases formula.len() - from,
{
    let outcome = survey(formula, trail, from, gathered);
    if from < formula.len() {
        let open = undetermined(formula[from], trail);
        if satisfied(formula[from], trail) {
            let next = survey(formula, trail, from + 1, gathered);
            lemma_survey_outcome(formula, trail, from + 1, gathered);
            assert(outcome == next);
            if next is Unit {
                let at = choose|at: int| #[trigger] unit_at(formula, trail, at, next->Unit_0);
                assert(unit_at(formula, trail, at, outcome->Unit_0));
            }
            if all_true_from(formula, trail, from + 1) {
                assert forall|c: int| from <= c < formula.len() implies satisfied(
                    #[trigger] formula[c],
                    trail,
                ) by {
                    if c > from {
                        assert(from + 1 <= c);
                    }
                }
            }
        } else if open.len() == 0 {
            assert(conflict_at(formula, trail, from));
        } else if open.len() == 1 {
            assert(open =~= seq![open[0]]);
            assert(outcome == Survey::Unit(open[0]));
            assert(unit_at(formula, trail, from, outcome->Unit_0));
        } else {
            let next = survey(formula, trail, from + 1, gathered + open);
            lemma_survey_outcome(formula, trail, from + 1, gathered + open);
            assert(outcome == next);
            if next is Unit {
                let at = choose|at: int| #[trigger] unit_at(formula, trail, at, next->Unit_0);
                assert(unit_at(formula, trail, at, outcome->Unit_0));
            }
            assert((gathered + open).len() == gathered.len() + open.len());
        }
    } else {
        assert(outcome == Survey::Open(gathered));
    }
}

/// Solutions from a longer trail are solutions from the trail it extends
/// by one literal over a variable of the formula.
proof fn lemma_solutions_from_longer(
    solutions: Seq<Seq<i32>>,
    formula: Seq<Seq<i32>>,
    trail: Seq<i32>,
    literal: i32,
)
    requires
        all_solutions(solutions, formula, trail.push(literal)),
        variable_occurs(formula, variable(literal)),
    ensures
        all_solutions(solutions, formula, trail),
{
    let longer = trail.push(literal);
    assert forall|k: int| 0 <= k < solutions.len() implies is_solution(
        #[trigger] solutions[k],
        formula,
        trail,
    ) by {
        let solution = solutions[k];
        assert(is_solution(solution, formula, longer));
        assert(trail.is_prefix_of(solution));
        assert forall|j: int| trail.len() <= j < solution.len() implies variable_occurs(
            formula,
            variable(#[trigger] solution[j]),
        ) by {
            if j == trail.len() {
                assert(solution[j] == longer[j]);
            }
        }
    }
}

/// A model that agrees with a trail and makes a literal true agrees with
/// the trail extended by that literal.
proof fn lemma_agrees_push(model: Set<int>, trail: Seq<i32>, literal: i32)
    requires
        agrees(model, trail),
        holds(model, literal),
    ensures
        agrees(model, trail.push(literal)),
{
    let longer = trail.push(literal);
    assert forall|i: int| 0 <= i < longer.len() implies holds(model, #[trigger] longer[i]) by {
        if i < trail.len() {
            assert(longer[i] == trail[i]);
        }
    }
}

/// A model that agrees with an assignment makes each of its literals true.
proof fn lemma_agrees_at(model: Set<int>, solution: Seq<i32>, trail: Seq<i32>, literal: i32)
    requires
        trail.push(literal).is_prefix_of(solution),
        agrees(model, solution),
    ensures
        holds(model, literal),
{
    assert(solution[trail.len() as int] == trail.push(literal)[trail.len() as int]);
}

/// Two lists of pairwise exclusive solutions, one from a trail extended by
/// a literal and one from the trail extended by its negation, are pairwise
/// exclusive together.
proof fn lemma_exclusive_branches(
    first: Seq<Seq<i32>>,
    second: Seq<Seq<i32>>,
    formula: Seq<Seq<i32>>,
    trail: Seq<i32>,
    literal: i32,
)
    requires
        proper(literal),
        all_solutions(first, formula, trail.push(literal)),
        all_solutions(second, formula, trail.push(negated(literal))),
        pairwise_exclusive(first),
        pairwise_exclusive(second),
    ensures
        pairwise_exclusive(first + second),
{
    let both = first + second;
    assert forall|i: int, j: int| 0 <= i < j < both.len() implies exclusive(
        #[trigger] both[i],
        #[trigger] both[j],
    ) by {
        if j < first.len() {
            assert(both[i] == first[i] && both[j] == first[j]);
        } else if i >= first.len() {
            assert(both[i] == second[i - first.len()] && both[j] == second[j - first.len()]);
        } else {
            assert(both[i] == first[i] && both[j] == second[j - first.len()]);
            assert(is_solution(first[i], formula, trail.push(literal)));
            assert(is_solution(second[j - first.len()], formula, trail.push(negated(literal))));
            assert forall|model: Set<int>| !(agrees(model, both[i]) && #[trigger] agrees(
                model,
                both[j],
            )) by {
                if agrees(model, both[i]) && agrees(model, both[j]) {
                    lemma_agrees_at(model, both[i], trail, literal);
                    lemma_agrees_at(model, both[j], trail, negated(literal));
                    lemma_negated(model, literal);
                }
            }
        }
    }
}

/// What one list covers, the list followed by another covers too, and so
/// for what the other covers.
proof fn lemma_covers_concat(first: Seq<Seq<i32>>, second: Seq<Seq<i32>>, model: Set<int>)
    requires
        covers(first, model) || covers(second, model),
    ensures
        covers(first + second, model),
{
    let both = first + second;
    if covers(first, model) {
        let k = choose|k: int| 0 <= k < first.len() && agrees(model, #[trigger] first[k]);
        assert(both[k] == first[k]);
    } else {
        let k = choose|k: int| 0 <= k < second.len() && agrees(model, #[trigger] second[k]);
        assert(both[first.len() + k] == second[k]);
    }
}

/// The search is sound, complete and without repetition: every result is
/// a solution from the trail, every model of the clauses that agrees with
/// the trail agrees with a result, and no model agrees with two results.
pub proof fn lemma_search(formula: Seq<Seq<i32>>, trail: Seq<i32>)
    requires
        searchable(formula, trail),
    ensures
        all_solutions(search(formula, trail), formula, trail),
        forall|model: Set<int>|
            agrees(model, trail) && satisfies(model, formula) ==> covers(
                search(formula, trail),
                model,
            ),
        pairwise_exclusive(search(formula, trail)),
    decreases open_variables(formula, trail).len(),
{
    let none = Seq::<i32>::empty();
    let found = search(formula, trail);
    lemma_survey(formula, trail, 0, none);
    lemma_survey_outcome(formula, trail, 0, none);
    match survey(formula, trail, 0, none) {
        Survey::Conflict => {
            let at = choose|at: int| #[trigger] conflict_at(formula, trail, at);
            assert forall|model: Set<int>|
                agrees(model, trail) && satisfies(model, formula) implies covers(found, model) by {
                lemma_conflict(model, formula[at], trail);
            }
        },
        Survey::Unit(literal) => {
            let at = choose|at: int| #[trigger] unit_at(formula, trail, at, literal);
            assert(seq![literal][0] == literal);
            lemma_free_unmentioned(trail, literal);
            lemma_commit(formula, trail, literal);
            lemma_search(formula, trail.push(literal));
            lemma_solutions_from_longer(found, formula, trail, literal);
            assert forall|model: Set<int>|
                agrees(model, trail) && satisfies(model, formula) implies covers(found, model) by {
                assert(satisfies_clause(model, formula[at]));
                lemma_unit(model, formula[at], trail, literal);
                lemma_agrees_push(model, trail, literal);
            }
        },
        Survey::Open(gathered) => {
            if gathered.len() == 0 {
                assert(found[0] == trail);
                assert(is_solution(trail, formula, trail));
                assert forall|model: Set<int>|
                    agrees(model, trail) && satisfies(model, formula) implies covers(
                    found,
                    model,
                ) by {
                    assert(agrees(model, found[0]));
                }
            } else {
                let literal = gathered.last();
                let opposite = negated(literal);
                assert(gathered[gathered.len() - 1] == literal);
                lemma_negated(Set::empty(), literal);
                lemma_free_unmentioned(trail, literal);
                lemma_commit(formula, trail, literal);
                lemma_commit(formula, trail, opposite);
                lemma_search(formula, trail.push(literal));
                lemma_search(formula, trail.push(opposite));
                let first = search(formula, trail.push(literal));
                let second = search(formula, trail.push(opposite));
                lemma_exclusive_branches(first, second, formula, trail, literal);
                lemma_solutions_from_longer(first, formula, trail, literal);
                lemma_solutions_from_longer(second, formula, trail, opposite);
                assert forall|model: Set<int>|
                    agrees(model, trail) && satisfies(model, formula) implies covers(
                    found,
                    model,
                ) by {
                    lemma_negated(model, literal);
                    if holds(model, literal) {
                        lemma_agrees_push(model, trail, literal);
                    } else {
                        lemma_agrees_push(model, trail, opposite);
                    }
                    lemma_covers_concat(first, second, model);
                }
                assert forall|k: int| 0 <= k < found.len() implies is_solution(
                    #[trigger] found[k],
                    formula,
                    trail,
                ) by {
                    if k < first.len() {
                        assert(found[k] == first[k]);
                    } else {
                        assert(found[k] == second[k - first.len()]);
                    }
                }
            }
        },
    }
}

/// Where a clause stands against the trail.
pub enum ClauseStatus {
    /// A literal of the clause is on the trail.
    True,
    /// No literal is on the trail and none is undecided.
    False,
    /// No literal is on the trail and exactly this one is undecided.
    Single(i32),
    /// No literal is on the trail and these, two or more, are undecided.
    Multiple(Vec<i32>),
}

/// Classifies a clause, which is a set of literals, against the trail.
///
/// The clause is true when one of its literals is on the trail. Otherwise
/// it is false when the trail leaves none of its literals undecided, single
/// when it leaves exactly one, and multiple when it leaves more; the
/// undecided literals are reported in the order of the clause.
pub fn clause_status(clause: &Vec<i32>, trues: &Vec<i32>) -> (status: ClauseStatus)
    requires
        proper_clause(clause@),
    ensures
        match status {
            ClauseStatus::True => satisfied(clause@, trues@),
            ClauseStatus::False => !satisfied(clause@, trues@) && undetermined(
                clause@,
                trues@,
            ).len() == 0,
            ClauseStatus::Single(literal) => !satisfied(clause@, trues@) && undetermined(
                clause@,
                trues@,
            ) == seq![literal],
            ClauseStatus::Multiple(literals) => !satisfied(clause@, trues@) && literals@
                == undetermined(clause@, trues@) && literals@.len() >= 2,
        },
{
    let mut unassigned: Vec<i32> = Vec::new();
    let mut index: usize = 0;
    assert(clause@.take(0) =~= Seq::<i32>::empty());
    while index < clause.len()
        invariant
            index <= clause.len(),
            all_proper(clause@),
            forall|i: int| 0 <= i < index ==> !trues@.contains(#[trigger] clause@[i]),
            unassigned@ == undetermined(clause@.take(index as int), trues@),
        decreases clause.len() - index,
    {
        let literal = clause[index];
        proof {
            let next = clause@.take(index + 1);
            assert(next.drop_last() =~= clause@.take(index as int));
            assert(next.last() == literal);
            assert(proper(clause@[index as int]));
        }
        if contains_literal(trues, literal) {
            return ClauseStatus::True;
        }
        if !contains_literal(trues, -literal) {
            unassigned.push(literal);
        }
        index += 1;
    }
    assert(clause@.take(clause.len() as int) =~= clause@);
    if unassigned.len() == 0 {
        ClauseStatus::False
    } else if unassigned.len() == 1 {
        let literal = unassigned[0];
        assert(unassigned@ =~= seq![literal]);
        ClauseStatus::Single(literal)
    } else {
        ClauseStatus::Multiple(unassigned)
    }
}

/// A clause list together with the trail of literals committed so far.
pub struct CNFRep {
    pub formula: Vec<Vec<i32>>,
    pub trues: Vec<i32>,
}

impl CNFRep {
    /// The clauses as sequences of literals.
    pub open spec fn clauses(&self) -> Seq<Seq<i32>> {
        self.formula.deep_view()
    }

    /// The state is fit for the search: see [`searchable`].
    pub open spec fn wf(&self) -> bool {
        searchable(self.clauses(), self.trues@)
    }

    /// A search state over `formula` with an empty trail.
    pub fn new(formula: Vec<Vec<i32>>) -> (rep: CNFRep)
        ensures
            rep.formula == formula,
            rep.trues@ == Seq::<i32>::empty(),
    {
        CNFRep { formula, trues: Vec::new() }
    }

    /// Finds the satisfying partial assignments that extend the trail.
    ///
    /// Clauses are scanned in order. A false clause ends the search of this
    /// branch with no result. The first single clause has its literal
    /// committed and the search continues from there. When every clause is
    /// true, the trail itself is the one result. Otherwise the search
    /// branches on the undecided literal that was scanned last, first with
    /// the literal and then with its negation, and returns the results of
    /// both branches in that order.
    ///
    /// The result is [`search`] from the trail. So every result is a
    /// solution from the trail in the sense of [`is_solution`], every model
    /// of the clauses that agrees with the trail agrees with one of the
    /// results, and no model agrees with two of them. The formula and the
    /// trail are left as they were found.
    pub fn dpll(&mut self) -> (result: Vec<Vec<i32>>)
        requires
            old(self).wf(),
        ensures
            final(self).formula == old(self).formula,
            final(self).trues@ == old(self).trues@,
            result.deep_view() == search(old(self).clauses(), old(self).trues@),
            all_solutions(result.deep_view(), old(self).clauses(), old(self).trues@),
            forall|model: Set<int>|
                agrees(model, old(self).trues@) && satisfies(model, old(self).clauses())
                    ==> covers(result.deep_view(), model),
            pairwise_exclusive(result.deep_view()),
        decreases open_variables(old(self).clauses(), old(self).trues@).len(),
    {
        let ghost formula = self.clauses();
        let ghost trail = self.trues@;
        proof {
            lemma_search(formula, trail);
        }
        let mut all_unassigned: Vec<i32> = Vec::new();
        let mut index: usize = 0;

        while index < self.formula.len()
            invariant
                index <= self.formula.len(),
                self.formula == old(self).formula,
                self.trues@ == trail,
                self.clauses() == formula,
                trail == old(self).trues@,
                formula == old(self).clauses(),
                searchable(formula, trail),
                survey(formula, trail, 0, Seq::empty()) == survey(
                    formula,
                    trail,
                    index as int,
                    all_unassigned@,
                ),
                all_branchable(all_unassigned@, formula, trail),
                all_solutions(search(formula, trail), formula, trail),
                forall|model: Set<int>|
                    agrees(model, trail) && satisfies(model, formula) ==> covers(
                        search(formula, trail),
                        model,
                    ),
                pairwise_exclusive(search(formula, trail)),
            decreases self.formula.len() - index,
        {
            let ghost clause = formula[index as int];
            assert(clause == self.formula[index as int]@);
            assert(proper_clause(clause));
            proof {
                lemma_undetermined_branchable(formula, trail, index as int);
            }
            match clause_status(&self.formula[index], &self.trues) {
                ClauseStatus::True => {},
                ClauseStatus::False => {
                    let result: Vec<Vec<i32>> = Vec::new();
                    assert(result.deep_view() =~= Seq::<Seq<i32>>::empty());
                    return result;
                },
                ClauseStatus::Single(literal) => {
                    proof {
                        assert(undetermined(clause, trail)[0] == literal);
                        lemma_free_unmentioned(trail, literal);
                        lemma_commit(formula, trail, literal);
                    }
                    self.trues.push(literal);
                    let result = self.dpll();
                    self.trues.pop();
                    assert(self.trues@ =~= trail);
                    return result;
                },
                ClauseStatus::Multiple(unassigned) => {
                    let mut unassigned = unassigned;
                    let ghost gathered = all_unassigned@;
                    proof {
                        assert(survey(formula, trail, index as int, gathered) == survey(
                            formula,
                            trail,
                            index + 1,
                            gathered + unassigned@,
                        ));
                        let more = gathered + unassigned@;
                        assert forall|j: int| 0 <= j < more.len() implies proper(
                            #[trigger] more[j],
                        ) && free(trail, more[j]) && variable_occurs(
                            formula,
                            variable(more[j]),
                        ) by {
                            if j < gathered.len() {
                                assert(more[j] == gathered[j]);
                            } else {
                                assert(more[j] == unassigned@[j - gathered.len()]);
                            }
                        }
                    }
                    all_unassigned.append(&mut unassigned);
                    assert(all_unassigned@ =~= gathered + undetermined(clause, trail));
                },
            }
            index += 1;
        }

        if all_unassigned.len() == 0 {
            let copy = self.trues.clone();
            assert(copy@ =~= trail);
            let result = vec![copy];
            assert(result.deep_view() =~~= seq![trail]);
            return result;
        }
        let literal = all_unassigned[all_unassigned.len() - 1];
        let opposite: i32 = -literal;
        proof {
            lemma_negated(Set::empty(), literal);
            lemma_free_unmentioned(trail, literal);
            lemma_commit(formula, trail, literal);
            lemma_commit(formula, trail, opposite);
        }

        self.trues.push(literal);
        let mut result = self.dpll();
        self.trues.pop();
        assert(self.trues@ =~= trail);
        let ghost first = result.deep_view();

        self.trues.push(opposite);
        let mut second = self.dpll();
        let ghost rest = second.deep_view();
        result.append(&mut second);
        self.trues.pop();

        assert(self.trues@ =~= trail);
        assert(result.deep_view() =~= first + rest);
        result
    }
}

} // verus!
