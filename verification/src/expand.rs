//! Completion of partial assignments to total ones, and their rendering
//! as signed variable names.
use crate::encode::{contains_literal, label, VarMap};
use crate::search::{mentions, negated, variable};
use vstd::prelude::*;

verus! {

/// The ids from 1 to `count` that `solution` does not commit, in
/// increasing order.
pub open spec fn missing(count: int, solution: Seq<i32>) -> Seq<i32>
    decreases count,
{
    if count <= 0 {
        Seq::empty()
    } else if mentions(solution, count) {
        missing(count - 1, solution)
    } else {
        missing(count - 1, solution).push(count as i32)
    }
}

/// Every way to give each of `ids` a polarity, as literal lists in the
/// order of `ids`. The lists that take the first id positive come first,
/// and so on within each half.
pub open spec fn sign_patterns(ids: Seq<i32>) -> Seq<Seq<i32>>
    decreases ids.len(),
{
    if ids.len() == 0 {
        seq![Seq::empty()]
    } else {
        let rest = sign_patterns(ids.drop_first());
        rest.map_values(|tail: Seq<i32>| seq![ids[0]] + tail) + rest.map_values(
            |tail: Seq<i32>| seq![negated(ids[0])] + tail,
        )
    }
}

/// The total assignments over the ids from 1 to `count` that extend
/// `solution`: the solution followed by each sign pattern of the ids it
/// does not commit.
pub open spec fn completions(count: int, solution: Seq<i32>) -> Seq<Seq<i32>> {
    sign_patterns(missing(count, solution)).map_values(|tail: Seq<i32>| solution + tail)
}

/// The completions of every solution, one solution after the other.
pub open spec fn complete_all(count: int, solutions: Seq<Seq<i32>>) -> Seq<Seq<i32>>
    decreases solutions.len(),
{
    if solutions.len() == 0 {
        Seq::empty()
    } else {
        complete_all(count, solutions.drop_last()) + completions(count, solutions.last())
    }
}

/// The texts of the literals of an assignment.
pub open spec fn labels(names: Seq<Seq<char>>, assignment: Seq<i32>) -> Seq<Seq<char>> {
    assignment.map_values(|literal: i32| label(names, literal as int))
}

/// The texts of every assignment.
pub open spec fn label_all(names: Seq<Seq<char>>, assignments: Seq<Seq<i32>>) -> Seq<
    Seq<Seq<char>>,
> {
    assignments.map_values(|assignment: Seq<i32>| labels(names, assignment))
}

/// Every literal is over an id from 1 to `count`.
pub open spec fn within(count: int, literals: Seq<i32>) -> bool {
    forall|i: int| 0 <= i < literals.len() ==> 1 <= variable(#[trigger] literals[i]) <= count
}

/// A sequence commits an id exactly when it holds the id or its negative.
pub proof fn lemma_mentions(solution: Seq<i32>, id: int)
    requires
        1 <= id <= i32::MAX,
    ensures
        mentions(solution, id) == (solution.contains(id as i32) || solution.contains(
            (-id) as i32,
        )),
{
    if solution.contains(id as i32) {
        let at = solution.index_of(id as i32);
        assert(variable(solution[at]) == id);
    }
    if solution.contains((-id) as i32) {
        let at = solution.index_of((-id) as i32);
        assert(variable(solution[at]) == id);
    }
    if mentions(solution, id) {
        let at = choose|i: int| 0 <= i < solution.len() && variable(#[trigger] solution[i]) == id;
        assert(solution[at] == id as i32 || solution[at] == (-id) as i32);
        assert(solution.contains(solution[at]));
    }
}

/// Nothing is missing below `count` when every id up to it is committed.
proof fn lemma_none_missing(count: int, solution: Seq<i32>)
    requires
        forall|id: int| 1 <= id <= count ==> mentions(solution, id),
    ensures
        missing(count, solution) == Seq::<i32>::empty(),
    decreases count,
{
    if count > 0 {
        lemma_none_missing(count - 1, solution);
    }
}

/// Committing a literal changes which other ids are committed in no way.
proof fn lemma_mentions_push(solution: Seq<i32>, literal: i32, id: int)
    ensures
        mentions(solution.push(literal), id) == (mentions(solution, id) || variable(literal)
            == id),
{
    let longer = solution.push(literal);
    if mentions(solution, id) {
        let at = choose|i: int| 0 <= i < solution.len() && variable(#[trigger] solution[i]) == id;
        assert(longer[at] == solution[at]);
    }
    if variable(literal) == id {
        assert(longer[solution.len() as int] == literal);
    }
    if mentions(longer, id) && variable(literal) != id {
        let at = choose|i: int| 0 <= i < longer.len() && variable(#[trigger] longer[i]) == id;
        assert(longer[at] == solution[at]);
    }
}

/// The lowest id that a solution does not commit heads its missing ids,
/// and the others are those that are missing once it is committed.
proof fn lemma_first_missing(count: int, solution: Seq<i32>, first: int, literal: i32)
    requires
        1 <= first <= count,
        first <= i32::MAX,
        forall|id: int| 1 <= id < first ==> mentions(solution, id),
        !mentions(solution, first),
        variable(literal) == first,
    ensures
        missing(count, solution) == seq![first as i32] + missing(count, solution.push(literal)),
    decreases count,
{
    let longer = solution.push(literal);
    lemma_mentions_push(solution, literal, count);
    if count == first {
        lemma_none_missing(count - 1, solution);
        assert forall|id: int| 1 <= id <= count implies mentions(longer, id) by {
            lemma_mentions_push(solution, literal, id);
        }
        lemma_none_missing(count, longer);
        assert(missing(count, solution) =~= seq![first as i32] + missing(count, longer));
    } else {
        lemma_first_missing(count - 1, solution, first, literal);
        assert(missing(count, solution) =~= seq![first as i32] + missing(count, longer));
    }
}

/// The completions of a solution are those of the solution with its lowest
/// missing id committed positively, followed by those with it committed
/// negatively.
proof fn lemma_completions_branch(count: int, solution: Seq<i32>, first: i32)
    requires
        1 <= first <= count,
        forall|id: int| 1 <= id < first ==> mentions(solution, id),
        !mentions(solution, first as int),
    ensures
        completions(count, solution) == completions(count, solution.push(first)) + completions(
            count,
            solution.push(negated(first)),
        ),
{
    let opposite = negated(first);
    lemma_first_missing(count, solution, first as int, first);
    lemma_first_missing(count, solution, first as int, opposite);
    let ids = missing(count, solution);
    let rest = missing(count, solution.push(first));
    assert(missing(count, solution.push(opposite)) == rest) by {
        assert(ids.drop_first() =~= rest);
        assert(ids.drop_first() =~= missing(count, solution.push(opposite)));
    }
    assert(ids.drop_first() =~= rest);
    assert(ids[0] == first);
    let tails = sign_patterns(rest);
    let whole = completions(count, solution);
    let positive = completions(count, solution.push(first));
    let negative = completions(count, solution.push(opposite));
    assert(whole.len() == positive.len() + negative.len());
    assert forall|k: int| 0 <= k < whole.len() implies whole[k] == (positive + negative)[k] by {
        if k < tails.len() {
            assert(whole[k] == solution + (seq![first] + tails[k]));
            assert(positive[k] == solution.push(first) + tails[k]);
            assert(solution + (seq![first] + tails[k]) =~= solution.push(first) + tails[k]);
        } else {
            let j = k - tails.len();
            assert(whole[k] == solution + (seq![opposite] + tails[j]));
            assert(negative[j] == solution.push(opposite) + tails[j]);
            assert(solution + (seq![opposite] + tails[j]) =~= solution.push(opposite) + tails[j]);
        }
    }
    assert(whole =~= positive + negative);
}

/// Enumerates the total assignments that extend `solution`.
///
/// The lowest id of `varmap` that the solution does not commit is
/// committed, first positively and then negatively, and so on until every
/// id is committed. The result is [`completions`] of the solution over the
/// ids of `varmap`; the solution is left as it was found.
pub fn all_assignments(varmap: &VarMap, solution: &mut Vec<i32>) -> (result: Vec<Vec<i32>>)
    requires
        varmap.wf(),
    ensures
        final(solution)@ == old(solution)@,
        result.deep_view() == completions(varmap@.len() as int, old(solution)@),
    decreases missing(varmap@.len() as int, old(solution)@).len(),
{
    let count = varmap.len();
    let ghost start = solution@;
    let mut index: i32 = 0;
    while index < count
        invariant
            0 <= index <= count,
            varmap.wf(),
            count == varmap@.len(),
            solution@ == start,
            start == old(solution)@,
            forall|id: int| 1 <= id <= index ==> mentions(start, id),
        decreases count - index,
    {
        let num: i32 = index + 1;
        let opposite: i32 = -num;
        proof {
            lemma_mentions(start, num as int);
        }
        if !contains_literal(solution, num) && !contains_literal(solution, opposite) {
            proof {
                lemma_first_missing(count as int, start, num as int, num);
                lemma_first_missing(count as int, start, num as int, opposite);
                lemma_completions_branch(count as int, start, num);
            }
            solution.push(num);
            let mut result = all_assignments(varmap, solution);
            solution.pop();
            assert(solution@ =~= start);
            let ghost first = result.deep_view();

            solution.push(opposite);
            let mut second = all_assignments(varmap, solution);
            let ghost rest = second.deep_view();
            result.append(&mut second);
            solution.pop();
            assert(solution@ =~= start);
            assert(result.deep_view() =~= first + rest);
            return result;
        }
        index += 1;
    }
    let copy = solution.clone();
    assert(copy@ =~= start);
    let result = vec![copy];
    proof {
        lemma_none_missing(count as int, start);
        assert(start + Seq::<i32>::empty() =~= start);
        assert(result.deep_view() =~~= completions(count as int, start));
    }
    result
}


/// The missing ids lie between 1 and `count`.
pub proof fn lemma_missing_within(count: int, solution: Seq<i32>)
    requires
        count <= i32::MAX,
    ensures
        forall|j: int|
            0 <= j < missing(count, solution).len() ==> 1 <= #[trigger] missing(
                count,
                solution,
            )[j] <= count && !mentions(solution, missing(count, solution)[j] as int),
        forall|id: int|
            1 <= id <= count && !mentions(solution, id) ==> missing(count, solution).contains(
                id as i32,
            ),
    decreases count,
{
    if count > 0 {
        lemma_missing_within(count - 1, solution);
        let shorter = missing(count - 1, solution);
        let all = missing(count, solution);
        assert forall|id: int| 1 <= id <= count && !mentions(solution, id) implies all.contains(
            id as i32,
        ) by {
            if id < count {
                let at = shorter.index_of(id as i32);
                assert(all[at] == id as i32);
            } else {
                assert(all[all.len() - 1] == id as i32);
            }
        }
    }
}

/// A sign pattern holds each id once, in order, under either polarity.
pub proof fn lemma_sign_pattern(ids: Seq<i32>, k: int)
    requires
        0 <= k < sign_patterns(ids).len(),
    ensures
        sign_patterns(ids)[k].len() == ids.len(),
        forall|j: int|
            0 <= j < ids.len() ==> #[trigger] sign_patterns(ids)[k][j] == ids[j] || sign_patterns(
                ids,
            )[k][j] == negated(ids[j]),
    decreases ids.len(),
{
    if ids.len() > 0 {
        let rest = sign_patterns(ids.drop_first());
        let pattern = sign_patterns(ids)[k];
        let inner = if k < rest.len() {
            k
        } else {
            k - rest.len()
        };
        lemma_sign_pattern(ids.drop_first(), inner);
        let tail = rest[inner];
        assert(pattern == seq![ids[0]] + tail || pattern == seq![negated(ids[0])] + tail);
        assert forall|j: int| 0 <= j < ids.len() implies #[trigger] pattern[j] == ids[j]
            || pattern[j] == negated(ids[j]) by {
            if j > 0 {
                assert(pattern[j] == tail[j - 1]);
                assert(ids.drop_first()[j - 1] == ids[j]);
            }
        }
    }
}

/// A completion is the solution followed by one literal for each missing
/// id, in increasing order of the ids.
pub proof fn lemma_completion(count: int, solution: Seq<i32>, k: int)
    requires
        count <= i32::MAX,
        0 <= k < completions(count, solution).len(),
    ensures
        solution.is_prefix_of(completions(count, solution)[k]),
        completions(count, solution)[k].len() == solution.len() + missing(count, solution).len(),
        forall|j: int|
            0 <= j < missing(count, solution).len() ==> #[trigger] completions(
                count,
                solution,
            )[k][solution.len() + j] == missing(count, solution)[j] || completions(
                count,
                solution,
            )[k][solution.len() + j] == negated(missing(count, solution)[j]),
{
    let ids = missing(count, solution);
    lemma_sign_pattern(ids, k);
    let tail = sign_patterns(ids)[k];
    let whole = completions(count, solution)[k];
    assert(whole == solution + tail);
    assert forall|j: int| 0 <= j < ids.len() implies #[trigger] whole[solution.len() + j] == ids[j]
        || whole[solution.len() + j] == negated(ids[j]) by {
        assert(whole[solution.len() + j] == tail[j]);
    }
}

/// The completions of a solution over ids within `count` are within
/// `count`.
pub proof fn lemma_completion_within(count: int, solution: Seq<i32>, k: int)
    requires
        count <= i32::MAX,
        within(count, solution),
        0 <= k < completions(count, solution).len(),
    ensures
        within(count, completions(count, solution)[k]),
{
    lemma_completion(count, solution, k);
    lemma_missing_within(count, solution);
    let whole = completions(count, solution)[k];
    let ids = missing(count, solution);
    assert forall|i: int| 0 <= i < whole.len() implies 1 <= variable(#[trigger] whole[i])
        <= count by {
        if i < solution.len() {
            assert(whole[i] == solution[i]);
        } else {
            let j = i - solution.len();
            assert(whole[solution.len() + j] == ids[j] || whole[solution.len() + j] == negated(
                ids[j],
            ));
            assert(1 <= ids[j] <= count);
        }
    }
}

/// Every completion of every solution within `count` is within `count`.
pub proof fn lemma_complete_all_within(count: int, solutions: Seq<Seq<i32>>)
    requires
        count <= i32::MAX,
        forall|k: int| 0 <= k < solutions.len() ==> within(count, #[trigger] solutions[k]),
    ensures
        forall|k: int|
            0 <= k < complete_all(count, solutions).len() ==> within(
                count,
                #[trigger] complete_all(count, solutions)[k],
            ),
    decreases solutions.len(),
{
    if solutions.len() > 0 {
        let before = complete_all(count, solutions.drop_last());
        let last = completions(count, solutions.last());
        assert forall|k: int| 0 <= k < solutions.drop_last().len() implies within(
            count,
            #[trigger] solutions.drop_last()[k],
        ) by {
            assert(solutions.drop_last()[k] == solutions[k]);
        }
        lemma_complete_all_within(count, solutions.drop_last());
        assert forall|k: int| 0 <= k < complete_all(count, solutions).len() implies within(
            count,
            #[trigger] complete_all(count, solutions)[k],
        ) by {
            if k < before.len() {
                assert(complete_all(count, solutions)[k] == before[k]);
            } else {
                assert(within(count, solutions[solutions.len() - 1]));
                lemma_completion_within(count, solutions.last(), k - before.len());
                assert(complete_all(count, solutions)[k] == last[k - before.len()]);
            }
        }
    }
}

/// The texts of the literals of a total assignment over the ids of
/// `varmap`.
pub fn label_assignment(varmap: &VarMap, assignment: &Vec<i32>) -> (texts: Vec<String>)
    requires
        varmap.wf(),
        within(varmap@.len() as int, assignment@),
    ensures
        texts.deep_view() == labels(varmap@, assignment@),
{
    let mut texts: Vec<String> = Vec::new();
    let mut index: usize = 0;
    while index < assignment.len()
        invariant
            index <= assignment.len(),
            varmap.wf(),
            within(varmap@.len() as int, assignment@),
            texts.deep_view() == labels(varmap@, assignment@.take(index as int)),
        decreases assignment.len() - index,
    {
        let number = assignment[index];
        assert(1 <= variable(assignment@[index as int]) <= varmap@.len());
        let text = varmap.reverse_lookup(number);
        let ghost before = texts.deep_view();
        texts.push(text);
        proof {
            assert(assignment@.take(index + 1) =~= assignment@.take(index as int).push(number));
            assert(texts.deep_view() =~= before.push(text@));
            assert(texts.deep_view() =~= labels(varmap@, assignment@.take(index + 1)));
        }
        index += 1;
    }
    assert(assignment@.take(assignment.len() as int) =~= assignment@);
    texts
}

/// Completes every partial solution to total assignments and renders each
/// as signed variable names.
///
/// The result lists, for each solution in turn, its [`completions`] over
/// the ids of `varmap`, every literal written as its [`label`].
pub fn expand(varmap: VarMap, solutions: Vec<Vec<i32>>) -> (result: Vec<Vec<String>>)
    requires
        varmap.wf(),
        forall|k: int|
            0 <= k < solutions.len() ==> within(varmap@.len() as int, #[trigger] solutions[k]@),
    ensures
        result.deep_view() == label_all(
            varmap@,
            complete_all(varmap@.len() as int, solutions.deep_view()),
        ),
{
    let ghost count = varmap@.len() as int;
    let mut all_solutions: Vec<Vec<i32>> = Vec::new();
    let mut index: usize = 0;
    assert(solutions.deep_view().take(0) =~= Seq::<Seq<i32>>::empty());
    while index < solutions.len()
        invariant
            index <= solutions.len(),
            varmap.wf(),
            count == varmap@.len(),
            all_solutions.deep_view() == complete_all(
                count,
                solutions.deep_view().take(index as int),
            ),
        decreases solutions.len() - index,
    {
        let mut solution = solutions[index].clone();
        assert(solution@ =~= solutions[index as int]@);
        let mut completed = all_assignments(&varmap, &mut solution);
        let ghost before = all_solutions.deep_view();
        let ghost added = completed.deep_view();
        all_solutions.append(&mut completed);
        proof {
            let next = solutions.deep_view().take(index + 1);
            assert(next.drop_last() =~= solutions.deep_view().take(index as int));
            assert(next.last() == solutions[index as int]@);
            assert(all_solutions.deep_view() =~= before + added);
        }
        index += 1;
    }
    proof {
        assert(solutions.deep_view().take(solutions.len() as int) =~= solutions.deep_view());
        assert forall|k: int| 0 <= k < solutions.deep_view().len() implies within(
            count,
            #[trigger] solutions.deep_view()[k],
        ) by {
            assert(solutions.deep_view()[k] == solutions[k]@);
        }
        lemma_complete_all_within(count, solutions.deep_view());
    }

    let ghost totals = all_solutions.deep_view();
    let mut result: Vec<Vec<String>> = Vec::new();
    let mut index: usize = 0;
    assert(label_all(varmap@, totals.take(0)) =~= Seq::<Seq<Seq<char>>>::empty());
    while index < all_solutions.len()
        invariant
            index <= all_solutions.len(),
            varmap.wf(),
            count == varmap@.len(),
            totals == all_solutions.deep_view(),
            forall|k: int| 0 <= k < totals.len() ==> within(count, #[trigger] totals[k]),
            result.deep_view() == label_all(varmap@, totals.take(index as int)),
        decreases all_solutions.len() - index,
    {
        assert(within(count, totals[index as int]));
        assert(totals[index as int] == all_solutions[index as int]@);
        let texts = label_assignment(&varmap, &all_solutions[index]);
        let ghost before = result.deep_view();
        result.push(texts);
        proof {
            assert(totals.take(index + 1) =~= totals.take(index as int).push(
                totals[index as int],
            ));
            assert(result.deep_view() =~= before.push(texts.deep_view()));
            assert(result.deep_view() =~= label_all(varmap@, totals.take(index + 1)));
        }
        index += 1;
    }
    assert(totals.take(all_solutions.len() as int) =~= totals);
    result
}

} // verus!
