//! Numbering of variables and encoding of a formula as integer clauses.
use crate::expand::within;
use crate::models::lemma_clauses_within;
use crate::normal::lemma_cnf_is_nnf;
use crate::parser::{Expression, SpecExpr};
use crate::search::{proper, proper_clause, variable};
use vstd::pervasive::unreached;
use vstd::prelude::*;

verus! {

/// The variable names in the order of their ids: the name at position
/// `i` has the id `i + 1`.
pub struct VarMap {
    names: Vec<String>,
}

impl View for VarMap {
    type V = Seq<Seq<char>>;

    /// The names in the order of their ids.
    closed spec fn view(&self) -> Seq<Seq<char>> {
        self.names.deep_view()
    }
}

/// The id of a name: its position among `names`, counted from 1.
pub open spec fn id_of(names: Seq<Seq<char>>, name: Seq<char>) -> int {
    names.index_of(name) + 1
}

/// The text of a literal: the name of its variable, behind a `!` when the
/// literal is negative.
pub open spec fn label(names: Seq<Seq<char>>, literal: int) -> Seq<char> {
    if literal > 0 {
        names[literal - 1]
    } else {
        seq!['!'] + names[-literal - 1]
    }
}

/// `names` with `name` added at the end unless it is there already.
pub open spec fn register(names: Seq<Seq<char>>, name: Seq<char>) -> Seq<Seq<char>> {
    if names.contains(name) {
        names
    } else {
        names.push(name)
    }
}

/// `names` after each name of `more` has been registered in turn: the new
/// names follow in the order of their first occurrence.
pub open spec fn register_all(names: Seq<Seq<char>>, more: Seq<Seq<char>>) -> Seq<Seq<char>>
    decreases more.len(),
{
    if more.len() == 0 {
        names
    } else {
        register(register_all(names, more.drop_last()), more.last())
    }
}

/// `clause` followed by the literals of `more` that it lacks, each once
/// and in the order of their first occurrence.
pub open spec fn merge(clause: Seq<i32>, more: Seq<i32>) -> Seq<i32>
    decreases more.len(),
{
    if more.len() == 0 {
        clause
    } else {
        let merged = merge(clause, more.drop_last());
        if merged.contains(more.last()) {
            merged
        } else {
            merged.push(more.last())
        }
    }
}

/// The literals of all `clauses` as one clause without repetition.
pub open spec fn merge_all(clauses: Seq<Seq<i32>>) -> Seq<i32>
    decreases clauses.len(),
{
    if clauses.len() == 0 {
        Seq::empty()
    } else {
        merge(merge_all(clauses.drop_last()), clauses.last())
    }
}

impl SpecExpr {
    /// The clause list of a conjunctive normal form under the numbering
    /// `names`.
    ///
    /// A variable is the one-literal clause of its id, a negated variable
    /// that of the negative id. A conjunction has the clauses of its left
    /// side followed by those of its right side. A disjunction is a single
    /// clause that merges the literals of both sides.
    pub open spec fn clauses(self, names: Seq<Seq<char>>) -> Seq<Seq<i32>>
        decreases self,
    {
        match self {
            SpecExpr::Var(name) => seq![seq![id_of(names, name) as i32]],
            SpecExpr::Not(inner) => seq![seq![(-id_of(names, inner->Var_0)) as i32]],
            SpecExpr::And(left, right) => left.clauses(names) + right.clauses(names),
            SpecExpr::Or(left, right) => seq![
                merge_all(left.clauses(names) + right.clauses(names)),
            ],
        }
    }
}

/// Some clause of the list holds `literal`.
pub open spec fn any_contains(clauses: Seq<Seq<i32>>, literal: i32) -> bool {
    exists|k: int| 0 <= k < clauses.len() && (#[trigger] clauses[k]).contains(literal)
}

/// A merged clause holds the literals of both clauses and no others.
pub proof fn lemma_merge_contains(clause: Seq<i32>, more: Seq<i32>)
    ensures
        forall|literal: i32| #[trigger]
            merge(clause, more).contains(literal) == (clause.contains(literal) || more.contains(
                literal,
            )),
    decreases more.len(),
{
    if more.len() > 0 {
        let shorter = more.drop_last();
        let before = merge(clause, shorter);
        let after = merge(clause, more);
        lemma_merge_contains(clause, shorter);
        assert forall|literal: i32| #[trigger]
            after.contains(literal) == (clause.contains(literal) || more.contains(
                literal,
            )) by {
            if after.contains(literal) {
                let at = after.index_of(literal);
                if at < before.len() {
                    assert(before[at] == literal);
                    assert(before.contains(literal));
                    if shorter.contains(literal) {
                        let inside = shorter.index_of(literal);
                        assert(more[inside] == literal);
                    }
                } else {
                    assert(literal == more.last());
                    assert(more[more.len() - 1] == literal);
                }
            }
            if clause.contains(literal) || more.contains(literal) {
                if before.contains(literal) {
                    let at = before.index_of(literal);
                    assert(after[at] == literal);
                } else {
                    assert(!shorter.contains(literal));
                    let inside = more.index_of(literal);
                    if inside < more.len() - 1 {
                        assert(shorter[inside] == literal);
                    }
                    assert(literal == more.last());
                    assert(after[after.len() - 1] == literal);
                }
            }
        }
    }
}

/// Merging adds no literal twice.
pub proof fn lemma_merge_distinct(clause: Seq<i32>, more: Seq<i32>)
    requires
        clause.no_duplicates(),
    ensures
        merge(clause, more).no_duplicates(),
    decreases more.len(),
{
    if more.len() > 0 {
        lemma_merge_distinct(clause, more.drop_last());
    }
}

/// The merge of a clause list holds no literal twice.
pub proof fn lemma_merge_all_distinct(clauses: Seq<Seq<i32>>)
    ensures
        merge_all(clauses).no_duplicates(),
    decreases clauses.len(),
{
    if clauses.len() > 0 {
        lemma_merge_all_distinct(clauses.drop_last());
        lemma_merge_distinct(merge_all(clauses.drop_last()), clauses.last());
    }
}

/// The merge of a clause list holds exactly the literals of its clauses.
pub proof fn lemma_merge_all_contains(clauses: Seq<Seq<i32>>)
    ensures
        forall|literal: i32| #[trigger]
            merge_all(clauses).contains(literal) == any_contains(clauses, literal),
    decreases clauses.len(),
{
    if clauses.len() > 0 {
        let shorter = clauses.drop_last();
        lemma_merge_all_contains(shorter);
        lemma_merge_contains(merge_all(shorter), clauses.last());
        assert forall|literal: i32| #[trigger]
            merge_all(clauses).contains(literal) == any_contains(clauses, literal) by {
            if any_contains(shorter, literal) {
                let k = choose|k: int|
                    0 <= k < shorter.len() && (#[trigger] shorter[k]).contains(literal);
                assert(clauses[k] == shorter[k]);
            }
            if clauses.last().contains(literal) {
                assert(clauses[clauses.len() - 1].contains(literal));
            }
            if any_contains(clauses, literal) {
                let k = choose|k: int|
                    0 <= k < clauses.len() && (#[trigger] clauses[k]).contains(literal);
                if k < clauses.len() - 1 {
                    assert(shorter[k] == clauses[k]);
                }
            }
        }
    } else {
        assert forall|literal: i32| #[trigger]
            merge_all(clauses).contains(literal) == any_contains(clauses, literal) by {
            if merge_all(clauses).contains(literal) {
                let at = merge_all(clauses).index_of(literal);
            }
        }
    }
}

/// Every clause of an encoded formula is a set: it holds no literal twice.
pub proof fn lemma_clauses_distinct(formula: SpecExpr, names: Seq<Seq<char>>)
    ensures
        forall|c: int|
            0 <= c < formula.clauses(names).len() ==> (#[trigger] formula.clauses(
                names,
            )[c]).no_duplicates(),
    decreases formula,
{
    match formula {
        SpecExpr::Var(_) => {},
        SpecExpr::Not(_) => {},
        SpecExpr::And(left, right) => {
            lemma_clauses_distinct(*left, names);
            lemma_clauses_distinct(*right, names);
            let first = left.clauses(names);
            let both = formula.clauses(names);
            assert forall|c: int| 0 <= c < both.len() implies (
            #[trigger] both[c]).no_duplicates() by {
                if c < first.len() {
                    assert(both[c] == first[c]);
                } else {
                    assert(both[c] == right.clauses(names)[c - first.len()]);
                }
            }
        },
        SpecExpr::Or(left, right) => {
            lemma_merge_all_distinct(left.clauses(names) + right.clauses(names));
        },
    }
}

/// In a sequence without repetition an element is found where it stands.
pub proof fn lemma_index_of_unique(names: Seq<Seq<char>>, position: int)
    requires
        names.no_duplicates(),
        0 <= position < names.len(),
    ensures
        names.index_of(names[position]) == position,
        names.contains(names[position]),
{
    let found = names.index_of(names[position]);
    assert(0 <= found < names.len() && names[found] == names[position]);
}

/// Registering names keeps what was registered before, adds nothing
/// twice, and leaves every name of `more` registered.
pub proof fn lemma_register_all(names: Seq<Seq<char>>, more: Seq<Seq<char>>)
    requires
        names.no_duplicates(),
    ensures
        register_all(names, more).no_duplicates(),
        names.is_prefix_of(register_all(names, more)),
        forall|i: int|
            0 <= i < more.len() ==> register_all(names, more).contains(#[trigger] more[i]),
        forall|name: Seq<char>| #[trigger]
            register_all(names, more).contains(name) ==> names.contains(name) || more.contains(
                name,
            ),
    decreases more.len(),
{
    if more.len() > 0 {
        let before = register_all(names, more.drop_last());
        let after = register_all(names, more);
        lemma_register_all(names, more.drop_last());
        assert(before.is_prefix_of(after));
        assert forall|i: int| 0 <= i < more.len() implies after.contains(#[trigger] more[i]) by {
            if i < more.len() - 1 {
                assert(more.drop_last()[i] == more[i]);
                let at = before.index_of(more[i]);
                assert(after[at] == more[i]);
            } else {
                if before.contains(more.last()) {
                } else {
                    assert(after[after.len() - 1] == more.last());
                }
            }
        }
        assert forall|name: Seq<char>| #[trigger] after.contains(name) implies names.contains(name)
            || more.contains(name) by {
            let at = after.index_of(name);
            if at < before.len() {
                assert(before[at] == name);
                assert(before.contains(name));
                if !names.contains(name) {
                    let inside = more.drop_last().index_of(name);
                    assert(more[inside] == name);
                }
            } else {
                assert(name == more.last());
                assert(more[more.len() - 1] == name);
            }
        }
    }
}

/// Registering names from nothing yields each distinct name once.
pub proof fn lemma_register_count(leaves: Seq<Seq<char>>)
    ensures
        register_all(Seq::empty(), leaves).no_duplicates(),
        register_all(Seq::empty(), leaves).to_set() == leaves.to_set(),
        register_all(Seq::empty(), leaves).len() == leaves.to_set().len(),
{
    let names = register_all(Seq::empty(), leaves);
    lemma_register_all(Seq::empty(), leaves);
    names.unique_seq_to_set();
    assert forall|name: Seq<char>| names.to_set().contains(name) == leaves.to_set().contains(
        name,
    ) by {
        if leaves.contains(name) {
            let at = leaves.index_of(name);
            assert(names.contains(leaves[at]));
        }
        if names.contains(name) {
            assert(Seq::<Seq<char>>::empty().contains(name) || leaves.contains(name));
            if Seq::<Seq<char>>::empty().contains(name) {
                let at = Seq::<Seq<char>>::empty().index_of(name);
            }
        }
    }
    assert(names.to_set() =~= leaves.to_set());
}

/// `name` occurs in `items` at position `at` and nowhere before.
pub open spec fn first_at(items: Seq<Seq<char>>, name: Seq<char>, at: int) -> bool {
    &&& 0 <= at < items.len()
    &&& items[at] == name
    &&& forall|j: int| 0 <= j < at ==> items[j] != name
}

/// Ids are given in the order of first encounter: every name registered
/// anew occurs in `more` and was not numbered before, and of two such
/// names the one with the lower id is met first in `more`.
pub proof fn lemma_first_encounter(names: Seq<Seq<char>>, more: Seq<Seq<char>>)
    requires
        names.no_duplicates(),
    ensures
        forall|k: int|
            names.len() <= k < register_all(names, more).len() ==> more.contains(
                #[trigger] register_all(names, more)[k],
            ) && !names.contains(register_all(names, more)[k]),
        forall|i: int, j: int, a: int, b: int|
            names.len() <= i < j < register_all(names, more).len() && #[trigger] first_at(
                more,
                register_all(names, more)[i],
                a,
            ) && #[trigger] first_at(more, register_all(names, more)[j], b) ==> a < b,
    decreases more.len(),
{
    if more.len() > 0 {
        let shorter = more.drop_last();
        let before = register_all(names, shorter);
        let after = register_all(names, more);
        let end = more.len() - 1;
        lemma_first_encounter(names, shorter);
        lemma_register_all(names, shorter);
        lemma_register_all(names, more);
        assert forall|k: int| names.len() <= k < after.len() implies more.contains(
            #[trigger] after[k],
        ) && !names.contains(after[k]) by {
            if k < before.len() {
                assert(after[k] == before[k]);
                let at = shorter.index_of(before[k]);
                assert(more[at] == before[k]);
            } else {
                assert(after[k] == more[end]);
                if names.contains(after[k]) {
                    let at = names.index_of(after[k]);
                    assert(before[at] == names[at]);
                    assert(before.contains(after[k]));
                }
            }
        }
        assert forall|i: int, j: int, a: int, b: int|
            names.len() <= i < j < after.len() && #[trigger] first_at(more, after[i], a)
                && #[trigger] first_at(more, after[j], b) implies a < b by {
            assert(after[i] == before[i]);
            let met = shorter.index_of(before[i]);
            assert(more[met] == before[i]);
            assert(a <= met);
            assert forall|n: int| 0 <= n < a implies shorter[n] != before[i] by {
                assert(shorter[n] == more[n]);
            }
            assert(first_at(shorter, before[i], a));
            if j < before.len() {
                assert(after[j] == before[j]);
                let other = shorter.index_of(before[j]);
                assert(more[other] == before[j]);
                assert(b <= other);
                assert forall|n: int| 0 <= n < b implies shorter[n] != before[j] by {
                    assert(shorter[n] == more[n]);
                }
                assert(first_at(shorter, before[j], b));
            } else {
                assert(after[j] == more[end]);
                assert(!before.contains(more[end]));
                if b < end {
                    assert(shorter[b] == more[b]);
                    assert(before.contains(shorter[b]));
                }
            }
        }
    }
}

/// Registering two runs of names one after the other is registering their
/// concatenation.
pub proof fn lemma_register_all_concat(
    names: Seq<Seq<char>>,
    first: Seq<Seq<char>>,
    second: Seq<Seq<char>>,
)
    ensures
        register_all(names, first + second) == register_all(register_all(names, first), second),
    decreases second.len(),
{
    if second.len() == 0 {
        assert(first + second =~= first);
    } else {
        assert((first + second).drop_last() =~= first + second.drop_last());
        assert((first + second).last() == second.last());
        lemma_register_all_concat(names, first, second.drop_last());
    }
}

/// `short` is the beginning of `long`.
proof fn lemma_prefix_len(short: Seq<Seq<char>>, long: Seq<Seq<char>>)
    requires
        short.is_prefix_of(long),
    ensures
        short.len() <= long.len(),
        forall|i: int| 0 <= i < short.len() ==> short[i] == long[i],
{
}

/// All names of the formula are numbered.
pub open spec fn numbered(formula: SpecExpr, names: Seq<Seq<char>>) -> bool {
    forall|i: int|
        0 <= i < formula.leaves().len() ==> names.contains(#[trigger] formula.leaves()[i])
}

/// Where the names of both sides together are numbered, those of each side
/// are.
pub proof fn lemma_numbered_split(left: SpecExpr, right: SpecExpr, names: Seq<Seq<char>>)
    requires
        forall|i: int|
            0 <= i < (left.leaves() + right.leaves()).len() ==> names.contains(
                #[trigger] (left.leaves() + right.leaves())[i],
            ),
    ensures
        numbered(left, names),
        numbered(right, names),
{
    let both = left.leaves() + right.leaves();
    assert forall|i: int| 0 <= i < left.leaves().len() implies names.contains(
        #[trigger] left.leaves()[i],
    ) by {
        assert(both[i] == left.leaves()[i]);
    }
    assert forall|i: int| 0 <= i < right.leaves().len() implies names.contains(
        #[trigger] right.leaves()[i],
    ) by {
        assert(both[left.leaves().len() + i] == right.leaves()[i]);
    }
}

/// The clause list of a formula does not change when the numbering is
/// extended, once all its variables are numbered.
pub proof fn lemma_clauses_stable(
    formula: SpecExpr,
    names: Seq<Seq<char>>,
    longer: Seq<Seq<char>>,
)
    requires
        formula.is_nnf(),
        names.is_prefix_of(longer),
        longer.no_duplicates(),
        numbered(formula, names),
    ensures
        formula.clauses(names) == formula.clauses(longer),
    decreases formula,
{
    lemma_prefix_len(names, longer);
    match formula {
        SpecExpr::Var(name) => {
            assert(formula.leaves()[0] == name);
            let at = names.index_of(name);
            assert(longer[at] == name);
            lemma_index_of_unique(longer, at);
        },
        SpecExpr::Not(inner) => {
            let name = inner->Var_0;
            assert(inner.leaves() =~= seq![name]);
            assert(formula.leaves()[0] == name);
            let at = names.index_of(name);
            assert(longer[at] == name);
            lemma_index_of_unique(longer, at);
        },
        SpecExpr::And(left, right) => {
            assert(formula.leaves() == left.leaves() + right.leaves());
            lemma_numbered_split(*left, *right, names);
            lemma_clauses_stable(*left, names, longer);
            lemma_clauses_stable(*right, names, longer);
        },
        SpecExpr::Or(left, right) => {
            assert(formula.leaves() == left.leaves() + right.leaves());
            lemma_numbered_split(*left, *right, names);
            lemma_clauses_stable(*left, names, longer);
            lemma_clauses_stable(*right, names, longer);
        },
    }
}

impl VarMap {
    /// No name is numbered twice, and every id fits a literal.
    pub open spec fn wf(&self) -> bool {
        self@.no_duplicates() && self@.len() <= i32::MAX
    }

    /// A numbering without names.
    pub fn new() -> (varmap: VarMap)
        ensures
            varmap@ == Seq::<Seq<char>>::empty(),
            varmap.wf(),
    {
        let varmap = VarMap { names: Vec::new() };
        assert(varmap.names.deep_view() =~= Seq::<Seq<char>>::empty());
        varmap
    }

    /// The number of names, which is the highest id in use.
    pub fn len(&self) -> (length: i32)
        requires
            self.wf(),
        ensures
            length == self@.len(),
    {
        self.names.len() as i32
    }

    /// The id of `var`, if it has one.
    pub fn lookup(&self, var: &String) -> (id: Option<i32>)
        requires
            self.wf(),
        ensures
            match id {
                Some(id) => 1 <= id <= self@.len() && self@[id - 1] == var@ && id == id_of(
                    self@,
                    var@,
                ),
                None => !self@.contains(var@),
            },
    {
        let mut index: usize = 0;
        while index < self.names.len()
            invariant
                self.wf(),
                index <= self.names.len(),
                forall|i: int| 0 <= i < index ==> self@[i] != var@,
            decreases self.names.len() - index,
        {
            if self.names[index] == *var {
                proof {
                    lemma_index_of_unique(self@, index as int);
                }
                return Some((index + 1) as i32);
            }
            index += 1;
        }
        None
    }

    /// Gives `var`, which has no id yet, the next id and returns it.
    pub fn update(&mut self, var: String) -> (id: i32)
        requires
            old(self).wf(),
            !old(self)@.contains(var@),
            old(self)@.len() < i32::MAX,
        ensures
            final(self)@ == old(self)@.push(var@),
            final(self).wf(),
            id == final(self)@.len(),
            id == id_of(final(self)@, var@),
    {
        self.names.push(var);
        proof {
            assert(self@ =~= old(self)@.push(var@));
            lemma_index_of_unique(self@, self@.len() - 1);
        }
        self.names.len() as i32
    }

    /// The text of a literal over the numbered variables.
    pub fn reverse_lookup(&self, number: i32) -> (text: String)
        requires
            self.wf(),
            number != 0,
            -self@.len() <= number <= self@.len(),
        ensures
            text@ == label(self@, number as int),
    {
        if number < 0 {
            let number = -number;
            let mut text = String::from_str("!");
            proof {
                reveal_strlit("!");
            }
            text.append(self.names[(number - 1) as usize].as_str());
            assert(text@ =~= label(self@, -number as int));
            return text;
        }
        self.names[(number - 1) as usize].clone()
    }
}

/// Whether `literal` occurs in `clause`.
pub fn contains_literal(clause: &Vec<i32>, literal: i32) -> (found: bool)
    ensures
        found == clause@.contains(literal),
{
    let mut index: usize = 0;
    while index < clause.len()
        invariant
            index <= clause.len(),
            forall|i: int| 0 <= i < index ==> clause@[i] != literal,
        decreases clause.len() - index,
    {
        if clause[index] == literal {
            return true;
        }
        index += 1;
    }
    false
}

/// Adds to `clause` the literals of `more` that it lacks.
pub fn merge_into(clause: &mut Vec<i32>, more: &Vec<i32>)
    ensures
        final(clause)@ == merge(old(clause)@, more@),
{
    let mut index: usize = 0;
    assert(more@.take(0) =~= Seq::<i32>::empty());
    while index < more.len()
        invariant
            index <= more.len(),
            clause@ == merge(old(clause)@, more@.take(index as int)),
        decreases more.len() - index,
    {
        proof {
            let next = more@.take(index + 1);
            assert(next.drop_last() =~= more@.take(index as int));
            assert(next.last() == more@[index as int]);
        }
        if !contains_literal(clause, more[index]) {
            clause.push(more[index]);
        }
        index += 1;
    }
    assert(more@.take(more.len() as int) =~= more@);
}

/// All literals of `clauses` merged into one clause.
pub fn merge_clauses(clauses: &Vec<Vec<i32>>) -> (clause: Vec<i32>)
    ensures
        clause@ == merge_all(clauses.deep_view()),
{
    let mut clause: Vec<i32> = Vec::new();
    let mut index: usize = 0;
    assert(clauses.deep_view().take(0) =~= Seq::<Seq<i32>>::empty());
    while index < clauses.len()
        invariant
            index <= clauses.len(),
            clause@ == merge_all(clauses.deep_view().take(index as int)),
        decreases clauses.len() - index,
    {
        proof {
            let next = clauses.deep_view().take(index + 1);
            assert(next.drop_last() =~= clauses.deep_view().take(index as int));
            assert(next.last() == clauses[index as int]@);
        }
        merge_into(&mut clause, &clauses[index]);
        index += 1;
    }
    assert(clauses.deep_view().take(clauses.len() as int) =~= clauses.deep_view());
    clause
}

/// What the numbering and the clause list of a conjunctive normal form
/// are, once its names are registered after `names`: no name has two ids,
/// the names numbered before keep theirs, the numbered names are those
/// numbered before and the variables of the formula, and every clause is
/// a set of literals over the ids in use.
pub proof fn lemma_encoding(formula: SpecExpr, names: Seq<Seq<char>>)
    requires
        formula.is_cnf(),
        names.no_duplicates(),
        register_all(names, formula.leaves()).len() <= i32::MAX,
    ensures
        register_all(names, formula.leaves()).no_duplicates(),
        names.is_prefix_of(register_all(names, formula.leaves())),
        register_all(names, formula.leaves()).to_set() == names.to_set().union(
            formula.variables(),
        ),
        register_all(names, formula.leaves()).len() == names.to_set().union(
            formula.variables(),
        ).len(),
        forall|c: int|
            0 <= c < formula.clauses(register_all(names, formula.leaves())).len() ==> {
                let clause = #[trigger] formula.clauses(register_all(names, formula.leaves()))[c];
                proper_clause(clause) && within(
                    register_all(names, formula.leaves()).len() as int,
                    clause,
                )
            },
{
    let leaves = formula.leaves();
    let after = register_all(names, leaves);
    lemma_register_all(names, leaves);
    lemma_cnf_is_nnf(formula);
    assert forall|name: Seq<char>| after.to_set().contains(name) == names.to_set().union(
        formula.variables(),
    ).contains(name) by {
        if names.contains(name) {
            let at = names.index_of(name);
            assert(after[at] == names[at]);
        }
        if leaves.contains(name) {
            let at = leaves.index_of(name);
            assert(after.contains(leaves[at]));
        }
    }
    assert(after.to_set() =~= names.to_set().union(formula.variables()));
    after.unique_seq_to_set();
    lemma_clauses_within(formula, after);
    lemma_clauses_distinct(formula, after);
    let list = formula.clauses(after);
    assert forall|c: int| 0 <= c < list.len() implies proper_clause(#[trigger] list[c]) && within(
        after.len() as int,
        list[c],
    ) by {
        let clause = list[c];
        assert(within(after.len() as int, clause));
        assert forall|i: int| 0 <= i < clause.len() implies proper(
            #[trigger] clause[i],
        ) by {
            assert(1 <= variable(clause[i]) <= after.len());
        }
    }
}

impl Expression {
    /// Encodes a conjunctive normal form as a clause list, and numbers the
    /// variables it meets for the first time.
    ///
    /// The numbering grows by the new names of the formula in the order of
    /// their first occurrence from left to right, each getting the next
    /// unused id; the names numbered before keep their ids. So the names
    /// numbered afterwards are those numbered before and the variables of
    /// the formula, each once. The result is the clause list of the
    /// formula under the numbering as it is left: one clause for each
    /// disjunction of literals, each a set of literals over the ids in
    /// use.
    pub fn cnf_to_cnfrep_helper(self, varmap: &mut VarMap) -> (result: Vec<Vec<i32>>)
        requires
            old(varmap).wf(),
            self@.is_cnf(),
            register_all(old(varmap)@, self@.leaves()).len() <= i32::MAX,
        ensures
            final(varmap).wf(),
            final(varmap)@ == register_all(old(varmap)@, self@.leaves()),
            old(varmap)@.is_prefix_of(final(varmap)@),
            final(varmap)@.to_set() == old(varmap)@.to_set().union(self@.variables()),
            final(varmap)@.len() == old(varmap)@.to_set().union(self@.variables()).len(),
            result.deep_view() == self@.clauses(final(varmap)@),
            forall|c: int|
                0 <= c < result.len() ==> proper_clause(#[trigger] result[c]@) && within(
                    final(varmap)@.len() as int,
                    result[c]@,
                ),
        decreases self,
    {
        let ghost formula = self@;
        let ghost names = varmap@;
        proof {
            lemma_encoding(formula, names);
            lemma_cnf_is_nnf(formula);
        }
        let result = match self {
            Expression::Var(var) => {
                let ghost name = var@;
                proof {
                    assert(formula.leaves() =~= seq![name]);
                    lemma_register_one(names, name);
                }
                let id = match varmap.lookup(&var) {
                    Some(val) => val,
                    None => varmap.update(var),
                };
                let result = vec![vec![id]];
                assert(result.deep_view() =~~= formula.clauses(varmap@));
                result
            },
            Expression::Not(expr) => {
                let ghost inner = expr@;
                assert(formula.leaves() == inner.leaves());
                match *expr {
                    Expression::Var(var) => {
                        let ghost name = var@;
                        proof {
                            assert(inner == SpecExpr::Var(name));
                            assert(inner.leaves() =~= seq![name]);
                            lemma_register_one(names, name);
                        }
                        let id = match varmap.lookup(&var) {
                            Some(val) => val,
                            None => varmap.update(var),
                        };
                        let negative: i32 = -id;
                        let result = vec![vec![negative]];
                        assert(result.deep_view() =~~= formula.clauses(varmap@));
                        result
                    },
                    _ => unreached(),
                }
            },
            Expression::And(expr, expr2) => {
                let ghost (left, right) = (expr@, expr2@);
                proof {
                    lemma_register_split(names, left, right);
                    lemma_cnf_is_nnf(left);
                }
                let mut result = (*expr).cnf_to_cnfrep_helper(varmap);
                let ghost middle = varmap@;
                let ghost first = result.deep_view();
                let mut second = (*expr2).cnf_to_cnfrep_helper(varmap);
                proof {
                    lemma_register_all(names, left.leaves());
                    lemma_register_all(middle, right.leaves());
                    lemma_clauses_stable(left, middle, varmap@);
                }
                let ghost rest = second.deep_view();
                result.append(&mut second);
                assert(result.deep_view() =~~= first + rest);
                result
            },
            Expression::Or(expr, expr2) => {
                let ghost (left, right) = (expr@, expr2@);
                proof {
                    lemma_register_split(names, left, right);
                    assert(left.is_clause() && right.is_clause());
                    assert(left.is_cnf() && right.is_cnf());
                    lemma_cnf_is_nnf(left);
                }
                let mut result = (*expr).cnf_to_cnfrep_helper(varmap);
                let ghost middle = varmap@;
                let ghost first = result.deep_view();
                let mut second = (*expr2).cnf_to_cnfrep_helper(varmap);
                proof {
                    lemma_register_all(names, left.leaves());
                    lemma_register_all(middle, right.leaves());
                    lemma_clauses_stable(left, middle, varmap@);
                }
                let ghost rest = second.deep_view();
                result.append(&mut second);
                assert(result.deep_view() =~~= first + rest);
                let merged = vec![merge_clauses(&result)];
                assert(merged.deep_view() =~~= formula.clauses(varmap@));
                merged
            },
        };
        proof {
            assert forall|c: int| 0 <= c < result.len() implies proper_clause(
                #[trigger] result[c]@,
            ) && within(varmap@.len() as int, result[c]@) by {
                assert(result[c]@ == result.deep_view()[c]);
            }
        }
        result
    }
}

/// Registering a single name.
proof fn lemma_register_one(names: Seq<Seq<char>>, name: Seq<char>)
    ensures
        register_all(names, seq![name]) == register(names, name),
{
    let one = seq![name];
    assert(one.drop_last() =~= Seq::<Seq<char>>::empty());
    assert(register_all(names, one.drop_last()) == names);
    assert(one.last() == name);
}

/// Registering the names of a conjunction or disjunction registers those
/// of its left side and then those of its right side, and neither step
/// numbers more names than both together.
proof fn lemma_register_split(names: Seq<Seq<char>>, left: SpecExpr, right: SpecExpr)
    requires
        names.no_duplicates(),
    ensures
        register_all(names, left.leaves() + right.leaves()) == register_all(
            register_all(names, left.leaves()),
            right.leaves(),
        ),
        register_all(names, left.leaves()).len() <= register_all(
            names,
            left.leaves() + right.leaves(),
        ).len(),
{
    lemma_register_all_concat(names, left.leaves(), right.leaves());
    lemma_register_all(names, left.leaves());
    lemma_register_all(register_all(names, left.leaves()), right.leaves());
}

} // verus!
