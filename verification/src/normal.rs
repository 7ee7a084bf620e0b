//! Truth of formulas, and their rewriting to negation normal form and to
//! conjunctive normal form.
use crate::parser::{Expression, SpecExpr};
use vstd::prelude::*;
use vstd::seq_lib::seq_to_set_distributes_over_add;

verus! {

impl SpecExpr {
    /// Truth value of the formula when exactly the variables in `truth`
    /// are true.
    pub open spec fn eval(self, truth: Set<Seq<char>>) -> bool
        decreases self,
    {
        match self {
            SpecExpr::Var(name) => truth.contains(name),
            SpecExpr::Not(inner) => !inner.eval(truth),
            SpecExpr::And(left, right) => left.eval(truth) && right.eval(truth),
            SpecExpr::Or(left, right) => left.eval(truth) || right.eval(truth),
        }
    }

    /// The variable names of the formula from left to right, with
    /// repetitions.
    pub open spec fn leaves(self) -> Seq<Seq<char>>
        decreases self,
    {
        match self {
            SpecExpr::Var(name) => seq![name],
            SpecExpr::Not(inner) => inner.leaves(),
            SpecExpr::And(left, right) => left.leaves() + right.leaves(),
            SpecExpr::Or(left, right) => left.leaves() + right.leaves(),
        }
    }

    /// The set of variable names that occur in the formula.
    pub open spec fn variables(self) -> Set<Seq<char>> {
        self.leaves().to_set()
    }

    /// A variable or a negated variable.
    pub open spec fn is_literal(self) -> bool {
        match self {
            SpecExpr::Var(_) => true,
            SpecExpr::Not(inner) => *inner is Var,
            _ => false,
        }
    }

    /// Negation normal form: every negation stands directly above a
    /// variable.
    pub open spec fn is_nnf(self) -> bool
        decreases self,
    {
        match self {
            SpecExpr::Var(_) => true,
            SpecExpr::Not(inner) => *inner is Var,
            SpecExpr::And(left, right) => left.is_nnf() && right.is_nnf(),
            SpecExpr::Or(left, right) => left.is_nnf() && right.is_nnf(),
        }
    }

    /// A disjunction of literals.
    pub open spec fn is_clause(self) -> bool
        decreases self,
    {
        match self {
            SpecExpr::Or(left, right) => left.is_clause() && right.is_clause(),
            _ => self.is_literal(),
        }
    }

    /// Conjunctive normal form: a conjunction of clauses.
    pub open spec fn is_cnf(self) -> bool
        decreases self,
    {
        match self {
            SpecExpr::And(left, right) => left.is_cnf() && right.is_cnf(),
            _ => self.is_clause(),
        }
    }

    /// The formula, or its negation when `negated` is set, with every
    /// negation pushed down to the variables: a double negation is
    /// dropped, and a negated conjunction or disjunction becomes the
    /// disjunction or conjunction of the negated operands.
    pub open spec fn pushed(self, negated: bool) -> SpecExpr
        decreases self,
    {
        match self {
            SpecExpr::Var(name) => if negated {
                SpecExpr::Not(Box::new(self))
            } else {
                self
            },
            SpecExpr::Not(inner) => inner.pushed(!negated),
            SpecExpr::And(left, right) => if negated {
                SpecExpr::Or(Box::new(left.pushed(true)), Box::new(right.pushed(true)))
            } else {
                SpecExpr::And(Box::new(left.pushed(false)), Box::new(right.pushed(false)))
            },
            SpecExpr::Or(left, right) => if negated {
                SpecExpr::And(Box::new(left.pushed(true)), Box::new(right.pushed(true)))
            } else {
                SpecExpr::Or(Box::new(left.pushed(false)), Box::new(right.pushed(false)))
            },
        }
    }

    /// The negation normal form of the formula.
    pub open spec fn nnf(self) -> SpecExpr {
        self.pushed(false)
    }

    /// The disjunction of two formulas with every conjunction at the top
    /// of either side moved above it: a conjunction on the left is split
    /// first, then one on the right; two formulas without a conjunction on
    /// top form a plain disjunction.
    pub open spec fn distribute(self, other: SpecExpr) -> SpecExpr
        decreases self, other,
    {
        match self {
            SpecExpr::And(left, right) => SpecExpr::And(
                Box::new(left.distribute(other)),
                Box::new(right.distribute(other)),
            ),
            _ => match other {
                SpecExpr::And(left, right) => SpecExpr::And(
                    Box::new(self.distribute(*left)),
                    Box::new(self.distribute(*right)),
                ),
                _ => SpecExpr::Or(Box::new(self), Box::new(other)),
            },
        }
    }

    /// The conjunctive normal form of a formula in negation normal form,
    /// by distribution of disjunction over conjunction: variables and
    /// negations stay as they are, the sides of a conjunction are rewritten
    /// each for itself, and those of a disjunction are rewritten and then
    /// distributed.
    pub open spec fn cnf(self) -> SpecExpr
        decreases self,
    {
        match self {
            SpecExpr::Var(_) => self,
            SpecExpr::Not(_) => self,
            SpecExpr::And(left, right) => SpecExpr::And(
                Box::new(left.cnf()),
                Box::new(right.cnf()),
            ),
            SpecExpr::Or(left, right) => left.cnf().distribute(right.cnf()),
        }
    }

    /// Measure that falls with every rewriting step towards negation
    /// normal form: a negation weighs twice its operand.
    pub open spec fn weight(self) -> nat
        decreases self,
    {
        match self {
            SpecExpr::Var(_) => 1,
            SpecExpr::Not(inner) => 2 * inner.weight(),
            SpecExpr::And(left, right) => left.weight() + right.weight() + 1,
            SpecExpr::Or(left, right) => left.weight() + right.weight() + 1,
        }
    }
}

/// Every formula weighs at least 1.
proof fn lemma_weight_positive(formula: SpecExpr)
    ensures
        formula.weight() >= 1,
    decreases formula,
{
    match formula {
        SpecExpr::Var(_) => {},
        SpecExpr::Not(inner) => lemma_weight_positive(*inner),
        SpecExpr::And(left, right) => {
            lemma_weight_positive(*left);
            lemma_weight_positive(*right);
        },
        SpecExpr::Or(left, right) => {
            lemma_weight_positive(*left);
            lemma_weight_positive(*right);
        },
    }
}

impl Expression {
    /// Rewrites the formula to negation normal form.
    pub fn expr_to_nnf(self) -> (result: Expression)
        ensures
            result@ == self@.nnf(),
        decreases self@.weight(),
    {
        let ghost whole = self@;
        proof {
            lemma_weight_positive(whole);
        }
        match self {
            Expression::Not(expr) => {
                let ghost inner = expr@;
                proof {
                    lemma_weight_positive(inner);
                    assert(whole.weight() == 2 * inner.weight());
                }
                match *expr {
                    Expression::Not(expr) => {
                        proof {
                            lemma_weight_positive(expr@);
                            assert(whole.nnf() == inner.pushed(true));
                            assert(inner.pushed(true) == expr@.pushed(false));
                        }
                        (*expr).expr_to_nnf()
                    },
                    Expression::Or(expr, expr2) => {
                        let ghost (left, right) = (expr@, expr2@);
                        let negated = Expression::Not(expr);
                        let negated2 = Expression::Not(expr2);
                        assert(negated@.weight() == 2 * left.weight());
                        assert(negated2@.weight() == 2 * right.weight());
                        let dual = Expression::And(Box::new(negated), Box::new(negated2));
                        assert(dual@.weight() == 2 * left.weight() + 2 * right.weight() + 1);
                        assert(inner.weight() == left.weight() + right.weight() + 1);
                        proof {
                            assert(whole.nnf() == inner.pushed(true));
                            assert(negated@.pushed(false) == left.pushed(true));
                            assert(negated2@.pushed(false) == right.pushed(true));
                            assert(dual@.nnf() == inner.pushed(true));
                        }
                        dual.expr_to_nnf()
                    },
                    Expression::And(expr, expr2) => {
                        let ghost (left, right) = (expr@, expr2@);
                        let negated = Expression::Not(expr);
                        let negated2 = Expression::Not(expr2);
                        assert(negated@.weight() == 2 * left.weight());
                        assert(negated2@.weight() == 2 * right.weight());
                        let dual = Expression::Or(Box::new(negated), Box::new(negated2));
                        assert(dual@.weight() == 2 * left.weight() + 2 * right.weight() + 1);
                        assert(inner.weight() == left.weight() + right.weight() + 1);
                        proof {
                            assert(whole.nnf() == inner.pushed(true));
                            assert(negated@.pushed(false) == left.pushed(true));
                            assert(negated2@.pushed(false) == right.pushed(true));
                            assert(dual@.nnf() == inner.pushed(true));
                        }
                        dual.expr_to_nnf()
                    },
                    Expression::Var(name) => {
                        assert(whole.nnf() == inner.pushed(true));
                        Expression::Not(Box::new(Expression::Var(name).expr_to_nnf()))
                    },
                }
            },
            Expression::And(expr, expr2) => {
                proof {
                    lemma_weight_positive(expr@);
                    lemma_weight_positive(expr2@);
                }
                Expression::And(
                    Box::new((*expr).expr_to_nnf()),
                    Box::new((*expr2).expr_to_nnf()),
                )
            },
            Expression::Or(expr, expr2) => {
                proof {
                    lemma_weight_positive(expr@);
                    lemma_weight_positive(expr2@);
                }
                Expression::Or(Box::new((*expr).expr_to_nnf()), Box::new((*expr2).expr_to_nnf()))
            },
            Expression::Var(name) => Expression::Var(name),
        }
    }

    /// The disjunction of two formulas, with the conjunctions on top of
    /// either side distributed over it.
    pub fn distribute(expr: Expression, expr2: Expression) -> (result: Expression)
        ensures
            result@ == expr@.distribute(expr2@),
        decreases expr@, expr2@,
    {
        match expr {
            Expression::And(a, b) => Expression::And(
                Box::new(Expression::distribute(*a, expr2.clone())),
                Box::new(Expression::distribute(*b, expr2)),
            ),
            a => match expr2 {
                Expression::And(b, c) => Expression::And(
                    Box::new(Expression::distribute(a.clone(), *b)),
                    Box::new(Expression::distribute(a, *c)),
                ),
                b => Expression::Or(Box::new(a), Box::new(b)),
            },
        }
    }

    /// Rewrites a formula in negation normal form to conjunctive normal
    /// form.
    pub fn nnf_to_cnf(self) -> (result: Expression)
        ensures
            result@ == self@.cnf(),
        decreases self,
    {
        match self {
            Expression::Not(expr) => Expression::Not(expr),
            Expression::And(expr, expr2) => Expression::And(
                Box::new((*expr).nnf_to_cnf()),
                Box::new((*expr2).nnf_to_cnf()),
            ),
            Expression::Or(expr, expr2) => Expression::distribute(
                (*expr).nnf_to_cnf(),
                (*expr2).nnf_to_cnf(),
            ),
            Expression::Var(name) => Expression::Var(name),
        }
    }
}


/// Pushing negations down keeps the truth value of the formula, or
/// inverts it when the formula is taken negated.
pub proof fn lemma_pushed_eval(formula: SpecExpr, negated: bool, truth: Set<Seq<char>>)
    ensures
        formula.pushed(negated).eval(truth) == (formula.eval(truth) != negated),
    decreases formula,
{
    match formula {
        SpecExpr::Var(_) => {},
        SpecExpr::Not(inner) => lemma_pushed_eval(*inner, !negated, truth),
        SpecExpr::And(left, right) => {
            lemma_pushed_eval(*left, negated, truth);
            lemma_pushed_eval(*right, negated, truth);
        },
        SpecExpr::Or(left, right) => {
            lemma_pushed_eval(*left, negated, truth);
            lemma_pushed_eval(*right, negated, truth);
        },
    }
}

/// Pushing negations down yields a formula in negation normal form with
/// the same variables in the same places.
pub proof fn lemma_pushed_shape(formula: SpecExpr, negated: bool)
    ensures
        formula.pushed(negated).is_nnf(),
        formula.pushed(negated).leaves() == formula.leaves(),
    decreases formula,
{
    match formula {
        SpecExpr::Var(_) => {},
        SpecExpr::Not(inner) => lemma_pushed_shape(*inner, !negated),
        SpecExpr::And(left, right) => {
            lemma_pushed_shape(*left, negated);
            lemma_pushed_shape(*right, negated);
        },
        SpecExpr::Or(left, right) => {
            lemma_pushed_shape(*left, negated);
            lemma_pushed_shape(*right, negated);
        },
    }
}

/// A formula in negation normal form is its own negation normal form: no
/// further negation is pushed.
pub proof fn lemma_nnf_fixed(formula: SpecExpr)
    requires
        formula.is_nnf(),
    ensures
        formula.nnf() == formula,
    decreases formula,
{
    match formula {
        SpecExpr::Var(_) => {},
        SpecExpr::Not(inner) => {
            assert(inner.pushed(true) == formula);
        },
        SpecExpr::And(left, right) => {
            lemma_nnf_fixed(*left);
            lemma_nnf_fixed(*right);
        },
        SpecExpr::Or(left, right) => {
            lemma_nnf_fixed(*left);
            lemma_nnf_fixed(*right);
        },
    }
}

/// Rewriting to negation normal form twice gives the same formula as
/// rewriting once.
pub proof fn lemma_nnf_idempotent(formula: SpecExpr)
    ensures
        formula.nnf().is_nnf(),
        formula.nnf().nnf() == formula.nnf(),
{
    lemma_pushed_shape(formula, false);
    lemma_nnf_fixed(formula.nnf());
}

/// Distribution is a disjunction: it is true exactly when one of its two
/// sides is.
pub proof fn lemma_distribute_eval(left: SpecExpr, right: SpecExpr, truth: Set<Seq<char>>)
    ensures
        left.distribute(right).eval(truth) == (left.eval(truth) || right.eval(truth)),
    decreases left, right,
{
    match left {
        SpecExpr::And(a, b) => {
            lemma_distribute_eval(*a, right, truth);
            lemma_distribute_eval(*b, right, truth);
        },
        _ => match right {
            SpecExpr::And(a, b) => {
                lemma_distribute_eval(left, *a, truth);
                lemma_distribute_eval(left, *b, truth);
            },
            _ => {},
        },
    }
}

/// Distribution of two conjunctive normal forms is a conjunctive normal
/// form over the variables of both.
pub proof fn lemma_distribute_shape(left: SpecExpr, right: SpecExpr)
    ensures
        left.is_cnf() && right.is_cnf() ==> left.distribute(right).is_cnf(),
        left.distribute(right).variables() == left.variables().union(right.variables()),
    decreases left, right,
{
    match left {
        SpecExpr::And(a, b) => {
            lemma_distribute_shape(*a, right);
            lemma_distribute_shape(*b, right);
            seq_to_set_distributes_over_add(a.leaves(), b.leaves());
            seq_to_set_distributes_over_add(
                a.distribute(right).leaves(),
                b.distribute(right).leaves(),
            );
            assert(left.distribute(right).variables() =~= left.variables().union(
                right.variables(),
            ));
        },
        _ => match right {
            SpecExpr::And(a, b) => {
                lemma_distribute_shape(left, *a);
                lemma_distribute_shape(left, *b);
                seq_to_set_distributes_over_add(a.leaves(), b.leaves());
                seq_to_set_distributes_over_add(
                    left.distribute(*a).leaves(),
                    left.distribute(*b).leaves(),
                );
                assert(left.distribute(right).variables() =~= left.variables().union(
                    right.variables(),
                ));
            },
            _ => {
                seq_to_set_distributes_over_add(left.leaves(), right.leaves());
            },
        },
    }
}

/// The conjunctive normal form has the truth value of the formula it was
/// made from, under every assignment.
pub proof fn lemma_cnf_eval(formula: SpecExpr, truth: Set<Seq<char>>)
    ensures
        formula.cnf().eval(truth) == formula.eval(truth),
    decreases formula,
{
    match formula {
        SpecExpr::Var(_) => {},
        SpecExpr::Not(_) => {},
        SpecExpr::And(left, right) => {
            lemma_cnf_eval(*left, truth);
            lemma_cnf_eval(*right, truth);
        },
        SpecExpr::Or(left, right) => {
            lemma_cnf_eval(*left, truth);
            lemma_cnf_eval(*right, truth);
            lemma_distribute_eval(left.cnf(), right.cnf(), truth);
        },
    }
}

/// The rewriting of a formula in negation normal form is a conjunction of
/// clauses, and it keeps the set of variables of any formula.
pub proof fn lemma_cnf_shape(formula: SpecExpr)
    ensures
        formula.is_nnf() ==> formula.cnf().is_cnf(),
        formula.cnf().variables() == formula.variables(),
    decreases formula,
{
    match formula {
        SpecExpr::Var(_) => {},
        SpecExpr::Not(_) => {},
        SpecExpr::And(left, right) => {
            lemma_cnf_shape(*left);
            lemma_cnf_shape(*right);
            seq_to_set_distributes_over_add(left.leaves(), right.leaves());
            seq_to_set_distributes_over_add(left.cnf().leaves(), right.cnf().leaves());
        },
        SpecExpr::Or(left, right) => {
            lemma_cnf_shape(*left);
            lemma_cnf_shape(*right);
            lemma_distribute_shape(left.cnf(), right.cnf());
            seq_to_set_distributes_over_add(left.leaves(), right.leaves());
        },
    }
}

/// A conjunctive normal form is in negation normal form.
pub proof fn lemma_cnf_is_nnf(formula: SpecExpr)
    requires
        formula.is_cnf(),
    ensures
        formula.is_nnf(),
    decreases formula,
{
    match formula {
        SpecExpr::And(left, right) => {
            lemma_cnf_is_nnf(*left);
            lemma_cnf_is_nnf(*right);
        },
        _ => lemma_clause_is_nnf(formula),
    }
}

/// A disjunction of literals is in negation normal form.
proof fn lemma_clause_is_nnf(formula: SpecExpr)
    requires
        formula.is_clause(),
    ensures
        formula.is_nnf(),
    decreases formula,
{
    match formula {
        SpecExpr::Or(left, right) => {
            lemma_clause_is_nnf(*left);
            lemma_clause_is_nnf(*right);
        },
        _ => {},
    }
}

/// Normalisation is sound: the conjunctive normal form of the negation
/// normal form of a formula is a conjunction of clauses over the same
/// variables, and under every assignment it has the truth value of the
/// formula.
pub proof fn lemma_normal_form_sound(formula: SpecExpr, truth: Set<Seq<char>>)
    ensures
        formula.nnf().cnf().is_cnf(),
        formula.nnf().cnf().variables() == formula.variables(),
        formula.nnf().cnf().eval(truth) == formula.eval(truth),
{
    lemma_pushed_eval(formula, false, truth);
    lemma_pushed_shape(formula, false);
    lemma_cnf_eval(formula.nnf(), truth);
    lemma_cnf_shape(formula.nnf());
}

} // verus!
