//! Expression trees and the operator-precedence parser that builds them.
use crate::lexer::{SpecToken, Token, TokenStream};
use vstd::pervasive::unreached;
use vstd::prelude::*;

verus! {

/// A propositional formula as an owned tree.
pub enum Expression {
    Var(String),
    And(Box<Expression>, Box<Expression>),
    Or(Box<Expression>, Box<Expression>),
    Not(Box<Expression>),
}

/// Mathematical model of an [`Expression`].
pub enum SpecExpr {
    Var(Seq<char>),
    And(Box<SpecExpr>, Box<SpecExpr>),
    Or(Box<SpecExpr>, Box<SpecExpr>),
    Not(Box<SpecExpr>),
}

impl Expression {
    /// The formula this tree stands for.
    pub open spec fn model(&self) -> SpecExpr
        decreases self,
    {
        match self {
            Expression::Var(name) => SpecExpr::Var(name@),
            Expression::And(left, right) => SpecExpr::And(
                Box::new(left.model()),
                Box::new(right.model()),
            ),
            Expression::Or(left, right) => SpecExpr::Or(
                Box::new(left.model()),
                Box::new(right.model()),
            ),
            Expression::Not(inner) => SpecExpr::Not(Box::new(inner.model())),
        }
    }
}

impl View for Expression {
    type V = SpecExpr;

    /// The formula this tree stands for.
    open spec fn view(&self) -> SpecExpr {
        self.model()
    }
}

impl Clone for Expression {
    /// A copy that stands for the same formula.
    fn clone(&self) -> (copy: Expression)
        ensures
            copy@ == self@,
        decreases self,
    {
        match self {
            Expression::Var(name) => Expression::Var(name.clone()),
            Expression::And(left, right) => Expression::And(
                Box::new((&**left).clone()),
                Box::new((&**right).clone()),
            ),
            Expression::Or(left, right) => Expression::Or(
                Box::new((&**left).clone()),
                Box::new((&**right).clone()),
            ),
            Expression::Not(inner) => Expression::Not(Box::new((&**inner).clone())),
        }
    }
}

impl SpecExpr {
    /// The infix text of a formula: a variable is its name, a negation is
    /// `!` directly followed by its operand, and a conjunction or
    /// disjunction is written in full parentheses with the operator between
    /// blanks.
    pub open spec fn render(self) -> Seq<char>
        decreases self,
    {
        match self {
            SpecExpr::Var(name) => name,
            SpecExpr::Not(inner) => seq!['!'] + inner.render(),
            SpecExpr::And(left, right) => seq!['('] + left.render() + seq![' ', '&', ' ']
                + right.render() + seq![')'],
            SpecExpr::Or(left, right) => seq!['('] + left.render() + seq![' ', '|', ' ']
                + right.render() + seq![')'],
        }
    }

    /// The Polish order of a formula as the parser stores it: read from
    /// the end backwards, an operator comes first, then its left operand,
    /// then its right operand.
    pub open spec fn polish(self) -> Seq<SpecToken>
        decreases self,
    {
        match self {
            SpecExpr::Var(name) => seq![SpecToken::Var(name)],
            SpecExpr::Not(inner) => inner.polish().push(SpecToken::Not),
            SpecExpr::And(left, right) => (right.polish() + left.polish()).push(SpecToken::And),
            SpecExpr::Or(left, right) => (right.polish() + left.polish()).push(SpecToken::Or),
        }
    }
}

impl Expression {
    /// Appends the infix text of the formula to `out`.
    fn write_into(&self, out: &mut String)
        ensures
            final(out)@ == old(out)@ + self@.render(),
        decreases self,
    {
        proof {
            reveal_strlit("!");
            reveal_strlit("(");
            reveal_strlit(" & ");
            reveal_strlit(" | ");
            reveal_strlit(")");
        }
        match self {
            Expression::Var(name) => {
                out.append(name.as_str());
            },
            Expression::Not(inner) => {
                out.append("!");
                inner.write_into(out);
                assert(out@ =~= old(out)@ + self@.render());
            },
            Expression::And(left, right) => {
                out.append("(");
                left.write_into(out);
                out.append(" & ");
                right.write_into(out);
                out.append(")");
                assert(out@ =~= old(out)@ + self@.render());
            },
            Expression::Or(left, right) => {
                out.append("(");
                left.write_into(out);
                out.append(" | ");
                right.write_into(out);
                out.append(")");
                assert(out@ =~= old(out)@ + self@.render());
            },
        }
    }

    /// The formula as readable infix text.
    pub fn to_string(&self) -> (text: String)
        ensures
            text@ == self@.render(),
    {
        let mut text = String::new();
        self.write_into(&mut text);
        assert(text@ =~= self@.render());
        text
    }
}

/// Why a token sequence is not a formula.
#[derive(Debug, Clone, Copy, PartialEq, Eq, Structural)]
pub enum ParserErrorKind {
    /// A `(` without its `)`.
    MissingClosingBracket,
    /// A `)` without its `(`.
    MissingOpeningBracket,
    /// An operator lacks an operand, or tokens are left over after a
    /// complete formula.
    MalformedFormula,
}

/// Failure of [`run_parser`].
#[derive(Debug)]
pub struct ParserError {
    pub kind: ParserErrorKind,
}

impl ParserError {
    /// The text of the message for this error.
    pub open spec fn message(&self) -> Seq<char> {
        match self.kind {
            ParserErrorKind::MissingClosingBracket => "Missing )"@,
            ParserErrorKind::MissingOpeningBracket => "Missing ("@,
            ParserErrorKind::MalformedFormula => "Malformed Formula"@,
        }
    }

    /// Human-readable cause of the failure.
    pub fn to_string(&self) -> (text: String)
        ensures
            text@ == self.message(),
    {
        match self.kind {
            ParserErrorKind::MissingClosingBracket => String::from_str("Missing )"),
            ParserErrorKind::MissingOpeningBracket => String::from_str("Missing ("),
            ParserErrorKind::MalformedFormula => String::from_str("Malformed Formula"),
        }
    }
}


/// Binding strength of a token on the operator stack: `)` is the weakest
/// and only fences a group, then `|`, then `&`, then `!`.
pub open spec fn binding(token: SpecToken) -> nat {
    match token {
        SpecToken::Or => 1,
        SpecToken::And => 2,
        SpecToken::Not => 3,
        _ => 0,
    }
}

/// Tokens that may lie on the operator stack.
pub open spec fn stackable(token: SpecToken) -> bool {
    token is RBracket || token is Or || token is And || token is Not
}

/// No token of the sequence is a bracket.
pub open spec fn bracket_free(tokens: Seq<SpecToken>) -> bool {
    forall|i: int| 0 <= i < tokens.len() ==> !(tokens[i] is LBracket) && !(tokens[i] is RBracket)
}

impl Token {
    /// Binding strength of an operator or of the closing bracket.
    pub fn precedence(&self) -> (level: u32)
        requires
            stackable(self@),
        ensures
            level == binding(self@),
    {
        match self {
            Token::RBracket => 0,
            Token::OrOperator => 1,
            Token::AndOperator => 2,
            _ => 3,
        }
    }
}

/// State of the conversion to Polish order: the output written so far and
/// the stack of operators and fences that wait.
pub struct ShuntState {
    pub output: Seq<SpecToken>,
    pub operators: Seq<SpecToken>,
}

/// Moves operators from the stack to the output until a `)` fence is met,
/// which is dropped; `None` when the stack holds no fence.
pub open spec fn pop_to_fence(state: ShuntState) -> Option<ShuntState>
    decreases state.operators.len(),
{
    if state.operators.len() == 0 {
        None
    } else if state.operators.last() is RBracket {
        Some(ShuntState { output: state.output, operators: state.operators.drop_last() })
    } else {
        pop_to_fence(
            ShuntState {
                output: state.output.push(state.operators.last()),
                operators: state.operators.drop_last(),
            },
        )
    }
}

/// Moves operators from the stack to the output for as long as the top
/// binds at least as strongly as `token`.
pub open spec fn pop_stronger(state: ShuntState, token: SpecToken) -> ShuntState
    decreases state.operators.len(),
{
    if state.operators.len() == 0 || binding(state.operators.last()) < binding(token) {
        state
    } else {
        pop_stronger(
            ShuntState {
                output: state.output.push(state.operators.last()),
                operators: state.operators.drop_last(),
            },
            token,
        )
    }
}

/// One step of the conversion on `token`.
///
/// A variable goes to the output. A `)` opens a group and is pushed as a
/// fence. A `(` closes the group: operators are popped to the output down
/// to the fence, and a missing fence is an error. An operator first pops
/// every operator that binds at least as strongly and is then pushed.
pub open spec fn shunt_step(state: ShuntState, token: SpecToken) -> Result<
    ShuntState,
    ParserErrorKind,
> {
    match token {
        SpecToken::Var(_) => Ok(
            ShuntState { output: state.output.push(token), operators: state.operators },
        ),
        SpecToken::RBracket => Ok(
            ShuntState { output: state.output, operators: state.operators.push(token) },
        ),
        SpecToken::LBracket => match pop_to_fence(state) {
            Some(next) => Ok(next),
            None => Err(ParserErrorKind::MissingClosingBracket),
        },
        _ => {
            let popped = pop_stronger(state, token);
            Ok(ShuntState { output: popped.output, operators: popped.operators.push(token) })
        },
    }
}

/// The conversion run over `tokens` from `state`, last token first.
pub open spec fn shunt(state: ShuntState, tokens: Seq<SpecToken>) -> Result<
    ShuntState,
    ParserErrorKind,
>
    decreases tokens.len(),
{
    if tokens.len() == 0 {
        Ok(state)
    } else {
        match shunt_step(state, tokens.last()) {
            Ok(next) => shunt(next, tokens.drop_last()),
            Err(kind) => Err(kind),
        }
    }
}

/// Empties the operator stack into the output; a fence left on the stack
/// is an error.
pub open spec fn drain(state: ShuntState) -> Result<Seq<SpecToken>, ParserErrorKind>
    decreases state.operators.len(),
{
    if state.operators.len() == 0 {
        Ok(state.output)
    } else if state.operators.last() is RBracket {
        Err(ParserErrorKind::MissingOpeningBracket)
    } else {
        drain(
            ShuntState {
                output: state.output.push(state.operators.last()),
                operators: state.operators.drop_last(),
            },
        )
    }
}

/// The conversion continued from `state` over `tokens` and finished by
/// draining the stack.
pub open spec fn shunt_and_drain(state: ShuntState, tokens: Seq<SpecToken>) -> Result<
    Seq<SpecToken>,
    ParserErrorKind,
> {
    match shunt(state, tokens) {
        Ok(end) => drain(end),
        Err(kind) => Err(kind),
    }
}

/// The Polish order of an infix token sequence: read from its end
/// backwards, it lists every operator before its operands.
pub open spec fn to_polish(tokens: Seq<SpecToken>) -> Result<Seq<SpecToken>, ParserErrorKind> {
    shunt_and_drain(ShuntState { output: Seq::empty(), operators: Seq::empty() }, tokens)
}

/// Every token is one that may lie on the operator stack.
pub open spec fn all_stackable(tokens: Seq<SpecToken>) -> bool {
    forall|i: int| 0 <= i < tokens.len() ==> stackable(#[trigger] tokens[i])
}

impl TokenStream {
    /// Converts an infix token sequence to Polish order by a reversed scan
    /// with an operator stack.
    ///
    /// The result is that of [`to_polish`]: the converted sequence, which
    /// holds no bracket, or the bracket error that the scan or the final
    /// drain of the stack meets first.
    pub fn polish_notation(self) -> (result: Result<TokenStream, ParserError>)
        ensures
            match to_polish(self@) {
                Ok(polish) => result is Ok && result->Ok_0@ == polish,
                Err(kind) => result is Err && result->Err_0.kind == kind,
            },
            result is Ok ==> bracket_free(result->Ok_0@),
    {
        let mut stream = self;
        let mut result = TokenStream::new();
        let mut operators = TokenStream::new();

        loop
            invariant
                to_polish(self@) == shunt_and_drain(
                    ShuntState { output: result@, operators: operators@ },
                    stream@,
                ),
                bracket_free(result@),
                all_stackable(operators@),
            ensures
                stream@.len() == 0,
            decreases stream@.len(),
        {
            let ghost state = ShuntState { output: result@, operators: operators@ };
            let ghost remaining = stream@;
            let token = match stream.pop() {
                Some(token) => token,
                None => {
                    break ;
                },
            };
            match token {
                Token::Var(_) => result.push(token),
                Token::RBracket => operators.push(token),
                Token::LBracket => {
                    loop
                        invariant_except_break
                            pop_to_fence(state) == pop_to_fence(
                                ShuntState { output: result@, operators: operators@ },
                            ),
                        invariant
                            bracket_free(result@),
                            all_stackable(operators@),
                            token@ is LBracket,
                            remaining.len() > 0,
                            remaining.last() == token@,
                            to_polish(self@) == shunt_and_drain(state, remaining),
                        ensures
                            pop_to_fence(state) == Some(
                                ShuntState { output: result@, operators: operators@ },
                            ),
                        decreases operators@.len(),
                    {
                        match operators.pop() {
                            None => {
                                return Err(
                                    ParserError { kind: ParserErrorKind::MissingClosingBracket },
                                );
                            },
                            Some(operator) => match operator {
                                Token::RBracket => {
                                    break ;
                                },
                                _ => result.push(operator),
                            },
                        }
                    }
                },
                _ => {
                    loop
                        invariant_except_break
                            pop_stronger(state, token@) == pop_stronger(
                                ShuntState { output: result@, operators: operators@ },
                                token@,
                            ),
                        invariant
                            bracket_free(result@),
                            all_stackable(operators@),
                            token@ is And || token@ is Or || token@ is Not,
                        ensures
                            pop_stronger(state, token@) == (ShuntState {
                                output: result@,
                                operators: operators@,
                            }),
                        decreases operators@.len(),
                    {
                        match operators.last() {
                            None => {
                                break ;
                            },
                            Some(top) => {
                                if top.precedence() < token.precedence() {
                                    break ;
                                }
                            },
                        }
                        match operators.pop() {
                            Some(operator) => result.push(operator),
                            None => {},
                        }
                    }
                    operators.push(token);
                },
            }
        }

        loop
            invariant
                to_polish(self@) == drain(ShuntState { output: result@, operators: operators@ }),
                bracket_free(result@),
                all_stackable(operators@),
            ensures
                operators@.len() == 0,
            decreases operators@.len(),
        {
            match operators.pop() {
                None => {
                    break ;
                },
                Some(operator) => match operator {
                    Token::RBracket => {
                        return Err(ParserError { kind: ParserErrorKind::MissingOpeningBracket });
                    },
                    _ => result.push(operator),
                },
            }
        }

        Ok(result)
    }
}


/// `tokens` is `rest` followed by the Polish order of `formula`.
pub open spec fn ends_with_formula(
    tokens: Seq<SpecToken>,
    rest: Seq<SpecToken>,
    formula: SpecExpr,
) -> bool {
    tokens == rest + formula.polish()
}

/// The Polish order of a formula is never empty, and its last token tells
/// the kind of the formula.
pub proof fn lemma_polish_last(formula: SpecExpr)
    ensures
        formula.polish().len() >= 1,
        match formula {
            SpecExpr::Var(name) => formula.polish().last() == SpecToken::Var(name),
            SpecExpr::Not(_) => formula.polish().last() is Not,
            SpecExpr::And(_, _) => formula.polish().last() is And,
            SpecExpr::Or(_, _) => formula.polish().last() is Or,
        },
{
}

/// A token sequence ends with the Polish order of at most one formula: the
/// formula and what stands before it are determined.
pub proof fn lemma_polish_unique(
    rest1: Seq<SpecToken>,
    formula1: SpecExpr,
    rest2: Seq<SpecToken>,
    formula2: SpecExpr,
)
    requires
        rest1 + formula1.polish() == rest2 + formula2.polish(),
    ensures
        formula1 == formula2,
        rest1 == rest2,
    decreases formula1,
{
    let whole = rest1 + formula1.polish();
    lemma_polish_last(formula1);
    lemma_polish_last(formula2);
    assert(whole.last() == formula1.polish().last());
    assert(whole.last() == formula2.polish().last());
    match formula1 {
        SpecExpr::Var(name) => {
            assert(formula2 == formula1);
            assert(rest1 =~= whole.drop_last());
            assert(rest2 =~= whole.drop_last());
        },
        SpecExpr::Not(inner1) => {
            let inner2 = formula2->Not_0;
            assert(whole.drop_last() =~= rest1 + inner1.polish());
            assert(whole.drop_last() =~= rest2 + inner2.polish());
            lemma_polish_unique(rest1, *inner1, rest2, *inner2);
        },
        SpecExpr::And(left1, right1) => {
            let left2 = formula2->And_0;
            let right2 = formula2->And_1;
            assert(whole.drop_last() =~= (rest1 + right1.polish()) + left1.polish());
            assert(whole.drop_last() =~= (rest2 + right2.polish()) + left2.polish());
            lemma_polish_unique(
                rest1 + right1.polish(),
                *left1,
                rest2 + right2.polish(),
                *left2,
            );
            lemma_polish_unique(rest1, *right1, rest2, *right2);
        },
        SpecExpr::Or(left1, right1) => {
            let left2 = formula2->Or_0;
            let right2 = formula2->Or_1;
            assert(whole.drop_last() =~= (rest1 + right1.polish()) + left1.polish());
            assert(whole.drop_last() =~= (rest2 + right2.polish()) + left2.polish());
            lemma_polish_unique(
                rest1 + right1.polish(),
                *left1,
                rest2 + right2.polish(),
                *left2,
            );
            lemma_polish_unique(rest1, *right1, rest2, *right2);
        },
    }
}

/// The formula of a token sequence, or why it has none.
///
/// The sequence is converted to Polish order; a bracket error of the
/// conversion is passed on. The converted sequence must then be exactly
/// the Polish order of a formula, which is the result; anything else is
/// malformed.
pub open spec fn parse(tokens: Seq<SpecToken>) -> Result<SpecExpr, ParserErrorKind> {
    match to_polish(tokens) {
        Err(kind) => Err(kind),
        Ok(polish) => if exists|formula: SpecExpr| #[trigger] formula.polish() == polish {
            Ok(choose|formula: SpecExpr| #[trigger] formula.polish() == polish)
        } else {
            Err(ParserErrorKind::MalformedFormula)
        },
    }
}

impl TokenStream {
    /// Takes one formula off the end of a bracket-free sequence in Polish
    /// order.
    ///
    /// Succeeds exactly when the sequence ends with the Polish order of a
    /// formula: that formula is returned and its tokens are removed, what
    /// stands before them is left. Otherwise the sequence is malformed: it
    /// ran out while an operand was still owed, so it is left empty.
    pub fn take_expression(&mut self) -> (result: Result<Expression, ParserError>)
        requires
            bracket_free(old(self)@),
        ensures
            match result {
                Ok(expr) => old(self)@ == final(self)@ + expr@.polish(),
                Err(error) => error.kind is MalformedFormula && final(self)@.len() == 0
                    && forall|rest: Seq<SpecToken>, formula: SpecExpr|
                    !ends_with_formula(old(self)@, rest, formula),
            },
        decreases old(self)@.len(),
    {
        let ghost tokens = self@;
        match self.pop() {
            None => {
                assert forall|rest: Seq<SpecToken>, formula: SpecExpr|
                    !ends_with_formula(tokens, rest, formula) by {
                    lemma_polish_last(formula);
                }
                Err(ParserError { kind: ParserErrorKind::MalformedFormula })
            },
            Some(token) => {
                let ghost body = self@;
                assert(tokens =~= body.push(token@));
                match token {
                    Token::Var(var) => {
                        assert(SpecExpr::Var(var@).polish() =~= seq![token@]);
                        assert(tokens =~= body + seq![token@]);
                        Ok(Expression::Var(var))
                    },
                    Token::NotOperator => {
                        let expr = match self.take_expression() {
                            Ok(expr) => expr,
                            Err(error) => {
                                assert forall|rest: Seq<SpecToken>, formula: SpecExpr|
                                    !ends_with_formula(tokens, rest, formula) by {
                                    if ends_with_formula(tokens, rest, formula) {
                                        lemma_polish_last(formula);
                                        assert(tokens.last() == formula.polish().last());
                                        let inner = formula->Not_0;
                                        assert(body =~= rest + inner.polish());
                                        assert(ends_with_formula(body, rest, *inner));
                                    }
                                }
                                return Err(error);
                            },
                        };
                        assert(tokens =~= self@ + SpecExpr::Not(Box::new(expr@)).polish());
                        Ok(Expression::Not(Box::new(expr)))
                    },
                    Token::AndOperator => {
                        let expr = match self.take_expression() {
                            Ok(expr) => expr,
                            Err(error) => {
                                assert forall|rest: Seq<SpecToken>, formula: SpecExpr|
                                    !ends_with_formula(tokens, rest, formula) by {
                                    if ends_with_formula(tokens, rest, formula) {
                                        lemma_polish_last(formula);
                                        assert(tokens.last() == formula.polish().last());
                                        let left = formula->And_0;
                                        let right = formula->And_1;
                                        assert(body =~= (rest + right.polish()) + left.polish());
                                        assert(ends_with_formula(
                                            body,
                                            rest + right.polish(),
                                            *left,
                                        ));
                                    }
                                }
                                return Err(error);
                            },
                        };
                        let ghost middle = self@;
                        assert(bracket_free(middle)) by {
                            assert forall|i: int| 0 <= i < middle.len() implies middle[i]
                                == body[i] by {}
                        }
                        let expr2 = match self.take_expression() {
                            Ok(expr2) => expr2,
                            Err(error) => {
                                assert forall|rest: Seq<SpecToken>, formula: SpecExpr|
                                    !ends_with_formula(tokens, rest, formula) by {
                                    if ends_with_formula(tokens, rest, formula) {
                                        lemma_polish_last(formula);
                                        assert(tokens.last() == formula.polish().last());
                                        let left = formula->And_0;
                                        let right = formula->And_1;
                                        assert(body =~= (rest + right.polish()) + left.polish());
                                        lemma_polish_unique(
                                            rest + right.polish(),
                                            *left,
                                            middle,
                                            expr@,
                                        );
                                        assert(ends_with_formula(middle, rest, *right));
                                    }
                                }
                                return Err(error);
                            },
                        };
                        assert(tokens =~= self@ + SpecExpr::And(
                            Box::new(expr@),
                            Box::new(expr2@),
                        ).polish());
                        Ok(Expression::And(Box::new(expr), Box::new(expr2)))
                    },
                    Token::OrOperator => {
                        let expr = match self.take_expression() {
                            Ok(expr) => expr,
                            Err(error) => {
                                assert forall|rest: Seq<SpecToken>, formula: SpecExpr|
                                    !ends_with_formula(tokens, rest, formula) by {
                                    if ends_with_formula(tokens, rest, formula) {
                                        lemma_polish_last(formula);
                                        assert(tokens.last() == formula.polish().last());
                                        let left = formula->Or_0;
                                        let right = formula->Or_1;
                                        assert(body =~= (rest + right.polish()) + left.polish());
                                        assert(ends_with_formula(
                                            body,
                                            rest + right.polish(),
                                            *left,
                                        ));
                                    }
                                }
                                return Err(error);
                            },
                        };
                        let ghost middle = self@;
                        assert(bracket_free(middle)) by {
                            assert forall|i: int| 0 <= i < middle.len() implies middle[i]
                                == body[i] by {}
                        }
                        let expr2 = match self.take_expression() {
                            Ok(expr2) => expr2,
                            Err(error) => {
                                assert forall|rest: Seq<SpecToken>, formula: SpecExpr|
                                    !ends_with_formula(tokens, rest, formula) by {
                                    if ends_with_formula(tokens, rest, formula) {
                                        lemma_polish_last(formula);
                                        assert(tokens.last() == formula.polish().last());
                                        let left = formula->Or_0;
                                        let right = formula->Or_1;
                                        assert(body =~= (rest + right.polish()) + left.polish());
                                        lemma_polish_unique(
                                            rest + right.polish(),
                                            *left,
                                            middle,
                                            expr@,
                                        );
                                        assert(ends_with_formula(middle, rest, *right));
                                    }
                                }
                                return Err(error);
                            },
                        };
                        assert(tokens =~= self@ + SpecExpr::Or(
                            Box::new(expr@),
                            Box::new(expr2@),
                        ).polish());
                        Ok(Expression::Or(Box::new(expr), Box::new(expr2)))
                    },
                    _ => unreached(),
                }
            },
        }
    }

    /// Builds the formula of a bracket-free sequence in Polish order.
    ///
    /// Succeeds exactly when the whole sequence is the Polish order of a
    /// formula; a sequence that is empty, lacks an operand or has tokens
    /// left over is malformed.
    pub fn expression(self) -> (result: Result<Expression, ParserError>)
        requires
            bracket_free(self@),
        ensures
            match result {
                Ok(expr) => self@ == expr@.polish(),
                Err(error) => error.kind is MalformedFormula && forall|formula: SpecExpr|
                    #[trigger] formula.polish() != self@,
            },
    {
        let mut stream = self;
        let expression = match stream.take_expression() {
            Ok(expression) => expression,
            Err(error) => {
                assert forall|formula: SpecExpr| #[trigger] formula.polish() != self@ by {
                    assert(!ends_with_formula(self@, Seq::empty(), formula));
                    assert(Seq::<SpecToken>::empty() + formula.polish() =~= formula.polish());
                }
                return Err(error);
            },
        };
        let ghost rest = stream@;
        match stream.pop() {
            None => {
                assert(rest + expression@.polish() =~= expression@.polish());
                Ok(expression)
            },
            Some(_) => {
                assert forall|formula: SpecExpr| #[trigger] formula.polish() != self@ by {
                    if formula.polish() == self@ {
                        assert(Seq::<SpecToken>::empty() + formula.polish() =~= formula.polish());
                        lemma_polish_unique(Seq::empty(), formula, rest, expression@);
                    }
                }
                Err(ParserError { kind: ParserErrorKind::MalformedFormula })
            },
        }
    }
}

/// Parses an infix token sequence into a formula.
///
/// The outcome is that of [`parse`]: the formula on success, and otherwise
/// the kind of error that [`parse`] gives for the sequence.
pub fn run_parser(stream: TokenStream) -> (result: Result<Expression, ParserError>)
    ensures
        match parse(stream@) {
            Ok(formula) => result is Ok && result->Ok_0@ == formula,
            Err(kind) => result is Err && result->Err_0.kind == kind,
        },
{
    let polish = match stream.polish_notation() {
        Ok(polish) => polish,
        Err(error) => {
            return Err(error);
        },
    };
    let result = polish.expression();
    proof {
        if result is Ok {
            let built = result->Ok_0@;
            let chosen = choose|formula: SpecExpr| #[trigger] formula.polish() == polish@;
            assert(Seq::<SpecToken>::empty() + chosen.polish() =~= chosen.polish());
            assert(Seq::<SpecToken>::empty() + built.polish() =~= built.polish());
            lemma_polish_unique(Seq::empty(), chosen, Seq::empty(), built);
        }
    }
    result
}

} // verus!
