//! The rendered text of a formula lexes and parses back to the formula.
use crate::lexer::{
    flush, is_var_char, lex, scan, scan_step, symbol_token, LexerErrorKind, ScanState, SpecToken,
};
use crate::parser::{
    binding, drain, lemma_polish_unique, parse, pop_stronger, pop_to_fence, shunt, shunt_step,
    to_polish, ParserErrorKind, ShuntState, SpecExpr,
};
use vstd::prelude::*;

verus! {

/// A variable name as the scanner accepts it: one or more letters.
pub open spec fn valid_name(name: Seq<char>) -> bool {
    name.len() > 0 && forall|i: int| 0 <= i < name.len() ==> is_var_char(#[trigger] name[i])
}

/// A token that is no variable, or a variable with a valid name.
pub open spec fn valid_token(token: SpecToken) -> bool {
    token matches SpecToken::Var(name) ==> valid_name(name)
}

/// Every variable token carries a valid name.
pub open spec fn valid_tokens(tokens: Seq<SpecToken>) -> bool {
    forall|i: int| 0 <= i < tokens.len() ==> valid_token(#[trigger] tokens[i])
}

impl SpecExpr {
    /// Every variable of the formula has a valid name.
    pub open spec fn valid_names(self) -> bool
        decreases self,
    {
        match self {
            SpecExpr::Var(name) => valid_name(name),
            SpecExpr::Not(inner) => inner.valid_names(),
            SpecExpr::And(left, right) => left.valid_names() && right.valid_names(),
            SpecExpr::Or(left, right) => left.valid_names() && right.valid_names(),
        }
    }

    /// The tokens of the rendered text of the formula.
    pub open spec fn tokens(self) -> Seq<SpecToken>
        decreases self,
    {
        match self {
            SpecExpr::Var(name) => seq![SpecToken::Var(name)],
            SpecExpr::Not(inner) => seq![SpecToken::Not] + inner.tokens(),
            SpecExpr::And(left, right) => seq![SpecToken::LBracket] + left.tokens()
                + seq![SpecToken::And] + right.tokens() + seq![SpecToken::RBracket],
            SpecExpr::Or(left, right) => seq![SpecToken::LBracket] + left.tokens()
                + seq![SpecToken::Or] + right.tokens() + seq![SpecToken::RBracket],
        }
    }

    /// The rendered text ends with a variable name rather than a bracket.
    pub open spec fn ends_in_name(self) -> bool
        decreases self,
    {
        match self {
            SpecExpr::Var(_) => true,
            SpecExpr::Not(inner) => inner.ends_in_name(),
            _ => false,
        }
    }
}

/// The state of the scanner after the rendered text of `formula`, begun
/// between two tokens: the tokens of the formula are added, the last one
/// still pending when it is a name.
pub open spec fn scanned(state: ScanState, formula: SpecExpr) -> ScanState {
    if formula.ends_in_name() {
        ScanState {
            tokens: state.tokens + formula.tokens().drop_last(),
            pending: Some(formula.tokens().last()->Var_0),
        }
    } else {
        ScanState { tokens: state.tokens + formula.tokens(), pending: None }
    }
}

/// Scanning a text in two parts.
pub proof fn lemma_scan_concat(state: ScanState, first: Seq<char>, second: Seq<char>)
    ensures
        scan(state, first + second) == match scan(state, first) {
            Ok(middle) => scan(middle, second),
            Err(kind) => Err(kind),
        },
    decreases first.len(),
{
    if first.len() == 0 {
        assert(first + second =~= second);
    } else {
        assert((first + second)[0] == first[0]);
        assert((first + second).drop_first() =~= first.drop_first() + second);
        match scan_step(state, first[0]) {
            Ok(next) => lemma_scan_concat(next, first.drop_first(), second),
            Err(_) => {},
        }
    }
}

/// Scanning a single character is one step.
proof fn lemma_scan_one(state: ScanState, c: char)
    ensures
        scan(state, seq![c]) == scan_step(state, c),
{
    let text = seq![c];
    assert(text.drop_first() =~= Seq::<char>::empty());
    match scan_step(state, c) {
        Ok(next) => {
            assert(scan(next, text.drop_first()) == Ok::<ScanState, LexerErrorKind>(next));
        },
        Err(_) => {},
    }
}

/// Letters scanned inside a name extend the name.
proof fn lemma_scan_letters(tokens: Seq<SpecToken>, name: Seq<char>, letters: Seq<char>)
    requires
        forall|i: int| 0 <= i < letters.len() ==> is_var_char(#[trigger] letters[i]),
    ensures
        scan(ScanState { tokens, pending: Some(name) }, letters) == Ok::<ScanState, LexerErrorKind>(
            ScanState { tokens, pending: Some(name + letters) },
        ),
    decreases letters.len(),
{
    if letters.len() == 0 {
        assert(name + letters =~= name);
    } else {
        let c = letters[0];
        assert(is_var_char(c));
        let rest = letters.drop_first();
        assert forall|i: int| 0 <= i < rest.len() implies is_var_char(#[trigger] rest[i]) by {
            assert(rest[i] == letters[i + 1]);
        }
        lemma_scan_letters(tokens, name.push(c), rest);
        assert(name.push(c) + rest =~= name + letters);
    }
}

/// A valid name scanned between two tokens becomes the pending name.
proof fn lemma_scan_name(state: ScanState, name: Seq<char>)
    requires
        state.pending is None,
        valid_name(name),
    ensures
        scan(state, name) == Ok::<ScanState, LexerErrorKind>(
            ScanState { tokens: state.tokens, pending: Some(name) },
        ),
{
    let c = name[0];
    assert(is_var_char(c));
    let rest = name.drop_first();
    assert forall|i: int| 0 <= i < rest.len() implies is_var_char(#[trigger] rest[i]) by {
        assert(rest[i] == name[i + 1]);
    }
    lemma_scan_letters(state.tokens, seq![c], rest);
    assert(seq![c] + rest =~= name);
}

/// The middle of a rendered conjunction or disjunction, scanned after the
/// left operand: a pending name is closed and the operator is added.
proof fn lemma_scan_operator(state: ScanState, symbol: char)
    requires
        symbol == '&' || symbol == '|',
    ensures
        scan(state, seq![' ', symbol, ' ']) == Ok::<ScanState, LexerErrorKind>(
            ScanState {
                tokens: flush(state).push(
                    if symbol == '&' {
                        SpecToken::And
                    } else {
                        SpecToken::Or
                    },
                ),
                pending: None,
            },
        ),
{
    let text = seq![' ', symbol, ' '];
    let first = seq![' '];
    let rest = seq![symbol, ' '];
    assert(text =~= first + rest);
    assert(rest =~= seq![symbol] + seq![' ']);
    lemma_scan_concat(state, first, rest);
    lemma_scan_one(state, ' ');
    let closed = ScanState { tokens: flush(state), pending: None };
    assert(scan(state, first) == Ok::<ScanState, LexerErrorKind>(closed));
    lemma_scan_concat(closed, seq![symbol], seq![' ']);
    lemma_scan_one(closed, symbol);
    let after = scan_step(closed, symbol)->Ok_0;
    lemma_scan_one(after, ' ');
}

/// The rendered text of a formula with valid names, scanned between two
/// tokens, yields the tokens of the formula.
pub proof fn lemma_scan_render(state: ScanState, formula: SpecExpr)
    requires
        state.pending is None,
        formula.valid_names(),
    ensures
        scan(state, formula.render()) == Ok::<ScanState, LexerErrorKind>(scanned(state, formula)),
        flush(scanned(state, formula)) == state.tokens + formula.tokens(),
        formula.tokens().len() > 0,
        formula.ends_in_name() ==> formula.tokens().last() is Var,
    decreases formula, 1int,
{
    match formula {
        SpecExpr::Var(name) => {
            lemma_scan_name(state, name);
            assert(formula.tokens().drop_last() =~= Seq::<SpecToken>::empty());
            assert(state.tokens + formula.tokens().drop_last() =~= state.tokens);
            assert(flush(scanned(state, formula)) =~= state.tokens + formula.tokens());
        },
        SpecExpr::Not(inner) => {
            let next = ScanState { tokens: state.tokens.push(SpecToken::Not), pending: None };
            lemma_scan_concat(state, seq!['!'], inner.render());
            lemma_scan_one(state, '!');
            lemma_scan_render(next, *inner);
            let mine = formula.tokens();
            let theirs = inner.tokens();
            assert(mine.last() == theirs.last());
            assert(mine.drop_last() =~= seq![SpecToken::Not] + theirs.drop_last());
            assert(next.tokens + theirs.drop_last() =~= state.tokens + mine.drop_last());
            assert(next.tokens + theirs =~= state.tokens + mine);
        },
        SpecExpr::And(left, right) => {
            lemma_scan_binary(state, formula);
        },
        SpecExpr::Or(left, right) => {
            lemma_scan_binary(state, formula);
        },
    }
}

/// The rendered text of a conjunction or disjunction, scanned between two
/// tokens.
proof fn lemma_scan_binary(state: ScanState, formula: SpecExpr)
    requires
        formula is And || formula is Or,
        state.pending is None,
        formula.valid_names(),
    ensures
        scan(state, formula.render()) == Ok::<ScanState, LexerErrorKind>(
            ScanState { tokens: state.tokens + formula.tokens(), pending: None },
        ),
    decreases formula, 0int,
{
    let (left, right, symbol) = match formula {
        SpecExpr::And(left, right) => (*left, *right, '&'),
        SpecExpr::Or(left, right) => (*left, *right, '|'),
        _ => (formula, formula, ' '),
    };
    let operator = if symbol == '&' {
        SpecToken::And
    } else {
        SpecToken::Or
    };
    let middle = seq![' ', symbol, ' '];
    let part1 = seq!['('];
    let part2 = part1 + left.render();
    let part3 = part2 + middle;
    let part4 = part3 + right.render();
    let text = part4 + seq![')'];

    let state1 = ScanState { tokens: state.tokens.push(SpecToken::LBracket), pending: None };
    lemma_scan_one(state, '(');
    lemma_scan_render(state1, left);
    let state2 = scanned(state1, left);
    lemma_scan_concat(state, part1, left.render());
    assert(scan(state, part2) == Ok::<ScanState, LexerErrorKind>(state2));

    lemma_scan_operator(state2, symbol);
    let state3 = ScanState { tokens: flush(state2).push(operator), pending: None };
    lemma_scan_concat(state, part2, middle);
    assert(scan(state, part3) == Ok::<ScanState, LexerErrorKind>(state3));

    lemma_scan_render(state3, right);
    let state4 = scanned(state3, right);
    lemma_scan_concat(state, part3, right.render());
    assert(scan(state, part4) == Ok::<ScanState, LexerErrorKind>(state4));

    lemma_scan_one(state4, ')');
    let state5 = ScanState { tokens: flush(state4).push(SpecToken::RBracket), pending: None };
    assert(scan_step(state4, ')') == Ok::<ScanState, LexerErrorKind>(state5));
    lemma_scan_concat(state, part4, seq![')']);
    assert(scan(state, text) == Ok::<ScanState, LexerErrorKind>(state5));

    let tokens = seq![SpecToken::LBracket] + left.tokens() + seq![operator] + right.tokens()
        + seq![SpecToken::RBracket];
    assert(state5.tokens =~= state.tokens + tokens);
}

/// The rendered text of a formula with valid names lexes to the tokens of
/// the formula.
pub proof fn lemma_lex_render(formula: SpecExpr)
    requires
        formula.valid_names(),
    ensures
        lex(formula.render()) == Ok::<Seq<SpecToken>, LexerErrorKind>(formula.tokens()),
{
    let start = ScanState { tokens: Seq::empty(), pending: None };
    lemma_scan_render(start, formula);
    assert(Seq::<SpecToken>::empty() + formula.tokens() =~= formula.tokens());
}


/// The operator stack is empty or its top binds more weakly than `!`.
pub open spec fn calm(operators: Seq<SpecToken>) -> bool {
    operators.len() == 0 || binding(operators.last()) < 3
}

/// The state of the conversion to Polish order after the tokens of
/// `formula`: its Polish order is written, but for the `!` of a negation,
/// which waits on the stack.
pub open spec fn landed(state: ShuntState, formula: SpecExpr) -> ShuntState {
    if formula is Not {
        ShuntState {
            output: state.output + formula.polish().drop_last(),
            operators: state.operators.push(SpecToken::Not),
        }
    } else {
        ShuntState { output: state.output + formula.polish(), operators: state.operators }
    }
}

/// Converting a token sequence in two parts: the second part is read
/// first.
pub proof fn lemma_shunt_concat(state: ShuntState, first: Seq<SpecToken>, second: Seq<SpecToken>)
    ensures
        shunt(state, first + second) == match shunt(state, second) {
            Ok(middle) => shunt(middle, first),
            Err(kind) => Err(kind),
        },
    decreases second.len(),
{
    if second.len() == 0 {
        assert(first + second =~= first);
    } else {
        assert((first + second).last() == second.last());
        assert((first + second).drop_last() =~= first + second.drop_last());
        match shunt_step(state, second.last()) {
            Ok(next) => lemma_shunt_concat(next, first, second.drop_last()),
            Err(_) => {},
        }
    }
}

/// Converting a single token is one step.
proof fn lemma_shunt_one(state: ShuntState, token: SpecToken)
    ensures
        shunt(state, seq![token]) == shunt_step(state, token),
{
    let tokens = seq![token];
    assert(tokens.drop_last() =~= Seq::<SpecToken>::empty());
    match shunt_step(state, token) {
        Ok(next) => {
            assert(shunt(next, tokens.drop_last()) == Ok::<ShuntState, ParserErrorKind>(next));
        },
        Err(_) => {},
    }
}

/// An operator that arrives after the tokens of `formula` finds the
/// Polish order of the formula complete: a waiting `!` is moved to the
/// output, and nothing below it is.
proof fn lemma_operator_after(state: ShuntState, formula: SpecExpr, token: SpecToken)
    requires
        token is And || token is Or || token is Not,
        state.operators.len() == 0 || binding(state.operators.last()) < binding(token),
    ensures
        pop_stronger(landed(state, formula), token) == (ShuntState {
            output: state.output + formula.polish(),
            operators: state.operators,
        }),
{
    let arrived = landed(state, formula);
    let settled = ShuntState {
        output: state.output + formula.polish(),
        operators: state.operators,
    };
    if formula is Not {
        assert(arrived.operators.last() == SpecToken::Not);
        assert(arrived.operators.drop_last() =~= state.operators);
        assert(formula.polish().last() == SpecToken::Not);
        assert(arrived.output.push(SpecToken::Not) =~= settled.output);
        assert(pop_stronger(arrived, token) == pop_stronger(settled, token));
    }
}

/// The tokens of a formula are converted to its Polish order, whatever
/// was converted before, as long as no `!` waits on top of the stack.
pub proof fn lemma_shunt_tokens(state: ShuntState, formula: SpecExpr)
    requires
        calm(state.operators),
    ensures
        shunt(state, formula.tokens()) == Ok::<ShuntState, ParserErrorKind>(
            landed(state, formula),
        ),
    decreases formula, 1int,
{
    match formula {
        SpecExpr::Var(name) => {
            lemma_shunt_one(state, SpecToken::Var(name));
            assert(state.output.push(SpecToken::Var(name)) =~= state.output + formula.polish());
        },
        SpecExpr::Not(inner) => {
            lemma_shunt_concat(state, seq![SpecToken::Not], inner.tokens());
            lemma_shunt_tokens(state, *inner);
            let arrived = landed(state, *inner);
            lemma_shunt_one(arrived, SpecToken::Not);
            lemma_operator_after(state, *inner, SpecToken::Not);
            assert(formula.polish().drop_last() =~= inner.polish());
        },
        _ => {
            lemma_shunt_binary(state, formula);
        },
    }
}

/// The tokens of a conjunction or disjunction are converted to its Polish
/// order.
proof fn lemma_shunt_binary(state: ShuntState, formula: SpecExpr)
    requires
        formula is And || formula is Or,
        calm(state.operators),
    ensures
        shunt(state, formula.tokens()) == Ok::<ShuntState, ParserErrorKind>(
            ShuntState { output: state.output + formula.polish(), operators: state.operators },
        ),
    decreases formula, 0int,
{
    let (left, right, operator) = match formula {
        SpecExpr::And(left, right) => (*left, *right, SpecToken::And),
        SpecExpr::Or(left, right) => (*left, *right, SpecToken::Or),
        _ => (formula, formula, SpecToken::Not),
    };
    let fence = SpecToken::RBracket;
    let part2 = seq![SpecToken::LBracket] + left.tokens();
    let part3 = part2 + seq![operator];
    let part4 = part3 + right.tokens();
    let whole = part4 + seq![fence];
    assert(formula.tokens() == whole);

    lemma_shunt_concat(state, part4, seq![fence]);
    lemma_shunt_one(state, fence);
    let state1 = ShuntState { output: state.output, operators: state.operators.push(fence) };

    lemma_shunt_concat(state1, part3, right.tokens());
    lemma_shunt_tokens(state1, right);
    let state2 = landed(state1, right);

    lemma_shunt_concat(state2, part2, seq![operator]);
    lemma_shunt_one(state2, operator);
    lemma_operator_after(state1, right, operator);
    let state3 = ShuntState {
        output: state.output + right.polish(),
        operators: state1.operators.push(operator),
    };
    assert(shunt_step(state2, operator) == Ok::<ShuntState, ParserErrorKind>(state3));

    lemma_shunt_concat(state3, seq![SpecToken::LBracket], left.tokens());
    lemma_shunt_tokens(state3, left);
    let state4 = landed(state3, left);
    lemma_shunt_one(state4, SpecToken::LBracket);

    let filled = ShuntState {
        output: state3.output + left.polish(),
        operators: state3.operators,
    };
    if left is Not {
        assert(state4.operators.last() == SpecToken::Not);
        assert(state4.operators.drop_last() =~= state3.operators);
        assert(left.polish().last() == SpecToken::Not);
        assert(state4.output.push(SpecToken::Not) =~= filled.output);
        assert(pop_to_fence(state4) == pop_to_fence(filled));
    }
    let closing = ShuntState {
        output: filled.output.push(operator),
        operators: state1.operators,
    };
    assert(filled.operators.last() == operator);
    assert(filled.operators.drop_last() =~= state1.operators);
    assert(pop_to_fence(filled) == pop_to_fence(closing));
    assert(closing.operators.last() == fence);
    assert(closing.operators.drop_last() =~= state.operators);
    assert(closing.output =~= state.output + formula.polish());
}

/// The tokens of a formula have the Polish order of the formula.
pub proof fn lemma_to_polish_tokens(formula: SpecExpr)
    ensures
        to_polish(formula.tokens()) == Ok::<Seq<SpecToken>, ParserErrorKind>(formula.polish()),
{
    let start = ShuntState { output: Seq::empty(), operators: Seq::empty() };
    lemma_shunt_tokens(start, formula);
    let end = landed(start, formula);
    if formula is Not {
        assert(end.operators.last() == SpecToken::Not);
        assert(end.operators.drop_last() =~= Seq::<SpecToken>::empty());
        assert(formula.polish().last() == SpecToken::Not);
        let emptied = ShuntState {
            output: end.output.push(SpecToken::Not),
            operators: Seq::empty(),
        };
        assert(drain(end) == drain(emptied));
        assert(emptied.output =~= formula.polish());
    } else {
        assert(end.output =~= formula.polish());
    }
}

/// The tokens of a formula parse to the formula.
pub proof fn lemma_parse_tokens(formula: SpecExpr)
    ensures
        parse(formula.tokens()) == Ok::<SpecExpr, ParserErrorKind>(formula),
{
    lemma_to_polish_tokens(formula);
    let polish = formula.polish();
    let chosen = choose|other: SpecExpr| #[trigger] other.polish() == polish;
    assert(Seq::<SpecToken>::empty() + chosen.polish() =~= chosen.polish());
    assert(Seq::<SpecToken>::empty() + formula.polish() =~= formula.polish());
    lemma_polish_unique(Seq::empty(), chosen, Seq::empty(), formula);
}

/// The rendered text of a formula with valid names lexes and parses back
/// to the formula.
pub proof fn lemma_render_parses_back(formula: SpecExpr)
    requires
        formula.valid_names(),
    ensures
        lex(formula.render()) == Ok::<Seq<SpecToken>, LexerErrorKind>(formula.tokens()),
        parse(formula.tokens()) == Ok::<SpecExpr, ParserErrorKind>(formula),
{
    lemma_lex_render(formula);
    lemma_parse_tokens(formula);
}


/// Both sequences of the state hold only valid names.
pub open spec fn valid_state(state: ShuntState) -> bool {
    valid_tokens(state.output) && valid_tokens(state.operators)
}

/// Moving the top of the stack to the output keeps the names valid.
proof fn lemma_valid_move(state: ShuntState)
    requires
        valid_state(state),
        state.operators.len() > 0,
    ensures
        valid_state(
            ShuntState {
                output: state.output.push(state.operators.last()),
                operators: state.operators.drop_last(),
            },
        ),
        valid_tokens(state.operators.drop_last()),
{
    let top = state.operators.last();
    let output = state.output.push(top);
    let operators = state.operators.drop_last();
    assert(state.operators[state.operators.len() - 1] == top);
    assert forall|i: int| 0 <= i < output.len() implies valid_token(#[trigger] output[i]) by {
        if i < state.output.len() {
            assert(output[i] == state.output[i]);
        }
    }
    assert forall|i: int| 0 <= i < operators.len() implies valid_token(#[trigger] operators[i]) by {
        assert(operators[i] == state.operators[i]);
    }
}

/// Closing a group keeps the names valid.
proof fn lemma_pop_to_fence_valid(state: ShuntState)
    requires
        valid_state(state),
        pop_to_fence(state) is Some,
    ensures
        valid_state(pop_to_fence(state)->0),
    decreases state.operators.len(),
{
    lemma_valid_move(state);
    if !(state.operators.last() is RBracket) {
        lemma_pop_to_fence_valid(
            ShuntState {
                output: state.output.push(state.operators.last()),
                operators: state.operators.drop_last(),
            },
        );
    }
}

/// Making way for an operator keeps the names valid.
proof fn lemma_pop_stronger_valid(state: ShuntState, token: SpecToken)
    requires
        valid_state(state),
    ensures
        valid_state(pop_stronger(state, token)),
    decreases state.operators.len(),
{
    if !(state.operators.len() == 0 || binding(state.operators.last()) < binding(token)) {
        lemma_valid_move(state);
        lemma_pop_stronger_valid(
            ShuntState {
                output: state.output.push(state.operators.last()),
                operators: state.operators.drop_last(),
            },
            token,
        );
    }
}

/// A token that is no variable, or a variable with a valid name, can be
/// added to tokens with valid names.
proof fn lemma_valid_push(tokens: Seq<SpecToken>, token: SpecToken)
    requires
        valid_tokens(tokens),
        valid_token(token),
    ensures
        valid_tokens(tokens.push(token)),
{
    let longer = tokens.push(token);
    assert forall|i: int| 0 <= i < longer.len() implies valid_token(#[trigger] longer[i]) by {
        if i < tokens.len() {
            assert(longer[i] == tokens[i]);
        }
    }
}

/// The conversion to Polish order moves tokens and makes none: from valid
/// names it yields valid names.
proof fn lemma_shunt_valid(state: ShuntState, tokens: Seq<SpecToken>)
    requires
        valid_state(state),
        valid_tokens(tokens),
        shunt(state, tokens) is Ok,
    ensures
        valid_state(shunt(state, tokens)->Ok_0),
    decreases tokens.len(),
{
    if tokens.len() > 0 {
        let token = tokens.last();
        assert(tokens[tokens.len() - 1] == token);
        let rest = tokens.drop_last();
        assert forall|i: int| 0 <= i < rest.len() implies valid_token(#[trigger] rest[i]) by {
            assert(rest[i] == tokens[i]);
        }
        let next = shunt_step(state, token)->Ok_0;
        match token {
            SpecToken::Var(_) => lemma_valid_push(state.output, token),
            SpecToken::RBracket => lemma_valid_push(state.operators, token),
            SpecToken::LBracket => lemma_pop_to_fence_valid(state),
            _ => {
                lemma_pop_stronger_valid(state, token);
                lemma_valid_push(pop_stronger(state, token).operators, token);
            },
        }
        lemma_shunt_valid(next, rest);
    }
}

/// Draining the stack keeps the names valid.
proof fn lemma_drain_valid(state: ShuntState)
    requires
        valid_state(state),
        drain(state) is Ok,
    ensures
        valid_tokens(drain(state)->Ok_0),
    decreases state.operators.len(),
{
    if state.operators.len() > 0 {
        lemma_valid_move(state);
        lemma_drain_valid(
            ShuntState {
                output: state.output.push(state.operators.last()),
                operators: state.operators.drop_last(),
            },
        );
    }
}

/// A formula whose Polish order holds only valid names has valid names.
proof fn lemma_polish_valid(formula: SpecExpr)
    requires
        valid_tokens(formula.polish()),
    ensures
        formula.valid_names(),
    decreases formula,
{
    let polish = formula.polish();
    match formula {
        SpecExpr::Var(name) => {
            assert(polish[0] == SpecToken::Var(name));
        },
        SpecExpr::Not(inner) => {
            assert forall|i: int| 0 <= i < inner.polish().len() implies valid_token(
                #[trigger] inner.polish()[i],
            ) by {
                assert(inner.polish()[i] == polish[i]);
            }
            lemma_polish_valid(*inner);
        },
        SpecExpr::And(left, right) => {
            assert(polish.drop_last() =~= right.polish() + left.polish());
            lemma_polish_valid_parts(polish, *left, *right);
            lemma_polish_valid(*left);
            lemma_polish_valid(*right);
        },
        SpecExpr::Or(left, right) => {
            assert(polish.drop_last() =~= right.polish() + left.polish());
            lemma_polish_valid_parts(polish, *left, *right);
            lemma_polish_valid(*left);
            lemma_polish_valid(*right);
        },
    }
}

/// The Polish orders of both sides of a conjunction or disjunction are
/// parts of its own.
proof fn lemma_polish_valid_parts(polish: Seq<SpecToken>, left: SpecExpr, right: SpecExpr)
    requires
        valid_tokens(polish),
        polish.len() == right.polish().len() + left.polish().len() + 1,
        polish.drop_last() == right.polish() + left.polish(),
    ensures
        valid_tokens(left.polish()),
        valid_tokens(right.polish()),
{
    let both = right.polish() + left.polish();
    assert forall|i: int| 0 <= i < left.polish().len() implies valid_token(
        #[trigger] left.polish()[i],
    ) by {
        assert(left.polish()[i] == both[right.polish().len() + i]);
        assert(both[right.polish().len() + i] == polish[right.polish().len() + i]);
    }
    assert forall|i: int| 0 <= i < right.polish().len() implies valid_token(
        #[trigger] right.polish()[i],
    ) by {
        assert(right.polish()[i] == both[i]);
        assert(both[i] == polish[i]);
    }
}

/// A formula parsed from tokens with valid names has valid names.
pub proof fn lemma_parse_valid_names(tokens: Seq<SpecToken>)
    requires
        valid_tokens(tokens),
        parse(tokens) is Ok,
    ensures
        parse(tokens)->Ok_0.valid_names(),
{
    let start = ShuntState { output: Seq::empty(), operators: Seq::empty() };
    lemma_shunt_valid(start, tokens);
    lemma_drain_valid(shunt(start, tokens)->Ok_0);
    lemma_polish_valid(parse(tokens)->Ok_0);
}

/// The scanner keeps only valid names.
proof fn lemma_scan_valid(state: ScanState, text: Seq<char>)
    requires
        valid_tokens(state.tokens),
        state.pending matches Some(name) ==> valid_name(name),
        scan(state, text) is Ok,
    ensures
        valid_tokens(scan(state, text)->Ok_0.tokens),
        scan(state, text)->Ok_0.pending matches Some(name) ==> valid_name(name),
    decreases text.len(),
{
    if text.len() > 0 {
        let c = text[0];
        let next = scan_step(state, c)->Ok_0;
        match state.pending {
            None => {
                if symbol_token(c) is Some {
                    lemma_valid_push(state.tokens, symbol_token(c)->0);
                }
            },
            Some(name) => {
                lemma_valid_push(state.tokens, SpecToken::Var(name));
                if c == '&' || c == '|' || c == ')' {
                    lemma_valid_push(flush(state), symbol_token(c)->0);
                } else if is_var_char(c) {
                    let longer = name.push(c);
                    assert forall|i: int| 0 <= i < longer.len() implies is_var_char(
                        #[trigger] longer[i],
                    ) by {
                        if i < name.len() {
                            assert(longer[i] == name[i]);
                        }
                    }
                }
            },
        }
        lemma_scan_valid(next, text.drop_first());
    }
}

/// The tokens of a text carry valid names.
pub proof fn lemma_lex_valid(text: Seq<char>)
    requires
        lex(text) is Ok,
    ensures
        valid_tokens(lex(text)->Ok_0),
{
    let start = ScanState { tokens: Seq::empty(), pending: None };
    lemma_scan_valid(start, text);
    let end = scan(start, text)->Ok_0;
    if end.pending is Some {
        lemma_valid_push(end.tokens, SpecToken::Var(end.pending->0));
    }
}

/// A text that lexes and parses is parsed to the same formula again after
/// the formula is rendered: the second rendering equals the first.
pub proof fn lemma_text_roundtrip(text: Seq<char>)
    requires
        lex(text) is Ok,
        parse(lex(text)->Ok_0) is Ok,
    ensures
        lex(parse(lex(text)->Ok_0)->Ok_0.render()) is Ok,
        parse(lex(parse(lex(text)->Ok_0)->Ok_0.render())->Ok_0) == parse(lex(text)->Ok_0),
{
    lemma_lex_valid(text);
    lemma_parse_render_roundtrip(lex(text)->Ok_0);
}

/// Parsing, rendering, lexing and parsing again gives the formula of the
/// first parse, and so the same rendered text: for every token sequence
/// with valid names that parses, the text of its formula lexes, and the
/// tokens of that text parse to the same formula.
pub proof fn lemma_parse_render_roundtrip(tokens: Seq<SpecToken>)
    requires
        valid_tokens(tokens),
        parse(tokens) is Ok,
    ensures
        lex(parse(tokens)->Ok_0.render()) is Ok,
        parse(lex(parse(tokens)->Ok_0.render())->Ok_0) == parse(tokens),
{
    let formula = parse(tokens)->Ok_0;
    lemma_parse_valid_names(tokens);
    lemma_render_parses_back(formula);
}

} // verus!
