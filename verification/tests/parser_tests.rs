use satsolver::lexer::{get_tokens, Token, TokenStream};
use satsolver::parser::{run_parser, Expression, ParserErrorKind};

fn tokens(text: &str) -> TokenStream {
    get_tokens(String::from(text)).unwrap()
}

fn parse(text: &str) -> Expression {
    run_parser(tokens(text)).unwrap()
}

fn parse_error(text: &str) -> ParserErrorKind {
    match run_parser(tokens(text)) {
        Ok(_) => panic!("expected a parse error"),
        Err(error) => error.kind,
    }
}

fn show(stream: &TokenStream) -> String {
    let texts: Vec<String> = stream
        .iter()
        .map(|token| match token {
            Token::AndOperator => String::from("&"),
            Token::OrOperator => String::from("|"),
            Token::NotOperator => String::from("!"),
            Token::LBracket => String::from("("),
            Token::RBracket => String::from(")"),
            Token::Var(name) => name.clone(),
        })
        .collect();
    texts.join(" ")
}

fn var(name: &str) -> Expression {
    Expression::Var(String::from(name))
}

fn not(inner: Expression) -> Expression {
    Expression::Not(Box::new(inner))
}

fn and(left: Expression, right: Expression) -> Expression {
    Expression::And(Box::new(left), Box::new(right))
}

fn or(left: Expression, right: Expression) -> Expression {
    Expression::Or(Box::new(left), Box::new(right))
}

#[test]
fn renders_variable() {
    assert_eq!(var("abc").to_string(), "abc");
}

#[test]
fn renders_negation_without_brackets() {
    assert_eq!(not(var("A")).to_string(), "!A");
    assert_eq!(not(not(var("A"))).to_string(), "!!A");
    assert_eq!(not(and(var("A"), var("B"))).to_string(), "!(A & B)");
}

#[test]
fn renders_binary_in_full_brackets() {
    assert_eq!(and(var("A"), var("B")).to_string(), "(A & B)");
    assert_eq!(or(var("A"), var("B")).to_string(), "(A | B)");
    assert_eq!(
        or(var("A"), and(not(var("B")), var("C"))).to_string(),
        "(A | (!B & C))"
    );
}

#[test]
fn clone_keeps_the_formula() {
    let formula = or(var("A"), and(not(var("B")), var("C")));
    assert_eq!(formula.clone().to_string(), formula.to_string());
}

#[test]
fn precedence_of_tokens() {
    assert_eq!(Token::RBracket.precedence(), 0);
    assert_eq!(Token::OrOperator.precedence(), 1);
    assert_eq!(Token::AndOperator.precedence(), 2);
    assert_eq!(Token::NotOperator.precedence(), 3);
}

#[test]
fn polish_order_of_a_conjunction() {
    let polish = tokens("A&B").polish_notation().unwrap();
    assert_eq!(show(&polish), "B A &");
}

#[test]
fn polish_order_respects_precedence() {
    let polish = tokens("A|B&C").polish_notation().unwrap();
    assert_eq!(show(&polish), "C B & A |");
    let polish = tokens("A&B|C").polish_notation().unwrap();
    assert_eq!(show(&polish), "C B A & |");
}

#[test]
fn polish_order_drops_brackets() {
    let polish = tokens("(A|B)&!C").polish_notation().unwrap();
    assert_eq!(show(&polish), "C ! B A | &");
}

#[test]
fn polish_order_of_nothing_is_empty() {
    let polish = tokens("").polish_notation().unwrap();
    assert_eq!(polish.iter().count(), 0);
}

#[test]
fn expression_from_polish_order() {
    let mut stream = TokenStream::new();
    stream.push(Token::Var(String::from("B")));
    stream.push(Token::Var(String::from("A")));
    stream.push(Token::AndOperator);
    assert_eq!(stream.expression().unwrap().to_string(), "(A & B)");
}

#[test]
fn take_expression_leaves_the_rest() {
    let mut stream = TokenStream::new();
    stream.push(Token::Var(String::from("C")));
    stream.push(Token::Var(String::from("B")));
    stream.push(Token::Var(String::from("A")));
    stream.push(Token::NotOperator);
    assert_eq!(stream.take_expression().unwrap().to_string(), "!A");
    assert_eq!(show(&stream), "C B");
}

#[test]
fn take_expression_on_empty_is_malformed() {
    let mut stream = TokenStream::new();
    let error = stream.take_expression().err().unwrap();
    assert_eq!(error.kind, ParserErrorKind::MalformedFormula);
}

#[test]
fn expression_with_leftover_is_malformed() {
    let mut stream = TokenStream::new();
    stream.push(Token::Var(String::from("B")));
    stream.push(Token::Var(String::from("A")));
    let error = stream.expression().err().unwrap();
    assert_eq!(error.kind, ParserErrorKind::MalformedFormula);
}

#[test]
fn parses_single_variable() {
    assert_eq!(parse("A").to_string(), "A");
}

#[test]
fn and_binds_tighter_than_or() {
    assert_eq!(parse("A|B&C").to_string(), "(A | (B & C))");
    assert_eq!(parse("A|B&C").to_string(), parse("A|(B&C)").to_string());
    assert_eq!(parse("A&B|C").to_string(), "((A & B) | C)");
}

#[test]
fn not_binds_tightest() {
    assert_eq!(parse("!A&B").to_string(), "(!A & B)");
    assert_eq!(parse("!A|!B").to_string(), "(!A | !B)");
    assert_eq!(parse("!(A&B)").to_string(), "!(A & B)");
    assert_eq!(parse("!!A").to_string(), "!!A");
}

#[test]
fn equal_operators_group_to_the_right() {
    assert_eq!(parse("A&B&C").to_string(), "(A & (B & C))");
    assert_eq!(parse("A|B|C").to_string(), "(A | (B | C))");
    assert_eq!(parse("A&B&C&D").to_string(), "(A & (B & (C & D)))");
}

#[test]
fn brackets_override_precedence() {
    assert_eq!(parse("(A|B)&C").to_string(), "((A | B) & C)");
    assert_eq!(parse("((A))").to_string(), "A");
}

#[test]
fn missing_closing_bracket() {
    assert_eq!(parse_error("(A&B"), ParserErrorKind::MissingClosingBracket);
    let error = run_parser(tokens("(A&B")).err().unwrap();
    assert_eq!(error.to_string(), "Missing )");
}

#[test]
fn missing_opening_bracket() {
    assert_eq!(parse_error("A&B)"), ParserErrorKind::MissingOpeningBracket);
    let error = run_parser(tokens("A&B)")).err().unwrap();
    assert_eq!(error.to_string(), "Missing (");
}

#[test]
fn empty_formula_is_malformed() {
    assert_eq!(parse_error(""), ParserErrorKind::MalformedFormula);
    let error = run_parser(tokens("")).err().unwrap();
    assert_eq!(error.to_string(), "Malformed Formula");
}

#[test]
fn missing_operand_is_malformed() {
    assert_eq!(parse_error("A&"), ParserErrorKind::MalformedFormula);
    assert_eq!(parse_error("&"), ParserErrorKind::MalformedFormula);
    assert_eq!(parse_error("!"), ParserErrorKind::MalformedFormula);
    assert_eq!(parse_error("()"), ParserErrorKind::MalformedFormula);
}

#[test]
fn trailing_tokens_are_malformed() {
    assert_eq!(parse_error("A B"), ParserErrorKind::MalformedFormula);
    assert_eq!(parse_error("(A&B)(C|D)"), ParserErrorKind::MalformedFormula);
}

#[test]
fn bracket_error_comes_before_malformed() {
    assert_eq!(parse_error("(A B"), ParserErrorKind::MissingClosingBracket);
    assert_eq!(parse_error("A B)"), ParserErrorKind::MissingOpeningBracket);
}

#[test]
fn render_and_parse_again_is_stable() {
    for text in ["A", "!A", "A|B&C", "!(A|B)&!!C", "(p|q)&(r|!s)&t", "a&b&c|d"] {
        let first = parse(text).to_string();
        let second = parse(&first).to_string();
        assert_eq!(second, first);
    }
}

#[test]
fn failed_take_expression_leaves_nothing() {
    let mut stream = TokenStream::new();
    stream.push(Token::Var(String::from("C")));
    stream.push(Token::Var(String::from("A")));
    stream.push(Token::AndOperator);
    stream.push(Token::OrOperator);
    let error = stream.take_expression().err().unwrap();
    assert_eq!(error.kind, ParserErrorKind::MalformedFormula);
    assert_eq!(stream.iter().count(), 0);
}
