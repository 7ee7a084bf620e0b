use satsolver::lexer::{get_tokens, LexerError, LexerErrorKind, Token, TokenStream};

fn render(stream: &TokenStream) -> Vec<String> {
    stream
        .iter()
        .map(|token| match token {
            Token::AndOperator => String::from("&"),
            Token::OrOperator => String::from("|"),
            Token::NotOperator => String::from("!"),
            Token::LBracket => String::from("("),
            Token::RBracket => String::from(")"),
            Token::Var(name) => name.clone(),
        })
        .collect()
}

fn lex(text: &str) -> Vec<String> {
    render(&get_tokens(String::from(text)).unwrap())
}

fn lex_error(text: &str) -> LexerError {
    match get_tokens(String::from(text)) {
        Ok(_) => panic!("expected a lexical error"),
        Err(error) => error,
    }
}

#[test]
fn token_stream_starts_empty() {
    let mut stream = TokenStream::new();
    assert_eq!(stream.iter().count(), 0);
    assert!(stream.last().is_none());
    assert!(stream.pop().is_none());
}

#[test]
fn token_stream_is_a_stack() {
    let mut stream = TokenStream::new();
    stream.push(Token::LBracket);
    stream.push(Token::Var(String::from("A")));
    stream.push(Token::RBracket);
    assert_eq!(render(&stream), vec!["(", "A", ")"]);
    assert!(matches!(stream.last(), Some(Token::RBracket)));
    assert_eq!(render(&stream), vec!["(", "A", ")"]);
    assert!(matches!(stream.pop(), Some(Token::RBracket)));
    assert!(matches!(stream.pop(), Some(Token::Var(name)) if name == "A"));
    assert_eq!(render(&stream), vec!["("]);
    assert!(matches!(stream.pop(), Some(Token::LBracket)));
    assert!(stream.pop().is_none());
}

#[test]
fn lexes_operators_and_brackets() {
    assert_eq!(lex("&|!()"), vec!["&", "|", "!", "(", ")"]);
}

#[test]
fn lexes_empty_text() {
    assert_eq!(lex(""), Vec::<String>::new());
    assert_eq!(lex("   "), Vec::<String>::new());
}

#[test]
fn lexes_precedence_example() {
    assert_eq!(lex("A|B&C"), vec!["A", "|", "B", "&", "C"]);
}

#[test]
fn adjacent_letters_form_one_name() {
    assert_eq!(lex("foo&Bar"), vec!["foo", "&", "Bar"]);
    assert_eq!(lex("xyz"), vec!["xyz"]);
}

#[test]
fn blank_ends_a_name() {
    assert_eq!(lex("a b"), vec!["a", "b"]);
    assert_eq!(lex(" a  |  b "), vec!["a", "|", "b"]);
}

#[test]
fn closing_bracket_ends_a_name() {
    assert_eq!(lex("(ab)"), vec!["(", "ab", ")"]);
}

#[test]
fn name_at_the_end_is_kept() {
    assert_eq!(lex("!(p|q)&r"), vec!["!", "(", "p", "|", "q", ")", "&", "r"]);
}

#[test]
fn letters_at_the_range_ends_are_names() {
    assert_eq!(lex("A Z a z"), vec!["A", "Z", "a", "z"]);
}

#[test]
fn unknown_character_is_reported() {
    let error = lex_error("A#B");
    assert_eq!(error.kind, LexerErrorKind::UnknownToken('#'));
    assert_eq!(error.to_string(), "Unknown Token: #");
}

#[test]
fn first_unknown_character_wins() {
    assert_eq!(lex_error("A & 1 | ?").kind, LexerErrorKind::UnknownToken('1'));
    assert_eq!(lex_error("?1").kind, LexerErrorKind::UnknownToken('?'));
}

#[test]
fn non_letters_between_the_cases_are_unknown() {
    assert_eq!(lex_error("[").kind, LexerErrorKind::UnknownToken('['));
    assert_eq!(lex_error("a_b").kind, LexerErrorKind::UnknownToken('_'));
    assert_eq!(lex_error("@").kind, LexerErrorKind::UnknownToken('@'));
    assert_eq!(lex_error("{").kind, LexerErrorKind::UnknownToken('{'));
}

#[test]
fn tab_and_newline_are_unknown() {
    assert_eq!(lex_error("A\tB").kind, LexerErrorKind::UnknownToken('\t'));
    assert_eq!(lex_error("A\n").kind, LexerErrorKind::UnknownToken('\n'));
}

#[test]
fn name_before_not_is_malformed() {
    let error = lex_error("A!B");
    assert_eq!(error.kind, LexerErrorKind::MalformedFormula);
    assert_eq!(error.to_string(), "Malformed Formula");
}

#[test]
fn name_before_opening_bracket_is_malformed() {
    assert_eq!(lex_error("A(B)").kind, LexerErrorKind::MalformedFormula);
}

#[test]
fn not_after_blank_is_accepted() {
    assert_eq!(lex("A !B"), vec!["A", "!", "B"]);
}

#[test]
fn token_text() {
    assert_eq!(Token::AndOperator.to_string(), "&");
    assert_eq!(Token::OrOperator.to_string(), "|");
    assert_eq!(Token::NotOperator.to_string(), "!");
    assert_eq!(Token::LBracket.to_string(), "(");
    assert_eq!(Token::RBracket.to_string(), ")");
    assert_eq!(Token::Var(String::from("abc")).to_string(), "abc");
}

#[test]
fn token_stream_text_quotes_each_token() {
    let stream = get_tokens(String::from("(ab & !c)")).unwrap();
    assert_eq!(stream.to_string(), "'(' 'ab' '&' '!' 'c' ')' ");
    assert_eq!(TokenStream::new().to_string(), "");
}
