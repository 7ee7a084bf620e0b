//! Tokens of the formula language and the scanner that produces them.
use vstd::prelude::*;
use vstd::std_specs::iter::IteratorSpec;

verus! {

/// One symbol of a formula.
#[derive(Debug)]
pub enum Token {
    AndOperator,
    OrOperator,
    NotOperator,
    LBracket,
    RBracket,
    Var(String),
}

/// Mathematical model of a [`Token`]: a variable carries its name as a
/// sequence of characters.
pub enum SpecToken {
    And,
    Or,
    Not,
    LBracket,
    RBracket,
    Var(Seq<char>),
}

impl View for Token {
    type V = SpecToken;

    /// The token with its name as a sequence of characters.
    open spec fn view(&self) -> SpecToken {
        match self {
            Token::AndOperator => SpecToken::And,
            Token::OrOperator => SpecToken::Or,
            Token::NotOperator => SpecToken::Not,
            Token::LBracket => SpecToken::LBracket,
            Token::RBracket => SpecToken::RBracket,
            Token::Var(name) => SpecToken::Var(name@),
        }
    }
}

impl DeepView for Token {
    type V = SpecToken;

    /// The same as the view.
    open spec fn deep_view(&self) -> SpecToken {
        self@
    }
}

impl SpecToken {
    /// The text of the token: the symbol of an operator or bracket, the
    /// name of a variable.
    pub open spec fn text(self) -> Seq<char> {
        match self {
            SpecToken::And => seq!['&'],
            SpecToken::Or => seq!['|'],
            SpecToken::Not => seq!['!'],
            SpecToken::LBracket => seq!['('],
            SpecToken::RBracket => seq![')'],
            SpecToken::Var(name) => name,
        }
    }
}

/// The texts of the tokens in order, each between single quotes and
/// followed by a blank.
pub open spec fn quoted(tokens: Seq<SpecToken>) -> Seq<char>
    decreases tokens.len(),
{
    if tokens.len() == 0 {
        Seq::empty()
    } else {
        quoted(tokens.drop_last()) + seq!['\''] + tokens.last().text() + seq!['\'', ' ']
    }
}

impl Token {
    /// The text of the token.
    pub fn to_string(&self) -> (text: String)
        ensures
            text@ == self@.text(),
    {
        proof {
            reveal_strlit("&");
            reveal_strlit("|");
            reveal_strlit("!");
            reveal_strlit("(");
            reveal_strlit(")");
        }
        let text = match self {
            Token::AndOperator => String::from_str("&"),
            Token::OrOperator => String::from_str("|"),
            Token::NotOperator => String::from_str("!"),
            Token::LBracket => String::from_str("("),
            Token::RBracket => String::from_str(")"),
            Token::Var(name) => name.clone(),
        };
        assert(text@ =~= self@.text());
        text
    }
}

/// An ordered sequence of tokens, used as a stack: tokens are added and
/// removed at its end.
pub struct TokenStream(Vec<Token>);

impl View for TokenStream {
    type V = Seq<SpecToken>;

    /// The tokens from first to last.
    closed spec fn view(&self) -> Seq<SpecToken> {
        self.0.deep_view()
    }
}

impl TokenStream {
    /// The tokens from first to last.
    pub fn iter(&self) -> (it: core::slice::Iter<'_, Token>)
        ensures
            it.remaining().len() == self@.len(),
            forall|i: int| 0 <= i < self@.len() ==> (#[trigger] it.remaining()[i])@ == self@[i],
    {
        self.0.iter()
    }

    /// The tokens as a line of text, each in single quotes.
    pub fn to_string(&self) -> (text: String)
        ensures
            text@ == quoted(self@),
    {
        let mut text = String::new();
        let mut index: usize = 0;
        proof {
            reveal_strlit("'");
            reveal_strlit("' ");
            assert(self@.take(0) =~= Seq::<SpecToken>::empty());
        }
        while index < self.0.len()
            invariant
                index <= self.0.len(),
                self.0.len() == self@.len(),
                text@ == quoted(self@.take(index as int)),
                "'"@ == seq!['\''],
                "' "@ == seq!['\'', ' '],
            decreases self.0.len() - index,
        {
            let token = self.0[index].to_string();
            proof {
                let next = self@.take(index + 1);
                assert(next.drop_last() =~= self@.take(index as int));
                assert(next.last() == self.0[index as int]@);
            }
            text.append("'");
            text.append(token.as_str());
            text.append("' ");
            index += 1;
        }
        assert(self@.take(self@.len() as int) =~= self@);
        text
    }

    /// Adds a token at the end.
    pub fn push(&mut self, token: Token)
        ensures
            final(self)@ == old(self)@.push(token@),
    {
        self.0.push(token);
        assert(self.0.deep_view() =~= old(self).0.deep_view().push(token@));
    }

    /// Removes the last token and returns it, if there is one.
    pub fn pop(&mut self) -> (token: Option<Token>)
        ensures
            old(self)@.len() == 0 ==> token is None && final(self)@ == old(self)@,
            old(self)@.len() > 0 ==> token is Some && token->0@ == old(self)@.last()
                && final(self)@ == old(self)@.drop_last(),
    {
        let token = self.0.pop();
        assert(old(self)@.len() > 0 ==> self.0.deep_view() =~= old(self).0.deep_view().drop_last());
        token
    }

    /// A sequence without tokens.
    pub fn new() -> (stream: TokenStream)
        ensures
            stream@ == Seq::<SpecToken>::empty(),
    {
        let stream = TokenStream(Vec::new());
        assert(stream.0.deep_view() =~= Seq::<SpecToken>::empty());
        stream
    }

    /// The last token, if there is one; the sequence is not changed.
    pub fn last(&mut self) -> (token: Option<&Token>)
        ensures
            final(self)@ == old(self)@,
            old(self)@.len() == 0 ==> token is None,
            old(self)@.len() > 0 ==> token is Some && token->0@ == old(self)@.last(),
    {
        self.0.last()
    }
}

/// Why a formula text could not be tokenised.
#[derive(Debug, Clone, Copy, PartialEq, Eq, Structural)]
pub enum LexerErrorKind {
    /// A character that is neither an operator, a bracket, a blank nor a
    /// letter; it is carried along.
    UnknownToken(char),
    /// A variable name directly followed by `!` or `(`.
    MalformedFormula,
}

/// Failure of [`get_tokens`].
#[derive(Debug)]
pub struct LexerError {
    pub kind: LexerErrorKind,
}

impl LexerError {
    /// The text of the message for this error.
    pub open spec fn message(&self) -> Seq<char> {
        match self.kind {
            LexerErrorKind::UnknownToken(c) => "Unknown Token: "@.push(c),
            LexerErrorKind::MalformedFormula => "Malformed Formula"@,
        }
    }

    /// Human-readable cause of the failure.
    pub fn to_string(&self) -> (text: String)
        ensures
            text@ == self.message(),
    {
        match self.kind {
            LexerErrorKind::UnknownToken(c) => {
                let mut text = String::from_str("Unknown Token: ");
                push_char(&mut text, c);
                text
            },
            LexerErrorKind::MalformedFormula => String::from_str("Malformed Formula"),
        }
    }
}

/// Calls `String::push` of the standard library, which appends the
/// character at the end of the string. Believed, not proved: afterwards the
/// string holds what it held before, followed by `c`.
#[verifier::external_body]
pub(crate) fn push_char(text: &mut String, c: char)
    ensures
        final(text)@ == old(text)@.push(c),
{
    text.push(c);
}

/// Characters a variable name is made of: the upper-case and lower-case
/// letters.
pub open spec fn is_var_char(c: char) -> bool {
    ('A' <= c && c <= 'Z') || ('a' <= c && c <= 'z')
}

/// What the scanner has seen so far: the finished tokens and the variable
/// name it is in the middle of, if any.
pub struct ScanState {
    pub tokens: Seq<SpecToken>,
    pub pending: Option<Seq<char>>,
}

/// The tokens of a scan state once a pending variable name is closed.
pub open spec fn flush(state: ScanState) -> Seq<SpecToken> {
    match state.pending {
        Some(name) => state.tokens.push(SpecToken::Var(name)),
        None => state.tokens,
    }
}

/// The token a single operator or bracket character stands for.
pub open spec fn symbol_token(c: char) -> Option<SpecToken> {
    if c == '&' {
        Some(SpecToken::And)
    } else if c == '|' {
        Some(SpecToken::Or)
    } else if c == '!' {
        Some(SpecToken::Not)
    } else if c == '(' {
        Some(SpecToken::LBracket)
    } else if c == ')' {
        Some(SpecToken::RBracket)
    } else {
        None
    }
}

/// One step of the scanner on character `c`.
///
/// Outside a name, an operator or bracket becomes its token, a blank is
/// skipped and a letter opens a name. Inside a name, a letter extends it;
/// `&`, `|`, `)` and the blank close it (the first three also yield their
/// own token); `!` and `(` are malformed. Any other character is unknown.
pub open spec fn scan_step(state: ScanState, c: char) -> Result<ScanState, LexerErrorKind> {
    match state.pending {
        None => {
            if symbol_token(c) is Some {
                Ok(ScanState { tokens: state.tokens.push(symbol_token(c)->0), pending: None })
            } else if c == ' ' {
                Ok(state)
            } else if is_var_char(c) {
                Ok(ScanState { tokens: state.tokens, pending: Some(seq![c]) })
            } else {
                Err(LexerErrorKind::UnknownToken(c))
            }
        },
        Some(name) => {
            if c == '&' || c == '|' || c == ')' {
                Ok(ScanState { tokens: flush(state).push(symbol_token(c)->0), pending: None })
            } else if c == ' ' {
                Ok(ScanState { tokens: flush(state), pending: None })
            } else if is_var_char(c) {
                Ok(ScanState { tokens: state.tokens, pending: Some(name.push(c)) })
            } else if c == '!' || c == '(' {
                Err(LexerErrorKind::MalformedFormula)
            } else {
                Err(LexerErrorKind::UnknownToken(c))
            }
        },
    }
}

/// The scanner run over `text` from `state`, left to right; it stops at the
/// first character that fails.
pub open spec fn scan(state: ScanState, text: Seq<char>) -> Result<ScanState, LexerErrorKind>
    decreases text.len(),
{
    if text.len() == 0 {
        Ok(state)
    } else {
        match scan_step(state, text[0]) {
            Ok(next) => scan(next, text.drop_first()),
            Err(kind) => Err(kind),
        }
    }
}

/// The token sequence of a formula text, or the reason it has none.
pub open spec fn lex(text: Seq<char>) -> Result<Seq<SpecToken>, LexerErrorKind> {
    match scan(ScanState { tokens: Seq::empty(), pending: None }, text) {
        Ok(state) => Ok(flush(state)),
        Err(kind) => Err(kind),
    }
}

/// Where the scanner stands: between two tokens, or inside a variable
/// name of which it holds the beginning.
enum LexerState {
    Ready,
    InVar(String),
}

impl LexerState {
    /// The beginning of the name that the scanner is in, if any.
    spec fn pending(&self) -> Option<Seq<char>> {
        match self {
            LexerState::Ready => None,
            LexerState::InVar(name) => Some(name@),
        }
    }
}

/// Splits a formula text into tokens.
///
/// Succeeds with exactly the tokens of [`lex`], and fails with the error
/// kind [`lex`] gives for the first offending character.
pub fn get_tokens(formula: String) -> (result: Result<TokenStream, LexerError>)
    ensures
        match lex(formula@) {
            Ok(tokens) => result is Ok && result->Ok_0@ == tokens,
            Err(kind) => result is Err && result->Err_0.kind == kind,
        },
{
    let mut stream = TokenStream::new();
    let mut state = LexerState::Ready;
    let ghost start = ScanState { tokens: Seq::empty(), pending: None };
    assert(formula@.skip(0) =~= formula@);

    for c in it: formula.as_str().chars()
        invariant
            it.seq() == formula@,
            start == (ScanState { tokens: Seq::empty(), pending: None }),
            scan(start, formula@) == scan(
                ScanState { tokens: stream@, pending: state.pending() },
                formula@.skip(it.index() as int),
            ),
    {
        let ghost before = ScanState { tokens: stream@, pending: state.pending() };
        let ghost rest = formula@.skip(it.index() as int);
        proof {
            assert(rest[0] == c);
            assert(rest.drop_first() =~= formula@.skip(it.index() + 1));
        }
        match state {
            LexerState::Ready => {
                if c == '&' {
                    stream.push(Token::AndOperator);
                } else if c == '|' {
                    stream.push(Token::OrOperator);
                } else if c == '!' {
                    stream.push(Token::NotOperator);
                } else if c == '(' {
                    stream.push(Token::LBracket);
                } else if c == ')' {
                    stream.push(Token::RBracket);
                } else if c == ' ' {
                } else if is_var_char_exec(c) {
                    let mut name = String::new();
                    push_char(&mut name, c);
                    assert(name@ =~= seq![c]);
                    state = LexerState::InVar(name);
                } else {
                    assert(scan(before, rest) == Err::<ScanState, LexerErrorKind>(
                        LexerErrorKind::UnknownToken(c),
                    ));
                    return Err(LexerError { kind: LexerErrorKind::UnknownToken(c) });
                }
            },
            LexerState::InVar(name) => {
                if c == '&' || c == '|' || c == ')' || c == ' ' {
                    stream.push(Token::Var(name));
                    if c == '&' {
                        stream.push(Token::AndOperator);
                    } else if c == '|' {
                        stream.push(Token::OrOperator);
                    } else if c == ')' {
                        stream.push(Token::RBracket);
                    }
                    state = LexerState::Ready;
                } else if is_var_char_exec(c) {
                    let mut name = name;
                    push_char(&mut name, c);
                    state = LexerState::InVar(name);
                } else if c == '!' || c == '(' {
                    assert(scan(before, rest) == Err::<ScanState, LexerErrorKind>(
                        LexerErrorKind::MalformedFormula,
                    ));
                    return Err(LexerError { kind: LexerErrorKind::MalformedFormula });
                } else {
                    assert(scan(before, rest) == Err::<ScanState, LexerErrorKind>(
                        LexerErrorKind::UnknownToken(c),
                    ));
                    return Err(LexerError { kind: LexerErrorKind::UnknownToken(c) });
                }
            },
        }
        assert(scan_step(before, c) == Ok::<ScanState, LexerErrorKind>(
            ScanState { tokens: stream@, pending: state.pending() },
        ));
    }

    proof {
        assert(formula@.skip(formula@.len() as int).len() == 0);
    }
    if let LexerState::InVar(name) = state {
        stream.push(Token::Var(name));
    }
    Ok(stream)
}

/// Whether `c` is a letter.
fn is_var_char_exec(c: char) -> (letter: bool)
    ensures
        letter == is_var_char(c),
{
    (c >= 'A' && c <= 'Z') || (c >= 'a' && c <= 'z')
}

} // verus!
