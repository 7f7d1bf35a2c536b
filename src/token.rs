use vstd::prelude::*;
use vstd::string::StringExecFns;

verus! {

#[verifier::external_type_specification]
pub struct ExNmlSpan(namelist::tokenizer::Span);

#[verifier::external_type_specification]
pub struct ExNmlToken(namelist::tokenizer::Token);

#[verifier::external_type_specification]
pub struct ExNmlLocatedToken(namelist::tokenizer::LocatedToken);

#[verifier::external_type_specification]
pub struct ExNmlNamelist(namelist::Namelist);

/// Location of a token in the source: byte offset and byte length, 0-based line and column.
#[derive(Clone, Copy, Debug, PartialEq, Eq, Structural)]
pub struct SourceSpan {
    pub lo: usize,
    pub len: usize,
    pub line: usize,
    pub column: usize,
}

/// The category of a token.
#[derive(Clone, Copy, Debug, PartialEq, Eq, Structural)]
pub enum TokenKind {
    LeftBracket,
    RightBracket,
    Equals,
    Colon,
    Comma,
    RightSlash,
    Ampersand,
    NewLine,
    QuotedStr,
    Bool,
    Whitespace,
    Identifier,
    Number,
    Comment,
}

/// A lexical unit: its category and its literal text, kept as written.
#[derive(Clone, Debug, PartialEq, Eq)]
pub struct Lexeme {
    pub kind: TokenKind,
    pub text: String,
}

/// A token with the place it was read from (none for a token added by an edit).
#[derive(Clone, Debug, PartialEq, Eq)]
pub struct LocatedLexeme {
    pub span: Option<SourceSpan>,
    pub token: Lexeme,
}

impl View for Lexeme {
    type V = (TokenKind, Seq<char>);

    open spec fn view(&self) -> (TokenKind, Seq<char>) {
        (self.kind, self.text@)
    }
}

/// What a located token holds: its place, its kind and its text.
pub type LexView = (Option<SourceSpan>, TokenKind, Seq<char>);

impl View for LocatedLexeme {
    type V = LexView;

    open spec fn view(&self) -> LexView {
        (self.span, self.token.kind, self.token.text@)
    }
}

pub open spec fn lexemes_view(ts: Seq<LocatedLexeme>) -> Seq<LexView> {
    ts.map_values(|t: LocatedLexeme| t@)
}

/// Concatenated literal text of a token sequence.
pub open spec fn view_text(ts: Seq<LexView>) -> Seq<char>
    decreases ts.len(),
{
    if ts.len() == 0 {
        Seq::empty()
    } else {
        view_text(ts.drop_last()) + ts.last().2
    }
}

/// Kind and text of a token of the namelist crate, as its `Display` prints it.
pub open spec fn nml_token_view(t: namelist::tokenizer::Token) -> (TokenKind, Seq<char>) {
    match t {
        namelist::tokenizer::Token::LeftBracket => (TokenKind::LeftBracket, seq!['(']),
        namelist::tokenizer::Token::RightBracket => (TokenKind::RightBracket, seq![')']),
        namelist::tokenizer::Token::Equals => (TokenKind::Equals, seq!['=']),
        namelist::tokenizer::Token::Colon => (TokenKind::Colon, seq![':']),
        namelist::tokenizer::Token::Comma => (TokenKind::Comma, seq![',']),
        namelist::tokenizer::Token::RightSlash => (TokenKind::RightSlash, seq!['/']),
        namelist::tokenizer::Token::Ampersand => (TokenKind::Ampersand, seq!['&']),
        namelist::tokenizer::Token::NewLine => (TokenKind::NewLine, seq!['\n']),
        namelist::tokenizer::Token::QuotedStr(s) => (TokenKind::QuotedStr, s@),
        namelist::tokenizer::Token::Bool(s) => (TokenKind::Bool, s@),
        namelist::tokenizer::Token::Whitespace(s) => (TokenKind::Whitespace, s@),
        namelist::tokenizer::Token::Identifier(s) => (TokenKind::Identifier, s@),
        namelist::tokenizer::Token::Number(s) => (TokenKind::Number, s@),
        namelist::tokenizer::Token::Comment(s) => (TokenKind::Comment, s@),
    }
}

/// Concatenated text of a token sequence of the namelist crate.
pub open spec fn nml_tokens_text(ts: Seq<namelist::tokenizer::LocatedToken>) -> Seq<char>
    decreases ts.len(),
{
    if ts.len() == 0 {
        Seq::empty()
    } else {
        nml_tokens_text(ts.drop_last()) + nml_token_view(ts.last().token).1
    }
}

/// What a located token of the namelist crate holds, in this library's terms.
pub open spec fn nml_lex_view(t: namelist::tokenizer::LocatedToken) -> LexView {
    (
        match t.span {
            Some(s) => Some(span_of_nml(s)),
            None => None,
        },
        nml_token_view(t.token).0,
        nml_token_view(t.token).1,
    )
}

pub open spec fn span_of_nml(s: namelist::tokenizer::Span) -> SourceSpan {
    SourceSpan { lo: s.lo, len: s.len, line: s.line, column: s.column }
}

pub fn span_from_nml(s: namelist::tokenizer::Span) -> (r: SourceSpan)
    ensures
        r == span_of_nml(s),
{
    SourceSpan { lo: s.lo, len: s.len, line: s.line, column: s.column }
}

fn fixed(kind: TokenKind, text: &str) -> (r: Lexeme)
    ensures
        r@ == (kind, text@),
{
    Lexeme { kind, text: String::from_str(text) }
}

/// Takes a token of the namelist crate over into this library's form.
pub fn token_from_nml(t: namelist::tokenizer::Token) -> (r: Lexeme)
    ensures
        r@ == nml_token_view(t),
{
    proof {
        reveal_strlit("(");
        reveal_strlit(")");
        reveal_strlit("=");
        reveal_strlit(":");
        reveal_strlit(",");
        reveal_strlit("/");
        reveal_strlit("&");
        reveal_strlit("\n");
    }
    match t {
        namelist::tokenizer::Token::LeftBracket => fixed(TokenKind::LeftBracket, "("),
        namelist::tokenizer::Token::RightBracket => fixed(TokenKind::RightBracket, ")"),
        namelist::tokenizer::Token::Equals => fixed(TokenKind::Equals, "="),
        namelist::tokenizer::Token::Colon => fixed(TokenKind::Colon, ":"),
        namelist::tokenizer::Token::Comma => fixed(TokenKind::Comma, ","),
        namelist::tokenizer::Token::RightSlash => fixed(TokenKind::RightSlash, "/"),
        namelist::tokenizer::Token::Ampersand => fixed(TokenKind::Ampersand, "&"),
        namelist::tokenizer::Token::NewLine => fixed(TokenKind::NewLine, "\n"),
        namelist::tokenizer::Token::QuotedStr(s) => Lexeme { kind: TokenKind::QuotedStr, text: s },
        namelist::tokenizer::Token::Bool(s) => Lexeme { kind: TokenKind::Bool, text: s },
        namelist::tokenizer::Token::Whitespace(s) => Lexeme { kind: TokenKind::Whitespace, text: s },
        namelist::tokenizer::Token::Identifier(s) => Lexeme { kind: TokenKind::Identifier, text: s },
        namelist::tokenizer::Token::Number(s) => Lexeme { kind: TokenKind::Number, text: s },
        namelist::tokenizer::Token::Comment(s) => Lexeme { kind: TokenKind::Comment, text: s },
    }
}

/// Takes a located token of the namelist crate over into this library's form.
pub fn located_from_nml(t: namelist::tokenizer::LocatedToken) -> (r: LocatedLexeme)
    ensures
        r@ == nml_lex_view(t),
{
    let span = match t.span {
        Some(s) => Some(span_from_nml(s)),
        None => None,
    };
    LocatedLexeme { span, token: token_from_nml(t.token) }
}

} // verus!
