use vstd::prelude::*;

verus! {

/// The closed set of token kinds.
///
/// BANG and RIGHTBRACE belong to the set, but no scan produces them: a lone
/// `!` scans as EQUAL, and `}` scans as LEFTBRACE, like `{`.
#[derive(Debug, Clone, Copy, PartialEq, Eq, Structural)]
#[allow(non_camel_case_types)]
pub enum TokenType {
    LEFTPAREN,
    RIGHTPAREN,
    LEFTBRACE,
    RIGHTBRACE,
    COMMA,
    DOT,
    MINUS,
    PLUS,
    SEMICOLON,
    SLASH,
    STAR,
    // One or two character tokens.
    BANG,
    BANGEQUAL,
    EQUAL,
    EQUALEQUAL,
    GREATER,
    GREATEREQUAL,
    LESS,
    LESSEQUAL,
    // Literals.
    IDENTIFIER,
    STRING,
    NUMBER,
    // Keywords.
    AND,
    CLASS,
    ELSE,
    FALSE,
    FUN,
    FOR,
    IF,
    NIL,
    OR,
    PRINT,
    RETURN,
    SUPER,
    THIS,
    TRUE,
    VAR,
    WHILE,
    EOF,
}

/// The decoded value carried by a token: nothing, the text of a string
/// literal without its quotes, or the value of a number literal.
#[derive(Debug, PartialEq, Eq)]
pub enum Literal {
    Absent,
    Text(String),
    Number(u64),
}

/// A literal as a mathematical value.
pub enum LiteralView {
    Absent,
    Text(Seq<char>),
    Number(u64),
}

impl View for Literal {
    type V = LiteralView;

    open spec fn view(&self) -> LiteralView {
        match self {
            Literal::Absent => LiteralView::Absent,
            Literal::Text(s) => LiteralView::Text(s@),
            Literal::Number(n) => LiteralView::Number(*n),
        }
    }
}

/// One token: its kind, the exact source text it was scanned from, its decoded
/// literal, and the (0-based) line on which that text begins.
#[derive(Debug)]
pub struct Token {
    pub token_type: TokenType,
    pub lexeme: String,
    pub literal: Literal,
    pub line: usize,
}

/// A token as a mathematical value.
pub struct TokenView {
    pub token_type: TokenType,
    pub lexeme: Seq<char>,
    pub literal: LiteralView,
    pub line: nat,
}

impl View for Token {
    type V = TokenView;

    open spec fn view(&self) -> TokenView {
        TokenView {
            token_type: self.token_type,
            lexeme: self.lexeme@,
            literal: self.literal@,
            line: self.line as nat,
        }
    }
}

/// The views of a sequence of tokens.
pub open spec fn views(ts: Seq<Token>) -> Seq<TokenView> {
    ts.map_values(|t: Token| t@)
}

/// Why a scan was abandoned. Any of these ends the whole scan: no tokens are
/// delivered.
#[derive(Debug, Clone, Copy, PartialEq, Eq, Structural)]
pub enum ScanError {
    /// A token begins with a character that starts no token.
    UnrecognizedCharacter,
    /// The input ends inside a string literal.
    UnterminatedString,
    /// A number literal holds a fractional part, or its value exceeds `u64::MAX`.
    MalformedNumericLiteral,
}

} // verus!
