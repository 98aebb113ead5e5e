use vstd::prelude::*;
use crate::token::{LiteralView, ScanError, TokenType, TokenView};

verus! {

/// An ASCII decimal digit.
pub open spec fn is_digit_char(c: char) -> bool {
    '0' <= c && c <= '9'
}

/// An ASCII letter or an underscore: what may begin an identifier.
pub open spec fn is_alpha_char(c: char) -> bool {
    ('a' <= c && c <= 'z') || ('A' <= c && c <= 'Z') || c == '_'
}

/// What may continue an identifier.
pub open spec fn is_alnum_char(c: char) -> bool {
    is_digit_char(c) || is_alpha_char(c)
}

/// The character at `i`, or `'\0'` past the end.
pub open spec fn char_at(s: Seq<char>, i: int) -> char {
    if 0 <= i < s.len() { s[i] } else { '\0' }
}

/// The number of newline characters in `s`.
pub open spec fn newlines(s: Seq<char>) -> nat
    decreases s.len(),
{
    if s.len() == 0 {
        0
    } else {
        newlines(s.drop_last()) + if s.last() == '\n' { 1nat } else { 0nat }
    }
}

/// The end of the run of digits that starts at `i`.
pub open spec fn digits_end(s: Seq<char>, i: int) -> int
    decreases s.len() - i,
{
    if 0 <= i < s.len() && is_digit_char(s[i]) { digits_end(s, i + 1) } else { i }
}

/// The end of the run of letters, digits and underscores that starts at `i`.
pub open spec fn word_end(s: Seq<char>, i: int) -> int
    decreases s.len() - i,
{
    if 0 <= i < s.len() && is_alnum_char(s[i]) { word_end(s, i + 1) } else { i }
}

/// The position of the first `"` at or after `i`, or the end of `s`.
pub open spec fn quote_end(s: Seq<char>, i: int) -> int
    decreases s.len() - i,
{
    if 0 <= i < s.len() && s[i] != '"' { quote_end(s, i + 1) } else { i }
}

/// The end of a number literal whose first digit is at `i`: a run of digits,
/// then a `.` and a second run of digits if a digit follows the `.`.
pub open spec fn number_end(s: Seq<char>, i: int) -> int {
    let a = digits_end(s, i);
    if char_at(s, a) == '.' && is_digit_char(char_at(s, a + 1)) {
        digits_end(s, a + 1)
    } else {
        a
    }
}

/// The value of a decimal digit (0 for any other character).
pub open spec fn digit_value(c: char) -> nat {
    if is_digit_char(c) { (c as u32 - '0' as u32) as nat } else { 0 }
}

/// The value of a sequence of decimal digits.
pub open spec fn decimal_value(s: Seq<char>) -> nat
    decreases s.len(),
{
    if s.len() == 0 {
        0
    } else {
        decimal_value(s.drop_last()) * 10 + digit_value(s.last())
    }
}

/// The literal of a number lexeme, read as an unsigned integer: a lexeme with
/// a fractional part, or too large for a `u64`, cannot be read.
pub open spec fn number_literal(lexeme: Seq<char>) -> Result<LiteralView, ScanError> {
    if lexeme.contains('.') || decimal_value(lexeme) > u64::MAX {
        Err(ScanError::MalformedNumericLiteral)
    } else {
        Ok(LiteralView::Number(decimal_value(lexeme) as u64))
    }
}

/// The keyword table, in the order it is built.
pub open spec fn keyword_list() -> Seq<(Seq<char>, TokenType)> {
    seq![
        (seq!['a', 'n', 'd'], TokenType::AND),
        (seq!['c', 'l', 'a', 's', 's'], TokenType::CLASS),
        (seq!['e', 'l', 's', 'e'], TokenType::ELSE),
        (seq!['f', 'a', 'l', 's', 'e'], TokenType::FALSE),
        (seq!['f', 'o', 'r'], TokenType::FOR),
        (seq!['f', 'u', 'n'], TokenType::FUN),
        (seq!['i', 'f'], TokenType::IF),
        (seq!['n', 'i', 'l'], TokenType::NIL),
        (seq!['o', 'r'], TokenType::OR),
        (seq!['p', 'r', 'i', 'n', 't'], TokenType::PRINT),
        (seq!['r', 'e', 't', 'u', 'r', 'n'], TokenType::RETURN),
        (seq!['s', 'u', 'p', 'e', 'r'], TokenType::SUPER),
        (seq!['t', 'h', 'i', 's'], TokenType::THIS),
        (seq!['t', 'r', 'u', 'e'], TokenType::TRUE),
        (seq!['v', 'a', 'r'], TokenType::VAR),
        (seq!['w', 'h', 'i', 'l', 'e'], TokenType::WHILE),
    ]
}

/// The kind of the first entry of `table` whose text is `word`, if any.
pub open spec fn lookup(table: Seq<(Seq<char>, TokenType)>, word: Seq<char>) -> Option<TokenType>
    decreases table.len(),
{
    if table.len() == 0 {
        None
    } else if table[0].0 == word {
        Some(table[0].1)
    } else {
        lookup(table.drop_first(), word)
    }
}

/// The kind of a scanned word: its keyword kind (case-sensitive), else IDENTIFIER.
pub open spec fn word_kind(word: Seq<char>) -> TokenType {
    match lookup(keyword_list(), word) {
        Some(k) => k,
        None => TokenType::IDENTIFIER,
    }
}

/// The kind of a one- or two-character operator that begins with `c`, given
/// whether `=` follows it. A lone `!` is an EQUAL token, like a lone `=`.
pub open spec fn operator_kind(c: char, eq_follows: bool) -> TokenType {
    if c == '!' {
        if eq_follows { TokenType::BANGEQUAL } else { TokenType::EQUAL }
    } else if c == '=' {
        if eq_follows { TokenType::EQUALEQUAL } else { TokenType::EQUAL }
    } else if c == '>' {
        if eq_follows { TokenType::GREATEREQUAL } else { TokenType::GREATER }
    } else {
        if eq_follows { TokenType::LESSEQUAL } else { TokenType::LESS }
    }
}

/// The kind of a single-character token. Both braces give LEFTBRACE.
pub open spec fn single_kind(c: char) -> Option<TokenType> {
    if c == '(' {
        Some(TokenType::LEFTPAREN)
    } else if c == ')' {
        Some(TokenType::RIGHTPAREN)
    } else if c == '{' || c == '}' {
        Some(TokenType::LEFTBRACE)
    } else if c == ',' {
        Some(TokenType::COMMA)
    } else if c == '.' {
        Some(TokenType::DOT)
    } else if c == '+' {
        Some(TokenType::PLUS)
    } else if c == '-' {
        Some(TokenType::MINUS)
    } else if c == '*' {
        Some(TokenType::STAR)
    } else if c == '/' {
        Some(TokenType::SLASH)
    } else if c == ';' {
        Some(TokenType::SEMICOLON)
    } else {
        None
    }
}

/// What one scan step does from a token start.
pub enum Step {
    /// Whitespace: consumed up to `end`, no token.
    Skip { end: int },
    /// A token of `kind` whose lexeme ends at `end`.
    Emit { end: int, kind: TokenType, literal: LiteralView },
    /// The scan fails.
    Fail { error: ScanError },
}

/// The scan step from `start`, which must lie inside `s`.
pub open spec fn step(s: Seq<char>, start: int) -> Step {
    let c = s[start];
    if single_kind(c) is Some {
        Step::Emit { end: start + 1, kind: single_kind(c)->0, literal: LiteralView::Absent }
    } else if c == '!' || c == '=' || c == '>' || c == '<' {
        let eq = char_at(s, start + 1) == '=';
        Step::Emit {
            end: if eq { start + 2 } else { start + 1 },
            kind: operator_kind(c, eq),
            literal: LiteralView::Absent,
        }
    } else if c == ' ' || c == '\r' || c == '\t' || c == '\n' {
        Step::Skip { end: start + 1 }
    } else if c == '"' {
        let q = quote_end(s, start + 1);
        if q >= s.len() {
            Step::Fail { error: ScanError::UnterminatedString }
        } else {
            Step::Emit {
                end: q + 1,
                kind: TokenType::STRING,
                literal: LiteralView::Text(s.subrange(start + 1, q)),
            }
        }
    } else if is_digit_char(c) {
        let e = number_end(s, start);
        match number_literal(s.subrange(start, e)) {
            Ok(lit) => Step::Emit { end: e, kind: TokenType::NUMBER, literal: lit },
            Err(error) => Step::Fail { error },
        }
    } else if is_alpha_char(c) {
        let e = word_end(s, start);
        Step::Emit { end: e, kind: word_kind(s.subrange(start, e)), literal: LiteralView::Absent }
    } else {
        Step::Fail { error: ScanError::UnrecognizedCharacter }
    }
}

/// The token that a step emits, with the line on which its lexeme begins.
pub open spec fn token_at(s: Seq<char>, start: int, end: int, kind: TokenType, literal: LiteralView) -> TokenView {
    TokenView {
        token_type: kind,
        lexeme: s.subrange(start, end),
        literal,
        line: newlines(s.take(start)),
    }
}

/// The end-of-input token.
pub open spec fn eof_token(s: Seq<char>) -> TokenView {
    TokenView {
        token_type: TokenType::EOF,
        lexeme: Seq::empty(),
        literal: LiteralView::Absent,
        line: newlines(s),
    }
}

/// `toks` followed by the tokens of `rest`, or the error of `rest`.
pub open spec fn prepend(toks: Seq<TokenView>, rest: Result<Seq<TokenView>, ScanError>) -> Result<Seq<TokenView>, ScanError> {
    match rest {
        Ok(r) => Ok(toks + r),
        Err(e) => Err(e),
    }
}

/// Reading one more character adds one to the line count exactly when it is a newline.
pub proof fn lemma_newlines_push(s: Seq<char>, i: int)
    requires
        0 <= i < s.len(),
    ensures
        newlines(s.take(i + 1)) == newlines(s.take(i)) + if s[i] == '\n' { 1nat } else { 0nat },
{
    assert(s.take(i + 1).drop_last() =~= s.take(i));
}

/// A text holds no more newlines than characters.
pub proof fn lemma_newlines_bound(s: Seq<char>)
    ensures
        newlines(s) <= s.len(),
    decreases s.len(),
{
    if s.len() > 0 {
        lemma_newlines_bound(s.drop_last());
    }
}

/// Emitting one more token before the rest of a scan.
pub proof fn lemma_prepend_push(
    toks: Seq<TokenView>,
    t: TokenView,
    rest: Result<Seq<TokenView>, ScanError>,
)
    ensures
        prepend(toks.push(t), rest) == prepend(toks, prepend(seq![t], rest)),
{
    if let Ok(r) = rest {
        assert(toks.push(t) + r =~= toks + (seq![t] + r));
    }
}

pub(crate) proof fn lemma_run_ends(s: Seq<char>, i: int)
    requires
        0 <= i <= s.len(),
    ensures
        i <= digits_end(s, i) <= s.len(),
        i <= word_end(s, i) <= s.len(),
        i <= quote_end(s, i) <= s.len(),
    decreases s.len() - i,
{
    if i < s.len() {
        lemma_run_ends(s, i + 1);
    }
}

/// Every step that does not fail consumes at least one character.
pub proof fn lemma_step_advances(s: Seq<char>, start: int)
    requires
        0 <= start < s.len(),
    ensures
        match step(s, start) {
            Step::Skip { end } => start < end <= s.len(),
            Step::Emit { end, .. } => start < end <= s.len(),
            Step::Fail { .. } => true,
        },
{
    lemma_run_ends(s, start);
    lemma_run_ends(s, start + 1);
    let a = digits_end(s, start);
    if char_at(s, a) == '.' && is_digit_char(char_at(s, a + 1)) {
        lemma_run_ends(s, a + 1);
    }
}

#[via_fn]
proof fn lemma_scan_from_decreases(s: Seq<char>, pos: int) {
    if 0 <= pos < s.len() {
        lemma_step_advances(s, pos);
    }
}

/// The tokens scanned from `pos` to the end of `s`, EOF token included, or the
/// error that ends the scan.
pub open spec fn scan_from(s: Seq<char>, pos: int) -> Result<Seq<TokenView>, ScanError>
    decreases s.len() - pos,
    via lemma_scan_from_decreases
{
    if pos < 0 || pos >= s.len() {
        Ok(seq![eof_token(s)])
    } else {
        match step(s, pos) {
            Step::Skip { end } => scan_from(s, end),
            Step::Emit { end, kind, literal } => prepend(
                seq![token_at(s, pos, end, kind, literal)],
                scan_from(s, end),
            ),
            Step::Fail { error } => Err(error),
        }
    }
}

/// The result of scanning the whole of `s`.
pub open spec fn scan(s: Seq<char>) -> Result<Seq<TokenView>, ScanError> {
    scan_from(s, 0)
}

} // verus!
