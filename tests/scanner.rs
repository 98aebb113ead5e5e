use parser::scanner::Scanner;
use parser::token::{Literal, ScanError, Token, TokenType};

fn scan(src: &str) -> Result<Vec<(TokenType, String, Literal, usize)>, ScanError> {
    let mut scanner = Scanner::new(String::from(src));
    scanner.scan_tokens().map(|tokens| {
        tokens
            .iter()
            .map(|t: &Token| {
                let literal = match &t.literal {
                    Literal::Absent => Literal::Absent,
                    Literal::Text(s) => Literal::Text(s.clone()),
                    Literal::Number(n) => Literal::Number(*n),
                };
                (t.token_type, t.lexeme.clone(), literal, t.line)
            })
            .collect()
    })
}

fn kinds(src: &str) -> Vec<TokenType> {
    scan(src).unwrap().into_iter().map(|t| t.0).collect()
}

fn eof(line: usize) -> (TokenType, String, Literal, usize) {
    (TokenType::EOF, String::new(), Literal::Absent, line)
}

#[test]
fn empty_input_gives_only_eof() {
    assert_eq!(scan("").unwrap(), vec![eof(0)]);
}

#[test]
fn left_paren() {
    assert_eq!(
        scan("(").unwrap(),
        vec![(TokenType::LEFTPAREN, String::from("("), Literal::Absent, 0), eof(0)]
    );
}

#[test]
fn bang_equal() {
    assert_eq!(
        scan("!=").unwrap(),
        vec![(TokenType::BANGEQUAL, String::from("!="), Literal::Absent, 0), eof(0)]
    );
}

#[test]
fn lone_bang_is_equal_class() {
    assert_eq!(
        scan("!").unwrap(),
        vec![(TokenType::EQUAL, String::from("!"), Literal::Absent, 0), eof(0)]
    );
}

#[test]
fn string_literal_without_quotes() {
    assert_eq!(
        scan("\"hi\"").unwrap(),
        vec![
            (TokenType::STRING, String::from("\"hi\""), Literal::Text(String::from("hi")), 0),
            eof(0)
        ]
    );
}

#[test]
fn number_literal() {
    assert_eq!(
        scan("123").unwrap(),
        vec![(TokenType::NUMBER, String::from("123"), Literal::Number(123), 0), eof(0)]
    );
}

#[test]
fn keyword_for() {
    assert_eq!(
        scan("for").unwrap(),
        vec![(TokenType::FOR, String::from("for"), Literal::Absent, 0), eof(0)]
    );
}

#[test]
fn identifier_with_keyword_prefix() {
    assert_eq!(
        scan("forest").unwrap(),
        vec![(TokenType::IDENTIFIER, String::from("forest"), Literal::Absent, 0), eof(0)]
    );
}

#[test]
fn fractional_number_is_malformed() {
    assert_eq!(scan("123.5"), Err(ScanError::MalformedNumericLiteral));
}

#[test]
fn number_too_large_is_malformed() {
    assert_eq!(scan("18446744073709551616"), Err(ScanError::MalformedNumericLiteral));
}

#[test]
fn largest_number() {
    assert_eq!(
        scan("18446744073709551615").unwrap()[0].2,
        Literal::Number(18446744073709551615)
    );
}

#[test]
fn number_then_dot_without_digit() {
    assert_eq!(
        kinds("12.x"),
        vec![TokenType::NUMBER, TokenType::DOT, TokenType::IDENTIFIER, TokenType::EOF]
    );
}

#[test]
fn unterminated_string() {
    assert_eq!(scan("\"abc"), Err(ScanError::UnterminatedString));
}

#[test]
fn unrecognized_character() {
    assert_eq!(scan("a # b"), Err(ScanError::UnrecognizedCharacter));
}

#[test]
fn non_ascii_character_is_unrecognized() {
    assert_eq!(scan("é"), Err(ScanError::UnrecognizedCharacter));
}

#[test]
fn both_braces_are_left_brace() {
    assert_eq!(
        kinds("{}"),
        vec![TokenType::LEFTBRACE, TokenType::LEFTBRACE, TokenType::EOF]
    );
}

#[test]
fn single_character_tokens() {
    assert_eq!(
        kinds("(),.+-*/;"),
        vec![
            TokenType::LEFTPAREN,
            TokenType::RIGHTPAREN,
            TokenType::COMMA,
            TokenType::DOT,
            TokenType::PLUS,
            TokenType::MINUS,
            TokenType::STAR,
            TokenType::SLASH,
            TokenType::SEMICOLON,
            TokenType::EOF
        ]
    );
}

#[test]
fn two_character_operators() {
    assert_eq!(
        kinds("== = >= > <= <"),
        vec![
            TokenType::EQUALEQUAL,
            TokenType::EQUAL,
            TokenType::GREATEREQUAL,
            TokenType::GREATER,
            TokenType::LESSEQUAL,
            TokenType::LESS,
            TokenType::EOF
        ]
    );
}

#[test]
fn all_keywords() {
    assert_eq!(
        kinds("and class else false for fun if nil or print return super this true var while"),
        vec![
            TokenType::AND,
            TokenType::CLASS,
            TokenType::ELSE,
            TokenType::FALSE,
            TokenType::FOR,
            TokenType::FUN,
            TokenType::IF,
            TokenType::NIL,
            TokenType::OR,
            TokenType::PRINT,
            TokenType::RETURN,
            TokenType::SUPER,
            TokenType::THIS,
            TokenType::TRUE,
            TokenType::VAR,
            TokenType::WHILE,
            TokenType::EOF
        ]
    );
}

#[test]
fn keywords_are_case_sensitive() {
    assert_eq!(kinds("For _x1"), vec![TokenType::IDENTIFIER, TokenType::IDENTIFIER, TokenType::EOF]);
}

#[test]
fn lines_count_newlines_before_each_token() {
    let tokens = scan("a\nb\r\n\tc").unwrap();
    let lines: Vec<usize> = tokens.iter().map(|t| t.3).collect();
    assert_eq!(lines, vec![0, 1, 2, 2]);
}

#[test]
fn multi_line_string_records_its_first_line() {
    let tokens = scan("x \"a\nb\" y").unwrap();
    assert_eq!(tokens[1], (TokenType::STRING, String::from("\"a\nb\""), Literal::Text(String::from("a\nb")), 0));
    assert_eq!(tokens[2].3, 1);
    assert_eq!(tokens[3], eof(1));
}

#[test]
fn line_never_exceeds_newlines_before_lexeme() {
    let src = "var a = 1;\nprint \"x\ny\";\n\nb";
    for t in scan(src).unwrap() {
        let chars: Vec<char> = src.chars().collect();
        let lex: Vec<char> = t.1.chars().collect();
        let found = (0..=chars.len() - lex.len()).any(|p| {
            chars[p..p + lex.len()] == lex[..] && t.3 <= chars[..p].iter().filter(|c| **c == '\n').count()
        });
        assert!(found);
    }
}

#[test]
fn exactly_one_eof_at_the_end() {
    let tokens = scan("var x = \"s\" + 42;\nwhile (x) { x = x - 1; }").unwrap();
    let last = tokens.last().unwrap();
    assert_eq!(last.0, TokenType::EOF);
    assert_eq!(last.1, "");
    assert_eq!(tokens.iter().filter(|t| t.0 == TokenType::EOF).count(), 1);
}

#[test]
fn rescanning_gives_the_same_tokens() {
    let src = "fun f(a, b) { return a >= b; }\n\"t\" 7";
    assert_eq!(scan(src), scan(src));
    assert_eq!(scan("1.5"), scan("1.5"));
}

#[test]
fn operator_kind_depends_on_its_characters_only() {
    assert_eq!(kinds("!=")[0], kinds("x != y")[1]);
    assert_eq!(kinds("<")[0], kinds("(<)")[1]);
}

#[test]
fn whitespace_only() {
    assert_eq!(scan(" \t\r\n\n").unwrap(), vec![eof(2)]);
}

#[test]
fn empty_string_literal() {
    assert_eq!(
        scan("\"\"").unwrap(),
        vec![(TokenType::STRING, String::from("\"\""), Literal::Text(String::new()), 0), eof(0)]
    );
}
