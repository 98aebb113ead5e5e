use vstd::prelude::*;
use crate::lexical::{
    char_at, decimal_value, digits_end, is_alnum_char, is_alpha_char, is_digit_char,
    keyword_list, lemma_newlines_bound, lemma_newlines_push, lemma_prepend_push,
    lemma_step_advances, lookup, newlines, number_literal, prepend, quote_end, scan,
    scan_from, step, token_at, word_end, word_kind, Step,
};
use vstd::std_specs::iter::IteratorSpec;
use crate::token::{views, Literal, LiteralView, ScanError, Token, TokenType, TokenView};

verus! {

broadcast use vstd::string::group_string_axioms;

/// A single-use scanner over one source text.
///
/// The text is decoded once into characters; `start` is where the lexeme being
/// recognised begins, `current` the next unread position, and `line` the number
/// of newlines before `current`.
pub struct Scanner {
    source: String,
    chars: Vec<char>,
    tokens: Vec<Token>,
    keywords: Vec<(Vec<char>, TokenType)>,
    start: usize,
    current: usize,
    line: usize,
}

/// The keyword table holds exactly the entries of `keyword_list`, in order.
pub open spec fn keywords_match(t: Seq<(Vec<char>, TokenType)>) -> bool {
    &&& t.len() == keyword_list().len()
    &&& forall|i: int|
        0 <= i < t.len() ==> #[trigger] t[i].0@ == keyword_list()[i].0 && t[i].1
            == keyword_list()[i].1
}

impl Scanner {
    /// The source text, as characters.
    pub closed spec fn text(&self) -> Seq<char> {
        self.source@
    }

    /// The tokens emitted so far.
    pub closed spec fn emitted(&self) -> Seq<TokenView> {
        views(self.tokens@)
    }

    /// The next unread position.
    pub closed spec fn position(&self) -> int {
        self.current as int
    }

    /// A scanner that has not yet read anything.
    pub open spec fn is_fresh(&self) -> bool {
        self.emitted().len() == 0 && self.position() == 0
    }

    /// The cursor lies within the text, the line count matches it, and the
    /// keyword table is complete.
    pub closed spec fn wf(&self) -> bool {
        &&& self.chars@ == self.source@
        &&& self.start <= self.current <= self.chars.len()
        &&& self.line == newlines(self.chars@.take(self.current as int))
        &&& keywords_match(self.keywords@)
    }

    /// `self` and `o` scan the same text with the same table from the same start.
    spec fn same_frame(&self, o: &Self) -> bool {
        &&& self.source == o.source
        &&& self.chars == o.chars
        &&& self.keywords == o.keywords
        &&& self.start == o.start
    }

    /// `self` is what one scan step from `o.start` leaves, and `r` what it reports.
    spec fn stepped(&self, o: &Self, r: Result<(), ScanError>) -> bool {
        let s = o.chars@;
        let p = o.start as int;
        &&& match step(s, p) {
            Step::Skip { end } => r is Ok && self.current == end && self.emitted() == o.emitted(),
            Step::Emit { end, kind, literal } => r is Ok && self.current == end
                && self.emitted() == o.emitted().push(token_at(s, p, end, kind, literal)),
            Step::Fail { error } => r == Err::<(), ScanError>(error),
        }
        &&& r is Ok ==> self.wf() && self.same_frame(o)
    }

    /// Entered a literal: the cursor stands just past its first character,
    /// which is no newline.
    spec fn in_literal(&self) -> bool {
        &&& self.chars@ == self.source@
        &&& keywords_match(self.keywords@)
        &&& self.current == self.start + 1 <= self.chars.len()
        &&& self.line == newlines(self.chars@.take(self.start as int))
        &&& self.line == newlines(self.chars@.take(self.current as int))
    }

    /// Creates a scanner over `source`, positioned at its beginning.
    pub fn new(source: String) -> (r: Scanner)
        ensures
            r.wf(),
            r.text() == source@,
            r.is_fresh(),
    {
        let mut chars: Vec<char> = Vec::new();
        let mut it = source.as_str().chars();
        loop
            invariant
                chars@ + it.remaining() == source@,
                it.decrease() is Some,
            ensures
                chars@ == source@,
            decreases it.decrease()->0,
        {
            match it.next() {
                Some(c) => chars.push(c),
                None => {
                    assert(chars@ =~= source@);
                    break;
                },
            }
        }
        proof {
            assert(chars@.take(0) =~= Seq::<char>::empty());
        }
        Scanner {
            source,
            chars,
            tokens: Vec::new(),
            start: 0,
            current: 0,
            line: 0,
            keywords: Scanner::init_keywords(),
        }
    }

    /// Builds the keyword table.
    fn init_keywords() -> (r: Vec<(Vec<char>, TokenType)>)
        ensures
            keywords_match(r@),
    {
        let mut keywords: Vec<(Vec<char>, TokenType)> = Vec::new();
        keywords.push((vec!['a', 'n', 'd'], TokenType::AND));
        keywords.push((vec!['c', 'l', 'a', 's', 's'], TokenType::CLASS));
        keywords.push((vec!['e', 'l', 's', 'e'], TokenType::ELSE));
        keywords.push((vec!['f', 'a', 'l', 's', 'e'], TokenType::FALSE));
        keywords.push((vec!['f', 'o', 'r'], TokenType::FOR));
        keywords.push((vec!['f', 'u', 'n'], TokenType::FUN));
        keywords.push((vec!['i', 'f'], TokenType::IF));
        keywords.push((vec!['n', 'i', 'l'], TokenType::NIL));
        keywords.push((vec!['o', 'r'], TokenType::OR));
        keywords.push((vec!['p', 'r', 'i', 'n', 't'], TokenType::PRINT));
        keywords.push((vec!['r', 'e', 't', 'u', 'r', 'n'], TokenType::RETURN));
        keywords.push((vec!['s', 'u', 'p', 'e', 'r'], TokenType::SUPER));
        keywords.push((vec!['t', 'h', 'i', 's'], TokenType::THIS));
        keywords.push((vec!['t', 'r', 'u', 'e'], TokenType::TRUE));
        keywords.push((vec!['v', 'a', 'r'], TokenType::VAR));
        keywords.push((vec!['w', 'h', 'i', 'l', 'e'], TokenType::WHILE));
        assert(keywords_match(keywords@));
        keywords
    }

    fn is_end(&self) -> (r: bool)
        requires
            self.current <= self.chars.len(),
        ensures
            r == (self.current == self.chars.len()),
    {
        self.current >= self.chars.len()
    }

    fn advance(&mut self) -> (r: char)
        requires
            old(self).current < old(self).chars.len(),
        ensures
            r == old(self).chars@[old(self).current as int],
            final(self).current == old(self).current + 1,
            final(self).same_frame(old(self)),
            final(self).tokens == old(self).tokens,
            final(self).line == old(self).line,
    {
        let c = self.chars[self.current];
        self.current += 1;
        c
    }

    fn peek(&self) -> (r: char)
        ensures
            r == char_at(self.chars@, self.current as int),
    {
        if self.current >= self.chars.len() {
            return '\0';
        }
        self.chars[self.current]
    }

    fn peek_next(&self) -> (r: char)
        ensures
            r == char_at(self.chars@, self.current + 1),
    {
        if self.current >= self.chars.len() || self.chars.len() - self.current <= 1 {
            return '\0';
        }
        self.chars[self.current + 1]
    }

    fn match_token(&mut self, expected: char) -> (r: bool)
        requires
            old(self).current <= old(self).chars.len(),
        ensures
            r == (char_at(old(self).chars@, old(self).current as int) == expected
                && old(self).current < old(self).chars.len()),
            final(self).current == old(self).current + if r { 1int } else { 0int },
            final(self).same_frame(old(self)),
            final(self).tokens == old(self).tokens,
            final(self).line == old(self).line,
    {
        if self.is_end() || self.peek() != expected {
            false
        } else {
            self.current += 1;
            true
        }
    }

    fn is_digit(&self, c: char) -> (r: bool)
        ensures
            r == is_digit_char(c),
    {
        c >= '0' && c <= '9'
    }

    fn is_alpha(&self, c: char) -> (r: bool)
        ensures
            r == is_alpha_char(c),
    {
        (c >= 'a' && c <= 'z') || (c >= 'A' && c <= 'Z') || c == '_'
    }

    fn is_alphanumeric(&self, c: char) -> (r: bool)
        ensures
            r == is_alnum_char(c),
    {
        self.is_digit(c) || self.is_alpha(c)
    }

    /// The lexeme being recognised.
    fn substr(&self) -> (r: String)
        requires
            self.chars@ == self.source@,
            self.start <= self.current <= self.chars.len(),
        ensures
            r@ == self.chars@.subrange(self.start as int, self.current as int),
    {
        self.source.as_str().substring_char(self.start, self.current).to_owned()
    }

    fn add_token(&mut self, token_type: TokenType)
        requires
            old(self).chars@ == old(self).source@,
            old(self).start <= old(self).current <= old(self).chars.len(),
        ensures
            final(self).emitted() == old(self).emitted().push(
                TokenView {
                    token_type,
                    lexeme: old(self).chars@.subrange(old(self).start as int, old(self).current as int),
                    literal: LiteralView::Absent,
                    line: old(self).line as nat,
                },
            ),
            final(self).same_frame(old(self)),
            final(self).current == old(self).current,
            final(self).line == old(self).line,
    {
        self.add_token_verbose(token_type, Literal::Absent);
    }

    fn add_token_verbose(&mut self, token_type: TokenType, literal: Literal)
        requires
            old(self).chars@ == old(self).source@,
            old(self).start <= old(self).current <= old(self).chars.len(),
        ensures
            final(self).emitted() == old(self).emitted().push(
                TokenView {
                    token_type,
                    lexeme: old(self).chars@.subrange(old(self).start as int, old(self).current as int),
                    literal: literal@,
                    line: old(self).line as nat,
                },
            ),
            final(self).same_frame(old(self)),
            final(self).current == old(self).current,
            final(self).line == old(self).line,
    {
        let token = Token { line: self.line, token_type, lexeme: self.substr(), literal };
        self.tokens.push(token);
        assert(views(self.tokens@) =~= views(old(self).tokens@).push(token@));
    }

    /// Scans the whole text and returns every token, ending with one EOF token,
    /// or the first error met, in which case no tokens are delivered.
    pub fn scan_tokens(&mut self) -> (r: Result<&Vec<Token>, ScanError>)
        requires
            old(self).wf(),
        ensures
            outcome(r) == prepend(old(self).emitted(), scan_from(old(self).text(), old(self).position())),
            old(self).is_fresh() ==> outcome(r) == scan(old(self).text()),
    {
        let ghost s = self.chars@;
        let ghost target = prepend(self.emitted(), scan_from(s, self.current as int));
        proof {
            if self.is_fresh() {
                if let Ok(rest) = scan_from(s, 0) {
                    assert(self.emitted() + rest =~= rest);
                }
            }
        }
        while !self.is_end()
            invariant
                self.wf(),
                self.chars@ == s,
                prepend(self.emitted(), scan_from(s, self.current as int)) == target,
                target == prepend(old(self).emitted(), scan_from(old(self).text(), old(self).position())),
                s == old(self).text(),
            decreases self.chars.len() - self.current,
        {
            self.start = self.current;
            let ghost before = self.emitted();
            let ghost p = self.current as int;
            proof {
                lemma_step_advances(s, p);
            }
            match self.scan_token() {
                Ok(()) => {},
                Err(e) => {
                    assert(scan_from(s, p) == Err::<Seq<TokenView>, ScanError>(e));
                    return Err(e);
                },
            }
            proof {
                if let Step::Emit { end, kind, literal } = step(s, p) {
                    lemma_prepend_push(before, token_at(s, p, end, kind, literal), scan_from(s, end));
                }
            }
        }
        self.start = self.current;
        let ghost before = self.emitted();
        self.add_token(TokenType::EOF);
        proof {
            assert(s.subrange(s.len() as int, s.len() as int) =~= Seq::<char>::empty());
            assert(s.take(s.len() as int) =~= s);
            assert(before.push(crate::lexical::eof_token(s)) =~= before + seq![crate::lexical::eof_token(s)]);
        }
        Ok(&self.tokens)
    }

    fn scan_token(&mut self) -> (r: Result<(), ScanError>)
        requires
            old(self).wf(),
            old(self).start == old(self).current < old(self).chars.len(),
        ensures
            final(self).stepped(old(self), r),
    {
        let ghost s = self.chars@;
        let ghost p = self.start as int;
        proof {
            lemma_newlines_push(s, p);
            lemma_newlines_bound(s.take(p + 1));
            if p + 1 < s.len() {
                lemma_newlines_push(s, p + 1);
            }
        }
        let c = self.advance();
        match c {
            '(' => self.add_token(TokenType::LEFTPAREN),
            ')' => self.add_token(TokenType::RIGHTPAREN),
            '{' => self.add_token(TokenType::LEFTBRACE),
            '}' => self.add_token(TokenType::LEFTBRACE),
            ',' => self.add_token(TokenType::COMMA),
            '.' => self.add_token(TokenType::DOT),
            '+' => self.add_token(TokenType::PLUS),
            '-' => self.add_token(TokenType::MINUS),
            '*' => self.add_token(TokenType::STAR),
            '/' => self.add_token(TokenType::SLASH),
            ';' => self.add_token(TokenType::SEMICOLON),
            '!' => {
                let token = if self.match_token('=') {
                    TokenType::BANGEQUAL
                } else {
                    TokenType::EQUAL
                };
                self.add_token(token);
            },
            '=' => {
                let token = if self.match_token('=') {
                    TokenType::EQUALEQUAL
                } else {
                    TokenType::EQUAL
                };
                self.add_token(token);
            },
            '>' => {
                let token = if self.match_token('=') {
                    TokenType::GREATEREQUAL
                } else {
                    TokenType::GREATER
                };
                self.add_token(token);
            },
            '<' => {
                let token = if self.match_token('=') {
                    TokenType::LESSEQUAL
                } else {
                    TokenType::LESS
                };
                self.add_token(token);
            },
            ' ' | '\r' | '\t' => {},
            '\n' => self.line += 1,
            '"' => return self.string(),
            _ => {
                if self.is_digit(c) {
                    return self.number();
                } else if self.is_alpha(c) {
                    return self.identifier();
                } else {
                    return Err(ScanError::UnrecognizedCharacter);
                }
            },
        }
        Ok(())
    }

    /// Scans the rest of a string literal, whose opening quote has been read.
    fn string(&mut self) -> (r: Result<(), ScanError>)
        requires
            old(self).in_literal(),
            old(self).chars@[old(self).start as int] == '"',
        ensures
            final(self).stepped(old(self), r),
    {
        let ghost s = self.chars@;
        let ghost p = self.start as int;
        let mut lines: usize = 0;
        while self.peek() != '"' && !self.is_end()
            invariant
                self.chars@ == s,
                self.same_frame(old(self)),
                self.tokens == old(self).tokens,
                self.line == old(self).line,
                p + 1 <= self.current <= s.len(),
                newlines(s.take(self.current as int)) == self.line + lines,
                quote_end(s, p + 1) == quote_end(s, self.current as int),
            decreases s.len() - self.current,
        {
            proof {
                lemma_newlines_push(s, self.current as int);
                lemma_newlines_bound(s.take(self.current + 1));
            }
            if self.peek() == '\n' {
                lines += 1;
            }
            self.advance();
        }
        if self.is_end() {
            return Err(ScanError::UnterminatedString);
        }
        proof {
            lemma_newlines_push(s, self.current as int);
            lemma_newlines_bound(s.take(self.current + 1));
        }
        self.advance();
        let value = self.source.as_str().substring_char(self.start + 1, self.current - 1).to_owned();
        self.add_token_verbose(TokenType::STRING, Literal::Text(value));
        self.line = self.line + lines;
        Ok(())
    }

    /// Scans the rest of a number literal, whose first digit has been read.
    fn number(&mut self) -> (r: Result<(), ScanError>)
        requires
            old(self).in_literal(),
            is_digit_char(old(self).chars@[old(self).start as int]),
        ensures
            final(self).stepped(old(self), r),
    {
        let ghost s = self.chars@;
        let ghost p = self.start as int;
        while self.is_digit(self.peek())
            invariant
                self.chars@ == s,
                self.same_frame(old(self)),
                self.tokens == old(self).tokens,
                self.line == old(self).line,
                p + 1 <= self.current <= s.len(),
                self.line == newlines(s.take(self.current as int)),
                digits_end(s, p) == digits_end(s, self.current as int),
            decreases s.len() - self.current,
        {
            proof {
                lemma_newlines_push(s, self.current as int);
            }
            self.advance();
        }
        if self.peek() == '.' && self.is_digit(self.peek_next()) {
            proof {
                lemma_newlines_push(s, self.current as int);
            }
            self.advance();
            let ghost a = self.current as int;
            while self.is_digit(self.peek())
                invariant
                    self.chars@ == s,
                    self.same_frame(old(self)),
                    self.tokens == old(self).tokens,
                    self.line == old(self).line,
                    a <= self.current <= s.len(),
                    self.line == newlines(s.take(self.current as int)),
                    digits_end(s, a) == digits_end(s, self.current as int),
                decreases s.len() - self.current,
            {
                proof {
                    lemma_newlines_push(s, self.current as int);
                }
                self.advance();
            }
        }
        let value = self.decode_number();
        match value {
            Ok(n) => {
                self.add_token_verbose(TokenType::NUMBER, Literal::Number(n));
                Ok(())
            },
            Err(e) => Err(e),
        }
    }

    /// Reads the lexeme, a number literal, as an unsigned integer.
    fn decode_number(&self) -> (r: Result<u64, ScanError>)
        requires
            self.start <= self.current <= self.chars.len(),
        ensures
            number_result(r) == number_literal(self.chars@.subrange(self.start as int, self.current as int)),
    {
        let ghost s = self.chars@;
        let ghost lex = s.subrange(self.start as int, self.current as int);
        let mut value: u64 = 0;
        let mut overflow = false;
        let mut i: usize = self.start;
        while i < self.current
            invariant
                self.start <= i <= self.current <= s.len(),
                s == self.chars@,
                lex == s.subrange(self.start as int, self.current as int),
                forall|j: int| self.start <= j < i ==> s[j] != '.',
                !overflow ==> value == decimal_value(s.subrange(self.start as int, i as int)),
                overflow ==> decimal_value(s.subrange(self.start as int, i as int)) > u64::MAX,
            decreases self.current - i,
        {
            let c = self.chars[i];
            if c == '.' {
                assert(lex[i - self.start] == '.');
                return Err(ScanError::MalformedNumericLiteral);
            }
            let d: u64 = if self.is_digit(c) {
                (c as u32 - '0' as u32) as u64
            } else {
                0
            };
            if !overflow {
                match value.checked_mul(10) {
                    Some(v) => match v.checked_add(d) {
                        Some(w) => value = w,
                        None => overflow = true,
                    },
                    None => overflow = true,
                }
            }
            assert(s.subrange(self.start as int, i + 1).drop_last() =~= s.subrange(self.start as int, i as int));
            i += 1;
        }
        assert(!lex.contains('.')) by {
            assert forall|j: int| 0 <= j < lex.len() implies lex[j] != '.' by {
                assert(s[self.start + j] != '.');
            }
        }
        if overflow {
            Err(ScanError::MalformedNumericLiteral)
        } else {
            Ok(value)
        }
    }

    /// Scans the rest of an identifier or keyword, whose first letter has been read.
    fn identifier(&mut self) -> (r: Result<(), ScanError>)
        requires
            old(self).in_literal(),
            is_alpha_char(old(self).chars@[old(self).start as int]),
        ensures
            final(self).stepped(old(self), r),
    {
        let ghost s = self.chars@;
        let ghost p = self.start as int;
        while self.is_alphanumeric(self.peek())
            invariant
                self.chars@ == s,
                self.same_frame(old(self)),
                self.tokens == old(self).tokens,
                self.line == old(self).line,
                p + 1 <= self.current <= s.len(),
                self.line == newlines(s.take(self.current as int)),
                word_end(s, p) == word_end(s, self.current as int),
            decreases s.len() - self.current,
        {
            proof {
                lemma_newlines_push(s, self.current as int);
            }
            self.advance();
        }
        let token_type = self.keyword_kind();
        self.add_token(token_type);
        Ok(())
    }

    /// The kind of the lexeme as a word: its keyword kind, else IDENTIFIER.
    fn keyword_kind(&self) -> (r: TokenType)
        requires
            keywords_match(self.keywords@),
            self.start <= self.current <= self.chars.len(),
        ensures
            r == word_kind(self.chars@.subrange(self.start as int, self.current as int)),
    {
        let ghost w = self.chars@.subrange(self.start as int, self.current as int);
        let mut i: usize = 0;
        assert(keyword_list().skip(0) =~= keyword_list());
        while i < self.keywords.len()
            invariant
                keywords_match(self.keywords@),
                self.start <= self.current <= self.chars.len(),
                w == self.chars@.subrange(self.start as int, self.current as int),
                i <= self.keywords.len(),
                lookup(keyword_list(), w) == lookup(keyword_list().skip(i as int), w),
            decreases self.keywords.len() - i,
        {
            assert(keyword_list().skip(i as int).drop_first() =~= keyword_list().skip(i + 1));
            assert(keyword_list().skip(i as int)[0] == keyword_list()[i as int]);
            if self.is_word(&self.keywords[i].0) {
                return self.keywords[i].1;
            }
            i += 1;
        }
        TokenType::IDENTIFIER
    }

    /// Whether the lexeme is `word`.
    fn is_word(&self, word: &Vec<char>) -> (r: bool)
        requires
            self.start <= self.current <= self.chars.len(),
        ensures
            r == (word@ == self.chars@.subrange(self.start as int, self.current as int)),
    {
        let ghost w = self.chars@.subrange(self.start as int, self.current as int);
        if word.len() != self.current - self.start {
            return false;
        }
        let mut j: usize = 0;
        while j < word.len()
            invariant
                word.len() == self.current - self.start,
                self.start <= self.current <= self.chars.len(),
                w == self.chars@.subrange(self.start as int, self.current as int),
                j <= word.len(),
                forall|k: int| 0 <= k < j ==> word@[k] == w[k],
            decreases word.len() - j,
        {
            if word[j] != self.chars[self.start + j] {
                assert(word@[j as int] != w[j as int]);
                return false;
            }
            j += 1;
        }
        assert(word@ =~= w);
        true
    }
}

/// The tokens of a scan, or its error, as mathematical values.
pub open spec fn outcome(r: Result<&Vec<Token>, ScanError>) -> Result<Seq<TokenView>, ScanError> {
    match r {
        Ok(t) => Ok(views(t@)),
        Err(e) => Err(e),
    }
}

/// A decoded number as the literal it gives.
pub open spec fn number_result(r: Result<u64, ScanError>) -> Result<LiteralView, ScanError> {
    match r {
        Ok(n) => Ok(LiteralView::Number(n)),
        Err(e) => Err(e),
    }
}

} // verus!
