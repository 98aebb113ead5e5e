use vstd::prelude::*;
use crate::lexical::{
    char_at, eof_token, lemma_step_advances, lookup, keyword_list, newlines, prepend, scan,
    scan_from, single_kind, step, token_at, word_end, Step,
};
use crate::scanner::Scanner;
use crate::token::{TokenType, TokenView};

verus! {

/// Whether `t` could have been scanned from position `p` of `s`: its lexeme
/// stands there, and its line is at most the number of newlines before `p`.
pub open spec fn placed_at(s: Seq<char>, t: TokenView, p: int) -> bool {
    &&& 0 <= p
    &&& p + t.lexeme.len() <= s.len()
    &&& s.subrange(p, p + t.lexeme.len()) == t.lexeme
    &&& t.line <= newlines(s.take(p))
}

/// Whether `t` could have been scanned from some position of `s`.
pub open spec fn placed(s: Seq<char>, t: TokenView) -> bool {
    exists|p: int| placed_at(s, t, p)
}

/// The kind that a scan step emits, if it emits a token.
pub open spec fn step_kind(s: Seq<char>, p: int) -> Option<TokenType> {
    match step(s, p) {
        Step::Emit { kind, .. } => Some(kind),
        _ => None,
    }
}

/// The length of the lexeme that a scan step emits, if it emits a token.
pub open spec fn step_width(s: Seq<char>, p: int) -> Option<int> {
    match step(s, p) {
        Step::Emit { end, .. } => Some(end - p),
        _ => None,
    }
}

proof fn lemma_keywords_not_eof(t: Seq<(Seq<char>, TokenType)>, w: Seq<char>)
    requires
        forall|i: int| 0 <= i < t.len() ==> #[trigger] t[i].1 != TokenType::EOF,
    ensures
        lookup(t, w) != Some(TokenType::EOF),
    decreases t.len(),
{
    if t.len() > 0 && t[0].0 != w {
        assert forall|i: int| 0 <= i < t.drop_first().len() implies #[trigger] t.drop_first()[i].1
            != TokenType::EOF by {
            assert(t.drop_first()[i] == t[i + 1]);
        }
        lemma_keywords_not_eof(t.drop_first(), w);
    }
}

proof fn lemma_step_not_eof(s: Seq<char>, p: int)
    requires
        0 <= p < s.len(),
    ensures
        step_kind(s, p) != Some(TokenType::EOF),
{
    let k = keyword_list();
    assert forall|i: int| 0 <= i < k.len() implies #[trigger] k[i].1 != TokenType::EOF by {}
    let e = word_end(s, p);
    lemma_keywords_not_eof(k, s.subrange(p, e));
}

proof fn lemma_single_eof_from(s: Seq<char>, pos: int)
    requires
        0 <= pos,
    ensures
        scan_from(s, pos) matches Ok(toks) ==> {
            &&& toks.len() >= 1
            &&& toks.last() == eof_token(s)
            &&& forall|i: int| 0 <= i < toks.len() - 1 ==> #[trigger] toks[i].token_type != TokenType::EOF
        },
    decreases s.len() - pos,
{
    if pos < s.len() {
        lemma_step_advances(s, pos);
        lemma_step_not_eof(s, pos);
        match step(s, pos) {
            Step::Skip { end } => lemma_single_eof_from(s, end),
            Step::Emit { end, kind, literal } => {
                lemma_single_eof_from(s, end);
                if let Ok(rest) = scan_from(s, end) {
                    let toks = seq![token_at(s, pos, end, kind, literal)] + rest;
                    assert(toks.last() == rest.last());
                    assert forall|i: int| 0 <= i < toks.len() - 1 implies #[trigger] toks[i].token_type
                        != TokenType::EOF by {
                        if i > 0 {
                            assert(toks[i] == rest[i - 1]);
                        }
                    }
                }
            },
            Step::Fail { .. } => {},
        }
    }
}

/// A successful scan ends with exactly one EOF token, whose lexeme is empty:
/// no token before the last one is an EOF token.
pub proof fn law_single_eof(s: Seq<char>)
    ensures
        scan(s) matches Ok(toks) ==> {
            &&& toks.len() >= 1
            &&& toks.last().token_type == TokenType::EOF
            &&& toks.last().lexeme.len() == 0
            &&& forall|i: int| 0 <= i < toks.len() - 1 ==> #[trigger] toks[i].token_type != TokenType::EOF
        },
{
    lemma_single_eof_from(s, 0);
}

proof fn lemma_lines_from(s: Seq<char>, pos: int)
    requires
        0 <= pos,
    ensures
        scan_from(s, pos) matches Ok(toks) ==> forall|i: int|
            0 <= i < toks.len() ==> #[trigger] placed(s, toks[i]),
    decreases s.len() - pos,
{
    if pos < s.len() {
        lemma_step_advances(s, pos);
        match step(s, pos) {
            Step::Skip { end } => lemma_lines_from(s, end),
            Step::Emit { end, kind, literal } => {
                lemma_lines_from(s, end);
                if let Ok(rest) = scan_from(s, end) {
                    let t = token_at(s, pos, end, kind, literal);
                    let toks = seq![t] + rest;
                    assert(placed_at(s, t, pos));
                    assert forall|i: int| 0 <= i < toks.len() implies #[trigger] placed(s, toks[i]) by {
                        if i == 0 {
                            assert(placed_at(s, toks[0], pos));
                        } else {
                            assert(toks[i] == rest[i - 1]);
                        }
                    }
                }
            },
            Step::Fail { .. } => {},
        }
    } else {
        let e = eof_token(s);
        assert(s.subrange(s.len() as int, s.len() as int) =~= e.lexeme);
        assert(s.take(s.len() as int) =~= s);
        assert(placed_at(s, e, s.len() as int));
        assert(placed(s, e));
    }
}

/// Every token of a successful scan stands in the text at some position, and
/// the line it records is at most the number of newlines before that position.
pub proof fn law_line_bound(s: Seq<char>)
    ensures
        scan(s) matches Ok(toks) ==> forall|i: int|
            0 <= i < toks.len() ==> #[trigger] placed(s, toks[i]),
{
    lemma_lines_from(s, 0);
}

/// Two fresh scanners over the same text deliver the same outcome: the same
/// tokens, with the same kinds, lexemes, literals and lines, in the same order,
/// or the same error.
pub proof fn law_rescan_same(a: &Scanner, b: &Scanner)
    requires
        a.is_fresh(),
        b.is_fresh(),
        a.text() == b.text(),
    ensures
        prepend(a.emitted(), scan_from(a.text(), a.position())) == prepend(
            b.emitted(),
            scan_from(b.text(), b.position()),
        ),
        prepend(a.emitted(), scan_from(a.text(), a.position())) == scan(a.text()),
{
    if let Ok(r) = scan(a.text()) {
        assert(a.emitted() + r =~= r);
        assert(b.emitted() + r =~= r);
    }
}

/// The kind of a punctuation or operator token, and how many characters it
/// takes, depend on its first character and the one after it alone.
pub proof fn law_operator_kind_is_local(s: Seq<char>, p: int, t: Seq<char>, q: int)
    requires
        0 <= p < s.len(),
        0 <= q < t.len(),
        s[p] == t[q],
        char_at(s, p + 1) == char_at(t, q + 1),
        single_kind(s[p]) is Some || s[p] == '!' || s[p] == '=' || s[p] == '>' || s[p] == '<',
    ensures
        step_kind(s, p) is Some,
        step_kind(s, p) == step_kind(t, q),
        step_width(s, p) == step_width(t, q),
{
}

/// The kind of a word depends on the word alone: the same word, wherever it
/// stands, gets the same keyword or identifier kind.
pub proof fn law_word_kind_is_local(s: Seq<char>, p: int, t: Seq<char>, q: int)
    requires
        0 <= p < s.len(),
        0 <= q < t.len(),
        crate::lexical::is_alpha_char(s[p]),
        s.subrange(p, word_end(s, p)) == t.subrange(q, word_end(t, q)),
    ensures
        step_kind(s, p) is Some,
        step_kind(s, p) == step_kind(t, q),
{
    let w = s.subrange(p, word_end(s, p));
    crate::lexical::lemma_run_ends(s, p);
    crate::lexical::lemma_run_ends(t, q);
    crate::lexical::lemma_run_ends(s, p + 1);
    crate::lexical::lemma_run_ends(t, q + 1);
    assert(w[0] == s[p]);
    assert(t.subrange(q, word_end(t, q))[0] == t[q]);
}

} // verus!
