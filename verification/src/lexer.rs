//! The lexer: turns source text into tokens on demand.
//!
//! At each position, leading whitespace and `;` comments (running up to the
//! next newline) are skipped first; then the next character decides the
//! token. Whitespace and the identifier classes are the standard library's
//! (`char::is_whitespace`, `char::is_alphabetic`, `char::is_alphanumeric`),
//! taken on trust and given names the grammar is stated over. Integer
//! literals take their radix from a prefix: `0b` is base 2, `0x` is base
//! 16, and `0o` is parsed with base 12 — a long-standing quirk of the
//! language that existing sources rely on and that is kept exactly; no
//! prefix means base 10.

use vstd::prelude::*;

verus! {

use crate::token::{Token, TokenKind, TokView};
use vstd::string::StrSliceExecFns;

/// A fatal lexical failure: either a character that starts no token, or an
/// integer literal that does not parse under its selected radix (including
/// one whose value needs more than 16 bits).
#[derive(Debug, Clone, Copy, PartialEq, Eq)]
pub enum LexerError {
    Unparsable(char),
    MalformedLiteral,
}

/// Whitespace skipped between tokens: what `char::is_whitespace` accepts, a
/// function of the character alone.
pub uninterp spec fn is_space_char(c: char) -> bool;

/// An alphabetic character, the class that may start an identifier: what
/// `char::is_alphabetic` accepts, a function of the character alone.
pub uninterp spec fn is_alpha_char(c: char) -> bool;

/// A numeric character of any script: what `char::is_numeric` accepts, a
/// function of the character alone.
pub uninterp spec fn is_numeric_char(c: char) -> bool;

/// An ASCII decimal digit: the class that starts a bare integer literal,
/// and the only digits any radix accepts values beyond 9 from letters.
pub open spec fn is_digit_char(c: char) -> bool {
    48 <= c as u32 <= 57
}

/// Alphanumeric, as `char::is_alphanumeric` defines it: alphabetic or
/// numeric.
pub open spec fn is_alnum_char(c: char) -> bool {
    is_alpha_char(c) || is_numeric_char(c)
}

/// Characters that may continue an identifier.
pub open spec fn is_word_char(c: char) -> bool {
    is_alnum_char(c) || c == '_'
}

/// Position reached from `i` after skipping whitespace and comments; while
/// `in_comment` holds, everything up to the newline is being discarded.
pub open spec fn skip_trivia_at(s: Seq<char>, i: int, in_comment: bool) -> int
    decreases s.len() - i,
{
    if i < 0 || i >= s.len() {
        i
    } else if in_comment {
        if s[i] == '\n' {
            skip_trivia_at(s, i + 1, false)
        } else {
            skip_trivia_at(s, i + 1, true)
        }
    } else if is_space_char(s[i]) {
        skip_trivia_at(s, i + 1, false)
    } else if s[i] == ';' {
        skip_trivia_at(s, i + 1, true)
    } else {
        i
    }
}

pub open spec fn skip_trivia(s: Seq<char>, i: int) -> int {
    skip_trivia_at(s, i, false)
}

/// End of the run of alphanumeric characters starting at `i`.
pub open spec fn alnum_run_end(s: Seq<char>, i: int) -> int
    decreases s.len() - i,
{
    if 0 <= i < s.len() && is_alnum_char(s[i]) {
        alnum_run_end(s, i + 1)
    } else {
        i
    }
}

/// End of the run of identifier characters starting at `i`.
pub open spec fn word_run_end(s: Seq<char>, i: int) -> int
    decreases s.len() - i,
{
    if 0 <= i < s.len() && is_word_char(s[i]) {
        word_run_end(s, i + 1)
    } else {
        i
    }
}

/// Value of `c` as a digit; 36 never stands below any accepted base, so it
/// marks a character that is no digit at all.
pub open spec fn digit_val(c: char) -> int {
    if is_digit_char(c) {
        c as u32 - 48
    } else if 97 <= c as u32 <= 122 {
        c as u32 - 87
    } else if 65 <= c as u32 <= 90 {
        c as u32 - 55
    } else {
        36
    }
}

/// A non-empty digit string all of whose characters are digits of `base`.
pub open spec fn digits_ok(s: Seq<char>, base: int) -> bool {
    s.len() > 0 && forall|k: int| 0 <= k < s.len() ==> digit_val(s[k]) < base
}

/// The numeric value of a digit string under `base`.
pub open spec fn digits_val(s: Seq<char>, base: int) -> int
    decreases s.len(),
{
    if s.len() == 0 {
        0
    } else {
        digits_val(s.drop_last(), base) * base + digit_val(s.last())
    }
}

pub open spec fn has_radix_prefix(text: Seq<char>, c: char) -> bool {
    text.len() >= 2 && text[0] == '0' && text[1] == c
}

/// The base selected by a literal's prefix: `0b` is 2, `0x` is 16, and `0o`
/// is 12 (kept exactly as the language has always behaved), else 10.
pub open spec fn lit_radix(text: Seq<char>) -> int {
    if has_radix_prefix(text, 'b') {
        2
    } else if has_radix_prefix(text, 'x') {
        16
    } else if has_radix_prefix(text, 'o') {
        12
    } else {
        10
    }
}

/// The digit characters of a literal: everything after the radix prefix.
pub open spec fn lit_digits(text: Seq<char>) -> Seq<char> {
    if lit_radix(text) == 10 {
        text
    } else {
        text.skip(2)
    }
}

/// The value of an integer literal, or `None` when it is malformed for its
/// selected radix or does not fit 16 bits.
pub open spec fn lit_value(text: Seq<char>) -> Option<u16> {
    let base = lit_radix(text);
    let ds = lit_digits(text);
    if digits_ok(ds, base) && digits_val(ds, base) <= 0xffff {
        Some(digits_val(ds, base) as u16)
    } else {
        None
    }
}

/// What the lexer finds at position `i`: end of input, a token together
/// with the position just past it, or a lexical failure.
pub enum LexOut {
    End,
    Tok(TokView, int),
    Fail(LexerError),
}

/// The token starting at position `i` of the source, after skipping
/// whitespace and comments. This single function pins the whole lexical
/// grammar; every lexer contract is stated against it.
pub open spec fn lex_from(s: Seq<char>, i: int) -> LexOut {
    let j = skip_trivia(s, i);
    if j >= s.len() {
        LexOut::End
    } else {
        let c = s[j];
        if c == '$' {
            let k = alnum_run_end(s, j + 1);
            if k == j + 1 {
                LexOut::Tok(TokView::CurrentInst, j + 1)
            } else {
                match lit_value(s.subrange(j + 1, k)) {
                    Some(v) => LexOut::Tok(TokView::Integer(v), k),
                    None => LexOut::Fail(LexerError::MalformedLiteral),
                }
            }
        } else if c == '=' {
            LexOut::Tok(TokView::Equal, j + 1)
        } else if c == '.' {
            let k = word_run_end(s, j + 1);
            LexOut::Tok(TokView::DotWord(s.subrange(j + 1, k)), k)
        } else if is_alpha_char(c) {
            let k = word_run_end(s, j);
            LexOut::Tok(TokView::Word(s.subrange(j, k)), k)
        } else if is_digit_char(c) {
            let k = alnum_run_end(s, j);
            match lit_value(s.subrange(j, k)) {
                Some(v) => LexOut::Tok(TokView::Integer(v), k),
                None => LexOut::Fail(LexerError::MalformedLiteral),
            }
        } else if c == '[' {
            LexOut::Tok(TokView::OpenSquare, j + 1)
        } else if c == ':' {
            LexOut::Tok(TokView::DoubleDot, j + 1)
        } else if c == ']' {
            LexOut::Tok(TokView::CloseSquare, j + 1)
        } else {
            LexOut::Fail(LexerError::Unparsable(c))
        }
    }
}

proof fn lemma_skip_trivia_bounds(s: Seq<char>, i: int, in_comment: bool)
    requires
        0 <= i <= s.len(),
    ensures
        i <= skip_trivia_at(s, i, in_comment) <= s.len(),
    decreases s.len() - i,
{
    if i < s.len() {
        if in_comment {
            lemma_skip_trivia_bounds(s, i + 1, s[i] != '\n');
        } else if is_space_char(s[i]) {
            lemma_skip_trivia_bounds(s, i + 1, false);
        } else if s[i] == ';' {
            lemma_skip_trivia_bounds(s, i + 1, true);
        }
    }
}

proof fn lemma_alnum_run_bounds(s: Seq<char>, i: int)
    requires
        0 <= i <= s.len(),
    ensures
        i <= alnum_run_end(s, i) <= s.len(),
    decreases s.len() - i,
{
    if i < s.len() && is_alnum_char(s[i]) {
        lemma_alnum_run_bounds(s, i + 1);
    }
}

proof fn lemma_word_run_bounds(s: Seq<char>, i: int)
    requires
        0 <= i <= s.len(),
    ensures
        i <= word_run_end(s, i) <= s.len(),
    decreases s.len() - i,
{
    if i < s.len() && is_word_char(s[i]) {
        lemma_word_run_bounds(s, i + 1);
    }
}

/// A token always stands strictly left of the position returned with it.
pub proof fn lemma_lex_from_bounds(s: Seq<char>, i: int)
    requires
        0 <= i <= s.len(),
    ensures
        lex_from(s, i) matches LexOut::Tok(tv, p) ==> i < p <= s.len(),
{
    lemma_skip_trivia_bounds(s, i, false);
    let j = skip_trivia(s, i);
    if j < s.len() {
        lemma_alnum_run_bounds(s, j + 1);
        lemma_word_run_bounds(s, j + 1);
        lemma_alnum_run_bounds(s, j);
        lemma_word_run_bounds(s, j);
        if is_alpha_char(s[j]) {
            // An identifier's first character continues its own run.
            assert(word_run_end(s, j) == word_run_end(s, j + 1));
        }
        if is_digit_char(s[j]) {
            // A bare literal only becomes a token when it parsed, so it is
            // a non-empty stretch of text.
            let k = alnum_run_end(s, j);
            assert(lit_value(s.subrange(j, k)) is Some ==> s.subrange(j, k).len() > 0);
        }
    }
}

/// The longest well-formed token prefix from position `i`, together with
/// the lexical failure that cut it short, if one did (a clean end of input
/// leaves `None`). Tokens are pulled lazily, one by one, so a bad character
/// is only ever reached after every token standing before it.
pub open spec fn lex_prefix(s: Seq<char>, i: int) -> (Seq<TokView>, Option<LexerError>)
    decreases s.len() - i,
{
    match lex_from(s, i) {
        LexOut::End => (Seq::<TokView>::empty(), None::<LexerError>),
        LexOut::Fail(e) => (Seq::<TokView>::empty(), Some(e)),
        LexOut::Tok(tv, p) => if i < p <= s.len() {
            let rest = lex_prefix(s, p);
            (seq![tv] + rest.0, rest.1)
        } else {
            arbitrary()
        },
    }
}

/// No token is empty, so a source of `n` characters holds at most `n` tokens.
pub proof fn lemma_lex_prefix_len(s: Seq<char>, i: int)
    requires
        0 <= i <= s.len(),
    ensures
        lex_prefix(s, i).0.len() <= s.len() - i,
    decreases s.len() - i,
{
    lemma_lex_from_bounds(s, i);
    if let LexOut::Tok(tv, p) = lex_from(s, i) {
        lemma_lex_prefix_len(s, p);
    }
}

/// Relies on char::is_whitespace: whether `c` has the White_Space property,
/// a function of the character alone.
#[verifier::external_body]
fn is_space(c: char) -> (r: bool)
    ensures
        r == is_space_char(c),
{
    c.is_whitespace()
}

/// Relies on char::is_alphabetic: whether `c` is a letter, a function of
/// the character alone.
#[verifier::external_body]
fn is_alpha(c: char) -> (r: bool)
    ensures
        r == is_alpha_char(c),
{
    c.is_alphabetic()
}

/// Relies on char::is_numeric: whether `c` is in a numeric general
/// category, a function of the character alone.
#[verifier::external_body]
fn is_numeric(c: char) -> (r: bool)
    ensures
        r == is_numeric_char(c),
{
    c.is_numeric()
}

fn is_digit(c: char) -> (r: bool)
    ensures
        r == is_digit_char(c),
{
    let u = c as u32;
    48 <= u && u <= 57
}

fn is_alnum(c: char) -> (r: bool)
    ensures
        r == is_alnum_char(c),
{
    is_alpha(c) || is_numeric(c)
}

fn is_word(c: char) -> (r: bool)
    ensures
        r == is_word_char(c),
{
    is_alnum(c) || c == '_'
}

fn digit_of(c: char) -> (d: u32)
    ensures
        d as int == digit_val(c),
{
    let u = c as u32;
    if 48 <= u && u <= 57 {
        u - 48
    } else if 97 <= u && u <= 122 {
        u - 87
    } else if 65 <= u && u <= 90 {
        u - 55
    } else {
        36
    }
}

/// Digit values never go below zero, so a digit string's value doesn't either.
proof fn lemma_digits_val_nonneg(s: Seq<char>, base: int)
    requires
        base >= 2,
    ensures
        digits_val(s, base) >= 0,
    decreases s.len(),
{
    if s.len() > 0 {
        lemma_digits_val_nonneg(s.drop_last(), base);
    }
}

/// A digit string's value only grows as digits are appended.
proof fn lemma_digits_val_prefix(s: Seq<char>, base: int, m: int)
    requires
        base >= 2,
        0 <= m <= s.len(),
    ensures
        digits_val(s.subrange(0, m), base) <= digits_val(s, base),
    decreases s.len() - m,
{
    if m < s.len() {
        let p = s.subrange(0, m);
        let q = s.subrange(0, m + 1);
        assert(q.drop_last() =~= p);
        lemma_digits_val_nonneg(p, base);
        let v = digits_val(p, base);
        let d = digit_val(s[m]);
        assert(q.last() == s[m]);
        assert(digits_val(q, base) == v * base + d);
        assert(v * base >= v) by (nonlinear_arith)
            requires
                v >= 0,
                base >= 2,
        ;
        lemma_digits_val_prefix(s, base, m + 1);
    } else {
        assert(s.subrange(0, m) =~= s);
    }
}

/// The lexer: a cursor over the source text. `pos` counts characters from
/// the start of `src`; tokens borrow their payload from `src`.
pub struct Lexer<'d> {
    pub src: &'d str,
    pub pos: usize,
}

impl<'d> Lexer<'d> {
    /// The cursor never stands past the end of the source.
    pub open spec fn wf(&self) -> bool {
        self.pos <= self.src@.len()
    }

    /// A lexer positioned at the start of `src`.
    pub fn new(src: &'d str) -> (l: Lexer<'d>)
        ensures
            l.src@ == src@,
            l.pos == 0,
            l.wf(),
    {
        Lexer { src, pos: 0 }
    }

    /// Advances the cursor past whitespace and comments.
    fn trim(&mut self)
        requires
            old(self).wf(),
        ensures
            final(self).src == old(self).src,
            final(self).pos == skip_trivia(old(self).src@, old(self).pos as int),
            final(self).wf(),
    {
        let ghost s = self.src@;
        let ghost i0 = self.pos as int;
        let n = self.src.unicode_len();
        let mut in_comment = false;
        loop
            invariant
                self.src == old(self).src,
                s == self.src@,
                n == s.len(),
                self.pos <= n,
                skip_trivia_at(s, i0, false) == skip_trivia_at(s, self.pos as int, in_comment),
            ensures
                self.src == old(self).src,
                skip_trivia_at(s, i0, false) == self.pos as int,
            decreases n - self.pos,
        {
            if self.pos >= n {
                break ;
            }
            let c = self.src.get_char(self.pos);
            if in_comment {
                if c == '\n' {
                    in_comment = false;
                }
                self.pos = self.pos + 1;
            } else if is_space(c) {
                self.pos = self.pos + 1;
            } else if c == ';' {
                in_comment = true;
                self.pos = self.pos + 1;
            } else {
                break ;
            }
        }
    }

    /// Consumes the run of identifier characters at the cursor and returns
    /// it as a borrowed slice of the source.
    fn parse_word(&mut self) -> (w: &'d str)
        requires
            old(self).wf(),
        ensures
            final(self).src == old(self).src,
            final(self).pos == word_run_end(old(self).src@, old(self).pos as int),
            w@ == old(self).src@.subrange(old(self).pos as int, final(self).pos as int),
            final(self).wf(),
    {
        let ghost s = self.src@;
        let start = self.pos;
        let n = self.src.unicode_len();
        loop
            invariant
                self.src == old(self).src,
                s == self.src@,
                n == s.len(),
                start <= self.pos <= n,
                word_run_end(s, start as int) == word_run_end(s, self.pos as int),
            ensures
                self.src == old(self).src,
                word_run_end(s, start as int) == self.pos as int,
            decreases n - self.pos,
        {
            if self.pos >= n {
                break ;
            }
            let c = self.src.get_char(self.pos);
            if !is_word(c) {
                break ;
            }
            self.pos = self.pos + 1;
        }
        let src = self.src;
        src.substring_char(start, self.pos)
    }

    /// Consumes the run of alphanumeric characters at the cursor and returns
    /// it as a borrowed slice of the source.
    fn parse_alnum_run(&mut self) -> (w: &'d str)
        requires
            old(self).wf(),
        ensures
            final(self).src == old(self).src,
            final(self).pos == alnum_run_end(old(self).src@, old(self).pos as int),
            w@ == old(self).src@.subrange(old(self).pos as int, final(self).pos as int),
            final(self).wf(),
    {
        let ghost s = self.src@;
        let start = self.pos;
        let n = self.src.unicode_len();
        loop
            invariant
                self.src == old(self).src,
                s == self.src@,
                n == s.len(),
                start <= self.pos <= n,
                alnum_run_end(s, start as int) == alnum_run_end(s, self.pos as int),
            ensures
                self.src == old(self).src,
                alnum_run_end(s, start as int) == self.pos as int,
            decreases n - self.pos,
        {
            if self.pos >= n {
                break ;
            }
            let c = self.src.get_char(self.pos);
            if !is_alnum(c) {
                break ;
            }
            self.pos = self.pos + 1;
        }
        let src = self.src;
        src.substring_char(start, self.pos)
    }

    /// Parses an integer literal under the radix its prefix selects.
    fn parse_int_literal(&self, lit: &str) -> (r: Result<u16, LexerError>)
        ensures
            r == match lit_value(lit@) {
                Some(v) => Result::<u16, LexerError>::Ok(v),
                None => Result::<u16, LexerError>::Err(LexerError::MalformedLiteral),
            },
    {
        let ghost text = lit@;
        let n = lit.unicode_len();
        let mut start: usize = 0;
        let mut base: u32 = 10;
        if n >= 2 && lit.get_char(0) == '0' {
            let c1 = lit.get_char(1);
            if c1 == 'b' {
                base = 2;
                start = 2;
            } else if c1 == 'x' {
                base = 16;
                start = 2;
            } else if c1 == 'o' {
                base = 12;
                start = 2;
            }
        }
        proof {
            assert(base == lit_radix(text));
            assert(start == 2 ==> lit_digits(text) =~= text.subrange(2, n as int));
            assert(start == 0 ==> lit_digits(text) =~= text.subrange(0, n as int));
        }
        let ghost ds = lit_digits(text);
        if start >= n {
            // No digits after the prefix.
            return Err(LexerError::MalformedLiteral);
        }
        let mut acc: u32 = 0;
        let mut k = start;
        while k < n
            invariant
                text == lit@,
                start <= k <= n,
                n == text.len(),
                2 <= base <= 16,
                base == lit_radix(text),
                ds == lit_digits(text),
                ds =~= text.subrange(start as int, n as int),
                start == 0 || start == 2,
                acc <= 0xffff,
                acc as int == digits_val(
                    text.subrange(start as int, k as int),
                    base as int,
                ),
                forall|m: int|
                    start <= m < k ==> digit_val(text[m]) < base,
            decreases n - k,
        {
            let c = lit.get_char(k);
            let d = digit_of(c);
            if d >= base {
                proof {
                    assert(digit_val(ds[k - start]) >= base);
                }
                return Err(LexerError::MalformedLiteral);
            }
            let next = acc * base + d;
            proof {
                let prefix = text.subrange(start as int, k as int);
                let prefix1 = text.subrange(start as int, k + 1 as int);
                assert(prefix1.drop_last() =~= prefix);
                assert(next as int == digits_val(prefix1, base as int));
            }
            if next > 0xffff {
                proof {
                    let shifted = ds.subrange(0, k + 1 - start as int);
                    assert(shifted =~= text.subrange(start as int, k + 1 as int));
                    lemma_digits_val_prefix(ds, base as int, k + 1 - start as int);
                }
                return Err(LexerError::MalformedLiteral);
            }
            acc = next;
            k = k + 1;
        }
        proof {
            assert(text.subrange(start as int, n as int) =~= ds);
            assert(digits_ok(ds, base as int));
        }
        Ok(acc as u16)
    }

    /// Returns the next token, or `None` at end of input, advancing the
    /// cursor; fails exactly where the lexical grammar does.
    pub fn next(&mut self) -> (r: Result<Option<Token<'d>>, LexerError>)
        requires
            old(self).wf(),
        ensures
            final(self).wf(),
            final(self).src == old(self).src,
            match lex_from(old(self).src@, old(self).pos as int) {
                LexOut::End => r matches Ok(o) && o is None
                    && final(self).pos == old(self).src@.len(),
                LexOut::Tok(tv, p) => (r matches Ok(o) && o matches Some(t) && t@ == tv)
                    && final(self).pos == p,
                LexOut::Fail(e) => r matches Err(e2) && e2 == e,
            },
    {
        proof {
            lemma_skip_trivia_bounds(old(self).src@, old(self).pos as int, false);
        }
        self.trim();
        let n = self.src.unicode_len();
        if self.pos >= n {
            return Ok(None);
        }
        let c = self.src.get_char(self.pos);
        if c == '$' {
            let ghost s = self.src@;
            let ghost j = self.pos as int;
            self.pos = self.pos + 1;
            let lit = self.parse_alnum_run();
            let ghost k = self.pos as int;
            if lit.unicode_len() == 0 {
                proof {
                    lemma_alnum_run_bounds(s, j + 1);
                    assert(lit@.len() == 0);
                    assert(k == alnum_run_end(s, j + 1));
                    assert(k == j + 1);
                    assert(lex_from(s, old(self).pos as int) == LexOut::Tok(
                        TokView::CurrentInst,
                        j + 1,
                    ));
                }
                return Ok(Some(Token { kind: TokenKind::CurrentInst }));
            }
            match self.parse_int_literal(lit) {
                Ok(v) => Ok(Some(Token { kind: TokenKind::Integer(v) })),
                Err(e) => Err(e),
            }
        } else if c == '=' {
            self.pos = self.pos + 1;
            Ok(Some(Token { kind: TokenKind::Equal }))
        } else if c == '.' {
            self.pos = self.pos + 1;
            let w = self.parse_word();
            Ok(Some(Token { kind: TokenKind::DotWord(w) }))
        } else if is_alpha(c) {
            let w = self.parse_word();
            Ok(Some(Token { kind: TokenKind::Word(w) }))
        } else if is_digit(c) {
            let lit = self.parse_alnum_run();
            match self.parse_int_literal(lit) {
                Ok(v) => Ok(Some(Token { kind: TokenKind::Integer(v) })),
                Err(e) => Err(e),
            }
        } else if c == '[' {
            self.pos = self.pos + 1;
            Ok(Some(Token { kind: TokenKind::OpenSquare }))
        } else if c == ':' {
            self.pos = self.pos + 1;
            Ok(Some(Token { kind: TokenKind::DoubleDot }))
        } else if c == ']' {
            self.pos = self.pos + 1;
            Ok(Some(Token { kind: TokenKind::CloseSquare }))
        } else {
            Err(LexerError::Unparsable(c))
        }
    }

    /// Returns what `next` would return, without moving the cursor.
    pub fn peak(&mut self) -> (r: Result<Option<Token<'d>>, LexerError>)
        requires
            old(self).wf(),
        ensures
            final(self).src == old(self).src,
            final(self).pos == old(self).pos,
            match lex_from(old(self).src@, old(self).pos as int) {
                LexOut::End => r matches Ok(o) && o is None,
                LexOut::Tok(tv, p) => r matches Ok(o) && o matches Some(t) && t@ == tv,
                LexOut::Fail(e) => r matches Err(e2) && e2 == e,
            },
    {
        let save = self.pos;
        let r = self.next();
        self.pos = save;
        r
    }

    /// Consumes one token and discards it; only positions where a token
    /// stands (as `peak` can confirm) may be eaten.
    pub fn eat(&mut self)
        requires
            old(self).wf(),
            lex_from(old(self).src@, old(self).pos as int) is Tok,
        ensures
            final(self).wf(),
            final(self).src == old(self).src,
            final(self).pos == lex_from(old(self).src@, old(self).pos as int)->Tok_1,
    {
        let _ = self.next();
    }
}

} // verus!

