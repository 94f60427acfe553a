//! The lexer: turns source text into a finite sequence of tokens in a
//! single forward pass. Whitespace is skipped, `#` starts a line comment
//! consumed through the end of the line, a letter starts a keyword or an
//! identifier, a digit or a dot starts a numeric literal, and any other
//! character becomes a one-character operator token.
//!
//! Letters, digits and whitespace are the ASCII ones; every other
//! character is an operator character.
//!
//! The whole behaviour is specified by the spec-level tokenizer
//! [`next_tok`] / [`lex_stream`] over `Seq<char>`, and the executable
//! lexer is proved to follow it step by step. A malformed numeric literal
//! (no digit, or more than one dot) is a recoverable error: the lexer
//! reports it and can continue after the offending run.

use vstd::prelude::*;
use vstd::string::*;

verus! {

// ---------------------------------------------------------------------------
// Tokens
// ---------------------------------------------------------------------------

/// A token. Numeric literals carry their source text (see `crate::ast`).
#[derive(Debug, PartialEq)]
pub enum Token {
    Def,
    Extern,
    Identifier(String),
    Number(String),
    Op(char),
    If,
    Then,
    Else,
    For,
    In,
    Var,
    Unary,
    Binary,
    EoF,
}

/// The view of a token. The extra [`TokenView::Malformed`] variant stands
/// for a malformed numeric literal ending a token stream; the executable
/// lexer reports it as a [`LexError`], never as a `Token`.
pub enum TokenView {
    Def,
    Extern,
    Identifier(Seq<char>),
    Number(Seq<char>),
    Op(char),
    If,
    Then,
    Else,
    For,
    In,
    Var,
    Unary,
    Binary,
    EoF,
    Malformed(Seq<char>),
}

impl View for Token {
    type V = TokenView;

    open spec fn view(&self) -> TokenView {
        match self {
            Token::Def => TokenView::Def,
            Token::Extern => TokenView::Extern,
            Token::Identifier(s) => TokenView::Identifier(s@),
            Token::Number(s) => TokenView::Number(s@),
            Token::Op(c) => TokenView::Op(*c),
            Token::If => TokenView::If,
            Token::Then => TokenView::Then,
            Token::Else => TokenView::Else,
            Token::For => TokenView::For,
            Token::In => TokenView::In,
            Token::Var => TokenView::Var,
            Token::Unary => TokenView::Unary,
            Token::Binary => TokenView::Binary,
            Token::EoF => TokenView::EoF,
        }
    }
}

/// A lexical error: a malformed numeric literal, carried as its text.
#[derive(Debug, PartialEq)]
pub enum LexError {
    MalformedNumber(String),
}

// ---------------------------------------------------------------------------
// Character classes (ASCII)
// ---------------------------------------------------------------------------

pub open spec fn is_space_char(c: char) -> bool {
    c == ' ' || c == '\t' || c == '\n' || c == '\r' || c as u32 == 11 || c as u32 == 12
}

pub open spec fn is_digit_char(c: char) -> bool {
    '0' <= c && c <= '9'
}

/// The characters a numeric literal is drawn from: digits and the dot.
pub open spec fn is_number_char(c: char) -> bool {
    is_digit_char(c) || c == '.'
}

pub open spec fn is_alpha_char(c: char) -> bool {
    ('a' <= c && c <= 'z') || ('A' <= c && c <= 'Z')
}

/// The characters an identifier or keyword is drawn from.
pub open spec fn is_word_char(c: char) -> bool {
    is_alpha_char(c) || is_digit_char(c)
}

fn space_char(c: char) -> (b: bool)
    ensures
        b == is_space_char(c),
{
    c == ' ' || c == '\t' || c == '\n' || c == '\r' || c as u32 == 11 || c as u32 == 12
}

fn digit_char(c: char) -> (b: bool)
    ensures
        b == is_digit_char(c),
{
    '0' <= c && c <= '9'
}

fn number_char(c: char) -> (b: bool)
    ensures
        b == is_number_char(c),
{
    digit_char(c) || c == '.'
}

fn alpha_char(c: char) -> (b: bool)
    ensures
        b == is_alpha_char(c),
{
    ('a' <= c && c <= 'z') || ('A' <= c && c <= 'Z')
}

fn word_char(c: char) -> (b: bool)
    ensures
        b == is_word_char(c),
{
    alpha_char(c) || digit_char(c)
}

// ---------------------------------------------------------------------------
// The spec-level tokenizer
// ---------------------------------------------------------------------------

/// Drops leading whitespace and line comments.
pub open spec fn skip_blanks(s: Seq<char>) -> Seq<char>
    decreases s.len(), 1int,
{
    if s.len() == 0 {
        s
    } else if is_space_char(s[0]) {
        skip_blanks(s.drop_first())
    } else if s[0] == '#' {
        skip_blanks_in_comment(s.drop_first())
    } else {
        s
    }
}

/// Drops the rest of a line comment (through the newline, if any), then
/// continues dropping whitespace and comments.
pub open spec fn skip_blanks_in_comment(s: Seq<char>) -> Seq<char>
    decreases s.len(), 0int,
{
    if s.len() == 0 {
        s
    } else if s[0] == '\n' {
        skip_blanks(s.drop_first())
    } else {
        skip_blanks_in_comment(s.drop_first())
    }
}

/// The length of the longest prefix of `s` drawn from the word characters.
pub open spec fn word_run_len(s: Seq<char>) -> nat
    decreases s.len(),
{
    if s.len() > 0 && is_word_char(s[0]) {
        1 + word_run_len(s.drop_first())
    } else {
        0
    }
}

/// The length of the longest prefix of `s` drawn from the number characters.
pub open spec fn number_run_len(s: Seq<char>) -> nat
    decreases s.len(),
{
    if s.len() > 0 && is_number_char(s[0]) {
        1 + number_run_len(s.drop_first())
    } else {
        0
    }
}

/// How many characters of `s` are digits.
pub open spec fn digit_count(s: Seq<char>) -> nat
    decreases s.len(),
{
    if s.len() == 0 {
        0
    } else {
        (if is_digit_char(s[0]) {
            1nat
        } else {
            0nat
        }) + digit_count(s.drop_first())
    }
}

/// How many characters of `s` are dots.
pub open spec fn dot_count(s: Seq<char>) -> nat
    decreases s.len(),
{
    if s.len() == 0 {
        0
    } else {
        (if s[0] == '.' {
            1nat
        } else {
            0nat
        }) + dot_count(s.drop_first())
    }
}

/// A well-formed numeric literal: at least one digit, at most one dot.
pub open spec fn wf_number(s: Seq<char>) -> bool {
    digit_count(s) >= 1 && dot_count(s) <= 1
}

/// The keyword token for a reserved word, or an identifier token for any
/// other word.
pub open spec fn keyword_or_identifier(w: Seq<char>) -> TokenView {
    if w == "def"@ {
        TokenView::Def
    } else if w == "extern"@ {
        TokenView::Extern
    } else if w == "if"@ {
        TokenView::If
    } else if w == "then"@ {
        TokenView::Then
    } else if w == "else"@ {
        TokenView::Else
    } else if w == "for"@ {
        TokenView::For
    } else if w == "in"@ {
        TokenView::In
    } else if w == "var"@ {
        TokenView::Var
    } else if w == "unary"@ {
        TokenView::Unary
    } else if w == "binary"@ {
        TokenView::Binary
    } else {
        TokenView::Identifier(w)
    }
}

/// One step of the spec-level tokenizer.
pub enum LexStep {
    /// Nothing but blanks remain.
    Done,
    /// The next token, and the text after it.
    Tok { t: TokenView, rest: Seq<char> },
    /// A malformed numeric literal, and the text after it.
    Fail { lit: Seq<char>, rest: Seq<char> },
}

/// The first token of `s`, after leading blanks.
pub open spec fn next_tok(s: Seq<char>) -> LexStep {
    let t = skip_blanks(s);
    if t.len() == 0 {
        LexStep::Done
    } else if is_number_char(t[0]) {
        let n = number_run_len(t) as int;
        let lit = t.take(n);
        if wf_number(lit) {
            LexStep::Tok { t: TokenView::Number(lit), rest: t.skip(n) }
        } else {
            LexStep::Fail { lit, rest: t.skip(n) }
        }
    } else if is_alpha_char(t[0]) {
        let n = word_run_len(t) as int;
        LexStep::Tok { t: keyword_or_identifier(t.take(n)), rest: t.skip(n) }
    } else {
        LexStep::Tok { t: TokenView::Op(t[0]), rest: t.skip(1) }
    }
}

/// The full token stream of `s`: the tokens in order, closed by exactly
/// one terminator, [`TokenView::EoF`] after a clean end or
/// [`TokenView::Malformed`] at a malformed numeric literal.
pub open spec fn lex_stream(s: Seq<char>) -> Seq<TokenView>
    decreases s.len(),
{
    match next_tok(s) {
        LexStep::Done => seq![TokenView::EoF],
        LexStep::Fail { lit, rest } => seq![TokenView::Malformed(lit)],
        LexStep::Tok { t, rest } => if rest.len() < s.len() {
            seq![t] + lex_stream(rest)
        } else {
            seq![t]
        },
    }
}

// ---------------------------------------------------------------------------
// Facts about the spec-level tokenizer
// ---------------------------------------------------------------------------

pub proof fn lemma_skip_blanks_len(s: Seq<char>)
    ensures
        skip_blanks(s).len() <= s.len(),
        skip_blanks_in_comment(s).len() <= s.len(),
    decreases s.len(),
{
    if s.len() > 0 {
        lemma_skip_blanks_len(s.drop_first());
    }
}

pub proof fn lemma_run_len_bounds(s: Seq<char>)
    ensures
        word_run_len(s) <= s.len(),
        number_run_len(s) <= s.len(),
    decreases s.len(),
{
    if s.len() > 0 {
        lemma_run_len_bounds(s.drop_first());
    }
}

/// A scan that saw `j` word characters and then the end of the text or a
/// character of another class has found the longest word run.
pub proof fn lemma_word_run_len_is(s: Seq<char>, j: int)
    requires
        0 <= j <= s.len(),
        forall|k: int| 0 <= k < j ==> is_word_char(s[k]),
        j == s.len() || !is_word_char(s[j]),
    ensures
        word_run_len(s) == j,
    decreases s.len(),
{
    if j > 0 {
        assert(is_word_char(s[0]));
        lemma_word_run_len_is(s.drop_first(), j - 1);
    }
}

/// The counterpart of [`lemma_word_run_len_is`] for numeric runs.
pub proof fn lemma_number_run_len_is(s: Seq<char>, j: int)
    requires
        0 <= j <= s.len(),
        forall|k: int| 0 <= k < j ==> is_number_char(s[k]),
        j == s.len() || !is_number_char(s[j]),
    ensures
        number_run_len(s) == j,
    decreases s.len(),
{
    if j > 0 {
        assert(is_number_char(s[0]));
        lemma_number_run_len_is(s.drop_first(), j - 1);
    }
}

/// Appending a character changes the digit and dot counts as expected.
pub proof fn lemma_counts_push(s: Seq<char>, c: char)
    ensures
        digit_count(s.push(c)) == digit_count(s) + (if is_digit_char(c) {
            1nat
        } else {
            0nat
        }),
        dot_count(s.push(c)) == dot_count(s) + (if c == '.' {
            1nat
        } else {
            0nat
        }),
    decreases s.len(),
{
    if s.len() == 0 {
        assert(s.push(c)[0] == c);
        assert(s.push(c).drop_first() =~= Seq::<char>::empty());
        assert(digit_count(s.push(c).drop_first()) == 0);
        assert(s.push(c).len() == 1);
        assert(digit_count(s.push(c)) == (if is_digit_char(c) {
            1nat
        } else {
            0nat
        }) + digit_count(s.push(c).drop_first()));
        assert(digit_count(s) == 0);
        assert(dot_count(s.push(c).drop_first()) == 0);
        assert(dot_count(s.push(c)) == (if c == '.' {
            1nat
        } else {
            0nat
        }) + dot_count(s.push(c).drop_first()));
        assert(dot_count(s) == 0);
    } else {
        assert(s.push(c)[0] == s[0]);
        assert(s.push(c).drop_first() =~= s.drop_first().push(c));
        lemma_counts_push(s.drop_first(), c);
        assert(digit_count(s.push(c)) == (if is_digit_char(s[0]) {
            1nat
        } else {
            0nat
        }) + digit_count(s.push(c).drop_first()));
        assert(digit_count(s) == (if is_digit_char(s[0]) {
            1nat
        } else {
            0nat
        }) + digit_count(s.drop_first()));
        assert(dot_count(s.push(c)) == (if s[0] == '.' {
            1nat
        } else {
            0nat
        }) + dot_count(s.push(c).drop_first()));
        assert(dot_count(s) == (if s[0] == '.' {
            1nat
        } else {
            0nat
        }) + dot_count(s.drop_first()));
    }
}

/// On a token step, the rest is strictly shorter than the input.
pub proof fn lemma_next_tok_consumes(s: Seq<char>)
    ensures
        next_tok(s) matches LexStep::Tok { t, rest } ==> rest.len() < s.len(),
        next_tok(s) matches LexStep::Fail { lit, rest } ==> rest.len() < s.len(),
{
    lemma_skip_blanks_len(s);
    let t = skip_blanks(s);
    lemma_run_len_bounds(t);
}

/// Indexing facts connecting a suffix of `s` to `s` itself.
proof fn lemma_skip_step(s: Seq<char>, i: int)
    requires
        0 <= i < s.len(),
    ensures
        s.skip(i).len() == s.len() - i,
        s.skip(i)[0] == s[i],
        s.skip(i).drop_first() =~= s.skip(i + 1),
{
    assert forall|k: int| 0 <= k < s.len() - i - 1 implies s.skip(i).drop_first()[k] == s.skip(
        i + 1,
    )[k] by {
        assert(s.skip(i).drop_first()[k] == s.skip(i)[k + 1]);
    }
}

// ---------------------------------------------------------------------------
// The executable lexer
// ---------------------------------------------------------------------------

/// A lexer over a borrowed text: a single forward pass, one token per call
/// of [`Lexer::next`].
pub struct Lexer<'a> {
    text: &'a str,
    pos: usize,
    len: usize,
}

impl<'a> Lexer<'a> {
    /// The lexer's state is well formed.
    pub closed spec fn wf(&self) -> bool {
        self.len == self.text@.len() && self.pos <= self.len
    }

    /// The text not yet consumed.
    pub closed spec fn rem(&self) -> Seq<char> {
        self.text@.skip(self.pos as int)
    }

    pub fn new(text: &'a str) -> (l: Lexer<'a>)
        ensures
            l.wf(),
            l.rem() == text@,
    {
        let len = text.unicode_len();
        let l = Lexer { text, pos: 0, len };
        proof {
            assert(l.rem() =~= text@);
        }
        l
    }

    /// Whether `c` can be part of a numeric literal.
    pub fn is_numeric(c: char) -> (b: bool)
        ensures
            b == is_number_char(c),
    {
        number_char(c)
    }

    /// Consumes a line comment: everything through the next newline, or to
    /// the end of the text.
    fn consume_until_eol(&mut self)
        requires
            old(self).wf(),
            old(self).rem().len() > 0,
            old(self).rem()[0] == '#',
        ensures
            final(self).wf(),
            final(self).text == old(self).text,
            final(self).len == old(self).len,
            final(self).pos > old(self).pos,
            skip_blanks(final(self).rem()) == skip_blanks(old(self).rem()),
    {
        proof {
            lemma_skip_step(self.text@, self.pos as int);
            assert(!is_space_char('#'));
            assert(skip_blanks(old(self).rem()) == skip_blanks_in_comment(
                old(self).rem().drop_first(),
            ));
        }
        self.pos += 1;
        while self.pos < self.len && self.text.get_char(self.pos) != '\n'
            invariant
                self.wf(),
                self.text == old(self).text,
                self.len == old(self).len,
                self.pos > old(self).pos,
                skip_blanks_in_comment(self.rem()) == skip_blanks(old(self).rem()),
            decreases self.len - self.pos,
        {
            proof {
                lemma_skip_step(self.text@, self.pos as int);
                assert(self.rem()[0] != '\n');
                assert(skip_blanks_in_comment(self.rem()) == skip_blanks_in_comment(
                    self.rem().drop_first(),
                ));
            }
            self.pos += 1;
        }
        if self.pos < self.len {
            proof {
                lemma_skip_step(self.text@, self.pos as int);
                assert(self.rem()[0] == '\n');
                assert(skip_blanks_in_comment(self.rem()) == skip_blanks(
                    self.rem().drop_first(),
                ));
            }
            self.pos += 1;
        } else {
            proof {
                assert(self.rem().len() == 0);
            }
        }
    }

    /// Consumes whitespace and line comments, stopping at the first
    /// character of the next token or at the end of the text.
    fn consume_whitespaces(&mut self)
        requires
            old(self).wf(),
        ensures
            final(self).wf(),
            final(self).text == old(self).text,
            final(self).len == old(self).len,
            final(self).pos >= old(self).pos,
            final(self).rem() == skip_blanks(old(self).rem()),
    {
        loop
            invariant
                self.wf(),
                self.text == old(self).text,
                self.len == old(self).len,
                self.pos >= old(self).pos,
                skip_blanks(self.rem()) == skip_blanks(old(self).rem()),
            decreases self.len - self.pos,
        {
            if self.pos == self.len {
                proof {
                    assert(self.rem().len() == 0);
                    assert(skip_blanks(self.rem()) == self.rem());
                }
                return ;
            }
            proof {
                lemma_skip_step(self.text@, self.pos as int);
            }
            let c = self.text.get_char(self.pos);
            if space_char(c) {
                proof {
                    assert(skip_blanks(self.rem()) == skip_blanks(self.rem().drop_first()));
                }
                self.pos += 1;
            } else if c == '#' {
                self.consume_until_eol();
            } else {
                proof {
                    assert(skip_blanks(self.rem()) == self.rem());
                }
                return ;
            }
        }
    }

    /// Consumes the longest run of word characters, returning it.
    fn consume_alphabetic(&mut self) -> (r: String)
        requires
            old(self).wf(),
            old(self).rem().len() > 0,
            is_alpha_char(old(self).rem()[0]),
        ensures
            final(self).wf(),
            final(self).text == old(self).text,
            final(self).len == old(self).len,
            final(self).pos > old(self).pos,
            r@ == old(self).rem().take(word_run_len(old(self).rem()) as int),
            final(self).rem() == old(self).rem().skip(word_run_len(old(self).rem()) as int),
    {
        let start = self.pos;
        while self.pos < self.len && word_char(self.text.get_char(self.pos))
            invariant
                self.wf(),
                self.text == old(self).text,
                self.len == old(self).len,
                start == old(self).pos,
                start <= self.pos,
                forall|k: int| start <= k < self.pos ==> is_word_char(self.text@[k]),
            decreases self.len - self.pos,
        {
            self.pos += 1;
        }
        proof {
            let orig = old(self).rem();
            let j = self.pos - start;
            assert forall|k: int| 0 <= k < j implies is_word_char(orig[k]) by {
                assert(orig[k] == self.text@[start + k]);
            }
            if self.pos < self.len {
                assert(orig[j] == self.text@[start + j]);
                assert(!is_word_char(orig[j]));
            } else {
                assert(j == orig.len());
            }
            lemma_word_run_len_is(orig, j);
            assert(self.pos > start) by {
                assert(is_alpha_char(orig[0]));
            }
        }
        let w = self.text.substring_char(start, self.pos);
        let r = w.to_owned();
        proof {
            let orig = old(self).rem();
            let j = word_run_len(orig) as int;
            assert(r@ =~= orig.take(j));
            assert(final(self).rem() =~= orig.skip(j));
        }
        r
    }

    /// Consumes the longest run of number characters, yielding a numeric
    /// token when the run is a well-formed literal and a recoverable
    /// error otherwise.
    fn consume_numeric(&mut self) -> (r: Result<Token, LexError>)
        requires
            old(self).wf(),
            old(self).rem().len() > 0,
            is_number_char(old(self).rem()[0]),
        ensures
            final(self).wf(),
            final(self).text == old(self).text,
            final(self).len == old(self).len,
            final(self).pos > old(self).pos,
            final(self).rem() == old(self).rem().skip(number_run_len(old(self).rem()) as int),
            ({
                let lit = old(self).rem().take(number_run_len(old(self).rem()) as int);
                if wf_number(lit) {
                    r matches Ok(t) && t@ == TokenView::Number(lit)
                } else {
                    r matches Err(LexError::MalformedNumber(m)) && m@ == lit
                }
            }),
    {
        let start = self.pos;
        let mut digits: usize = 0;
        let mut dots: usize = 0;
        while self.pos < self.len && number_char(self.text.get_char(self.pos))
            invariant
                self.wf(),
                self.text == old(self).text,
                self.len == old(self).len,
                start == old(self).pos,
                start <= self.pos,
                digits <= self.pos - start,
                dots <= self.pos - start,
                digits == digit_count(self.text@.subrange(start as int, self.pos as int)),
                dots == dot_count(self.text@.subrange(start as int, self.pos as int)),
                forall|k: int| start <= k < self.pos ==> is_number_char(self.text@[k]),
            decreases self.len - self.pos,
        {
            let c = self.text.get_char(self.pos);
            proof {
                let pre = self.text@.subrange(start as int, self.pos as int);
                assert(self.text@.subrange(start as int, self.pos as int + 1) =~= pre.push(
                    self.text@[self.pos as int],
                ));
                lemma_counts_push(pre, self.text@[self.pos as int]);
            }
            if digit_char(c) {
                digits += 1;
            } else {
                dots += 1;
            }
            self.pos += 1;
        }
        proof {
            let orig = old(self).rem();
            let j = self.pos - start;
            assert forall|k: int| 0 <= k < j implies is_number_char(orig[k]) by {
                assert(orig[k] == self.text@[start + k]);
            }
            if self.pos < self.len {
                assert(orig[j] == self.text@[start + j]);
                assert(!is_number_char(orig[j]));
            } else {
                assert(j == orig.len());
            }
            lemma_number_run_len_is(orig, j);
            assert(self.pos > start) by {
                assert(is_number_char(orig[0]));
            }
            assert(orig.take(j) =~= self.text@.subrange(start as int, self.pos as int));
            assert(final(self).rem() =~= orig.skip(j));
        }
        let lit = self.text.substring_char(start, self.pos).to_owned();
        if digits >= 1 && dots <= 1 {
            Ok(Token::Number(lit))
        } else {
            Err(LexError::MalformedNumber(lit))
        }
    }

    /// The next token, `None` at the end of the text, or the recoverable
    /// error for a malformed numeric literal.
    pub fn next(&mut self) -> (r: Option<Result<Token, LexError>>)
        requires
            old(self).wf(),
        ensures
            final(self).wf(),
            match next_tok(old(self).rem()) {
                LexStep::Done => r is None && final(self).rem().len() == 0,
                LexStep::Tok { t, rest } => (r matches Some(res) && res matches Ok(tok) && tok@
                    == t) && final(self).rem() == rest,
                LexStep::Fail { lit, rest } => (r matches Some(res) && res matches Err(
                    LexError::MalformedNumber(m),
                ) && m@ == lit) && final(self).rem() == rest,
            },
    {
        self.consume_whitespaces();
        if self.pos == self.len {
            proof {
                assert(self.rem().len() == 0);
            }
            return None;
        }
        proof {
            lemma_skip_step(self.text@, self.pos as int);
        }
        let c = self.text.get_char(self.pos);
        if Self::is_numeric(c) {
            match self.consume_numeric() {
                Ok(t) => Some(Ok(t)),
                Err(e) => Some(Err(e)),
            }
        } else if alpha_char(c) {
            let w = self.consume_alphabetic();
            Some(Ok(classify_word(w)))
        } else {
            proof {
                let t = skip_blanks(old(self).rem());
                assert(t.drop_first() =~= t.skip(1));
                lemma_skip_step(self.text@, self.pos as int);
            }
            self.pos += 1;
            Some(Ok(Token::Op(c)))
        }
    }
}

// ---------------------------------------------------------------------------
// Lexing a whole text
// ---------------------------------------------------------------------------

pub open spec fn toks_view(toks: Seq<Token>) -> Seq<TokenView> {
    Seq::new(toks.len(), |i: int| toks[i]@)
}

/// The terminator of a lexed stream: end-of-input, or the malformed
/// numeric literal the lexing stopped at.
pub open spec fn terminator_view(tail: Option<LexError>) -> TokenView {
    match tail {
        None => TokenView::EoF,
        Some(LexError::MalformedNumber(m)) => TokenView::Malformed(m@),
    }
}

/// The stream that a (tokens, tail) pair stands for: the tokens in order,
/// closed by the terminator.
pub open spec fn stream_view(toks: Seq<Token>, tail: Option<LexError>) -> Seq<TokenView> {
    toks_view(toks) + seq![terminator_view(tail)]
}

/// Lexes a whole text in one forward pass: all its tokens in order, and
/// the malformed numeric literal the pass stopped at, if any.
pub fn tokenize(input: &str) -> (r: (Vec<Token>, Option<LexError>))
    ensures
        stream_view(r.0@, r.1) == lex_stream(input@),
{
    let mut lexer = Lexer::new(input);
    let mut toks: Vec<Token> = Vec::new();
    proof {
        assert(toks_view(toks@) + lex_stream(lexer.rem()) =~= lex_stream(input@));
    }
    loop
        invariant
            lexer.wf(),
            lex_stream(input@) == toks_view(toks@) + lex_stream(lexer.rem()),
        decreases lexer.rem().len(),
    {
        let ghost pre_rem = lexer.rem();
        let ghost pre_toks = toks@;
        proof {
            lemma_next_tok_consumes(pre_rem);
        }
        match lexer.next() {
            None => {
                proof {
                    assert(lex_stream(pre_rem) == seq![TokenView::EoF]);
                    assert(stream_view(toks@, None) =~= lex_stream(input@));
                }
                return (toks, None);
            },
            Some(Ok(t)) => {
                proof {
                    assert(lex_stream(pre_rem) == seq![t@] + lex_stream(lexer.rem()));
                }
                toks.push(t);
                proof {
                    assert(toks_view(toks@) =~= toks_view(pre_toks) + seq![t@]);
                    assert(toks_view(pre_toks) + (seq![t@] + lex_stream(lexer.rem()))
                        =~= toks_view(toks@) + lex_stream(lexer.rem()));
                }
            },
            Some(Err(e)) => {
                proof {
                    let m = e->MalformedNumber_0;
                    assert(lex_stream(pre_rem) == seq![TokenView::Malformed(m@)]);
                    assert(stream_view(toks@, Some(e)) =~= lex_stream(input@));
                }
                return (toks, Some(e));
            },
        }
    }
}

// ---------------------------------------------------------------------------
// Laws of the lexer
// ---------------------------------------------------------------------------

/// Input consisting solely of whitespace and line comments lexes to the
/// empty token sequence: the stream is the end-of-input terminator alone.
pub proof fn lemma_blank_input_lexes_empty(s: Seq<char>)
    requires
        skip_blanks(s).len() == 0,
    ensures
        lex_stream(s) == seq![TokenView::EoF],
{
}

/// A single word — a letter followed by word characters only — lexes to
/// exactly one token: its keyword token when it is a reserved word, an
/// identifier token otherwise.
pub proof fn lemma_word_lexes(s: Seq<char>)
    requires
        s.len() > 0,
        is_alpha_char(s[0]),
        forall|k: int| 0 <= k < s.len() ==> is_word_char(s[k]),
    ensures
        lex_stream(s) == seq![keyword_or_identifier(s), TokenView::EoF],
{
    assert(!is_space_char(s[0]) && s[0] != '#');
    assert(skip_blanks(s) == s);
    assert(!is_number_char(s[0]));
    lemma_word_run_len_is(s, s.len() as int);
    assert(s.take(s.len() as int) =~= s);
    let rest = s.skip(s.len() as int);
    assert(rest.len() == 0);
    assert(next_tok(s) == (LexStep::Tok { t: keyword_or_identifier(s), rest }));
    assert(skip_blanks(rest) == rest);
    assert(next_tok(rest) == LexStep::Done);
    assert(lex_stream(rest) == seq![TokenView::EoF]);
    assert(lex_stream(s) =~= seq![keyword_or_identifier(s), TokenView::EoF]);
}

/// Each reserved word, lexed in isolation, yields exactly its keyword
/// token and nothing else.
pub proof fn lemma_reserved_words_lex_to_keywords()
    ensures
        lex_stream("def"@) == seq![TokenView::Def, TokenView::EoF],
        lex_stream("extern"@) == seq![TokenView::Extern, TokenView::EoF],
        lex_stream("if"@) == seq![TokenView::If, TokenView::EoF],
        lex_stream("then"@) == seq![TokenView::Then, TokenView::EoF],
        lex_stream("else"@) == seq![TokenView::Else, TokenView::EoF],
        lex_stream("for"@) == seq![TokenView::For, TokenView::EoF],
        lex_stream("in"@) == seq![TokenView::In, TokenView::EoF],
        lex_stream("var"@) == seq![TokenView::Var, TokenView::EoF],
        lex_stream("unary"@) == seq![TokenView::Unary, TokenView::EoF],
        lex_stream("binary"@) == seq![TokenView::Binary, TokenView::EoF],
{
    reveal_strlit("def");
    reveal_strlit("extern");
    reveal_strlit("if");
    reveal_strlit("then");
    reveal_strlit("else");
    reveal_strlit("for");
    reveal_strlit("in");
    reveal_strlit("var");
    reveal_strlit("unary");
    reveal_strlit("binary");
    assert("in"@ != "if"@) by {
        assert("in"@[1] == 'n');
        assert("if"@[1] == 'f');
    }
    lemma_word_lexes("def"@);
    lemma_word_lexes("extern"@);
    lemma_word_lexes("if"@);
    lemma_word_lexes("then"@);
    lemma_word_lexes("else"@);
    lemma_word_lexes("for"@);
    lemma_word_lexes("in"@);
    lemma_word_lexes("var"@);
    lemma_word_lexes("unary"@);
    lemma_word_lexes("binary"@);
}

/// No other word yields a keyword token: any word that is not exactly a
/// reserved word — for instance a longer word one of them prefixes —
/// lexes to an identifier token carrying the word itself.
pub proof fn lemma_other_word_lexes_to_identifier(s: Seq<char>)
    requires
        s.len() > 0,
        is_alpha_char(s[0]),
        forall|k: int| 0 <= k < s.len() ==> is_word_char(s[k]),
        s != "def"@,
        s != "extern"@,
        s != "if"@,
        s != "then"@,
        s != "else"@,
        s != "for"@,
        s != "in"@,
        s != "var"@,
        s != "unary"@,
        s != "binary"@,
    ensures
        lex_stream(s) == seq![TokenView::Identifier(s), TokenView::EoF],
{
    lemma_word_lexes(s);
}

/// The keyword token for a reserved word, an identifier token otherwise.
fn classify_word(w: String) -> (t: Token)
    ensures
        t@ == keyword_or_identifier(w@),
{
    if str_eq(w.as_str(), "def") {
        Token::Def
    } else if str_eq(w.as_str(), "extern") {
        Token::Extern
    } else if str_eq(w.as_str(), "if") {
        Token::If
    } else if str_eq(w.as_str(), "then") {
        Token::Then
    } else if str_eq(w.as_str(), "else") {
        Token::Else
    } else if str_eq(w.as_str(), "for") {
        Token::For
    } else if str_eq(w.as_str(), "in") {
        Token::In
    } else if str_eq(w.as_str(), "var") {
        Token::Var
    } else if str_eq(w.as_str(), "unary") {
        Token::Unary
    } else if str_eq(w.as_str(), "binary") {
        Token::Binary
    } else {
        Token::Identifier(w)
    }
}

// ---------------------------------------------------------------------------
// Verified string comparison
// ---------------------------------------------------------------------------

/// Whether two string slices hold the same characters.
pub fn str_eq(a: &str, b: &str) -> (r: bool)
    ensures
        r == (a@ == b@),
{
    let alen = a.unicode_len();
    let blen = b.unicode_len();
    if alen != blen {
        return false;
    }
    let mut i: usize = 0;
    while i < alen
        invariant
            0 <= i <= alen,
            alen == a@.len(),
            alen == b@.len(),
            forall|k: int| 0 <= k < i ==> a@[k] == b@[k],
        decreases alen - i,
    {
        if a.get_char(i) != b.get_char(i) {
            return false;
        }
        i += 1;
    }
    proof {
        assert(a@ =~= b@);
    }
    true
}

} // verus!
