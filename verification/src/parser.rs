//! The parser: a recursive-descent driver with precedence climbing for
//! expressions, over the token stream the lexer produces. Declaring a
//! binary-operator overload registers its precedence in the session's
//! operator table, so the grammar is self-modifying mid-stream.
//!
//! The whole behaviour is specified by the spec-level parser (`sp_top`,
//! `sp_expression`, ...) over token streams — a sequence of token views
//! closed by exactly one terminator, see [`crate::lexer::lex_stream`] —
//! and every executable parsing function is proved to agree with it, on
//! success and on each error alike.

use vstd::prelude::*;
use vstd::string::*;
use crate::ast::{
    anonym_function_name, binary_func_name, unary_func_name, expr_list_view, binding_list_view,
    name_list_view, operator_view, top_list_view, BinaryExprAST, CallExprAST, ExprAST,
    ExprView, ForExprAST, FunctionAST, FunctionView, IfExprAST, KaleoGrammar, NumberExprAST,
    Operator, OperatorView, PrototypeAST, PrototypeView, TopAST, TopView, UnaryExprAST,
    VarExprAST, VariableExprAST, ANONYM_FUNCTION,
};
use crate::lexer::{LexError, Token, TokenView};
use crate::lexer::{lex_stream, stream_view, terminator_view, tokenize};

verus! {

// ---------------------------------------------------------------------------
// The operator table
// ---------------------------------------------------------------------------

/// The precedence returned for a symbol with no table entry: lower than
/// any registered precedence, it means "this symbol cannot continue an
/// infix expression here" without being an error.
pub const NO_OPERATOR_PRECEDENCE: isize = -1;

/// The table of infix operator precedences, owned by one parsing session:
/// a mapping from a single-character symbol to a precedence in [1, 100],
/// higher binding tighter.
pub struct OpTable {
    entries: Vec<(char, isize)>,
}

/// The mapping an entry list stands for.
pub open spec fn entries_map(s: Seq<(char, isize)>) -> Map<char, int>
    decreases s.len(),
{
    if s.len() == 0 {
        Map::empty()
    } else {
        entries_map(s.drop_last()).insert(s.last().0, s.last().1 as int)
    }
}

/// The default table: `<` at 10, `+` and `-` at 20, `*` at 40, and the
/// assignment symbol `=` predefined low at 2.
pub open spec fn default_table() -> Map<char, int> {
    Map::empty().insert('=', 2).insert('<', 10).insert('+', 20).insert('-', 20).insert('*', 40)
}

impl OpTable {
    /// Symbols are registered at most once, with precedences in [1, 100].
    pub closed spec fn wf(&self) -> bool {
        &&& forall|i: int, j: int|
            0 <= i < j < self.entries@.len() ==> (#[trigger] self.entries@[i]).0 != (
            #[trigger] self.entries@[j]).0
        &&& forall|i: int|
            0 <= i < self.entries@.len() ==> 1 <= (#[trigger] self.entries@[i]).1 <= 100
    }

    /// An empty table.
    pub fn empty() -> (r: OpTable)
        ensures
            r.wf(),
            r@ == Map::<char, int>::empty(),
    {
        OpTable { entries: Vec::new() }
    }

    /// The table with the default entries.
    pub fn with_defaults() -> (r: OpTable)
        ensures
            r.wf(),
            r@ == default_table(),
    {
        let mut t = OpTable::empty();
        t.set('=', 2);
        t.set('<', 10);
        t.set('+', 20);
        t.set('-', 20);
        t.set('*', 40);
        t
    }

    /// The registered precedence of `op`, or the sentinel when none is.
    pub fn get(&self, op: char) -> (p: isize)
        requires
            self.wf(),
        ensures
            self@.contains_key(op) ==> p as int == self@[op] && 1 <= p <= 100,
            !self@.contains_key(op) ==> p == NO_OPERATOR_PRECEDENCE,
    {
        let n = self.entries.len();
        let mut i: usize = 0;
        while i < n
            invariant
                n == self.entries@.len(),
                self.wf(),
                forall|k: int| 0 <= k < i ==> (#[trigger] self.entries@[k]).0 != op,
            decreases n - i,
        {
            let e = self.entries[i];
            if e.0 == op {
                proof {
                    lemma_entries_map_value(self.entries@, i as int);
                }
                return e.1;
            }
            i += 1;
        }
        proof {
            lemma_entries_map_domain(self.entries@, op);
        }
        NO_OPERATOR_PRECEDENCE
    }

    /// Inserts or overwrites the precedence of `op`. There is no removal.
    pub fn set(&mut self, op: char, prec: isize)
        requires
            old(self).wf(),
            1 <= prec <= 100,
        ensures
            final(self).wf(),
            final(self)@ == old(self)@.insert(op, prec as int),
    {
        let n = self.entries.len();
        let mut i: usize = 0;
        while i < n
            invariant
                *self == *old(self),
                old(self).wf(),
                1 <= prec <= 100,
                n == self.entries@.len(),
                forall|k: int| 0 <= k < i ==> (#[trigger] self.entries@[k]).0 != op,
            decreases n - i,
        {
            if self.entries[i].0 == op {
                self.entries[i] = (op, prec);
                proof {
                    let s0 = old(self).entries@;
                    let s1 = self.entries@;
                    assert(s0[i as int].0 == op);
                    assert forall|x: int| 0 <= x < s1.len() implies (#[trigger] s1[x]).0
                        == s0[x].0 by {}
                    assert forall|a: int, b: int| 0 <= a < b < s1.len() implies (
                    #[trigger] s1[a]).0 != (#[trigger] s1[b]).0 by {
                        assert(s0[a].0 != s0[b].0);
                    }
                    lemma_maps_agree(s0, s1, op, prec, i as int);
                }
                return ;
            }
            i += 1;
        }
        self.entries.push((op, prec));
        proof {
            let s0 = old(self).entries@;
            let s1 = self.entries@;
            assert(s1.drop_last() =~= s0);
            assert(entries_map(s1) == entries_map(s0).insert(op, prec as int));
            lemma_entries_map_domain(s0, op);
            assert forall|a: int, b: int| 0 <= a < b < s1.len() implies (#[trigger] s1[a]).0 != (
            #[trigger] s1[b]).0 by {
                if b == s1.len() - 1 {
                    assert(s1[a] == s0[a]);
                } else {
                    assert(s1[a] == s0[a]);
                    assert(s1[b] == s0[b]);
                }
            }
        }
    }
}

impl View for OpTable {
    type V = Map<char, int>;

    closed spec fn view(&self) -> Map<char, int> {
        entries_map(self.entries@)
    }
}

/// A key is in `entries_map(s)` exactly when some entry carries it.
proof fn lemma_entries_map_domain(s: Seq<(char, isize)>, c: char)
    ensures
        entries_map(s).contains_key(c) <==> exists|i: int|
            0 <= i < s.len() && (#[trigger] s[i]).0 == c,
    decreases s.len(),
{
    if s.len() > 0 {
        lemma_entries_map_domain(s.drop_last(), c);
        if c == s.last().0 {
            assert(s[s.len() - 1].0 == c);
        } else {
            if exists|i: int| 0 <= i < s.len() && (#[trigger] s[i]).0 == c {
                let w = choose|i: int| 0 <= i < s.len() && (#[trigger] s[i]).0 == c;
                assert(w != s.len() - 1);
                assert(s.drop_last()[w].0 == c);
            }
            if entries_map(s.drop_last()).contains_key(c) {
                let w = choose|i: int|
                    0 <= i < s.drop_last().len() && (#[trigger] s.drop_last()[i]).0 == c;
                assert(s[w].0 == c);
            }
        }
    }
}

/// With unique keys, `entries_map(s)` maps each entry's key to that
/// entry's precedence.
proof fn lemma_entries_map_value(s: Seq<(char, isize)>, i: int)
    requires
        0 <= i < s.len(),
        forall|a: int, b: int|
            0 <= a < b < s.len() ==> (#[trigger] s[a]).0 != (#[trigger] s[b]).0,
    ensures
        entries_map(s).contains_key(s[i].0),
        entries_map(s)[s[i].0] == s[i].1 as int,
    decreases s.len(),
{
    if i == s.len() - 1 {
    } else {
        assert forall|a: int, b: int| 0 <= a < b < s.drop_last().len() implies (
        #[trigger] s.drop_last()[a]).0 != (#[trigger] s.drop_last()[b]).0 by {
            assert(s.drop_last()[a] == s[a]);
            assert(s.drop_last()[b] == s[b]);
        }
        lemma_entries_map_value(s.drop_last(), i);
        assert(s.drop_last()[i] == s[i]);
        assert(s[i].0 != s.last().0);
    }
}

// ---------------------------------------------------------------------------
// Parse errors
// ---------------------------------------------------------------------------

/// Why a parse failed. Parsing aborts at the first error; no partial
/// syntax tree is returned.
#[derive(Debug, PartialEq)]
pub enum ParseError {
    /// A malformed numeric literal was reached while parsing.
    Lexical(LexError),
    /// The carried token was required and another stood there.
    ExpectedToken(Token),
    /// A token that cannot begin an expression stood where an expression
    /// was expected.
    ExpectedExpression,
    /// A parenthesised expression was not closed by `)`.
    MissingClosingParen,
    /// An argument list continued with something other than `)` or `,`.
    ExpectedArgSeparator,
    /// An identifier was required and another token stood there.
    ExpectedIdentifier,
    /// A prototype began with something other than a name or an
    /// operator-overload keyword.
    ExpectedPrototypeName,
    /// An operator-overload keyword was not followed by an operator
    /// character.
    ExpectedOperatorSymbol,
    /// A custom binary-operator precedence literal lay outside [1, 100].
    InvalidPrecedence,
    /// An operator-overload prototype declared the wrong number of
    /// parameters: a binary overload takes exactly 2, a unary exactly 1.
    WrongOperatorArity,
    /// A prototype parameter list continued with something other than an
    /// identifier or `)`.
    ExpectedParamOrClose,
}

/// The view of a parse error.
pub enum ParseErrorView {
    Lexical(Seq<char>),
    ExpectedToken(TokenView),
    ExpectedExpression,
    MissingClosingParen,
    ExpectedArgSeparator,
    ExpectedIdentifier,
    ExpectedPrototypeName,
    ExpectedOperatorSymbol,
    InvalidPrecedence,
    WrongOperatorArity,
    ExpectedParamOrClose,
}

impl View for ParseError {
    type V = ParseErrorView;

    open spec fn view(&self) -> ParseErrorView {
        match self {
            ParseError::Lexical(LexError::MalformedNumber(m)) => ParseErrorView::Lexical(m@),
            ParseError::ExpectedToken(t) => ParseErrorView::ExpectedToken(t@),
            ParseError::ExpectedExpression => ParseErrorView::ExpectedExpression,
            ParseError::MissingClosingParen => ParseErrorView::MissingClosingParen,
            ParseError::ExpectedArgSeparator => ParseErrorView::ExpectedArgSeparator,
            ParseError::ExpectedIdentifier => ParseErrorView::ExpectedIdentifier,
            ParseError::ExpectedPrototypeName => ParseErrorView::ExpectedPrototypeName,
            ParseError::ExpectedOperatorSymbol => ParseErrorView::ExpectedOperatorSymbol,
            ParseError::InvalidPrecedence => ParseErrorView::InvalidPrecedence,
            ParseError::WrongOperatorArity => ParseErrorView::WrongOperatorArity,
            ParseError::ExpectedParamOrClose => ParseErrorView::ExpectedParamOrClose,
        }
    }
}

// ---------------------------------------------------------------------------
// The spec-level parser
//
// It runs over a token stream: a sequence of token views closed by
// exactly one terminator (`EoF` or `Malformed`), as `lex_stream`
// produces. Each function returns the parsed result and the unconsumed
// rest of the stream, or the error the parse fails with. Reaching the
// `Malformed` terminator anywhere surfaces the lexical error.
//
// The guards `rest.len() < t.len()` only serve the termination measure:
// every parsing step consumes at least one token before the parser
// recurses, so the guarded branch is the one taken.
// ---------------------------------------------------------------------------

/// The next token of a stream; the end of a truncated stream reads as
/// end-of-input.
pub open spec fn head(t: Seq<TokenView>) -> TokenView {
    if t.len() == 0 {
        TokenView::EoF
    } else {
        t[0]
    }
}

/// The stream after its next token.
pub open spec fn tail(t: Seq<TokenView>) -> Seq<TokenView> {
    if t.len() == 0 {
        t
    } else {
        t.skip(1)
    }
}

/// The precedence a table gives an operator symbol: registered, or the
/// sentinel below every registered precedence.
pub open spec fn op_prec(tbl: Map<char, int>, c: char) -> int {
    if tbl.contains_key(c) {
        tbl[c]
    } else {
        NO_OPERATOR_PRECEDENCE as int
    }
}

/// Consuming one required token: the rest of the stream when it is
/// there, the error it fails with otherwise.
pub open spec fn sp_expect(t: Seq<TokenView>, exp: TokenView) -> Result<
    Seq<TokenView>,
    ParseErrorView,
> {
    match head(t) {
        TokenView::Malformed(l) => Err(ParseErrorView::Lexical(l)),
        h => if h == exp {
            Ok(tail(t))
        } else {
            Err(ParseErrorView::ExpectedToken(exp))
        },
    }
}

/// An expression: a unary term, then infix combination from minimum
/// precedence 0.
pub open spec fn sp_expression(t: Seq<TokenView>, tbl: Map<char, int>) -> Result<
    (ExprView, Seq<TokenView>),
    ParseErrorView,
>
    decreases t.len(), 3int,
{
    match sp_unary(t, tbl) {
        Err(e) => Err(e),
        Ok((lhs, r)) => if r.len() < t.len() {
            sp_bin_op_rhs(0, lhs, r, tbl)
        } else {
            Err(ParseErrorView::ExpectedExpression)
        },
    }
}

/// A unary term: an operator character other than `(` and `,` prefixes
/// the term it is applied to; anything else is a primary expression.
pub open spec fn sp_unary(t: Seq<TokenView>, tbl: Map<char, int>) -> Result<
    (ExprView, Seq<TokenView>),
    ParseErrorView,
>
    decreases t.len(), 2int,
{
    match head(t) {
        TokenView::Op(c) => if c == '(' || c == ',' {
            sp_primary(t, tbl)
        } else {
            match sp_unary(tail(t), tbl) {
                Err(e) => Err(e),
                Ok((operand, r)) => Ok(
                    (ExprView::Unary { opcode: c, operand: Box::new(operand) }, r),
                ),
            }
        },
        _ => sp_primary(t, tbl),
    }
}

/// A primary expression, dispatched on one token of lookahead.
pub open spec fn sp_primary(t: Seq<TokenView>, tbl: Map<char, int>) -> Result<
    (ExprView, Seq<TokenView>),
    ParseErrorView,
>
    decreases t.len(), 1int,
{
    match head(t) {
        TokenView::Identifier(_) => sp_identifier_expr(t, tbl),
        TokenView::Number(_) => sp_number_expr(t),
        TokenView::Op(c) => if c == '(' {
            sp_paren_expr(t, tbl)
        } else {
            Err(ParseErrorView::ExpectedExpression)
        },
        TokenView::If => sp_if_expr(t, tbl),
        TokenView::For => sp_for_expr(t, tbl),
        TokenView::Var => sp_var_expr(t, tbl),
        TokenView::Malformed(l) => Err(ParseErrorView::Lexical(l)),
        _ => Err(ParseErrorView::ExpectedExpression),
    }
}

/// A numeric literal.
pub open spec fn sp_number_expr(t: Seq<TokenView>) -> Result<
    (ExprView, Seq<TokenView>),
    ParseErrorView,
>
    decreases t.len(), 0int,
{
    match head(t) {
        TokenView::Number(v) => Ok((ExprView::Number(v), tail(t))),
        TokenView::Malformed(l) => Err(ParseErrorView::Lexical(l)),
        _ => Err(ParseErrorView::ExpectedExpression),
    }
}

/// A parenthesised expression: `(`, an expression, and a required `)`.
pub open spec fn sp_paren_expr(t: Seq<TokenView>, tbl: Map<char, int>) -> Result<
    (ExprView, Seq<TokenView>),
    ParseErrorView,
>
    decreases t.len(), 0int,
{
    if t.len() == 0 {
        Err(ParseErrorView::ExpectedExpression)
    } else {
        match sp_expression(tail(t), tbl) {
            Err(e) => Err(e),
            Ok((e, r)) => match head(r) {
                TokenView::Malformed(l) => Err(ParseErrorView::Lexical(l)),
                TokenView::Op(c) => if c == ')' {
                    Ok((e, tail(r)))
                } else {
                    Err(ParseErrorView::MissingClosingParen)
                },
                _ => Err(ParseErrorView::MissingClosingParen),
            },
        }
    }
}

/// Infix combination by precedence climbing: while the next token is an
/// operator whose registered precedence reaches the minimum, absorb it
/// and its right-hand side; an unregistered operator falls below every
/// minimum and so terminates the expression without an error.
pub open spec fn sp_bin_op_rhs(
    min_prec: int,
    lhs: ExprView,
    t: Seq<TokenView>,
    tbl: Map<char, int>,
) -> Result<(ExprView, Seq<TokenView>), ParseErrorView>
    decreases t.len(), 0int,
{
    match head(t) {
        TokenView::Malformed(l) => Err(ParseErrorView::Lexical(l)),
        TokenView::Op(c) => {
            let prec = op_prec(tbl, c);
            if prec < min_prec {
                Ok((lhs, t))
            } else {
                match sp_unary(tail(t), tbl) {
                    Err(e) => Err(e),
                    Ok((rhs0, r2)) => {
                        let step = match head(r2) {
                            TokenView::Op(c2) => if op_prec(tbl, c2) > prec {
                                if r2.len() < t.len() {
                                    sp_bin_op_rhs(prec + 1, rhs0, r2, tbl)
                                } else {
                                    Err(ParseErrorView::ExpectedExpression)
                                }
                            } else {
                                Ok((rhs0, r2))
                            },
                            _ => Ok((rhs0, r2)),
                        };
                        match step {
                            Err(e) => Err(e),
                            Ok((rhs, r3)) => {
                                let combined = ExprView::Binary {
                                    op: c,
                                    lhs: Box::new(lhs),
                                    rhs: Box::new(rhs),
                                };
                                if r3.len() < t.len() {
                                    sp_bin_op_rhs(min_prec, combined, r3, tbl)
                                } else {
                                    Err(ParseErrorView::ExpectedExpression)
                                }
                            },
                        }
                    },
                }
            }
        },
        _ => Ok((lhs, t)),
    }
}

/// An identifier: a variable reference, or, followed directly by `(`, a
/// call with a comma-separated and possibly empty argument list.
pub open spec fn sp_identifier_expr(t: Seq<TokenView>, tbl: Map<char, int>) -> Result<
    (ExprView, Seq<TokenView>),
    ParseErrorView,
>
    decreases t.len(), 0int,
{
    match head(t) {
        TokenView::Malformed(l) => Err(ParseErrorView::Lexical(l)),
        TokenView::Identifier(name) => {
            let r1 = tail(t);
            match head(r1) {
                TokenView::Malformed(l) => Err(ParseErrorView::Lexical(l)),
                TokenView::Op(c) => if c == '(' {
                    let r2 = tail(r1);
                    if head(r2) == TokenView::Op(')') {
                        Ok((ExprView::Call { callee: name, args: Seq::empty() }, tail(r2)))
                    } else if r2.len() < t.len() {
                        match sp_call_args(r2, tbl) {
                            Err(e) => Err(e),
                            Ok((args, r3)) => Ok((ExprView::Call { callee: name, args }, r3)),
                        }
                    } else {
                        Err(ParseErrorView::ExpectedExpression)
                    }
                } else {
                    Ok((ExprView::Variable(name), r1))
                },
                _ => Ok((ExprView::Variable(name), r1)),
            }
        },
        _ => Err(ParseErrorView::ExpectedIdentifier),
    }
}

/// A non-empty argument list: expressions separated by `,`, closed by
/// `)`, which is consumed.
pub open spec fn sp_call_args(t: Seq<TokenView>, tbl: Map<char, int>) -> Result<
    (Seq<ExprView>, Seq<TokenView>),
    ParseErrorView,
>
    decreases t.len(), 4int,
{
    match sp_expression(t, tbl) {
        Err(e) => Err(e),
        Ok((e, r)) => match head(r) {
            TokenView::Malformed(l) => Err(ParseErrorView::Lexical(l)),
            TokenView::Op(c) => if c == ')' {
                Ok((seq![e], tail(r)))
            } else if c == ',' {
                if tail(r).len() < t.len() {
                    match sp_call_args(tail(r), tbl) {
                        Err(e2) => Err(e2),
                        Ok((rest_args, r2)) => Ok((seq![e] + rest_args, r2)),
                    }
                } else {
                    Err(ParseErrorView::ExpectedArgSeparator)
                }
            } else {
                Err(ParseErrorView::ExpectedArgSeparator)
            },
            _ => Err(ParseErrorView::ExpectedArgSeparator),
        },
    }
}

/// A conditional: the keyword sequence if/then/else around three
/// expressions.
pub open spec fn sp_if_expr(t: Seq<TokenView>, tbl: Map<char, int>) -> Result<
    (ExprView, Seq<TokenView>),
    ParseErrorView,
>
    decreases t.len(), 0int,
{
    match sp_expect(t, TokenView::If) {
        Err(e) => Err(e),
        Ok(r1) => if r1.len() < t.len() {
            match sp_expression(r1, tbl) {
                Err(e) => Err(e),
                Ok((condition, r2)) => match sp_expect(r2, TokenView::Then) {
                    Err(e) => Err(e),
                    Ok(r3) => if r3.len() < t.len() {
                        match sp_expression(r3, tbl) {
                            Err(e) => Err(e),
                            Ok((then_block, r4)) => match sp_expect(r4, TokenView::Else) {
                                Err(e) => Err(e),
                                Ok(r5) => if r5.len() < t.len() {
                                    match sp_expression(r5, tbl) {
                                        Err(e) => Err(e),
                                        Ok((else_block, r6)) => Ok(
                                            (
                                                ExprView::If {
                                                    condition: Box::new(condition),
                                                    then_block: Box::new(then_block),
                                                    else_block: Box::new(else_block),
                                                },
                                                r6,
                                            ),
                                        ),
                                    }
                                } else {
                                    Err(ParseErrorView::ExpectedExpression)
                                },
                            },
                        }
                    } else {
                        Err(ParseErrorView::ExpectedExpression)
                    },
                },
            }
        } else {
            Err(ParseErrorView::ExpectedExpression)
        },
    }
}

/// A loop: `for <identifier> = <expr> , <expr> [, <expr>] in <expr>`.
/// The clauses after the `=` are parsed by [`sp_for_clauses`].
pub open spec fn sp_for_expr(t: Seq<TokenView>, tbl: Map<char, int>) -> Result<
    (ExprView, Seq<TokenView>),
    ParseErrorView,
>
    decreases t.len(), 0int,
{
    match sp_expect(t, TokenView::For) {
        Err(e) => Err(e),
        Ok(r1) => match head(r1) {
            TokenView::Malformed(l) => Err(ParseErrorView::Lexical(l)),
            TokenView::Identifier(var_name) => {
                match sp_expect(tail(r1), TokenView::Op('=')) {
                    Err(e) => Err(e),
                    Ok(r2) => if r2.len() < t.len() {
                        sp_for_clauses(var_name, r2, tbl)
                    } else {
                        Err(ParseErrorView::ExpectedExpression)
                    },
                }
            },
            _ => Err(ParseErrorView::ExpectedIdentifier),
        },
    }
}

/// The start clause of a loop and the `,` after it.
pub open spec fn sp_for_clauses(
    var_name: Seq<char>,
    t: Seq<TokenView>,
    tbl: Map<char, int>,
) -> Result<(ExprView, Seq<TokenView>), ParseErrorView>
    decreases t.len(), 4int,
{
    match sp_expression(t, tbl) {
        Err(e) => Err(e),
        Ok((var_start, r3)) => match sp_expect(r3, TokenView::Op(',')) {
            Err(e) => Err(e),
            Ok(r4) => if r4.len() < t.len() {
                sp_for_end(var_name, var_start, r4, tbl)
            } else {
                Err(ParseErrorView::ExpectedExpression)
            },
        },
    }
}

/// The end clause of a loop, the optional step clause, the `in`, and the
/// body.
pub open spec fn sp_for_end(
    var_name: Seq<char>,
    var_start: ExprView,
    t: Seq<TokenView>,
    tbl: Map<char, int>,
) -> Result<(ExprView, Seq<TokenView>), ParseErrorView>
    decreases t.len(), 4int,
{
    match sp_expression(t, tbl) {
        Err(e) => Err(e),
        Ok((var_end, r5)) => {
            let step_part = if head(r5) == TokenView::Op(',') {
                if tail(r5).len() < t.len() {
                    match sp_expression(tail(r5), tbl) {
                        Err(e) => Err(e),
                        Ok((s, r6)) => Ok((Some(s), r6)),
                    }
                } else {
                    Err(ParseErrorView::ExpectedExpression)
                }
            } else {
                Ok((None, r5))
            };
            match step_part {
                Err(e) => Err(e),
                Ok((step, r6)) => match sp_expect(r6, TokenView::In) {
                    Err(e) => Err(e),
                    Ok(r7) => if r7.len() < t.len() {
                        match sp_expression(r7, tbl) {
                            Err(e) => Err(e),
                            Ok((body, r8)) => Ok(
                                (
                                    ExprView::For {
                                        var_name,
                                        var_start: Box::new(var_start),
                                        var_end: Box::new(var_end),
                                        step: match step {
                                            Some(s) => Some(Box::new(s)),
                                            None => None,
                                        },
                                        body: Box::new(body),
                                    },
                                    r8,
                                ),
                            ),
                        }
                    } else {
                        Err(ParseErrorView::ExpectedExpression)
                    },
                },
            }
        },
    }
}

/// One or more local bindings: `<identifier> [= <expr>]`, separated by
/// `,`.
pub open spec fn sp_var_bindings(t: Seq<TokenView>, tbl: Map<char, int>) -> Result<
    (Seq<(Seq<char>, Option<ExprView>)>, Seq<TokenView>),
    ParseErrorView,
>
    decreases t.len(), 0int,
{
    match head(t) {
        TokenView::Malformed(l) => Err(ParseErrorView::Lexical(l)),
        TokenView::Identifier(name) => {
            let r1 = tail(t);
            let init_part = if head(r1) == TokenView::Op('=') {
                if tail(r1).len() < t.len() {
                    match sp_expression(tail(r1), tbl) {
                        Err(e) => Err(e),
                        Ok((e, r2)) => Ok((Some(e), r2)),
                    }
                } else {
                    Err(ParseErrorView::ExpectedExpression)
                }
            } else {
                Ok((None, r1))
            };
            match init_part {
                Err(e) => Err(e),
                Ok((init, r2)) => if head(r2) == TokenView::Op(',') {
                    if tail(r2).len() < t.len() {
                        match sp_var_bindings(tail(r2), tbl) {
                            Err(e) => Err(e),
                            Ok((rest_bindings, r3)) => Ok(
                                (seq![(name, init)] + rest_bindings, r3),
                            ),
                        }
                    } else {
                        Err(ParseErrorView::ExpectedExpression)
                    }
                } else {
                    Ok((seq![(name, init)], r2))
                },
            }
        },
        _ => Err(ParseErrorView::ExpectedIdentifier),
    }
}

/// Local bindings: `var`, one or more bindings, `in`, and the body.
pub open spec fn sp_var_expr(t: Seq<TokenView>, tbl: Map<char, int>) -> Result<
    (ExprView, Seq<TokenView>),
    ParseErrorView,
>
    decreases t.len(), 0int,
{
    match sp_expect(t, TokenView::Var) {
        Err(e) => Err(e),
        Ok(r1) => if r1.len() < t.len() {
            match sp_var_bindings(r1, tbl) {
                Err(e) => Err(e),
                Ok((bindings, r2)) => match sp_expect(r2, TokenView::In) {
                    Err(e) => Err(e),
                    Ok(r3) => if r3.len() < t.len() {
                        match sp_expression(r3, tbl) {
                            Err(e) => Err(e),
                            Ok((body, r4)) => Ok(
                                (ExprView::Var { bindings, body: Box::new(body) }, r4),
                            ),
                        }
                    } else {
                        Err(ParseErrorView::ExpectedExpression)
                    },
                },
            }
        } else {
            Err(ParseErrorView::ExpectedExpression)
        },
    }
}

// ---------------------------------------------------------------------------
// The precedence literal of a binary-operator overload
//
// The lexer carries numeric literals as text, so the prototype parser
// reads the precedence from the text exactly: the integer part is the
// value of the leading digit run, and the literal lies in [1, 100]
// exactly when its integer part does — reaching 100 only with nothing
// but zeros after the dot.
// ---------------------------------------------------------------------------

/// The length of the leading digit run of `s`.
pub open spec fn digit_run_len(s: Seq<char>) -> nat
    decreases s.len(),
{
    if s.len() > 0 && crate::lexer::is_digit_char(s[0]) {
        1 + digit_run_len(s.drop_first())
    } else {
        0
    }
}

/// The value of a digit string read as a decimal number.
pub open spec fn dec_val(s: Seq<char>) -> int
    decreases s.len(),
{
    if s.len() == 0 {
        0
    } else {
        10 * dec_val(s.drop_last()) + (s.last() as int - '0' as int)
    }
}

/// The integer part of a numeric literal: its leading digit run, read as
/// a decimal number.
pub open spec fn lit_int_part(s: Seq<char>) -> int {
    dec_val(s.take(digit_run_len(s) as int))
}

/// Whether everything after the integer part (the dot and the fraction
/// digits) contributes nothing to the value.
pub open spec fn lit_frac_zero(s: Seq<char>) -> bool {
    forall|k: int| digit_run_len(s) < k < s.len() ==> s[k] == '0'
}

/// The precedence a literal stands for, when it lies in [1, 100]:
/// its value truncated to an integer.
pub open spec fn prec_of_lit(s: Seq<char>) -> Option<int> {
    let ip = lit_int_part(s);
    if 1 <= ip && (ip < 100 || (ip == 100 && lit_frac_zero(s))) {
        Some(ip)
    } else {
        None
    }
}

// ---------------------------------------------------------------------------
// Prototypes and top-level items
// ---------------------------------------------------------------------------

/// The common tail of a prototype: the parenthesised parameter list,
/// and the arity check of an operator overload.
pub open spec fn sp_proto_tail(
    name: Seq<char>,
    operator: Option<OperatorView>,
    t: Seq<TokenView>,
) -> Result<(PrototypeView, Seq<TokenView>), ParseErrorView>
    decreases t.len(), 1int,
{
    match sp_expect(t, TokenView::Op('(')) {
        Err(e) => Err(e),
        Ok(r1) => if r1.len() < t.len() {
            match sp_proto_params(r1) {
                Err(e) => Err(e),
                Ok((args, r2)) => {
                    let arity_ok = match operator {
                        Some(OperatorView::Binary { .. }) => args.len() == 2,
                        Some(OperatorView::Unary) => args.len() == 1,
                        None => true,
                    };
                    if arity_ok {
                        Ok((PrototypeView { name, args, operator }, r2))
                    } else {
                        Err(ParseErrorView::WrongOperatorArity)
                    }
                },
            }
        } else {
            Err(ParseErrorView::ExpectedParamOrClose)
        },
    }
}

/// A parameter list: identifiers up to the closing `)`, which is
/// consumed.
pub open spec fn sp_proto_params(t: Seq<TokenView>) -> Result<
    (Seq<Seq<char>>, Seq<TokenView>),
    ParseErrorView,
>
    decreases t.len(), 0int,
{
    match head(t) {
        TokenView::Malformed(l) => Err(ParseErrorView::Lexical(l)),
        TokenView::Identifier(a) => if tail(t).len() < t.len() {
            match sp_proto_params(tail(t)) {
                Err(e) => Err(e),
                Ok((rest_args, r)) => Ok((seq![a] + rest_args, r)),
            }
        } else {
            Err(ParseErrorView::ExpectedParamOrClose)
        },
        TokenView::Op(c) => if c == ')' {
            Ok((Seq::empty(), tail(t)))
        } else {
            Err(ParseErrorView::ExpectedParamOrClose)
        },
        _ => Err(ParseErrorView::ExpectedParamOrClose),
    }
}

/// A prototype: a plain name, or an operator-overload head — the unary
/// or binary keyword, the operator character, and, for a binary
/// overload, an optional precedence literal (30 when absent) — followed
/// by the parameter list.
pub open spec fn sp_prototype(t: Seq<TokenView>) -> Result<
    (PrototypeView, Seq<TokenView>),
    ParseErrorView,
>
    decreases t.len(), 2int,
{
    match head(t) {
        TokenView::Malformed(l) => Err(ParseErrorView::Lexical(l)),
        TokenView::Identifier(n) => if tail(t).len() < t.len() {
            sp_proto_tail(n, None, tail(t))
        } else {
            Err(ParseErrorView::ExpectedParamOrClose)
        },
        TokenView::Unary => {
            let r1 = tail(t);
            match head(r1) {
                TokenView::Malformed(l) => Err(ParseErrorView::Lexical(l)),
                TokenView::Op(c) => if tail(r1).len() < t.len() {
                    sp_proto_tail(unary_func_name(c), Some(OperatorView::Unary), tail(r1))
                } else {
                    Err(ParseErrorView::ExpectedParamOrClose)
                },
                _ => Err(ParseErrorView::ExpectedOperatorSymbol),
            }
        },
        TokenView::Binary => {
            let r1 = tail(t);
            match head(r1) {
                TokenView::Malformed(l) => Err(ParseErrorView::Lexical(l)),
                TokenView::Op(c) => {
                    let r2 = tail(r1);
                    match head(r2) {
                        TokenView::Number(lit) => match prec_of_lit(lit) {
                            None => Err(ParseErrorView::InvalidPrecedence),
                            Some(p) => if tail(r2).len() < t.len() {
                                sp_proto_tail(
                                    binary_func_name(c),
                                    Some(OperatorView::Binary { op_name: c, precedence: p }),
                                    tail(r2),
                                )
                            } else {
                                Err(ParseErrorView::ExpectedParamOrClose)
                            },
                        },
                        _ => if r2.len() < t.len() {
                            sp_proto_tail(
                                binary_func_name(c),
                                Some(OperatorView::Binary { op_name: c, precedence: 30 }),
                                r2,
                            )
                        } else {
                            Err(ParseErrorView::ExpectedParamOrClose)
                        },
                    }
                },
                _ => Err(ParseErrorView::ExpectedOperatorSymbol),
            }
        },
        _ => Err(ParseErrorView::ExpectedPrototypeName),
    }
}

/// A function definition: `def`, a prototype, and the body expression.
/// A binary-operator overload registers its precedence — after the
/// whole definition has parsed — for all subsequent parsing.
pub open spec fn sp_definition(t: Seq<TokenView>, tbl: Map<char, int>) -> Result<
    (FunctionView, Seq<TokenView>, Map<char, int>),
    ParseErrorView,
>
    decreases t.len(), 0int,
{
    match sp_expect(t, TokenView::Def) {
        Err(e) => Err(e),
        Ok(r1) => if r1.len() < t.len() {
            match sp_prototype(r1) {
                Err(e) => Err(e),
                Ok((proto, r2)) => if r2.len() < t.len() {
                    match sp_expression(r2, tbl) {
                        Err(e) => Err(e),
                        Ok((body, r3)) => {
                            let tbl2 = match proto.operator {
                                Some(
                                    OperatorView::Binary { op_name, precedence },
                                ) => tbl.insert(op_name, precedence),
                                _ => tbl,
                            };
                            Ok((FunctionView { proto, body }, r3, tbl2))
                        },
                    }
                } else {
                    Err(ParseErrorView::ExpectedExpression)
                },
            }
        } else {
            Err(ParseErrorView::ExpectedExpression)
        },
    }
}

/// An external declaration: `extern` and a prototype alone.
pub open spec fn sp_extern(t: Seq<TokenView>) -> Result<
    (PrototypeView, Seq<TokenView>),
    ParseErrorView,
>
    decreases t.len(), 3int,
{
    match sp_expect(t, TokenView::Extern) {
        Err(e) => Err(e),
        Ok(r1) => if r1.len() < t.len() {
            sp_prototype(r1)
        } else {
            Err(ParseErrorView::ExpectedPrototypeName)
        },
    }
}

/// A top-level bare expression, wrapped into a zero-argument function
/// under the reserved anonymous name.
pub open spec fn sp_top_level_expression(t: Seq<TokenView>, tbl: Map<char, int>) -> Result<
    (FunctionView, Seq<TokenView>),
    ParseErrorView,
>
    decreases t.len(), 4int,
{
    match sp_expression(t, tbl) {
        Err(e) => Err(e),
        Ok((body, r)) => Ok(
            (
                FunctionView {
                    proto: PrototypeView {
                        name: anonym_function_name(),
                        args: Seq::empty(),
                        operator: None,
                    },
                    body,
                },
                r,
            ),
        ),
    }
}

/// The top-level loop: `def` opens a definition, `extern` a
/// declaration, a bare `;` is discarded, end-of-input closes the
/// program, and anything else is a bare expression. The first failure
/// aborts the whole parse; the error carries the operator table as the
/// items already parsed left it.
pub open spec fn sp_top(t: Seq<TokenView>, tbl: Map<char, int>) -> Result<
    (Seq<TopView>, Map<char, int>),
    (ParseErrorView, Map<char, int>),
>
    decreases t.len(), 6int,
{
    match head(t) {
        TokenView::Def => match sp_definition(t, tbl) {
            Err(e) => Err((e, tbl)),
            Ok((f, r, tbl2)) => if r.len() < t.len() {
                match sp_top(r, tbl2) {
                    Err(p) => Err(p),
                    Ok((items, tf)) => Ok((seq![TopView::Function(f)] + items, tf)),
                }
            } else {
                Err((ParseErrorView::ExpectedExpression, tbl2))
            },
        },
        TokenView::Extern => match sp_extern(t) {
            Err(e) => Err((e, tbl)),
            Ok((p, r)) => if r.len() < t.len() {
                match sp_top(r, tbl) {
                    Err(q) => Err(q),
                    Ok((items, tf)) => Ok((seq![TopView::Prototype(p)] + items, tf)),
                }
            } else {
                Err((ParseErrorView::ExpectedExpression, tbl))
            },
        },
        TokenView::Op(c) => if c == ';' {
            if tail(t).len() < t.len() {
                sp_top(tail(t), tbl)
            } else {
                Err((ParseErrorView::ExpectedExpression, tbl))
            }
        } else {
            sp_top_bare(t, tbl)
        },
        TokenView::EoF => Ok((Seq::empty(), tbl)),
        TokenView::Malformed(l) => Err((ParseErrorView::Lexical(l), tbl)),
        _ => sp_top_bare(t, tbl),
    }
}

/// The bare-expression arm of the top-level loop.
pub open spec fn sp_top_bare(t: Seq<TokenView>, tbl: Map<char, int>) -> Result<
    (Seq<TopView>, Map<char, int>),
    (ParseErrorView, Map<char, int>),
>
    decreases t.len(), 5int,
{
    match sp_top_level_expression(t, tbl) {
        Err(e) => Err((e, tbl)),
        Ok((f, r)) => if r.len() < t.len() {
            match sp_top(r, tbl) {
                Err(p) => Err(p),
                Ok((items, tf)) => Ok((seq![TopView::Function(f)] + items, tf)),
            }
        } else {
            Err((ParseErrorView::ExpectedExpression, tbl))
        },
    }
}

// ---------------------------------------------------------------------------
// The executable parser
// ---------------------------------------------------------------------------

/// One parsing pass over a lexed token stream, holding the session's
/// operator table while it runs.
pub struct Parser {
    toks: Vec<Token>,
    tail_err: Option<LexError>,
    pos: usize,
    table: OpTable,
}

/// The dispatch summary of one token of lookahead.
#[derive(Clone, Copy)]
enum PeekKind {
    Def,
    Extern,
    Identifier,
    Number,
    Op(char),
    If,
    Then,
    Else,
    For,
    In,
    Var,
    Unary,
    Binary,
    EoF,
    Bad,
}

spec fn kind_of(t: TokenView) -> PeekKind {
    match t {
        TokenView::Def => PeekKind::Def,
        TokenView::Extern => PeekKind::Extern,
        TokenView::Identifier(_) => PeekKind::Identifier,
        TokenView::Number(_) => PeekKind::Number,
        TokenView::Op(c) => PeekKind::Op(c),
        TokenView::If => PeekKind::If,
        TokenView::Then => PeekKind::Then,
        TokenView::Else => PeekKind::Else,
        TokenView::For => PeekKind::For,
        TokenView::In => PeekKind::In,
        TokenView::Var => PeekKind::Var,
        TokenView::Unary => PeekKind::Unary,
        TokenView::Binary => PeekKind::Binary,
        TokenView::EoF => PeekKind::EoF,
        TokenView::Malformed(_) => PeekKind::Bad,
    }
}

/// No token's view is the `Malformed` terminator.
proof fn lemma_token_view_not_malformed(t: Token)
    ensures
        !(t@ matches TokenView::Malformed(_)),
{
    match t {
        Token::Def => {},
        Token::Extern => {},
        Token::Identifier(_) => {},
        Token::Number(_) => {},
        Token::Op(_) => {},
        Token::If => {},
        Token::Then => {},
        Token::Else => {},
        Token::For => {},
        Token::In => {},
        Token::Var => {},
        Token::Unary => {},
        Token::Binary => {},
        Token::EoF => {},
    }
}

/// Whether two tokens are the same token with the same payload.
fn token_eq(a: &Token, b: &Token) -> (r: bool)
    ensures
        r == (a@ == b@),
{
    match (a, b) {
        (Token::Def, Token::Def) => true,
        (Token::Extern, Token::Extern) => true,
        (Token::Identifier(x), Token::Identifier(y)) => crate::lexer::str_eq(
            x.as_str(),
            y.as_str(),
        ),
        (Token::Number(x), Token::Number(y)) => crate::lexer::str_eq(x.as_str(), y.as_str()),
        (Token::Op(x), Token::Op(y)) => *x == *y,
        (Token::If, Token::If) => true,
        (Token::Then, Token::Then) => true,
        (Token::Else, Token::Else) => true,
        (Token::For, Token::For) => true,
        (Token::In, Token::In) => true,
        (Token::Var, Token::Var) => true,
        (Token::Unary, Token::Unary) => true,
        (Token::Binary, Token::Binary) => true,
        (Token::EoF, Token::EoF) => true,
        _ => false,
    }
}

impl Parser {
    /// The parser's state is well formed.
    pub closed spec fn wf(&self) -> bool {
        self.pos <= self.toks@.len() && self.table.wf()
    }

    /// The whole stream this parser was given, terminator included.
    pub closed spec fn entire_stream(&self) -> Seq<TokenView> {
        stream_view(self.toks@, self.tail_err)
    }

    /// The unconsumed part of the stream, terminator included.
    pub closed spec fn stream(&self) -> Seq<TokenView> {
        self.entire_stream().skip(self.pos as int)
    }

    /// The current operator table.
    pub closed spec fn tbl(&self) -> Map<char, int> {
        self.table@
    }

    /// How the unconsumed stream reads at its head.
    proof fn lemma_stream(self)
        requires
            self.pos <= self.toks@.len(),
        ensures
            self.stream().len() == self.toks@.len() - self.pos + 1,
            self.pos < self.toks@.len() ==> head(self.stream()) == self.toks@[self.pos as int]@
                && self.stream()[0] == self.toks@[self.pos as int]@,
            self.pos == self.toks@.len() ==> head(self.stream()) == terminator_view(self.tail_err)
                && self.stream()[0] == terminator_view(self.tail_err),
    {
        let tv = crate::lexer::toks_view(self.toks@);
        let sv = self.entire_stream();
        assert(tv.len() == self.toks@.len());
        assert(sv.len() == self.toks@.len() + 1);
        if self.pos < self.toks@.len() {
            assert(sv[self.pos as int] == tv[self.pos as int]);
            assert(tv[self.pos as int] == self.toks@[self.pos as int]@);
        } else {
            assert(sv[self.pos as int] == seq![terminator_view(self.tail_err)][0]);
        }
        assert(self.stream()[0] == sv[self.pos as int]);
    }

    /// The dispatch summary of the next token.
    fn peek_kind(&self) -> (k: PeekKind)
        requires
            self.wf(),
        ensures
            k == kind_of(head(self.stream())),
    {
        proof {
            self.lemma_stream();
        }
        if self.pos < self.toks.len() {
            match &self.toks[self.pos] {
                Token::Def => PeekKind::Def,
                Token::Extern => PeekKind::Extern,
                Token::Identifier(_) => PeekKind::Identifier,
                Token::Number(_) => PeekKind::Number,
                Token::Op(c) => PeekKind::Op(*c),
                Token::If => PeekKind::If,
                Token::Then => PeekKind::Then,
                Token::Else => PeekKind::Else,
                Token::For => PeekKind::For,
                Token::In => PeekKind::In,
                Token::Var => PeekKind::Var,
                Token::Unary => PeekKind::Unary,
                Token::Binary => PeekKind::Binary,
                Token::EoF => PeekKind::EoF,
            }
        } else {
            match &self.tail_err {
                None => PeekKind::EoF,
                Some(LexError::MalformedNumber(_)) => PeekKind::Bad,
            }
        }
    }

    /// Consumes one token, which must be there.
    fn bump(&mut self)
        requires
            old(self).wf(),
            old(self).pos < old(self).toks@.len(),
        ensures
            final(self).wf(),
            final(self).entire_stream() == old(self).entire_stream(),
            final(self).tbl() == old(self).tbl(),
            final(self).stream() == tail(old(self).stream()),
            final(self).stream().len() == old(self).stream().len() - 1,
    {
        proof {
            self.lemma_stream();
            assert(self.entire_stream().skip(self.pos as int).skip(1) =~= self.entire_stream()
                .skip(self.pos as int + 1));
        }
        let n = self.toks.len();
        proof {
            assert(self.pos < n);
        }
        self.pos += 1;
    }

    /// The parse error for the malformed numeric literal at the head.
    fn lexical_error(&self) -> (e: ParseError)
        requires
            self.wf(),
            head(self.stream()) matches TokenView::Malformed(_),
        ensures
            e@ == ParseErrorView::Lexical(head(self.stream())->Malformed_0),
    {
        proof {
            self.lemma_stream();
            if self.pos < self.toks@.len() {
                lemma_token_view_not_malformed(self.toks@[self.pos as int]);
            }
        }
        match &self.tail_err {
            Some(LexError::MalformedNumber(m)) => ParseError::Lexical(
                LexError::MalformedNumber(m.clone()),
            ),
            None => vstd::pervasive::unreached(),
        }
    }

    /// Takes the identifier text at the head.
    fn take_identifier(&mut self) -> (r: String)
        requires
            old(self).wf(),
            head(old(self).stream()) matches TokenView::Identifier(_),
        ensures
            final(self).wf(),
            final(self).entire_stream() == old(self).entire_stream(),
            final(self).tbl() == old(self).tbl(),
            head(old(self).stream()) == TokenView::Identifier(r@),
            final(self).stream() == tail(old(self).stream()),
            final(self).stream().len() == old(self).stream().len() - 1,
    {
        proof {
            self.lemma_stream();
        }
        let name = match &self.toks[self.pos] {
            Token::Identifier(s) => s.clone(),
            _ => vstd::pervasive::unreached(),
        };
        self.bump();
        name
    }

    /// Takes the numeric literal text at the head.
    fn take_number(&mut self) -> (r: String)
        requires
            old(self).wf(),
            head(old(self).stream()) matches TokenView::Number(_),
        ensures
            final(self).wf(),
            final(self).entire_stream() == old(self).entire_stream(),
            final(self).tbl() == old(self).tbl(),
            head(old(self).stream()) == TokenView::Number(r@),
            final(self).stream() == tail(old(self).stream()),
            final(self).stream().len() == old(self).stream().len() - 1,
    {
        proof {
            self.lemma_stream();
        }
        let val = match &self.toks[self.pos] {
            Token::Number(s) => s.clone(),
            _ => vstd::pervasive::unreached(),
        };
        self.bump();
        val
    }

    /// Consumes one token and requires it to be the given one, as the
    /// grammar's keyword and punctuation positions demand.
    fn consume_and_ensure_token(&mut self, token: Token) -> (r: Result<(), ParseError>)
        requires
            old(self).wf(),
            !(token@ matches TokenView::EoF),
        ensures
            final(self).wf(),
            final(self).entire_stream() == old(self).entire_stream(),
            final(self).tbl() == old(self).tbl(),
            final(self).stream().len() <= old(self).stream().len(),
            match sp_expect(old(self).stream(), token@) {
                Ok(rest) => r is Ok && final(self).stream() == rest && final(self).stream().len()
                    < old(self).stream().len(),
                Err(e) => r matches Err(pe) && pe@ == e,
            },
    {
        proof {
            self.lemma_stream();
        }
        if self.pos < self.toks.len() {
            let eq = token_eq(&self.toks[self.pos], &token);
            proof {
                lemma_token_view_not_malformed(self.toks@[self.pos as int]);
            }
            self.bump();
            if eq {
                Ok(())
            } else {
                Err(ParseError::ExpectedToken(token))
            }
        } else {
            match &self.tail_err {
                None => Err(ParseError::ExpectedToken(token)),
                Some(LexError::MalformedNumber(_)) => Err(self.lexical_error()),
            }
        }
    }
}

// Short constructors for the spec parser's results, to keep the
// executable functions' contracts readable.
pub open spec fn p_ok(e: ExprView, rest: Seq<TokenView>) -> Result<
    (ExprView, Seq<TokenView>),
    ParseErrorView,
> {
    Ok((e, rest))
}

pub open spec fn p_err(e: ParseErrorView) -> Result<(ExprView, Seq<TokenView>), ParseErrorView> {
    Err(e)
}

pub open spec fn args_ok(args: Seq<ExprView>, rest: Seq<TokenView>) -> Result<
    (Seq<ExprView>, Seq<TokenView>),
    ParseErrorView,
> {
    Ok((args, rest))
}

pub open spec fn args_err(e: ParseErrorView) -> Result<
    (Seq<ExprView>, Seq<TokenView>),
    ParseErrorView,
> {
    Err(e)
}

pub open spec fn binds_ok(
    bindings: Seq<(Seq<char>, Option<ExprView>)>,
    rest: Seq<TokenView>,
) -> Result<(Seq<(Seq<char>, Option<ExprView>)>, Seq<TokenView>), ParseErrorView> {
    Ok((bindings, rest))
}

pub open spec fn binds_err(e: ParseErrorView) -> Result<
    (Seq<(Seq<char>, Option<ExprView>)>, Seq<TokenView>),
    ParseErrorView,
> {
    Err(e)
}

impl Parser {
    /// The parts of the parser an expression-level parse leaves alone.
    pub closed spec fn frame(self, pre: Parser) -> bool {
        &&& self.wf()
        &&& self.entire_stream() == pre.entire_stream()
        &&& self.tbl() == pre.tbl()
    }

    /// A numeric literal.
    fn parse_number_expr(&mut self) -> (r: Result<ExprAST, ParseError>)
        requires
            old(self).wf(),
        ensures
            final(self).frame(*old(self)),
            final(self).stream().len() <= old(self).stream().len(),
            match r {
                Ok(e) => sp_number_expr(old(self).stream()) == p_ok(e@, final(self).stream())
                    && final(self).stream().len() < old(self).stream().len(),
                Err(pe) => sp_number_expr(old(self).stream()) == p_err(pe@),
            },
    {
        match self.peek_kind() {
            PeekKind::Number => {
                let v = self.take_number();
                Ok(ExprAST::NumberExpr(NumberExprAST { val: v }))
            },
            PeekKind::Bad => Err(self.lexical_error()),
            _ => Err(ParseError::ExpectedExpression),
        }
    }

    /// An expression: a unary term, then infix combination from minimum
    /// precedence 0.
    fn parse_expression(&mut self) -> (r: Result<ExprAST, ParseError>)
        requires
            old(self).wf(),
        ensures
            final(self).frame(*old(self)),
            final(self).stream().len() <= old(self).stream().len(),
            match r {
                Ok(e) => sp_expression(old(self).stream(), old(self).tbl()) == p_ok(
                    e@,
                    final(self).stream(),
                ) && final(self).stream().len() < old(self).stream().len(),
                Err(pe) => sp_expression(old(self).stream(), old(self).tbl()) == p_err(pe@),
            },
        decreases old(self).stream().len(), 13int,
    {
        let lhs = match self.parse_unary() {
            Ok(e) => e,
            Err(pe) => {
                return Err(pe);
            },
        };
        self.parse_bin_op_rhs(0, lhs)
    }

    /// A unary term: an operator character other than `(` and `,`
    /// prefixes the term it applies to.
    fn parse_unary(&mut self) -> (r: Result<ExprAST, ParseError>)
        requires
            old(self).wf(),
        ensures
            final(self).frame(*old(self)),
            final(self).stream().len() <= old(self).stream().len(),
            match r {
                Ok(e) => sp_unary(old(self).stream(), old(self).tbl()) == p_ok(
                    e@,
                    final(self).stream(),
                ) && final(self).stream().len() < old(self).stream().len(),
                Err(pe) => sp_unary(old(self).stream(), old(self).tbl()) == p_err(pe@),
            },
        decreases old(self).stream().len(), 12int,
    {
        match self.peek_kind() {
            PeekKind::Op(c) => {
                if c == '(' || c == ',' {
                    self.parse_primary()
                } else {
                    proof {
                        self.lemma_stream();
                        if self.pos == self.toks@.len() {
                            assert(head(self.stream()) == terminator_view(self.tail_err));
                        }
                    }
                    self.bump();
                    let operand = match self.parse_unary() {
                        Ok(e) => e,
                        Err(pe) => {
                            return Err(pe);
                        },
                    };
                    Ok(ExprAST::UnaryExpr(UnaryExprAST { opcode: c, operand: Box::new(operand) }))
                }
            },
            _ => self.parse_primary(),
        }
    }

    /// A primary expression, dispatched on one token of lookahead.
    fn parse_primary(&mut self) -> (r: Result<ExprAST, ParseError>)
        requires
            old(self).wf(),
        ensures
            final(self).frame(*old(self)),
            final(self).stream().len() <= old(self).stream().len(),
            match r {
                Ok(e) => sp_primary(old(self).stream(), old(self).tbl()) == p_ok(
                    e@,
                    final(self).stream(),
                ) && final(self).stream().len() < old(self).stream().len(),
                Err(pe) => sp_primary(old(self).stream(), old(self).tbl()) == p_err(pe@),
            },
        decreases old(self).stream().len(), 11int,
    {
        match self.peek_kind() {
            PeekKind::Identifier => self.parse_identifier_expr(),
            PeekKind::Number => self.parse_number_expr(),
            PeekKind::Op(c) => {
                if c == '(' {
                    self.parse_paren_expr()
                } else {
                    Err(ParseError::ExpectedExpression)
                }
            },
            PeekKind::If => self.parse_if_expr(),
            PeekKind::For => self.parse_for_expr(),
            PeekKind::Var => self.parse_var_expr(),
            PeekKind::Bad => Err(self.lexical_error()),
            _ => Err(ParseError::ExpectedExpression),
        }
    }

    /// A parenthesised expression: `(`, an expression, a required `)`.
    fn parse_paren_expr(&mut self) -> (r: Result<ExprAST, ParseError>)
        requires
            old(self).wf(),
            head(old(self).stream()) == TokenView::Op('('),
        ensures
            final(self).frame(*old(self)),
            final(self).stream().len() <= old(self).stream().len(),
            match r {
                Ok(e) => sp_paren_expr(old(self).stream(), old(self).tbl()) == p_ok(
                    e@,
                    final(self).stream(),
                ) && final(self).stream().len() < old(self).stream().len(),
                Err(pe) => sp_paren_expr(old(self).stream(), old(self).tbl()) == p_err(pe@),
            },
        decreases old(self).stream().len(), 10int,
    {
        proof {
            self.lemma_stream();
            if self.pos == self.toks@.len() {
                assert(head(self.stream()) == terminator_view(self.tail_err));
            }
        }
        self.bump();
        let e = match self.parse_expression() {
            Ok(e) => e,
            Err(pe) => {
                return Err(pe);
            },
        };
        match self.peek_kind() {
            PeekKind::Op(c) => {
                if c == ')' {
                    proof {
                        self.lemma_stream();
                        if self.pos == self.toks@.len() {
                            assert(head(self.stream()) == terminator_view(self.tail_err));
                        }
                    }
                    self.bump();
                    Ok(e)
                } else {
                    Err(ParseError::MissingClosingParen)
                }
            },
            PeekKind::Bad => Err(self.lexical_error()),
            _ => Err(ParseError::MissingClosingParen),
        }
    }

    /// Infix combination by precedence climbing (see [`sp_bin_op_rhs`]).
    fn parse_bin_op_rhs(&mut self, min_prec: isize, lhs: ExprAST) -> (r: Result<
        ExprAST,
        ParseError,
    >)
        requires
            old(self).wf(),
        ensures
            final(self).frame(*old(self)),
            final(self).stream().len() <= old(self).stream().len(),
            match r {
                Ok(e) => sp_bin_op_rhs(
                    min_prec as int,
                    lhs@,
                    old(self).stream(),
                    old(self).tbl(),
                ) == p_ok(e@, final(self).stream()),
                Err(pe) => sp_bin_op_rhs(
                    min_prec as int,
                    lhs@,
                    old(self).stream(),
                    old(self).tbl(),
                ) == p_err(pe@),
            },
        decreases old(self).stream().len(), 10int,
    {
        match self.peek_kind() {
            PeekKind::Bad => Err(self.lexical_error()),
            PeekKind::Op(c) => {
                let prec = self.table.get(c);
                proof {
                    assert(prec as int == op_prec(self.tbl(), c));
                }
                if prec < min_prec {
                    return Ok(lhs);
                }
                proof {
                    self.lemma_stream();
                    if self.pos == self.toks@.len() {
                        assert(head(self.stream()) == terminator_view(self.tail_err));
                    }
                }
                self.bump();
                let rhs0 = match self.parse_unary() {
                    Ok(e) => e,
                    Err(pe) => {
                        return Err(pe);
                    },
                };
                let climb = match self.peek_kind() {
                    PeekKind::Op(c2) => self.table.get(c2) > prec,
                    _ => false,
                };
                let rhs = if climb {
                    match self.parse_bin_op_rhs(prec + 1, rhs0) {
                        Ok(e) => e,
                        Err(pe) => {
                            return Err(pe);
                        },
                    }
                } else {
                    rhs0
                };
                let combined = ExprAST::BinaryExpr(
                    BinaryExprAST { op: c, lhs: Box::new(lhs), rhs: Box::new(rhs) },
                );
                self.parse_bin_op_rhs(min_prec, combined)
            },
            _ => Ok(lhs),
        }
    }

    /// An identifier: a variable reference, or a call when `(` follows.
    fn parse_identifier_expr(&mut self) -> (r: Result<ExprAST, ParseError>)
        requires
            old(self).wf(),
        ensures
            final(self).frame(*old(self)),
            final(self).stream().len() <= old(self).stream().len(),
            match r {
                Ok(e) => sp_identifier_expr(old(self).stream(), old(self).tbl()) == p_ok(
                    e@,
                    final(self).stream(),
                ) && final(self).stream().len() < old(self).stream().len(),
                Err(pe) => sp_identifier_expr(old(self).stream(), old(self).tbl()) == p_err(pe@),
            },
        decreases old(self).stream().len(), 10int,
    {
        match self.peek_kind() {
            PeekKind::Identifier => {
                let name = self.take_identifier();
                match self.peek_kind() {
                    PeekKind::Op(c) => {
                        if c == '(' {
                            proof {
                                self.lemma_stream();
                                if self.pos == self.toks@.len() {
                                    assert(head(self.stream()) == terminator_view(self.tail_err));
                                }
                            }
                            self.bump();
                            let close = match self.peek_kind() {
                                PeekKind::Op(c2) => c2 == ')',
                                _ => false,
                            };
                            if close {
                                proof {
                                    self.lemma_stream();
                                    if self.pos == self.toks@.len() {
                                        assert(head(self.stream()) == terminator_view(
                                            self.tail_err,
                                        ));
                                    }
                                }
                                self.bump();
                                let args: Vec<ExprAST> = Vec::new();
                                proof {
                                    assert(expr_list_view(args@) =~= Seq::<ExprView>::empty());
                                }
                                Ok(ExprAST::CallExpr(CallExprAST { callee: name, args }))
                            } else {
                                let args = match self.parse_call_args() {
                                    Ok(a) => a,
                                    Err(pe) => {
                                        return Err(pe);
                                    },
                                };
                                Ok(ExprAST::CallExpr(CallExprAST { callee: name, args }))
                            }
                        } else {
                            Ok(ExprAST::VariableExpr(VariableExprAST { name }))
                        }
                    },
                    PeekKind::Bad => Err(self.lexical_error()),
                    _ => Ok(ExprAST::VariableExpr(VariableExprAST { name })),
                }
            },
            PeekKind::Bad => Err(self.lexical_error()),
            _ => Err(ParseError::ExpectedIdentifier),
        }
    }

    /// A conditional: if/then/else around three expressions.
    #[verifier::rlimit(100)]
    #[verifier::spinoff_prover]
    fn parse_if_expr(&mut self) -> (r: Result<ExprAST, ParseError>)
        requires
            old(self).wf(),
        ensures
            final(self).frame(*old(self)),
            final(self).stream().len() <= old(self).stream().len(),
            match r {
                Ok(e) => sp_if_expr(old(self).stream(), old(self).tbl()) == p_ok(
                    e@,
                    final(self).stream(),
                ) && final(self).stream().len() < old(self).stream().len(),
                Err(pe) => sp_if_expr(old(self).stream(), old(self).tbl()) == p_err(pe@),
            },
        decreases old(self).stream().len(), 10int,
    {
        match self.consume_and_ensure_token(Token::If) {
            Ok(_) => {},
            Err(pe) => {
                return Err(pe);
            },
        }
        let condition = match self.parse_expression() {
            Ok(e) => e,
            Err(pe) => {
                return Err(pe);
            },
        };
        match self.consume_and_ensure_token(Token::Then) {
            Ok(_) => {},
            Err(pe) => {
                return Err(pe);
            },
        }
        let then_block = match self.parse_expression() {
            Ok(e) => e,
            Err(pe) => {
                return Err(pe);
            },
        };
        match self.consume_and_ensure_token(Token::Else) {
            Ok(_) => {},
            Err(pe) => {
                return Err(pe);
            },
        }
        let else_block = match self.parse_expression() {
            Ok(e) => e,
            Err(pe) => {
                return Err(pe);
            },
        };
        Ok(
            ExprAST::IfExpr(
                IfExprAST {
                    condition: Box::new(condition),
                    then_block: Box::new(then_block),
                    else_block: Box::new(else_block),
                },
            ),
        )
    }

    /// A loop: `for <identifier> = <expr> , <expr> [, <expr>] in <expr>`.
    #[verifier::rlimit(60)]
    fn parse_for_expr(&mut self) -> (r: Result<ExprAST, ParseError>)
        requires
            old(self).wf(),
        ensures
            final(self).frame(*old(self)),
            final(self).stream().len() <= old(self).stream().len(),
            match r {
                Ok(e) => sp_for_expr(old(self).stream(), old(self).tbl()) == p_ok(
                    e@,
                    final(self).stream(),
                ) && final(self).stream().len() < old(self).stream().len(),
                Err(pe) => sp_for_expr(old(self).stream(), old(self).tbl()) == p_err(pe@),
            },
        decreases old(self).stream().len(), 10int,
    {
        let ghost t0 = old(self).stream();
        let ghost tbl0 = old(self).tbl();
        match self.consume_and_ensure_token(Token::For) {
            Ok(_) => {},
            Err(pe) => {
                return Err(pe);
            },
        }
        let var_name = match self.peek_kind() {
            PeekKind::Identifier => self.take_identifier(),
            PeekKind::Bad => {
                return Err(self.lexical_error());
            },
            _ => {
                return Err(ParseError::ExpectedIdentifier);
            },
        };
        match self.consume_and_ensure_token(Token::Op('=')) {
            Ok(_) => {},
            Err(pe) => {
                return Err(pe);
            },
        }
        proof {
            assert(sp_for_expr(t0, tbl0) == sp_for_clauses(var_name@, self.stream(), tbl0));
        }
        self.parse_for_clauses(var_name)
    }

    /// The start clause of a loop and the `,` after it.
    fn parse_for_clauses(&mut self, var_name: String) -> (r: Result<ExprAST, ParseError>)
        requires
            old(self).wf(),
        ensures
            final(self).frame(*old(self)),
            final(self).stream().len() <= old(self).stream().len(),
            match r {
                Ok(e) => sp_for_clauses(var_name@, old(self).stream(), old(self).tbl()) == p_ok(
                    e@,
                    final(self).stream(),
                ) && final(self).stream().len() < old(self).stream().len(),
                Err(pe) => sp_for_clauses(var_name@, old(self).stream(), old(self).tbl())
                    == p_err(pe@),
            },
        decreases old(self).stream().len(), 14int,
    {
        let var_start = match self.parse_expression() {
            Ok(e) => e,
            Err(pe) => {
                return Err(pe);
            },
        };
        match self.consume_and_ensure_token(Token::Op(',')) {
            Ok(_) => {},
            Err(pe) => {
                return Err(pe);
            },
        }
        self.parse_for_end(var_name, var_start)
    }

    /// The end clause of a loop, the optional step, the `in`, the body.
    #[verifier::rlimit(60)]
    fn parse_for_end(&mut self, var_name: String, var_start: ExprAST) -> (r: Result<
        ExprAST,
        ParseError,
    >)
        requires
            old(self).wf(),
        ensures
            final(self).frame(*old(self)),
            final(self).stream().len() <= old(self).stream().len(),
            match r {
                Ok(e) => sp_for_end(var_name@, var_start@, old(self).stream(), old(self).tbl())
                    == p_ok(e@, final(self).stream()) && final(self).stream().len() < old(
                    self,
                ).stream().len(),
                Err(pe) => sp_for_end(var_name@, var_start@, old(self).stream(), old(self).tbl())
                    == p_err(pe@),
            },
        decreases old(self).stream().len(), 14int,
    {
        let var_end = match self.parse_expression() {
            Ok(e) => e,
            Err(pe) => {
                return Err(pe);
            },
        };
        let has_step = match self.peek_kind() {
            PeekKind::Op(c) => c == ',',
            _ => false,
        };
        let step = if has_step {
            proof {
                self.lemma_stream();
                if self.pos == self.toks@.len() {
                    assert(head(self.stream()) == terminator_view(self.tail_err));
                }
            }
            self.bump();
            match self.parse_expression() {
                Ok(e) => Some(Box::new(e)),
                Err(pe) => {
                    return Err(pe);
                },
            }
        } else {
            None
        };
        match self.consume_and_ensure_token(Token::In) {
            Ok(_) => {},
            Err(pe) => {
                return Err(pe);
            },
        }
        let body = match self.parse_expression() {
            Ok(e) => e,
            Err(pe) => {
                return Err(pe);
            },
        };
        Ok(
            ExprAST::ForExpr(
                ForExprAST {
                    var_name,
                    var_start: Box::new(var_start),
                    var_end: Box::new(var_end),
                    step,
                    body: Box::new(body),
                },
            ),
        )
    }

    /// Local bindings: `var`, one or more bindings, `in`, the body.
    fn parse_var_expr(&mut self) -> (r: Result<ExprAST, ParseError>)
        requires
            old(self).wf(),
        ensures
            final(self).frame(*old(self)),
            final(self).stream().len() <= old(self).stream().len(),
            match r {
                Ok(e) => sp_var_expr(old(self).stream(), old(self).tbl()) == p_ok(
                    e@,
                    final(self).stream(),
                ) && final(self).stream().len() < old(self).stream().len(),
                Err(pe) => sp_var_expr(old(self).stream(), old(self).tbl()) == p_err(pe@),
            },
        decreases old(self).stream().len(), 10int,
    {
        match self.consume_and_ensure_token(Token::Var) {
            Ok(_) => {},
            Err(pe) => {
                return Err(pe);
            },
        }
        let var_names = match self.parse_var_bindings() {
            Ok(b) => b,
            Err(pe) => {
                return Err(pe);
            },
        };
        match self.consume_and_ensure_token(Token::In) {
            Ok(_) => {},
            Err(pe) => {
                return Err(pe);
            },
        }
        let body = match self.parse_expression() {
            Ok(e) => e,
            Err(pe) => {
                return Err(pe);
            },
        };
        Ok(ExprAST::VarExpr(VarExprAST { var_names, body: Box::new(body) }))
    }

    /// One or more `<identifier> [= <expr>]` bindings separated by `,`.
    #[verifier::rlimit(100)]
    #[verifier::spinoff_prover]
    fn parse_var_bindings(&mut self) -> (r: Result<Vec<(String, Option<ExprAST>)>, ParseError>)
        requires
            old(self).wf(),
        ensures
            final(self).frame(*old(self)),
            final(self).stream().len() <= old(self).stream().len(),
            match r {
                Ok(bindings) => sp_var_bindings(old(self).stream(), old(self).tbl()) == binds_ok(
                    binding_list_view(bindings@),
                    final(self).stream(),
                ) && final(self).stream().len() < old(self).stream().len(),
                Err(pe) => sp_var_bindings(old(self).stream(), old(self).tbl()) == binds_err(pe@),
            },
        decreases old(self).stream().len(), 14int,
    {
        let name = match self.peek_kind() {
            PeekKind::Identifier => self.take_identifier(),
            PeekKind::Bad => {
                return Err(self.lexical_error());
            },
            _ => {
                return Err(ParseError::ExpectedIdentifier);
            },
        };
        let has_init = match self.peek_kind() {
            PeekKind::Op(c) => c == '=',
            _ => false,
        };
        let init = if has_init {
            proof {
                self.lemma_stream();
                if self.pos == self.toks@.len() {
                    assert(head(self.stream()) == terminator_view(self.tail_err));
                }
            }
            self.bump();
            match self.parse_expression() {
                Ok(e) => Some(e),
                Err(pe) => {
                    return Err(pe);
                },
            }
        } else {
            None
        };
        let more = match self.peek_kind() {
            PeekKind::Op(c) => c == ',',
            _ => false,
        };
        if more {
            proof {
                self.lemma_stream();
                if self.pos == self.toks@.len() {
                    assert(head(self.stream()) == terminator_view(self.tail_err));
                }
            }
            self.bump();
            let rest = match self.parse_var_bindings() {
                Ok(b) => b,
                Err(pe) => {
                    return Err(pe);
                },
            };
            let ghost rest_view = rest@;
            let ghost head_binding = (name@, match init {
                Some(ref e) => Some(e@),
                None => None::<ExprView>,
            });
            let mut bindings = rest;
            bindings.insert(0, (name, init));
            proof {
                assert(bindings@.drop_first() =~= rest_view);
                assert(binding_list_view(bindings@) =~= seq![head_binding] + binding_list_view(
                    rest_view,
                ));
            }
            Ok(bindings)
        } else {
            let ghost hb = (name@, match init {
                Some(ref e) => Some(e@),
                None => None::<ExprView>,
            });
            let mut bindings: Vec<(String, Option<ExprAST>)> = Vec::new();
            bindings.push((name, init));
            proof {
                assert(bindings@.drop_first() =~= Seq::<(String, Option<ExprAST>)>::empty());
                assert(binding_list_view(bindings@.drop_first()) =~= Seq::<
                    (Seq<char>, Option<ExprView>),
                >::empty());
                assert(bindings@[0].0@ == hb.0);
                assert(binding_list_view(bindings@) =~= seq![hb]);
            }
            Ok(bindings)
        }
    }

    /// A non-empty argument list: expressions separated by `,`, closed
    /// by `)`.
    fn parse_call_args(&mut self) -> (r: Result<Vec<ExprAST>, ParseError>)
        requires
            old(self).wf(),
        ensures
            final(self).frame(*old(self)),
            final(self).stream().len() <= old(self).stream().len(),
            match r {
                Ok(args) => sp_call_args(old(self).stream(), old(self).tbl()) == args_ok(
                    expr_list_view(args@),
                    final(self).stream(),
                ) && final(self).stream().len() < old(self).stream().len(),
                Err(pe) => sp_call_args(old(self).stream(), old(self).tbl()) == args_err(pe@),
            },
        decreases old(self).stream().len(), 14int,
    {
        let e = match self.parse_expression() {
            Ok(e) => e,
            Err(pe) => {
                return Err(pe);
            },
        };
        match self.peek_kind() {
            PeekKind::Op(c) => {
                if c == ')' {
                    proof {
                        self.lemma_stream();
                        if self.pos == self.toks@.len() {
                            assert(head(self.stream()) == terminator_view(self.tail_err));
                        }
                    }
                    self.bump();
                    let ghost e_view = e@;
                    let mut args: Vec<ExprAST> = Vec::new();
                    args.push(e);
                    proof {
                        assert(args@.drop_first() =~= Seq::<ExprAST>::empty());
                        assert(expr_list_view(args@.drop_first()) =~= Seq::<ExprView>::empty());
                        assert(args@[0]@ == e_view);
                        assert(expr_list_view(args@) =~= seq![e_view]);
                    }
                    Ok(args)
                } else if c == ',' {
                    proof {
                        self.lemma_stream();
                        if self.pos == self.toks@.len() {
                            assert(head(self.stream()) == terminator_view(self.tail_err));
                        }
                    }
                    self.bump();
                    let rest = match self.parse_call_args() {
                        Ok(a) => a,
                        Err(pe) => {
                            return Err(pe);
                        },
                    };
                    let ghost rest_view = rest@;
                    let ghost e_view = e@;
                    let mut args = rest;
                    args.insert(0, e);
                    proof {
                        assert(args@[0] == e);
                        assert(args@.drop_first() =~= rest_view);
                        assert(expr_list_view(args@) =~= seq![e_view] + expr_list_view(rest_view));
                    }
                    Ok(args)
                } else {
                    Err(ParseError::ExpectedArgSeparator)
                }
            },
            PeekKind::Bad => Err(self.lexical_error()),
            _ => Err(ParseError::ExpectedArgSeparator),
        }
    }
}

pub open spec fn proto_ok(p: PrototypeView, rest: Seq<TokenView>) -> Result<
    (PrototypeView, Seq<TokenView>),
    ParseErrorView,
> {
    Ok((p, rest))
}

pub open spec fn proto_err(e: ParseErrorView) -> Result<
    (PrototypeView, Seq<TokenView>),
    ParseErrorView,
> {
    Err(e)
}

pub open spec fn params_ok(args: Seq<Seq<char>>, rest: Seq<TokenView>) -> Result<
    (Seq<Seq<char>>, Seq<TokenView>),
    ParseErrorView,
> {
    Ok((args, rest))
}

pub open spec fn params_err(e: ParseErrorView) -> Result<
    (Seq<Seq<char>>, Seq<TokenView>),
    ParseErrorView,
> {
    Err(e)
}

pub open spec fn fun_ok(f: FunctionView, rest: Seq<TokenView>) -> Result<
    (FunctionView, Seq<TokenView>),
    ParseErrorView,
> {
    Ok((f, rest))
}

pub open spec fn fun_err(e: ParseErrorView) -> Result<
    (FunctionView, Seq<TokenView>),
    ParseErrorView,
> {
    Err(e)
}

pub open spec fn def_ok(f: FunctionView, rest: Seq<TokenView>, tbl: Map<char, int>) -> Result<
    (FunctionView, Seq<TokenView>, Map<char, int>),
    ParseErrorView,
> {
    Ok((f, rest, tbl))
}

pub open spec fn def_err(e: ParseErrorView) -> Result<
    (FunctionView, Seq<TokenView>, Map<char, int>),
    ParseErrorView,
> {
    Err(e)
}

pub open spec fn top_ok(items: Seq<TopView>, tbl: Map<char, int>) -> Result<
    (Seq<TopView>, Map<char, int>),
    (ParseErrorView, Map<char, int>),
> {
    Ok((items, tbl))
}

pub open spec fn top_err(e: ParseErrorView, tbl: Map<char, int>) -> Result<
    (Seq<TopView>, Map<char, int>),
    (ParseErrorView, Map<char, int>),
> {
    Err((e, tbl))
}

/// The leading digit run is found by a scan exactly as the other runs
/// are.
proof fn lemma_digit_run_len_is(s: Seq<char>, j: int)
    requires
        0 <= j <= s.len(),
        forall|k: int| 0 <= k < j ==> crate::lexer::is_digit_char(s[k]),
        j == s.len() || !crate::lexer::is_digit_char(s[j]),
    ensures
        digit_run_len(s) == j,
    decreases s.len(),
{
    if j > 0 {
        assert(crate::lexer::is_digit_char(s[0]));
        lemma_digit_run_len_is(s.drop_first(), j - 1);
    }
}

/// A binary-operator overload that a prototype parse accepts carries a
/// precedence in [1, 100]: a checked literal lies there, and the default
/// of 30 does.
proof fn lemma_proto_tail_operator(
    name: Seq<char>,
    oper: Option<OperatorView>,
    t: Seq<TokenView>,
)
    ensures
        sp_proto_tail(name, oper, t) matches Ok(res) ==> res.0.operator == oper,
{
}

proof fn lemma_prototype_operator_prec(t: Seq<TokenView>)
    ensures
        sp_prototype(t) matches Ok(res) ==> (res.0.operator matches Some(
            OperatorView::Binary { op_name, precedence },
        ) ==> 1 <= precedence <= 100),
{
    match head(t) {
        TokenView::Identifier(n) => {
            lemma_proto_tail_operator(n, None, tail(t));
        },
        TokenView::Unary => {
            match head(tail(t)) {
                TokenView::Op(c) => {
                    lemma_proto_tail_operator(
                        unary_func_name(c),
                        Some(OperatorView::Unary),
                        tail(tail(t)),
                    );
                },
                _ => {},
            }
        },
        TokenView::Binary => {
            let r1 = tail(t);
            match head(r1) {
                TokenView::Op(c) => {
                    let r2 = tail(r1);
                    match head(r2) {
                        TokenView::Number(lit) => {
                            match prec_of_lit(lit) {
                                Some(p) => {
                                    assert(1 <= p <= 100);
                                    lemma_proto_tail_operator(
                                        binary_func_name(c),
                                        Some(OperatorView::Binary { op_name: c, precedence: p }),
                                        tail(r2),
                                    );
                                },
                                None => {},
                            }
                        },
                        _ => {
                            lemma_proto_tail_operator(
                                binary_func_name(c),
                                Some(OperatorView::Binary { op_name: c, precedence: 30 }),
                                r2,
                            );
                        },
                    }
                },
                _ => {},
            }
        },
        _ => {},
    }
}

impl Parser {
    /// The precedence a numeric literal's text stands for, when it lies
    /// in [1, 100].
    fn prec_from_lit(lit: &String) -> (r: Option<isize>)
        ensures
            match prec_of_lit(lit@) {
                Some(p) => r matches Some(q) && q as int == p && 1 <= q <= 100,
                None => r is None,
            },
    {
        let s = lit.as_str();
        let n = s.unicode_len();
        let mut j: usize = 0;
        let mut acc: usize = 0;
        while j < n && ('0' <= s.get_char(j) && s.get_char(j) <= '9')
            invariant
                n == s@.len(),
                0 <= j <= n,
                acc <= 101,
                dec_val(s@.take(j as int)) <= 101 ==> acc == dec_val(s@.take(j as int)),
                dec_val(s@.take(j as int)) > 101 ==> acc == 101,
                dec_val(s@.take(j as int)) >= 0,
                forall|k: int| 0 <= k < j ==> crate::lexer::is_digit_char(s@[k]),
            decreases n - j,
        {
            let c = s.get_char(j);
            let d = (c as u32 - 48) as usize;
            proof {
                assert(s@.take(j as int + 1).drop_last() =~= s@.take(j as int));
                assert(s@.take(j as int + 1).last() == s@[j as int]);
                assert(dec_val(s@.take(j as int + 1)) == 10 * dec_val(s@.take(j as int)) + (s@[
                    j as int
                ] as int - '0' as int));
            }
            acc = if acc * 10 + d > 101 {
                101
            } else {
                acc * 10 + d
            };
            j += 1;
        }
        proof {
            lemma_digit_run_len_is(s@, j as int);
            assert(s@.take(digit_run_len(s@) as int) == s@.take(j as int));
        }
        let mut fz = true;
        if j < n {
            let mut k = j + 1;
            while k < n
                invariant
                    n == s@.len(),
                    j + 1 <= k,
                    k <= n || k == j + 1,
                    fz <==> (forall|m: int| j < m < k ==> s@[m] == '0'),
                decreases n - k,
            {
                let c = s.get_char(k);
                if c != '0' {
                    fz = false;
                }
                k += 1;
            }
        }
        proof {
            assert(fz == lit_frac_zero(lit@));
        }
        if acc >= 1 && (acc < 100 || (acc == 100 && fz)) {
            Some(acc as isize)
        } else {
            None
        }
    }
}

impl Parser {
    /// A parameter list: identifiers up to the closing `)`.
    fn parse_proto_params(&mut self) -> (r: Result<Vec<String>, ParseError>)
        requires
            old(self).wf(),
        ensures
            final(self).frame(*old(self)),
            final(self).stream().len() <= old(self).stream().len(),
            match r {
                Ok(args) => sp_proto_params(old(self).stream()) == params_ok(
                    name_list_view(args@),
                    final(self).stream(),
                ) && final(self).stream().len() < old(self).stream().len(),
                Err(pe) => sp_proto_params(old(self).stream()) == params_err(pe@),
            },
        decreases old(self).stream().len(), 10int,
    {
        match self.peek_kind() {
            PeekKind::Identifier => {
                let a = self.take_identifier();
                let rest = match self.parse_proto_params() {
                    Ok(v) => v,
                    Err(pe) => {
                        return Err(pe);
                    },
                };
                let ghost rest_view = rest@;
                let ghost a_view = a@;
                let mut args = rest;
                args.insert(0, a);
                proof {
                    assert(args@[0]@ == a_view);
                    assert(args@.drop_first() =~= rest_view);
                    assert(name_list_view(args@) =~= seq![a_view] + name_list_view(rest_view));
                }
                Ok(args)
            },
            PeekKind::Op(c) => {
                if c == ')' {
                    proof {
                        self.lemma_stream();
                        if self.pos == self.toks@.len() {
                            assert(head(self.stream()) == terminator_view(self.tail_err));
                        }
                    }
                    self.bump();
                    let args: Vec<String> = Vec::new();
                    proof {
                        assert(name_list_view(args@) =~= Seq::<Seq<char>>::empty());
                    }
                    Ok(args)
                } else {
                    Err(ParseError::ExpectedParamOrClose)
                }
            },
            PeekKind::Bad => Err(self.lexical_error()),
            _ => Err(ParseError::ExpectedParamOrClose),
        }
    }

    /// The common tail of a prototype: `(`, the parameters, the arity
    /// check of an operator overload.
    fn parse_proto_tail(&mut self, name: String, operator: Option<Operator>) -> (r: Result<
        PrototypeAST,
        ParseError,
    >)
        requires
            old(self).wf(),
        ensures
            final(self).frame(*old(self)),
            final(self).stream().len() <= old(self).stream().len(),
            match r {
                Ok(p) => sp_proto_tail(name@, operator_view(operator), old(self).stream())
                    == proto_ok(p@, final(self).stream()) && final(self).stream().len() < old(
                    self,
                ).stream().len(),
                Err(pe) => sp_proto_tail(name@, operator_view(operator), old(self).stream())
                    == proto_err(pe@),
            },
        decreases old(self).stream().len(), 11int,
    {
        match self.consume_and_ensure_token(Token::Op('(')) {
            Ok(_) => {},
            Err(pe) => {
                return Err(pe);
            },
        }
        let args = match self.parse_proto_params() {
            Ok(v) => v,
            Err(pe) => {
                return Err(pe);
            },
        };
        let arity_ok = match &operator {
            Some(Operator::Binary { .. }) => args.len() == 2,
            Some(Operator::Unary) => args.len() == 1,
            None => true,
        };
        proof {
            crate::ast::lemma_name_list_view_len(args@);
        }
        if arity_ok {
            Ok(PrototypeAST { name, args, operator })
        } else {
            Err(ParseError::WrongOperatorArity)
        }
    }

    /// A prototype: a plain name, or an operator-overload head followed
    /// by the parameter list.
    fn parse_prototype(&mut self) -> (r: Result<PrototypeAST, ParseError>)
        requires
            old(self).wf(),
        ensures
            final(self).frame(*old(self)),
            final(self).stream().len() <= old(self).stream().len(),
            match r {
                Ok(p) => sp_prototype(old(self).stream()) == proto_ok(p@, final(self).stream())
                    && final(self).stream().len() < old(self).stream().len(),
                Err(pe) => sp_prototype(old(self).stream()) == proto_err(pe@),
            },
        decreases old(self).stream().len(), 12int,
    {
        match self.peek_kind() {
            PeekKind::Identifier => {
                let n = self.take_identifier();
                self.parse_proto_tail(n, None)
            },
            PeekKind::Unary => {
                proof {
                    self.lemma_stream();
                    if self.pos == self.toks@.len() {
                        assert(head(self.stream()) == terminator_view(self.tail_err));
                    }
                }
                self.bump();
                match self.peek_kind() {
                    PeekKind::Op(c) => {
                        proof {
                            self.lemma_stream();
                            if self.pos == self.toks@.len() {
                                assert(head(self.stream()) == terminator_view(self.tail_err));
                            }
                        }
                        self.bump();
                        let name = PrototypeAST::gen_unary_func_name(c);
                        self.parse_proto_tail(name, Some(Operator::Unary))
                    },
                    PeekKind::Bad => Err(self.lexical_error()),
                    _ => Err(ParseError::ExpectedOperatorSymbol),
                }
            },
            PeekKind::Binary => {
                proof {
                    self.lemma_stream();
                    if self.pos == self.toks@.len() {
                        assert(head(self.stream()) == terminator_view(self.tail_err));
                    }
                }
                self.bump();
                match self.peek_kind() {
                    PeekKind::Op(c) => {
                        proof {
                            self.lemma_stream();
                            if self.pos == self.toks@.len() {
                                assert(head(self.stream()) == terminator_view(self.tail_err));
                            }
                        }
                        self.bump();
                        match self.peek_kind() {
                            PeekKind::Number => {
                                let lit = self.take_number();
                                match Parser::prec_from_lit(&lit) {
                                    None => Err(ParseError::InvalidPrecedence),
                                    Some(p) => {
                                        let name = PrototypeAST::gen_binary_func_name(c);
                                        self.parse_proto_tail(
                                            name,
                                            Some(Operator::Binary { op_name: c, precedence: p }),
                                        )
                                    },
                                }
                            },
                            _ => {
                                let name = PrototypeAST::gen_binary_func_name(c);
                                self.parse_proto_tail(
                                    name,
                                    Some(Operator::Binary { op_name: c, precedence: 30 }),
                                )
                            },
                        }
                    },
                    PeekKind::Bad => Err(self.lexical_error()),
                    _ => Err(ParseError::ExpectedOperatorSymbol),
                }
            },
            PeekKind::Bad => Err(self.lexical_error()),
            _ => Err(ParseError::ExpectedPrototypeName),
        }
    }

    /// A function definition: `def`, a prototype, the body. A binary
    /// overload's precedence is registered after the definition
    /// completes, for all subsequent parsing in the session.
    fn parse_definition(&mut self) -> (r: Result<FunctionAST, ParseError>)
        requires
            old(self).wf(),
        ensures
            final(self).wf(),
            final(self).entire_stream() == old(self).entire_stream(),
            final(self).stream().len() <= old(self).stream().len(),
            match r {
                Ok(f) => sp_definition(old(self).stream(), old(self).tbl()) == def_ok(
                    f@,
                    final(self).stream(),
                    final(self).tbl(),
                ) && final(self).stream().len() < old(self).stream().len(),
                Err(pe) => sp_definition(old(self).stream(), old(self).tbl()) == def_err(pe@)
                    && final(self).tbl() == old(self).tbl(),
            },
        decreases old(self).stream().len(), 12int,
    {
        match self.consume_and_ensure_token(Token::Def) {
            Ok(_) => {},
            Err(pe) => {
                return Err(pe);
            },
        }
        let ghost r1 = self.stream();
        let proto = match self.parse_prototype() {
            Ok(p) => p,
            Err(pe) => {
                return Err(pe);
            },
        };
        let body = match self.parse_expression() {
            Ok(e) => e,
            Err(pe) => {
                return Err(pe);
            },
        };
        let reg = match &proto.operator {
            Some(Operator::Binary { op_name, precedence }) => Some((*op_name, *precedence)),
            _ => None,
        };
        proof {
            lemma_prototype_operator_prec(r1);
        }
        match reg {
            Some((opn, prec)) => {
                self.table.set(opn, prec);
            },
            None => {},
        }
        Ok(FunctionAST { proto, body })
    }

    /// An external declaration: `extern` and a prototype alone.
    fn parse_extern(&mut self) -> (r: Result<PrototypeAST, ParseError>)
        requires
            old(self).wf(),
        ensures
            final(self).frame(*old(self)),
            final(self).stream().len() <= old(self).stream().len(),
            match r {
                Ok(p) => sp_extern(old(self).stream()) == proto_ok(p@, final(self).stream())
                    && final(self).stream().len() < old(self).stream().len(),
                Err(pe) => sp_extern(old(self).stream()) == proto_err(pe@),
            },
        decreases old(self).stream().len(), 13int,
    {
        match self.consume_and_ensure_token(Token::Extern) {
            Ok(_) => {},
            Err(pe) => {
                return Err(pe);
            },
        }
        self.parse_prototype()
    }

    /// A top-level bare expression, wrapped into a zero-argument
    /// function under the reserved anonymous name.
    fn parse_top_level_expression(&mut self) -> (r: Result<FunctionAST, ParseError>)
        requires
            old(self).wf(),
        ensures
            final(self).frame(*old(self)),
            final(self).stream().len() <= old(self).stream().len(),
            match r {
                Ok(f) => sp_top_level_expression(old(self).stream(), old(self).tbl()) == fun_ok(
                    f@,
                    final(self).stream(),
                ) && final(self).stream().len() < old(self).stream().len(),
                Err(pe) => sp_top_level_expression(old(self).stream(), old(self).tbl())
                    == fun_err(pe@),
            },
        decreases old(self).stream().len(), 14int,
    {
        let body = match self.parse_expression() {
            Ok(e) => e,
            Err(pe) => {
                return Err(pe);
            },
        };
        let anonymous_prototype = PrototypeAST {
            name: ANONYM_FUNCTION.to_owned(),
            args: Vec::new(),
            operator: None,
        };
        proof {
            assert(name_list_view(anonymous_prototype.args@) =~= Seq::<Seq<char>>::empty());
            assert(anonymous_prototype@.name == anonym_function_name());
        }
        Ok(FunctionAST { proto: anonymous_prototype, body })
    }

    /// The top-level loop, one item per step (see [`sp_top`]).
    #[verifier::rlimit(100)]
    #[verifier::spinoff_prover]
    fn parse_top(&mut self) -> (r: Result<KaleoGrammar, ParseError>)
        requires
            old(self).wf(),
        ensures
            final(self).wf(),
            final(self).entire_stream() == old(self).entire_stream(),
            match r {
                Ok(g) => sp_top(old(self).stream(), old(self).tbl()) == top_ok(
                    g@,
                    final(self).tbl(),
                ),
                Err(pe) => sp_top(old(self).stream(), old(self).tbl()) == top_err(
                    pe@,
                    final(self).tbl(),
                ),
            },
        decreases old(self).stream().len(), 16int,
    {
        match self.peek_kind() {
            PeekKind::Def => {
                let f = match self.parse_definition() {
                    Ok(f) => f,
                    Err(pe) => {
                        return Err(pe);
                    },
                };
                let rest = match self.parse_top() {
                    Ok(g) => g,
                    Err(pe) => {
                        return Err(pe);
                    },
                };
                let ghost f_view = f@;
                let ghost rest_items = rest.0@;
                let mut items = rest.0;
                items.insert(0, TopAST::Function(f));
                proof {
                    assert(items@[0]@ == TopView::Function(f_view));
                    assert(items@.drop_first() =~= rest_items);
                    assert(top_list_view(items@) =~= seq![TopView::Function(f_view)]
                        + top_list_view(rest_items));
                }
                Ok(KaleoGrammar(items))
            },
            PeekKind::Extern => {
                let p = match self.parse_extern() {
                    Ok(p) => p,
                    Err(pe) => {
                        return Err(pe);
                    },
                };
                let rest = match self.parse_top() {
                    Ok(g) => g,
                    Err(pe) => {
                        return Err(pe);
                    },
                };
                let ghost p_view = p@;
                let ghost rest_items = rest.0@;
                let mut items = rest.0;
                items.insert(0, TopAST::Prototype(p));
                proof {
                    assert(items@[0]@ == TopView::Prototype(p_view));
                    assert(items@.drop_first() =~= rest_items);
                    assert(top_list_view(items@) =~= seq![TopView::Prototype(p_view)]
                        + top_list_view(rest_items));
                }
                Ok(KaleoGrammar(items))
            },
            PeekKind::Op(c) => {
                if c == ';' {
                    proof {
                        self.lemma_stream();
                        if self.pos == self.toks@.len() {
                            assert(head(self.stream()) == terminator_view(self.tail_err));
                        }
                    }
                    self.bump();
                    self.parse_top()
                } else {
                    self.parse_top_bare()
                }
            },
            PeekKind::EoF => {
                let items: Vec<TopAST> = Vec::new();
                proof {
                    assert(top_list_view(items@) =~= Seq::<TopView>::empty());
                }
                Ok(KaleoGrammar(items))
            },
            PeekKind::Bad => Err(self.lexical_error()),
            _ => self.parse_top_bare(),
        }
    }

    /// The bare-expression arm of the top-level loop.
    fn parse_top_bare(&mut self) -> (r: Result<KaleoGrammar, ParseError>)
        requires
            old(self).wf(),
        ensures
            final(self).wf(),
            final(self).entire_stream() == old(self).entire_stream(),
            match r {
                Ok(g) => sp_top_bare(old(self).stream(), old(self).tbl()) == top_ok(
                    g@,
                    final(self).tbl(),
                ),
                Err(pe) => sp_top_bare(old(self).stream(), old(self).tbl()) == top_err(
                    pe@,
                    final(self).tbl(),
                ),
            },
        decreases old(self).stream().len(), 15int,
    {
        let f = match self.parse_top_level_expression() {
            Ok(f) => f,
            Err(pe) => {
                return Err(pe);
            },
        };
        let rest = match self.parse_top() {
            Ok(g) => g,
            Err(pe) => {
                return Err(pe);
            },
        };
        let ghost f_view = f@;
        let ghost rest_items = rest.0@;
        let mut items = rest.0;
        items.insert(0, TopAST::Function(f));
        proof {
            assert(items@[0]@ == TopView::Function(f_view));
            assert(items@.drop_first() =~= rest_items);
            assert(top_list_view(items@) =~= seq![TopView::Function(f_view)] + top_list_view(
                rest_items,
            ));
        }
        Ok(KaleoGrammar(items))
    }
}

// ---------------------------------------------------------------------------
// Laws of the parser
// ---------------------------------------------------------------------------

/// An operator symbol with no table entry cannot continue an infix
/// expression: precedence climbing returns the accumulated left-hand
/// side at that point, consuming nothing and raising no error.
pub proof fn lemma_unregistered_op_stops_climb(
    min_prec: int,
    lhs: ExprView,
    t: Seq<TokenView>,
    tbl: Map<char, int>,
)
    requires
        head(t) matches TokenView::Op(c) && !tbl.contains_key(c),
        min_prec >= 0,
    ensures
        sp_bin_op_rhs(min_prec, lhs, t, tbl) == p_ok(lhs, t),
{
}

/// A symbol whose registered precedence reaches the current minimum
/// does continue the infix expression: when the climb succeeds from
/// such a token, what it returns is a binary node — the symbol was
/// taken as an infix operator, not left behind.
pub proof fn lemma_registered_op_continues_climb(
    min_prec: int,
    lhs: ExprView,
    t: Seq<TokenView>,
    tbl: Map<char, int>,
)
    requires
        head(t) matches TokenView::Op(c) && tbl.contains_key(c) && tbl[c] >= min_prec,
    ensures
        sp_bin_op_rhs(min_prec, lhs, t, tbl) matches Ok(res) ==> res.0 matches ExprView::Binary {
            ..
        },
{
    let c = head(t)->Op_0;
    let prec = op_prec(tbl, c);
    match sp_unary(tail(t), tbl) {
        Err(_) => {},
        Ok((rhs0, r2)) => {
            let step = match head(r2) {
                TokenView::Op(c2) => if op_prec(tbl, c2) > prec {
                    if r2.len() < t.len() {
                        sp_bin_op_rhs(prec + 1, rhs0, r2, tbl)
                    } else {
                        Err(ParseErrorView::ExpectedExpression)
                    }
                } else {
                    Ok((rhs0, r2))
                },
                _ => Ok((rhs0, r2)),
            };
            match step {
                Err(_) => {},
                Ok((rhs, r3)) => {
                    let combined = ExprView::Binary {
                        op: c,
                        lhs: Box::new(lhs),
                        rhs: Box::new(rhs),
                    };
                    if r3.len() < t.len() {
                        lemma_climb_keeps_binary(min_prec, combined, r3, tbl);
                    }
                },
            }
        },
    }
}

/// Once the climb holds a binary node as its left-hand side, whatever
/// it returns on success is still a binary node: later operators only
/// wrap it in further binary nodes.
proof fn lemma_climb_keeps_binary(
    min_prec: int,
    lhs: ExprView,
    t: Seq<TokenView>,
    tbl: Map<char, int>,
)
    requires
        lhs matches ExprView::Binary { .. },
    ensures
        sp_bin_op_rhs(min_prec, lhs, t, tbl) matches Ok(res) ==> res.0 matches ExprView::Binary {
            ..
        },
    decreases t.len(),
{
    match head(t) {
        TokenView::Op(c) => {
            let prec = op_prec(tbl, c);
            if prec >= min_prec {
                match sp_unary(tail(t), tbl) {
                    Err(_) => {},
                    Ok((rhs0, r2)) => {
                        let step = match head(r2) {
                            TokenView::Op(c2) => if op_prec(tbl, c2) > prec {
                                if r2.len() < t.len() {
                                    sp_bin_op_rhs(prec + 1, rhs0, r2, tbl)
                                } else {
                                    Err(ParseErrorView::ExpectedExpression)
                                }
                            } else {
                                Ok((rhs0, r2))
                            },
                            _ => Ok((rhs0, r2)),
                        };
                        match step {
                            Err(_) => {},
                            Ok((rhs, r3)) => {
                                let combined = ExprView::Binary {
                                    op: c,
                                    lhs: Box::new(lhs),
                                    rhs: Box::new(rhs),
                                };
                                if r3.len() < t.len() {
                                    lemma_climb_keeps_binary(min_prec, combined, r3, tbl);
                                }
                            },
                        }
                    },
                }
            }
        },
        _ => {},
    }
}

/// Parsing a definition that overloads a binary operator registers
/// exactly that operator at exactly the declared precedence: the table
/// it leaves is the table it began with, with that one entry inserted —
/// so a later lookup of the symbol, anywhere in the same session, finds
/// that precedence. A definition of anything else leaves the table
/// untouched.
pub proof fn lemma_definition_registers(t: Seq<TokenView>, tbl: Map<char, int>)
    ensures
        sp_definition(t, tbl) matches Ok(res) ==> (match res.0.proto.operator {
            Some(OperatorView::Binary { op_name, precedence }) => res.2 == tbl.insert(
                op_name,
                precedence,
            ) && op_prec(res.2, op_name) == precedence,
            _ => res.2 == tbl,
        }),
{
}

// ---------------------------------------------------------------------------
// The parsing session
// ---------------------------------------------------------------------------

/// A parsing session: the operator table that lives across calls, so a
/// binary-operator overload defined in one call governs the ones after
/// it.
pub struct GlobalParser {
    token_precedence: OpTable,
}

impl GlobalParser {
    /// The session's table is well formed.
    pub closed spec fn wf(&self) -> bool {
        self.token_precedence.wf()
    }

    /// The session's operator table.
    pub closed spec fn tbl(&self) -> Map<char, int> {
        self.token_precedence@
    }

    /// Parses one whole input: lexes it, then runs the top-level loop
    /// against the session's operator table. The result — and the
    /// table the session is left with, errors included — is exactly
    /// what the spec-level parser says of the spec-level token stream.
    pub fn parse(&mut self, input: &str) -> (r: Result<KaleoGrammar, ParseError>)
        requires
            old(self).wf(),
        ensures
            final(self).wf(),
            match r {
                Ok(g) => sp_top(lex_stream(input@), old(self).tbl()) == top_ok(
                    g@,
                    final(self).tbl(),
                ),
                Err(e) => sp_top(lex_stream(input@), old(self).tbl()) == top_err(
                    e@,
                    final(self).tbl(),
                ),
            },
    {
        let (toks, tail_err) = tokenize(input);
        let mut table = OpTable::empty();
        core::mem::swap(&mut self.token_precedence, &mut table);
        let mut parser = Parser { toks, tail_err, pos: 0, table };
        proof {
            assert(parser.stream() =~= stream_view(parser.toks@, parser.tail_err));
        }
        let r = parser.parse_top();
        core::mem::swap(&mut self.token_precedence, &mut parser.table);
        r
    }
}

impl Default for GlobalParser {
    /// A fresh session, with the default operator precedences.
    fn default() -> (r: Self)
        ensures
            r.wf(),
            r.tbl() == default_table(),
    {
        GlobalParser { token_precedence: OpTable::with_defaults() }
    }
}

/// Overwriting the one entry that carries `op` updates the mapping as an
/// insert does.
proof fn lemma_maps_agree(
    s0: Seq<(char, isize)>,
    s1: Seq<(char, isize)>,
    op: char,
    prec: isize,
    i: int,
)
    requires
        s1.len() == s0.len(),
        0 <= i < s0.len(),
        s0[i].0 == op,
        s1 == s0.update(i, (op, prec)),
        forall|a: int, b: int|
            0 <= a < b < s0.len() ==> (#[trigger] s0[a]).0 != (#[trigger] s0[b]).0,
        forall|a: int, b: int|
            0 <= a < b < s1.len() ==> (#[trigger] s1[a]).0 != (#[trigger] s1[b]).0,
    ensures
        entries_map(s1) == entries_map(s0).insert(op, prec as int),
{
    let m1 = entries_map(s1);
    let m2 = entries_map(s0).insert(op, prec as int);
    assert forall|c: char| #![all_triggers] m1.contains_key(c) == m2.contains_key(c) by {
        lemma_entries_map_domain(s0, c);
        lemma_entries_map_domain(s1, c);
        if c == op {
            assert(s1[i].0 == op);
        } else {
            if exists|k: int| 0 <= k < s1.len() && (#[trigger] s1[k]).0 == c {
                let w = choose|k: int| 0 <= k < s1.len() && (#[trigger] s1[k]).0 == c;
                assert(s0[w].0 == c);
            }
            if exists|k: int| 0 <= k < s0.len() && (#[trigger] s0[k]).0 == c {
                let w = choose|k: int| 0 <= k < s0.len() && (#[trigger] s0[k]).0 == c;
                assert(w != i);
                assert(s1[w].0 == c);
            }
        }
    }
    assert forall|c: char| #![all_triggers] m1.contains_key(c) implies m1[c] == m2[c] by {
        if c == op {
            assert(s1[i].0 == op);
            lemma_entries_map_value(s1, i);
        } else {
            lemma_entries_map_domain(s1, c);
            let w = choose|k: int| 0 <= k < s1.len() && (#[trigger] s1[k]).0 == c;
            assert(w != i);
            assert(s0[w].0 == c);
            lemma_entries_map_value(s1, w);
            lemma_entries_map_value(s0, w);
        }
    }
    assert(m1 =~= m2);
}

} // verus!

