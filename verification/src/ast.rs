//! The abstract syntax tree produced by parsing: an ordered sequence of
//! top-level items, each a function definition or a prototype-only
//! declaration, over a closed set of expression shapes.
//!
//! Numeric literals are carried as their source text: the front end never
//! interprets them as machine floats, it only recognises and transports them.
//! A backend that needs the numeric value converts the text itself.
//!
//! Every syntax type has a mathematical view (`ExprView`, `PrototypeView`,
//! ...) over `Seq<char>` and `Seq`, which the parser's contracts are stated
//! over.

use vstd::prelude::*;
use vstd::string::*;

verus! {

/// The reserved name of the zero-argument function that wraps a top-level
/// bare expression. Identifiers are alphanumeric, so no user-written name
/// can collide with it.
pub const ANONYM_FUNCTION: &'static str = "__anon_expr";

/// The view of [`ANONYM_FUNCTION`].
pub open spec fn anonym_function_name() -> Seq<char> {
    "__anon_expr"@
}

/// A parsed program: the ordered sequence of top-level items.
#[derive(Debug, PartialEq)]
pub struct KaleoGrammar(pub Vec<TopAST>);

/// A top-level item: a full function definition, or a prototype alone
/// (an external declaration).
#[derive(Debug, PartialEq)]
pub enum TopAST {
    Function(FunctionAST),
    Prototype(PrototypeAST),
}

/// An expression, the closed set of node shapes the parser can produce.
#[derive(Debug, PartialEq)]
pub enum ExprAST {
    NumberExpr(NumberExprAST),
    VariableExpr(VariableExprAST),
    UnaryExpr(UnaryExprAST),
    BinaryExpr(BinaryExprAST),
    CallExpr(CallExprAST),
    IfExpr(IfExprAST),
    ForExpr(ForExprAST),
    VarExpr(VarExprAST),
}

/// A numeric literal, carried as its source text (digits and at most one
/// dot, as the lexer guarantees).
#[derive(Debug, PartialEq)]
pub struct NumberExprAST {
    pub val: String,
}

/// A reference to a variable by name.
#[derive(Debug, PartialEq)]
pub struct VariableExprAST {
    pub name: String,
}

/// A prefix operator applied to an operand.
#[derive(Debug, PartialEq)]
pub struct UnaryExprAST {
    pub opcode: char,
    pub operand: Box<ExprAST>,
}

/// An infix operator applied to two operands.
#[derive(Debug, PartialEq)]
pub struct BinaryExprAST {
    pub op: char,
    pub lhs: Box<ExprAST>,
    pub rhs: Box<ExprAST>,
}

/// A call of a named function on an ordered argument list.
#[derive(Debug, PartialEq)]
pub struct CallExprAST {
    pub callee: String,
    pub args: Vec<ExprAST>,
}

/// A function head: its name, its ordered parameter names, and, for an
/// operator overload, the operator descriptor.
#[derive(Debug, PartialEq, Clone)]
pub struct PrototypeAST {
    pub name: String,
    pub args: Vec<String>,
    pub operator: Option<Operator>,
}

/// The operator-overload descriptor of a prototype.
#[derive(Debug, PartialEq, Clone)]
pub enum Operator {
    Unary,
    Binary { op_name: char, precedence: isize },
}

/// A function definition: a prototype plus a single body expression.
#[derive(Debug, PartialEq)]
pub struct FunctionAST {
    pub proto: PrototypeAST,
    pub body: ExprAST,
}

/// An if/then/else conditional.
#[derive(Debug, PartialEq)]
pub struct IfExprAST {
    pub condition: Box<ExprAST>,
    pub then_block: Box<ExprAST>,
    pub else_block: Box<ExprAST>,
}

/// A loop: `for <var> = <start>, <end> [, <step>] in <body>`. A missing
/// step clause is left to the backend (which treats it as a unit step).
#[derive(Debug, PartialEq)]
pub struct ForExprAST {
    pub var_name: String,
    pub var_start: Box<ExprAST>,
    pub var_end: Box<ExprAST>,
    pub step: Option<Box<ExprAST>>,
    pub body: Box<ExprAST>,
}

/// Local bindings: `var <name> [= <init>], ... in <body>`.
#[derive(Debug, PartialEq)]
pub struct VarExprAST {
    pub var_names: Vec<(String, Option<ExprAST>)>,
    pub body: Box<ExprAST>,
}

// ---------------------------------------------------------------------------
// Mathematical views
// ---------------------------------------------------------------------------

/// The view of an expression.
pub enum ExprView {
    Number(Seq<char>),
    Variable(Seq<char>),
    Unary { opcode: char, operand: Box<ExprView> },
    Binary { op: char, lhs: Box<ExprView>, rhs: Box<ExprView> },
    Call { callee: Seq<char>, args: Seq<ExprView> },
    If { condition: Box<ExprView>, then_block: Box<ExprView>, else_block: Box<ExprView> },
    For {
        var_name: Seq<char>,
        var_start: Box<ExprView>,
        var_end: Box<ExprView>,
        step: Option<Box<ExprView>>,
        body: Box<ExprView>,
    },
    Var { bindings: Seq<(Seq<char>, Option<ExprView>)>, body: Box<ExprView> },
}

/// The view of a prototype.
pub struct PrototypeView {
    pub name: Seq<char>,
    pub args: Seq<Seq<char>>,
    pub operator: Option<OperatorView>,
}

/// The view of an operator descriptor.
pub enum OperatorView {
    Unary,
    Binary { op_name: char, precedence: int },
}

/// The view of a function definition.
pub struct FunctionView {
    pub proto: PrototypeView,
    pub body: ExprView,
}

/// The view of a top-level item.
pub enum TopView {
    Function(FunctionView),
    Prototype(PrototypeView),
}

pub open spec fn expr_view(e: ExprAST) -> ExprView
    decreases e,
{
    match e {
        ExprAST::NumberExpr(n) => ExprView::Number(n.val@),
        ExprAST::VariableExpr(v) => ExprView::Variable(v.name@),
        ExprAST::UnaryExpr(u) => ExprView::Unary {
            opcode: u.opcode,
            operand: Box::new(expr_view(*u.operand)),
        },
        ExprAST::BinaryExpr(b) => ExprView::Binary {
            op: b.op,
            lhs: Box::new(expr_view(*b.lhs)),
            rhs: Box::new(expr_view(*b.rhs)),
        },
        ExprAST::CallExpr(c) => ExprView::Call {
            callee: c.callee@,
            args: expr_list_view(c.args@),
        },
        ExprAST::IfExpr(i) => ExprView::If {
            condition: Box::new(expr_view(*i.condition)),
            then_block: Box::new(expr_view(*i.then_block)),
            else_block: Box::new(expr_view(*i.else_block)),
        },
        ExprAST::ForExpr(f) => ExprView::For {
            var_name: f.var_name@,
            var_start: Box::new(expr_view(*f.var_start)),
            var_end: Box::new(expr_view(*f.var_end)),
            step: match f.step {
                Some(s) => Some(Box::new(expr_view(*s))),
                None => None,
            },
            body: Box::new(expr_view(*f.body)),
        },
        ExprAST::VarExpr(v) => ExprView::Var {
            bindings: binding_list_view(v.var_names@),
            body: Box::new(expr_view(*v.body)),
        },
    }
}

pub open spec fn expr_list_view(s: Seq<ExprAST>) -> Seq<ExprView>
    decreases s,
{
    if s.len() == 0 {
        Seq::empty()
    } else {
        seq![expr_view(s[0])] + expr_list_view(s.drop_first())
    }
}

pub open spec fn binding_list_view(s: Seq<(String, Option<ExprAST>)>) -> Seq<
    (Seq<char>, Option<ExprView>),
>
    decreases s,
{
    if s.len() == 0 {
        Seq::empty()
    } else {
        seq![
            (
                s[0].0@,
                match s[0].1 {
                    Some(e) => Some(expr_view(e)),
                    None => None,
                },
            )
        ] + binding_list_view(s.drop_first())
    }
}

impl View for ExprAST {
    type V = ExprView;

    open spec fn view(&self) -> ExprView {
        expr_view(*self)
    }
}

pub open spec fn name_list_view(s: Seq<String>) -> Seq<Seq<char>>
    decreases s,
{
    if s.len() == 0 {
        Seq::empty()
    } else {
        seq![s[0]@] + name_list_view(s.drop_first())
    }
}

/// A name list and its view have the same length.
pub proof fn lemma_name_list_view_len(s: Seq<String>)
    ensures
        name_list_view(s).len() == s.len(),
    decreases s,
{
    if s.len() > 0 {
        lemma_name_list_view_len(s.drop_first());
    }
}

pub open spec fn operator_view(o: Option<Operator>) -> Option<OperatorView> {
    match o {
        None => None,
        Some(Operator::Unary) => Some(OperatorView::Unary),
        Some(Operator::Binary { op_name, precedence }) => Some(
            OperatorView::Binary { op_name, precedence: precedence as int },
        ),
    }
}

impl View for PrototypeAST {
    type V = PrototypeView;

    open spec fn view(&self) -> PrototypeView {
        PrototypeView {
            name: self.name@,
            args: name_list_view(self.args@),
            operator: operator_view(self.operator),
        }
    }
}

impl View for FunctionAST {
    type V = FunctionView;

    open spec fn view(&self) -> FunctionView {
        FunctionView { proto: self.proto@, body: self.body@ }
    }
}

impl View for TopAST {
    type V = TopView;

    open spec fn view(&self) -> TopView {
        match self {
            TopAST::Function(f) => TopView::Function(f@),
            TopAST::Prototype(p) => TopView::Prototype(p@),
        }
    }
}

pub open spec fn top_list_view(s: Seq<TopAST>) -> Seq<TopView>
    decreases s,
{
    if s.len() == 0 {
        Seq::empty()
    } else {
        seq![s[0]@] + top_list_view(s.drop_first())
    }
}

impl View for KaleoGrammar {
    type V = Seq<TopView>;

    open spec fn view(&self) -> Seq<TopView> {
        top_list_view(self.0@)
    }
}

// ---------------------------------------------------------------------------
// Synthesized operator-overload names
// ---------------------------------------------------------------------------

/// The externally visible name of a binary-operator overload: a fixed
/// prefix plus the operator character.
pub open spec fn binary_func_name(op: char) -> Seq<char> {
    "binary"@.push(op)
}

/// The externally visible name of a unary-operator overload.
pub open spec fn unary_func_name(op: char) -> Seq<char> {
    "unary"@.push(op)
}

/// Relies on `alloc::string::String::push`: appends exactly the given
/// character to the end of the string.
#[verifier::external_body]
fn string_push(s: &mut String, c: char)
    ensures
        final(s)@ == old(s)@.push(c),
{
    s.push(c);
}

impl PrototypeAST {
    /// The synthesized name of a binary-operator overload for `op`.
    pub fn gen_binary_func_name(op: char) -> (r: String)
        ensures
            r@ == binary_func_name(op),
    {
        let mut r = String::new();
        r.append("binary");
        string_push(&mut r, op);
        proof {
            assert(r@ =~= binary_func_name(op));
        }
        r
    }

    /// The synthesized name of a unary-operator overload for `op`.
    pub fn gen_unary_func_name(op: char) -> (r: String)
        ensures
            r@ == unary_func_name(op),
    {
        let mut r = String::new();
        r.append("unary");
        string_push(&mut r, op);
        proof {
            assert(r@ =~= unary_func_name(op));
        }
        r
    }

    /// Whether this prototype declares a binary-operator overload.
    pub fn is_binary_op(&self) -> (r: bool)
        ensures
            r == (self@.operator matches Some(OperatorView::Binary { .. })),
    {
        match &self.operator {
            Some(Operator::Binary { .. }) => true,
            _ => false,
        }
    }
}

impl FunctionAST {
    /// Whether this function is the wrapper around a top-level bare
    /// expression, recognised by its reserved name.
    pub fn is_top_function(&self) -> (r: bool)
        ensures
            r == (self@.proto.name == anonym_function_name()),
    {
        crate::lexer::str_eq(self.proto.name.as_str(), ANONYM_FUNCTION)
    }
}

} // verus!
