//! The parsed form of a script, and the mathematical value each part stands for.

use vstd::prelude::*;
use crate::text::{lemma_views_push, views};

verus! {

/// One `name: value` line of a `USING` block.
#[derive(Debug, Clone)]
pub struct VarDeclaration {
    pub name: String,
    pub value: String,
}

/// The value of a declaration.
pub struct VarDeclarationView {
    pub name: Seq<char>,
    pub value: Seq<char>,
}

impl View for VarDeclaration {
    type V = VarDeclarationView;

    open spec fn view(&self) -> VarDeclarationView {
        VarDeclarationView { name: self.name@, value: self.value@ }
    }
}

/// The variables a script declares, in the order of their lines.
#[derive(Debug, Clone)]
pub struct UsingBlock {
    pub var_declarations: Vec<VarDeclaration>,
}

impl View for UsingBlock {
    type V = Seq<VarDeclarationView>;

    open spec fn view(&self) -> Seq<VarDeclarationView> {
        views(self.var_declarations@)
    }
}

/// The method of a request.
#[derive(Debug, Clone, Copy, PartialEq, Eq, Structural)]
pub enum HttpMethods {
    Get,
    Post,
    Put,
    Delete,
    Patch,
}

/// One `key: value` line under `HEADER`.
#[derive(Debug, Clone)]
pub struct Header {
    pub key: String,
    pub value: String,
}

/// The value of a header.
pub struct HeaderView {
    pub key: Seq<char>,
    pub value: Seq<char>,
}

impl View for Header {
    type V = HeaderView;

    open spec fn view(&self) -> HeaderView {
        HeaderView { key: self.key@, value: self.value@ }
    }
}

/// For how long a response may be served again without a new request.
#[derive(Debug, Clone, Copy, PartialEq, Eq, Structural)]
pub enum CacheDuration {
    NoCache,
    DurationInSeconds(u64),
}

/// A `REQUEST` block: the name it was given and what its lines set.
#[derive(Debug, Clone)]
pub struct RequestBlock {
    pub name: String,
    pub method: HttpMethods,
    pub url: String,
    pub headers: Vec<Header>,
    pub cache: CacheDuration,
}

/// The value of a `REQUEST` block.
pub struct RequestBlockView {
    pub name: Seq<char>,
    pub method: HttpMethods,
    pub url: Seq<char>,
    pub headers: Seq<HeaderView>,
    pub cache: CacheDuration,
}

impl View for RequestBlock {
    type V = RequestBlockView;

    open spec fn view(&self) -> RequestBlockView {
        RequestBlockView {
            name: self.name@,
            method: self.method,
            url: self.url@,
            headers: views(self.headers@),
            cache: self.cache,
        }
    }
}

/// The operators of expressions: comparisons, the two logical words and the
/// match against a pattern.
#[derive(Debug, Clone, Copy, PartialEq, Eq, Structural)]
pub enum BinaryOp {
    Eq,
    Neq,
    Gt,
    Gte,
    Lt,
    Lte,
    And,
    Or,
    RegexMatch,
}

/// A constant in an expression. A number is held as the bit pattern of the
/// IEEE 754 double that its text denotes.
#[derive(Debug, Clone)]
pub enum Literal {
    StringLiteral(String),
    NumberLiteral(u64),
    BooleanLiteral(bool),
    Null,
}

/// The value of a literal.
pub enum LiteralView {
    StringLiteral(Seq<char>),
    NumberLiteral(u64),
    BooleanLiteral(bool),
    Null,
}

impl View for Literal {
    type V = LiteralView;

    open spec fn view(&self) -> LiteralView {
        match self {
            Literal::StringLiteral(s) => LiteralView::StringLiteral(s@),
            Literal::NumberLiteral(bits) => LiteralView::NumberLiteral(*bits),
            Literal::BooleanLiteral(b) => LiteralView::BooleanLiteral(*b),
            Literal::Null => LiteralView::Null,
        }
    }
}

/// The keys to follow from a row, outermost first.
#[derive(Debug, Clone)]
pub struct FieldPath {
    pub path: Vec<String>,
}

impl View for FieldPath {
    type V = Seq<Seq<char>>;

    open spec fn view(&self) -> Seq<Seq<char>> {
        views(self.path@)
    }
}

/// An expression: a constant, a field of the row, or an operator over two
/// expressions.
#[derive(Debug)]
pub enum Expression {
    LiteralExpr(Literal),
    FieldPathExpr(FieldPath),
    BinaryOpExpr { left: Box<Expression>, op: BinaryOp, right: Box<Expression> },
}

/// The value of an expression: the same tree over values.
pub enum ExpressionView {
    LiteralExpr(LiteralView),
    FieldPathExpr(Seq<Seq<char>>),
    BinaryOpExpr { left: Box<ExpressionView>, op: BinaryOp, right: Box<ExpressionView> },
}

impl View for Expression {
    type V = ExpressionView;

    open spec fn view(&self) -> ExpressionView
        decreases self,
    {
        match self {
            Expression::LiteralExpr(l) => ExpressionView::LiteralExpr(l@),
            Expression::FieldPathExpr(p) => ExpressionView::FieldPathExpr(p@),
            Expression::BinaryOpExpr { left, op, right } => ExpressionView::BinaryOpExpr {
                left: Box::new((**left)@),
                op: *op,
                right: Box::new((**right)@),
            },
        }
    }
}

impl Expression {
    /// A copy of the whole tree.
    pub fn duplicate(&self) -> (r: Expression)
        ensures
            r@ == self@,
        decreases self,
    {
        match self {
            Expression::LiteralExpr(l) => Expression::LiteralExpr(
                match l {
                    Literal::StringLiteral(s) => Literal::StringLiteral(s.clone()),
                    Literal::NumberLiteral(bits) => Literal::NumberLiteral(*bits),
                    Literal::BooleanLiteral(b) => Literal::BooleanLiteral(*b),
                    Literal::Null => Literal::Null,
                },
            ),
            Expression::FieldPathExpr(p) => Expression::FieldPathExpr(
                FieldPath { path: copy_texts(&p.path) },
            ),
            Expression::BinaryOpExpr { left, op, right } => Expression::BinaryOpExpr {
                left: Box::new(left.duplicate()),
                op: *op,
                right: Box::new(right.duplicate()),
            },
        }
    }
}

impl Clone for Expression {
    fn clone(&self) -> (r: Expression)
        ensures
            r@ == self@,
    {
        self.duplicate()
    }
}

/// A copy of a list of texts.
pub fn copy_texts(items: &Vec<String>) -> (r: Vec<String>)
    ensures
        views(r@) == views(items@),
{
    let mut out: Vec<String> = Vec::new();
    let mut i: usize = 0;
    while i < items.len()
        invariant
            i <= items.len(),
            views(out@) =~= views(items@).take(i as int),
        decreases items.len() - i,
    {
        let item = items[i].clone();
        proof {
            lemma_views_push(out@, item);
            assert(views(items@).take(i + 1) =~= views(items@).take(i as int).push(
                items@[i as int]@,
            ));
        }
        out.push(item);
        i += 1;
    }
    out
}

/// What a query takes its rows from.
#[derive(Debug, Clone, Copy, PartialEq, Eq, Structural)]
pub enum FromType {
    Body,
    Response,
}

/// Where in the document the rows of a query are found.
#[derive(Debug, Clone)]
pub struct FromClause {
    pub from_type: FromType,
    pub path: Vec<String>,
}

/// The value of a `FROM` clause.
pub struct FromClauseView {
    pub from_type: FromType,
    pub path: Seq<Seq<char>>,
}

impl View for FromClause {
    type V = FromClauseView;

    open spec fn view(&self) -> FromClauseView {
        FromClauseView { from_type: self.from_type, path: views(self.path@) }
    }
}

/// One field of an object projection: the key it is stored under and, if
/// given, the expression that computes it. Without an expression the key is
/// also the name of the row's field to copy.
#[derive(Debug, Clone)]
pub struct SelectField {
    pub alias: String,
    pub expression: Option<Expression>,
}

/// The value of a field of an object projection.
pub struct SelectFieldView {
    pub alias: Seq<char>,
    pub expression: Option<ExpressionView>,
}

impl View for SelectField {
    type V = SelectFieldView;

    open spec fn view(&self) -> SelectFieldView {
        SelectFieldView {
            alias: self.alias@,
            expression: match self.expression {
                Some(e) => Some(e@),
                None => None,
            },
        }
    }
}

/// What a query makes of a row: plain fields copied by name, or object
/// fields, each with an alias.
#[derive(Debug, Clone)]
pub enum SelectClause {
    Fields(Vec<String>),
    Objects(Vec<SelectField>),
}

/// The value of a projection.
pub enum SelectClauseView {
    Fields(Seq<Seq<char>>),
    Objects(Seq<SelectFieldView>),
}

impl View for SelectClause {
    type V = SelectClauseView;

    open spec fn view(&self) -> SelectClauseView {
        match self {
            SelectClause::Fields(names) => SelectClauseView::Fields(views(names@)),
            SelectClause::Objects(fields) => SelectClauseView::Objects(views(fields@)),
        }
    }
}

/// A query: projection, source, filter and limit.
#[derive(Debug, Clone)]
pub struct QueryBlock {
    pub select_clause: SelectClause,
    pub from_clause: FromClause,
    pub where_clause: Option<Expression>,
    pub limit: Option<u32>,
}

/// The value of a query.
pub struct QueryBlockView {
    pub select_clause: SelectClauseView,
    pub from_clause: FromClauseView,
    pub where_clause: Option<ExpressionView>,
    pub limit: Option<u32>,
}

impl View for QueryBlock {
    type V = QueryBlockView;

    open spec fn view(&self) -> QueryBlockView {
        QueryBlockView {
            select_clause: self.select_clause@,
            from_clause: self.from_clause@,
            where_clause: match self.where_clause {
                Some(e) => Some(e@),
                None => None,
            },
            limit: self.limit,
        }
    }
}

/// A `RESPONSE` block: the query to run on the response.
#[derive(Debug, Clone)]
pub struct ResponseBlock {
    pub query: QueryBlock,
}

impl View for ResponseBlock {
    type V = QueryBlockView;

    open spec fn view(&self) -> QueryBlockView {
        self.query@
    }
}

/// A parsed script. The request at a position belongs with the response at
/// the same position.
#[derive(Debug, Clone)]
pub struct Program {
    pub using_block: Option<UsingBlock>,
    pub request_blocks: Vec<RequestBlock>,
    pub response_blocks: Vec<ResponseBlock>,
}

/// The value of a script.
pub struct ProgramView {
    pub using_block: Option<Seq<VarDeclarationView>>,
    pub request_blocks: Seq<RequestBlockView>,
    pub response_blocks: Seq<QueryBlockView>,
}

impl View for Program {
    type V = ProgramView;

    open spec fn view(&self) -> ProgramView {
        ProgramView {
            using_block: match self.using_block {
                Some(u) => Some(u@),
                None => None,
            },
            request_blocks: views(self.request_blocks@),
            response_blocks: views(self.response_blocks@),
        }
    }
}

} // verus!
