//! Abstract syntax trees for the TIP language, together with their
//! mathematical models (the `...View` types) used in specifications.
use vstd::prelude::*;

verus! {

pub type StatementList = Vec<Statement>;

/// A name appearing in a program, compared by value.
#[derive(Debug, PartialEq, Eq)]
pub struct Ident(pub String);

#[derive(Debug, PartialEq, Eq, Clone, Copy)]
pub enum BinOp {
    Plus,
    Minus,
    Times,
    Divide,
    CompareEq,
    CompareGt,
}

#[derive(Debug, PartialEq, Eq, Clone, Copy)]
pub enum UnOp {
    Negate,
    AddressOf,
    Dereference,
}

#[derive(Debug, PartialEq, Eq)]
pub enum Expression {
    Number(i64),
    BinaryExpression(BinOp, Box<Expression>, Box<Expression>),
    IdentReference(Ident),
    Input,
    Call(Box<Expression>, Vec<Box<Expression>>),
    UnaryExpression(UnOp, Box<Expression>),
    Alloc(Box<Expression>),
    Record(Vec<(Ident, Expression)>),
    Projection(Box<Expression>, Vec<Ident>),
}

#[derive(Debug, PartialEq, Eq)]
pub enum Statement {
    VarDecl(Vec<Ident>),
    Assign(Expression, Expression),
    If { cond: Expression, then: Option<StatementList>, otherwise: Option<StatementList> },
    While { cond: Expression, then: Option<StatementList> },
    Break,
    Output(Expression),
    Return(Option<Expression>),
    Error(Expression),
    ExpressionStatement(Expression),
    Block(StatementList),
}

#[derive(Debug, PartialEq, Eq)]
pub struct Function {
    pub name: Ident,
    pub params: Vec<Ident>,
    pub body: StatementList,
}

#[derive(Debug, PartialEq, Eq)]
pub struct Program {
    pub functions: Vec<Function>,
}

/// Mathematical model of an `Expression`.
pub enum ExprView {
    Number(int),
    Binary(BinOp, Box<ExprView>, Box<ExprView>),
    IdentRef(Seq<char>),
    Input,
    Call(Box<ExprView>, Seq<ExprView>),
    Unary(UnOp, Box<ExprView>),
    Alloc(Box<ExprView>),
    Record(Seq<(Seq<char>, ExprView)>),
    Projection(Box<ExprView>, Seq<Seq<char>>),
}

/// Mathematical model of a `Statement`.
pub enum StmtView {
    VarDecl(Seq<Seq<char>>),
    Assign(ExprView, ExprView),
    If { cond: ExprView, then: Option<Seq<StmtView>>, otherwise: Option<Seq<StmtView>> },
    While { cond: ExprView, then: Option<Seq<StmtView>> },
    Break,
    Output(ExprView),
    Return(Option<ExprView>),
    Error(ExprView),
    ExpressionStatement(ExprView),
    Block(Seq<StmtView>),
}

pub struct FunctionView {
    pub name: Seq<char>,
    pub params: Seq<Seq<char>>,
    pub body: Seq<StmtView>,
}

pub struct ProgramView {
    pub functions: Seq<FunctionView>,
}

pub open spec fn view_idents(s: Seq<Ident>) -> Seq<Seq<char>> {
    s.map_values(|id: Ident| id.0@)
}

pub open spec fn view_expr(e: Expression) -> ExprView
    decreases e,
{
    match e {
        Expression::Number(n) => ExprView::Number(n as int),
        Expression::BinaryExpression(op, l, r) => ExprView::Binary(
            op,
            Box::new(view_expr(*l)),
            Box::new(view_expr(*r)),
        ),
        Expression::IdentReference(id) => ExprView::IdentRef(id.0@),
        Expression::Input => ExprView::Input,
        Expression::Call(f, args) => ExprView::Call(
            Box::new(view_expr(*f)),
            view_expr_boxes(args@),
        ),
        Expression::UnaryExpression(op, e1) => ExprView::Unary(op, Box::new(view_expr(*e1))),
        Expression::Alloc(e1) => ExprView::Alloc(Box::new(view_expr(*e1))),
        Expression::Record(fields) => ExprView::Record(view_fields(fields@)),
        Expression::Projection(base, path) => ExprView::Projection(
            Box::new(view_expr(*base)),
            view_idents(path@),
        ),
    }
}

pub open spec fn view_expr_boxes(s: Seq<Box<Expression>>) -> Seq<ExprView>
    decreases s,
{
    if s.len() == 0 {
        Seq::empty()
    } else {
        view_expr_boxes(s.drop_last()).push(view_expr(*s.last()))
    }
}

pub open spec fn view_fields(s: Seq<(Ident, Expression)>) -> Seq<(Seq<char>, ExprView)>
    decreases s,
{
    if s.len() == 0 {
        Seq::empty()
    } else {
        view_fields(s.drop_last()).push((s.last().0.0@, view_expr(s.last().1)))
    }
}

pub open spec fn view_stmt(s: Statement) -> StmtView
    decreases s,
{
    match s {
        Statement::VarDecl(ids) => StmtView::VarDecl(view_idents(ids@)),
        Statement::Assign(l, r) => StmtView::Assign(view_expr(l), view_expr(r)),
        Statement::If { cond, then, otherwise } => StmtView::If {
            cond: view_expr(cond),
            then: match then {
                Some(list) => Some(view_stmts(list@)),
                None => None,
            },
            otherwise: match otherwise {
                Some(list) => Some(view_stmts(list@)),
                None => None,
            },
        },
        Statement::While { cond, then } => StmtView::While {
            cond: view_expr(cond),
            then: match then {
                Some(list) => Some(view_stmts(list@)),
                None => None,
            },
        },
        Statement::Break => StmtView::Break,
        Statement::Output(e) => StmtView::Output(view_expr(e)),
        Statement::Return(e) => StmtView::Return(
            match e {
                Some(e1) => Some(view_expr(e1)),
                None => None,
            },
        ),
        Statement::Error(e) => StmtView::Error(view_expr(e)),
        Statement::ExpressionStatement(e) => StmtView::ExpressionStatement(view_expr(e)),
        Statement::Block(list) => StmtView::Block(view_stmts(list@)),
    }
}

pub open spec fn view_stmts(s: Seq<Statement>) -> Seq<StmtView>
    decreases s,
{
    if s.len() == 0 {
        Seq::empty()
    } else {
        view_stmts(s.drop_last()).push(view_stmt(s.last()))
    }
}

impl View for Ident {
    type V = Seq<char>;

    open spec fn view(&self) -> Seq<char> {
        self.0@
    }
}

impl View for Expression {
    type V = ExprView;

    open spec fn view(&self) -> ExprView {
        view_expr(*self)
    }
}

impl View for Statement {
    type V = StmtView;

    open spec fn view(&self) -> StmtView {
        view_stmt(*self)
    }
}

impl View for Function {
    type V = FunctionView;

    open spec fn view(&self) -> FunctionView {
        FunctionView { name: self.name.0@, params: view_idents(self.params@), body: view_stmts(self.body@) }
    }
}

impl View for Program {
    type V = ProgramView;

    open spec fn view(&self) -> ProgramView {
        ProgramView { functions: self.functions@.map_values(|f: Function| f@) }
    }
}

/// Elementary facts about the deep views, used to reason about lists
/// of syntax one element at a time.
pub proof fn lemma_view_stmts_index(s: Seq<Statement>)
    ensures
        view_stmts(s).len() == s.len(),
        forall|i: int| 0 <= i < s.len() ==> #[trigger] view_stmts(s)[i] == view_stmt(s[i]),
    decreases s.len(),
{
    if s.len() > 0 {
        lemma_view_stmts_index(s.drop_last());
        assert forall|i: int| 0 <= i < s.len() implies #[trigger] view_stmts(s)[i] == view_stmt(
            s[i],
        ) by {
            if i < s.len() - 1 {
                assert(s.drop_last()[i] == s[i]);
            }
        }
    }
}

pub proof fn lemma_view_stmts_prepend(st: Statement, s: Seq<Statement>)
    ensures
        view_stmts(seq![st].add(s)) == seq![view_stmt(st)].add(view_stmts(s)),
    decreases s.len(),
{
    if s.len() == 0 {
        assert(seq![st].add(s) =~= seq![st]);
        assert(seq![st].drop_last() =~= Seq::<Statement>::empty());
        assert(view_stmts(Seq::<Statement>::empty()) =~= Seq::<StmtView>::empty());
        assert(view_stmts(seq![st]) =~= seq![view_stmt(st)]);
        assert(seq![view_stmt(st)].add(view_stmts(s)) =~= seq![view_stmt(st)]);
    } else {
        lemma_view_stmts_prepend(st, s.drop_last());
        assert(seq![st].add(s).drop_last() =~= seq![st].add(s.drop_last()));
        assert(seq![st].add(s).last() == s.last());
        assert(seq![view_stmt(st)].add(view_stmts(s.drop_last())).push(view_stmt(s.last()))
            =~= seq![view_stmt(st)].add(view_stmts(s.drop_last()).push(view_stmt(s.last()))));
    }
}

pub proof fn lemma_view_boxes_len(s: Seq<Box<Expression>>)
    ensures
        view_expr_boxes(s).len() == s.len(),
    decreases s.len(),
{
    if s.len() > 0 {
        lemma_view_boxes_len(s.drop_last());
    }
}

pub proof fn lemma_view_boxes_prepend(b: Box<Expression>, s: Seq<Box<Expression>>)
    ensures
        view_expr_boxes(seq![b].add(s)) == seq![view_expr(*b)].add(view_expr_boxes(s)),
    decreases s.len(),
{
    if s.len() == 0 {
        assert(seq![b].add(s) =~= seq![b]);
        assert(seq![b].drop_last() =~= Seq::<Box<Expression>>::empty());
        assert(view_expr_boxes(Seq::<Box<Expression>>::empty()) =~= Seq::<ExprView>::empty());
        assert(view_expr_boxes(seq![b]) =~= seq![view_expr(*b)]);
        assert(seq![view_expr(*b)].add(view_expr_boxes(s)) =~= seq![view_expr(*b)]);
    } else {
        lemma_view_boxes_prepend(b, s.drop_last());
        assert(seq![b].add(s).drop_last() =~= seq![b].add(s.drop_last()));
        assert(seq![b].add(s).last() == s.last());
        assert(seq![view_expr(*b)].add(view_expr_boxes(s.drop_last())).push(
            view_expr(*s.last()),
        ) =~= seq![view_expr(*b)].add(view_expr_boxes(s.drop_last()).push(view_expr(*s.last()))));
    }
}

pub proof fn lemma_view_fields_prepend(f: (Ident, Expression), s: Seq<(Ident, Expression)>)
    ensures
        view_fields(seq![f].add(s)) == seq![(f.0.0@, view_expr(f.1))].add(view_fields(s)),
    decreases s.len(),
{
    if s.len() == 0 {
        assert(seq![f].add(s) =~= seq![f]);
        assert(seq![f].drop_last() =~= Seq::<(Ident, Expression)>::empty());
        assert(view_fields(Seq::<(Ident, Expression)>::empty()) =~= Seq::<(Seq<char>, ExprView)>::empty());
        assert(view_fields(seq![f]) =~= seq![(f.0.0@, view_expr(f.1))]);
        assert(seq![(f.0.0@, view_expr(f.1))].add(view_fields(s)) =~= seq![
            (f.0.0@, view_expr(f.1)),
        ]);
    } else {
        lemma_view_fields_prepend(f, s.drop_last());
        assert(seq![f].add(s).drop_last() =~= seq![f].add(s.drop_last()));
        assert(seq![f].add(s).last() == s.last());
        let hd = (f.0.0@, view_expr(f.1));
        let tl = (s.last().0.0@, view_expr(s.last().1));
        assert(seq![hd].add(view_fields(s.drop_last())).push(tl) =~= seq![hd].add(
            view_fields(s.drop_last()).push(tl),
        ));
    }
}

/// A traversal capability over the AST. The default behaviour descends in
/// declaration order; `visit_statement` is the leaf dispatch point that each
/// consumer supplies, recursing into nested statement lists itself if needed.
pub trait ASTVisitor: Sized {
    fn visit_program(&mut self, p: Program);

    fn visit_function(&mut self, f: Function);

    fn visit_statement_list(&mut self, s: StatementList);

    fn visit_statement(&mut self, s: Statement);
}

pub fn super_visit_program(vis: &mut impl ASTVisitor, p: Program) {
    let mut functions = p.functions;
    let n = functions.len();
    let mut i: usize = 0;
    while i < n
        invariant
            i <= n,
            functions.len() == n - i,
        decreases n - i,
    {
        // Walking front to back while draining keeps declaration order.
        let f = functions.remove(0);
        vis.visit_function(f);
        i = i + 1;
    }
}

pub fn super_visit_function(vis: &mut impl ASTVisitor, f: Function) {
    vis.visit_statement_list(f.body)
}

pub fn super_visit_statement_list(vis: &mut impl ASTVisitor, sl: StatementList) {
    let mut sl = sl;
    let n = sl.len();
    let mut i: usize = 0;
    while i < n
        invariant
            i <= n,
            sl.len() == n - i,
        decreases n - i,
    {
        let s = sl.remove(0);
        vis.visit_statement(s);
        i = i + 1;
    }
}

} // verus!
