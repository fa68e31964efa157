use crate::token::{symbol, token_views, Token, TokenView};
use vstd::prelude::*;

verus! {

/// A literal as it stands in the source. A number is kept as its digits; what
/// number they denote is decided when the literal is evaluated.
#[derive(Clone, Debug, PartialEq)]
pub enum Literal {
    Nil,
    Boolean(bool),
    String(String),
    Number(String),
}

pub enum LiteralView {
    Nil,
    Boolean(bool),
    String(Seq<char>),
    Number(Seq<char>),
}

impl View for Literal {
    type V = LiteralView;

    open spec fn view(&self) -> LiteralView {
        match self {
            Literal::Nil => LiteralView::Nil,
            Literal::Boolean(b) => LiteralView::Boolean(*b),
            Literal::String(s) => LiteralView::String(s@),
            Literal::Number(s) => LiteralView::Number(s@),
        }
    }
}

impl LiteralView {
    /// How the literal is shown: a string without its quotes, a number by its
    /// digits.
    pub open spec fn shown(self) -> Seq<char> {
        match self {
            LiteralView::Nil => "nil"@,
            LiteralView::Boolean(b) => if b {
                "true"@
            } else {
                "false"@
            },
            LiteralView::String(s) => s,
            LiteralView::Number(s) => s,
        }
    }
}

impl Literal {
    /// A copy of this literal.
    pub fn duplicate(&self) -> (r: Literal)
        ensures
            r == *self,
    {
        match self {
            Literal::Nil => Literal::Nil,
            Literal::Boolean(b) => Literal::Boolean(*b),
            Literal::String(s) => Literal::String(s.clone()),
            Literal::Number(s) => Literal::Number(s.clone()),
        }
    }

    /// The literal as text.
    pub fn to_string(&self) -> (r: String)
        ensures
            r@ == self@.shown(),
    {
        match self {
            Literal::Nil => "nil".to_owned(),
            Literal::Boolean(b) => if *b {
                "true".to_owned()
            } else {
                "false".to_owned()
            },
            Literal::String(s) => s.clone(),
            Literal::Number(s) => s.clone(),
        }
    }
}

/// An expression.
#[derive(Debug, PartialEq)]
pub enum Expr {
    Assign { name: Token, value: Box<Expr> },
    Binary { left: Box<Expr>, operator: Token, right: Box<Expr> },
    Call { callee: Box<Expr>, paren: Token, arguments: Vec<Expr> },
    Grouping { grouping: Box<Expr> },
    Literal(Literal),
    Logical { left: Box<Expr>, operator: Token, right: Box<Expr> },
    Unary { operator: Token, right: Box<Expr> },
    Variable(Token),
}

/// The mathematical content of an [`Expr`].
pub enum ExprView {
    Assign { name: TokenView, value: Box<ExprView> },
    Binary { left: Box<ExprView>, operator: TokenView, right: Box<ExprView> },
    Call { callee: Box<ExprView>, paren: TokenView, arguments: Seq<ExprView> },
    Grouping { grouping: Box<ExprView> },
    Literal(LiteralView),
    Logical { left: Box<ExprView>, operator: TokenView, right: Box<ExprView> },
    Unary { operator: TokenView, right: Box<ExprView> },
    Variable(TokenView),
}

pub open spec fn expr_view(e: Expr) -> ExprView
    decreases e,
{
    match e {
        Expr::Assign { name, value } => ExprView::Assign {
            name: name@,
            value: Box::new(expr_view(*value)),
        },
        Expr::Binary { left, operator, right } => ExprView::Binary {
            left: Box::new(expr_view(*left)),
            operator: operator@,
            right: Box::new(expr_view(*right)),
        },
        Expr::Call { callee, paren, arguments } => ExprView::Call {
            callee: Box::new(expr_view(*callee)),
            paren: paren@,
            arguments: Seq::new(
                arguments.len() as nat,
                |i: int|
                    if 0 <= i < arguments.len() {
                        expr_view(arguments[i])
                    } else {
                        ExprView::Literal(LiteralView::Nil)
                    },
            ),
        },
        Expr::Grouping { grouping } => ExprView::Grouping {
            grouping: Box::new(expr_view(*grouping)),
        },
        Expr::Literal(l) => ExprView::Literal(l@),
        Expr::Logical { left, operator, right } => ExprView::Logical {
            left: Box::new(expr_view(*left)),
            operator: operator@,
            right: Box::new(expr_view(*right)),
        },
        Expr::Unary { operator, right } => ExprView::Unary {
            operator: operator@,
            right: Box::new(expr_view(*right)),
        },
        Expr::Variable(name) => ExprView::Variable(name@),
    }
}

impl View for Expr {
    type V = ExprView;

    open spec fn view(&self) -> ExprView {
        expr_view(*self)
    }
}

/// The views of a sequence of expressions.
pub open spec fn expr_views(exprs: Seq<Expr>) -> Seq<ExprView> {
    Seq::new(exprs.len(), |i: int| exprs[i]@)
}

/// The view of a call is made of the views of its parts.
pub proof fn lemma_call_view(callee: Expr, paren: Token, arguments: Vec<Expr>)
    ensures
        (Expr::Call { callee: Box::new(callee), paren, arguments })@ == (ExprView::Call {
            callee: Box::new(callee@),
            paren: paren@,
            arguments: expr_views(arguments@),
        }),
{
    let e = Expr::Call { callee: Box::new(callee), paren, arguments };
    assert(e@->Call_arguments =~= expr_views(arguments@));
}

/// An expression in prefix form, every operator application in parentheses.
#[verifier::opaque]
pub open spec fn expr_shown(e: ExprView) -> Seq<char>
    decreases e,
{
    match e {
        ExprView::Assign { name, value } => "("@ + name.shown() + " = "@ + expr_shown(*value)
            + ")"@,
        ExprView::Binary { left, operator, right } => "("@ + operator.shown() + " "@
            + expr_shown(*left) + " "@ + expr_shown(*right) + ")"@,
        ExprView::Logical { left, operator, right } => "("@ + operator.shown() + " "@
            + expr_shown(*left) + " "@ + expr_shown(*right) + ")"@,
        ExprView::Call { callee, paren, arguments } => "("@ + expr_shown(*callee)
            + " (arguments))"@,
        ExprView::Unary { operator, right } => "("@ + operator.shown() + " "@ + expr_shown(*right)
            + ")"@,
        ExprView::Grouping { grouping } => "(group "@ + expr_shown(*grouping) + ")"@,
        ExprView::Literal(l) => l.shown(),
        ExprView::Variable(name) => name.shown(),
    }
}

/// A literal as it is written in a source text: a string in its quotes.
pub open spec fn literal_source(literal: LiteralView) -> Seq<char> {
    match literal {
        LiteralView::String(s) => "\""@ + s + "\""@,
        other => other.shown(),
    }
}

/// An expression as a source text that reads back as the expression. Every
/// operator stands between its operands, a call has its arguments in
/// parentheses after what is called, a string stands in its quotes, and a
/// grouping in its parentheses. Every operator application, assignment and
/// call stands in parentheses of its own, so that the text reads back
/// whatever the operators are.
#[verifier::opaque]
pub open spec fn expr_source(e: ExprView) -> Seq<char>
    decreases e,
{
    match e {
        ExprView::Literal(l) => literal_source(l),
        ExprView::Variable(name) => name.text,
        ExprView::Grouping { grouping } => "("@ + expr_source(*grouping) + ")"@,
        ExprView::Unary { operator, right } => "("@ + symbol(operator.kind) + expr_source(*right)
            + ")"@,
        ExprView::Binary { left, operator, right } => "("@ + expr_source(*left) + " "@ + symbol(
            operator.kind,
        ) + " "@ + expr_source(*right) + ")"@,
        ExprView::Logical { left, operator, right } => "("@ + expr_source(*left) + " "@ + symbol(
            operator.kind,
        ) + " "@ + expr_source(*right) + ")"@,
        ExprView::Assign { name, value } => "("@ + name.text + " = "@ + expr_source(*value) + ")"@,
        ExprView::Call { callee, paren, arguments } => "("@ + expr_source(*callee) + "("@
            + arguments_source(arguments, arguments.len() as int) + "))"@,
    }
}

/// The first `count` of the arguments of a call as a source text, a comma
/// and a space between one and the next.
#[verifier::opaque]
pub open spec fn arguments_source(arguments: Seq<ExprView>, count: int) -> Seq<char>
    decreases arguments, count,
{
    if count <= 0 || count > arguments.len() {
        Seq::empty()
    } else if count == 1 {
        expr_source(arguments[0])
    } else {
        arguments_source(arguments, count - 1) + ", "@ + expr_source(arguments[count - 1])
    }
}

impl Expr {
    /// The expression as a source text that reads back as the expression.
    pub fn to_source(&self) -> (r: String)
        ensures
            r@ == expr_source(self@),
        decreases self,
    {
        reveal(expr_source);
        match self {
            Expr::Literal(l) => match l {
                Literal::String(text) => {
                    let mut out = "\"".to_owned();
                    out.append(text.as_str());
                    out.append("\"");
                    out
                },
                other => other.to_string(),
            },
            Expr::Variable(name) => name.token_type.text(),
            Expr::Grouping { grouping } => {
                let mut out = "(".to_owned();
                out.append(grouping.to_source().as_str());
                out.append(")");
                out
            },
            Expr::Unary { operator, right } => {
                let mut out = "(".to_owned();
                out.append(operator.kind().symbol());
                out.append(right.to_source().as_str());
                out.append(")");
                out
            },
            Expr::Binary { left, operator, right } => {
                let mut out = "(".to_owned();
                out.append(left.to_source().as_str());
                out.append(" ");
                out.append(operator.kind().symbol());
                out.append(" ");
                out.append(right.to_source().as_str());
                out.append(")");
                out
            },
            Expr::Logical { left, operator, right } => {
                let mut out = "(".to_owned();
                out.append(left.to_source().as_str());
                out.append(" ");
                out.append(operator.kind().symbol());
                out.append(" ");
                out.append(right.to_source().as_str());
                out.append(")");
                out
            },
            Expr::Assign { name, value } => {
                let mut out = "(".to_owned();
                out.append(name.token_type.text().as_str());
                out.append(" = ");
                out.append(value.to_source().as_str());
                out.append(")");
                out
            },
            Expr::Call { callee, paren, arguments } => {
                proof {
                    lemma_call_view(**callee, *paren, *arguments);
                }
                let mut list = String::new();
                let mut i: usize = 0;
                proof {
                    reveal(arguments_source);
                }
                while i < arguments.len()
                    invariant
                        self is Call,
                        self->Call_arguments == *arguments,
                        i <= arguments.len(),
                        list@ == arguments_source(expr_views(arguments@), i as int),
                    decreases arguments.len() - i,
                {
                    reveal(arguments_source);
                    reveal(expr_source);
                    proof {
                        assert(expr_views(arguments@).len() == arguments.len());
                        assert(decreases_to!(*self => self->Call_arguments));
                        assert(decreases_to!(*arguments => arguments[i as int]));
                    }
                    let next = arguments[i].to_source();
                    let ghost before = list@;
                    if i > 0 {
                        list.append(", ");
                    }
                    list.append(next.as_str());
                    proof {
                        assert(expr_views(arguments@)[i as int] == arguments[i as int]@);
                        if i == 0 {
                            assert(before + next@ =~= next@);
                        }
                    }
                    i += 1;
                }
                let mut out = "(".to_owned();
                out.append(callee.to_source().as_str());
                out.append("(");
                out.append(list.as_str());
                out.append("))");
                out
            },
        }
    }

    /// A copy of this expression.
    pub fn duplicate(&self) -> (r: Expr)
        ensures
            r@ == self@,
        decreases self,
    {
        match self {
            Expr::Assign { name, value } => Expr::Assign {
                name: name.duplicate(),
                value: Box::new(value.duplicate()),
            },
            Expr::Binary { left, operator, right } => Expr::Binary {
                left: Box::new(left.duplicate()),
                operator: operator.duplicate(),
                right: Box::new(right.duplicate()),
            },
            Expr::Call { callee, paren, arguments } => {
                let mut copies: Vec<Expr> = Vec::new();
                let mut i: usize = 0;
                while i < arguments.len()
                    invariant
                        self is Call,
                        self->Call_arguments == *arguments,
                        i <= arguments.len(),
                        copies.len() == i,
                        forall|j: int| 0 <= j < i ==> copies[j]@ == arguments[j]@,
                    decreases arguments.len() - i,
                {
                    proof {
                        assert(decreases_to!(*self => self->Call_arguments));
                        assert(decreases_to!(*arguments => arguments[i as int]));
                    }
                    let copy = arguments[i].duplicate();
                    copies.push(copy);
                    i += 1;
                }
                let callee_copy = callee.duplicate();
                let paren_copy = paren.duplicate();
                proof {
                    lemma_call_view(callee_copy, paren_copy, copies);
                    lemma_call_view(**callee, *paren, *arguments);
                    assert(expr_views(copies@) =~= expr_views(arguments@));
                }
                Expr::Call { callee: Box::new(callee_copy), paren: paren_copy, arguments: copies }
            },
            Expr::Grouping { grouping } => Expr::Grouping {
                grouping: Box::new(grouping.duplicate()),
            },
            Expr::Literal(l) => Expr::Literal(l.duplicate()),
            Expr::Logical { left, operator, right } => Expr::Logical {
                left: Box::new(left.duplicate()),
                operator: operator.duplicate(),
                right: Box::new(right.duplicate()),
            },
            Expr::Unary { operator, right } => Expr::Unary {
                operator: operator.duplicate(),
                right: Box::new(right.duplicate()),
            },
            Expr::Variable(name) => Expr::Variable(name.duplicate()),
        }
    }

    /// The expression as text, in prefix form.
    pub fn to_string(&self) -> (r: String)
        ensures
            r@ == expr_shown(self@),
        decreases self,
    {
        reveal(expr_shown);
        match self {
            Expr::Assign { name, value } => {
                let mut out = "(".to_owned();
                out.append(name.to_string().as_str());
                out.append(" = ");
                out.append(value.to_string().as_str());
                out.append(")");
                out
            },
            Expr::Binary { left, operator, right } => {
                let mut out = "(".to_owned();
                out.append(operator.to_string().as_str());
                out.append(" ");
                out.append(left.to_string().as_str());
                out.append(" ");
                out.append(right.to_string().as_str());
                out.append(")");
                out
            },
            Expr::Logical { left, operator, right } => {
                let mut out = "(".to_owned();
                out.append(operator.to_string().as_str());
                out.append(" ");
                out.append(left.to_string().as_str());
                out.append(" ");
                out.append(right.to_string().as_str());
                out.append(")");
                out
            },
            Expr::Call { callee, paren, arguments } => {
                let mut out = "(".to_owned();
                out.append(callee.to_string().as_str());
                out.append(" (arguments))");
                out
            },
            Expr::Unary { operator, right } => {
                let mut out = "(".to_owned();
                out.append(operator.to_string().as_str());
                out.append(" ");
                out.append(right.to_string().as_str());
                out.append(")");
                out
            },
            Expr::Grouping { grouping } => {
                let mut out = "(group ".to_owned();
                out.append(grouping.to_string().as_str());
                out.append(")");
                out
            },
            Expr::Literal(l) => l.to_string(),
            Expr::Variable(name) => name.to_string(),
        }
    }
}

/// Copies of the expressions of `exprs`, in order.
pub fn duplicate_exprs(exprs: &Vec<Expr>) -> (r: Vec<Expr>)
    ensures
        expr_views(r@) == expr_views(exprs@),
{
    let mut out: Vec<Expr> = Vec::new();
    let mut i: usize = 0;
    while i < exprs.len()
        invariant
            i <= exprs.len(),
            out.len() == i,
            forall|j: int| 0 <= j < i ==> out[j]@ == exprs[j]@,
        decreases exprs.len() - i,
    {
        out.push(exprs[i].duplicate());
        i += 1;
    }
    assert(expr_views(out@) =~= expr_views(exprs@));
    out
}

/// A statement.
#[allow(inconsistent_fields)]
#[derive(Debug, PartialEq)]
pub enum Stmt {
    Block(Vec<Stmt>),
    If { condition: Expr, then: Box<Stmt>, els: Option<Box<Stmt>> },
    Function { name: Token, params: Vec<Token>, body: Vec<Stmt> },
    Expression(Box<Expr>),
    Print(Box<Expr>),
    Var { name: Token, initializer: Option<Expr> },
    While { condition: Expr, body: Box<Stmt> },
    Return { token: Token, value: Option<Expr> },
}

/// The mathematical content of a [`Stmt`].
#[allow(inconsistent_fields)]
pub enum StmtView {
    Block(Seq<StmtView>),
    If { condition: ExprView, then: Box<StmtView>, els: Option<Box<StmtView>> },
    Function { name: TokenView, params: Seq<TokenView>, body: Seq<StmtView> },
    Expression(ExprView),
    Print(ExprView),
    Var { name: TokenView, initializer: Option<ExprView> },
    While { condition: ExprView, body: Box<StmtView> },
    Return { token: TokenView, value: Option<ExprView> },
}

pub open spec fn stmt_view(s: Stmt) -> StmtView
    decreases s,
{
    match s {
        Stmt::Block(stmts) => StmtView::Block(
            Seq::new(
                stmts.len() as nat,
                |i: int|
                    if 0 <= i < stmts.len() {
                        stmt_view(stmts[i])
                    } else {
                        StmtView::Block(Seq::empty())
                    },
            ),
        ),
        Stmt::If { condition, then, els } => StmtView::If {
            condition: condition@,
            then: Box::new(stmt_view(*then)),
            els: match els {
                Some(e) => Some(Box::new(stmt_view(*e))),
                None => None,
            },
        },
        Stmt::Function { name, params, body } => StmtView::Function {
            name: name@,
            params: token_views(params@),
            body: Seq::new(
                body.len() as nat,
                |i: int|
                    if 0 <= i < body.len() {
                        stmt_view(body[i])
                    } else {
                        StmtView::Block(Seq::empty())
                    },
            ),
        },
        Stmt::Expression(e) => StmtView::Expression(e@),
        Stmt::Print(e) => StmtView::Print(e@),
        Stmt::Var { name, initializer } => StmtView::Var {
            name: name@,
            initializer: match initializer {
                Some(e) => Some(e@),
                None => None,
            },
        },
        Stmt::While { condition, body } => StmtView::While {
            condition: condition@,
            body: Box::new(stmt_view(*body)),
        },
        Stmt::Return { token, value } => StmtView::Return {
            token: token@,
            value: match value {
                Some(e) => Some(e@),
                None => None,
            },
        },
    }
}

impl View for Stmt {
    type V = StmtView;

    open spec fn view(&self) -> StmtView {
        stmt_view(*self)
    }
}

/// The views of a sequence of statements.
pub open spec fn stmt_views(stmts: Seq<Stmt>) -> Seq<StmtView> {
    Seq::new(stmts.len(), |i: int| stmts[i]@)
}

/// The view of a block is made of the views of its statements.
pub proof fn lemma_block_view(stmts: Vec<Stmt>)
    ensures
        Stmt::Block(stmts)@ == StmtView::Block(stmt_views(stmts@)),
{
    assert(Stmt::Block(stmts)@->Block_0 =~= stmt_views(stmts@));
}

/// The view of a function declaration is made of the views of its parts.
pub proof fn lemma_function_view(name: Token, params: Vec<Token>, body: Vec<Stmt>)
    ensures
        (Stmt::Function { name, params, body })@ == (StmtView::Function {
            name: name@,
            params: token_views(params@),
            body: stmt_views(body@),
        }),
{
    let s = Stmt::Function { name, params, body };
    assert(s@->Function_body =~= stmt_views(body@));
}

impl Stmt {
    /// A copy of this statement.
    pub fn duplicate(&self) -> (r: Stmt)
        ensures
            r@ == self@,
        decreases self,
    {
        match self {
            Stmt::Block(stmts) => {
                let mut copies: Vec<Stmt> = Vec::new();
                let mut i: usize = 0;
                while i < stmts.len()
                    invariant
                        self is Block,
                        self->Block_0 == *stmts,
                        i <= stmts.len(),
                        copies.len() == i,
                        forall|j: int| 0 <= j < i ==> copies[j]@ == stmts[j]@,
                    decreases stmts.len() - i,
                {
                    proof {
                        assert(decreases_to!(*self => self->Block_0));
                        assert(decreases_to!(*stmts => stmts[i as int]));
                    }
                    let copy = stmts[i].duplicate();
                    copies.push(copy);
                    i += 1;
                }
                proof {
                    lemma_block_view(copies);
                    lemma_block_view(*stmts);
                    assert(stmt_views(copies@) =~= stmt_views(stmts@));
                }
                Stmt::Block(copies)
            },
            Stmt::If { condition, then, els } => {
                let els_copy = match els {
                    Some(e) => Some(Box::new(e.duplicate())),
                    None => None,
                };
                Stmt::If {
                    condition: condition.duplicate(),
                    then: Box::new(then.duplicate()),
                    els: els_copy,
                }
            },
            Stmt::Function { name, params, body } => {
                let mut copies: Vec<Stmt> = Vec::new();
                let mut i: usize = 0;
                while i < body.len()
                    invariant
                        self is Function,
                        self->Function_body == *body,
                        i <= body.len(),
                        copies.len() == i,
                        forall|j: int| 0 <= j < i ==> copies[j]@ == body[j]@,
                    decreases body.len() - i,
                {
                    proof {
                        assert(decreases_to!(*self => self->Function_body));
                        assert(decreases_to!(*body => body[i as int]));
                    }
                    let copy = body[i].duplicate();
                    copies.push(copy);
                    i += 1;
                }
                let name_copy = name.duplicate();
                let params_copy = crate::token::duplicate_tokens(params);
                proof {
                    lemma_function_view(name_copy, params_copy, copies);
                    lemma_function_view(*name, *params, *body);
                    assert(stmt_views(copies@) =~= stmt_views(body@));
                }
                Stmt::Function { name: name_copy, params: params_copy, body: copies }
            },
            Stmt::Expression(e) => Stmt::Expression(Box::new(e.duplicate())),
            Stmt::Print(e) => Stmt::Print(Box::new(e.duplicate())),
            Stmt::Var { name, initializer } => {
                let initializer_copy = match initializer {
                    Some(e) => Some(e.duplicate()),
                    None => None,
                };
                Stmt::Var { name: name.duplicate(), initializer: initializer_copy }
            },
            Stmt::While { condition, body } => Stmt::While {
                condition: condition.duplicate(),
                body: Box::new(body.duplicate()),
            },
            Stmt::Return { token, value } => {
                let value_copy = match value {
                    Some(e) => Some(e.duplicate()),
                    None => None,
                };
                Stmt::Return { token: token.duplicate(), value: value_copy }
            },
        }
    }
}

/// Copies of the statements of `stmts`, in order.
pub fn duplicate_stmts(stmts: &Vec<Stmt>) -> (r: Vec<Stmt>)
    ensures
        stmt_views(r@) == stmt_views(stmts@),
{
    let mut out: Vec<Stmt> = Vec::new();
    let mut i: usize = 0;
    while i < stmts.len()
        invariant
            i <= stmts.len(),
            out.len() == i,
            forall|j: int| 0 <= j < i ==> out[j]@ == stmts[j]@,
        decreases stmts.len() - i,
    {
        out.push(stmts[i].duplicate());
        i += 1;
    }
    assert(stmt_views(out@) =~= stmt_views(stmts@));
    out
}

} // verus!
