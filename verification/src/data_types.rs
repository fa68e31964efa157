use crate::ast::{stmt_views, Stmt, StmtView};
use crate::error::EvaluationError;
use crate::number::{compare, compared, negate, negated, Order};
use crate::text::chars_of;
use crate::token::{token_views, Token, TokenTypeDiscriminants, TokenView};
use std::rc::Rc;
use vstd::prelude::*;

verus! {

/// `Rc::clone` of the standard library: the new pointer shares the function
/// of the old one.
#[verifier::external_body]
fn share(function: &Rc<Function>) -> (r: Rc<Function>)
    ensures
        r == *function,
{
    Rc::clone(function)
}

/// The built-in function `clock`: no parameters; the time in milliseconds
/// since the Unix epoch.
#[derive(Clone, Copy, Debug, PartialEq, Eq, Structural)]
pub struct Clock;

/// A function that a program declared: its name, its parameters, its body,
/// and the scopes that were in sight where it was declared, outermost first.
#[derive(Debug)]
pub struct Function {
    name: Token,
    params: Vec<Token>,
    body: Vec<Stmt>,
    closure: Vec<usize>,
}

/// The mathematical content of a [`Function`].
pub struct FunctionView {
    pub name: TokenView,
    pub params: Seq<TokenView>,
    pub body: Seq<StmtView>,
    pub closure: Seq<usize>,
}

impl View for Function {
    type V = FunctionView;

    closed spec fn view(&self) -> FunctionView {
        FunctionView {
            name: self.name@,
            params: token_views(self.params@),
            body: stmt_views(self.body@),
            closure: self.closure@,
        }
    }
}

/// What can be called: it says how many arguments it takes.
pub trait Callable {
    /// The number of parameters, 255 at most.
    spec fn parameters(&self) -> int;

    fn arity(&self) -> (n: u8)
        ensures
            n == self.parameters(),
    ;
}

impl Function {
    /// A function has 255 parameters at most.
    #[verifier::type_invariant]
    closed spec fn few_parameters(self) -> bool {
        self.params@.len() <= 255
    }

    /// A function of these parts. It has 255 parameters at most, as many as
    /// a call can have arguments.
    pub fn new(name: Token, params: Vec<Token>, body: Vec<Stmt>, closure: Vec<usize>) -> (r:
        Function)
        requires
            params@.len() <= 255,
        ensures
            r@ == (FunctionView {
                name: name@,
                params: token_views(params@),
                body: stmt_views(body@),
                closure: closure@,
            }),
    {
        Function { name, params, body, closure }
    }

    /// The name under which the function was declared.
    pub fn name(&self) -> (r: &Token)
        ensures
            r@ == self@.name,
    {
        &self.name
    }

    /// The parameters, in order: 255 at most.
    pub fn params(&self) -> (r: &Vec<Token>)
        ensures
            token_views(r@) == self@.params,
            r@.len() <= 255,
    {
        proof {
            use_type_invariant(self);
        }
        &self.params
    }

    /// The statements of the body, in order.
    pub fn body(&self) -> (r: &Vec<Stmt>)
        ensures
            stmt_views(r@) == self@.body,
    {
        &self.body
    }

    /// The scopes that were in sight where the function was declared.
    pub fn closure(&self) -> (r: &Vec<usize>)
        ensures
            r@ == self@.closure,
    {
        &self.closure
    }
}

impl Callable for Function {
    open spec fn parameters(&self) -> int {
        self@.params.len() as int
    }

    fn arity(&self) -> (n: u8) {
        proof {
            use_type_invariant(self);
        }
        self.params.len() as u8
    }
}

impl Callable for Clock {
    open spec fn parameters(&self) -> int {
        0
    }

    fn arity(&self) -> (n: u8) {
        0
    }
}

/// A value of a running program. A number is a double, held as its bits.
#[derive(Debug)]
pub enum Object {
    Nil,
    Boolean(bool),
    String(String),
    Number(u64),
    Function(Rc<Function>),
    Builtin(Clock),
}

/// The mathematical content of an [`Object`].
pub enum ObjectView {
    Nil,
    Boolean(bool),
    String(Seq<char>),
    Number(u64),
    Function(FunctionView),
    Builtin(Clock),
}

impl View for Object {
    type V = ObjectView;

    open spec fn view(&self) -> ObjectView {
        match self {
            Object::Nil => ObjectView::Nil,
            Object::Boolean(b) => ObjectView::Boolean(*b),
            Object::String(s) => ObjectView::String(s@),
            Object::Number(bits) => ObjectView::Number(*bits),
            Object::Function(f) => ObjectView::Function((**f)@),
            Object::Builtin(c) => ObjectView::Builtin(*c),
        }
    }
}

/// The views of a sequence of values.
pub open spec fn object_views(values: Seq<Object>) -> Seq<ObjectView> {
    values.map_values(|v: Object| v@)
}

/// The arithmetic that is asked of the machine's host, which has the doubles.
#[derive(Clone, Copy, Debug, PartialEq, Eq, Structural)]
pub enum Arithmetic {
    Add,
    Subtract,
    Multiply,
    Divide,
}

/// What a binary operator makes of two values: a value, or arithmetic on two
/// doubles that the host is to carry out.
#[derive(Debug)]
pub enum Applied {
    Value(Object),
    Compute(Arithmetic, u64, u64),
}

/// The mathematical content of an [`Applied`].
pub enum AppliedView {
    Value(ObjectView),
    Compute(Arithmetic, u64, u64),
}

impl View for Applied {
    type V = AppliedView;

    open spec fn view(&self) -> AppliedView {
        match self {
            Applied::Value(v) => AppliedView::Value(v@),
            Applied::Compute(operation, left, right) => AppliedView::Compute(
                *operation,
                *left,
                *right,
            ),
        }
    }
}

/// What is written for a value: a text, or a double that the host is to
/// write in its shortest decimal form that reads back as the same double.
#[derive(Debug, PartialEq)]
pub enum Printed {
    Text(String),
    Number(u64),
}

/// The mathematical content of a [`Printed`].
pub enum PrintedView {
    Text(Seq<char>),
    Number(u64),
}

impl View for Printed {
    type V = PrintedView;

    open spec fn view(&self) -> PrintedView {
        match self {
            Printed::Text(s) => PrintedView::Text(s@),
            Printed::Number(bits) => PrintedView::Number(*bits),
        }
    }
}

/// Whether a value counts as true: all do but `nil` and `false`.
pub open spec fn truthy(v: ObjectView) -> bool {
    match v {
        ObjectView::Nil => false,
        ObjectView::Boolean(b) => b,
        _ => true,
    }
}

/// Whether two values are equal: `nil` to `nil`, booleans and strings to
/// their like, numbers as doubles are, and a function to nothing.
pub open spec fn same_value(a: ObjectView, b: ObjectView) -> bool {
    match (a, b) {
        (ObjectView::Nil, ObjectView::Nil) => true,
        (ObjectView::Boolean(l), ObjectView::Boolean(r)) => l == r,
        (ObjectView::String(l), ObjectView::String(r)) => l == r,
        (ObjectView::Number(l), ObjectView::Number(r)) => compared(l, r) == Some(Order::Equal),
        (_, _) => false,
    }
}

/// How `a[i..]` and `b[i..]` compare, character by character; where one ends
/// first, it is the lesser.
pub open spec fn texts_compared_from(a: Seq<char>, b: Seq<char>, i: int) -> Order
    decreases a.len() - i,
{
    if i >= a.len() && i >= b.len() {
        Order::Equal
    } else if i >= a.len() {
        Order::Less
    } else if i >= b.len() {
        Order::Greater
    } else if i < 0 {
        Order::Equal
    } else if a[i] < b[i] {
        Order::Less
    } else if a[i] > b[i] {
        Order::Greater
    } else {
        texts_compared_from(a, b, i + 1)
    }
}

/// How two values compare: numbers as doubles do, strings character by
/// character, and nothing else at all.
pub open spec fn values_compared(a: ObjectView, b: ObjectView) -> Option<Order> {
    match (a, b) {
        (ObjectView::String(l), ObjectView::String(r)) => Some(texts_compared_from(l, r, 0)),
        (ObjectView::Number(l), ObjectView::Number(r)) => compared(l, r),
        (_, _) => None,
    }
}

/// Whether both values are of a kind that can be ordered against the other.
pub open spec fn comparable(a: ObjectView, b: ObjectView) -> bool {
    (a is String && b is String) || (a is Number && b is Number)
}

/// What an ordering operator says of a comparison. Where one side is not a
/// number, every ordering is false.
pub open spec fn ordering_holds(kind: TokenTypeDiscriminants, order: Option<Order>) -> bool {
    match order {
        Some(Order::Less) => kind == TokenTypeDiscriminants::Less || kind
            == TokenTypeDiscriminants::LessEqual,
        Some(Order::Equal) => kind == TokenTypeDiscriminants::LessEqual || kind
            == TokenTypeDiscriminants::GreaterEqual,
        Some(Order::Greater) => kind == TokenTypeDiscriminants::Greater || kind
            == TokenTypeDiscriminants::GreaterEqual,
        None => false,
    }
}

/// The arithmetic that an operator stands for, if it stands for any.
pub open spec fn arithmetic_of(kind: TokenTypeDiscriminants) -> Option<Arithmetic> {
    match kind {
        TokenTypeDiscriminants::Plus => Some(Arithmetic::Add),
        TokenTypeDiscriminants::Minus => Some(Arithmetic::Subtract),
        TokenTypeDiscriminants::Star => Some(Arithmetic::Multiply),
        TokenTypeDiscriminants::Slash => Some(Arithmetic::Divide),
        _ => None,
    }
}

/// What the binary operator of kind `kind` makes of `left` and `right`.
///
/// `-`, `*` and `/` take two numbers; `+` takes two numbers or two strings,
/// which it joins. The four orderings take two numbers or two strings. `==`
/// and `!=` take anything. Any other kind is no binary operator.
pub open spec fn applied(kind: TokenTypeDiscriminants, left: ObjectView, right: ObjectView) -> Result<
    AppliedView,
    EvaluationError,
> {
    match kind {
        TokenTypeDiscriminants::Plus => match (left, right) {
            (ObjectView::Number(a), ObjectView::Number(b)) => Ok(
                AppliedView::Compute(Arithmetic::Add, a, b),
            ),
            (ObjectView::String(a), ObjectView::String(b)) => Ok(
                AppliedView::Value(ObjectView::String(a + b)),
            ),
            (ObjectView::String(_), _) => Err(EvaluationError::StringConcatination),
            (_, ObjectView::String(_)) => Err(EvaluationError::StringConcatination),
            (_, _) => Err(EvaluationError::Arithmatic(kind)),
        },
        TokenTypeDiscriminants::Minus | TokenTypeDiscriminants::Star
        | TokenTypeDiscriminants::Slash => match (left, right) {
            (ObjectView::Number(a), ObjectView::Number(b)) => Ok(
                AppliedView::Compute(arithmetic_of(kind)->Some_0, a, b),
            ),
            (_, _) => Err(EvaluationError::Arithmatic(kind)),
        },
        TokenTypeDiscriminants::Greater | TokenTypeDiscriminants::GreaterEqual
        | TokenTypeDiscriminants::Less | TokenTypeDiscriminants::LessEqual => {
            if comparable(left, right) {
                Ok(
                    AppliedView::Value(
                        ObjectView::Boolean(ordering_holds(kind, values_compared(left, right))),
                    ),
                )
            } else {
                Err(EvaluationError::Comparision(kind))
            }
        },
        TokenTypeDiscriminants::EqualEqual => Ok(
            AppliedView::Value(ObjectView::Boolean(same_value(left, right))),
        ),
        TokenTypeDiscriminants::BangEqual => Ok(
            AppliedView::Value(ObjectView::Boolean(!same_value(left, right))),
        ),
        _ => Err(EvaluationError::Operator(kind)),
    }
}

/// What the unary operator of kind `kind` makes of `right`: `-` takes a
/// number, `!` anything.
pub open spec fn applied_unary(kind: TokenTypeDiscriminants, right: ObjectView) -> Result<
    ObjectView,
    EvaluationError,
> {
    match kind {
        TokenTypeDiscriminants::Minus => match right {
            ObjectView::Number(bits) => Ok(ObjectView::Number(negated(bits))),
            _ => Err(EvaluationError::Negation),
        },
        TokenTypeDiscriminants::Bang => Ok(ObjectView::Boolean(!truthy(right))),
        _ => Err(EvaluationError::Operator(kind)),
    }
}

/// What is written for a value: `nil`, `true` or `false`, the characters of a
/// string, the number, and a fixed word for a function.
pub open spec fn printed(v: ObjectView) -> PrintedView {
    match v {
        ObjectView::Nil => PrintedView::Text("nil"@),
        ObjectView::Boolean(b) => PrintedView::Text(
            if b {
                "true"@
            } else {
                "false"@
            },
        ),
        ObjectView::String(s) => PrintedView::Text(s),
        ObjectView::Number(bits) => PrintedView::Number(bits),
        ObjectView::Function(_) => PrintedView::Text("<fn placehodler>"@),
        ObjectView::Builtin(_) => PrintedView::Text("<fn placehodler>"@),
    }
}

/// Compares two texts character by character.
pub fn compare_texts(a: &str, b: &str) -> (r: Order)
    ensures
        r == texts_compared_from(a@, b@, 0),
{
    let left = chars_of(a);
    let right = chars_of(b);
    let mut i: usize = 0;
    while i < left.len() && i < right.len()
        invariant
            left@ == a@,
            right@ == b@,
            i <= left.len(),
            i <= right.len(),
            texts_compared_from(a@, b@, 0) == texts_compared_from(a@, b@, i as int),
        decreases left.len() - i,
    {
        if left[i] < right[i] {
            return Order::Less;
        }
        if left[i] > right[i] {
            return Order::Greater;
        }
        i += 1;
    }
    if i >= left.len() && i >= right.len() {
        Order::Equal
    } else if i >= left.len() {
        Order::Less
    } else {
        Order::Greater
    }
}

impl Object {
    /// A copy of this value. A function is shared with the copy, not copied.
    pub fn duplicate(&self) -> (r: Object)
        ensures
            r@ == self@,
    {
        match self {
            Object::Nil => Object::Nil,
            Object::Boolean(b) => Object::Boolean(*b),
            Object::String(s) => Object::String(s.clone()),
            Object::Number(bits) => Object::Number(*bits),
            Object::Function(f) => Object::Function(share(f)),
            Object::Builtin(c) => Object::Builtin(*c),
        }
    }

    /// Whether the value counts as true.
    pub fn is_truthy(&self) -> (r: bool)
        ensures
            r == truthy(self@),
    {
        match self {
            Object::Nil => false,
            Object::Boolean(b) => *b,
            _ => true,
        }
    }

    /// The boolean that `!` makes of the value.
    pub fn not(&self) -> (r: Object)
        ensures
            r@ == ObjectView::Boolean(!truthy(self@)),
    {
        Object::Boolean(!self.is_truthy())
    }

    /// Whether the two values are equal.
    pub fn equals(&self, other: &Object) -> (r: bool)
        ensures
            r == same_value(self@, other@),
    {
        match (self, other) {
            (Object::Nil, Object::Nil) => true,
            (Object::Boolean(l), Object::Boolean(r)) => *l == *r,
            (Object::String(l), Object::String(r)) => *l == *r,
            (Object::Number(l), Object::Number(r)) => match compare(*l, *r) {
                Some(Order::Equal) => true,
                _ => false,
            },
            (_, _) => false,
        }
    }

    /// How the two values compare, where they can be compared.
    pub fn compare(&self, other: &Object) -> (r: Option<Order>)
        ensures
            r == values_compared(self@, other@),
    {
        match (self, other) {
            (Object::String(l), Object::String(r)) => Some(compare_texts(l.as_str(), r.as_str())),
            (Object::Number(l), Object::Number(r)) => compare(*l, *r),
            (_, _) => None,
        }
    }

    /// What unary `-` makes of the value.
    pub fn negated(&self) -> (r: Result<Object, EvaluationError>)
        ensures
            match applied_unary(TokenTypeDiscriminants::Minus, self@) {
                Ok(v) => r is Ok && r->Ok_0@ == v,
                Err(error) => r == Err::<Object, EvaluationError>(error),
            },
    {
        match self {
            Object::Number(bits) => Ok(Object::Number(negate(*bits))),
            _ => Err(EvaluationError::Negation),
        }
    }

    /// What the unary operator of kind `kind` makes of the value.
    pub fn unary(&self, kind: TokenTypeDiscriminants) -> (r: Result<Object, EvaluationError>)
        ensures
            match applied_unary(kind, self@) {
                Ok(v) => r is Ok && r->Ok_0@ == v,
                Err(error) => r == Err::<Object, EvaluationError>(error),
            },
    {
        match kind {
            TokenTypeDiscriminants::Minus => self.negated(),
            TokenTypeDiscriminants::Bang => Ok(self.not()),
            _ => Err(EvaluationError::Operator(kind)),
        }
    }

    /// What the binary operator of kind `kind` makes of this value, on its
    /// left, and `right`.
    pub fn binary(&self, kind: TokenTypeDiscriminants, right: &Object) -> (r: Result<
        Applied,
        EvaluationError,
    >)
        ensures
            match applied(kind, self@, right@) {
                Ok(a) => r is Ok && r->Ok_0@ == a,
                Err(error) => r == Err::<Applied, EvaluationError>(error),
            },
    {
        match kind {
            TokenTypeDiscriminants::Plus => match (self, right) {
                (Object::Number(a), Object::Number(b)) => Ok(
                    Applied::Compute(Arithmetic::Add, *a, *b),
                ),
                (Object::String(a), Object::String(b)) => {
                    let joined = a.clone().concat(b.as_str());
                    Ok(Applied::Value(Object::String(joined)))
                },
                (Object::String(_), _) => Err(EvaluationError::StringConcatination),
                (_, Object::String(_)) => Err(EvaluationError::StringConcatination),
                (_, _) => Err(EvaluationError::Arithmatic(kind)),
            },
            TokenTypeDiscriminants::Minus => match (self, right) {
                (Object::Number(a), Object::Number(b)) => Ok(
                    Applied::Compute(Arithmetic::Subtract, *a, *b),
                ),
                (_, _) => Err(EvaluationError::Arithmatic(kind)),
            },
            TokenTypeDiscriminants::Star => match (self, right) {
                (Object::Number(a), Object::Number(b)) => Ok(
                    Applied::Compute(Arithmetic::Multiply, *a, *b),
                ),
                (_, _) => Err(EvaluationError::Arithmatic(kind)),
            },
            TokenTypeDiscriminants::Slash => match (self, right) {
                (Object::Number(a), Object::Number(b)) => Ok(
                    Applied::Compute(Arithmetic::Divide, *a, *b),
                ),
                (_, _) => Err(EvaluationError::Arithmatic(kind)),
            },
            TokenTypeDiscriminants::Greater | TokenTypeDiscriminants::GreaterEqual
            | TokenTypeDiscriminants::Less | TokenTypeDiscriminants::LessEqual => {
                let both = match (self, right) {
                    (Object::String(_), Object::String(_)) => true,
                    (Object::Number(_), Object::Number(_)) => true,
                    (_, _) => false,
                };
                if both {
                    let holds = match self.compare(right) {
                        Some(Order::Less) => kind == TokenTypeDiscriminants::Less || kind
                            == TokenTypeDiscriminants::LessEqual,
                        Some(Order::Equal) => kind == TokenTypeDiscriminants::LessEqual || kind
                            == TokenTypeDiscriminants::GreaterEqual,
                        Some(Order::Greater) => kind == TokenTypeDiscriminants::Greater || kind
                            == TokenTypeDiscriminants::GreaterEqual,
                        None => false,
                    };
                    Ok(Applied::Value(Object::Boolean(holds)))
                } else {
                    Err(EvaluationError::Comparision(kind))
                }
            },
            TokenTypeDiscriminants::EqualEqual => Ok(
                Applied::Value(Object::Boolean(self.equals(right))),
            ),
            TokenTypeDiscriminants::BangEqual => Ok(
                Applied::Value(Object::Boolean(!self.equals(right))),
            ),
            _ => Err(EvaluationError::Operator(kind)),
        }
    }

    /// What is written for the value.
    pub fn printed(&self) -> (r: Printed)
        ensures
            r@ == printed(self@),
    {
        match self {
            Object::Nil => Printed::Text("nil".to_owned()),
            Object::Boolean(b) => Printed::Text(
                if *b {
                    "true".to_owned()
                } else {
                    "false".to_owned()
                },
            ),
            Object::String(s) => Printed::Text(s.clone()),
            Object::Number(bits) => Printed::Number(*bits),
            Object::Function(_) => Printed::Text("<fn placehodler>".to_owned()),
            Object::Builtin(_) => Printed::Text("<fn placehodler>".to_owned()),
        }
    }
}

impl PartialEq for Object {
    fn eq(&self, other: &Object) -> (r: bool) {
        self.equals(other)
    }
}

impl vstd::std_specs::cmp::PartialEqSpecImpl for Object {
    open spec fn obeys_eq_spec() -> bool {
        true
    }

    open spec fn eq_spec(&self, other: &Object) -> bool {
        same_value(self@, other@)
    }
}

/// How a statement ended: with `return` and a value, with a bare `return`, or
/// without any `return`.
#[derive(Debug, PartialEq)]
pub enum Return {
    Value(Object),
    Bare,
    Nothing,
}

/// The mathematical content of a [`Return`].
pub enum ReturnView {
    Value(ObjectView),
    Bare,
    Nothing,
}

impl View for Return {
    type V = ReturnView;

    open spec fn view(&self) -> ReturnView {
        match self {
            Return::Value(v) => ReturnView::Value(v@),
            Return::Bare => ReturnView::Bare,
            Return::Nothing => ReturnView::Nothing,
        }
    }
}

impl ReturnView {
    /// The value that a call gives which ended so: the value returned, and
    /// `nil` where none was.
    pub open spec fn value(self) -> ObjectView {
        match self {
            ReturnView::Value(v) => v,
            _ => ObjectView::Nil,
        }
    }
}

impl Return {
    /// Whether a `return` was reached.
    pub fn is_explicit(&self) -> (r: bool)
        ensures
            r == !(self@ is Nothing),
    {
        match self {
            Return::Value(_) | Return::Bare => true,
            Return::Nothing => false,
        }
    }

    /// The value that a call gives which ended so.
    pub fn into_value(self) -> (r: Object)
        ensures
            r@ == self@.value(),
    {
        match self {
            Return::Value(v) => v,
            _ => Object::Nil,
        }
    }
}

} // verus!
