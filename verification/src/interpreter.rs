use crate::ast::{
    duplicate_stmts, expr_views, lemma_block_view, lemma_call_view, lemma_function_view,
    stmt_views, Expr, ExprView, Literal, LiteralView, Stmt, StmtView,
};
use crate::data_types::{
    applied, applied_unary, object_views, printed, truthy, Applied, AppliedView, Arithmetic,
    Clock, Function, FunctionView, Object, ObjectView, Printed, PrintedView, Return, ReturnView,
};
use crate::environment::{
    call_sees_captured_scopes, copy_chain, lemma_defined_keeps_others, lemma_no_stray,
    lemma_released, stray, Environment, EnvironmentView,
};
use crate::error::{RuntimeError, RuntimeErrorView};
use crate::parser::max_arity;
use crate::scope_discipline::{
    a_failed_program_is_back_where_it_began, a_program_begins_anchored, anchored,
    the_starting_scopes_outlast_every_step,
};
use crate::token::{token_views, Token, TokenTypeDiscriminants, TokenView};
use std::rc::Rc;
use vstd::prelude::*;

verus! {

/// One thing that the machine has yet to do. The machine keeps its tasks on a
/// stack and its values on another; most tasks take values from the top of
/// the one and leave their result there.
#[derive(Debug)]
pub enum Task {
    /// Run a statement.
    Execute(Stmt),
    /// Evaluate an expression and leave its value.
    Evaluate(Expr),
    /// Take a value and drop it.
    Discard,
    /// Take a value and have it written.
    Print,
    /// Take a value and define the name as it.
    Define(Token),
    /// Assign the value on top to the name, and leave it there.
    Assign(Token),
    /// Take a value and leave what the unary operator makes of it.
    Unary(Token),
    /// Take two values and leave what the binary operator makes of them.
    Binary(Token),
    /// Look at the left operand of `and` or `or`: leave it if it decides,
    /// else replace it by the value of the right operand.
    Logical(Token, Expr),
    /// Take a condition and run the first statement if it counts as true,
    /// else the second if there is one.
    Branch(Stmt, Option<Stmt>),
    /// Take a condition; if it counts as true, run the statement and then
    /// evaluate the expression and decide again.
    Loop(Expr, Stmt),
    /// Take so many arguments and, below them, what is called; call it.
    Call(Token, usize),
    /// Take a value and return it from the function that runs.
    Return,
    /// End the innermost scope.
    EndScope,
    /// The end of a function's body, or of a statement of the program: bring
    /// the scopes in sight that were before it, cut the values back to the
    /// count there was, and leave the value of the call.
    EndCall(Vec<usize>, usize),
}

/// The mathematical content of a [`Task`].
pub enum TaskView {
    Execute(StmtView),
    Evaluate(ExprView),
    Discard,
    Print,
    Define(TokenView),
    Assign(TokenView),
    Unary(TokenView),
    Binary(TokenView),
    Logical(TokenView, ExprView),
    Branch(StmtView, Option<StmtView>),
    Loop(ExprView, StmtView),
    Call(TokenView, usize),
    Return,
    EndScope,
    EndCall(Seq<usize>, usize),
}

impl View for Task {
    type V = TaskView;

    open spec fn view(&self) -> TaskView {
        match self {
            Task::Execute(s) => TaskView::Execute(s@),
            Task::Evaluate(e) => TaskView::Evaluate(e@),
            Task::Discard => TaskView::Discard,
            Task::Print => TaskView::Print,
            Task::Define(name) => TaskView::Define(name@),
            Task::Assign(name) => TaskView::Assign(name@),
            Task::Unary(operator) => TaskView::Unary(operator@),
            Task::Binary(operator) => TaskView::Binary(operator@),
            Task::Logical(operator, right) => TaskView::Logical(operator@, right@),
            Task::Branch(then, els) => TaskView::Branch(
                then@,
                match els {
                    Some(s) => Some(s@),
                    None => None,
                },
            ),
            Task::Loop(condition, body) => TaskView::Loop(condition@, body@),
            Task::Call(paren, count) => TaskView::Call(paren@, *count),
            Task::Return => TaskView::Return,
            Task::EndScope => TaskView::EndScope,
            Task::EndCall(chain, height) => TaskView::EndCall(chain@, *height),
        }
    }
}

/// The views of a sequence of tasks.
pub open spec fn task_views(tasks: Seq<Task>) -> Seq<TaskView> {
    tasks.map_values(|t: Task| t@)
}

/// What the machine asks of its host, or tells it.
#[derive(Debug, PartialEq)]
pub enum Action {
    /// Write this and a line feed. The host answers with nothing.
    Print(Printed),
    /// The digits of a number literal: the host answers with the bits of the
    /// double nearest to the number they denote.
    Convert(String),
    /// Arithmetic on two doubles: the host answers with the bits of the
    /// result.
    Compute(Arithmetic, u64, u64),
    /// The host answers with the bits of the double that is the time in
    /// milliseconds since the Unix epoch.
    Clock,
    /// Nothing is left to do.
    Finished,
    /// The program failed. What was left to do is given up, and the scopes
    /// in sight are those in which the program began.
    Failed(RuntimeError),
    /// The machine has taken the steps it was allowed and can take more.
    Paused,
}

/// The mathematical content of an [`Action`].
pub enum ActionView {
    Print(PrintedView),
    Convert(Seq<char>),
    Compute(Arithmetic, u64, u64),
    Clock,
    Finished,
    Failed(RuntimeErrorView),
    Paused,
}

impl View for Action {
    type V = ActionView;

    open spec fn view(&self) -> ActionView {
        match self {
            Action::Print(p) => ActionView::Print(p@),
            Action::Convert(digits) => ActionView::Convert(digits@),
            Action::Compute(operation, left, right) => ActionView::Compute(
                *operation,
                *left,
                *right,
            ),
            Action::Clock => ActionView::Clock,
            Action::Finished => ActionView::Finished,
            Action::Failed(error) => ActionView::Failed(error@),
            Action::Paused => ActionView::Paused,
        }
    }
}

/// The mathematical content of an [`Interpreter`]: the scopes, the tasks (the
/// last is the next), the values (the last is on top), and the scopes that
/// come back in sight when the program fails.
pub struct MachineView {
    pub environment: EnvironmentView,
    pub tasks: Seq<TaskView>,
    pub values: Seq<ObjectView>,
    pub home: Seq<usize>,
}

/// One step of the machine: the machine after it, and what the step asks of
/// the host, if anything.
pub struct Step {
    pub after: MachineView,
    pub action: Option<ActionView>,
}

/// The tasks that run `statements` in order: the first statement is the last
/// task.
pub open spec fn reversed_executes(statements: Seq<StmtView>) -> Seq<TaskView>
    decreases statements.len(),
{
    if statements.len() == 0 {
        Seq::empty()
    } else {
        reversed_executes(statements.drop_first()).push(TaskView::Execute(statements[0]))
    }
}

/// The tasks that evaluate `expressions` in order: the first expression is
/// the last task.
pub open spec fn reversed_evaluates(expressions: Seq<ExprView>) -> Seq<TaskView>
    decreases expressions.len(),
{
    if expressions.len() == 0 {
        Seq::empty()
    } else {
        reversed_evaluates(expressions.drop_first()).push(TaskView::Evaluate(expressions[0]))
    }
}

/// The tasks that run a program: each statement in order, each closed like a
/// call whose value is dropped, so that a `return` ends that statement and no
/// more.
pub open spec fn program_tasks(statements: Seq<StmtView>, home: Seq<usize>, height: usize) -> Seq<
    TaskView,
>
    decreases statements.len(),
{
    if statements.len() == 0 {
        Seq::empty()
    } else {
        program_tasks(statements.drop_first(), home, height) + seq![
            TaskView::Discard,
            TaskView::EndCall(home, height),
            TaskView::Execute(statements[0]),
        ]
    }
}

/// The first of `params` from `from` on that has no text, if there is one.
pub open spec fn nameless(params: Seq<TokenView>, from: int) -> Option<TokenView>
    decreases params.len() - from,
{
    if from < 0 || from >= params.len() {
        None
    } else if params[from].lexeme is None {
        Some(params[from])
    } else {
        nameless(params, from + 1)
    }
}

/// The environment in which the parameters from `from` on are defined as
/// their arguments, in order.
pub open spec fn bound_parameters(
    environment: EnvironmentView,
    params: Seq<TokenView>,
    arguments: Seq<ObjectView>,
    from: int,
) -> EnvironmentView
    decreases params.len() - from,
{
    if from < 0 || from >= params.len() || from >= arguments.len() {
        environment
    } else {
        bound_parameters(
            environment.defined(params[from].lexeme->Some_0, arguments[from]),
            params,
            arguments,
            from + 1,
        )
    }
}

/// The first `height` of `values`, or all of them where there are fewer.
pub open spec fn cut_back(values: Seq<ObjectView>, height: int) -> Seq<ObjectView> {
    if 0 <= height <= values.len() {
        values.take(height)
    } else {
        values
    }
}

impl EnvironmentView {
    /// The environment with the scopes `home` in sight again, where `home`
    /// names scopes that exist; else the environment as it is.
    pub open spec fn recovered(self, home: Seq<usize>) -> EnvironmentView {
        if home.len() > 0 && stray(home, self.scopes.len() as int, 0) is None {
            self.restored(home)
        } else {
            self
        }
    }
}

impl MachineView {
    /// The scopes are sound.
    pub open spec fn wf(self) -> bool {
        self.environment.wf()
    }

    pub open spec fn with_environment(self, environment: EnvironmentView) -> MachineView {
        MachineView { environment, tasks: self.tasks, values: self.values, home: self.home }
    }

    pub open spec fn with_tasks(self, tasks: Seq<TaskView>) -> MachineView {
        MachineView { environment: self.environment, tasks, values: self.values, home: self.home }
    }

    pub open spec fn with_values(self, values: Seq<ObjectView>) -> MachineView {
        MachineView { environment: self.environment, tasks: self.tasks, values, home: self.home }
    }

    pub open spec fn push_task(self, task: TaskView) -> MachineView {
        self.with_tasks(self.tasks.push(task))
    }

    pub open spec fn pop_task(self) -> MachineView {
        self.with_tasks(self.tasks.drop_last())
    }

    pub open spec fn push_value(self, value: ObjectView) -> MachineView {
        self.with_values(self.values.push(value))
    }

    pub open spec fn pop_value(self) -> MachineView {
        self.with_values(self.values.drop_last())
    }

    /// The machine with the answer of the host on top of its values, where
    /// the host gave one.
    pub open spec fn answered(self, reply: Option<u64>) -> MachineView {
        match reply {
            Some(bits) => self.push_value(ObjectView::Number(bits)),
            None => self,
        }
    }

    /// The machine with the statements of a program to run. From now on, the
    /// scopes in sight are those that come back when the program fails; they
    /// are held for good, as scopes that a function has captured are.
    pub open spec fn loaded(self, statements: Seq<StmtView>) -> MachineView {
        MachineView {
            environment: self.environment.capturing(),
            tasks: self.tasks + program_tasks(
                statements,
                self.environment.chain,
                self.values.len() as usize,
            ),
            values: self.values,
            home: self.environment.chain,
        }
    }

    /// A machine with nothing to do, whose global scope binds `clock` to the
    /// built-in function of that name and is held for good.
    pub open spec fn fresh() -> MachineView {
        MachineView {
            environment: EnvironmentView {
                scopes: seq![
                    Map::<Seq<char>, ObjectView>::empty().insert(
                        "clock"@,
                        ObjectView::Builtin(Clock),
                    ),
                ],
                chain: seq![0usize],
                captured: seq![true],
            },
            tasks: Seq::empty(),
            values: Seq::empty(),
            home: seq![0usize],
        }
    }

    /// The machine with statements to run in the scopes in sight. Under them
    /// lies the task that ends them as a call ends: it brings the scopes in
    /// sight now back in sight, cuts the values back to those that there are
    /// now, and leaves the outcome on top of them: the value that a `return`
    /// among the statements gave, and `nil` after a bare `return` or none. A
    /// `return` or a failure gives up the statements that are left.
    pub open spec fn scheduled(self, statements: Seq<StmtView>) -> MachineView {
        self.with_tasks(
            self.tasks.push(
                TaskView::EndCall(self.environment.chain, self.values.len() as usize),
            ) + reversed_executes(statements),
        )
    }

    /// A step that asks nothing of the host.
    pub open spec fn go(self) -> Step {
        Step { after: self, action: None }
    }

    /// A step that asks `action` of the host.
    pub open spec fn ask(self, action: ActionView) -> Step {
        Step { after: self, action: Some(action) }
    }

    /// The machine after its program was given up: no task and no value is
    /// left, and the scopes in which the program began are in sight again.
    pub open spec fn abandoned(self) -> MachineView {
        MachineView {
            environment: self.environment.recovered(self.home),
            tasks: Seq::empty(),
            values: Seq::empty(),
            home: self.home,
        }
    }

    /// The step of a failing program: the program is given up.
    pub open spec fn fail(self, error: RuntimeErrorView) -> Step {
        Step { after: self.abandoned(), action: Some(ActionView::Failed(error)) }
    }

    /// Defines `name` as `value` in the innermost scope.
    pub open spec fn define(self, name: TokenView, value: ObjectView) -> Step {
        match name.lexeme {
            Some(text) => self.with_environment(self.environment.defined(text, value)).go(),
            None => self.fail(RuntimeErrorView::UnexpectedToken(name)),
        }
    }

    /// The end of a call, or of a statement of the program: the scopes
    /// `chain` come back in sight, the values are cut back to `height`, and
    /// the value of the call is left: the value that was returned, and `nil`
    /// after a bare `return` or none.
    pub open spec fn end_call(self, chain: Seq<usize>, height: usize, outcome: ReturnView) -> Step {
        if chain.len() == 0 {
            self.fail(RuntimeErrorView::ScopeDepth(0))
        } else {
            match stray(chain, self.environment.scopes.len() as int, 0) {
                Some(id) => self.fail(RuntimeErrorView::ScopeDepth(id)),
                None => MachineView {
                    environment: self.environment.restored(chain),
                    tasks: self.tasks,
                    values: cut_back(self.values, height as int).push(outcome.value()),
                    home: self.home,
                }.go(),
            }
        }
    }

    /// A `return`: every task up to the end of the call that runs is given
    /// up, and the call ends with `outcome`. Outside of any call nothing
    /// happens.
    pub open spec fn unwind(self, outcome: ReturnView) -> Step
        decreases self.tasks.len(),
    {
        if self.tasks.len() == 0 {
            self.go()
        } else {
            match self.tasks.last() {
                TaskView::EndCall(chain, height) => self.pop_task().end_call(chain, height, outcome),
                _ => self.pop_task().unwind(outcome),
            }
        }
    }

    /// A call of `function` with `arguments`: as many as it has parameters.
    /// The body runs in the scopes that the function captured and a new one,
    /// in which the parameters are defined as the arguments.
    pub open spec fn invoke(self, function: FunctionView, arguments: Seq<ObjectView>) -> Step {
        if function.params.len() != arguments.len() {
            self.fail(
                RuntimeErrorView::Arity {
                    expected: function.params.len() as usize,
                    found: arguments.len() as usize,
                },
            )
        } else {
            match nameless(function.params, 0) {
                Some(param) => self.fail(RuntimeErrorView::UnexpectedToken(param)),
                None => match stray(function.closure, self.environment.scopes.len() as int, 0) {
                    Some(id) => self.fail(RuntimeErrorView::ScopeDepth(id)),
                    None => MachineView {
                        environment: bound_parameters(
                            self.environment.entered(function.closure),
                            function.params,
                            arguments,
                            0,
                        ),
                        tasks: self.tasks.push(
                            TaskView::EndCall(self.environment.chain, self.values.len() as usize),
                        ) + reversed_executes(function.body),
                        values: self.values,
                        home: self.home,
                    }.go(),
                },
            }
        }
    }

    /// A call with `count` arguments: they are the top values, and what is
    /// called lies below them. Only a function can be called, and only with
    /// as many arguments as it has parameters.
    pub open spec fn call(self, count: usize) -> Step {
        if self.values.len() < count + 1 {
            self.fail(RuntimeErrorView::MissingOperand)
        } else {
            let base = self.values.len() - count - 1;
            let rest = self.with_values(self.values.take(base));
            let arguments = self.values.subrange(base + 1, self.values.len() as int);
            match self.values[base] {
                ObjectView::Function(function) => rest.invoke(function, arguments),
                ObjectView::Builtin(_) => {
                    if count == 0 {
                        rest.ask(ActionView::Clock)
                    } else {
                        rest.fail(RuntimeErrorView::Arity { expected: 0, found: count })
                    }
                },
                _ => rest.fail(RuntimeErrorView::NotCallable),
            }
        }
    }

    /// The evaluation of `expression`: a literal, a variable or a grouping is
    /// dealt with at once; any other is taken apart into tasks, its operands
    /// first and from left to right.
    pub open spec fn evaluate(self, expression: ExprView) -> Step {
        match expression {
            ExprView::Literal(LiteralView::Nil) => self.push_value(ObjectView::Nil).go(),
            ExprView::Literal(LiteralView::Boolean(b)) => self.push_value(
                ObjectView::Boolean(b),
            ).go(),
            ExprView::Literal(LiteralView::String(s)) => self.push_value(ObjectView::String(s)).go(),
            ExprView::Literal(LiteralView::Number(digits)) => self.ask(ActionView::Convert(digits)),
            ExprView::Grouping { grouping } => self.push_task(TaskView::Evaluate(*grouping)).go(),
            ExprView::Variable(name) => match name.lexeme {
                Some(text) => match self.environment.lookup(text) {
                    Some(value) => self.push_value(value).go(),
                    None => self.fail(RuntimeErrorView::UndefinedVariable(text)),
                },
                None => self.fail(RuntimeErrorView::UnexpectedToken(name)),
            },
            ExprView::Assign { name, value } => self.push_task(TaskView::Assign(name)).push_task(
                TaskView::Evaluate(*value),
            ).go(),
            ExprView::Unary { operator, right } => self.push_task(
                TaskView::Unary(operator),
            ).push_task(TaskView::Evaluate(*right)).go(),
            ExprView::Binary { left, operator, right } => self.push_task(
                TaskView::Binary(operator),
            ).push_task(TaskView::Evaluate(*right)).push_task(TaskView::Evaluate(*left)).go(),
            ExprView::Logical { left, operator, right } => self.push_task(
                TaskView::Logical(operator, *right),
            ).push_task(TaskView::Evaluate(*left)).go(),
            ExprView::Call { callee, paren, arguments } => self.with_tasks(
                self.tasks.push(TaskView::Call(paren, arguments.len() as usize))
                    + reversed_evaluates(arguments),
            ).push_task(TaskView::Evaluate(*callee)).go(),
        }
    }

    /// The execution of `statement`: a declaration without initializer, a
    /// function declaration and a bare `return` are dealt with at once; any
    /// other statement is taken apart into tasks. A function captures the
    /// scopes that are in sight where it is declared.
    pub open spec fn execute(self, statement: StmtView) -> Step {
        match statement {
            StmtView::Expression(e) => self.push_task(TaskView::Discard).push_task(
                TaskView::Evaluate(e),
            ).go(),
            StmtView::Print(e) => self.push_task(TaskView::Print).push_task(
                TaskView::Evaluate(e),
            ).go(),
            StmtView::Var { name, initializer } => match initializer {
                Some(e) => self.push_task(TaskView::Define(name)).push_task(
                    TaskView::Evaluate(e),
                ).go(),
                None => self.define(name, ObjectView::Nil),
            },
            StmtView::Block(statements) => self.with_environment(
                self.environment.pushed(),
            ).with_tasks(self.tasks.push(TaskView::EndScope) + reversed_executes(statements)).go(),
            StmtView::If { condition, then, els } => self.push_task(
                TaskView::Branch(
                    *then,
                    match els {
                        Some(s) => Some(*s),
                        None => None,
                    },
                ),
            ).push_task(TaskView::Evaluate(condition)).go(),
            StmtView::While { condition, body } => self.push_task(
                TaskView::Loop(condition, *body),
            ).push_task(TaskView::Evaluate(condition)).go(),
            StmtView::Function { name, params, body } => if params.len() > max_arity() {
                self.fail(RuntimeErrorView::TooManyParameters(name))
            } else {
                self.with_environment(self.environment.capturing()).define(
                    name,
                    ObjectView::Function(
                        FunctionView { name, params, body, closure: self.environment.chain },
                    ),
                )
            },
            StmtView::Return { token, value } => match value {
                Some(e) => self.push_task(TaskView::Return).push_task(TaskView::Evaluate(e)).go(),
                None => self.unwind(ReturnView::Bare),
            },
        }
    }

    /// What a task makes of the value on top, `value`; the machine is the
    /// one without that value.
    pub open spec fn apply(self, task: TaskView, value: ObjectView) -> Step {
        match task {
            TaskView::Discard => self.go(),
            TaskView::Print => self.ask(ActionView::Print(printed(value))),
            TaskView::Define(name) => self.define(name, value),
            TaskView::Assign(name) => match name.lexeme {
                Some(text) => match self.environment.assigned(text, value) {
                    Some(environment) => self.with_environment(environment).push_value(value).go(),
                    None => self.fail(RuntimeErrorView::UndefinedVariable(text)),
                },
                None => self.fail(RuntimeErrorView::UnexpectedToken(name)),
            },
            TaskView::Unary(operator) => match applied_unary(operator.kind, value) {
                Ok(result) => self.push_value(result).go(),
                Err(error) => self.fail(RuntimeErrorView::Evaluation(error)),
            },
            TaskView::Binary(operator) => {
                if self.values.len() == 0 {
                    self.fail(RuntimeErrorView::MissingOperand)
                } else {
                    match applied(operator.kind, self.values.last(), value) {
                        Ok(AppliedView::Value(result)) => self.pop_value().push_value(result).go(),
                        Ok(AppliedView::Compute(operation, left, right)) => self.pop_value().ask(
                            ActionView::Compute(operation, left, right),
                        ),
                        Err(error) => self.fail(RuntimeErrorView::Evaluation(error)),
                    }
                }
            },
            TaskView::Logical(operator, right) => {
                if (operator.kind == TokenTypeDiscriminants::Or) == truthy(value) {
                    self.push_value(value).go()
                } else {
                    self.push_task(TaskView::Evaluate(right)).go()
                }
            },
            TaskView::Branch(then, els) => {
                if truthy(value) {
                    self.push_task(TaskView::Execute(then)).go()
                } else {
                    match els {
                        Some(s) => self.push_task(TaskView::Execute(s)).go(),
                        None => self.go(),
                    }
                }
            },
            TaskView::Loop(condition, body) => {
                if truthy(value) {
                    self.push_task(TaskView::Loop(condition, body)).push_task(
                        TaskView::Evaluate(condition),
                    ).push_task(TaskView::Execute(body)).go()
                } else {
                    self.go()
                }
            },
            TaskView::Return => self.unwind(ReturnView::Value(value)),
            _ => self.go(),
        }
    }

    /// One step: the last task is taken and done.
    pub open spec fn step(self) -> Step {
        if self.tasks.len() == 0 {
            self.ask(ActionView::Finished)
        } else {
            let task = self.tasks.last();
            let rest = self.pop_task();
            match task {
                TaskView::Execute(statement) => rest.execute(statement),
                TaskView::Evaluate(expression) => rest.evaluate(expression),
                TaskView::EndScope => rest.with_environment(rest.environment.popped()).go(),
                TaskView::EndCall(chain, height) => rest.end_call(chain, height, ReturnView::Nothing),
                TaskView::Call(paren, count) => rest.call(count),
                _ => {
                    if rest.values.len() == 0 {
                        rest.fail(RuntimeErrorView::MissingOperand)
                    } else {
                        rest.pop_value().apply(task, rest.values.last())
                    }
                },
            }
        }
    }

    /// Steps until the host is asked or told something, `budget` steps at
    /// most.
    pub open spec fn run(self, budget: nat) -> Step
        decreases budget,
    {
        if self.tasks.len() == 0 {
            self.ask(ActionView::Finished)
        } else if budget == 0 {
            self.ask(ActionView::Paused)
        } else {
            let step = self.step();
            match step.action {
                Some(_) => step,
                None => step.after.run((budget - 1) as nat),
            }
        }
    }
}

/// Without a nameless parameter, every parameter has its text.
pub proof fn lemma_all_named(params: Seq<TokenView>, from: int)
    requires
        0 <= from,
        nameless(params, from) is None,
    ensures
        forall|i: int| from <= i < params.len() ==> (#[trigger] params[i]).lexeme is Some,
    decreases params.len() - from,
{
    if from < params.len() {
        lemma_all_named(params, from + 1);
    }
}

/// Binding parameters leaves every name that is no parameter as it was, and
/// the scopes in sight as they were.
pub proof fn lemma_bound_parameters_elsewhere(
    e: EnvironmentView,
    params: Seq<TokenView>,
    arguments: Seq<ObjectView>,
    from: int,
    other: Seq<char>,
)
    requires
        e.wf(),
        0 <= from,
        forall|i: int|
            from <= i < params.len() ==> (#[trigger] params[i]).lexeme is Some && params[i].lexeme
                != Some(other),
    ensures
        bound_parameters(e, params, arguments, from).lookup(other) == e.lookup(other),
        bound_parameters(e, params, arguments, from).chain == e.chain,
    decreases params.len() - from,
{
    if from < params.len() && from < arguments.len() {
        let name = params[from].lexeme->Some_0;
        assert(params[from].lexeme is Some && params[from].lexeme != Some(other));
        lemma_defined_keeps_others(e, name, arguments[from], other);
        lemma_bound_parameters_elsewhere(
            e.defined(name, arguments[from]),
            params,
            arguments,
            from + 1,
            other,
        );
    }
}

/// Unwinding never pauses and never finishes.
pub proof fn lemma_unwind_acts(m: MachineView, outcome: ReturnView)
    ensures
        m.unwind(outcome).action != Some(ActionView::Paused),
        m.unwind(outcome).action != Some(ActionView::Finished),
    decreases m.tasks.len(),
{
    if m.tasks.len() > 0 {
        match m.tasks.last() {
            TaskView::EndCall(chain, height) => {},
            _ => {
                lemma_unwind_acts(m.pop_task(), outcome);
            },
        }
    }
}

/// A step never pauses, and it finishes only where no task is left.
pub proof fn lemma_step_acts(m: MachineView)
    ensures
        m.step().action != Some(ActionView::Paused),
        m.tasks.len() > 0 ==> m.step().action != Some(ActionView::Finished),
{
    if m.tasks.len() > 0 {
        let rest = m.pop_task();
        lemma_unwind_acts(rest, ReturnView::Bare);
        if rest.values.len() > 0 {
            lemma_unwind_acts(rest.pop_value(), ReturnView::Value(rest.values.last()));
        }
    }
}

/// Pausing changes nothing: a machine that ran out of steps and is run
/// again does what it would have done with all the steps at once. So what a
/// program does never depends on how many steps the host allows at a time.
pub proof fn pausing_changes_nothing(m: MachineView, first: nat, second: nat)
    requires
        m.run(first).action == Some(ActionView::Paused),
    ensures
        m.run(first).after.run(second) == m.run(first + second),
    decreases first,
{
    if m.tasks.len() > 0 && first > 0 {
        lemma_step_acts(m);
        let step = m.step();
        assert(step.action is None);
        pausing_changes_nothing(step.after, (first - 1) as nat, second);
        assert(m.run(first + second) == step.after.run((first + second - 1) as nat));
    }
}

/// `print E;` has the value of `E` written: the statement becomes the
/// evaluation of `E` followed by the writing task, and the writing task
/// takes the value on top, whatever it is, and has the host write what
/// [`printed`] makes of it.
pub proof fn print_writes_the_value_of_its_expression(
    m: MachineView,
    expression: ExprView,
    value: ObjectView,
)
    ensures
        m.push_task(TaskView::Execute(StmtView::Print(expression))).step() == m.push_task(
            TaskView::Print,
        ).push_task(TaskView::Evaluate(expression)).go(),
        m.push_task(TaskView::Print).push_value(value).step() == m.ask(
            ActionView::Print(printed(value)),
        ),
{
    let first = m.push_task(TaskView::Execute(StmtView::Print(expression)));
    assert(first.pop_task().tasks =~= m.tasks);
    let second = m.push_task(TaskView::Print).push_value(value);
    assert(second.pop_task().tasks =~= m.tasks);
    assert(second.pop_task().pop_value().values =~= m.values);
}

/// A block runs in a scope of its own, which ends with it: the statement
/// opens a scope and leaves, under the tasks of its statements, the task
/// that ends the scope; and that task takes the innermost scope out of
/// sight.
pub proof fn block_runs_in_its_own_scope(m: MachineView, statements: Seq<StmtView>)
    requires
        m.wf(),
        m.environment.scopes.len() < usize::MAX,
    ensures
        m.push_task(TaskView::Execute(StmtView::Block(statements))).step() == m.with_environment(
            m.environment.pushed(),
        ).with_tasks(m.tasks.push(TaskView::EndScope) + reversed_executes(statements)).go(),
        m.with_environment(m.environment.pushed()).push_task(TaskView::EndScope).step().after.environment.chain
            == m.environment.chain,
{
    let first = m.push_task(TaskView::Execute(StmtView::Block(statements)));
    assert(first.pop_task().tasks =~= m.tasks);
    let second = m.with_environment(m.environment.pushed()).push_task(TaskView::EndScope);
    assert(second.pop_task().tasks =~= m.tasks);
    let inside = m.environment.pushed();
    let outside = inside.seeing(inside.chain.drop_last());
    assert(outside.chain =~= m.environment.chain);
    lemma_released(outside);
}

/// A function sees the scopes in which it was declared. Declaring it
/// captures the scopes in sight; and in the environment in which the body of
/// a call runs, a name that is no parameter has the value that the captured
/// scopes give it, whatever is in sight where the call is made.
pub proof fn call_runs_in_the_captured_scopes(
    m: MachineView,
    function: FunctionView,
    arguments: Seq<ObjectView>,
    name: Seq<char>,
)
    requires
        m.wf(),
        m.environment.scopes.len() < usize::MAX,
        function.params.len() == arguments.len(),
        nameless(function.params, 0) is None,
        stray(function.closure, m.environment.scopes.len() as int, 0) is None,
        function.closure.len() > 0,
        forall|i: int|
            0 <= i < function.params.len() ==> (#[trigger] function.params[i]).lexeme != Some(name),
    ensures
        m.invoke(function, arguments).action is None,
        m.invoke(function, arguments).after.environment.lookup(name) == m.environment.seeing(
            function.closure,
        ).lookup(name),
        m.invoke(function, arguments).after.environment.chain == function.closure.push(
            m.environment.scopes.len() as usize,
        ),
{
    lemma_no_stray(function.closure, m.environment.scopes.len() as int, 0);
    lemma_all_named(function.params, 0);
    call_sees_captured_scopes(m.environment, function.closure, name);
    lemma_bound_parameters_elsewhere(
        m.environment.entered(function.closure),
        function.params,
        arguments,
        0,
        name,
    );
}

/// Declaring a function captures the scopes that are in sight.
pub proof fn declaration_captures_the_scopes_in_sight(
    m: MachineView,
    name: TokenView,
    params: Seq<TokenView>,
    body: Seq<StmtView>,
)
    requires
        name.lexeme is Some,
        params.len() <= max_arity(),
    ensures
        m.push_task(TaskView::Execute(StmtView::Function { name, params, body })).step()
            == m.with_environment(
            m.environment.capturing().defined(
                name.lexeme->Some_0,
                ObjectView::Function(
                    FunctionView { name, params, body, closure: m.environment.chain },
                ),
            ),
        ).go(),
{
    let first = m.push_task(TaskView::Execute(StmtView::Function { name, params, body }));
    assert(first.pop_task().tasks =~= m.tasks);
}

/// `or` and `and` short-circuit: where the left operand decides, the right
/// one is never evaluated. The left operand is on top; the step leaves it
/// there as the value of the whole and adds no task.
pub proof fn logical_operator_skips_its_right_operand(
    m: MachineView,
    operator: TokenView,
    right: ExprView,
    left: ObjectView,
)
    requires
        (operator.kind == TokenTypeDiscriminants::Or) == truthy(left),
    ensures
        m.push_task(TaskView::Logical(operator, right)).push_value(left).step() == m.push_value(
            left,
        ).go(),
{
    let first = m.push_task(TaskView::Logical(operator, right)).push_value(left);
    assert(first.pop_task().tasks =~= m.tasks);
    assert(first.pop_task().pop_value().values =~= m.values);
}

/// Where the left operand of `or` or `and` does not decide, the right one
/// is evaluated in its place.
pub proof fn logical_operator_goes_on_to_its_right_operand(
    m: MachineView,
    operator: TokenView,
    right: ExprView,
    left: ObjectView,
)
    requires
        (operator.kind == TokenTypeDiscriminants::Or) != truthy(left),
    ensures
        m.push_task(TaskView::Logical(operator, right)).push_value(left).step() == m.push_task(
            TaskView::Evaluate(right),
        ).go(),
{
    let first = m.push_task(TaskView::Logical(operator, right)).push_value(left);
    assert(first.pop_task().tasks =~= m.tasks);
    assert(first.pop_task().pop_value().values =~= m.values);
}

/// A call with the wrong number of arguments fails: where a function lies
/// under `count` arguments and has another number of parameters, the step
/// fails with both numbers, and nothing of the function runs.
pub proof fn call_with_wrong_argument_count_fails(
    m: MachineView,
    paren: TokenView,
    function: FunctionView,
    arguments: Seq<ObjectView>,
)
    requires
        function.params.len() != arguments.len(),
        arguments.len() < usize::MAX,
    ensures
        m.push_task(TaskView::Call(paren, arguments.len() as usize)).with_values(
            m.values.push(ObjectView::Function(function)) + arguments,
        ).step() == m.fail(
            RuntimeErrorView::Arity {
                expected: function.params.len() as usize,
                found: arguments.len() as usize,
            },
        ),
{
    let values = m.values.push(ObjectView::Function(function)) + arguments;
    let first = m.push_task(TaskView::Call(paren, arguments.len() as usize)).with_values(values);
    let rest = first.pop_task();
    assert(rest.tasks =~= m.tasks);
    let base = values.len() - arguments.len() - 1;
    assert(base == m.values.len());
    assert(values[base] == ObjectView::Function(function));
    assert(values.subrange(base + 1, values.len() as int) =~= arguments);
    assert(values.take(base) =~= m.values);
}

/// The first parameter without text, if there is one.
fn first_nameless(params: &Vec<Token>) -> (r: Option<usize>)
    ensures
        match r {
            Some(i) => i < params.len() && nameless(token_views(params@), 0) == Some(params[i as int]@),
            None => nameless(token_views(params@), 0) is None && forall|i: int|
                0 <= i < params.len() ==> (#[trigger] params[i]).lexeme is Some,
        },
{
    let mut i: usize = 0;
    while i < params.len()
        invariant
            i <= params.len(),
            nameless(token_views(params@), 0) == nameless(token_views(params@), i as int),
            forall|k: int| 0 <= k < i ==> (#[trigger] params[k]).lexeme is Some,
        decreases params.len() - i,
    {
        if params[i].lexeme.is_none() {
            return Some(i);
        }
        i += 1;
    }
    None
}

/// The tree-walking evaluator, as a machine that the host drives: the host
/// has the machine run until it asks for something, does what is asked, and
/// has it run again with the answer. What a program does lies in the steps
/// of the machine; the host writes lines, does arithmetic on doubles and
/// reads the clock.
#[derive(Debug)]
pub struct Interpreter {
    environment: Environment,
    tasks: Vec<Task>,
    values: Vec<Object>,
    home: Vec<usize>,
}

impl View for Interpreter {
    type V = MachineView;

    closed spec fn view(&self) -> MachineView {
        MachineView {
            environment: self.environment@,
            tasks: task_views(self.tasks@),
            values: object_views(self.values@),
            home: self.home@,
        }
    }
}

impl Interpreter {
    /// The scopes are sound, and those in which the program began are held
    /// for good: see [`anchored`].
    pub closed spec fn wf(&self) -> bool {
        self.environment.wf() && anchored(self@)
    }

    /// The scopes are sound.
    pub closed spec fn sound(&self) -> bool {
        self.environment.wf()
    }

    /// The machine is the one after `step`, its scopes are sound, and `r` is
    /// what `step` asks.
    pub open spec fn took(&self, step: Step, r: Option<Action>) -> bool {
        &&& self.sound()
        &&& self@ == step.after
        &&& match step.action {
            Some(action) => r is Some && r->Some_0@ == action,
            None => r is None,
        }
    }

    /// What `wf` says of the view.
    pub proof fn lemma_wf(&self)
        requires
            self.wf(),
        ensures
            self@.wf(),
            anchored(self@),
    {
        self.environment.lemma_wf();
    }

    /// A machine with nothing to do, whose global scope binds `clock` to the
    /// built-in function of that name. The global scope is held for good.
    pub fn new() -> (r: Interpreter)
        ensures
            r.wf(),
            r@ == MachineView::fresh(),
    {
        let mut globals = Environment::new();
        globals.define("clock".to_owned(), Object::Builtin(Clock));
        let ghost defined = globals@;
        let home = globals.capture();
        let r = Interpreter { environment: globals, tasks: Vec::new(), values: Vec::new(), home };
        proof {
            reveal_with_fuel(EnvironmentView::marked, 2);
            assert(defined.chain =~= seq![0usize]);
            assert(r@.environment.captured =~= seq![true]);
            assert(r@.environment.scopes =~= seq![
                Map::<Seq<char>, ObjectView>::empty().insert("clock"@, ObjectView::Builtin(Clock)),
            ]);
            assert(r@.tasks =~= Seq::<TaskView>::empty());
            assert(r@.values =~= Seq::<ObjectView>::empty());
            assert(r@.home =~= seq![0usize]);
        }
        r
    }

    /// A machine with nothing to do in the environment `e`, whose scopes in
    /// sight are held for good.
    pub fn with_environment(&self, e: Environment) -> (r: Interpreter)
        requires
            e.wf(),
        ensures
            r.wf(),
            r@ == (MachineView {
                environment: e@.capturing(),
                tasks: Seq::empty(),
                values: Seq::empty(),
                home: e@.chain,
            }),
    {
        let mut e = e;
        let ghost given = e@;
        proof {
            e.lemma_wf();
        }
        let home = e.capture();
        let r = Interpreter { environment: e, tasks: Vec::new(), values: Vec::new(), home };
        proof {
            let empty = MachineView {
                environment: given,
                tasks: Seq::empty(),
                values: Seq::empty(),
                home: given.chain,
            };
            a_program_begins_anchored(empty, Seq::empty());
            assert(empty.loaded(Seq::empty()).environment == r@.environment);
            assert(r@.tasks =~= Seq::<TaskView>::empty());
            assert(r@.values =~= Seq::<ObjectView>::empty());
        }
        r
    }

    /// The scopes of the machine.
    pub fn environment(&self) -> (r: &Environment)
        requires
            self.wf(),
        ensures
            r.wf(),
            r@ == self@.environment,
    {
        &self.environment
    }

    /// Gives the machine a program to run. The scopes in sight now are those
    /// that come back in sight if the program fails.
    pub fn interpret(&mut self, statements: Vec<Stmt>)
        requires
            old(self).wf(),
        ensures
            final(self).wf(),
            final(self)@ == old(self)@.loaded(stmt_views(statements@)),
    {
        let ghost all = stmt_views(statements@);
        let mut statements = statements;
        proof {
            self.lemma_wf();
            a_program_begins_anchored(old(self)@, all);
        }
        self.home = self.environment.capture();
        let height = self.values.len();
        proof {
            assert(all.skip(all.len() as int) =~= Seq::<StmtView>::empty());
            assert(self@.tasks =~= old(self)@.tasks + program_tasks(
                all.skip(all.len() as int),
                self@.home,
                height,
            ));
        }
        while statements.len() > 0
            invariant
                self.wf(),
                statements.len() <= all.len(),
                stmt_views(statements@) == all.take(statements.len() as int),
                self.environment@ == old(self)@.environment.capturing(),
                self.values == old(self).values,
                self.home@ == old(self)@.environment.chain,
                height == old(self)@.values.len(),
                task_views(self.tasks@) == old(self)@.tasks + program_tasks(
                    all.skip(statements.len() as int),
                    self.home@,
                    height,
                ),
            decreases statements.len(),
        {
            let ghost k = statements.len() as int;
            let ghost before = task_views(self.tasks@);
            let ghost prior = statements@;
            let statement = statements.pop().unwrap();
            let home = copy_chain(&self.home);
            self.tasks.push(Task::Discard);
            self.tasks.push(Task::EndCall(home, height));
            self.tasks.push(Task::Execute(statement));
            proof {
                assert(stmt_views(prior)[k - 1] == prior[k - 1]@);
                assert(all.take(k)[k - 1] == all[k - 1]);
                assert(statement@ == all[k - 1]);
                assert(all.skip(k - 1).drop_first() =~= all.skip(k));
                assert(all.skip(k - 1)[0] == all[k - 1]);
                assert(stmt_views(statements@) =~= all.take(k - 1));
                assert(task_views(self.tasks@) =~= before + seq![
                    TaskView::Discard,
                    TaskView::EndCall(self.home@, height),
                    TaskView::Execute(statement@),
                ]);
                assert(task_views(self.tasks@) =~= old(self)@.tasks + program_tasks(
                    all.skip(k - 1),
                    self.home@,
                    height,
                ));
            }
        }
        proof {
            assert(all.skip(0) =~= all);
        }
    }

    /// Has the statements run, in order, in the scopes in sight, up to the
    /// first that returns or fails. When they have run, the scopes in sight
    /// now are in sight again, whatever blocks a `return` left open, and the
    /// outcome lies on top of the values that there are now: see
    /// [`MachineView::scheduled`].
    pub fn execute_block(&mut self, statements: &Vec<Stmt>)
        requires
            old(self).wf(),
        ensures
            final(self).wf(),
            final(self)@ == old(self)@.scheduled(stmt_views(statements@)),
    {
        let copies = duplicate_stmts(statements);
        let chain = self.environment.chain();
        let height = self.values.len();
        self.push_task(Task::EndCall(chain, height));
        self.schedule(copies);
    }

    /// Runs the machine until it asks or tells the host something, `budget`
    /// steps at most. `reply` is the answer to what the machine asked last,
    /// where that has an answer: it becomes the top value.
    pub fn resume(&mut self, reply: Option<u64>, budget: usize) -> (r: Action)
        requires
            old(self).wf(),
        ensures
            final(self).wf(),
            final(self)@ == old(self)@.answered(reply).run(budget as nat).after,
            Some(r@) == old(self)@.answered(reply).run(budget as nat).action,
    {
        match reply {
            Some(bits) => {
                self.push_value(Object::Number(bits));
            },
            None => {},
        }
        assert(self.wf());
        let mut left = budget;
        loop
            invariant
                self.wf(),
                old(self)@.answered(reply).run(budget as nat) == self@.run(left as nat),
            decreases left,
        {
            if self.tasks.len() == 0 {
                return Action::Finished;
            }
            if left == 0 {
                return Action::Paused;
            }
            match self.step() {
                Some(action) => {
                    return action;
                },
                None => {
                    left -= 1;
                },
            }
        }
    }

    /// Takes the last task and does it.
    pub fn step(&mut self) -> (r: Option<Action>)
        requires
            old(self).wf(),
        ensures
            final(self).wf(),
            final(self).took(old(self)@.step(), r),
    {
        let r = self.advance();
        proof {
            old(self).lemma_wf();
            self.environment.lemma_wf();
            the_starting_scopes_outlast_every_step(old(self)@);
        }
        r
    }

    /// Takes the last task and does it: see [`MachineView::step`].
    fn advance(&mut self) -> (r: Option<Action>)
        requires
            old(self).sound(),
        ensures
            final(self).took(old(self)@.step(), r),
    {
        match self.pop_task() {
            None => Some(Action::Finished),
            Some(task) => match task {
                Task::Execute(statement) => self.execute(statement),
                Task::Evaluate(expression) => self.evaluate(expression),
                Task::EndScope => {
                    self.environment.end_scope();
                    None
                },
                Task::EndCall(chain, height) => self.end_call(chain, height, Return::Nothing),
                Task::Call(paren, count) => self.call(count),
                other => match self.pop_value() {
                    None => self.fail(RuntimeError::MissingOperand),
                    Some(value) => self.apply(other, value),
                },
            },
        }
    }

    /// Runs a statement: see [`MachineView::execute`].
    fn execute(&mut self, statement: Stmt) -> (r: Option<Action>)
        requires
            old(self).sound(),
        ensures
            final(self).took(old(self)@.execute(statement@), r),
    {
        match statement {
            Stmt::Expression(e) => {
                self.push_task(Task::Discard);
                self.push_task(Task::Evaluate(*e));
                None
            },
            Stmt::Print(e) => {
                self.push_task(Task::Print);
                self.push_task(Task::Evaluate(*e));
                None
            },
            Stmt::Var { name, initializer } => match initializer {
                Some(e) => {
                    self.push_task(Task::Define(name));
                    self.push_task(Task::Evaluate(e));
                    None
                },
                None => self.define(name, Object::Nil),
            },
            Stmt::Block(statements) => {
                proof {
                    lemma_block_view(statements);
                }
                self.environment.new_scope();
                self.push_task(Task::EndScope);
                self.schedule(statements);
                None
            },
            Stmt::If { condition, then, els } => {
                let otherwise = match els {
                    Some(s) => Some(*s),
                    None => None,
                };
                self.push_task(Task::Branch(*then, otherwise));
                self.push_task(Task::Evaluate(condition));
                None
            },
            Stmt::While { condition, body } => {
                let again = condition.duplicate();
                self.push_task(Task::Loop(again, *body));
                self.push_task(Task::Evaluate(condition));
                None
            },
            Stmt::Function { name, params, body } => {
                proof {
                    lemma_function_view(name, params, body);
                }
                if params.len() > 255 {
                    return self.fail(RuntimeError::TooManyParameters(name));
                }
                let closure = self.environment.capture();
                let function = Function::new(name.duplicate(), params, body, closure);
                self.define(name, Object::Function(Rc::new(function)))
            },
            Stmt::Return { token, value } => match value {
                Some(e) => {
                    self.push_task(Task::Return);
                    self.push_task(Task::Evaluate(e));
                    None
                },
                None => self.unwind(Return::Bare),
            },
        }
    }

    /// Evaluates an expression: see [`MachineView::evaluate`].
    fn evaluate(&mut self, expression: Expr) -> (r: Option<Action>)
        requires
            old(self).sound(),
        ensures
            final(self).took(old(self)@.evaluate(expression@), r),
    {
        match expression {
            Expr::Literal(literal) => match literal {
                Literal::Nil => {
                    self.push_value(Object::Nil);
                    None
                },
                Literal::Boolean(b) => {
                    self.push_value(Object::Boolean(b));
                    None
                },
                Literal::String(s) => {
                    self.push_value(Object::String(s));
                    None
                },
                Literal::Number(digits) => Some(Action::Convert(digits)),
            },
            Expr::Grouping { grouping } => {
                self.push_task(Task::Evaluate(*grouping));
                None
            },
            Expr::Variable(name) => {
                let found = match &name.lexeme {
                    Some(text) => Some(self.environment.get(text.as_str())),
                    None => None,
                };
                match found {
                    Some(Ok(value)) => {
                        self.push_value(value);
                        None
                    },
                    Some(Err(error)) => self.fail(error),
                    None => self.fail(RuntimeError::UnexpectedToken(name)),
                }
            },
            Expr::Assign { name, value } => {
                self.push_task(Task::Assign(name));
                self.push_task(Task::Evaluate(*value));
                None
            },
            Expr::Unary { operator, right } => {
                self.push_task(Task::Unary(operator));
                self.push_task(Task::Evaluate(*right));
                None
            },
            Expr::Binary { left, operator, right } => {
                self.push_task(Task::Binary(operator));
                self.push_task(Task::Evaluate(*right));
                self.push_task(Task::Evaluate(*left));
                None
            },
            Expr::Logical { left, operator, right } => {
                self.push_task(Task::Logical(operator, *right));
                self.push_task(Task::Evaluate(*left));
                None
            },
            Expr::Call { callee, paren, arguments } => {
                proof {
                    lemma_call_view(*callee, paren, arguments);
                }
                self.push_task(Task::Call(paren, arguments.len()));
                self.schedule_arguments(arguments);
                self.push_task(Task::Evaluate(*callee));
                None
            },
        }
    }

    /// Does a task that takes the top value: see [`MachineView::apply`].
    fn apply(&mut self, task: Task, value: Object) -> (r: Option<Action>)
        requires
            old(self).sound(),
        ensures
            final(self).took(old(self)@.apply(task@, value@), r),
    {
        match task {
            Task::Discard => None,
            Task::Print => Some(Action::Print(value.printed())),
            Task::Define(name) => self.define(name, value),
            Task::Assign(name) => {
                let assigned = match &name.lexeme {
                    Some(text) => Some(self.environment.assign(text.clone(), value.duplicate())),
                    None => None,
                };
                match assigned {
                    Some(Ok(())) => {
                        self.push_value(value);
                        None
                    },
                    Some(Err(error)) => self.fail(error),
                    None => self.fail(RuntimeError::UnexpectedToken(name)),
                }
            },
            Task::Unary(operator) => match value.unary(operator.kind()) {
                Ok(result) => {
                    self.push_value(result);
                    None
                },
                Err(error) => self.fail(RuntimeError::Evaluation(error)),
            },
            Task::Binary(operator) => match self.pop_value() {
                None => self.fail(RuntimeError::MissingOperand),
                Some(left) => match left.binary(operator.kind(), &value) {
                    Ok(Applied::Value(result)) => {
                        self.push_value(result);
                        None
                    },
                    Ok(Applied::Compute(operation, a, b)) => Some(
                        Action::Compute(operation, a, b),
                    ),
                    Err(error) => self.fail(RuntimeError::Evaluation(error)),
                },
            },
            Task::Logical(operator, right) => {
                if (operator.kind() == TokenTypeDiscriminants::Or) == value.is_truthy() {
                    self.push_value(value);
                } else {
                    self.push_task(Task::Evaluate(right));
                }
                None
            },
            Task::Branch(then, els) => {
                if value.is_truthy() {
                    self.push_task(Task::Execute(then));
                } else {
                    match els {
                        Some(s) => {
                            self.push_task(Task::Execute(s));
                        },
                        None => {},
                    }
                }
                None
            },
            Task::Loop(condition, body) => {
                if value.is_truthy() {
                    let again = condition.duplicate();
                    let repeated = body.duplicate();
                    self.push_task(Task::Loop(condition, body));
                    self.push_task(Task::Evaluate(again));
                    self.push_task(Task::Execute(repeated));
                }
                None
            },
            Task::Return => self.unwind(Return::Value(value)),
            _ => None,
        }
    }

    /// Calls what lies below the top `count` values: see
    /// [`MachineView::call`].
    fn call(&mut self, count: usize) -> (r: Option<Action>)
        requires
            old(self).sound(),
        ensures
            final(self).took(old(self)@.call(count), r),
    {
        if count >= self.values.len() {
            return self.fail(RuntimeError::MissingOperand);
        }
        let base = self.values.len() - count - 1;
        let arguments = self.values.split_off(base + 1);
        let callee = self.values.pop();
        proof {
            assert(object_views(self.values@) =~= old(self)@.values.take(base as int));
            assert(object_views(arguments@) =~= old(self)@.values.subrange(
                base + 1,
                old(self)@.values.len() as int,
            ));
        }
        match callee {
            Some(Object::Function(function)) => self.invoke(function, arguments),
            Some(Object::Builtin(_)) => {
                if count == 0 {
                    Some(Action::Clock)
                } else {
                    self.fail(RuntimeError::Arity { expected: 0, found: count })
                }
            },
            _ => self.fail(RuntimeError::NotCallable),
        }
    }

    /// Calls a function: see [`MachineView::invoke`].
    fn invoke(&mut self, function: Rc<Function>, arguments: Vec<Object>) -> (r: Option<Action>)
        requires
            old(self).sound(),
        ensures
            final(self).took(old(self)@.invoke((*function)@, object_views(arguments@)), r),
    {
        let params = function.params();
        if params.len() != arguments.len() {
            return self.fail(
                RuntimeError::Arity { expected: params.len(), found: arguments.len() },
            );
        }
        match first_nameless(params) {
            Some(i) => {
                return self.fail(RuntimeError::UnexpectedToken(params[i].duplicate()));
            },
            None => {},
        }
        let saved = match self.environment.enter(function.closure()) {
            Ok(chain) => chain,
            Err(error) => {
                return self.fail(error);
            },
        };
        let mut i: usize = 0;
        while i < params.len()
            invariant
                self.sound(),
                i <= params.len(),
                params.len() == arguments.len(),
                token_views(params@) == (*function)@.params,
                forall|k: int| 0 <= k < params.len() ==> (#[trigger] params[k]).lexeme is Some,
                self.tasks == old(self).tasks,
                self.values == old(self).values,
                self.home == old(self).home,
                bound_parameters(
                    old(self)@.environment.entered((*function)@.closure),
                    (*function)@.params,
                    object_views(arguments@),
                    0,
                ) == bound_parameters(
                    self.environment@,
                    (*function)@.params,
                    object_views(arguments@),
                    i as int,
                ),
            decreases params.len() - i,
        {
            let name = match &params[i].lexeme {
                Some(text) => text.clone(),
                None => String::new(),
            };
            self.environment.define(name, arguments[i].duplicate());
            i += 1;
        }
        let height = self.values.len();
        self.push_task(Task::EndCall(saved, height));
        self.schedule(duplicate_stmts(function.body()));
        None
    }

    /// Ends a call: see [`MachineView::end_call`].
    fn end_call(&mut self, chain: Vec<usize>, height: usize, outcome: Return) -> (r: Option<
        Action,
    >)
        requires
            old(self).sound(),
        ensures
            final(self).took(old(self)@.end_call(chain@, height, outcome@), r),
    {
        match self.environment.restore(chain) {
            Err(error) => self.fail(error),
            Ok(()) => {
                self.values.truncate(height);
                proof {
                    assert(object_views(self.values@) =~= cut_back(
                        old(self)@.values,
                        height as int,
                    ));
                }
                self.push_value(outcome.into_value());
                None
            },
        }
    }

    /// Returns from the call that runs: see [`MachineView::unwind`].
    fn unwind(&mut self, outcome: Return) -> (r: Option<Action>)
        requires
            old(self).sound(),
        ensures
            final(self).took(old(self)@.unwind(outcome@), r),
    {
        loop
            invariant
                self.sound(),
                old(self)@.unwind(outcome@) == self@.unwind(outcome@),
            decreases self.tasks.len(),
        {
            match self.pop_task() {
                None => {
                    return None;
                },
                Some(Task::EndCall(chain, height)) => {
                    return self.end_call(chain, height, outcome);
                },
                Some(_) => {},
            }
        }
    }

    /// Defines a name: see [`MachineView::define`].
    fn define(&mut self, name: Token, value: Object) -> (r: Option<Action>)
        requires
            old(self).sound(),
        ensures
            final(self).took(old(self)@.define(name@, value@), r),
    {
        let text = match &name.lexeme {
            Some(text) => Some(text.clone()),
            None => None,
        };
        match text {
            Some(text) => {
                self.environment.define(text, value);
                None
            },
            None => self.fail(RuntimeError::UnexpectedToken(name)),
        }
    }

    /// Gives up the program: see [`MachineView::fail`].
    fn fail(&mut self, error: RuntimeError) -> (r: Option<Action>)
        requires
            old(self).sound(),
        ensures
            final(self).took(old(self)@.fail(error@), r),
    {
        self.give_up();
        Some(Action::Failed(error))
    }

    /// Takes the value on top, if there is one: where the statements that
    /// [`Interpreter::execute_block`] had run are done with, it is their
    /// outcome.
    pub fn take_outcome(&mut self) -> (r: Option<Object>)
        requires
            old(self).wf(),
        ensures
            final(self).wf(),
            match r {
                Some(value) => old(self)@.values.len() > 0 && value@ == old(self)@.values.last()
                    && final(self)@ == old(self)@.pop_value(),
                None => old(self)@.values.len() == 0 && final(self)@ == old(self)@,
            },
    {
        self.pop_value()
    }

    /// Gives up the program that runs: no task and no value is left, and the
    /// scopes in which the program began are in sight again. The host does
    /// so where it cannot go on, as when it cannot write.
    pub fn abandon(&mut self)
        requires
            old(self).wf(),
        ensures
            final(self).wf(),
            final(self)@ == old(self)@.abandoned(),
    {
        self.give_up();
        proof {
            old(self).lemma_wf();
            a_failed_program_is_back_where_it_began(old(self)@, RuntimeErrorView::MissingOperand);
        }
    }

    /// Gives the program up: see [`MachineView::abandoned`].
    fn give_up(&mut self)
        requires
            old(self).sound(),
        ensures
            final(self).sound(),
            final(self)@ == old(self)@.abandoned(),
    {
        let home = copy_chain(&self.home);
        let _ = self.environment.restore(home);
        self.tasks = Vec::new();
        self.values = Vec::new();
        proof {
            assert(task_views(self.tasks@) =~= Seq::<TaskView>::empty());
            assert(object_views(self.values@) =~= Seq::<ObjectView>::empty());
        }
    }

    /// Adds the tasks that run `statements` in order.
    fn schedule(&mut self, statements: Vec<Stmt>)
        requires
            old(self).sound(),
        ensures
            final(self).sound(),
            final(self)@ == old(self)@.with_tasks(
                old(self)@.tasks + reversed_executes(stmt_views(statements@)),
            ),
    {
        let ghost all = stmt_views(statements@);
        let mut statements = statements;
        proof {
            assert(all.skip(all.len() as int) =~= Seq::<StmtView>::empty());
            assert(self@.tasks =~= old(self)@.tasks + reversed_executes(all.skip(all.len() as int)));
        }
        while statements.len() > 0
            invariant
                self.sound(),
                statements.len() <= all.len(),
                stmt_views(statements@) == all.take(statements.len() as int),
                self.environment == old(self).environment,
                self.values == old(self).values,
                self.home == old(self).home,
                task_views(self.tasks@) == old(self)@.tasks + reversed_executes(
                    all.skip(statements.len() as int),
                ),
            decreases statements.len(),
        {
            let ghost k = statements.len() as int;
            let ghost before = task_views(self.tasks@);
            let ghost prior = statements@;
            let statement = statements.pop().unwrap();
            self.tasks.push(Task::Execute(statement));
            proof {
                assert(stmt_views(prior)[k - 1] == prior[k - 1]@);
                assert(all.take(k)[k - 1] == all[k - 1]);
                assert(statement@ == all[k - 1]);
                assert(all.skip(k - 1).drop_first() =~= all.skip(k));
                assert(all.skip(k - 1)[0] == all[k - 1]);
                assert(stmt_views(statements@) =~= all.take(k - 1));
                assert(task_views(self.tasks@) =~= before.push(TaskView::Execute(statement@)));
                assert(task_views(self.tasks@) =~= old(self)@.tasks + reversed_executes(
                    all.skip(k - 1),
                ));
            }
        }
        proof {
            assert(all.skip(0) =~= all);
        }
    }

    /// Adds the tasks that evaluate `arguments` in order.
    fn schedule_arguments(&mut self, arguments: Vec<Expr>)
        requires
            old(self).sound(),
        ensures
            final(self).sound(),
            final(self)@ == old(self)@.with_tasks(
                old(self)@.tasks + reversed_evaluates(expr_views(arguments@)),
            ),
    {
        let ghost all = expr_views(arguments@);
        let mut arguments = arguments;
        proof {
            assert(all.skip(all.len() as int) =~= Seq::<ExprView>::empty());
            assert(self@.tasks =~= old(self)@.tasks + reversed_evaluates(
                all.skip(all.len() as int),
            ));
        }
        while arguments.len() > 0
            invariant
                self.sound(),
                arguments.len() <= all.len(),
                expr_views(arguments@) == all.take(arguments.len() as int),
                self.environment == old(self).environment,
                self.values == old(self).values,
                self.home == old(self).home,
                task_views(self.tasks@) == old(self)@.tasks + reversed_evaluates(
                    all.skip(arguments.len() as int),
                ),
            decreases arguments.len(),
        {
            let ghost k = arguments.len() as int;
            let ghost before = task_views(self.tasks@);
            let ghost prior = arguments@;
            let argument = arguments.pop().unwrap();
            self.tasks.push(Task::Evaluate(argument));
            proof {
                assert(expr_views(prior)[k - 1] == prior[k - 1]@);
                assert(all.take(k)[k - 1] == all[k - 1]);
                assert(argument@ == all[k - 1]);
                assert(all.skip(k - 1).drop_first() =~= all.skip(k));
                assert(all.skip(k - 1)[0] == all[k - 1]);
                assert(expr_views(arguments@) =~= all.take(k - 1));
                assert(task_views(self.tasks@) =~= before.push(TaskView::Evaluate(argument@)));
                assert(task_views(self.tasks@) =~= old(self)@.tasks + reversed_evaluates(
                    all.skip(k - 1),
                ));
            }
        }
        proof {
            assert(all.skip(0) =~= all);
        }
    }

    /// Adds a task; it is the next.
    fn push_task(&mut self, task: Task)
        requires
            old(self).sound(),
        ensures
            final(self).sound(),
            final(self)@ == old(self)@.push_task(task@),
    {
        self.tasks.push(task);
        proof {
            assert(task_views(self.tasks@) =~= task_views(old(self).tasks@).push(task@));
        }
    }

    /// Takes the next task, if there is one.
    fn pop_task(&mut self) -> (r: Option<Task>)
        requires
            old(self).sound(),
        ensures
            final(self).sound(),
            match r {
                Some(task) => old(self)@.tasks.len() > 0 && task@ == old(self)@.tasks.last()
                    && final(self)@ == old(self)@.pop_task(),
                None => old(self)@.tasks.len() == 0 && final(self)@ == old(self)@,
            },
    {
        let r = self.tasks.pop();
        proof {
            if r is Some {
                assert(task_views(self.tasks@) =~= task_views(old(self).tasks@).drop_last());
            }
        }
        r
    }

    /// Puts a value on top.
    fn push_value(&mut self, value: Object)
        requires
            old(self).sound(),
        ensures
            final(self).sound(),
            final(self)@ == old(self)@.push_value(value@),
    {
        self.values.push(value);
        proof {
            assert(object_views(self.values@) =~= object_views(old(self).values@).push(value@));
        }
    }

    /// Takes the top value, if there is one.
    fn pop_value(&mut self) -> (r: Option<Object>)
        requires
            old(self).sound(),
        ensures
            final(self).sound(),
            match r {
                Some(value) => old(self)@.values.len() > 0 && value@ == old(self)@.values.last()
                    && final(self)@ == old(self)@.pop_value(),
                None => old(self)@.values.len() == 0 && final(self)@ == old(self)@,
            },
    {
        let r = self.values.pop();
        proof {
            if r is Some {
                assert(object_views(self.values@) =~= object_views(old(self).values@).drop_last());
            }
        }
        r
    }
}

} // verus!
