use crate::ast::{ExprView, StmtView};
use crate::data_types::{FunctionView, ObjectView, ReturnView};
use crate::environment::{
    captured_scopes_are_held, lemma_no_stray, lemma_released, stray, EnvironmentView,
};
use crate::interpreter::{
    bound_parameters, reversed_evaluates, reversed_executes, ActionView, MachineView, Step,
    TaskView,
};
use crate::environment::lemma_holder_in_sight;
use crate::error::RuntimeErrorView;
use crate::token::TokenView;
use vstd::prelude::*;

verus! {

/// The scopes that a task leaves in sight where `chain` is in sight before
/// it: the end of a scope takes the innermost scope out of sight, the end of
/// a call brings back the scopes of the caller, and any other task, with all
/// that it leads to, leaves the scopes in sight as they are.
pub open spec fn chain_past(chain: Seq<usize>, task: TaskView) -> Seq<usize> {
    match task {
        TaskView::EndScope => if chain.len() > 1 {
            chain.drop_last()
        } else {
            chain
        },
        TaskView::EndCall(saved, _) => saved,
        _ => chain,
    }
}

/// The scopes that are in sight once the tasks `tasks` have run to their
/// end, the last of them first, where `chain` is in sight before.
pub open spec fn chain_after(chain: Seq<usize>, tasks: Seq<TaskView>) -> Seq<usize>
    decreases tasks.len(),
{
    if tasks.len() == 0 {
        chain
    } else {
        chain_after(chain_past(chain, tasks.last()), tasks.drop_last())
    }
}

/// Whether a task neither ends a scope nor a call.
pub open spec fn is_neutral(task: TaskView) -> bool {
    !(task is EndScope) && !(task is EndCall)
}

/// Tasks that are run after others leave in sight what the others leave to
/// them.
pub proof fn lemma_chain_after_both(chain: Seq<usize>, first: Seq<TaskView>, second: Seq<TaskView>)
    ensures
        chain_after(chain, first + second) == chain_after(chain_after(chain, second), first),
    decreases second.len(),
{
    if second.len() == 0 {
        assert(first + second =~= first);
    } else {
        assert((first + second).last() == second.last());
        assert((first + second).drop_last() =~= first + second.drop_last());
        lemma_chain_after_both(chain_past(chain, second.last()), first, second.drop_last());
    }
}

/// Neutral tasks leave the scopes in sight as they are.
pub proof fn lemma_chain_after_neutral(chain: Seq<usize>, tasks: Seq<TaskView>)
    requires
        forall|i: int| 0 <= i < tasks.len() ==> is_neutral(#[trigger] tasks[i]),
    ensures
        chain_after(chain, tasks) == chain,
    decreases tasks.len(),
{
    if tasks.len() > 0 {
        assert(is_neutral(tasks[tasks.len() - 1]));
        lemma_chain_after_neutral(chain, tasks.drop_last());
    }
}

/// The tasks that run statements are neutral.
pub proof fn lemma_executes_neutral(statements: Seq<StmtView>)
    ensures
        forall|i: int|
            0 <= i < reversed_executes(statements).len() ==> is_neutral(
                #[trigger] reversed_executes(statements)[i],
            ),
    decreases statements.len(),
{
    if statements.len() > 0 {
        lemma_executes_neutral(statements.drop_first());
        let rest = reversed_executes(statements.drop_first());
        assert forall|i: int| 0 <= i < reversed_executes(statements).len() implies is_neutral(
            #[trigger] reversed_executes(statements)[i],
        ) by {
            if i < rest.len() {
                assert(reversed_executes(statements)[i] == rest[i]);
            }
        }
    }
}

/// The tasks that evaluate expressions are neutral.
pub proof fn lemma_evaluates_neutral(expressions: Seq<ExprView>)
    ensures
        forall|i: int|
            0 <= i < reversed_evaluates(expressions).len() ==> is_neutral(
                #[trigger] reversed_evaluates(expressions)[i],
            ),
    decreases expressions.len(),
{
    if expressions.len() > 0 {
        lemma_evaluates_neutral(expressions.drop_first());
        let rest = reversed_evaluates(expressions.drop_first());
        assert forall|i: int| 0 <= i < reversed_evaluates(expressions).len() implies is_neutral(
            #[trigger] reversed_evaluates(expressions)[i],
        ) by {
            if i < rest.len() {
                assert(reversed_evaluates(expressions)[i] == rest[i]);
            }
        }
    }
}

/// Whether a step from a machine keeps to what its tasks promise. The
/// machine had the tasks `below` under those that count, `below.len()` of
/// them, and the tasks that count promised the scopes `goal` in sight at
/// their end. The step keeps to that if the program fails, or if the step
/// goes below the tasks that count, as a `return` does, or if the tasks
/// under those that count are as they were and those that count now promise
/// the same.
pub open spec fn keeps_course(step: Step, below: Seq<TaskView>, goal: Seq<usize>) -> bool {
    ||| step.action matches Some(ActionView::Failed(_))
    ||| step.after.tasks.len() < below.len()
    ||| on_course(step.after, below, goal)
}

/// Whether a machine has the tasks `below` under those that count, and those
/// that count promise the scopes `goal` in sight at their end.
pub open spec fn on_course(m: MachineView, below: Seq<TaskView>, goal: Seq<usize>) -> bool {
    &&& m.wf()
    &&& m.tasks.len() >= below.len()
    &&& m.tasks.take(below.len() as int) == below
    &&& chain_after(m.environment.chain, m.tasks.skip(below.len() as int)) == goal
}

/// A machine that is on course stays so with a neutral task more.
pub proof fn lemma_push_neutral(
    m: MachineView,
    task: TaskView,
    below: Seq<TaskView>,
    goal: Seq<usize>,
)
    requires
        on_course(m, below, goal),
        is_neutral(task),
    ensures
        on_course(m.push_task(task), below, goal),
{
    let base = below.len() as int;
    let after = m.push_task(task);
    assert(after.tasks.take(base) =~= m.tasks.take(base));
    assert(after.tasks.skip(base) =~= m.tasks.skip(base).push(task));
    assert(after.tasks.skip(base).drop_last() =~= m.tasks.skip(base));
}

/// A machine that is on course stays so with neutral tasks more.
pub proof fn lemma_push_neutrals(
    m: MachineView,
    tasks: Seq<TaskView>,
    below: Seq<TaskView>,
    goal: Seq<usize>,
)
    requires
        on_course(m, below, goal),
        forall|i: int| 0 <= i < tasks.len() ==> is_neutral(#[trigger] tasks[i]),
    ensures
        on_course(m.with_tasks(m.tasks + tasks), below, goal),
{
    let base = below.len() as int;
    let after = m.with_tasks(m.tasks + tasks);
    assert(after.tasks.take(base) =~= m.tasks.take(base));
    assert(after.tasks.skip(base) =~= m.tasks.skip(base) + tasks);
    lemma_chain_after_both(m.environment.chain, m.tasks.skip(base), tasks);
    lemma_chain_after_neutral(m.environment.chain, tasks);
}

/// A machine that is on course stays so whatever its values are, and
/// whatever its scopes hold, as long as the same scopes are in sight.
pub proof fn lemma_same_chain(
    m: MachineView,
    after: MachineView,
    below: Seq<TaskView>,
    goal: Seq<usize>,
)
    requires
        on_course(m, below, goal),
        after.wf(),
        after.tasks == m.tasks,
        after.environment.chain == m.environment.chain,
    ensures
        on_course(after, below, goal),
{
}

/// Binding a name in a scope that is held keeps the environment sound and
/// the same scopes in sight.
pub proof fn lemma_bound_sound(e: EnvironmentView, id: int, name: Seq<char>, value: ObjectView)
    requires
        e.wf(),
        0 <= id < e.scopes.len(),
    ensures
        e.bound(id, name, value).wf(),
        e.bound(id, name, value).chain == e.chain,
        e.bound(id, name, value).scopes.len() == e.scopes.len(),
{
}

/// Capturing the scopes in sight keeps as many flags as there are scopes.
pub proof fn lemma_marked_len(e: EnvironmentView, depth: int)
    ensures
        e.marked(depth).len() == e.captured.len(),
    decreases depth,
{
    if 0 < depth <= e.chain.len() {
        lemma_marked_len(e, depth - 1);
    }
}

/// Binding parameters keeps the environment sound and the same scopes in
/// sight.
pub proof fn lemma_bound_parameters_sound(
    e: EnvironmentView,
    params: Seq<TokenView>,
    arguments: Seq<ObjectView>,
    from: int,
)
    requires
        e.wf(),
    ensures
        bound_parameters(e, params, arguments, from).wf(),
        bound_parameters(e, params, arguments, from).chain == e.chain,
    decreases params.len() - from,
{
    if 0 <= from < params.len() && from < arguments.len() {
        let next = e.defined(params[from].lexeme->Some_0, arguments[from]);
        lemma_bound_sound(e, e.innermost(), params[from].lexeme->Some_0, arguments[from]);
        lemma_bound_parameters_sound(next, params, arguments, from + 1);
    }
}

/// Bringing scopes that are held in sight again keeps the environment
/// sound, and exactly those scopes are in sight.
pub proof fn lemma_restored_sound(e: EnvironmentView, chain: Seq<usize>)
    requires
        e.wf(),
        chain.len() > 0,
        stray(chain, e.scopes.len() as int, 0) is None,
    ensures
        e.restored(chain).wf(),
        e.restored(chain).chain == chain,
{
    lemma_no_stray(chain, e.scopes.len() as int, 0);
    lemma_released(e.seeing(chain));
}

/// Defining a name keeps a machine on course, unless the program fails.
pub proof fn lemma_define_keeps(
    m: MachineView,
    name: TokenView,
    value: ObjectView,
    below: Seq<TaskView>,
    goal: Seq<usize>,
)
    requires
        on_course(m, below, goal),
    ensures
        keeps_course(m.define(name, value), below, goal),
{
    if name.lexeme is Some {
        lemma_bound_sound(m.environment, m.environment.innermost(), name.lexeme->Some_0, value);
    }
}

/// The end of a call keeps a machine on course, unless the program fails:
/// the scopes of the caller come back in sight, as the task promised.
pub proof fn lemma_end_call_keeps(
    m: MachineView,
    chain: Seq<usize>,
    height: usize,
    outcome: ReturnView,
    below: Seq<TaskView>,
    goal: Seq<usize>,
)
    requires
        m.wf(),
        m.tasks.len() >= below.len(),
        m.tasks.take(below.len() as int) == below,
        chain_after(chain, m.tasks.skip(below.len() as int)) == goal,
    ensures
        keeps_course(m.end_call(chain, height, outcome), below, goal),
{
    if chain.len() > 0 && stray(chain, m.environment.scopes.len() as int, 0) is None {
        lemma_restored_sound(m.environment, chain);
    }
}

/// A `return` keeps a machine on course: it ends the call that runs, whose
/// end brings the scopes of the caller back in sight whatever was in sight
/// in the call; or it goes below the tasks that count.
pub proof fn lemma_unwind_keeps(
    m: MachineView,
    outcome: ReturnView,
    below: Seq<TaskView>,
    chain: Seq<usize>,
)
    requires
        m.wf(),
        below.len() >= 1,
        m.tasks.len() >= below.len(),
        m.tasks.take(below.len() as int) == below,
    ensures
        keeps_course(
            m.unwind(outcome),
            below,
            chain_after(chain, m.tasks.skip(below.len() as int)),
        ),
    decreases m.tasks.len(),
{
    let base = below.len() as int;
    if m.tasks.len() == base {
        lemma_unwind_shrinks(m, outcome);
    } else {
        let rest = m.pop_task();
        let counting = m.tasks.skip(base);
        assert(counting.last() == m.tasks.last());
        assert(rest.tasks.take(base) =~= m.tasks.take(base));
        assert(rest.tasks.skip(base) =~= counting.drop_last());
        match m.tasks.last() {
            TaskView::EndCall(saved, height) => {
                lemma_end_call_keeps(
                    rest,
                    saved,
                    height,
                    outcome,
                    below,
                    chain_after(chain, counting),
                );
            },
            _ => {
                lemma_unwind_keeps(rest, outcome, below, chain_past(chain, m.tasks.last()));
            },
        }
    }
}

/// A `return` leaves fewer tasks than there were, where there were any, or
/// the program fails, which leaves none.
pub proof fn lemma_unwind_shrinks(m: MachineView, outcome: ReturnView)
    ensures
        m.tasks.len() > 0 ==> m.unwind(outcome).after.tasks.len() < m.tasks.len(),
    decreases m.tasks.len(),
{
    if m.tasks.len() > 0 {
        match m.tasks.last() {
            TaskView::EndCall(saved, height) => {},
            _ => {
                lemma_unwind_shrinks(m.pop_task(), outcome);
            },
        }
    }
}

/// A call of a function keeps a machine on course, unless the program
/// fails: the body runs above a task that brings the scopes of the caller
/// back in sight.
pub proof fn lemma_invoke_keeps(
    m: MachineView,
    function: FunctionView,
    arguments: Seq<ObjectView>,
    below: Seq<TaskView>,
    goal: Seq<usize>,
)
    requires
        on_course(m, below, goal),
        m.environment.scopes.len() < usize::MAX,
    ensures
        keeps_course(m.invoke(function, arguments), below, goal),
{
    let step = m.invoke(function, arguments);
    if step.action is None {
        let base = below.len() as int;
        let after = step.after;
        lemma_no_stray(function.closure, m.environment.scopes.len() as int, 0);
        let entered = m.environment.entered(function.closure);
        assert(entered.wf());
        lemma_bound_parameters_sound(entered, function.params, arguments, 0);
        let end = TaskView::EndCall(m.environment.chain, m.values.len() as usize);
        let body = reversed_executes(function.body);
        assert(after.tasks.take(base) =~= m.tasks.take(base));
        assert(after.tasks.skip(base) =~= m.tasks.skip(base).push(end) + body);
        lemma_executes_neutral(function.body);
        lemma_chain_after_both(after.environment.chain, m.tasks.skip(base).push(end), body);
        lemma_chain_after_neutral(after.environment.chain, body);
        assert(m.tasks.skip(base).push(end).drop_last() =~= m.tasks.skip(base));
    }
}

/// A call keeps a machine on course, unless the program fails.
pub proof fn lemma_call_keeps(m: MachineView, count: usize, below: Seq<TaskView>, goal: Seq<usize>)
    requires
        on_course(m, below, goal),
        m.environment.scopes.len() < usize::MAX,
    ensures
        keeps_course(m.call(count), below, goal),
{
    if m.values.len() >= count + 1 {
        let base = m.values.len() - count - 1;
        let rest = m.with_values(m.values.take(base));
        let arguments = m.values.subrange(base + 1, m.values.len() as int);
        lemma_same_chain(m, rest, below, goal);
        match m.values[base] {
            ObjectView::Function(function) => {
                lemma_invoke_keeps(rest, function, arguments, below, goal);
            },
            _ => {},
        }
    }
}

/// Taking an expression apart keeps a machine on course, unless the program
/// fails.
pub proof fn lemma_evaluate_keeps(
    m: MachineView,
    expression: ExprView,
    below: Seq<TaskView>,
    goal: Seq<usize>,
)
    requires
        on_course(m, below, goal),
    ensures
        keeps_course(m.evaluate(expression), below, goal),
{
    match expression {
        ExprView::Grouping { grouping } => {
            lemma_push_neutral(m, TaskView::Evaluate(*grouping), below, goal);
        },
        ExprView::Assign { name, value } => {
            lemma_push_neutral(m, TaskView::Assign(name), below, goal);
            lemma_push_neutral(
                m.push_task(TaskView::Assign(name)),
                TaskView::Evaluate(*value),
                below,
                goal,
            );
        },
        ExprView::Unary { operator, right } => {
            lemma_push_neutral(m, TaskView::Unary(operator), below, goal);
            lemma_push_neutral(
                m.push_task(TaskView::Unary(operator)),
                TaskView::Evaluate(*right),
                below,
                goal,
            );
        },
        ExprView::Binary { left, operator, right } => {
            let first = m.push_task(TaskView::Binary(operator));
            let second = first.push_task(TaskView::Evaluate(*right));
            lemma_push_neutral(m, TaskView::Binary(operator), below, goal);
            lemma_push_neutral(first, TaskView::Evaluate(*right), below, goal);
            lemma_push_neutral(second, TaskView::Evaluate(*left), below, goal);
        },
        ExprView::Logical { left, operator, right } => {
            let first = m.push_task(TaskView::Logical(operator, *right));
            lemma_push_neutral(m, TaskView::Logical(operator, *right), below, goal);
            lemma_push_neutral(first, TaskView::Evaluate(*left), below, goal);
        },
        ExprView::Call { callee, paren, arguments } => {
            let call = TaskView::Call(paren, arguments.len() as usize);
            let first = m.push_task(call);
            lemma_push_neutral(m, call, below, goal);
            lemma_evaluates_neutral(arguments);
            lemma_push_neutrals(first, reversed_evaluates(arguments), below, goal);
            let second = first.with_tasks(first.tasks + reversed_evaluates(arguments));
            lemma_push_neutral(second, TaskView::Evaluate(*callee), below, goal);
        },
        _ => {},
    }
}

/// Taking a statement apart keeps a machine on course, unless the program
/// fails: a block opens a scope and leaves the task that ends it.
pub proof fn lemma_execute_keeps(
    m: MachineView,
    statement: StmtView,
    below: Seq<TaskView>,
    goal: Seq<usize>,
)
    requires
        on_course(m, below, goal),
        below.len() >= 1,
        m.environment.scopes.len() < usize::MAX,
    ensures
        keeps_course(m.execute(statement), below, goal),
{
    let base = below.len() as int;
    match statement {
        StmtView::Expression(e) => {
            lemma_push_neutral(m, TaskView::Discard, below, goal);
            lemma_push_neutral(m.push_task(TaskView::Discard), TaskView::Evaluate(e), below, goal);
        },
        StmtView::Print(e) => {
            lemma_push_neutral(m, TaskView::Print, below, goal);
            lemma_push_neutral(m.push_task(TaskView::Print), TaskView::Evaluate(e), below, goal);
        },
        StmtView::Var { name, initializer } => match initializer {
            Some(e) => {
                lemma_push_neutral(m, TaskView::Define(name), below, goal);
                lemma_push_neutral(
                    m.push_task(TaskView::Define(name)),
                    TaskView::Evaluate(e),
                    below,
                    goal,
                );
            },
            None => {
                lemma_define_keeps(m, name, ObjectView::Nil, below, goal);
            },
        },
        StmtView::Block(statements) => {
            let inside = m.with_environment(m.environment.pushed());
            let body = reversed_executes(statements);
            let after = inside.with_tasks(m.tasks.push(TaskView::EndScope) + body);
            assert(after.tasks.take(base) =~= m.tasks.take(base));
            assert(after.tasks.skip(base) =~= m.tasks.skip(base).push(TaskView::EndScope) + body);
            lemma_executes_neutral(statements);
            lemma_chain_after_both(
                after.environment.chain,
                m.tasks.skip(base).push(TaskView::EndScope),
                body,
            );
            lemma_chain_after_neutral(after.environment.chain, body);
            assert(m.tasks.skip(base).push(TaskView::EndScope).drop_last() =~= m.tasks.skip(base));
            assert(after.environment.chain.drop_last() =~= m.environment.chain);
        },
        StmtView::If { condition, then, els } => {
            let branch = TaskView::Branch(
                *then,
                match els {
                    Some(s) => Some(*s),
                    None => None,
                },
            );
            lemma_push_neutral(m, branch, below, goal);
            lemma_push_neutral(m.push_task(branch), TaskView::Evaluate(condition), below, goal);
        },
        StmtView::While { condition, body } => {
            let again = TaskView::Loop(condition, *body);
            lemma_push_neutral(m, again, below, goal);
            lemma_push_neutral(m.push_task(again), TaskView::Evaluate(condition), below, goal);
        },
        StmtView::Function { name, params, body } => {
            let capturing = m.with_environment(m.environment.capturing());
            lemma_marked_len(m.environment, m.environment.chain.len() as int);
            lemma_same_chain(m, capturing, below, goal);
            lemma_define_keeps(
                capturing,
                name,
                ObjectView::Function(
                    FunctionView { name, params, body, closure: m.environment.chain },
                ),
                below,
                goal,
            );
        },
        StmtView::Return { token, value } => match value {
            Some(e) => {
                lemma_push_neutral(m, TaskView::Return, below, goal);
                lemma_push_neutral(
                    m.push_task(TaskView::Return),
                    TaskView::Evaluate(e),
                    below,
                    goal,
                );
            },
            None => {
                lemma_unwind_keeps(m, ReturnView::Bare, below, m.environment.chain);
            },
        },
    }
}

/// A task that takes the value on top keeps a machine on course, unless the
/// program fails.
pub proof fn lemma_apply_keeps(
    m: MachineView,
    task: TaskView,
    value: ObjectView,
    below: Seq<TaskView>,
    goal: Seq<usize>,
)
    requires
        on_course(m, below, goal),
        below.len() >= 1,
    ensures
        keeps_course(m.apply(task, value), below, goal),
{
    match task {
        TaskView::Define(name) => {
            lemma_define_keeps(m, name, value, below, goal);
        },
        TaskView::Assign(name) => {
            if name.lexeme is Some {
                let text = name.lexeme->Some_0;
                lemma_holder_in_sight(m.environment, text, m.environment.chain.len() as int);
                match m.environment.holder(text, m.environment.chain.len() as int) {
                    Some(id) => {
                        lemma_bound_sound(m.environment, id, text, value);
                    },
                    None => {},
                }
            }
        },
        TaskView::Binary(operator) => {
            lemma_same_chain(m, m.pop_value(), below, goal);
        },
        TaskView::Logical(operator, right) => {
            lemma_push_neutral(m, TaskView::Evaluate(right), below, goal);
        },
        TaskView::Branch(then, els) => {
            lemma_push_neutral(m, TaskView::Execute(then), below, goal);
            match els {
                Some(s) => {
                    lemma_push_neutral(m, TaskView::Execute(s), below, goal);
                },
                None => {},
            }
        },
        TaskView::Loop(condition, body) => {
            let first = m.push_task(TaskView::Loop(condition, body));
            let second = first.push_task(TaskView::Evaluate(condition));
            lemma_push_neutral(m, TaskView::Loop(condition, body), below, goal);
            lemma_push_neutral(first, TaskView::Evaluate(condition), below, goal);
            lemma_push_neutral(second, TaskView::Execute(body), below, goal);
        },
        TaskView::Return => {
            lemma_unwind_keeps(m, ReturnView::Value(value), below, m.environment.chain);
        },
        _ => {},
    }
}

/// Every step keeps a machine on course: unless the program fails or a
/// `return` goes below the tasks that count, the tasks under those that
/// count are as they were, and the scopes that will be in sight when those
/// that count have run are the same after the step as before it.
pub proof fn lemma_step_keeps(m: MachineView, below: Seq<TaskView>)
    requires
        m.wf(),
        m.environment.scopes.len() < usize::MAX,
        below.len() >= 1,
        m.tasks.len() > below.len(),
        m.tasks.take(below.len() as int) == below,
    ensures
        keeps_course(
            m.step(),
            below,
            chain_after(m.environment.chain, m.tasks.skip(below.len() as int)),
        ),
{
    let base = below.len() as int;
    let counting = m.tasks.skip(base);
    let goal = chain_after(m.environment.chain, counting);
    let task = m.tasks.last();
    let rest = m.pop_task();
    assert(counting.last() == task);
    assert(rest.tasks.take(base) =~= m.tasks.take(base));
    assert(rest.tasks.skip(base) =~= counting.drop_last());
    match task {
        TaskView::Execute(statement) => {
            lemma_execute_keeps(rest, statement, below, goal);
        },
        TaskView::Evaluate(expression) => {
            lemma_evaluate_keeps(rest, expression, below, goal);
        },
        TaskView::EndScope => {
            let outside = rest.environment.seeing(rest.environment.chain.drop_last());
            if rest.environment.chain.len() > 1 {
                lemma_released(outside);
            }
        },
        TaskView::EndCall(chain, height) => {
            lemma_end_call_keeps(rest, chain, height, ReturnView::Nothing, below, goal);
        },
        TaskView::Call(paren, count) => {
            lemma_call_keeps(rest, count, below, goal);
        },
        _ => {
            if rest.values.len() > 0 {
                lemma_same_chain(rest, rest.pop_value(), below, goal);
                lemma_apply_keeps(rest.pop_value(), task, rest.values.last(), below, goal);
            }
        },
    }
}

/// Where a machine comes to with the tasks above its lowest `base` once
/// those have run to their end, the host answering each question of the
/// machine with the next of `answers`: nowhere, if the program fails, if a
/// `return` goes below the tasks that count, if the host stops answering,
/// if the machine holds as many scopes as it can, or if those tasks have not
/// come to their end after `fuel` steps.
///
/// The laws that speak of it ask for a task below those that count. There
/// always is one where statements run: a program and the statements that a
/// machine is given both run above the end of a call, which a `return`
/// never passes. What holds when a `return` ends them is stated over
/// [`crate::outer_names::ended`].
pub open spec fn settled(
    m: MachineView,
    base: int,
    answers: Seq<Option<u64>>,
    fuel: nat,
) -> Option<MachineView>
    decreases fuel,
{
    if m.tasks.len() == base {
        Some(m)
    } else if m.tasks.len() < base || fuel == 0 || m.environment.scopes.len() >= usize::MAX {
        None
    } else {
        let step = m.step();
        match step.action {
            None => settled(step.after, base, answers, (fuel - 1) as nat),
            Some(ActionView::Failed(_)) => None,
            Some(_) => {
                if answers.len() > 0 {
                    settled(
                        step.after.answered(answers[0]),
                        base,
                        answers.drop_first(),
                        (fuel - 1) as nat,
                    )
                } else {
                    None
                }
            },
        }
    }
}

/// The scopes in sight follow the tasks. Whatever tasks a machine has above
/// its lowest `base`, at least one below them: once these tasks have run to
/// their end, however many steps that takes and whatever the host answers,
/// the tasks under them are as they were, and the scopes in sight are those
/// that the tasks promised from the start ([`chain_after`]). What was in
/// sight comes back in sight, whatever ran in between.
pub proof fn scopes_in_sight_follow_the_tasks(
    m: MachineView,
    base: int,
    answers: Seq<Option<u64>>,
    fuel: nat,
)
    requires
        m.wf(),
        1 <= base <= m.tasks.len(),
    ensures
        settled(m, base, answers, fuel) matches Some(after) ==> {
            &&& after.wf()
            &&& after.tasks == m.tasks.take(base)
            &&& after.environment.chain == chain_after(m.environment.chain, m.tasks.skip(base))
        },
    decreases fuel,
{
    let below = m.tasks.take(base);
    if m.tasks.len() == base {
        assert(m.tasks.take(base) =~= m.tasks);
        assert(m.tasks.skip(base) =~= Seq::<TaskView>::empty());
    } else if fuel > 0 && m.environment.scopes.len() < usize::MAX {
        lemma_step_keeps(m, below);
        let step = m.step();
        match step.action {
            None => {
                if step.after.tasks.len() >= base {
                    scopes_in_sight_follow_the_tasks(step.after, base, answers, (fuel - 1) as nat);
                }
            },
            Some(ActionView::Failed(_)) => {},
            Some(_) => {
                if answers.len() > 0 && step.after.tasks.len() >= base {
                    let next = step.after.answered(answers[0]);
                    scopes_in_sight_follow_the_tasks(
                        next,
                        base,
                        answers.drop_first(),
                        (fuel - 1) as nat,
                    );
                }
            },
        }
    }
}

/// A statement leaves in sight what was in sight. Whatever the statement is
/// (a block, a loop, a declaration, a call of any function) and whatever is
/// in sight before it: once it has run to its end, the same scopes are in
/// sight again, and the tasks that waited under it are as they were. So
/// what a block declares is out of sight after the block.
pub proof fn a_statement_leaves_in_sight_what_was(
    m: MachineView,
    statement: StmtView,
    answers: Seq<Option<u64>>,
    fuel: nat,
)
    requires
        m.wf(),
        m.tasks.len() >= 1,
    ensures
        settled(
            m.push_task(TaskView::Execute(statement)),
            m.tasks.len() as int,
            answers,
            fuel,
        ) matches Some(after) ==> after.tasks == m.tasks && after.environment.chain
            == m.environment.chain,
{
    let start = m.push_task(TaskView::Execute(statement));
    let base = m.tasks.len() as int;
    scopes_in_sight_follow_the_tasks(start, base, answers, fuel);
    assert(start.tasks.take(base) =~= m.tasks);
    assert(start.tasks.skip(base) =~= seq![TaskView::Execute(statement)]);
    lemma_chain_after_neutral(m.environment.chain, seq![TaskView::Execute(statement)]);
}

/// An expression leaves in sight what was in sight, as a statement does:
/// see [`a_statement_leaves_in_sight_what_was`].
pub proof fn an_expression_leaves_in_sight_what_was(
    m: MachineView,
    expression: ExprView,
    answers: Seq<Option<u64>>,
    fuel: nat,
)
    requires
        m.wf(),
        m.tasks.len() >= 1,
    ensures
        settled(
            m.push_task(TaskView::Evaluate(expression)),
            m.tasks.len() as int,
            answers,
            fuel,
        ) matches Some(after) ==> after.tasks == m.tasks && after.environment.chain
            == m.environment.chain,
{
    let start = m.push_task(TaskView::Evaluate(expression));
    let base = m.tasks.len() as int;
    scopes_in_sight_follow_the_tasks(start, base, answers, fuel);
    assert(start.tasks.take(base) =~= m.tasks);
    assert(start.tasks.skip(base) =~= seq![TaskView::Evaluate(expression)]);
    lemma_chain_after_neutral(m.environment.chain, seq![TaskView::Evaluate(expression)]);
}

/// There are as many tasks as statements.
pub proof fn lemma_executes_len(statements: Seq<StmtView>)
    ensures
        reversed_executes(statements).len() == statements.len(),
    decreases statements.len(),
{
    if statements.len() > 0 {
        lemma_executes_len(statements.drop_first());
    }
}

/// A block runs each of its statements in its own scope. Whenever a block
/// has come to one of its statements, after `done` of them have run to
/// their end, whatever they were, the scopes in sight are those that were in
/// sight before the block, and innermost the scope that the block opened. So
/// what the block itself declares, it declares in that scope, which is out
/// of sight after the block ([`a_statement_leaves_in_sight_what_was`]).
pub proof fn a_block_runs_its_statements_in_its_scope(
    m: MachineView,
    statements: Seq<StmtView>,
    done: int,
    answers: Seq<Option<u64>>,
    fuel: nat,
)
    requires
        m.wf(),
        m.tasks.len() >= 1,
        m.environment.scopes.len() < usize::MAX,
        0 <= done <= statements.len(),
    ensures
        ({
            let entered = m.push_task(TaskView::Execute(StmtView::Block(statements))).step();
            &&& entered.action is None
            &&& entered.after.environment == m.environment.pushed()
            &&& entered.after.tasks.len() == m.tasks.len() + 1 + statements.len()
            &&& settled(
                entered.after,
                m.tasks.len() + 1 + statements.len() - done,
                answers,
                fuel,
            ) matches Some(at) ==> at.environment.chain == m.environment.chain.push(
                m.environment.scopes.len() as usize,
            )
        }),
{
    let start = m.push_task(TaskView::Execute(StmtView::Block(statements)));
    assert(start.pop_task().tasks =~= m.tasks);
    let inside = start.step().after;
    let body = reversed_executes(statements);
    lemma_executes_len(statements);
    lemma_executes_neutral(statements);
    let base = m.tasks.len() + 1 + statements.len() - done;
    assert(inside.tasks =~= m.tasks.push(TaskView::EndScope) + body);
    scopes_in_sight_follow_the_tasks(inside, base, answers, fuel);
    let rest = inside.tasks.skip(base);
    assert forall|i: int| 0 <= i < rest.len() implies is_neutral(#[trigger] rest[i]) by {
        assert(rest[i] == body[base - (m.tasks.len() + 1) + i]);
    }
    lemma_chain_after_neutral(inside.environment.chain, rest);
}

/// Whether the environment holds scope `id` as one that a function has
/// captured.
pub open spec fn holds_captured(e: EnvironmentView, id: int) -> bool {
    0 <= id < e.scopes.len() && e.captured.len() == e.scopes.len() && e.captured[id]
}

/// Capturing the scopes in sight leaves every scope captured that was.
pub proof fn lemma_marked_keeps(e: EnvironmentView, depth: int, id: int)
    requires
        holds_captured(e, id),
    ensures
        e.marked(depth).len() == e.captured.len(),
        e.marked(depth)[id],
    decreases depth,
{
    if 0 < depth <= e.chain.len() {
        lemma_marked_keeps(e, depth - 1, id);
    }
}

/// Binding parameters opens no scope and lets none go.
pub proof fn lemma_bound_parameters_len(
    e: EnvironmentView,
    params: Seq<TokenView>,
    arguments: Seq<ObjectView>,
    from: int,
)
    requires
        e.chain.len() >= 1,
        e.chain.last() < e.scopes.len(),
    ensures
        bound_parameters(e, params, arguments, from).scopes.len() == e.scopes.len(),
    decreases params.len() - from,
{
    if 0 <= from < params.len() && from < arguments.len() {
        let next = e.defined(params[from].lexeme->Some_0, arguments[from]);
        assert(next.scopes.len() == e.scopes.len());
        lemma_bound_parameters_len(next, params, arguments, from + 1);
    }
}

/// Binding parameters leaves every scope captured that was.
pub proof fn lemma_bound_parameters_keep(
    e: EnvironmentView,
    params: Seq<TokenView>,
    arguments: Seq<ObjectView>,
    from: int,
    id: int,
)
    requires
        e.wf(),
        holds_captured(e, id),
    ensures
        holds_captured(bound_parameters(e, params, arguments, from), id),
    decreases params.len() - from,
{
    if 0 <= from < params.len() && from < arguments.len() {
        let next = e.defined(params[from].lexeme->Some_0, arguments[from]);
        lemma_bound_sound(e, e.innermost(), params[from].lexeme->Some_0, arguments[from]);
        lemma_bound_parameters_keep(next, params, arguments, from + 1, id);
    }
}

/// Bringing scopes in sight again leaves every scope captured that was.
pub proof fn lemma_restored_keeps(e: EnvironmentView, chain: Seq<usize>, id: int)
    requires
        e.wf(),
        holds_captured(e, id),
        chain.len() > 0,
        stray(chain, e.scopes.len() as int, 0) is None,
    ensures
        holds_captured(e.restored(chain), id),
        e.restored(chain).wf(),
{
    lemma_no_stray(chain, e.scopes.len() as int, 0);
    lemma_released(e.seeing(chain));
    captured_scopes_are_held(e.seeing(chain), id);
}

/// The end of a call leaves every scope captured that was.
pub proof fn lemma_end_call_holds(
    m: MachineView,
    chain: Seq<usize>,
    height: usize,
    outcome: ReturnView,
    id: int,
)
    requires
        m.wf(),
        holds_captured(m.environment, id),
    ensures
        holds_captured(m.end_call(chain, height, outcome).after.environment, id),
        m.end_call(chain, height, outcome).after.wf(),
{
    if chain.len() > 0 && stray(chain, m.environment.scopes.len() as int, 0) is None {
        lemma_restored_keeps(m.environment, chain, id);
    }
    if m.home.len() > 0 && stray(m.home, m.environment.scopes.len() as int, 0) is None {
        lemma_restored_keeps(m.environment, m.home, id);
    }
}

/// A `return` leaves every scope captured that was.
pub proof fn lemma_unwind_holds(m: MachineView, outcome: ReturnView, id: int)
    requires
        m.wf(),
        holds_captured(m.environment, id),
    ensures
        holds_captured(m.unwind(outcome).after.environment, id),
        m.unwind(outcome).after.wf(),
    decreases m.tasks.len(),
{
    if m.tasks.len() > 0 {
        match m.tasks.last() {
            TaskView::EndCall(saved, height) => {
                lemma_end_call_holds(m.pop_task(), saved, height, outcome, id);
            },
            _ => {
                lemma_unwind_holds(m.pop_task(), outcome, id);
            },
        }
    }
}

/// A failing program leaves every scope captured that was.
pub proof fn lemma_fail_holds(m: MachineView, id: int)
    requires
        m.wf(),
        holds_captured(m.environment, id),
    ensures
        holds_captured(m.environment.recovered(m.home), id),
        m.environment.recovered(m.home).wf(),
{
    if m.home.len() > 0 && stray(m.home, m.environment.scopes.len() as int, 0) is None {
        lemma_restored_keeps(m.environment, m.home, id);
    }
}

/// A call leaves every scope captured that was.
pub proof fn lemma_call_holds(m: MachineView, count: usize, id: int)
    requires
        m.wf(),
        m.environment.scopes.len() < usize::MAX || m.call(count).after.wf(),
        holds_captured(m.environment, id),
    ensures
        holds_captured(m.call(count).after.environment, id),
        m.call(count).after.wf(),
{
    lemma_fail_holds(m, id);
    if m.values.len() >= count + 1 {
        let floor = m.values.len() - count - 1;
        let rest = m.with_values(m.values.take(floor));
        let arguments = m.values.subrange(floor + 1, m.values.len() as int);
        match m.values[floor] {
            ObjectView::Function(function) => {
                if rest.invoke(function, arguments).action is None {
                    lemma_no_stray(function.closure, m.environment.scopes.len() as int, 0);
                    let entered = m.environment.entered(function.closure);
                    if m.environment.scopes.len() < usize::MAX {
                        assert(entered.wf());
                        lemma_bound_parameters_sound(entered, function.params, arguments, 0);
                        lemma_bound_parameters_keep(entered, function.params, arguments, 0, id);
                    } else {
                        lemma_bound_parameters_len(entered, function.params, arguments, 0);
                    }
                }
            },
            _ => {},
        }
    }
}

/// A scope that a function has captured is held for good: whatever step the
/// machine takes, the scope is still held afterwards, and still captured.
/// So the scopes of a function are there whenever the function is called.
pub proof fn a_captured_scope_outlasts_every_step(m: MachineView, id: int)
    requires
        m.wf(),
        m.environment.scopes.len() < usize::MAX || m.step().after.wf(),
        holds_captured(m.environment, id),
    ensures
        holds_captured(m.step().after.environment, id),
        m.step().after.wf(),
{
    lemma_fail_holds(m, id);
    if m.tasks.len() > 0 {
        let task = m.tasks.last();
        let rest = m.pop_task();
        match task {
            TaskView::Execute(statement) => {
                match statement {
                    StmtView::Var { name, initializer } => {
                        if name.lexeme is Some {
                            lemma_bound_sound(
                                rest.environment,
                                rest.environment.innermost(),
                                name.lexeme->Some_0,
                                ObjectView::Nil,
                            );
                        }
                    },
                    StmtView::Function { name, params, body } => {
                        let capturing = rest.environment.capturing();
                        lemma_marked_keeps(
                            rest.environment,
                            rest.environment.chain.len() as int,
                            id,
                        );
                        if name.lexeme is Some {
                            lemma_bound_sound(
                                capturing,
                                capturing.innermost(),
                                name.lexeme->Some_0,
                                ObjectView::Function(
                                    FunctionView {
                                        name,
                                        params,
                                        body,
                                        closure: rest.environment.chain,
                                    },
                                ),
                            );
                        }
                        if rest.home.len() > 0 && stray(
                            rest.home,
                            capturing.scopes.len() as int,
                            0,
                        ) is None {
                            lemma_restored_keeps(capturing, rest.home, id);
                        }
                    },
                    StmtView::Return { token, value } => {
                        lemma_unwind_holds(rest, ReturnView::Bare, id);
                    },
                    _ => {},
                }
            },
            TaskView::Evaluate(expression) => {},
            TaskView::EndScope => {
                if rest.environment.chain.len() > 1 {
                    let outside = rest.environment.seeing(rest.environment.chain.drop_last());
                    lemma_released(outside);
                    captured_scopes_are_held(outside, id);
                }
            },
            TaskView::EndCall(chain, height) => {
                lemma_end_call_holds(rest, chain, height, ReturnView::Nothing, id);
            },
            TaskView::Call(paren, count) => {
                lemma_call_holds(rest, count, id);
            },
            _ => {
                if rest.values.len() > 0 {
                    let value = rest.values.last();
                    let popped = rest.pop_value();
                    match task {
                        TaskView::Define(name) => {
                            if name.lexeme is Some {
                                lemma_bound_sound(
                                    popped.environment,
                                    popped.environment.innermost(),
                                    name.lexeme->Some_0,
                                    value,
                                );
                            }
                        },
                        TaskView::Assign(name) => {
                            if name.lexeme is Some {
                                let text = name.lexeme->Some_0;
                                lemma_holder_in_sight(
                                    popped.environment,
                                    text,
                                    popped.environment.chain.len() as int,
                                );
                                match popped.environment.holder(
                                    text,
                                    popped.environment.chain.len() as int,
                                ) {
                                    Some(scope) => {
                                        lemma_bound_sound(popped.environment, scope, text, value);
                                    },
                                    None => {},
                                }
                            }
                        },
                        TaskView::Return => {
                            lemma_unwind_holds(popped, ReturnView::Value(value), id);
                        },
                        _ => {},
                    }
                }
            },
        }
    }
}

/// Whether the scopes in which the program of a machine began are held for
/// good: there is one at least, and each is held as one that was captured.
pub open spec fn anchored(m: MachineView) -> bool {
    &&& m.home.len() >= 1
    &&& forall|i: int| 0 <= i < m.home.len() ==> holds_captured(m.environment, #[trigger] m.home[i] as int)
}

/// Capturing the outer `depth` scopes in sight marks each of them.
pub proof fn lemma_marked_sets(e: EnvironmentView, depth: int, i: int)
    requires
        e.wf(),
        0 <= i < depth <= e.chain.len(),
    ensures
        e.marked(depth).len() == e.captured.len(),
        e.marked(depth)[e.chain[i] as int],
    decreases depth,
{
    lemma_marked_len(e, depth);
    lemma_marked_len(e, depth - 1);
    if i < depth - 1 {
        lemma_marked_sets(e, depth - 1, i);
    }
}

/// A machine that is given a program holds for good the scopes in which the
/// program begins.
pub proof fn a_program_begins_anchored(m: MachineView, statements: Seq<StmtView>)
    requires
        m.wf(),
    ensures
        m.loaded(statements).wf(),
        anchored(m.loaded(statements)),
{
    let e = m.environment;
    let after = m.loaded(statements);
    lemma_marked_len(e, e.chain.len() as int);
    assert forall|i: int| 0 <= i < after.home.len() implies holds_captured(
        after.environment,
        #[trigger] after.home[i] as int,
    ) by {
        lemma_marked_sets(e, e.chain.len() as int, i);
    }
}

/// The scopes in which a program began are held for good: whatever step the
/// machine takes, they are the same afterwards, and still held.
pub proof fn the_starting_scopes_outlast_every_step(m: MachineView)
    requires
        m.wf(),
        anchored(m),
        m.environment.scopes.len() < usize::MAX || m.step().after.wf(),
    ensures
        m.step().after.wf(),
        m.step().after.home == m.home,
        anchored(m.step().after),
{
    lemma_step_keeps_home(m);
    let after = m.step().after;
    assert forall|i: int| 0 <= i < after.home.len() implies holds_captured(
        after.environment,
        #[trigger] after.home[i] as int,
    ) by {
        a_captured_scope_outlasts_every_step(m, m.home[i] as int);
    }
    if m.home.len() > 0 {
        a_captured_scope_outlasts_every_step(m, m.home[0] as int);
    }
}

/// A program that fails, or that its host gives up, is back where it began:
/// the scopes in which it began are in sight again, all of them and no
/// other.
pub proof fn a_failed_program_is_back_where_it_began(m: MachineView, error: RuntimeErrorView)
    requires
        m.wf(),
        anchored(m),
    ensures
        m.fail(error).after == m.abandoned(),
        m.abandoned().wf(),
        m.abandoned().environment.chain == m.home,
        anchored(m.abandoned()),
{
    assert forall|i: int| 0 <= i < m.home.len() implies m.home[i] < m.environment.scopes.len() by {
        assert(holds_captured(m.environment, m.home[i] as int));
    }
    lemma_stray_none(m.home, m.environment.scopes.len() as int, 0);
    lemma_restored_sound(m.environment, m.home);
    assert forall|i: int| 0 <= i < m.home.len() implies holds_captured(
        m.abandoned().environment,
        #[trigger] m.home[i] as int,
    ) by {
        lemma_restored_keeps(m.environment, m.home, m.home[i] as int);
    }
}

/// A chain whose scopes all exist has no stray scope.
pub proof fn lemma_stray_none(chain: Seq<usize>, limit: int, from: int)
    requires
        0 <= from,
        forall|i: int| from <= i < chain.len() ==> chain[i] < limit,
    ensures
        stray(chain, limit, from) is None,
    decreases chain.len() - from,
{
    if from < chain.len() {
        lemma_stray_none(chain, limit, from + 1);
    }
}

/// No step changes the scopes in which the program began.
pub proof fn lemma_step_keeps_home(m: MachineView)
    ensures
        m.step().after.home == m.home,
{
    if m.tasks.len() > 0 {
        let task = m.tasks.last();
        let rest = m.pop_task();
        match task {
            TaskView::Execute(statement) => {
                match statement {
                    StmtView::Return { token, value } => {
                        lemma_unwind_keeps_home(rest, ReturnView::Bare);
                    },
                    _ => {},
                }
            },
            TaskView::Return => {
                if rest.values.len() > 0 {
                    lemma_unwind_keeps_home(rest.pop_value(), ReturnView::Value(rest.values.last()));
                }
            },
            _ => {},
        }
    }
}

/// A `return` does not change the scopes in which the program began.
pub proof fn lemma_unwind_keeps_home(m: MachineView, outcome: ReturnView)
    ensures
        m.unwind(outcome).after.home == m.home,
    decreases m.tasks.len(),
{
    if m.tasks.len() > 0 {
        match m.tasks.last() {
            TaskView::EndCall(saved, height) => {},
            _ => {
                lemma_unwind_keeps_home(m.pop_task(), outcome);
            },
        }
    }
}

} // verus!
