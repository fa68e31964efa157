use crate::ast::{ExprView, StmtView};
use crate::data_types::{FunctionView, ObjectView, ReturnView};
use crate::environment::{
    lemma_holder_in_sight, lemma_no_stray, lemma_released, stray, EnvironmentView,
};
use crate::interpreter::{
    bound_parameters, reversed_evaluates, reversed_executes, ActionView, MachineView, Step,
    TaskView,
};
use crate::parser::max_arity;
use crate::scope_discipline::{
    a_statement_leaves_in_sight_what_was, chain_past, is_neutral, lemma_bound_parameters_sound,
    lemma_bound_sound, lemma_evaluates_neutral, lemma_executes_neutral, lemma_marked_len,
    lemma_restored_sound, lemma_step_keeps, lemma_unwind_shrinks,
    scopes_in_sight_follow_the_tasks, settled,
};
use crate::token::TokenView;
use vstd::prelude::*;

verus! {

/// Whether the innermost scope in sight is none of the first `floor` scopes
/// for as long as the tasks `tasks` run, the last of them first, where
/// `chain` is in sight before: before each task, the innermost scope is a
/// later one.
pub open spec fn stays_inside(chain: Seq<usize>, tasks: Seq<TaskView>, floor: int) -> bool
    decreases tasks.len(),
{
    if tasks.len() == 0 {
        true
    } else {
        &&& chain.len() >= 1
        &&& chain.last() >= floor
        &&& stays_inside(chain_past(chain, tasks.last()), tasks.drop_last(), floor)
    }
}

/// Whether each of the first `floor` scopes that `after` still holds binds
/// in `after` the names that it binds in `before`, and no other.
pub open spec fn names_kept(before: EnvironmentView, after: EnvironmentView, floor: int) -> bool {
    forall|id: int|
        0 <= id < floor && id < after.scopes.len() ==> #[trigger] same_names(before, after, id)
}

/// Whether scope `id` is held in `before` and binds in `after` the names
/// that it binds there, and no other.
pub open spec fn same_names(before: EnvironmentView, after: EnvironmentView, id: int) -> bool {
    id < before.scopes.len() && after.scopes[id].dom() == before.scopes[id].dom()
}

/// Whether a machine has at least `base` tasks, and those above the lowest
/// `base` keep the innermost scope in sight above the first `floor` scopes.
pub open spec fn within(m: MachineView, base: int, floor: int) -> bool {
    &&& m.wf()
    &&& 1 <= base <= m.tasks.len()
    &&& 0 <= floor
    &&& stays_inside(m.environment.chain, m.tasks.skip(base), floor)
}

/// As [`within`], for a machine whose innermost scope in sight is none of
/// the first `floor` scopes.
pub open spec fn ready(m: MachineView, base: int, floor: int) -> bool {
    within(m, base, floor) && m.environment.chain.last() >= floor
}

/// Whether a step keeps to the scopes above the first `floor`: unless the
/// program fails or the step goes below the lowest `base` tasks, the
/// machine after it is [`within`], and the first `floor` scopes bind the
/// names that they bound in `before`.
pub open spec fn kept_inside(step: Step, before: EnvironmentView, base: int, floor: int) -> bool {
    ||| step.action matches Some(ActionView::Failed(_))
    ||| step.after.tasks.len() < base
    ||| (within(step.after, base, floor) && names_kept(before, step.after.environment, floor))
}

/// A neutral task more keeps the innermost scope where it is.
pub proof fn lemma_inside_push(chain: Seq<usize>, tasks: Seq<TaskView>, task: TaskView, floor: int)
    requires
        chain.len() >= 1,
        chain.last() >= floor,
        stays_inside(chain, tasks, floor),
        is_neutral(task),
    ensures
        stays_inside(chain, tasks.push(task), floor),
{
    assert(tasks.push(task).drop_last() =~= tasks);
}

/// Neutral tasks more keep the innermost scope where it is.
pub proof fn lemma_inside_pushes(
    chain: Seq<usize>,
    tasks: Seq<TaskView>,
    more: Seq<TaskView>,
    floor: int,
)
    requires
        chain.len() >= 1,
        chain.last() >= floor,
        stays_inside(chain, tasks, floor),
        forall|i: int| 0 <= i < more.len() ==> is_neutral(#[trigger] more[i]),
    ensures
        stays_inside(chain, tasks + more, floor),
    decreases more.len(),
{
    if more.len() == 0 {
        assert(tasks + more =~= tasks);
    } else {
        lemma_inside_pushes(chain, tasks, more.drop_last(), floor);
        lemma_inside_push(chain, tasks + more.drop_last(), more.last(), floor);
        assert(tasks + more =~= (tasks + more.drop_last()).push(more.last()));
    }
}

/// A neutral task more on a machine that is ready leaves it ready.
pub proof fn lemma_ready_push(m: MachineView, task: TaskView, base: int, floor: int)
    requires
        ready(m, base, floor),
        is_neutral(task),
    ensures
        ready(m.push_task(task), base, floor),
{
    assert(m.push_task(task).tasks.skip(base) =~= m.tasks.skip(base).push(task));
    lemma_inside_push(m.environment.chain, m.tasks.skip(base), task, floor);
}

/// Neutral tasks more on a machine that is ready leave it ready.
pub proof fn lemma_ready_pushes(m: MachineView, more: Seq<TaskView>, base: int, floor: int)
    requires
        ready(m, base, floor),
        forall|i: int| 0 <= i < more.len() ==> is_neutral(#[trigger] more[i]),
    ensures
        ready(m.with_tasks(m.tasks + more), base, floor),
{
    assert((m.tasks + more).skip(base) =~= m.tasks.skip(base) + more);
    lemma_inside_pushes(m.environment.chain, m.tasks.skip(base), more, floor);
}

/// Binding a name in a scope that is none of the first `floor` leaves the
/// names of those as they are.
pub proof fn lemma_names_bound(
    e: EnvironmentView,
    id: int,
    name: Seq<char>,
    value: ObjectView,
    floor: int,
)
    requires
        e.wf(),
        0 <= floor <= id < e.scopes.len(),
    ensures
        names_kept(e, e.bound(id, name, value), floor),
{
}

/// Binding anew a name that a scope binds leaves the names of every scope
/// as they are.
pub proof fn lemma_names_bound_again(
    e: EnvironmentView,
    id: int,
    name: Seq<char>,
    value: ObjectView,
    floor: int,
)
    requires
        e.wf(),
        0 <= id < e.scopes.len(),
        e.scopes[id].contains_key(name),
    ensures
        names_kept(e, e.bound(id, name, value), floor),
{
    assert(e.scopes[id].insert(name, value).dom() =~= e.scopes[id].dom());
}

/// Binding parameters leaves every scope but the innermost as it was.
pub proof fn lemma_bound_parameters_others(
    e: EnvironmentView,
    params: Seq<TokenView>,
    arguments: Seq<ObjectView>,
    from: int,
    id: int,
)
    requires
        e.wf(),
        0 <= id < e.scopes.len(),
        id != e.innermost(),
    ensures
        bound_parameters(e, params, arguments, from).scopes.len() == e.scopes.len(),
        bound_parameters(e, params, arguments, from).scopes[id] == e.scopes[id],
    decreases params.len() - from,
{
    if 0 <= from < params.len() && from < arguments.len() {
        let next = e.defined(params[from].lexeme->Some_0, arguments[from]);
        lemma_bound_sound(e, e.innermost(), params[from].lexeme->Some_0, arguments[from]);
        lemma_bound_parameters_others(next, params, arguments, from + 1, id);
    }
}

/// Defining a name keeps to the scopes above the first `floor`.
pub proof fn lemma_define_inside(
    m: MachineView,
    name: TokenView,
    value: ObjectView,
    base: int,
    floor: int,
)
    requires
        ready(m, base, floor),
    ensures
        kept_inside(m.define(name, value), m.environment, base, floor),
{
    if name.lexeme is Some {
        lemma_bound_sound(m.environment, m.environment.innermost(), name.lexeme->Some_0, value);
        lemma_names_bound(
            m.environment,
            m.environment.innermost(),
            name.lexeme->Some_0,
            value,
            floor,
        );
    }
}

/// The end of a call keeps to the scopes above the first `floor`, where the
/// scopes of the caller do for the tasks that are left.
pub proof fn lemma_end_call_inside(
    m: MachineView,
    saved: Seq<usize>,
    height: usize,
    outcome: ReturnView,
    base: int,
    floor: int,
)
    requires
        m.wf(),
        1 <= base <= m.tasks.len(),
        0 <= floor,
        stays_inside(saved, m.tasks.skip(base), floor),
    ensures
        kept_inside(m.end_call(saved, height, outcome), m.environment, base, floor),
{
    if saved.len() > 0 && stray(saved, m.environment.scopes.len() as int, 0) is None {
        lemma_restored_sound(m.environment, saved);
        lemma_no_stray(saved, m.environment.scopes.len() as int, 0);
        lemma_released(m.environment.seeing(saved));
    }
}

/// A `return` keeps to the scopes above the first `floor`, or goes below
/// the lowest `base` tasks.
pub proof fn lemma_unwind_inside(
    m: MachineView,
    outcome: ReturnView,
    base: int,
    floor: int,
    chain: Seq<usize>,
)
    requires
        m.wf(),
        1 <= base <= m.tasks.len(),
        0 <= floor,
        stays_inside(chain, m.tasks.skip(base), floor),
    ensures
        kept_inside(m.unwind(outcome), m.environment, base, floor),
    decreases m.tasks.len(),
{
    if m.tasks.len() == base {
        lemma_unwind_shrinks(m, outcome);
        lemma_unwind_fails_or_goes(m, outcome);
    } else {
        let rest = m.pop_task();
        let counting = m.tasks.skip(base);
        assert(counting.last() == m.tasks.last());
        assert(rest.tasks.skip(base) =~= counting.drop_last());
        match m.tasks.last() {
            TaskView::EndCall(saved, height) => {
                lemma_end_call_inside(rest, saved, height, outcome, base, floor);
            },
            _ => {
                lemma_unwind_inside(rest, outcome, base, floor, chain_past(chain, m.tasks.last()));
            },
        }
    }
}

/// A `return` asks nothing of the host, unless the program fails.
pub proof fn lemma_unwind_fails_or_goes(m: MachineView, outcome: ReturnView)
    ensures
        m.unwind(outcome).action is None || m.unwind(outcome).action matches Some(
            ActionView::Failed(_),
        ),
    decreases m.tasks.len(),
{
    if m.tasks.len() > 0 {
        match m.tasks.last() {
            TaskView::EndCall(saved, height) => {},
            _ => {
                lemma_unwind_fails_or_goes(m.pop_task(), outcome);
            },
        }
    }
}

/// A call keeps to the scopes above the first `floor`: the body runs in a
/// scope that the call opens.
pub proof fn lemma_call_inside(m: MachineView, count: usize, base: int, floor: int)
    requires
        ready(m, base, floor),
        m.environment.scopes.len() < usize::MAX,
    ensures
        kept_inside(m.call(count), m.environment, base, floor),
{
    if m.values.len() >= count + 1 {
        let bottom = m.values.len() - count - 1;
        let rest = m.with_values(m.values.take(bottom));
        let arguments = m.values.subrange(bottom + 1, m.values.len() as int);
        match m.values[bottom] {
            ObjectView::Function(function) => {
                let step = rest.invoke(function, arguments);
                if step.action is None {
                    let e = m.environment;
                    lemma_no_stray(function.closure, e.scopes.len() as int, 0);
                    let entered = e.entered(function.closure);
                    assert(entered.wf());
                    let inside = bound_parameters(entered, function.params, arguments, 0);
                    lemma_bound_parameters_sound(entered, function.params, arguments, 0);
                    assert forall|id: int| 0 <= id < floor && id < inside.scopes.len() implies #[trigger] same_names(
                        e,
                        inside,
                        id,
                    ) by {
                        lemma_bound_parameters_others(
                            entered,
                            function.params,
                            arguments,
                            0,
                            id,
                        );
                    }
                    let end = TaskView::EndCall(e.chain, m.values.take(bottom).len() as usize);
                    let body = reversed_executes(function.body);
                    let counting = m.tasks.skip(base);
                    assert(step.after.tasks.skip(base) =~= counting.push(end) + body);
                    assert(counting.push(end).drop_last() =~= counting);
                    lemma_executes_neutral(function.body);
                    lemma_inside_pushes(inside.chain, counting.push(end), body, floor);
                }
            },
            _ => {},
        }
    }
}

/// Taking an expression apart keeps to the scopes above the first `floor`.
pub proof fn lemma_evaluate_inside(m: MachineView, expression: ExprView, base: int, floor: int)
    requires
        ready(m, base, floor),
    ensures
        kept_inside(m.evaluate(expression), m.environment, base, floor),
{
    match expression {
        ExprView::Grouping { grouping } => {
            lemma_ready_push(m, TaskView::Evaluate(*grouping), base, floor);
        },
        ExprView::Assign { name, value } => {
            lemma_ready_push(m, TaskView::Assign(name), base, floor);
            lemma_ready_push(
                m.push_task(TaskView::Assign(name)),
                TaskView::Evaluate(*value),
                base,
                floor,
            );
        },
        ExprView::Unary { operator, right } => {
            lemma_ready_push(m, TaskView::Unary(operator), base, floor);
            lemma_ready_push(
                m.push_task(TaskView::Unary(operator)),
                TaskView::Evaluate(*right),
                base,
                floor,
            );
        },
        ExprView::Binary { left, operator, right } => {
            let first = m.push_task(TaskView::Binary(operator));
            let second = first.push_task(TaskView::Evaluate(*right));
            lemma_ready_push(m, TaskView::Binary(operator), base, floor);
            lemma_ready_push(first, TaskView::Evaluate(*right), base, floor);
            lemma_ready_push(second, TaskView::Evaluate(*left), base, floor);
        },
        ExprView::Logical { left, operator, right } => {
            let first = m.push_task(TaskView::Logical(operator, *right));
            lemma_ready_push(m, TaskView::Logical(operator, *right), base, floor);
            lemma_ready_push(first, TaskView::Evaluate(*left), base, floor);
        },
        ExprView::Call { callee, paren, arguments } => {
            let call = TaskView::Call(paren, arguments.len() as usize);
            let first = m.push_task(call);
            lemma_ready_push(m, call, base, floor);
            lemma_evaluates_neutral(arguments);
            lemma_ready_pushes(first, reversed_evaluates(arguments), base, floor);
            let second = first.with_tasks(first.tasks + reversed_evaluates(arguments));
            lemma_ready_push(second, TaskView::Evaluate(*callee), base, floor);
        },
        _ => {},
    }
}

/// Taking a statement apart keeps to the scopes above the first `floor`: a
/// block opens a scope of its own, and a declaration binds its name in the
/// innermost scope in sight.
pub proof fn lemma_execute_inside(m: MachineView, statement: StmtView, base: int, floor: int)
    requires
        ready(m, base, floor),
        m.environment.scopes.len() < usize::MAX,
    ensures
        kept_inside(m.execute(statement), m.environment, base, floor),
{
    match statement {
        StmtView::Expression(e) => {
            lemma_ready_push(m, TaskView::Discard, base, floor);
            lemma_ready_push(m.push_task(TaskView::Discard), TaskView::Evaluate(e), base, floor);
        },
        StmtView::Print(e) => {
            lemma_ready_push(m, TaskView::Print, base, floor);
            lemma_ready_push(m.push_task(TaskView::Print), TaskView::Evaluate(e), base, floor);
        },
        StmtView::Var { name, initializer } => match initializer {
            Some(e) => {
                lemma_ready_push(m, TaskView::Define(name), base, floor);
                lemma_ready_push(
                    m.push_task(TaskView::Define(name)),
                    TaskView::Evaluate(e),
                    base,
                    floor,
                );
            },
            None => {
                lemma_define_inside(m, name, ObjectView::Nil, base, floor);
            },
        },
        StmtView::Block(statements) => {
            let inside = m.with_environment(m.environment.pushed());
            let body = reversed_executes(statements);
            let after = inside.with_tasks(m.tasks.push(TaskView::EndScope) + body);
            let counting = m.tasks.skip(base);
            assert(after.tasks.skip(base) =~= counting.push(TaskView::EndScope) + body);
            assert(counting.push(TaskView::EndScope).drop_last() =~= counting);
            assert(after.environment.chain.drop_last() =~= m.environment.chain);
            lemma_executes_neutral(statements);
            lemma_inside_pushes(
                after.environment.chain,
                counting.push(TaskView::EndScope),
                body,
                floor,
            );
        },
        StmtView::If { condition, then, els } => {
            let branch = TaskView::Branch(
                *then,
                match els {
                    Some(s) => Some(*s),
                    None => None,
                },
            );
            lemma_ready_push(m, branch, base, floor);
            lemma_ready_push(m.push_task(branch), TaskView::Evaluate(condition), base, floor);
        },
        StmtView::While { condition, body } => {
            let again = TaskView::Loop(condition, *body);
            lemma_ready_push(m, again, base, floor);
            lemma_ready_push(m.push_task(again), TaskView::Evaluate(condition), base, floor);
        },
        StmtView::Function { name, params, body } => {
            if params.len() <= max_arity() {
                let capturing = m.with_environment(m.environment.capturing());
                lemma_marked_len(m.environment, m.environment.chain.len() as int);
                lemma_define_inside(
                    capturing,
                    name,
                    ObjectView::Function(
                        FunctionView { name, params, body, closure: m.environment.chain },
                    ),
                    base,
                    floor,
                );
            }
        },
        StmtView::Return { token, value } => match value {
            Some(e) => {
                lemma_ready_push(m, TaskView::Return, base, floor);
                lemma_ready_push(m.push_task(TaskView::Return), TaskView::Evaluate(e), base, floor);
            },
            None => {
                lemma_unwind_inside(m, ReturnView::Bare, base, floor, m.environment.chain);
            },
        },
    }
}

/// A task that takes the value on top keeps to the scopes above the first
/// `floor`: an assignment binds anew a name that its scope binds.
pub proof fn lemma_apply_inside(
    m: MachineView,
    task: TaskView,
    value: ObjectView,
    base: int,
    floor: int,
)
    requires
        ready(m, base, floor),
    ensures
        kept_inside(m.apply(task, value), m.environment, base, floor),
{
    match task {
        TaskView::Define(name) => {
            lemma_define_inside(m, name, value, base, floor);
        },
        TaskView::Assign(name) => {
            if name.lexeme is Some {
                let text = name.lexeme->Some_0;
                lemma_holder_in_sight(m.environment, text, m.environment.chain.len() as int);
                match m.environment.holder(text, m.environment.chain.len() as int) {
                    Some(id) => {
                        lemma_bound_sound(m.environment, id, text, value);
                        lemma_names_bound_again(m.environment, id, text, value, floor);
                    },
                    None => {},
                }
            }
        },
        TaskView::Logical(operator, right) => {
            lemma_ready_push(m, TaskView::Evaluate(right), base, floor);
        },
        TaskView::Branch(then, els) => {
            lemma_ready_push(m, TaskView::Execute(then), base, floor);
            match els {
                Some(s) => {
                    lemma_ready_push(m, TaskView::Execute(s), base, floor);
                },
                None => {},
            }
        },
        TaskView::Loop(condition, body) => {
            let first = m.push_task(TaskView::Loop(condition, body));
            let second = first.push_task(TaskView::Evaluate(condition));
            lemma_ready_push(m, TaskView::Loop(condition, body), base, floor);
            lemma_ready_push(first, TaskView::Evaluate(condition), base, floor);
            lemma_ready_push(second, TaskView::Execute(body), base, floor);
        },
        TaskView::Return => {
            lemma_unwind_inside(m, ReturnView::Value(value), base, floor, m.environment.chain);
        },
        _ => {},
    }
}

/// Every step keeps to the scopes above the first `floor`, where the tasks
/// above the lowest `base` do.
pub proof fn lemma_step_inside(m: MachineView, base: int, floor: int)
    requires
        within(m, base, floor),
        m.tasks.len() > base,
        m.environment.scopes.len() < usize::MAX,
    ensures
        kept_inside(m.step(), m.environment, base, floor),
{
    let counting = m.tasks.skip(base);
    let task = m.tasks.last();
    let rest = m.pop_task();
    assert(counting.last() == task);
    assert(rest.tasks.skip(base) =~= counting.drop_last());
    match task {
        TaskView::Execute(statement) => {
            lemma_execute_inside(rest, statement, base, floor);
        },
        TaskView::Evaluate(expression) => {
            lemma_evaluate_inside(rest, expression, base, floor);
        },
        TaskView::EndScope => {
            if rest.environment.chain.len() > 1 {
                let outside = rest.environment.seeing(rest.environment.chain.drop_last());
                lemma_released(outside);
            }
        },
        TaskView::EndCall(chain, height) => {
            lemma_end_call_inside(rest, chain, height, ReturnView::Nothing, base, floor);
        },
        TaskView::Call(paren, count) => {
            lemma_call_inside(rest, count, base, floor);
        },
        _ => {
            if rest.values.len() > 0 {
                lemma_apply_inside(rest.pop_value(), task, rest.values.last(), base, floor);
            }
        },
    }
}

/// Tasks that keep to the scopes above the first `floor` leave, once they
/// have run to their end, the names of the first `floor` scopes as they
/// were.
pub proof fn lemma_run_inside(
    m: MachineView,
    base: int,
    floor: int,
    answers: Seq<Option<u64>>,
    fuel: nat,
)
    requires
        within(m, base, floor),
    ensures
        settled(m, base, answers, fuel) matches Some(after) ==> names_kept(
            m.environment,
            after.environment,
            floor,
        ),
    decreases fuel,
{
    if m.tasks.len() > base && fuel > 0 && m.environment.scopes.len() < usize::MAX {
        lemma_step_inside(m, base, floor);
        let step = m.step();
        match step.action {
            None => {
                if step.after.tasks.len() >= base {
                    lemma_run_inside(step.after, base, floor, answers, (fuel - 1) as nat);
                    match settled(step.after, base, answers, (fuel - 1) as nat) {
                        Some(after) => {
                            lemma_names_through(
                                m.environment,
                                step.after.environment,
                                after.environment,
                                floor,
                            );
                        },
                        None => {},
                    }
                }
            },
            Some(ActionView::Failed(_)) => {},
            Some(_) => {
                if answers.len() > 0 && step.after.tasks.len() >= base {
                    let next = step.after.answered(answers[0]);
                    assert(next.tasks == step.after.tasks);
                    assert(next.environment == step.after.environment);
                    lemma_run_inside(next, base, floor, answers.drop_first(), (fuel - 1) as nat);
                    match settled(next, base, answers.drop_first(), (fuel - 1) as nat) {
                        Some(after) => {
                            lemma_names_through(
                                m.environment,
                                next.environment,
                                after.environment,
                                floor,
                            );
                        },
                        None => {},
                    }
                }
            },
        }
    }
}

/// Names that are kept from one environment to a second, and from there to
/// a third, are kept from the first to the third.
pub proof fn lemma_names_through(
    first: EnvironmentView,
    second: EnvironmentView,
    third: EnvironmentView,
    floor: int,
)
    requires
        names_kept(first, second, floor),
        names_kept(second, third, floor),
    ensures
        names_kept(first, third, floor),
{
    assert forall|id: int| 0 <= id < floor && id < third.scopes.len() implies #[trigger] same_names(
        first,
        third,
        id,
    ) by {
        assert(same_names(second, third, id));
        assert(same_names(first, second, id));
    }
}

/// Where the same scopes are in sight and each binds the same names, every
/// name is found in the same scope.
pub proof fn lemma_holder_by_names(
    a: EnvironmentView,
    b: EnvironmentView,
    name: Seq<char>,
    depth: int,
)
    requires
        a.wf(),
        b.wf(),
        a.chain == b.chain,
        0 <= depth <= a.chain.len(),
        forall|i: int|
            0 <= i < a.chain.len() ==> a.scopes[(#[trigger] a.chain[i]) as int].dom()
                == b.scopes[a.chain[i] as int].dom(),
    ensures
        a.holder(name, depth) == b.holder(name, depth),
    decreases depth,
{
    if depth > 0 {
        lemma_holder_by_names(a, b, name, depth - 1);
        let id = a.chain[depth - 1];
        assert(a.scopes[id as int].dom() == b.scopes[id as int].dom());
    }
}

/// What a block declares, it declares in scopes of its own. Whatever the
/// statements of a block are, and whatever they call: once the block has
/// run to its end, the scopes that were in sight before it are in sight
/// again, and each binds the names that it bound before the block, and no
/// other; so does every other scope that was held before and still is.
/// Their values may have changed, by assignment; no name was added. So a
/// name has a value after the block if and only if it had one before: what
/// the block declared is unbound again.
pub proof fn a_block_adds_no_name_outside(
    m: MachineView,
    statements: Seq<StmtView>,
    answers: Seq<Option<u64>>,
    fuel: nat,
)
    requires
        m.wf(),
        m.tasks.len() >= 1,
    ensures
        settled(
            m.push_task(TaskView::Execute(StmtView::Block(statements))),
            m.tasks.len() as int,
            answers,
            fuel,
        ) matches Some(after) ==> {
            &&& after.tasks == m.tasks
            &&& after.environment.chain == m.environment.chain
            &&& forall|i: int|
                0 <= i < m.environment.chain.len() ==> (#[trigger] m.environment.chain[i])
                    < after.environment.scopes.len()
                    && after.environment.scopes[m.environment.chain[i] as int].dom()
                    == m.environment.scopes[m.environment.chain[i] as int].dom()
            &&& names_kept(m.environment, after.environment, m.environment.scopes.len() as int)
            &&& forall|name: Seq<char>|
                (#[trigger] after.environment.lookup(name)) is Some <==> m.environment.lookup(
                    name,
                ) is Some
        },
{
    let block = StmtView::Block(statements);
    let start = m.push_task(TaskView::Execute(block));
    let base = m.tasks.len() as int;
    let floor = m.environment.scopes.len() as int;
    a_statement_leaves_in_sight_what_was(m, block, answers, fuel);
    if fuel > 0 && m.environment.scopes.len() < usize::MAX {
        assert(start.pop_task().tasks =~= m.tasks);
        let first = start.step().after;
        let body = reversed_executes(statements);
        let inside = m.environment.pushed();
        assert(first.environment == inside);
        assert(first.tasks =~= m.tasks.push(TaskView::EndScope) + body);
        let counting = seq![TaskView::EndScope];
        assert(first.tasks.skip(base) =~= counting + body);
        assert(counting.drop_last() =~= Seq::<TaskView>::empty());
        assert(inside.chain.last() == floor);
        assert(counting.last() == TaskView::EndScope);
        assert(stays_inside(chain_past(inside.chain, counting.last()), counting.drop_last(), floor));
        assert(stays_inside(inside.chain, counting, floor));
        lemma_executes_neutral(statements);
        lemma_inside_pushes(inside.chain, counting, body, floor);
        lemma_run_inside(first, base, floor, answers, (fuel - 1) as nat);
        match settled(start, base, answers, fuel) {
            Some(after) => {
                assert(settled(first, base, answers, (fuel - 1) as nat) == Some(after));
                scopes_in_sight_follow_the_tasks(start, base, answers, fuel);
                assert forall|i: int| 0 <= i < m.environment.chain.len() implies (
                #[trigger] m.environment.chain[i]) < after.environment.scopes.len()
                    && after.environment.scopes[m.environment.chain[i] as int].dom()
                    == m.environment.scopes[m.environment.chain[i] as int].dom() by {
                    assert(after.environment.chain[i] < after.environment.scopes.len());
                    assert(same_names(inside, after.environment, m.environment.chain[i] as int));
                    assert(inside.scopes[m.environment.chain[i] as int]
                        == m.environment.scopes[m.environment.chain[i] as int]);
                }
                assert forall|id: int|
                    0 <= id < floor && id < after.environment.scopes.len() implies #[trigger] same_names(
                    m.environment,
                    after.environment,
                    id,
                ) by {
                    assert(same_names(inside, after.environment, id));
                }
                assert forall|name: Seq<char>|
                    (#[trigger] after.environment.lookup(name)) is Some <==> m.environment.lookup(
                        name,
                    ) is Some by {
                    lemma_holder_by_names(
                        m.environment,
                        after.environment,
                        name,
                        m.environment.chain.len() as int,
                    );
                }
            },
            None => {},
        }
    }
}

/// Where a machine comes to once its tasks above the lowest `base` are
/// done with, whether they have run to their end or a `return` has given
/// them up, the host answering each question of the machine with the next
/// of `answers`: nowhere, if the program fails, if the host stops
/// answering, if the machine holds as many scopes as it can, or if those
/// tasks are not done with after `fuel` steps.
pub open spec fn ended(
    m: MachineView,
    base: int,
    answers: Seq<Option<u64>>,
    fuel: nat,
) -> Option<MachineView>
    decreases fuel,
{
    if m.tasks.len() <= base {
        Some(m)
    } else if fuel == 0 || m.environment.scopes.len() >= usize::MAX {
        None
    } else {
        let step = m.step();
        match step.action {
            None => ended(step.after, base, answers, (fuel - 1) as nat),
            Some(ActionView::Failed(_)) => None,
            Some(_) => {
                if answers.len() > 0 {
                    ended(
                        step.after.answered(answers[0]),
                        base,
                        answers.drop_first(),
                        (fuel - 1) as nat,
                    )
                } else {
                    None
                }
            },
        }
    }
}

/// Whether `after` is a machine in which the end of a call has brought the
/// scopes `saved` back in sight and left the outcome of the call on top of
/// the values, with the tasks `tasks` left to do, and in which the first
/// `floor` scopes bind the names that they bind in `before`.
pub open spec fn landed(
    after: MachineView,
    before: EnvironmentView,
    tasks: Seq<TaskView>,
    saved: Seq<usize>,
    floor: int,
) -> bool {
    &&& after.wf()
    &&& after.tasks == tasks
    &&& after.environment.chain == saved
    &&& after.values.len() >= 1
    &&& names_kept(before, after.environment, floor)
}

/// The end of a call brings the scopes of the caller back in sight and
/// leaves the outcome on top of the values, unless the program fails.
pub proof fn lemma_end_call_lands(
    m: MachineView,
    saved: Seq<usize>,
    height: usize,
    outcome: ReturnView,
    floor: int,
)
    requires
        m.wf(),
    ensures
        m.end_call(saved, height, outcome).action matches Some(ActionView::Failed(_)) || (m.end_call(
            saved,
            height,
            outcome,
        ).action is None && landed(
            m.end_call(saved, height, outcome).after,
            m.environment,
            m.tasks,
            saved,
            floor,
        )),
{
    if saved.len() > 0 && stray(saved, m.environment.scopes.len() as int, 0) is None {
        lemma_restored_sound(m.environment, saved);
        lemma_no_stray(saved, m.environment.scopes.len() as int, 0);
        lemma_released(m.environment.seeing(saved));
    }
}

/// A `return` above the end of a call at `base` ends an inner call, or
/// that call, unless the program fails.
pub proof fn lemma_unwind_lands(
    m: MachineView,
    outcome: ReturnView,
    base: int,
    saved: Seq<usize>,
    height: usize,
    floor: int,
)
    requires
        m.wf(),
        0 <= base < m.tasks.len(),
        m.tasks[base] == TaskView::EndCall(saved, height),
    ensures
        ({
            let step = m.unwind(outcome);
            ||| step.action matches Some(ActionView::Failed(_))
            ||| step.after.tasks.len() >= base + 1
            ||| (step.action is None && landed(
                step.after,
                m.environment,
                m.tasks.take(base),
                saved,
                floor,
            ))
        }),
    decreases m.tasks.len(),
{
    let rest = m.pop_task();
    if m.tasks.len() == base + 1 {
        assert(rest.tasks =~= m.tasks.take(base));
        lemma_end_call_lands(rest, saved, height, outcome, floor);
    } else {
        match m.tasks.last() {
            TaskView::EndCall(inner, cut) => {
                lemma_end_call_lands(rest, inner, cut, outcome, floor);
            },
            _ => {
                assert(rest.tasks.take(base) =~= m.tasks.take(base));
                lemma_unwind_lands(rest, outcome, base, saved, height, floor);
            },
        }
    }
}

/// A step above the end of a call at `base` leaves that task where it is,
/// unless the program fails or a `return` ends that call.
pub proof fn lemma_step_lands(
    m: MachineView,
    base: int,
    saved: Seq<usize>,
    height: usize,
    floor: int,
)
    requires
        m.wf(),
        0 <= base,
        m.tasks.len() >= base + 2,
        m.tasks[base] == TaskView::EndCall(saved, height),
    ensures
        ({
            let step = m.step();
            ||| step.action matches Some(ActionView::Failed(_))
            ||| step.after.tasks.len() >= base + 1
            ||| (step.action is None && landed(
                step.after,
                m.environment,
                m.tasks.take(base),
                saved,
                floor,
            ))
        }),
{
    let task = m.tasks.last();
    let rest = m.pop_task();
    assert(rest.tasks.take(base) =~= m.tasks.take(base));
    match task {
        TaskView::Execute(statement) => {
            match statement {
                StmtView::Return { token, value } => {
                    lemma_unwind_lands(rest, ReturnView::Bare, base, saved, height, floor);
                },
                _ => {},
            }
        },
        TaskView::Return => {
            if rest.values.len() > 0 {
                lemma_unwind_lands(
                    rest.pop_value(),
                    ReturnView::Value(rest.values.last()),
                    base,
                    saved,
                    height,
                    floor,
                );
            }
        },
        _ => {},
    }
}

/// Tasks above the end of a call, once they are done with, have left the
/// scopes of the caller in sight, the tasks of the caller to do, and the
/// names of the first `floor` scopes as they were, where they keep to the
/// scopes above those.
pub proof fn lemma_run_ends(
    m: MachineView,
    base: int,
    floor: int,
    saved: Seq<usize>,
    height: usize,
    answers: Seq<Option<u64>>,
    fuel: nat,
)
    requires
        m.wf(),
        0 <= base < m.tasks.len(),
        0 <= floor,
        m.tasks[base] == TaskView::EndCall(saved, height),
        stays_inside(m.environment.chain, m.tasks.skip(base + 1), floor),
    ensures
        ended(m, base, answers, fuel) matches Some(after) ==> landed(
            after,
            m.environment,
            m.tasks.take(base),
            saved,
            floor,
        ),
    decreases fuel,
{
    if fuel > 0 && m.environment.scopes.len() < usize::MAX {
        let step = m.step();
        if m.tasks.len() == base + 1 {
            let rest = m.pop_task();
            assert(rest.tasks =~= m.tasks.take(base));
            lemma_end_call_lands(rest, saved, height, ReturnView::Nothing, floor);
        } else {
            let below = m.tasks.take(base + 1);
            lemma_step_inside(m, base + 1, floor);
            lemma_step_lands(m, base, saved, height, floor);
            lemma_step_keeps(m, below);
            if !(step.action matches Some(ActionView::Failed(_))) && step.after.tasks.len() >= base
                + 1 {
                assert(step.after.tasks.take(base + 1) == below);
                assert(step.after.tasks[base] == below[base]);
                assert(step.after.tasks.take(base) =~= m.tasks.take(base));
                match step.action {
                    None => {
                        lemma_run_ends(
                            step.after,
                            base,
                            floor,
                            saved,
                            height,
                            answers,
                            (fuel - 1) as nat,
                        );
                        match ended(step.after, base, answers, (fuel - 1) as nat) {
                            Some(after) => {
                                lemma_names_through(
                                    m.environment,
                                    step.after.environment,
                                    after.environment,
                                    floor,
                                );
                            },
                            None => {},
                        }
                    },
                    Some(_) => {
                        if answers.len() > 0 {
                            let next = step.after.answered(answers[0]);
                            assert(next.tasks == step.after.tasks);
                            assert(next.environment == step.after.environment);
                            lemma_run_ends(
                                next,
                                base,
                                floor,
                                saved,
                                height,
                                answers.drop_first(),
                                (fuel - 1) as nat,
                            );
                            match ended(next, base, answers.drop_first(), (fuel - 1) as nat) {
                                Some(after) => {
                                    lemma_names_through(
                                        m.environment,
                                        next.environment,
                                        after.environment,
                                        floor,
                                    );
                                },
                                None => {},
                            }
                        }
                    },
                }
            }
        }
    }
}

/// Statements that are given to run leave in sight what was in sight,
/// however they end. Whatever the statements are, and whatever lies beneath
/// them, or nothing: once they are done with, by running to their end or by
/// a `return` from any depth of blocks and loops among them, the scopes
/// that were in sight are in sight again, the tasks that there were are
/// left to do, and the outcome lies on top of the values.
pub proof fn scheduled_statements_leave_in_sight_what_was(
    m: MachineView,
    statements: Seq<StmtView>,
    answers: Seq<Option<u64>>,
    fuel: nat,
)
    requires
        m.wf(),
    ensures
        ended(m.scheduled(statements), m.tasks.len() as int, answers, fuel) matches Some(
            after,
        ) ==> {
            &&& after.wf()
            &&& after.tasks == m.tasks
            &&& after.environment.chain == m.environment.chain
            &&& after.values.len() >= 1
        },
{
    let start = m.scheduled(statements);
    let base = m.tasks.len() as int;
    let body = reversed_executes(statements);
    assert(start.tasks.take(base) =~= m.tasks);
    assert(start.tasks.skip(base + 1) =~= Seq::<TaskView>::empty() + body);
    lemma_executes_neutral(statements);
    lemma_inside_pushes(m.environment.chain, Seq::empty(), body, 0);
    match start.tasks[base] {
        TaskView::EndCall(saved, height) => {
            lemma_run_ends(start, base, 0, saved, height, answers, fuel);
        },
        _ => {},
    }
}

/// A block that is given to run adds no name to the scopes around it,
/// however it ends. Whatever the statements of the block are, and whatever
/// lies beneath it, or nothing: once the block is done with, by running to
/// its end or by a `return` inside it, its scope is out of sight, the
/// scopes that were in sight are in sight again, and each binds the names
/// that it bound before, and no other; so does every other scope that was
/// held before and still is. A name has a value after the block if and only
/// if it had one before: what the block declared is unbound again.
pub proof fn a_scheduled_block_adds_no_name_outside(
    m: MachineView,
    statements: Seq<StmtView>,
    answers: Seq<Option<u64>>,
    fuel: nat,
)
    requires
        m.wf(),
    ensures
        ended(
            m.scheduled(seq![StmtView::Block(statements)]),
            m.tasks.len() as int,
            answers,
            fuel,
        ) matches Some(after) ==> {
            &&& after.wf()
            &&& after.tasks == m.tasks
            &&& after.environment.chain == m.environment.chain
            &&& forall|i: int|
                0 <= i < m.environment.chain.len() ==> (#[trigger] m.environment.chain[i])
                    < after.environment.scopes.len()
                    && after.environment.scopes[m.environment.chain[i] as int].dom()
                    == m.environment.scopes[m.environment.chain[i] as int].dom()
            &&& names_kept(m.environment, after.environment, m.environment.scopes.len() as int)
            &&& forall|name: Seq<char>|
                (#[trigger] after.environment.lookup(name)) is Some <==> m.environment.lookup(
                    name,
                ) is Some
        },
{
    let block = StmtView::Block(statements);
    let start = m.scheduled(seq![block]);
    let base = m.tasks.len() as int;
    let floor = m.environment.scopes.len() as int;
    let end = start.tasks[base];
    let only = seq![block];
    assert(only.drop_first() =~= Seq::<StmtView>::empty());
    assert(reversed_executes(only.drop_first()) =~= Seq::<TaskView>::empty());
    assert(reversed_executes(only) =~= seq![TaskView::Execute(block)]);
    assert(start.tasks =~= m.tasks.push(end).push(TaskView::Execute(block)));
    if fuel > 0 && m.environment.scopes.len() < usize::MAX {
        assert(start.pop_task().tasks =~= m.tasks.push(end));
        let first = start.step().after;
        let body = reversed_executes(statements);
        let inside = m.environment.pushed();
        assert(first.environment == inside);
        assert(first.tasks =~= m.tasks.push(end).push(TaskView::EndScope) + body);
        let counting = seq![TaskView::EndScope];
        assert(first.tasks.skip(base + 1) =~= counting + body);
        assert(first.tasks.take(base) =~= m.tasks);
        assert(counting.drop_last() =~= Seq::<TaskView>::empty());
        assert(inside.chain.last() == floor);
        assert(counting.last() == TaskView::EndScope);
        assert(stays_inside(chain_past(inside.chain, counting.last()), counting.drop_last(), floor));
        assert(stays_inside(inside.chain, counting, floor));
        lemma_executes_neutral(statements);
        lemma_inside_pushes(inside.chain, counting, body, floor);
        match end {
            TaskView::EndCall(saved, height) => {
                lemma_run_ends(first, base, floor, saved, height, answers, (fuel - 1) as nat);
            },
            _ => {},
        }
        match ended(start, base, answers, fuel) {
            Some(after) => {
                assert(ended(first, base, answers, (fuel - 1) as nat) == Some(after));
                assert forall|i: int| 0 <= i < m.environment.chain.len() implies (
                #[trigger] m.environment.chain[i]) < after.environment.scopes.len()
                    && after.environment.scopes[m.environment.chain[i] as int].dom()
                    == m.environment.scopes[m.environment.chain[i] as int].dom() by {
                    assert(after.environment.chain[i] < after.environment.scopes.len());
                    assert(same_names(inside, after.environment, m.environment.chain[i] as int));
                    assert(inside.scopes[m.environment.chain[i] as int]
                        == m.environment.scopes[m.environment.chain[i] as int]);
                }
                assert forall|id: int|
                    0 <= id < floor && id < after.environment.scopes.len() implies #[trigger] same_names(
                    m.environment,
                    after.environment,
                    id,
                ) by {
                    assert(same_names(inside, after.environment, id));
                }
                assert forall|name: Seq<char>|
                    (#[trigger] after.environment.lookup(name)) is Some <==> m.environment.lookup(
                        name,
                    ) is Some by {
                    lemma_holder_by_names(
                        m.environment,
                        after.environment,
                        name,
                        m.environment.chain.len() as int,
                    );
                }
            },
            None => {},
        }
    }
}

} // verus!
