use crate::ast::StmtView;
use crate::data_types::{FunctionView, ObjectView, ReturnView};
use crate::environment::{lemma_no_stray, stray, EnvironmentView};
use crate::interpreter::{
    bound_parameters, call_runs_in_the_captured_scopes, lemma_all_named,
    lemma_bound_parameters_elsewhere, nameless, reversed_executes, MachineView, Step, TaskView,
};
use crate::scope_discipline::{
    lemma_bound_parameters_sound, lemma_bound_sound, lemma_restored_sound,
};
use crate::token::TokenView;
use vstd::prelude::*;

verus! {

/// Whether none of the tasks is the end of a call.
pub open spec fn ends_no_call(tasks: Seq<TaskView>) -> bool {
    forall|i: int| 0 <= i < tasks.len() ==> !(#[trigger] tasks[i] is EndCall)
}

/// A `return` gives up every task above the end of the nearest call, and
/// ends that call.
pub proof fn lemma_unwind_reaches_the_call(
    m: MachineView,
    saved: Seq<usize>,
    height: usize,
    above: Seq<TaskView>,
    outcome: ReturnView,
)
    requires
        ends_no_call(above),
    ensures
        m.with_tasks(m.tasks.push(TaskView::EndCall(saved, height)) + above).unwind(outcome)
            == m.end_call(saved, height, outcome),
    decreases above.len(),
{
    let end = TaskView::EndCall(saved, height);
    let start = m.with_tasks(m.tasks.push(end) + above);
    if above.len() == 0 {
        assert(start.tasks =~= m.tasks.push(end));
        assert(start.pop_task().tasks =~= m.tasks);
        assert(start.pop_task() == m);
    } else {
        assert(start.tasks.last() == above.last());
        assert(start.pop_task().tasks =~= m.tasks.push(end) + above.drop_last());
        assert(start.pop_task() == m.with_tasks(m.tasks.push(end) + above.drop_last()));
        lemma_unwind_reaches_the_call(m, saved, height, above.drop_last(), outcome);
    }
}

/// Whether no parameter after the one at `i` has its name.
pub open spec fn is_last_of_its_name(params: Seq<TokenView>, i: int) -> bool {
    forall|j: int| i < j < params.len() ==> (#[trigger] params[j]).lexeme != params[i].lexeme
}

/// Whether `name` is the name of no parameter.
pub open spec fn is_no_parameter(params: Seq<TokenView>, name: Seq<char>) -> bool {
    forall|i: int| 0 <= i < params.len() ==> (#[trigger] params[i]).lexeme != Some(name)
}

/// A name that was just defined has the value that it was defined with.
pub proof fn lemma_defined_binds(e: EnvironmentView, name: Seq<char>, value: ObjectView)
    requires
        e.wf(),
    ensures
        e.defined(name, value).lookup(name) == Some(value),
{
    let after = e.defined(name, value);
    assert(after.scopes[e.innermost()].contains_key(name));
    assert(after.scopes[e.innermost()][name] == value);
}

/// Among the parameters from `from` on, one whose name no later parameter
/// has is bound to its argument.
pub proof fn lemma_parameter_bound(
    e: EnvironmentView,
    params: Seq<TokenView>,
    arguments: Seq<ObjectView>,
    from: int,
    i: int,
)
    requires
        e.wf(),
        0 <= from <= i < params.len(),
        params.len() == arguments.len(),
        forall|k: int| 0 <= k < params.len() ==> (#[trigger] params[k]).lexeme is Some,
        is_last_of_its_name(params, i),
    ensures
        bound_parameters(e, params, arguments, from).lookup(params[i].lexeme->Some_0) == Some(
            arguments[i],
        ),
    decreases i - from,
{
    let name = params[from].lexeme->Some_0;
    let next = e.defined(name, arguments[from]);
    lemma_bound_sound(e, e.innermost(), name, arguments[from]);
    if from == i {
        lemma_defined_binds(e, name, arguments[from]);
        assert forall|k: int| from + 1 <= k < params.len() implies (#[trigger] params[k]).lexeme
            is Some && params[k].lexeme != Some(name) by {
            assert(params[k].lexeme != params[i].lexeme);
        }
        lemma_bound_parameters_elsewhere(next, params, arguments, from + 1, name);
    } else {
        lemma_parameter_bound(next, params, arguments, from + 1, i);
    }
}

/// Whether `step` asks nothing of the host and leaves the tasks and the
/// scopes in sight of `m`, and `value` on top of the values that `m` had,
/// as far as `later` still holds them.
pub open spec fn left_with(step: Step, m: MachineView, later: MachineView, value: ObjectView) -> bool {
    &&& step.action is None
    &&& step.after.wf()
    &&& step.after.tasks == m.tasks
    &&& step.after.environment.chain == m.environment.chain
    &&& step.after.values == later.values.take(m.values.len() as int).push(value)
}

/// Above the end of a call that `m` has left, a `return` leaves its value
/// with `m`, and so does the end of the call itself, with `nil`.
pub proof fn lemma_outcome_is_left(
    m: MachineView,
    later: MachineView,
    above: Seq<TaskView>,
    value: ObjectView,
)
    requires
        m.wf(),
        m.values.len() <= usize::MAX,
        later.wf(),
        later.tasks == m.tasks.push(
            TaskView::EndCall(m.environment.chain, m.values.len() as usize),
        ) + above,
        ends_no_call(above),
        later.values.len() >= m.values.len(),
        stray(m.environment.chain, later.environment.scopes.len() as int, 0) is None,
    ensures
        left_with(
            later.push_task(TaskView::Return).push_value(value).step(),
            m,
            later,
            value,
        ),
        above.len() == 0 ==> left_with(later.step(), m, later, ObjectView::Nil),
{
    let saved = m.environment.chain;
    let height = m.values.len() as usize;
    let end = TaskView::EndCall(saved, height);
    let caller = later.with_tasks(m.tasks);
    lemma_restored_sound(later.environment, saved);
    let start = later.push_task(TaskView::Return).push_value(value);
    let rest = start.pop_task();
    assert(rest.tasks =~= later.tasks);
    assert(rest.pop_value().values =~= later.values);
    assert(rest.pop_value() == later);
    assert(rest.values.last() == value);
    assert(later == caller.with_tasks(caller.tasks.push(end) + above));
    lemma_unwind_reaches_the_call(caller, saved, height, above, ReturnView::Value(value));
    assert(start.step() == caller.end_call(saved, height, ReturnView::Value(value)));
    if above.len() == 0 {
        assert(later.tasks =~= m.tasks.push(end));
        assert(later.pop_task().tasks =~= m.tasks);
        assert(later.pop_task() == caller);
        assert(later.step() == caller.end_call(saved, height, ReturnView::Nothing));
    }
}

/// A call gives what its body returns. A call of `function` from a machine
/// `m` leaves the end of the call under the statements of the body: the
/// task that brings back the scopes of the caller and cuts the values back
/// to those of the caller. The body runs in the scopes that the function
/// captured and one new scope: there each parameter has its argument for
/// value (the last of them, where two have one name), and a name that is no
/// parameter has the value that the captured scopes give it. Wherever the
/// body has come to (`later`: the tasks of the caller and the end of the
/// call are still below, under tasks `above` that end no inner call, and
/// the scopes of the caller are still held):
///
/// - a `return` of `value` there gives up the rest of the body and ends the
///   call: the tasks of the caller are left, its scopes are in sight again,
///   and `value` lies on top of the values that the caller had;
/// - where the body has run to its end without a `return`, the same holds
///   with `nil` for the value.
pub proof fn a_call_gives_what_its_body_returns(
    m: MachineView,
    function: FunctionView,
    arguments: Seq<ObjectView>,
    later: MachineView,
    above: Seq<TaskView>,
    value: ObjectView,
)
    requires
        m.wf(),
        m.values.len() <= usize::MAX,
        m.environment.scopes.len() < usize::MAX,
        function.params.len() == arguments.len(),
        nameless(function.params, 0) is None,
        function.closure.len() > 0,
        stray(function.closure, m.environment.scopes.len() as int, 0) is None,
        later.wf(),
        later.tasks == m.tasks.push(
            TaskView::EndCall(m.environment.chain, m.values.len() as usize),
        ) + above,
        ends_no_call(above),
        later.values.len() >= m.values.len(),
        stray(m.environment.chain, later.environment.scopes.len() as int, 0) is None,
    ensures
        m.invoke(function, arguments).action is None,
        m.invoke(function, arguments).after.tasks == m.tasks.push(
            TaskView::EndCall(m.environment.chain, m.values.len() as usize),
        ) + reversed_executes(function.body),
        m.invoke(function, arguments).after.environment.chain == function.closure.push(
            m.environment.scopes.len() as usize,
        ),
        forall|i: int|
            0 <= i < arguments.len() && is_last_of_its_name(function.params, i) ==> m.invoke(
                function,
                arguments,
            ).after.environment.lookup(function.params[i].lexeme->Some_0) == Some(
                #[trigger] arguments[i],
            ),
        forall|name: Seq<char>| #[trigger]
            is_no_parameter(function.params, name) ==> m.invoke(
                function,
                arguments,
            ).after.environment.lookup(name) == m.environment.seeing(function.closure).lookup(
                name,
            ),
        left_with(
            later.push_task(TaskView::Return).push_value(value).step(),
            m,
            later,
            value,
        ),
        above.len() == 0 ==> left_with(later.step(), m, later, ObjectView::Nil),
{
    lemma_outcome_is_left(m, later, above, value);
    let entered = m.environment.entered(function.closure);
    lemma_no_stray(function.closure, m.environment.scopes.len() as int, 0);
    lemma_all_named(function.params, 0);
    assert(entered.wf());
    assert(entered.chain =~= function.closure.push(m.environment.scopes.len() as usize));
    assert forall|i: int|
        0 <= i < arguments.len() && is_last_of_its_name(function.params, i) implies m.invoke(
        function,
        arguments,
    ).after.environment.lookup(function.params[i].lexeme->Some_0) == Some(
        #[trigger] arguments[i],
    ) by {
        lemma_parameter_bound(entered, function.params, arguments, 0, i);
    }
    assert forall|name: Seq<char>| #[trigger]
        is_no_parameter(function.params, name) implies m.invoke(
        function,
        arguments,
    ).after.environment.lookup(name) == m.environment.seeing(function.closure).lookup(name) by {
        call_runs_in_the_captured_scopes(m, function, arguments, name);
    }
    lemma_bound_parameters_sound(entered, function.params, arguments, 0);
}

/// Statements that are given to run leave their outcome on top of the
/// values. Given statements to run, a machine `m` leaves under them the
/// task that ends them as a call ends. Wherever they have come to (`later`:
/// the tasks of `m` and that task are still below, under tasks `above` that
/// end no inner call, and the scopes that were in sight are still held):
///
/// - a `return` of `value` there gives up the statements that are left:
///   the tasks of `m` are left to do, its scopes are in sight again,
///   whatever blocks were open, and `value` lies on top of the values that
///   `m` had;
/// - where the statements have run to their end without a `return`, the
///   same holds with `nil` for the value.
pub proof fn scheduled_statements_leave_their_outcome(
    m: MachineView,
    statements: Seq<StmtView>,
    later: MachineView,
    above: Seq<TaskView>,
    value: ObjectView,
)
    requires
        m.wf(),
        m.values.len() <= usize::MAX,
        later.wf(),
        later.tasks == m.scheduled(Seq::empty()).tasks + above,
        ends_no_call(above),
        later.values.len() >= m.values.len(),
        stray(m.environment.chain, later.environment.scopes.len() as int, 0) is None,
    ensures
        m.scheduled(statements).tasks == m.scheduled(Seq::empty()).tasks + reversed_executes(
            statements,
        ),
        m.scheduled(statements).environment == m.environment,
        m.scheduled(statements).values == m.values,
        left_with(
            later.push_task(TaskView::Return).push_value(value).step(),
            m,
            later,
            value,
        ),
        above.len() == 0 ==> left_with(later.step(), m, later, ObjectView::Nil),
{
    let end = TaskView::EndCall(m.environment.chain, m.values.len() as usize);
    assert(reversed_executes(Seq::<StmtView>::empty()) =~= Seq::<TaskView>::empty());
    assert(m.scheduled(Seq::empty()).tasks =~= m.tasks.push(end));
    lemma_outcome_is_left(m, later, above, value);
}

} // verus!
