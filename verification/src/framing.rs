use crate::ast::{ExprView, StmtView};
use crate::data_types::{printed, truthy, FunctionView, ObjectView, ReturnView};
use crate::interpreter::{
    reversed_evaluates, reversed_executes, ActionView, MachineView, Step, TaskView,
};
use crate::scope_discipline::{lemma_unwind_shrinks, scopes_in_sight_follow_the_tasks, settled};
use crate::token::{TokenTypeDiscriminants, TokenView};
use vstd::prelude::*;

verus! {

/// The machine with the tasks `below` in place of its lowest `base` tasks.
pub open spec fn rebased(m: MachineView, base: int, below: Seq<TaskView>) -> MachineView {
    m.with_tasks(below + m.tasks.skip(base))
}

/// The step with the tasks `below` in place of the lowest `base` tasks of
/// the machine after it.
pub open spec fn rebased_step(step: Step, base: int, below: Seq<TaskView>) -> Step {
    Step { after: rebased(step.after, base, below), action: step.action }
}

/// Whether a step neither fails nor goes below the lowest `base` tasks.
pub open spec fn stays_above(step: Step, base: int) -> bool {
    !(step.action matches Some(ActionView::Failed(_))) && step.after.tasks.len() >= base
}

/// A task more on a machine is a task more on the machine with other tasks
/// below.
pub proof fn lemma_rebased_push(m: MachineView, task: TaskView, base: int, below: Seq<TaskView>)
    requires
        0 <= base <= m.tasks.len(),
    ensures
        rebased(m.push_task(task), base, below) == rebased(m, base, below).push_task(task),
{
    assert(m.push_task(task).tasks.skip(base) =~= m.tasks.skip(base).push(task));
    assert(below + m.tasks.skip(base).push(task) =~= (below + m.tasks.skip(base)).push(task));
}

/// Tasks more on a machine are tasks more on the machine with other tasks
/// below.
pub proof fn lemma_rebased_pushes(
    m: MachineView,
    tasks: Seq<TaskView>,
    base: int,
    below: Seq<TaskView>,
)
    requires
        0 <= base <= m.tasks.len(),
    ensures
        rebased(m.with_tasks(m.tasks + tasks), base, below) == rebased(m, base, below).with_tasks(
            rebased(m, base, below).tasks + tasks,
        ),
{
    assert((m.tasks + tasks).skip(base) =~= m.tasks.skip(base) + tasks);
    assert(below + (m.tasks.skip(base) + tasks) =~= (below + m.tasks.skip(base)) + tasks);
}

/// A task less on a machine is a task less on the machine with other tasks
/// below, where the task is none of the lowest.
pub proof fn lemma_rebased_pop(m: MachineView, base: int, below: Seq<TaskView>)
    requires
        0 <= base < m.tasks.len(),
    ensures
        rebased(m, base, below).tasks.len() > below.len(),
        rebased(m, base, below).tasks.last() == m.tasks.last(),
        rebased(m, base, below).pop_task() == rebased(m.pop_task(), base, below),
{
    assert(m.pop_task().tasks.skip(base) =~= m.tasks.skip(base).drop_last());
    assert((below + m.tasks.skip(base)).drop_last() =~= below + m.tasks.skip(base).drop_last());
}

/// The end of a call does not depend on the tasks below.
pub proof fn lemma_end_call_rebased(
    m: MachineView,
    chain: Seq<usize>,
    height: usize,
    outcome: ReturnView,
    base: int,
    below: Seq<TaskView>,
)
    requires
        0 <= base <= m.tasks.len(),
        stays_above(m.end_call(chain, height, outcome), base),
    ensures
        rebased(m, base, below).end_call(chain, height, outcome) == rebased_step(
            m.end_call(chain, height, outcome),
            base,
            below,
        ),
{
}

/// A `return` that stays above the lowest tasks does not depend on them.
pub proof fn lemma_unwind_rebased(
    m: MachineView,
    outcome: ReturnView,
    base: int,
    below: Seq<TaskView>,
)
    requires
        1 <= base <= m.tasks.len(),
        below.len() >= 1,
        stays_above(m.unwind(outcome), base),
    ensures
        rebased(m, base, below).unwind(outcome) == rebased_step(m.unwind(outcome), base, below),
    decreases m.tasks.len(),
{
    if m.tasks.len() == base {
        lemma_unwind_shrinks(m, outcome);
    } else {
        lemma_rebased_pop(m, base, below);
        match m.tasks.last() {
            TaskView::EndCall(saved, height) => {
                lemma_end_call_rebased(m.pop_task(), saved, height, outcome, base, below);
            },
            _ => {
                lemma_unwind_rebased(m.pop_task(), outcome, base, below);
            },
        }
    }
}

/// Defining a name does not depend on the tasks below.
pub proof fn lemma_define_rebased(
    m: MachineView,
    name: TokenView,
    value: ObjectView,
    base: int,
    below: Seq<TaskView>,
)
    requires
        0 <= base <= m.tasks.len(),
        stays_above(m.define(name, value), base),
    ensures
        rebased(m, base, below).define(name, value) == rebased_step(
            m.define(name, value),
            base,
            below,
        ),
{
}

/// A call of a function does not depend on the tasks below.
pub proof fn lemma_invoke_rebased(
    m: MachineView,
    function: FunctionView,
    arguments: Seq<ObjectView>,
    base: int,
    below: Seq<TaskView>,
)
    requires
        0 <= base <= m.tasks.len(),
        stays_above(m.invoke(function, arguments), base),
    ensures
        rebased(m, base, below).invoke(function, arguments) == rebased_step(
            m.invoke(function, arguments),
            base,
            below,
        ),
{
    let end = TaskView::EndCall(m.environment.chain, m.values.len() as usize);
    let body = reversed_executes(function.body);
    lemma_rebased_push(m, end, base, below);
    lemma_rebased_pushes(m.push_task(end), body, base, below);
}

/// A call does not depend on the tasks below.
pub proof fn lemma_call_rebased(m: MachineView, count: usize, base: int, below: Seq<TaskView>)
    requires
        0 <= base <= m.tasks.len(),
        stays_above(m.call(count), base),
    ensures
        rebased(m, base, below).call(count) == rebased_step(m.call(count), base, below),
{
    if m.values.len() >= count + 1 {
        let floor = m.values.len() - count - 1;
        let rest = m.with_values(m.values.take(floor));
        let arguments = m.values.subrange(floor + 1, m.values.len() as int);
        match m.values[floor] {
            ObjectView::Function(function) => {
                lemma_invoke_rebased(rest, function, arguments, base, below);
            },
            _ => {},
        }
    }
}

/// Taking an expression apart does not depend on the tasks below.
pub proof fn lemma_evaluate_rebased(
    m: MachineView,
    expression: ExprView,
    base: int,
    below: Seq<TaskView>,
)
    requires
        0 <= base <= m.tasks.len(),
        stays_above(m.evaluate(expression), base),
    ensures
        rebased(m, base, below).evaluate(expression) == rebased_step(
            m.evaluate(expression),
            base,
            below,
        ),
{
    match expression {
        ExprView::Grouping { grouping } => {
            lemma_rebased_push(m, TaskView::Evaluate(*grouping), base, below);
        },
        ExprView::Assign { name, value } => {
            lemma_rebased_push(m, TaskView::Assign(name), base, below);
            lemma_rebased_push(
                m.push_task(TaskView::Assign(name)),
                TaskView::Evaluate(*value),
                base,
                below,
            );
        },
        ExprView::Unary { operator, right } => {
            lemma_rebased_push(m, TaskView::Unary(operator), base, below);
            lemma_rebased_push(
                m.push_task(TaskView::Unary(operator)),
                TaskView::Evaluate(*right),
                base,
                below,
            );
        },
        ExprView::Binary { left, operator, right } => {
            let first = m.push_task(TaskView::Binary(operator));
            let second = first.push_task(TaskView::Evaluate(*right));
            lemma_rebased_push(m, TaskView::Binary(operator), base, below);
            lemma_rebased_push(first, TaskView::Evaluate(*right), base, below);
            lemma_rebased_push(second, TaskView::Evaluate(*left), base, below);
        },
        ExprView::Logical { left, operator, right } => {
            let first = m.push_task(TaskView::Logical(operator, *right));
            lemma_rebased_push(m, TaskView::Logical(operator, *right), base, below);
            lemma_rebased_push(first, TaskView::Evaluate(*left), base, below);
        },
        ExprView::Call { callee, paren, arguments } => {
            let call = TaskView::Call(paren, arguments.len() as usize);
            let first = m.push_task(call);
            let second = first.with_tasks(first.tasks + reversed_evaluates(arguments));
            lemma_rebased_push(m, call, base, below);
            lemma_rebased_pushes(first, reversed_evaluates(arguments), base, below);
            lemma_rebased_push(second, TaskView::Evaluate(*callee), base, below);
        },
        _ => {},
    }
}

/// Taking a statement apart does not depend on the tasks below, where a
/// `return` stays above them.
pub proof fn lemma_execute_rebased(
    m: MachineView,
    statement: StmtView,
    base: int,
    below: Seq<TaskView>,
)
    requires
        1 <= base <= m.tasks.len(),
        below.len() >= 1,
        stays_above(m.execute(statement), base),
    ensures
        rebased(m, base, below).execute(statement) == rebased_step(
            m.execute(statement),
            base,
            below,
        ),
{
    match statement {
        StmtView::Expression(e) => {
            lemma_rebased_push(m, TaskView::Discard, base, below);
            lemma_rebased_push(m.push_task(TaskView::Discard), TaskView::Evaluate(e), base, below);
        },
        StmtView::Print(e) => {
            lemma_rebased_push(m, TaskView::Print, base, below);
            lemma_rebased_push(m.push_task(TaskView::Print), TaskView::Evaluate(e), base, below);
        },
        StmtView::Var { name, initializer } => match initializer {
            Some(e) => {
                lemma_rebased_push(m, TaskView::Define(name), base, below);
                lemma_rebased_push(
                    m.push_task(TaskView::Define(name)),
                    TaskView::Evaluate(e),
                    base,
                    below,
                );
            },
            None => {
                lemma_define_rebased(m, name, ObjectView::Nil, base, below);
            },
        },
        StmtView::Block(statements) => {
            let inside = m.with_environment(m.environment.pushed());
            lemma_rebased_push(inside, TaskView::EndScope, base, below);
            lemma_rebased_pushes(
                inside.push_task(TaskView::EndScope),
                reversed_executes(statements),
                base,
                below,
            );
        },
        StmtView::If { condition, then, els } => {
            let branch = TaskView::Branch(
                *then,
                match els {
                    Some(s) => Some(*s),
                    None => None,
                },
            );
            lemma_rebased_push(m, branch, base, below);
            lemma_rebased_push(m.push_task(branch), TaskView::Evaluate(condition), base, below);
        },
        StmtView::While { condition, body } => {
            let again = TaskView::Loop(condition, *body);
            lemma_rebased_push(m, again, base, below);
            lemma_rebased_push(m.push_task(again), TaskView::Evaluate(condition), base, below);
        },
        StmtView::Function { name, params, body } => {
            lemma_define_rebased(
                m.with_environment(m.environment.capturing()),
                name,
                ObjectView::Function(
                    FunctionView { name, params, body, closure: m.environment.chain },
                ),
                base,
                below,
            );
        },
        StmtView::Return { token, value } => match value {
            Some(e) => {
                lemma_rebased_push(m, TaskView::Return, base, below);
                lemma_rebased_push(
                    m.push_task(TaskView::Return),
                    TaskView::Evaluate(e),
                    base,
                    below,
                );
            },
            None => {
                lemma_unwind_rebased(m, ReturnView::Bare, base, below);
            },
        },
    }
}

/// A task that takes the value on top does not depend on the tasks below,
/// where a `return` stays above them.
pub proof fn lemma_apply_rebased(
    m: MachineView,
    task: TaskView,
    value: ObjectView,
    base: int,
    below: Seq<TaskView>,
)
    requires
        1 <= base <= m.tasks.len(),
        below.len() >= 1,
        stays_above(m.apply(task, value), base),
    ensures
        rebased(m, base, below).apply(task, value) == rebased_step(
            m.apply(task, value),
            base,
            below,
        ),
{
    match task {
        TaskView::Define(name) => {
            lemma_define_rebased(m, name, value, base, below);
        },
        TaskView::Logical(operator, right) => {
            lemma_rebased_push(m, TaskView::Evaluate(right), base, below);
        },
        TaskView::Branch(then, els) => {
            lemma_rebased_push(m, TaskView::Execute(then), base, below);
            match els {
                Some(s) => {
                    lemma_rebased_push(m, TaskView::Execute(s), base, below);
                },
                None => {},
            }
        },
        TaskView::Loop(condition, body) => {
            let first = m.push_task(TaskView::Loop(condition, body));
            let second = first.push_task(TaskView::Evaluate(condition));
            lemma_rebased_push(m, TaskView::Loop(condition, body), base, below);
            lemma_rebased_push(first, TaskView::Evaluate(condition), base, below);
            lemma_rebased_push(second, TaskView::Execute(body), base, below);
        },
        TaskView::Return => {
            lemma_unwind_rebased(m, ReturnView::Value(value), base, below);
        },
        _ => {},
    }
}

/// A step that stays above the lowest tasks does not depend on them.
pub proof fn lemma_step_rebased(m: MachineView, base: int, below: Seq<TaskView>)
    requires
        1 <= base < m.tasks.len(),
        below.len() >= 1,
        stays_above(m.step(), base),
    ensures
        rebased(m, base, below).step() == rebased_step(m.step(), base, below),
{
    let task = m.tasks.last();
    let rest = m.pop_task();
    lemma_rebased_pop(m, base, below);
    match task {
        TaskView::Execute(statement) => {
            lemma_execute_rebased(rest, statement, base, below);
        },
        TaskView::Evaluate(expression) => {
            lemma_evaluate_rebased(rest, expression, base, below);
        },
        TaskView::EndScope => {},
        TaskView::EndCall(chain, height) => {
            lemma_end_call_rebased(rest, chain, height, ReturnView::Nothing, base, below);
        },
        TaskView::Call(paren, count) => {
            lemma_call_rebased(rest, count, base, below);
        },
        _ => {
            if rest.values.len() > 0 {
                lemma_apply_rebased(rest.pop_value(), task, rest.values.last(), base, below);
            }
        },
    }
}

/// The tasks below do not matter. Tasks that run to their end above the
/// lowest `base` tasks of a machine, at least one, run to the same end above
/// any other tasks, at least one: the same scopes, the same values, and
/// below, those other tasks as they were.
pub proof fn the_tasks_below_do_not_matter(
    m: MachineView,
    base: int,
    below: Seq<TaskView>,
    answers: Seq<Option<u64>>,
    fuel: nat,
)
    requires
        1 <= base <= m.tasks.len(),
        below.len() >= 1,
    ensures
        settled(m, base, answers, fuel) matches Some(after) ==> settled(
            rebased(m, base, below),
            below.len() as int,
            answers,
            fuel,
        ) == Some(rebased(after, base, below)),
    decreases fuel,
{
    if m.tasks.len() == base {
        assert(m.tasks.skip(base) =~= Seq::<TaskView>::empty());
        assert(below + Seq::<TaskView>::empty() =~= below);
    } else if fuel > 0 && m.environment.scopes.len() < usize::MAX {
        let step = m.step();
        assert(rebased(m, base, below).tasks.len() == below.len() + (m.tasks.len() - base));
        match step.action {
            None => {
                if settled(step.after, base, answers, (fuel - 1) as nat) is Some {
                    lemma_step_rebased(m, base, below);
                    the_tasks_below_do_not_matter(
                        step.after,
                        base,
                        below,
                        answers,
                        (fuel - 1) as nat,
                    );
                }
            },
            Some(ActionView::Failed(_)) => {},
            Some(_) => {
                if answers.len() > 0 {
                    let next = step.after.answered(answers[0]);
                    if settled(next, base, answers.drop_first(), (fuel - 1) as nat) is Some {
                        lemma_step_rebased(m, base, below);
                        assert(rebased(next, base, below) == rebased(
                            step.after,
                            base,
                            below,
                        ).answered(answers[0]));
                        the_tasks_below_do_not_matter(
                            next,
                            base,
                            below,
                            answers.drop_first(),
                            (fuel - 1) as nat,
                        );
                    }
                }
            },
        }
    }
}

/// The answers that are left once the tasks above the lowest `base` have run
/// to their end: see [`settled`].
pub open spec fn unanswered(
    m: MachineView,
    base: int,
    answers: Seq<Option<u64>>,
    fuel: nat,
) -> Seq<Option<u64>>
    decreases fuel,
{
    if m.tasks.len() <= base || fuel == 0 || m.environment.scopes.len() >= usize::MAX {
        answers
    } else {
        let step = m.step();
        match step.action {
            None => unanswered(step.after, base, answers, (fuel - 1) as nat),
            Some(ActionView::Failed(_)) => answers,
            Some(_) => {
                if answers.len() > 0 {
                    unanswered(
                        step.after.answered(answers[0]),
                        base,
                        answers.drop_first(),
                        (fuel - 1) as nat,
                    )
                } else {
                    answers
                }
            },
        }
    }
}

/// Tasks that have run to their end have left exactly the tasks below them.
pub proof fn lemma_settled_len(m: MachineView, base: int, answers: Seq<Option<u64>>, fuel: nat)
    ensures
        settled(m, base, answers, fuel) matches Some(after) ==> after.tasks.len() == base,
    decreases fuel,
{
    if m.tasks.len() > base && fuel > 0 && m.environment.scopes.len() < usize::MAX {
        let step = m.step();
        match step.action {
            None => {
                lemma_settled_len(step.after, base, answers, (fuel - 1) as nat);
            },
            Some(ActionView::Failed(_)) => {},
            Some(_) => {
                if answers.len() > 0 {
                    lemma_settled_len(
                        step.after.answered(answers[0]),
                        base,
                        answers.drop_first(),
                        (fuel - 1) as nat,
                    );
                }
            },
        }
    }
}

/// Tasks that run to their end in so many steps run to the same end where
/// more steps are allowed.
pub proof fn lemma_settled_with_more(
    m: MachineView,
    base: int,
    answers: Seq<Option<u64>>,
    fuel: nat,
    more: nat,
)
    ensures
        settled(m, base, answers, fuel) matches Some(after) ==> settled(
            m,
            base,
            answers,
            fuel + more,
        ) == Some(after),
    decreases fuel,
{
    if m.tasks.len() > base && fuel > 0 && m.environment.scopes.len() < usize::MAX {
        let step = m.step();
        match step.action {
            None => {
                lemma_settled_with_more(step.after, base, answers, (fuel - 1) as nat, more);
            },
            Some(ActionView::Failed(_)) => {},
            Some(_) => {
                if answers.len() > 0 {
                    lemma_settled_with_more(
                        step.after.answered(answers[0]),
                        base,
                        answers.drop_first(),
                        (fuel - 1) as nat,
                        more,
                    );
                }
            },
        }
    }
}

/// Tasks run to their end in two parts: to run the tasks above the lowest
/// `base` is to run first all of them but the lowest, and then that one.
pub proof fn lemma_settled_in_two(
    m: MachineView,
    base: int,
    answers: Seq<Option<u64>>,
    fuel: nat,
    more: nat,
)
    requires
        0 <= base,
        settled(m, base + 1, answers, fuel) is Some,
        settled(
            settled(m, base + 1, answers, fuel)->Some_0,
            base,
            unanswered(m, base + 1, answers, fuel),
            more,
        ) is Some,
    ensures
        settled(m, base, answers, fuel + more) == settled(
            settled(m, base + 1, answers, fuel)->Some_0,
            base,
            unanswered(m, base + 1, answers, fuel),
            more,
        ),
    decreases fuel,
{
    if m.tasks.len() == base + 1 {
        lemma_settled_with_more(m, base, answers, more, fuel);
    } else {
        let step = m.step();
        match step.action {
            None => {
                lemma_settled_in_two(step.after, base, answers, (fuel - 1) as nat, more);
            },
            Some(ActionView::Failed(_)) => {},
            Some(_) => {
                lemma_settled_in_two(
                    step.after.answered(answers[0]),
                    base,
                    answers.drop_first(),
                    (fuel - 1) as nat,
                    more,
                );
            },
        }
    }
}

/// `or` and `and` short-circuit. Where the left operand, run to its end,
/// leaves on top a value that decides (one that counts as true for `or`, one
/// that does not for `and`), the whole expression, run to its end, leaves
/// the machine exactly as the left operand alone leaves it: the same value
/// on top, the same scopes with the same contents, the same answers of the
/// host used. Nothing of the right operand has run.
pub proof fn a_deciding_left_operand_is_the_whole(
    before: MachineView,
    left: ExprView,
    operator: TokenView,
    right: ExprView,
    answers: Seq<Option<u64>>,
    fuel: nat,
)
    requires
        before.wf(),
        before.tasks.len() >= 1,
        settled(
            before.push_task(TaskView::Evaluate(left)),
            before.tasks.len() as int,
            answers,
            fuel,
        ) matches Some(after) && after.values.len() > 0 && after.environment.scopes.len()
            < usize::MAX && (operator.kind == TokenTypeDiscriminants::Or) == truthy(
            after.values.last(),
        ),
    ensures
        settled(
            before.push_task(
                TaskView::Evaluate(
                    ExprView::Logical { left: Box::new(left), operator, right: Box::new(right) },
                ),
            ),
            before.tasks.len() as int,
            answers,
            fuel + 2,
        ) == settled(
            before.push_task(TaskView::Evaluate(left)),
            before.tasks.len() as int,
            answers,
            fuel,
        ),
{
    let base = before.tasks.len() as int;
    let whole = ExprView::Logical { left: Box::new(left), operator, right: Box::new(right) };
    let alone = before.push_task(TaskView::Evaluate(left));
    let start = before.push_task(TaskView::Evaluate(whole));
    let waiting = TaskView::Logical(operator, right);
    let apart = before.push_task(waiting).push_task(TaskView::Evaluate(left));
    let after = settled(alone, base, answers, fuel)->Some_0;
    // the left operand alone leaves the tasks below as they were
    scopes_in_sight_follow_the_tasks(alone, base, answers, fuel);
    assert(alone.tasks.take(base) =~= before.tasks);
    // the first step takes the expression apart
    assert(start.pop_task().tasks =~= before.tasks);
    assert(start.step() == apart.go());
    // the left operand runs above the waiting task as it runs alone
    let below = before.tasks.push(waiting);
    the_tasks_below_do_not_matter(alone, base, below, answers, fuel);
    assert(alone.tasks.skip(base) =~= seq![TaskView::Evaluate(left)]);
    assert(rebased(alone, base, below).tasks =~= apart.tasks);
    let mid = rebased(after, base, below);
    assert(after.tasks.skip(base) =~= Seq::<TaskView>::empty());
    assert(mid.tasks =~= below);
    // the waiting task finds its operand decided
    assert(mid.pop_task().tasks =~= before.tasks);
    assert(mid.pop_task().pop_value().push_value(after.values.last()).values =~= after.values);
    assert(mid.step() == after.go());
    assert(settled(apart, base + 1, answers, fuel) == Some(mid));
    let left_over = unanswered(apart, base + 1, answers, fuel);
    assert(after.tasks.len() == base);
    assert(settled(after, base, left_over, 0) == Some(after));
    assert(mid.tasks.len() == base + 1);
    assert(mid.environment == after.environment);
    assert(settled(mid, base, left_over, 1) == Some(after));
    lemma_settled_in_two(apart, base, answers, fuel, 1);
    assert(alone.environment == start.environment);
}

/// `print E;` has written what `E` comes to. Where `E`, run to its end,
/// leaves a value on top, `print E;` runs as `E` does, above the task that
/// writes; and when `E` has run to its end, that task has the host write
/// what [`printed`] makes of the value on top.
pub proof fn print_writes_what_its_expression_comes_to(
    before: MachineView,
    expression: ExprView,
    answers: Seq<Option<u64>>,
    fuel: nat,
)
    requires
        before.wf(),
        before.tasks.len() >= 1,
        settled(
            before.push_task(TaskView::Evaluate(expression)),
            before.tasks.len() as int,
            answers,
            fuel,
        ) matches Some(after) && after.values.len() > 0,
    ensures
        ({
            let after = settled(
                before.push_task(TaskView::Evaluate(expression)),
                before.tasks.len() as int,
                answers,
                fuel,
            )->Some_0;
            let apart = before.push_task(TaskView::Print).push_task(
                TaskView::Evaluate(expression),
            );
            &&& before.push_task(TaskView::Execute(StmtView::Print(expression))).step()
                == apart.go()
            &&& settled(apart, before.tasks.len() as int + 1, answers, fuel) == Some(
                after.push_task(TaskView::Print),
            )
            &&& after.push_task(TaskView::Print).step() == after.pop_value().ask(
                ActionView::Print(printed(after.values.last())),
            )
        }),
{
    let base = before.tasks.len() as int;
    let alone = before.push_task(TaskView::Evaluate(expression));
    let start = before.push_task(TaskView::Execute(StmtView::Print(expression)));
    let apart = before.push_task(TaskView::Print).push_task(TaskView::Evaluate(expression));
    let after = settled(alone, base, answers, fuel)->Some_0;
    scopes_in_sight_follow_the_tasks(alone, base, answers, fuel);
    assert(alone.tasks.take(base) =~= before.tasks);
    assert(start.pop_task().tasks =~= before.tasks);
    let below = before.tasks.push(TaskView::Print);
    the_tasks_below_do_not_matter(alone, base, below, answers, fuel);
    assert(alone.tasks.skip(base) =~= seq![TaskView::Evaluate(expression)]);
    assert(rebased(alone, base, below).tasks =~= apart.tasks);
    assert(after.tasks.skip(base) =~= Seq::<TaskView>::empty());
    assert(rebased(after, base, below).tasks =~= after.push_task(TaskView::Print).tasks);
    assert(after.push_task(TaskView::Print).pop_task().tasks =~= after.tasks);
}

} // verus!
