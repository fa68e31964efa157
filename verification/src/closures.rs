use crate::ast::{ExprView, LiteralView, StmtView};
use crate::call_outcome::is_no_parameter;
use crate::data_types::{
    applied, applied_unary, AppliedView, FunctionView, ObjectView, ReturnView,
};
use crate::environment::{
    captured_scopes_are_held, lemma_holder_in_sight, lemma_no_stray, lemma_released, stray,
    EnvironmentView,
};
use crate::interpreter::{
    bound_parameters, call_runs_in_the_captured_scopes, cut_back, nameless, MachineView, TaskView,
};
use crate::scope_discipline::{
    holds_captured, lemma_marked_keeps, lemma_marked_len, lemma_marked_sets, lemma_stray_none,
};
use crate::token::TokenView;
use vstd::prelude::*;

verus! {

/// Whether a value, if it is a function, has its scopes: it has captured
/// one at least, and each is held as a captured one.
pub open spec fn has_its_scopes(e: EnvironmentView, v: ObjectView) -> bool {
    v matches ObjectView::Function(f) ==> function_has_its_scopes(e, f)
}

/// Whether a function has its scopes: it has captured one at least, and
/// each is held as a captured one.
pub open spec fn function_has_its_scopes(e: EnvironmentView, f: FunctionView) -> bool {
    f.closure.len() > 0 && forall|i: int|
        0 <= i < f.closure.len() ==> holds_captured(e, #[trigger] f.closure[i] as int)
}

/// Whether every one of the values has its scopes.
pub open spec fn all_have_their_scopes(e: EnvironmentView, values: Seq<ObjectView>) -> bool {
    forall|i: int| 0 <= i < values.len() ==> has_its_scopes(e, #[trigger] values[i])
}

/// Whether every value that a scope binds has its scopes.
pub open spec fn bindings_have_their_scopes(e: EnvironmentView) -> bool {
    forall|id: int, name: Seq<char>|
        0 <= id < e.scopes.len() && e.scopes[id].contains_key(name) ==> has_its_scopes(
            e,
            #[trigger] e.scopes[id][name],
        )
}

/// Whether every function that a machine holds, among its values or bound
/// in a scope, has its scopes.
pub open spec fn functions_have_their_scopes(m: MachineView) -> bool {
    &&& m.wf()
    &&& all_have_their_scopes(m.environment, m.values)
    &&& bindings_have_their_scopes(m.environment)
}

/// Whether every scope that `before` holds as a captured one, `after`
/// holds so too.
pub open spec fn upheld(before: EnvironmentView, after: EnvironmentView) -> bool {
    forall|id: int| holds_captured(before, id) ==> #[trigger] holds_captured(after, id)
}

/// A value that has its scopes has them wherever they are upheld.
pub proof fn lemma_value_upheld(before: EnvironmentView, after: EnvironmentView, v: ObjectView)
    requires
        has_its_scopes(before, v),
        upheld(before, after),
    ensures
        has_its_scopes(after, v),
{
}

/// Values that have their scopes have them wherever they are upheld.
pub proof fn lemma_values_upheld(
    before: EnvironmentView,
    after: EnvironmentView,
    values: Seq<ObjectView>,
)
    requires
        all_have_their_scopes(before, values),
        upheld(before, after),
    ensures
        all_have_their_scopes(after, values),
{
    assert forall|i: int| 0 <= i < values.len() implies has_its_scopes(
        after,
        #[trigger] values[i],
    ) by {
        lemma_value_upheld(before, after, values[i]);
    }
}

/// Binding a value that has its scopes leaves every binding with its
/// scopes.
pub proof fn lemma_bound_with_scopes(
    e: EnvironmentView,
    id: int,
    name: Seq<char>,
    value: ObjectView,
)
    requires
        e.wf(),
        0 <= id < e.scopes.len(),
        bindings_have_their_scopes(e),
        has_its_scopes(e, value),
    ensures
        bindings_have_their_scopes(e.bound(id, name, value)),
        upheld(e, e.bound(id, name, value)),
        e.bound(id, name, value).wf(),
{
    let after = e.bound(id, name, value);
    assert(upheld(e, after));
    assert forall|at: int, other: Seq<char>|
        0 <= at < after.scopes.len() && after.scopes[at].contains_key(other) implies has_its_scopes(
        after,
        #[trigger] after.scopes[at][other],
    ) by {
        if at == id && other == name {
            lemma_value_upheld(e, after, value);
        } else {
            assert(e.scopes[at].contains_key(other));
            lemma_value_upheld(e, after, e.scopes[at][other]);
        }
    }
}

/// A new scope leaves every binding with its scopes.
pub proof fn lemma_pushed_with_scopes(e: EnvironmentView)
    requires
        e.wf(),
        bindings_have_their_scopes(e),
    ensures
        bindings_have_their_scopes(e.pushed()),
        upheld(e, e.pushed()),
{
    let after = e.pushed();
    assert(upheld(e, after));
    assert forall|at: int, other: Seq<char>|
        0 <= at < after.scopes.len() && after.scopes[at].contains_key(other) implies has_its_scopes(
        after,
        #[trigger] after.scopes[at][other],
    ) by {
        assert(at < e.scopes.len());
        assert(e.scopes[at].contains_key(other));
        lemma_value_upheld(e, after, e.scopes[at][other]);
    }
}

/// Other scopes in sight leave every binding with its scopes.
pub proof fn lemma_seeing_with_scopes(e: EnvironmentView, chain: Seq<usize>)
    requires
        bindings_have_their_scopes(e),
    ensures
        bindings_have_their_scopes(e.seeing(chain)),
        upheld(e, e.seeing(chain)),
{
    let after = e.seeing(chain);
    assert(upheld(e, after));
    assert forall|at: int, other: Seq<char>|
        0 <= at < after.scopes.len() && after.scopes[at].contains_key(other) implies has_its_scopes(
        after,
        #[trigger] after.scopes[at][other],
    ) by {
        lemma_value_upheld(e, after, e.scopes[at][other]);
    }
}

/// Letting go of the scopes that nothing can reach leaves every binding
/// with its scopes.
pub proof fn lemma_released_with_scopes(e: EnvironmentView)
    requires
        e.wf(),
        bindings_have_their_scopes(e),
    ensures
        bindings_have_their_scopes(e.released()),
        upheld(e, e.released()),
        e.released().wf(),
{
    let after = e.released();
    lemma_released(e);
    assert forall|id: int| holds_captured(e, id) implies #[trigger] holds_captured(after, id) by {
        captured_scopes_are_held(e, id);
    }
    assert forall|at: int, other: Seq<char>|
        0 <= at < after.scopes.len() && after.scopes[at].contains_key(other) implies has_its_scopes(
        after,
        #[trigger] after.scopes[at][other],
    ) by {
        assert(after.scopes[at] == e.scopes[at]);
        lemma_value_upheld(e, after, e.scopes[at][other]);
    }
}

/// Capturing the scopes in sight leaves every binding with its scopes, and
/// a function that has captured them has its scopes.
pub proof fn lemma_capturing_with_scopes(e: EnvironmentView)
    requires
        e.wf(),
        bindings_have_their_scopes(e),
    ensures
        bindings_have_their_scopes(e.capturing()),
        upheld(e, e.capturing()),
        e.capturing().wf(),
        forall|f: FunctionView|
            f.closure == e.chain ==> #[trigger] function_has_its_scopes(e.capturing(), f),
{
    let after = e.capturing();
    lemma_marked_len(e, e.chain.len() as int);
    assert forall|id: int| holds_captured(e, id) implies #[trigger] holds_captured(after, id) by {
        lemma_marked_keeps(e, e.chain.len() as int, id);
    }
    assert forall|at: int, other: Seq<char>|
        0 <= at < after.scopes.len() && after.scopes[at].contains_key(other) implies has_its_scopes(
        after,
        #[trigger] after.scopes[at][other],
    ) by {
        lemma_value_upheld(e, after, e.scopes[at][other]);
    }
    assert forall|i: int| 0 <= i < e.chain.len() implies holds_captured(
        after,
        #[trigger] e.chain[i] as int,
    ) by {
        lemma_marked_sets(e, e.chain.len() as int, i);
    }
}

/// Binding parameters to arguments that have their scopes leaves every
/// binding with its scopes.
pub proof fn lemma_parameters_with_scopes(
    e: EnvironmentView,
    params: Seq<TokenView>,
    arguments: Seq<ObjectView>,
    from: int,
)
    requires
        e.wf(),
        bindings_have_their_scopes(e),
        all_have_their_scopes(e, arguments),
    ensures
        bindings_have_their_scopes(bound_parameters(e, params, arguments, from)),
        upheld(e, bound_parameters(e, params, arguments, from)),
        bound_parameters(e, params, arguments, from).wf(),
    decreases params.len() - from,
{
    if 0 <= from < params.len() && from < arguments.len() {
        let name = params[from].lexeme->Some_0;
        let next = e.defined(name, arguments[from]);
        lemma_bound_with_scopes(e, e.innermost(), name, arguments[from]);
        lemma_values_upheld(e, next, arguments);
        lemma_parameters_with_scopes(next, params, arguments, from + 1);
        lemma_upheld_through(e, next, bound_parameters(e, params, arguments, from));
    } else {
        assert(upheld(e, e));
    }
}

/// What is upheld from a first environment to a second, and from there to
/// a third, is upheld from the first to the third.
pub proof fn lemma_upheld_through(
    first: EnvironmentView,
    second: EnvironmentView,
    third: EnvironmentView,
)
    requires
        upheld(first, second),
        upheld(second, third),
    ensures
        upheld(first, third),
{
    assert forall|id: int| holds_captured(first, id) implies #[trigger] holds_captured(
        third,
        id,
    ) by {
        assert(holds_captured(second, id));
    }
}

/// A part of values that have their scopes has them, and so have they with
/// one more that has.
pub proof fn lemma_values_parts(e: EnvironmentView, values: Seq<ObjectView>, from: int, to: int)
    requires
        all_have_their_scopes(e, values),
        0 <= from <= to <= values.len(),
    ensures
        all_have_their_scopes(e, values.subrange(from, to)),
        all_have_their_scopes(e, values.take(to)),
        forall|v: ObjectView|
            has_its_scopes(e, v) ==> all_have_their_scopes(e, #[trigger] values.push(v)),
{
    assert forall|i: int| 0 <= i < to - from implies has_its_scopes(
        e,
        #[trigger] values.subrange(from, to)[i],
    ) by {
        assert(values.subrange(from, to)[i] == values[from + i]);
    }
    assert forall|i: int| 0 <= i < to implies has_its_scopes(e, #[trigger] values.take(to)[i]) by {
        assert(values.take(to)[i] == values[i]);
    }
    assert forall|v: ObjectView| has_its_scopes(e, v) implies all_have_their_scopes(
        e,
        #[trigger] values.push(v),
    ) by {
        assert forall|i: int| 0 <= i < values.push(v).len() implies has_its_scopes(
            e,
            #[trigger] values.push(v)[i],
        ) by {
            if i < values.len() {
                assert(values.push(v)[i] == values[i]);
            }
        }
    }
}

/// Bringing scopes that are held in sight again leaves every binding with
/// its scopes.
pub proof fn lemma_restored_with_scopes(e: EnvironmentView, chain: Seq<usize>)
    requires
        e.wf(),
        bindings_have_their_scopes(e),
        chain.len() > 0,
        stray(chain, e.scopes.len() as int, 0) is None,
    ensures
        bindings_have_their_scopes(e.restored(chain)),
        upheld(e, e.restored(chain)),
        e.restored(chain).wf(),
{
    lemma_no_stray(chain, e.scopes.len() as int, 0);
    lemma_seeing_with_scopes(e, chain);
    lemma_released_with_scopes(e.seeing(chain));
    lemma_upheld_through(e, e.seeing(chain), e.restored(chain));
}

/// A program that fails leaves every function with its scopes.
pub proof fn lemma_abandoned_with_scopes(m: MachineView)
    requires
        functions_have_their_scopes(m),
    ensures
        functions_have_their_scopes(m.abandoned()),
{
    if m.home.len() > 0 && stray(m.home, m.environment.scopes.len() as int, 0) is None {
        lemma_restored_with_scopes(m.environment, m.home);
    }
}

/// Defining a name as a value that has its scopes leaves every function
/// with its scopes.
pub proof fn lemma_define_with_scopes(m: MachineView, name: TokenView, value: ObjectView)
    requires
        functions_have_their_scopes(m),
        has_its_scopes(m.environment, value),
    ensures
        functions_have_their_scopes(m.define(name, value).after),
{
    lemma_abandoned_with_scopes(m);
    if name.lexeme is Some {
        let after = m.environment.defined(name.lexeme->Some_0, value);
        lemma_bound_with_scopes(m.environment, m.environment.innermost(), name.lexeme->Some_0, value);
        lemma_values_upheld(m.environment, after, m.values);
    }
}

/// The end of a call with an outcome that has its scopes leaves every
/// function with its scopes.
pub proof fn lemma_end_call_with_scopes(
    m: MachineView,
    saved: Seq<usize>,
    height: usize,
    outcome: ReturnView,
)
    requires
        functions_have_their_scopes(m),
        has_its_scopes(m.environment, outcome.value()),
    ensures
        functions_have_their_scopes(m.end_call(saved, height, outcome).after),
{
    lemma_abandoned_with_scopes(m);
    if saved.len() > 0 && stray(saved, m.environment.scopes.len() as int, 0) is None {
        let after = m.environment.restored(saved);
        lemma_restored_with_scopes(m.environment, saved);
        let kept = cut_back(m.values, height as int);
        if 0 <= height <= m.values.len() {
            lemma_values_parts(m.environment, m.values, 0, height as int);
        }
        lemma_values_parts(m.environment, kept, 0, kept.len() as int);
        lemma_values_upheld(m.environment, after, kept.push(outcome.value()));
    }
}

/// A `return` of a value that has its scopes leaves every function with
/// its scopes.
pub proof fn lemma_unwind_with_scopes(m: MachineView, outcome: ReturnView)
    requires
        functions_have_their_scopes(m),
        has_its_scopes(m.environment, outcome.value()),
    ensures
        functions_have_their_scopes(m.unwind(outcome).after),
    decreases m.tasks.len(),
{
    if m.tasks.len() > 0 {
        match m.tasks.last() {
            TaskView::EndCall(saved, height) => {
                lemma_end_call_with_scopes(m.pop_task(), saved, height, outcome);
            },
            _ => {
                lemma_unwind_with_scopes(m.pop_task(), outcome);
            },
        }
    }
}

/// A call leaves every function with its scopes: the function that is
/// called has the scopes that it captured, and its arguments have theirs.
pub proof fn lemma_call_with_scopes(m: MachineView, count: usize)
    requires
        functions_have_their_scopes(m),
        m.environment.scopes.len() < usize::MAX,
    ensures
        functions_have_their_scopes(m.call(count).after),
{
    lemma_abandoned_with_scopes(m);
    if m.values.len() >= count + 1 {
        let bottom = m.values.len() - count - 1;
        let rest = m.with_values(m.values.take(bottom));
        let arguments = m.values.subrange(bottom + 1, m.values.len() as int);
        lemma_values_parts(m.environment, m.values, 0, bottom);
        lemma_values_parts(m.environment, m.values, bottom + 1, m.values.len() as int);
        lemma_abandoned_with_scopes(rest);
        match m.values[bottom] {
            ObjectView::Function(function) => {
                if rest.invoke(function, arguments).action is None {
                    let e = m.environment;
                    assert(has_its_scopes(e, m.values[bottom]));
                    lemma_no_stray(function.closure, e.scopes.len() as int, 0);
                    let seen = e.seeing(function.closure);
                    let entered = e.entered(function.closure);
                    lemma_seeing_with_scopes(e, function.closure);
                    assert(seen.wf());
                    lemma_pushed_with_scopes(seen);
                    assert(entered.wf());
                    lemma_upheld_through(e, seen, entered);
                    lemma_values_upheld(e, entered, arguments);
                    lemma_parameters_with_scopes(entered, function.params, arguments, 0);
                    let inside = bound_parameters(entered, function.params, arguments, 0);
                    lemma_upheld_through(e, entered, inside);
                    lemma_values_upheld(e, inside, rest.values);
                }
            },
            _ => {},
        }
    }
}

/// Taking an expression apart leaves every function with its scopes: the
/// value of a variable is one that a scope binds.
pub proof fn lemma_evaluate_with_scopes(m: MachineView, expression: ExprView)
    requires
        functions_have_their_scopes(m),
    ensures
        functions_have_their_scopes(m.evaluate(expression).after),
{
    lemma_abandoned_with_scopes(m);
    lemma_values_parts(m.environment, m.values, 0, m.values.len() as int);
    match expression {
        ExprView::Variable(name) => {
            if name.lexeme is Some {
                let text = name.lexeme->Some_0;
                lemma_holder_in_sight(m.environment, text, m.environment.chain.len() as int);
                match m.environment.holder(text, m.environment.chain.len() as int) {
                    Some(id) => {
                        assert(has_its_scopes(m.environment, m.environment.scopes[id][text]));
                    },
                    None => {},
                }
            }
        },
        ExprView::Literal(literal) => {
            assert(has_its_scopes(m.environment, ObjectView::Nil));
            match literal {
                LiteralView::Boolean(b) => {
                    assert(has_its_scopes(m.environment, ObjectView::Boolean(b)));
                },
                LiteralView::String(text) => {
                    assert(has_its_scopes(m.environment, ObjectView::String(text)));
                },
                _ => {},
            }
        },
        _ => {},
    }
}

/// Taking a statement apart leaves every function with its scopes: a
/// function that is declared has captured the scopes in sight.
pub proof fn lemma_execute_with_scopes(m: MachineView, statement: StmtView)
    requires
        functions_have_their_scopes(m),
        m.environment.scopes.len() < usize::MAX,
    ensures
        functions_have_their_scopes(m.execute(statement).after),
{
    lemma_abandoned_with_scopes(m);
    match statement {
        StmtView::Var { name, initializer } => {
            if initializer is None {
                lemma_define_with_scopes(m, name, ObjectView::Nil);
            }
        },
        StmtView::Block(statements) => {
            lemma_pushed_with_scopes(m.environment);
            lemma_values_upheld(m.environment, m.environment.pushed(), m.values);
        },
        StmtView::Function { name, params, body } => {
            let function = FunctionView { name, params, body, closure: m.environment.chain };
            let capturing = m.with_environment(m.environment.capturing());
            lemma_capturing_with_scopes(m.environment);
            lemma_values_upheld(m.environment, capturing.environment, m.values);
            assert(function_has_its_scopes(capturing.environment, function));
            lemma_define_with_scopes(capturing, name, ObjectView::Function(function));
        },
        StmtView::Return { token, value } => {
            if value is None {
                lemma_unwind_with_scopes(m, ReturnView::Bare);
            }
        },
        _ => {},
    }
}

/// A task that takes a value which has its scopes leaves every function
/// with its scopes.
pub proof fn lemma_apply_with_scopes(m: MachineView, task: TaskView, value: ObjectView)
    requires
        functions_have_their_scopes(m),
        has_its_scopes(m.environment, value),
    ensures
        functions_have_their_scopes(m.apply(task, value).after),
{
    lemma_abandoned_with_scopes(m);
    lemma_values_parts(m.environment, m.values, 0, m.values.len() as int);
    match task {
        TaskView::Define(name) => {
            lemma_define_with_scopes(m, name, value);
        },
        TaskView::Assign(name) => {
            if name.lexeme is Some {
                let text = name.lexeme->Some_0;
                lemma_holder_in_sight(m.environment, text, m.environment.chain.len() as int);
                match m.environment.holder(text, m.environment.chain.len() as int) {
                    Some(id) => {
                        let after = m.environment.bound(id, text, value);
                        lemma_bound_with_scopes(m.environment, id, text, value);
                        lemma_values_upheld(m.environment, after, m.values.push(value));
                    },
                    None => {},
                }
            }
        },
        TaskView::Unary(operator) => {
            match applied_unary(operator.kind, value) {
                Ok(result) => {
                    assert(has_its_scopes(m.environment, result));
                },
                Err(_) => {},
            }
        },
        TaskView::Binary(operator) => {
            if m.values.len() > 0 {
                lemma_values_parts(m.environment, m.values, 0, m.values.len() - 1);
                assert(m.values.drop_last() =~= m.values.take(m.values.len() - 1));
                lemma_values_parts(
                    m.environment,
                    m.values.drop_last(),
                    0,
                    m.values.drop_last().len() as int,
                );
                match applied(operator.kind, m.values.last(), value) {
                    Ok(AppliedView::Value(result)) => {
                        assert(has_its_scopes(m.environment, result));
                    },
                    _ => {},
                }
            }
        },
        TaskView::Return => {
            lemma_unwind_with_scopes(m, ReturnView::Value(value));
        },
        _ => {},
    }
}

/// Every function which a machine holds has the scopes that it captured,
/// all along: a machine of which that holds is still one after it was
/// given a program or statements to run, after the host has answered it,
/// and after any step, whether the step fails or not. It holds of a new
/// machine ([`a_fresh_machine_holds_no_function`]). So a function that the
/// machine itself has made always finds its scopes.
pub proof fn functions_keep_their_scopes(
    m: MachineView,
    statements: Seq<StmtView>,
    reply: Option<u64>,
)
    requires
        functions_have_their_scopes(m),
    ensures
        functions_have_their_scopes(m.loaded(statements)),
        functions_have_their_scopes(m.scheduled(statements)),
        functions_have_their_scopes(m.answered(reply)),
        m.environment.scopes.len() < usize::MAX ==> functions_have_their_scopes(m.step().after),
{
    lemma_capturing_with_scopes(m.environment);
    lemma_values_upheld(m.environment, m.environment.capturing(), m.values);
    lemma_values_parts(m.environment, m.values, 0, m.values.len() as int);
    match reply {
        Some(bits) => {
            assert(has_its_scopes(m.environment, ObjectView::Number(bits)));
        },
        None => {},
    }
    if m.environment.scopes.len() < usize::MAX && m.tasks.len() > 0 {
        let task = m.tasks.last();
        let rest = m.pop_task();
        lemma_abandoned_with_scopes(rest);
        match task {
            TaskView::Execute(statement) => {
                lemma_execute_with_scopes(rest, statement);
            },
            TaskView::Evaluate(expression) => {
                lemma_evaluate_with_scopes(rest, expression);
            },
            TaskView::EndScope => {
                if rest.environment.chain.len() > 1 {
                    let chain = rest.environment.chain.drop_last();
                    let outside = rest.environment.seeing(chain);
                    lemma_seeing_with_scopes(rest.environment, chain);
                    assert(outside.wf());
                    lemma_released_with_scopes(outside);
                    lemma_upheld_through(rest.environment, outside, outside.released());
                    lemma_values_upheld(rest.environment, outside.released(), rest.values);
                }
            },
            TaskView::EndCall(chain, height) => {
                lemma_end_call_with_scopes(rest, chain, height, ReturnView::Nothing);
            },
            TaskView::Call(paren, count) => {
                lemma_call_with_scopes(rest, count);
            },
            _ => {
                if rest.values.len() > 0 {
                    assert(rest.values.drop_last() =~= rest.values.take(rest.values.len() - 1));
                    lemma_values_parts(rest.environment, rest.values, 0, rest.values.len() - 1);
                    lemma_apply_with_scopes(rest.pop_value(), task, rest.values.last());
                }
            },
        }
    }
}

/// A new machine holds no function: its one binding is the built-in
/// `clock`.
pub proof fn a_fresh_machine_holds_no_function()
    ensures
        functions_have_their_scopes(MachineView::fresh()),
{
    let m = MachineView::fresh();
    assert forall|id: int, name: Seq<char>|
        0 <= id < m.environment.scopes.len() && m.environment.scopes[id].contains_key(
            name,
        ) implies has_its_scopes(m.environment, #[trigger] m.environment.scopes[id][name]) by {
        assert(name == "clock"@);
    }
}

/// A function is called in the scopes that it captured, whenever it is
/// called. Where every function that the machine holds has its scopes, as
/// with every machine that began as a new one: a call of a function with as
/// many arguments as it has parameters, each with a name, does not fail;
/// the body runs with the captured scopes and one new scope in sight; and
/// there a name that is no parameter has the value that the captured scopes
/// give it now, whatever is in sight where the call is made.
pub proof fn a_function_is_called_in_the_scopes_it_captured(
    m: MachineView,
    function: FunctionView,
    count: usize,
    name: Seq<char>,
)
    requires
        functions_have_their_scopes(m),
        m.environment.scopes.len() < usize::MAX,
        m.values.len() >= count + 1,
        m.values[m.values.len() - count - 1] == ObjectView::Function(function),
        function.params.len() == count,
        nameless(function.params, 0) is None,
        is_no_parameter(function.params, name),
    ensures
        m.call(count).action is None,
        m.call(count).after.environment.chain == function.closure.push(
            m.environment.scopes.len() as usize,
        ),
        m.call(count).after.environment.lookup(name) == m.environment.seeing(
            function.closure,
        ).lookup(name),
        m.environment.seeing(function.closure).wf(),
{
    let bottom = m.values.len() - count - 1;
    let rest = m.with_values(m.values.take(bottom));
    let arguments = m.values.subrange(bottom + 1, m.values.len() as int);
    assert(has_its_scopes(m.environment, m.values[bottom]));
    assert forall|i: int| 0 <= i < function.closure.len() implies function.closure[i]
        < m.environment.scopes.len() by {
        assert(holds_captured(m.environment, function.closure[i] as int));
    }
    lemma_stray_none(function.closure, m.environment.scopes.len() as int, 0);
    call_runs_in_the_captured_scopes(rest, function, arguments, name);
}

} // verus!
