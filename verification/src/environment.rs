use crate::data_types::{Object, ObjectView};
use crate::error::{RuntimeError, RuntimeErrorView};
use vstd::prelude::*;

verus! {

/// One level of the environment: the names bound at that level, each with its
/// value.
#[derive(Debug)]
pub struct Scope {
    names: Vec<String>,
    values: Vec<Object>,
}

impl View for Scope {
    type V = Map<Seq<char>, ObjectView>;

    closed spec fn view(&self) -> Map<Seq<char>, ObjectView> {
        Map::new(
            |name: Seq<char>| self.index_of(name) is Some,
            |name: Seq<char>| self.values[self.index_of(name)->Some_0]@,
        )
    }
}

impl Scope {
    /// Where `name` stands among the names, if it does.
    pub closed spec fn index_of(&self, name: Seq<char>) -> Option<int> {
        if exists|i: int| 0 <= i < self.names.len() && #[trigger] self.names[i]@ == name {
            Some(choose|i: int| 0 <= i < self.names.len() && #[trigger] self.names[i]@ == name)
        } else {
            None
        }
    }

    /// Every name has its value, and no name stands twice.
    pub closed spec fn wf(&self) -> bool {
        &&& self.names.len() == self.values.len()
        &&& forall|i: int, j: int|
            0 <= i < j < self.names.len() ==> #[trigger] self.names[i]@ != #[trigger] self.names[j]@
    }

    /// A name that stands at `i` is found there.
    proof fn lemma_index_of(&self, i: int)
        requires
            self.wf(),
            0 <= i < self.names.len(),
        ensures
            self.index_of(self.names[i]@) == Some(i),
    {
        let name = self.names[i]@;
        let j = choose|j: int| 0 <= j < self.names.len() && #[trigger] self.names[j]@ == name;
        assert(j == i);
    }

    /// A scope that binds nothing.
    pub fn new() -> (r: Scope)
        ensures
            r.wf(),
            r@ == Map::<Seq<char>, ObjectView>::empty(),
    {
        let r = Scope { names: Vec::new(), values: Vec::new() };
        assert(r@ =~= Map::<Seq<char>, ObjectView>::empty());
        r
    }

    /// Where `name` stands among the names, if it does.
    fn find(&self, name: &String) -> (r: Option<usize>)
        requires
            self.wf(),
        ensures
            match r {
                Some(i) => i < self.names.len() && self.index_of(name@) == Some(i as int),
                None => self.index_of(name@) is None,
            },
    {
        let mut i: usize = 0;
        while i < self.names.len()
            invariant
                self.wf(),
                i <= self.names.len(),
                forall|k: int| 0 <= k < i ==> #[trigger] self.names[k]@ != name@,
            decreases self.names.len() - i,
        {
            if self.names[i] == *name {
                proof {
                    self.lemma_index_of(i as int);
                }
                return Some(i);
            }
            i += 1;
        }
        None
    }

    /// Whether the scope binds `name`.
    pub fn contains_key(&self, name: &String) -> (r: bool)
        requires
            self.wf(),
        ensures
            r == self@.contains_key(name@),
    {
        self.find(name).is_some()
    }

    /// A copy of the value that the scope binds `name` to.
    pub fn get(&self, name: &String) -> (r: Option<Object>)
        requires
            self.wf(),
        ensures
            match r {
                Some(v) => self@.contains_key(name@) && v@ == self@[name@],
                None => !self@.contains_key(name@),
            },
    {
        match self.find(name) {
            Some(i) => Some(self.values[i].duplicate()),
            None => None,
        }
    }

    /// Binds `name` to `value`, in place of what it was bound to.
    pub fn insert(&mut self, name: String, value: Object)
        requires
            old(self).wf(),
        ensures
            final(self).wf(),
            final(self)@ == old(self)@.insert(name@, value@),
    {
        match self.find(&name) {
            Some(i) => {
                self.values.set(i, value);
                proof {
                    assert forall|k: Seq<char>| self.index_of(k) == old(self).index_of(k) by {}
                    assert(self@ =~= old(self)@.insert(name@, value@));
                }
            },
            None => {
                let ghost n = self.names.len() as int;
                self.names.push(name);
                self.values.push(value);
                proof {
                    assert forall|i: int, j: int| 0 <= i < j < self.names.len() implies (
                    #[trigger] self.names[i]@) != (#[trigger] self.names[j]@) by {
                        if j == n {
                            assert(old(self).names[i]@ != name@);
                        } else {
                            assert(old(self).names[i]@ != old(self).names[j]@);
                        }
                    }
                    self.lemma_index_of(n);
                    assert forall|k: Seq<char>| k != name@ implies self.index_of(k) == old(self).index_of(k) by {
                        if old(self).index_of(k) is Some {
                            let i = old(self).index_of(k)->Some_0;
                            assert(self.names[i]@ == k);
                            self.lemma_index_of(i);
                        } else {
                            if self.index_of(k) is Some {
                                let i = self.index_of(k)->Some_0;
                                assert(self.names[i]@ == k);
                                assert(i < n);
                                assert(old(self).names[i]@ == k);
                            }
                        }
                    }
                    assert(self@ =~= old(self)@.insert(name@, value@));
                }
            },
        }
    }

    /// A copy of this scope.
    pub fn duplicate(&self) -> (r: Scope)
        requires
            self.wf(),
        ensures
            r.wf(),
            r@ == self@,
    {
        let mut names: Vec<String> = Vec::new();
        let mut values: Vec<Object> = Vec::new();
        let mut i: usize = 0;
        while i < self.names.len()
            invariant
                self.wf(),
                i <= self.names.len(),
                names.len() == i,
                values.len() == i,
                forall|k: int| 0 <= k < i ==> #[trigger] names[k]@ == self.names[k]@,
                forall|k: int| 0 <= k < i ==> #[trigger] values[k]@ == self.values[k]@,
            decreases self.names.len() - i,
        {
            names.push(self.names[i].clone());
            values.push(self.values[i].duplicate());
            i += 1;
        }
        let r = Scope { names, values };
        proof {
            assert(r.wf());
            assert forall|k: Seq<char>| r.index_of(k) == self.index_of(k) by {
                if self.index_of(k) is Some {
                    let i = self.index_of(k)->Some_0;
                    assert(r.names[i]@ == k);
                    r.lemma_index_of(i);
                } else {
                    if r.index_of(k) is Some {
                        let i = r.index_of(k)->Some_0;
                        assert(self.names[i]@ == k);
                    }
                }
            }
            assert(r@ =~= self@);
        }
        r
    }
}

/// The mathematical content of an [`Environment`]: the scopes that are held,
/// in the order in which they were opened; the scopes that are in sight, from
/// the global scope to the innermost, each by its place among the first; and
/// for each scope that is held, whether a function has captured it.
pub struct EnvironmentView {
    pub scopes: Seq<Map<Seq<char>, ObjectView>>,
    pub chain: Seq<usize>,
    pub captured: Seq<bool>,
}

/// The first scope of `chain` from `from` on that is none of the first
/// `limit` scopes, if there is one.
pub open spec fn stray(chain: Seq<usize>, limit: int, from: int) -> Option<usize>
    decreases chain.len() - from,
{
    if from < 0 || from >= chain.len() {
        None
    } else if chain[from] >= limit {
        Some(chain[from])
    } else {
        stray(chain, limit, from + 1)
    }
}

/// Without a stray scope, every scope of the chain exists.
pub proof fn lemma_no_stray(chain: Seq<usize>, limit: int, from: int)
    requires
        0 <= from,
        stray(chain, limit, from) is None,
    ensures
        forall|i: int| from <= i < chain.len() ==> chain[i] < limit,
    decreases chain.len() - from,
{
    if from < chain.len() {
        lemma_no_stray(chain, limit, from + 1);
    }
}

impl EnvironmentView {
    /// Some scope is in sight, and every scope in sight exists.
    pub open spec fn wf(self) -> bool {
        &&& self.chain.len() >= 1
        &&& self.scopes.len() <= usize::MAX
        &&& self.captured.len() == self.scopes.len()
        &&& forall|i: int| 0 <= i < self.chain.len() ==> self.chain[i] < self.scopes.len()
    }

    /// Whether scope `id` is among the outer `depth` scopes in sight.
    pub open spec fn sees(self, id: int, depth: int) -> bool
        decreases depth,
    {
        if depth <= 0 || depth > self.chain.len() {
            false
        } else {
            self.chain[depth - 1] == id || self.sees(id, depth - 1)
        }
    }

    /// Whether scope `id` is in sight.
    pub open spec fn in_sight(self, id: int) -> bool {
        self.sees(id, self.chain.len() as int)
    }

    /// The environment without the scopes that nothing can reach any more:
    /// the scopes that were opened last, as far as they are neither in sight
    /// nor captured by a function.
    pub open spec fn released(self) -> EnvironmentView
        decreases self.scopes.len(),
    {
        if self.scopes.len() > 0 && self.captured.len() == self.scopes.len()
            && !self.captured.last() && !self.in_sight(self.scopes.len() - 1) {
            (EnvironmentView {
                scopes: self.scopes.drop_last(),
                chain: self.chain,
                captured: self.captured.drop_last(),
            }).released()
        } else {
            self
        }
    }

    /// Which scopes are captured once the outer `depth` scopes in sight are.
    pub open spec fn marked(self, depth: int) -> Seq<bool>
        decreases depth,
    {
        if depth <= 0 || depth > self.chain.len() {
            self.captured
        } else {
            let before = self.marked(depth - 1);
            let id = self.chain[depth - 1] as int;
            if id < before.len() {
                before.update(id, true)
            } else {
                before
            }
        }
    }

    /// The environment after a function has captured the scopes in sight:
    /// they are held for as long as the environment is.
    pub open spec fn capturing(self) -> EnvironmentView {
        EnvironmentView {
            scopes: self.scopes,
            chain: self.chain,
            captured: self.marked(self.chain.len() as int),
        }
    }

    /// The innermost scope in sight.
    pub open spec fn innermost(self) -> int {
        self.chain.last() as int
    }

    /// The innermost of the outer `depth` scopes in sight that binds `name`.
    pub open spec fn holder(self, name: Seq<char>, depth: int) -> Option<int>
        decreases depth,
    {
        if depth <= 0 || depth > self.chain.len() {
            None
        } else {
            let id = self.chain[depth - 1] as int;
            if id < self.scopes.len() && self.scopes[id].contains_key(name) {
                Some(id)
            } else {
                self.holder(name, depth - 1)
            }
        }
    }

    /// The value of `name`: that of the innermost scope in sight that binds it.
    pub open spec fn lookup(self, name: Seq<char>) -> Option<ObjectView> {
        match self.holder(name, self.chain.len() as int) {
            Some(id) => Some(self.scopes[id][name]),
            None => None,
        }
    }

    /// The environment with `name` bound to `value` in scope `id`.
    pub open spec fn bound(self, id: int, name: Seq<char>, value: ObjectView) -> EnvironmentView {
        EnvironmentView {
            scopes: self.scopes.update(id, self.scopes[id].insert(name, value)),
            chain: self.chain,
            captured: self.captured,
        }
    }

    /// The environment after `name` was defined: it is bound in the innermost
    /// scope, whatever the outer ones bind.
    pub open spec fn defined(self, name: Seq<char>, value: ObjectView) -> EnvironmentView {
        self.bound(self.innermost(), name, value)
    }

    /// The environment after `name` was assigned to: the innermost scope that
    /// bound it binds it to `value`. Where none did, there is no such
    /// environment.
    pub open spec fn assigned(self, name: Seq<char>, value: ObjectView) -> Option<EnvironmentView> {
        match self.holder(name, self.chain.len() as int) {
            Some(id) => Some(self.bound(id, name, value)),
            None => None,
        }
    }

    /// The environment with one more scope, empty and innermost.
    pub open spec fn pushed(self) -> EnvironmentView {
        EnvironmentView {
            scopes: self.scopes.push(Map::empty()),
            chain: self.chain.push(self.scopes.len() as usize),
            captured: self.captured.push(false),
        }
    }

    /// The environment without its innermost scope in sight, and without the
    /// scopes that nothing can reach any more; the global scope stays.
    pub open spec fn popped(self) -> EnvironmentView {
        if self.chain.len() > 1 {
            self.seeing(self.chain.drop_last()).released()
        } else {
            self
        }
    }

    /// The environment with `chain` in sight.
    pub open spec fn seeing(self, chain: Seq<usize>) -> EnvironmentView {
        EnvironmentView { scopes: self.scopes, chain, captured: self.captured }
    }

    /// The environment with `chain` in sight again, and without the scopes
    /// that nothing can reach any more.
    pub open spec fn restored(self, chain: Seq<usize>) -> EnvironmentView {
        self.seeing(chain).released()
    }

    /// The environment in which a function with the captured scopes `closure`
    /// runs: those scopes and a new one, empty and innermost.
    pub open spec fn entered(self, closure: Seq<usize>) -> EnvironmentView {
        self.seeing(closure).pushed()
    }
}

/// Two environments that have the same outer `depth` scopes in sight, and the
/// same bindings in them, find every name in the same scope.
pub proof fn lemma_holder_agrees(
    a: EnvironmentView,
    b: EnvironmentView,
    name: Seq<char>,
    depth: int,
)
    requires
        0 <= depth <= a.chain.len(),
        depth <= b.chain.len(),
        forall|i: int| 0 <= i < depth ==> a.chain[i] == b.chain[i],
        forall|i: int|
            0 <= i < depth && a.chain[i] < a.scopes.len() ==> a.chain[i] < b.scopes.len()
                && a.scopes[a.chain[i] as int] == b.scopes[a.chain[i] as int],
        forall|i: int| 0 <= i < depth && a.chain[i] >= a.scopes.len() ==> a.chain[i] >= b.scopes.len(),
    ensures
        a.holder(name, depth) == b.holder(name, depth),
    decreases depth,
{
    if depth > 0 {
        lemma_holder_agrees(a, b, name, depth - 1);
    }
}

/// Defining a name keeps the environment sound and leaves every other name
/// in the scope in which it was, with the value that it had.
pub proof fn lemma_defined_keeps_others(
    e: EnvironmentView,
    name: Seq<char>,
    value: ObjectView,
    other: Seq<char>,
)
    requires
        e.wf(),
        other != name,
    ensures
        e.defined(name, value).wf(),
        e.defined(name, value).chain == e.chain,
        e.defined(name, value).lookup(other) == e.lookup(other),
{
    lemma_defined_keeps_holder(e, name, value, other, e.chain.len() as int);
    lemma_holder_in_sight(e, other, e.chain.len() as int);
}

/// The induction behind [`lemma_defined_keeps_others`].
pub proof fn lemma_defined_keeps_holder(
    e: EnvironmentView,
    name: Seq<char>,
    value: ObjectView,
    other: Seq<char>,
    depth: int,
)
    requires
        e.wf(),
        other != name,
        0 <= depth <= e.chain.len(),
    ensures
        e.defined(name, value).holder(other, depth) == e.holder(other, depth),
    decreases depth,
{
    if depth > 0 {
        lemma_defined_keeps_holder(e, name, value, other, depth - 1);
    }
}

/// A scope among the outer `depth` scopes in sight is seen to be there.
pub proof fn lemma_seen(e: EnvironmentView, i: int, depth: int)
    requires
        0 <= i < depth <= e.chain.len(),
    ensures
        e.sees(e.chain[i] as int, depth),
    decreases depth,
{
    if i < depth - 1 {
        lemma_seen(e, i, depth - 1);
    }
}

/// Releasing the scopes that nothing can reach leaves the scopes in sight as
/// they were, and every scope that stays as it was.
pub proof fn lemma_released(e: EnvironmentView)
    requires
        e.wf(),
    ensures
        e.released().wf(),
        e.released().chain == e.chain,
        e.released().scopes.len() <= e.scopes.len(),
        forall|id: int|
            0 <= id < e.released().scopes.len() ==> e.released().scopes[id] == e.scopes[id],
    decreases e.scopes.len(),
{
    if e.scopes.len() > 0 && !e.captured.last() && !e.in_sight(e.scopes.len() - 1) {
        let next = EnvironmentView {
            scopes: e.scopes.drop_last(),
            chain: e.chain,
            captured: e.captured.drop_last(),
        };
        assert forall|i: int| 0 <= i < e.chain.len() implies e.chain[i] < next.scopes.len() by {
            lemma_seen(e, i, e.chain.len() as int);
        }
        lemma_released(next);
        assert forall|id: int| 0 <= id < e.released().scopes.len() implies e.released().scopes[id]
            == e.scopes[id] by {
            assert(next.released().scopes[id] == next.scopes[id]);
            assert(next.scopes[id] == e.scopes[id]);
        }
    }
}

/// A scope that a function has captured is held: letting go of the scopes
/// that nothing can reach never lets go of it, and leaves it as it was.
pub proof fn captured_scopes_are_held(e: EnvironmentView, id: int)
    requires
        e.wf(),
        0 <= id < e.scopes.len(),
        e.captured[id],
    ensures
        id < e.released().scopes.len(),
        e.released().captured[id],
        e.released().scopes[id] == e.scopes[id],
    decreases e.scopes.len(),
{
    if e.scopes.len() > 0 && !e.captured.last() && !e.in_sight(e.scopes.len() - 1) {
        let next = EnvironmentView {
            scopes: e.scopes.drop_last(),
            chain: e.chain,
            captured: e.captured.drop_last(),
        };
        assert forall|i: int| 0 <= i < e.chain.len() implies e.chain[i] < next.scopes.len() by {
            lemma_seen(e, i, e.chain.len() as int);
        }
        captured_scopes_are_held(next, id);
    }
}

/// Releasing the scopes that nothing can reach leaves every name with the
/// value that it had.
pub proof fn lemma_released_keeps_names(e: EnvironmentView, name: Seq<char>)
    requires
        e.wf(),
    ensures
        e.released().lookup(name) == e.lookup(name),
{
    lemma_released(e);
    lemma_holder_agrees(e, e.released(), name, e.chain.len() as int);
    lemma_holder_in_sight(e, name, e.chain.len() as int);
}

/// What a block defines is out of sight after the block: an environment in
/// which a scope was opened, a name defined and the scope ended has the scopes
/// in sight that it had before, and every name has the value that it had
/// before.
pub proof fn scope_ends_with_its_definitions(
    before: EnvironmentView,
    name: Seq<char>,
    value: ObjectView,
    other: Seq<char>,
)
    requires
        before.wf(),
        before.scopes.len() < usize::MAX,
    ensures
        before.pushed().defined(name, value).popped().chain == before.chain,
        before.pushed().defined(name, value).popped().lookup(other) == before.lookup(other),
        before.pushed().defined(name, value).lookup(name) == Some(value),
{
    let inside = before.pushed().defined(name, value);
    let outside = inside.seeing(inside.chain.drop_last());
    let after = inside.popped();
    let fresh = before.scopes.len() as int;
    assert(before.pushed().innermost() == fresh);
    assert(inside.scopes == before.scopes.push(Map::empty()).update(
        fresh,
        Map::<Seq<char>, ObjectView>::empty().insert(name, value),
    ));
    assert(outside.chain =~= before.chain);
    assert forall|i: int| 0 <= i < before.chain.len() implies before.chain[i]
        < outside.scopes.len() && before.scopes[before.chain[i] as int]
        == outside.scopes[before.chain[i] as int] by {}
    lemma_holder_agrees(before, outside, other, before.chain.len() as int);
    lemma_released(outside);
    lemma_released_keeps_names(outside, other);
    assert(inside.holder(name, inside.chain.len() as int) == Some(fresh));
    match before.holder(other, before.chain.len() as int) {
        Some(id) => {
            lemma_holder_in_sight(before, other, before.chain.len() as int);
        },
        None => {},
    }
}

/// The scope that holds a name is in sight and binds it.
pub proof fn lemma_holder_in_sight(e: EnvironmentView, name: Seq<char>, depth: int)
    ensures
        e.holder(name, depth) matches Some(id) ==> 0 <= id < e.scopes.len()
            && e.scopes[id].contains_key(name) && exists|i: int|
            0 <= i < depth && i < e.chain.len() && #[trigger] e.chain[i] == id,
    decreases depth,
{
    if depth > 0 && depth <= e.chain.len() {
        let id = e.chain[depth - 1] as int;
        if id < e.scopes.len() && e.scopes[id].contains_key(name) {
            assert(e.chain[depth - 1] == id);
        } else {
            lemma_holder_in_sight(e, name, depth - 1);
        }
    }
}

/// A function sees what was in sight where it was declared: in the
/// environment that a call enters, a name that is no parameter has the value
/// that the captured scopes give it.
pub proof fn call_sees_captured_scopes(
    before: EnvironmentView,
    closure: Seq<usize>,
    name: Seq<char>,
)
    requires
        before.seeing(closure).wf(),
        before.scopes.len() < usize::MAX,
    ensures
        before.entered(closure).lookup(name) == before.seeing(closure).lookup(name),
        before.entered(closure).wf(),
{
    let captured = before.seeing(closure);
    let inside = before.entered(closure);
    let fresh = before.scopes.len() as int;
    assert(inside.chain[closure.len() as int] == fresh);
    assert(inside.scopes[fresh] == Map::<Seq<char>, ObjectView>::empty());
    assert forall|i: int| 0 <= i < closure.len() implies captured.chain[i] < inside.scopes.len()
        && captured.scopes[captured.chain[i] as int] == inside.scopes[captured.chain[i] as int] by {}
    lemma_holder_agrees(captured, inside, name, closure.len() as int);
    match captured.holder(name, closure.len() as int) {
        Some(id) => {
            lemma_holder_in_sight(captured, name, closure.len() as int);
        },
        None => {},
    }
}

/// The scopes of a running program. Scopes are never copied: a function that
/// captures the scopes in sight shares them with the code that declared it.
#[derive(Debug)]
pub struct Environment {
    scopes: Vec<Scope>,
    chain: Vec<usize>,
    captured: Vec<bool>,
}

impl View for Environment {
    type V = EnvironmentView;

    closed spec fn view(&self) -> EnvironmentView {
        EnvironmentView {
            scopes: Seq::new(self.scopes.len() as nat, |i: int| self.scopes[i]@),
            chain: self.chain@,
            captured: self.captured@,
        }
    }
}

impl Environment {
    /// Every scope is sound, some scope is in sight, and every scope in sight
    /// exists.
    pub closed spec fn wf(&self) -> bool {
        &&& self@.wf()
        &&& forall|i: int| 0 <= i < self.scopes.len() ==> (#[trigger] self.scopes[i]).wf()
    }

    /// What `wf` says of the view.
    pub proof fn lemma_wf(&self)
        requires
            self.wf(),
        ensures
            self@.wf(),
    {
    }

    /// An environment of one scope, the global one, which binds nothing.
    pub fn new() -> (r: Environment)
        ensures
            r.wf(),
            r@ == (EnvironmentView {
                scopes: seq![Map::empty()],
                chain: seq![0usize],
                captured: seq![false],
            }),
    {
        let mut scopes: Vec<Scope> = Vec::new();
        scopes.push(Scope::new());
        let mut chain: Vec<usize> = Vec::new();
        chain.push(0);
        let mut captured: Vec<bool> = Vec::new();
        captured.push(false);
        let r = Environment { scopes, chain, captured };
        assert(r@.scopes =~= seq![Map::<Seq<char>, ObjectView>::empty()]);
        assert(r@.chain =~= seq![0usize]);
        assert(r@.captured =~= seq![false]);
        r
    }

    /// A copy of this environment.
    pub fn duplicate(&self) -> (r: Environment)
        requires
            self.wf(),
        ensures
            r.wf(),
            r@ == self@,
    {
        let mut scopes: Vec<Scope> = Vec::new();
        let mut i: usize = 0;
        while i < self.scopes.len()
            invariant
                self.wf(),
                i <= self.scopes.len(),
                scopes.len() == i,
                forall|k: int| 0 <= k < i ==> (#[trigger] scopes[k]).wf() && scopes[k]@ == self.scopes[k]@,
            decreases self.scopes.len() - i,
        {
            scopes.push(self.scopes[i].duplicate());
            i += 1;
        }
        let chain = copy_chain(&self.chain);
        let mut captured: Vec<bool> = Vec::new();
        let mut k: usize = 0;
        while k < self.captured.len()
            invariant
                k <= self.captured.len(),
                captured@ == self.captured@.subrange(0, k as int),
            decreases self.captured.len() - k,
        {
            captured.push(self.captured[k]);
            assert(captured@ =~= self.captured@.subrange(0, k + 1));
            k += 1;
        }
        assert(captured@ =~= self.captured@);
        let r = Environment { scopes, chain, captured };
        assert(r@.scopes =~= self@.scopes);
        r
    }

    /// A copy of `e` with one more scope, empty and innermost.
    pub fn contains(e: &Environment) -> (r: Environment)
        requires
            e.wf(),
        ensures
            r.wf(),
            r@ == e@.pushed(),
    {
        let mut r = e.duplicate();
        r.new_scope();
        r
    }

    /// Whether no scope is in sight.
    pub fn is_empty(&self) -> (r: bool)
        ensures
            r == (self@.chain.len() == 0),
    {
        self.chain.len() == 0
    }

    /// Opens a scope: it is empty, and innermost.
    pub fn new_scope(&mut self)
        requires
            old(self).wf(),
        ensures
            final(self).wf(),
            final(self)@ == old(self)@.pushed(),
    {
        let id = self.scopes.len();
        self.scopes.push(Scope::new());
        self.captured.push(false);
        self.chain.push(id);
        proof {
            assert(self@.scopes =~= old(self)@.pushed().scopes);
            assert forall|i: int| 0 <= i < self.scopes.len() implies (#[trigger] self.scopes[i]).wf() by {
                if i < id {
                    assert(old(self).scopes[i].wf());
                }
            }
        }
    }

    /// Ends the innermost scope; the global scope is never ended.
    pub fn end_scope(&mut self)
        requires
            old(self).wf(),
        ensures
            final(self).wf(),
            final(self)@ == old(self)@.popped(),
    {
        if self.chain.len() > 1 {
            self.chain.pop();
            proof {
                assert(self@.scopes =~= old(self)@.scopes);
                assert(self@.chain =~= old(self)@.chain.drop_last());
            }
            self.release();
        }
    }

    /// Whether scope `id` is in sight.
    fn sees(&self, id: usize) -> (r: bool)
        ensures
            r == self@.in_sight(id as int),
    {
        let mut depth: usize = self.chain.len();
        while depth > 0
            invariant
                depth <= self.chain.len(),
                self@.in_sight(id as int) == self@.sees(id as int, depth as int),
            decreases depth,
        {
            if self.chain[depth - 1] == id {
                return true;
            }
            depth -= 1;
        }
        false
    }

    /// Lets go of the scopes that nothing can reach any more.
    fn release(&mut self)
        requires
            old(self).wf(),
        ensures
            final(self).wf(),
            final(self)@ == old(self)@.released(),
    {
        loop
            invariant
                self.wf(),
                self@.released() == old(self)@.released(),
            decreases self.scopes.len(),
        {
            let n = self.scopes.len();
            if n == 0 || self.captured[n - 1] || self.sees(n - 1) {
                return ;
            }
            proof {
                lemma_released(self@);
                assert forall|i: int| 0 <= i < self.chain.len() implies self.chain[i] < n - 1 by {
                    lemma_seen(self@, i, self.chain.len() as int);
                }
            }
            let ghost before = self@;
            self.scopes.pop();
            self.captured.pop();
            proof {
                assert(self@.scopes =~= before.scopes.drop_last());
                assert(self@.captured =~= before.captured.drop_last());
                assert forall|i: int| 0 <= i < self.scopes.len() implies (
                #[trigger] self.scopes[i]).wf() by {}
            }
        }
    }

    /// Marks the scopes in sight as captured by a function, and gives them:
    /// from now on they are held for as long as the environment is.
    pub fn capture(&mut self) -> (r: Vec<usize>)
        requires
            old(self).wf(),
        ensures
            final(self).wf(),
            final(self)@ == old(self)@.capturing(),
            r@ == old(self)@.chain,
    {
        let mut i: usize = 0;
        while i < self.chain.len()
            invariant
                self.wf(),
                i <= self.chain.len(),
                self.scopes == old(self).scopes,
                self.chain == old(self).chain,
                self.captured@ == old(self)@.marked(i as int),
            decreases self.chain.len() - i,
        {
            let id = self.chain[i];
            self.captured.set(id, true);
            i += 1;
        }
        copy_chain(&self.chain)
    }

    /// Binds `name` to `value` in scope `id`.
    fn bind(&mut self, id: usize, name: String, value: Object)
        requires
            old(self).wf(),
            id < old(self).scopes.len(),
        ensures
            final(self).wf(),
            final(self)@ == old(self)@.bound(id as int, name@, value@),
    {
        let mut scope = Scope::new();
        self.scopes.set_and_swap(id, &mut scope);
        assert(scope == old(self).scopes[id as int]);
        scope.insert(name, value);
        self.scopes.set(id, scope);
        proof {
            assert forall|i: int| 0 <= i < self.scopes.len() implies (#[trigger] self.scopes[i]).wf() by {
                if i != id {
                    assert(old(self).scopes[i].wf());
                }
            }
            assert(self@.scopes =~= old(self)@.bound(id as int, name@, value@).scopes);
        }
    }

    /// The innermost scope in sight that binds `name`, if one does.
    fn holder(&self, name: &String) -> (r: Option<usize>)
        requires
            self.wf(),
        ensures
            match r {
                Some(id) => id < self.scopes.len() && self@.holder(name@, self@.chain.len() as int)
                    == Some(id as int),
                None => self@.holder(name@, self@.chain.len() as int) is None,
            },
    {
        let mut depth: usize = self.chain.len();
        while depth > 0
            invariant
                self.wf(),
                depth <= self.chain.len(),
                self@.holder(name@, self@.chain.len() as int) == self@.holder(name@, depth as int),
            decreases depth,
        {
            let id = self.chain[depth - 1];
            if self.scopes[id].contains_key(name) {
                return Some(id);
            }
            depth -= 1;
        }
        None
    }

    /// Defines `name` in the innermost scope, whatever the outer scopes bind.
    /// A name that the scope bound already is bound anew.
    pub fn define(&mut self, name: String, value: Object)
        requires
            old(self).wf(),
        ensures
            final(self).wf(),
            final(self)@ == old(self)@.defined(name@, value@),
    {
        let id = self.chain[self.chain.len() - 1];
        self.bind(id, name, value);
    }

    /// Assigns `value` to `name` in the innermost scope in sight that binds
    /// it. Where none does, the name is undefined and nothing changes.
    pub fn assign(&mut self, name: String, value: Object) -> (r: Result<(), RuntimeError>)
        requires
            old(self).wf(),
        ensures
            final(self).wf(),
            match old(self)@.assigned(name@, value@) {
                Some(after) => r is Ok && final(self)@ == after,
                None => r is Err && r->Err_0@ == RuntimeErrorView::UndefinedVariable(name@)
                    && final(self)@ == old(self)@,
            },
    {
        match self.holder(&name) {
            Some(id) => {
                self.bind(id, name, value);
                Ok(())
            },
            None => Err(RuntimeError::UndefinedVariable(name)),
        }
    }

    /// Binds `name` to `value` in the scope that lies `distance` scopes out
    /// from the innermost. Where there is no such scope, nothing changes.
    pub fn assign_at(&mut self, distance: usize, name: String, value: Object) -> (r: Result<
        (),
        RuntimeError,
    >)
        requires
            old(self).wf(),
        ensures
            final(self).wf(),
            distance < old(self)@.chain.len() ==> r is Ok && final(self)@ == old(self)@.bound(
                old(self)@.chain[old(self)@.chain.len() - 1 - distance] as int,
                name@,
                value@,
            ),
            distance >= old(self)@.chain.len() ==> r is Err && r->Err_0@
                == RuntimeErrorView::ScopeDepth(distance) && final(self)@ == old(self)@,
    {
        if distance < self.chain.len() {
            let id = self.chain[self.chain.len() - 1 - distance];
            self.bind(id, name, value);
            Ok(())
        } else {
            Err(RuntimeError::ScopeDepth(distance))
        }
    }

    /// Assigns `value` to `name` in the global scope. Where that scope does
    /// not bind the name, the name is undefined and nothing changes.
    pub fn assign_global(&mut self, name: String, value: Object) -> (r: Result<(), RuntimeError>)
        requires
            old(self).wf(),
        ensures
            final(self).wf(),
            old(self)@.scopes[old(self)@.chain[0] as int].contains_key(name@) ==> r is Ok && final(self)@ == old(self)@.bound(old(self)@.chain[0] as int, name@, value@),
            !old(self)@.scopes[old(self)@.chain[0] as int].contains_key(name@) ==> r is Err
                && r->Err_0@ == RuntimeErrorView::UndefinedVariable(name@) && final(self)@ == old(self)@,
    {
        let id = self.chain[0];
        if self.scopes[id].contains_key(&name) {
            self.bind(id, name, value);
            Ok(())
        } else {
            Err(RuntimeError::UndefinedVariable(name))
        }
    }

    /// A copy of the value of `name`: that of the innermost scope in sight
    /// that binds it. Where none does, the name is undefined.
    pub fn get(&self, name: &str) -> (r: Result<Object, RuntimeError>)
        requires
            self.wf(),
        ensures
            match self@.lookup(name@) {
                Some(value) => r is Ok && r->Ok_0@ == value,
                None => r is Err && r->Err_0@ == RuntimeErrorView::UndefinedVariable(name@),
            },
    {
        let name = name.to_owned();
        proof {
            lemma_holder_in_sight(self@, name@, self@.chain.len() as int);
        }
        match self.holder(&name) {
            Some(id) => match self.scopes[id].get(&name) {
                Some(value) => Ok(value),
                None => Err(RuntimeError::UndefinedVariable(name)),
            },
            None => Err(RuntimeError::UndefinedVariable(name)),
        }
    }

    /// A copy of the value that the global scope binds `name` to.
    pub fn get_global(&self, name: &str) -> (r: Result<Object, RuntimeError>)
        requires
            self.wf(),
        ensures
            match self@.seeing(seq![self@.chain[0]]).lookup(name@) {
                Some(value) => r is Ok && r->Ok_0@ == value,
                None => r is Err && r->Err_0@ == RuntimeErrorView::UndefinedVariable(name@),
            },
    {
        let id = self.chain[0];
        proof {
            let global = self@.seeing(seq![self@.chain[0]]);
            assert(global.holder(name@, 0) is None);
        }
        let name = name.to_owned();
        match self.scopes[id].get(&name) {
            Some(value) => Ok(value),
            None => Err(RuntimeError::UndefinedVariable(name)),
        }
    }

    /// A copy of the value that the scope `distance` scopes out from the
    /// innermost binds `name` to.
    pub fn get_at(&self, distance: usize, name: &str) -> (r: Result<Object, RuntimeError>)
        requires
            self.wf(),
        ensures
            distance >= self@.chain.len() ==> r is Err && r->Err_0@ == RuntimeErrorView::ScopeDepth(
                distance,
            ),
            distance < self@.chain.len() ==> match self@.seeing(
                seq![self@.chain[self@.chain.len() - 1 - distance]],
            ).lookup(name@) {
                Some(value) => r is Ok && r->Ok_0@ == value,
                None => r is Err && r->Err_0@ == RuntimeErrorView::UndefinedVariable(name@),
            },
    {
        if distance >= self.chain.len() {
            return Err(RuntimeError::ScopeDepth(distance));
        }
        let id = self.chain[self.chain.len() - 1 - distance];
        proof {
            let one = self@.seeing(seq![self@.chain[self@.chain.len() - 1 - distance]]);
            assert(one.holder(name@, 0) is None);
        }
        let name = name.to_owned();
        match self.scopes[id].get(&name) {
            Some(value) => Ok(value),
            None => Err(RuntimeError::UndefinedVariable(name)),
        }
    }

    /// How many scopes are held.
    pub fn held(&self) -> (r: usize)
        ensures
            r == self@.scopes.len(),
    {
        self.scopes.len()
    }

    /// The scopes in sight, from the global scope to the innermost.
    pub fn chain(&self) -> (r: Vec<usize>)
        ensures
            r@ == self@.chain,
    {
        copy_chain(&self.chain)
    }

    /// The first scope of `chain` that does not exist, if there is one.
    fn stray(&self, chain: &Vec<usize>) -> (r: Option<usize>)
        ensures
            r == stray(chain@, self@.scopes.len() as int, 0),
    {
        let mut i: usize = 0;
        while i < chain.len()
            invariant
                i <= chain.len(),
                stray(chain@, self@.scopes.len() as int, 0) == stray(
                    chain@,
                    self@.scopes.len() as int,
                    i as int,
                ),
            decreases chain.len() - i,
        {
            if chain[i] >= self.scopes.len() {
                return Some(chain[i]);
            }
            i += 1;
        }
        None
    }

    /// Enters a function that captured the scopes `closure`: they come in
    /// sight, with a new scope, empty and innermost. The scopes that were in
    /// sight are returned. Where a captured scope does not exist, nothing
    /// changes.
    pub fn enter(&mut self, closure: &Vec<usize>) -> (r: Result<Vec<usize>, RuntimeError>)
        requires
            old(self).wf(),
        ensures
            final(self).wf(),
            match stray(closure@, old(self)@.scopes.len() as int, 0) {
                None => r is Ok && r->Ok_0@ == old(self)@.chain && final(self)@ == old(self)@.entered(closure@),
                Some(id) => r is Err && r->Err_0@ == RuntimeErrorView::ScopeDepth(id) && final(self)@ == old(self)@,
            },
    {
        match self.stray(closure) {
            Some(id) => Err(RuntimeError::ScopeDepth(id)),
            None => {
                proof {
                    lemma_no_stray(closure@, self@.scopes.len() as int, 0);
                }
                let mut chain = copy_chain(closure);
                std::mem::swap(&mut self.chain, &mut chain);
                proof {
                    assert(self@.scopes =~= old(self)@.scopes);
                }
                let id = self.scopes.len();
                self.scopes.push(Scope::new());
                self.captured.push(false);
                self.chain.push(id);
                proof {
                    assert(self@.scopes =~= old(self)@.entered(closure@).scopes);
                    assert forall|i: int| 0 <= i < self.scopes.len() implies (
                    #[trigger] self.scopes[i]).wf() by {
                        if i < id {
                            assert(old(self).scopes[i].wf());
                        }
                    }
                }
                Ok(chain)
            },
        }
    }

    /// Brings the scopes `chain` in sight, in place of those that are, and
    /// lets go of the scopes that nothing can reach any more. Where `chain`
    /// is empty or one of its scopes does not exist, nothing changes.
    pub fn restore(&mut self, chain: Vec<usize>) -> (r: Result<(), RuntimeError>)
        requires
            old(self).wf(),
        ensures
            final(self).wf(),
            if chain@.len() == 0 {
                r is Err && r->Err_0@ == RuntimeErrorView::ScopeDepth(0) && final(self)@ == old(self)@
            } else {
                match stray(chain@, old(self)@.scopes.len() as int, 0) {
                    None => r is Ok && final(self)@ == old(self)@.restored(chain@),
                    Some(id) => r is Err && r->Err_0@ == RuntimeErrorView::ScopeDepth(id) && final(self)@ == old(self)@,
                }
            },
    {
        if chain.len() == 0 {
            return Err(RuntimeError::ScopeDepth(0));
        }
        match self.stray(&chain) {
            Some(id) => Err(RuntimeError::ScopeDepth(id)),
            None => {
                proof {
                    lemma_no_stray(chain@, self@.scopes.len() as int, 0);
                }
                self.chain = chain;
                proof {
                    assert(self@.scopes =~= old(self)@.scopes);
                }
                self.release();
                Ok(())
            },
        }
    }
}

/// A copy of a chain of scopes.
pub fn copy_chain(chain: &Vec<usize>) -> (r: Vec<usize>)
    ensures
        r@ == chain@,
{
    let mut out: Vec<usize> = Vec::new();
    let mut i: usize = 0;
    while i < chain.len()
        invariant
            i <= chain.len(),
            out@ == chain@.subrange(0, i as int),
        decreases chain.len() - i,
    {
        out.push(chain[i]);
        assert(out@ =~= chain@.subrange(0, i + 1));
        i += 1;
    }
    assert(out@ =~= chain@);
    out
}

} // verus!
