//! Variable bindings: a chain of scope frames, innermost first.

use crate::ast::{Value, ValueView};
use crate::tokens::Token;
use vstd::prelude::*;

verus! {

/// Why an environment operation failed.
#[derive(Debug, PartialEq, Eq)]
pub enum EnvError {
    AssignUndefinedVariable,
}

/// One scope frame as a mathematical value: its names with their values.
pub type Scope = Map<Seq<char>, ValueView>;

/// One name with its value.
#[derive(Debug)]
struct Binding {
    name: String,
    value: Value,
}

/// A scope frame with the frames that enclose it.
#[derive(Debug)]
pub struct Environment {
    values: Vec<Binding>,
    enclosing: Option<Box<Environment>>,
}

/// The scope that a list of bindings stands for; of two bindings of one name
/// the later one counts.
spec fn frame(bindings: Seq<Binding>) -> Scope
    decreases bindings.len(),
{
    if bindings.len() == 0 {
        Map::empty()
    } else {
        frame(bindings.drop_last()).insert(bindings.last().name@, bindings.last().value@)
    }
}

/// The value of `name`: that of the innermost scope that holds the name.
pub open spec fn lookup(scopes: Seq<Scope>, name: Seq<char>) -> Option<ValueView>
    decreases scopes.len(),
{
    if scopes.len() == 0 {
        None
    } else if scopes[0].contains_key(name) {
        Some(scopes[0][name])
    } else {
        lookup(scopes.drop_first(), name)
    }
}

/// The scopes after `name` got `value` in the innermost scope.
pub open spec fn defined(scopes: Seq<Scope>, name: Seq<char>, value: ValueView) -> Seq<Scope>
    recommends
        scopes.len() > 0,
{
    scopes.update(0, scopes[0].insert(name, value))
}

/// The scopes after `name` got `value` in the innermost scope that holds the
/// name; `None` where no scope holds it.
pub open spec fn assigned(scopes: Seq<Scope>, name: Seq<char>, value: ValueView) -> Option<
    Seq<Scope>,
>
    decreases scopes.len(),
{
    if scopes.len() == 0 {
        None
    } else if scopes[0].contains_key(name) {
        Some(scopes.update(0, scopes[0].insert(name, value)))
    } else {
        match assigned(scopes.drop_first(), name, value) {
            Some(outer) => Some(seq![scopes[0]] + outer),
            None => None,
        }
    }
}

/// Both chains have as many scopes, and each scope binds the same names in
/// both.
pub open spec fn same_names(a: Seq<Scope>, b: Seq<Scope>) -> bool {
    a.len() == b.len() && forall|i: int| 0 <= i < a.len() ==> (#[trigger] a[i]).dom() =~= b[i].dom()
}

/// Every scope but the innermost binds the same names in both chains, and
/// the innermost scope of `after` binds at least the names it binds in
/// `before`.
pub open spec fn outer_names_kept(before: Seq<Scope>, after: Seq<Scope>) -> bool {
    &&& before.len() == after.len()
    &&& forall|i: int| 1 <= i < before.len() ==> (#[trigger] before[i]).dom() =~= after[i].dom()
    &&& before.len() > 0 ==> before[0].dom().subset_of(after[0].dom())
}

/// From the scope `from` outward, `name` is bound in the same scopes of both
/// chains, and to the same values.
pub open spec fn keeps_value(
    before: Seq<Scope>,
    after: Seq<Scope>,
    from: int,
    name: Seq<char>,
) -> bool {
    &&& before.len() == after.len()
    &&& forall|i: int|
        from <= i < before.len() && 0 <= i ==> (#[trigger] before[i]).contains_key(name)
            == after[i].contains_key(name) && (before[i].contains_key(name) ==> after[i][name]
            == before[i][name])
}

/// One of the `depth` innermost scopes binds `name`.
pub open spec fn bound_within(scopes: Seq<Scope>, depth: int, name: Seq<char>) -> bool {
    exists|i: int| 0 <= i < depth && i < scopes.len() && (#[trigger] scopes[i]).contains_key(name)
}

/// An assignment changes one value: that of its name, in the innermost scope
/// that binds it. So it keeps every other name, and it keeps every scope
/// around one that binds its name.
pub proof fn lemma_assigned_keeps_values(
    scopes: Seq<Scope>,
    target: Seq<char>,
    value: ValueView,
    depth: int,
    name: Seq<char>,
)
    requires
        assigned(scopes, target, value) is Some,
    ensures
        target != name ==> keeps_value(scopes, assigned(scopes, target, value)->0, 0, name),
        bound_within(scopes, depth, target) ==> keeps_value(
            scopes,
            assigned(scopes, target, value)->0,
            depth,
            name,
        ),
    decreases scopes.len(),
{
    let after = assigned(scopes, target, value)->0;
    if scopes.len() > 0 {
        if scopes[0].contains_key(target) {
            assert(after == scopes.update(0, scopes[0].insert(target, value)));
            if bound_within(scopes, depth, target) {
                assert(depth >= 1);
            }
        } else {
            let rest = scopes.drop_first();
            let outer = assigned(rest, target, value)->0;
            lemma_assigned_keeps_values(rest, target, value, depth - 1, name);
            lemma_assigned_keeps_names(rest, target, value);
            assert(after == seq![scopes[0]] + outer);
            assert(after.len() == scopes.len());
            if bound_within(scopes, depth, target) {
                let i = choose|i: int|
                    0 <= i < depth && i < scopes.len() && (#[trigger] scopes[i]).contains_key(
                        target,
                    );
                assert(i >= 1);
                assert(rest[i - 1] == scopes[i]);
                assert(bound_within(rest, depth - 1, target));
            }
            if target != name {
                assert forall|i: int| 0 <= i < scopes.len() implies (#[trigger] scopes[i]).contains_key(
                    name,
                ) == after[i].contains_key(name) && (scopes[i].contains_key(name) ==> after[i][name]
                    == scopes[i][name]) by {
                    if i >= 1 {
                        assert(scopes[i] == rest[i - 1]);
                        assert(after[i] == outer[i - 1]);
                    }
                }
            }
            if bound_within(scopes, depth, target) {
                assert forall|i: int| depth <= i < scopes.len() && 0 <= i implies (
                #[trigger] scopes[i]).contains_key(name) == after[i].contains_key(name) && (
                scopes[i].contains_key(name) ==> after[i][name] == scopes[i][name]) by {
                    assert(scopes[i] == rest[i - 1]);
                    assert(after[i] == outer[i - 1]);
                }
            }
        }
    }
}

/// What keeps a value twice keeps it.
pub proof fn lemma_keeps_value_chain(
    a: Seq<Scope>,
    b: Seq<Scope>,
    c: Seq<Scope>,
    from: int,
    name: Seq<char>,
)
    requires
        keeps_value(a, b, from, name),
        keeps_value(b, c, from, name),
    ensures
        keeps_value(a, c, from, name),
{
    assert forall|i: int| from <= i < a.len() && 0 <= i implies (#[trigger] a[i]).contains_key(
        name,
    ) == c[i].contains_key(name) && (a[i].contains_key(name) ==> c[i][name] == a[i][name]) by {
        assert(a[i].contains_key(name) == b[i].contains_key(name));
        assert(b[i].contains_key(name) == c[i].contains_key(name));
    }
}

/// An assignment changes the value of a name that is bound, never which names
/// a scope binds.
pub proof fn lemma_assigned_keeps_names(scopes: Seq<Scope>, name: Seq<char>, value: ValueView)
    ensures
        match assigned(scopes, name, value) {
            Some(after) => same_names(scopes, after) && lookup(scopes, name) is Some && lookup(
                after,
                name,
            ) == Some(value),
            None => lookup(scopes, name) is None,
        },
    decreases scopes.len(),
{
    if scopes.len() > 0 && !scopes[0].contains_key(name) {
        let rest = scopes.drop_first();
        lemma_assigned_keeps_names(rest, name, value);
        match assigned(rest, name, value) {
            Some(outer) => {
                let after = seq![scopes[0]] + outer;
                assert(after.drop_first() == outer);
                assert forall|i: int| 0 <= i < scopes.len() implies (#[trigger] scopes[i]).dom()
                    =~= after[i].dom() by {
                    if i > 0 {
                        assert(scopes[i] == rest[i - 1]);
                        assert(after[i] == outer[i - 1]);
                    }
                }
            },
            None => {},
        }
    }
}

/// A name bound in the innermost scope hides every outer binding of it:
/// looking it up finds the inner value, and assigning to it leaves every
/// outer scope as it was.
pub proof fn lemma_shadowing(inner: Scope, outer: Seq<Scope>, name: Seq<char>, value: ValueView)
    requires
        inner.contains_key(name),
    ensures
        lookup(seq![inner] + outer, name) == Some(inner[name]),
        assigned(seq![inner] + outer, name, value) == Some(
            seq![inner.insert(name, value)] + outer,
        ),
        lookup(defined(seq![inner] + outer, name, value).drop_first(), name) == lookup(outer, name),
{
    let scopes = seq![inner] + outer;
    assert(scopes[0] == inner);
    assert(scopes.update(0, inner.insert(name, value)) =~= seq![inner.insert(name, value)] + outer);
    assert(defined(scopes, name, value).drop_first() =~= outer);
}

/// A declaration in a new scope hides the outer binding while the scope
/// lasts, and the outer binding is there again once the scope is gone.
pub proof fn lemma_declaration_shadows(outer: Seq<Scope>, name: Seq<char>, value: ValueView)
    ensures
        lookup(defined(seq![Map::<Seq<char>, ValueView>::empty()] + outer, name, value), name)
            == Some(value),
        defined(seq![Map::<Seq<char>, ValueView>::empty()] + outer, name, value).drop_first()
            == outer,
{
    let scopes = seq![Map::<Seq<char>, ValueView>::empty()] + outer;
    assert(defined(scopes, name, value).drop_first() =~= outer);
}

/// No binding at `from` or later has the name.
spec fn absent_from(bindings: Seq<Binding>, from: int, name: Seq<char>) -> bool {
    forall|j: int| from <= j < bindings.len() ==> (#[trigger] bindings[j]).name@ != name
}

proof fn lemma_frame_absent(bindings: Seq<Binding>, name: Seq<char>)
    requires
        absent_from(bindings, 0, name),
    ensures
        !frame(bindings).contains_key(name),
    decreases bindings.len(),
{
    if bindings.len() > 0 {
        assert(bindings.last() == bindings[bindings.len() - 1]);
        assert forall|j: int| 0 <= j < bindings.drop_last().len() implies (
        #[trigger] bindings.drop_last()[j]).name@ != name by {
            assert(bindings.drop_last()[j] == bindings[j]);
        }
        lemma_frame_absent(bindings.drop_last(), name);
    }
}

proof fn lemma_frame_present(bindings: Seq<Binding>, i: int, name: Seq<char>)
    requires
        0 <= i < bindings.len(),
        bindings[i].name@ == name,
        absent_from(bindings, i + 1, name),
    ensures
        frame(bindings).contains_key(name),
        frame(bindings)[name] == bindings[i].value@,
    decreases bindings.len(),
{
    if i < bindings.len() - 1 {
        let init = bindings.drop_last();
        assert(bindings.last() == bindings[bindings.len() - 1]);
        assert(init[i] == bindings[i]);
        assert forall|j: int| i + 1 <= j < init.len() implies (#[trigger] init[j]).name@
            != name by {
            assert(init[j] == bindings[j]);
        }
        lemma_frame_present(init, i, name);
    }
}

proof fn lemma_frame_replace(bindings: Seq<Binding>, i: int, binding: Binding)
    requires
        0 <= i < bindings.len(),
        bindings[i].name@ == binding.name@,
        absent_from(bindings, i + 1, binding.name@),
    ensures
        frame(bindings.update(i, binding)) == frame(bindings).insert(
            binding.name@,
            binding.value@,
        ),
    decreases bindings.len(),
{
    let updated = bindings.update(i, binding);
    let name = binding.name@;
    if i == bindings.len() - 1 {
        assert(updated.drop_last() == bindings.drop_last());
        assert(frame(updated) == frame(bindings.drop_last()).insert(name, binding.value@));
        assert(frame(bindings) == frame(bindings.drop_last()).insert(name, bindings[i].value@));
        assert(frame(updated) == frame(bindings).insert(name, binding.value@));
    } else {
        let init = bindings.drop_last();
        let last = bindings.last();
        assert(last == bindings[bindings.len() - 1]);
        assert(last.name@ != name);
        assert(init[i] == bindings[i]);
        assert forall|j: int| i + 1 <= j < init.len() implies (#[trigger] init[j]).name@
            != name by {
            assert(init[j] == bindings[j]);
        }
        lemma_frame_replace(init, i, binding);
        assert(updated.drop_last() == init.update(i, binding));
        assert(updated.last() == last);
        assert(frame(updated) == frame(init).insert(name, binding.value@).insert(
            last.name@,
            last.value@,
        ));
        assert(frame(updated) == frame(bindings).insert(name, binding.value@));
    }
}

/// The index of the last binding of `name`, if there is one.
fn position(values: &Vec<Binding>, name: &String) -> (r: Option<usize>)
    ensures
        match r {
            Some(i) => i < values.len() && values[i as int].name@ == name@ && absent_from(
                values@,
                i + 1,
                name@,
            ),
            None => absent_from(values@, 0, name@),
        },
{
    let mut i: usize = values.len();
    while i > 0
        invariant
            i <= values.len(),
            absent_from(values@, i as int, name@),
        decreases i,
    {
        i -= 1;
        if values[i].name == *name {
            return Some(i);
        }
    }
    None
}

impl Default for Environment {
    fn default() -> (r: Self)
        ensures
            r@ == seq![Map::<Seq<char>, ValueView>::empty()],
    {
        Environment::new()
    }
}

impl View for Environment {
    type V = Seq<Scope>;

    open spec fn view(&self) -> Seq<Scope> {
        self.scopes()
    }
}

impl Environment {
    /// The chain as a sequence of scopes, innermost first.
    pub closed spec fn scopes(&self) -> Seq<Scope>
        decreases self,
    {
        match self.enclosing {
            Some(outer) => seq![frame(self.values@)] + (*outer).scopes(),
            None => seq![frame(self.values@)],
        }
    }

    /// A chain always has an innermost scope.
    pub broadcast proof fn lemma_never_empty(&self)
        ensures
            #[trigger] self.scopes().len() > 0,
    {
        reveal_with_fuel(Environment::scopes, 1);
    }

    /// A single empty scope: the global one.
    pub fn new() -> (r: Environment)
        ensures
            r@ == seq![Map::<Seq<char>, ValueView>::empty()],
    {
        Environment { values: Vec::new(), enclosing: None }
    }

    /// A new empty scope inside `enclosing`.
    pub fn with_enclosing(enclosing: Environment) -> (r: Environment)
        ensures
            r@ == seq![Map::<Seq<char>, ValueView>::empty()] + enclosing@,
    {
        Environment { values: Vec::new(), enclosing: Some(Box::new(enclosing)) }
    }

    /// Gives up the innermost scope and returns the chain around it; `None`
    /// for the outermost scope.
    pub fn into_enclosing(self) -> (r: Option<Environment>)
        ensures
            match r {
                Some(outer) => self@.len() > 1 && outer@ == self@.drop_first(),
                None => self@.len() == 1,
            },
    {
        match self.enclosing {
            Some(outer) => {
                assert(self@.drop_first() == (*outer)@);
                Some(*outer)
            },
            None => None,
        }
    }

    /// Opens a new empty scope inside the current one.
    pub fn enter_scope(&mut self)
        ensures
            final(self)@ == seq![Map::<Seq<char>, ValueView>::empty()] + old(self)@,
    {
        let mut enclosing = Environment::new();
        core::mem::swap(self, &mut enclosing);
        *self = Environment::with_enclosing(enclosing);
    }

    /// Drops the innermost scope; the outermost scope stays.
    pub fn exit_scope(&mut self)
        ensures
            final(self)@ == if old(self)@.len() > 1 {
                old(self)@.drop_first()
            } else {
                old(self)@
            },
    {
        let mut inner = Environment::new();
        core::mem::swap(self, &mut inner);
        match inner.enclosing {
            Some(outer) => {
                assert(inner@.drop_first() == (*outer)@);
                *self = *outer;
            },
            None => {
                *self = inner;
            },
        }
    }

    /// The value of the variable that `name` names, from the innermost scope
    /// that holds it.
    pub fn get(&self, name: &Token) -> (r: Option<Value>)
        ensures
            match lookup(self@, name@.lexeme) {
                Some(value) => r is Some && r->0@ == value,
                None => r is None,
            },
        decreases self,
    {
        proof {
            reveal_with_fuel(lookup, 2);
        }
        match position(&self.values, &name.lexeme) {
            Some(i) => {
                proof {
                    lemma_frame_present(self.values@, i as int, name@.lexeme);
                }
                Some(self.values[i].value.clone())
            },
            None => {
                proof {
                    lemma_frame_absent(self.values@, name@.lexeme);
                }
                match &self.enclosing {
                    Some(outer) => {
                        assert(self@.drop_first() == (**outer)@);
                        outer.get(name)
                    },
                    None => {
                        assert(self@.drop_first().len() == 0);
                        None
                    },
                }
            },
        }
    }

    /// Binds `name` to `value` in the innermost scope, whether or not the
    /// name was bound there or further out.
    pub fn define(&mut self, name: String, value: Value)
        ensures
            final(self)@ == defined(old(self)@, name@, value@),
    {
        let ghost before = self.values@;
        match position(&self.values, &name) {
            Some(i) => {
                let binding = Binding { name, value };
                proof {
                    lemma_frame_replace(before, i as int, binding);
                }
                self.values.set(i, binding);
            },
            None => {
                let binding = Binding { name, value };
                self.values.push(binding);
                assert(self.values@.drop_last() == before);
            },
        }
        assert(self@ == defined(old(self)@, name@, value@));
    }

    /// Gives `name` the value `value` in the innermost scope that holds the
    /// name; changes nothing and fails where no scope holds it.
    pub fn assign(&mut self, name: String, value: Value) -> (r: Result<(), EnvError>)
        ensures
            match assigned(old(self)@, name@, value@) {
                Some(scopes) => r is Ok && final(self)@ == scopes,
                None => r == Err::<(), EnvError>(EnvError::AssignUndefinedVariable)
                    && final(self)@ == old(self)@,
            },
        decreases *old(self),
    {
        let ghost before = self.values@;
        match position(&self.values, &name) {
            Some(i) => {
                let binding = Binding { name, value };
                proof {
                    lemma_frame_present(before, i as int, name@);
                    lemma_frame_replace(before, i as int, binding);
                }
                self.values.set(i, binding);
                assert(self@ == old(self)@.update(0, old(self)@[0].insert(name@, value@)));
                Ok(())
            },
            None => {
                proof {
                    lemma_frame_absent(before, name@);
                }
                let ghost first = frame(before);
                assert(old(self)@[0] == first && !first.contains_key(name@));
                match &mut self.enclosing {
                    Some(outer) => {
                        let ghost rest = (**outer)@;
                        assert(old(self)@ =~= seq![first] + rest);
                        assert(old(self)@.drop_first() =~= rest);
                        let r = outer.assign(name, value);
                        assert(final(self)@ =~= seq![first] + (**outer)@);
                        r
                    },
                    None => {
                        proof {
                            reveal_with_fuel(assigned, 2);
                        }
                        assert(old(self)@.drop_first().len() == 0);
                        Err(EnvError::AssignUndefinedVariable)
                    },
                }
            },
        }
    }
}

} // verus!
