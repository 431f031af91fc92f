//! The ownership table: every binding record, in creation order, and the rule
//! by which a name finds its binding.

use crate::model::{Binding, BindingId, BindingState, Category, Name, ScopeId};
use crate::scope::ScopeStack;
use vstd::prelude::*;

verus! {

/// Whether `b` is a binding of `name` whose scope is among `open`.
pub open spec fn visible(b: Binding, open: Seq<ScopeId>, name: Name) -> bool {
    b.name == name && open.contains(b.scope_id)
}

/// Whether `i` is the youngest binding of `name` whose scope is open.
pub open spec fn is_latest_visible(
    bindings: Seq<Binding>,
    open: Seq<ScopeId>,
    name: Name,
    i: int,
) -> bool {
    &&& 0 <= i < bindings.len()
    &&& visible(bindings[i], open, name)
    &&& forall|j: int| i < j < bindings.len() ==> !visible(#[trigger] bindings[j], open, name)
}

/// Whether `i` is the youngest binding of `name`, in scope or not.
pub open spec fn is_latest_named(bindings: Seq<Binding>, name: Name, i: int) -> bool {
    &&& 0 <= i < bindings.len()
    &&& bindings[i].name == name
    &&& forall|j: int| i < j < bindings.len() ==> (#[trigger] bindings[j]).name != name
}

/// The binding that `name` refers to.
///
/// A name refers to its youngest binding whose scope is open: an inner
/// binding shadows an outer one for as long as the inner scope lasts. A name
/// none of whose bindings is in scope any more refers to the youngest of them,
/// so that touching it reports what became of the value. Only a name that was
/// never bound refers to nothing.
pub open spec fn resolve(bindings: Seq<Binding>, open: Seq<ScopeId>, name: Name) -> Option<
    BindingId,
> {
    if exists|i: int| is_latest_visible(bindings, open, name, i) {
        Some((choose|i: int| is_latest_visible(bindings, open, name, i)) as usize)
    } else if exists|i: int| is_latest_named(bindings, name, i) {
        Some((choose|i: int| is_latest_named(bindings, name, i)) as usize)
    } else {
        None
    }
}

/// `bindings` with the state of the binding `id` replaced.
pub open spec fn with_state(bindings: Seq<Binding>, id: int, state: BindingState) -> Seq<Binding> {
    bindings.update(
        id,
        Binding {
            name: bindings[id].name,
            category: bindings[id].category,
            state,
            scope_id: bindings[id].scope_id,
        },
    )
}

/// The binding `binding`, dropped.
pub open spec fn dropped(binding: Binding) -> Binding {
    Binding {
        name: binding.name,
        category: binding.category,
        state: BindingState::Dropped,
        scope_id: binding.scope_id,
    }
}

/// `bindings` after each binding whose id is among `victims` was dropped.
pub open spec fn with_dropped(bindings: Seq<Binding>, victims: Seq<BindingId>) -> Seq<Binding> {
    Seq::new(
        bindings.len(),
        |i: int|
            if victims.contains(i as usize) {
                dropped(bindings[i])
            } else {
                bindings[i]
            },
    )
}

/// A name with a visible binding resolves to the youngest of them.
pub proof fn lemma_resolve_visible(
    bindings: Seq<Binding>,
    open: Seq<ScopeId>,
    name: Name,
    i: int,
)
    requires
        bindings.len() <= usize::MAX + 1,
        is_latest_visible(bindings, open, name, i),
    ensures
        resolve(bindings, open, name) == Some(i as usize),
{
    let c = choose|c: int| is_latest_visible(bindings, open, name, c);
    if c < i {
        assert(!visible(bindings[i], open, name));
    }
    if i < c {
        assert(!visible(bindings[c], open, name));
    }
}

/// A name without a visible binding resolves to the youngest binding that
/// ever had the name.
pub proof fn lemma_resolve_named(bindings: Seq<Binding>, open: Seq<ScopeId>, name: Name, i: int)
    requires
        bindings.len() <= usize::MAX + 1,
        is_latest_named(bindings, name, i),
        forall|j: int| 0 <= j < bindings.len() ==> !visible(#[trigger] bindings[j], open, name),
    ensures
        resolve(bindings, open, name) == Some(i as usize),
{
    let c = choose|c: int| is_latest_named(bindings, name, c);
    if c < i {
        assert(bindings[i].name != name);
    }
    if i < c {
        assert(bindings[c].name != name);
    }
}

/// A name that no binding has resolves to nothing.
pub proof fn lemma_resolve_unbound(bindings: Seq<Binding>, open: Seq<ScopeId>, name: Name)
    requires
        forall|j: int| 0 <= j < bindings.len() ==> (#[trigger] bindings[j]).name != name,
    ensures
        resolve(bindings, open, name) is None,
{
}

/// What resolution finds is a binding of that name, and nothing is found only
/// where the name was never bound.
pub proof fn lemma_resolve_sound(bindings: Seq<Binding>, open: Seq<ScopeId>, name: Name)
    requires
        bindings.len() <= usize::MAX + 1,
    ensures
        match resolve(bindings, open, name) {
            Some(i) => {
                &&& i < bindings.len()
                &&& bindings[i as int].name == name
                &&& open.contains(bindings[i as int].scope_id) || forall|j: int|
                    0 <= j < bindings.len() ==> !visible(#[trigger] bindings[j], open, name)
            },
            None => forall|j: int|
                0 <= j < bindings.len() ==> (#[trigger] bindings[j]).name != name,
        },
{
    if exists|i: int| is_latest_visible(bindings, open, name, i) {
    } else {
        assert forall|j: int| 0 <= j < bindings.len() implies !visible(
            #[trigger] bindings[j],
            open,
            name,
        ) by {
            if visible(bindings[j], open, name) {
                lemma_latest_visible_exists(bindings, open, name, j);
            }
        }
        if exists|i: int| is_latest_named(bindings, name, i) {
        } else {
            assert forall|j: int| 0 <= j < bindings.len() implies (#[trigger] bindings[j]).name
                != name by {
                if bindings[j].name == name {
                    lemma_latest_named_exists(bindings, name, j);
                }
            }
        }
    }
}

/// Where some binding at or after `from` is visible, a youngest visible one
/// exists.
pub proof fn lemma_latest_visible_exists(
    bindings: Seq<Binding>,
    open: Seq<ScopeId>,
    name: Name,
    from: int,
)
    requires
        0 <= from < bindings.len(),
        visible(bindings[from], open, name),
    ensures
        exists|i: int| is_latest_visible(bindings, open, name, i),
    decreases bindings.len() - from,
{
    if exists|j: int| from < j < bindings.len() && visible(#[trigger] bindings[j], open, name) {
        let j = choose|j: int|
            from < j < bindings.len() && visible(#[trigger] bindings[j], open, name);
        lemma_latest_visible_exists(bindings, open, name, j);
    } else {
        assert(is_latest_visible(bindings, open, name, from));
    }
}

/// Where some binding at or after `from` has the name, a youngest one exists.
pub proof fn lemma_latest_named_exists(bindings: Seq<Binding>, name: Name, from: int)
    requires
        0 <= from < bindings.len(),
        bindings[from].name == name,
    ensures
        exists|i: int| is_latest_named(bindings, name, i),
    decreases bindings.len() - from,
{
    if exists|j: int| from < j < bindings.len() && (#[trigger] bindings[j]).name == name {
        let j = choose|j: int| from < j < bindings.len() && (#[trigger] bindings[j]).name == name;
        lemma_latest_named_exists(bindings, name, j);
    } else {
        assert(is_latest_named(bindings, name, from));
    }
}

/// Maps each binding to its ownership state and category.
pub struct OwnershipTable {
    bindings: Vec<Binding>,
}

impl View for OwnershipTable {
    type V = Seq<Binding>;

    closed spec fn view(&self) -> Seq<Binding> {
        self.bindings@
    }
}

impl OwnershipTable {
    /// A table without bindings.
    pub fn new() -> (r: OwnershipTable)
        ensures
            r@ == Seq::<Binding>::empty(),
    {
        OwnershipTable { bindings: Vec::new() }
    }

    /// The table holds no more records than a machine index can count.
    pub proof fn lemma_fits(&self)
        ensures
            self@.len() <= usize::MAX,
    {
        assert(self.bindings.len() == self.bindings@.len());
    }

    /// The number of binding records.
    pub fn len(&self) -> (r: usize)
        ensures
            r == self@.len(),
    {
        self.bindings.len()
    }

    /// The record of the binding `id`.
    pub fn get(&self, id: BindingId) -> (r: Binding)
        requires
            id < self@.len(),
        ensures
            r == self@[id as int],
    {
        self.bindings[id]
    }

    /// Adds an owned binding of `name`, introduced by `scope`, and returns its
    /// id.
    pub fn insert(&mut self, name: Name, category: Category, scope: ScopeId) -> (r: BindingId)
        ensures
            r == old(self)@.len(),
            final(self)@ == old(self)@.push(
                Binding { name, category, state: BindingState::Owned, scope_id: scope },
            ),
    {
        let id = self.bindings.len();
        self.bindings.push(Binding { name, category, state: BindingState::Owned, scope_id: scope });
        id
    }

    /// Replaces the state of the binding `id`. A state only moves forward: the
    /// binding must still be owned, or keep the state it has.
    pub fn set_state(&mut self, id: BindingId, state: BindingState)
        requires
            id < old(self)@.len(),
            old(self)@[id as int].state.may_become(state),
        ensures
            final(self)@ == with_state(old(self)@, id as int, state),
    {
        let b = self.bindings[id];
        self.bindings.set(
            id,
            Binding { name: b.name, category: b.category, state, scope_id: b.scope_id },
        );
    }

    /// Finds the binding that `name` refers to, by the rule of [`resolve`].
    pub fn resolve(&self, name: Name, scopes: &ScopeStack) -> (r: Option<BindingId>)
        ensures
            r == resolve(self@, scopes@.open, name),
            r matches Some(i) ==> i < self@.len() && self@[i as int].name == name,
    {
        let n = self.bindings.len();
        let mut fallback: Option<BindingId> = None;
        let mut i: usize = n;
        while i > 0
            invariant
                i <= n,
                n == self.bindings@.len(),
                forall|j: int|
                    i <= j < n ==> !visible(#[trigger] self.bindings@[j], scopes@.open, name),
                match fallback {
                    Some(f) => is_latest_named(self.bindings@, name, f as int),
                    None => forall|j: int|
                        i <= j < n ==> (#[trigger] self.bindings@[j]).name != name,
                },
            decreases i,
        {
            i -= 1;
            let b = self.bindings[i];
            if b.name == name {
                if scopes.is_open(b.scope_id) {
                    proof {
                        lemma_resolve_visible(self@, scopes@.open, name, i as int);
                    }
                    return Some(i);
                }
                if fallback.is_none() {
                    fallback = Some(i);
                }
            }
        }
        proof {
            match fallback {
                Some(f) => lemma_resolve_named(self@, scopes@.open, name, f as int),
                None => lemma_resolve_unbound(self@, scopes@.open, name),
            }
        }
        fallback
    }
}

} // verus!
