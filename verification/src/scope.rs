//! The scope stack: a tree of lexical scopes and the path of those that are
//! open.

use crate::model::{BindingId, ScopeId};
use vstd::prelude::*;

verus! {

/// A lexical block.
pub struct Scope {
    pub id: ScopeId,
    /// The enclosing scope; `None` for the root.
    pub parent_id: Option<ScopeId>,
    /// The bindings created directly inside the scope, in creation order.
    pub introduced: Vec<BindingId>,
}

/// The mathematical value of a [`Scope`].
pub struct ScopeView {
    pub id: ScopeId,
    pub parent_id: Option<ScopeId>,
    pub introduced: Seq<BindingId>,
}

impl View for Scope {
    type V = ScopeView;

    open spec fn view(&self) -> ScopeView {
        ScopeView { id: self.id, parent_id: self.parent_id, introduced: self.introduced@ }
    }
}

/// The mathematical value of a [`ScopeStack`]: every scope ever entered, and
/// the ids of those that are open, outermost first.
pub struct ScopeTree {
    pub scopes: Seq<ScopeView>,
    pub open: Seq<ScopeId>,
}

impl ScopeTree {
    /// The tree that holds the root scope alone.
    pub open spec fn initial() -> ScopeTree {
        ScopeTree {
            scopes: seq![ScopeView { id: 0, parent_id: None, introduced: Seq::empty() }],
            open: seq![0usize],
        }
    }

    /// Whether `scope`, the record at place `i`, has its place as id and,
    /// unless it is the root, an older scope as parent.
    pub open spec fn is_node(i: int, scope: ScopeView) -> bool {
        &&& scope.id == i
        &&& i == 0 ==> scope.parent_id is None
        &&& i > 0 ==> (scope.parent_id matches Some(p) && p < i)
    }

    /// Whether the open scope at place `k` is a child of the one before it.
    pub open spec fn is_link(self, k: int) -> bool {
        &&& self.open[k] < self.scopes.len()
        &&& k > 0 ==> self.scopes[self.open[k] as int].parent_id == Some(self.open[k - 1])
    }

    /// The scopes form a tree through `parent_id`, and the open scopes are the
    /// path from the root to the current scope.
    pub open spec fn wf(self) -> bool {
        &&& self.scopes.len() > 0
        &&& self.open.len() > 0
        &&& self.open[0] == 0
        &&& forall|i: int|
            0 <= i < self.scopes.len() ==> Self::is_node(i, #[trigger] self.scopes[i])
        &&& forall|k: int| 0 <= k < self.open.len() ==> #[trigger] self.is_link(k)
    }

    /// The innermost open scope.
    pub open spec fn current(self) -> ScopeId {
        self.open.last()
    }

    /// Whether the scope `id` is open.
    pub open spec fn is_open(self, id: ScopeId) -> bool {
        self.open.contains(id)
    }

    /// Whether a nested scope is open, so that a scope exit is balanced.
    pub open spec fn can_exit(self) -> bool {
        self.open.len() > 1
    }

    /// The tree after a new child of the current scope was entered.
    pub open spec fn entered(self) -> ScopeTree {
        ScopeTree {
            scopes: self.scopes.push(
                ScopeView {
                    id: self.scopes.len() as usize,
                    parent_id: Some(self.current()),
                    introduced: Seq::empty(),
                },
            ),
            open: self.open.push(self.scopes.len() as usize),
        }
    }

    /// The tree after the current scope was left. Its record stays.
    pub open spec fn exited(self) -> ScopeTree {
        ScopeTree { scopes: self.scopes, open: self.open.drop_last() }
    }

    /// The tree after `binding` was recorded as introduced by the current
    /// scope.
    pub open spec fn with_binding(self, binding: BindingId) -> ScopeTree {
        let cur = self.current() as int;
        let s = self.scopes[cur];
        ScopeTree {
            scopes: self.scopes.update(
                cur,
                ScopeView {
                    id: s.id,
                    parent_id: s.parent_id,
                    introduced: s.introduced.push(binding),
                },
            ),
            open: self.open,
        }
    }

    /// In a well-formed tree an inner open scope has a greater id than an
    /// outer one.
    pub proof fn lemma_open_increasing(self, i: int, j: int)
        requires
            self.wf(),
            0 <= i < j < self.open.len(),
        ensures
            self.open[i] < self.open[j],
        decreases j - i,
    {
        assert(self.is_link(j));
        assert(Self::is_node(self.open[j] as int, self.scopes[self.open[j] as int]));
        if i < j - 1 {
            self.lemma_open_increasing(i, j - 1);
        }
    }

    /// The current scope of a well-formed tree has a record.
    pub proof fn lemma_current_exists(self)
        requires
            self.wf(),
        ensures
            self.current() < self.scopes.len(),
    {
        assert(self.is_link(self.open.len() - 1));
    }

    /// Entering a scope keeps the tree well formed.
    pub proof fn lemma_entered_wf(self)
        requires
            self.wf(),
            self.scopes.len() <= usize::MAX,
        ensures
            self.entered().wf(),
            self.entered().current() == self.scopes.len(),
            self.entered().can_exit(),
    {
        let t = self.entered();
        self.lemma_current_exists();
        assert forall|i: int| 0 <= i < t.scopes.len() implies Self::is_node(
            i,
            #[trigger] t.scopes[i],
        ) by {
            if i < self.scopes.len() {
                assert(Self::is_node(i, self.scopes[i]));
            }
        }
        assert forall|k: int| 0 <= k < t.open.len() implies #[trigger] t.is_link(k) by {
            if k < self.open.len() {
                assert(self.is_link(k));
            }
        }
    }

    /// Leaving a nested scope keeps the tree well formed, and the scope that
    /// was left is no longer open.
    pub proof fn lemma_exited_wf(self)
        requires
            self.wf(),
            self.can_exit(),
        ensures
            self.exited().wf(),
            !self.exited().is_open(self.current()),
    {
        let t = self.exited();
        assert forall|k: int| 0 <= k < t.open.len() implies #[trigger] t.is_link(k) by {
            assert(self.is_link(k));
        }
        if t.open.contains(self.current()) {
            let k = choose|k: int| 0 <= k < t.open.len() && t.open[k] == self.current();
            self.lemma_open_increasing(k, self.open.len() - 1);
        }
    }

    /// Recording a binding keeps the tree well formed.
    pub proof fn lemma_with_binding_wf(self, binding: BindingId)
        requires
            self.wf(),
        ensures
            self.with_binding(binding).wf(),
    {
        let t = self.with_binding(binding);
        self.lemma_current_exists();
        assert forall|i: int| 0 <= i < t.scopes.len() implies Self::is_node(
            i,
            #[trigger] t.scopes[i],
        ) by {
            assert(Self::is_node(i, self.scopes[i]));
        }
        assert forall|k: int| 0 <= k < t.open.len() implies #[trigger] t.is_link(k) by {
            assert(self.is_link(k));
        }
    }
}

/// A LIFO stack of lexical scopes. Scopes that were left keep their record, so
/// that a scope id always names one scope.
pub struct ScopeStack {
    scopes: Vec<Scope>,
    open: Vec<ScopeId>,
}

impl View for ScopeStack {
    type V = ScopeTree;

    closed spec fn view(&self) -> ScopeTree {
        ScopeTree { scopes: self.scopes@.map_values(|s: Scope| s@), open: self.open@ }
    }
}

impl ScopeStack {
    /// A stack on which the root scope alone is open.
    pub fn new() -> (r: ScopeStack)
        ensures
            r@ == ScopeTree::initial(),
            r@.wf(),
    {
        let mut scopes: Vec<Scope> = Vec::new();
        scopes.push(Scope { id: 0, parent_id: None, introduced: Vec::new() });
        let mut open: Vec<ScopeId> = Vec::new();
        open.push(0);
        let r = ScopeStack { scopes, open };
        assert(r@.scopes =~= ScopeTree::initial().scopes);
        assert(r@.open =~= ScopeTree::initial().open);
        r
    }

    /// The stack holds no more scopes than a machine index can count.
    pub proof fn lemma_fits(&self)
        ensures
            self@.scopes.len() <= usize::MAX,
    {
        assert(self.scopes.len() == self.scopes@.len());
    }

    /// The innermost open scope.
    pub fn current(&self) -> (r: ScopeId)
        requires
            self@.wf(),
        ensures
            r == self@.current(),
            r < self@.scopes.len(),
    {
        proof {
            self@.lemma_current_exists();
        }
        self.open[self.open.len() - 1]
    }

    /// The number of open scopes, counting the root.
    pub fn depth(&self) -> (r: usize)
        ensures
            r == self@.open.len(),
    {
        self.open.len()
    }

    /// The number of scopes entered so far, counting the root.
    pub fn len(&self) -> (r: usize)
        ensures
            r == self@.scopes.len(),
    {
        self.scopes.len()
    }

    /// Whether the scope `id` is open.
    pub fn is_open(&self, id: ScopeId) -> (r: bool)
        ensures
            r == self@.is_open(id),
    {
        let mut k: usize = 0;
        while k < self.open.len()
            invariant
                k <= self.open.len(),
                forall|j: int| 0 <= j < k ==> self.open@[j] != id,
            decreases self.open.len() - k,
        {
            if self.open[k] == id {
                return true;
            }
            k += 1;
        }
        false
    }

    /// The bindings that the scope `id` introduced, in creation order.
    pub fn introduced(&self, id: ScopeId) -> (r: &Vec<BindingId>)
        requires
            id < self@.scopes.len(),
        ensures
            r@ == self@.scopes[id as int].introduced,
    {
        &self.scopes[id].introduced
    }

    /// The enclosing scope of the scope `id`.
    pub fn parent(&self, id: ScopeId) -> (r: Option<ScopeId>)
        requires
            id < self@.scopes.len(),
        ensures
            r == self@.scopes[id as int].parent_id,
    {
        self.scopes[id].parent_id
    }

    /// Opens a new scope as a child of the current one and returns its id.
    pub fn enter(&mut self) -> (r: ScopeId)
        requires
            old(self)@.wf(),
        ensures
            final(self)@ == old(self)@.entered(),
            final(self)@.wf(),
            r == final(self)@.current(),
    {
        let parent = self.current();
        let id = self.scopes.len();
        self.scopes.push(Scope { id, parent_id: Some(parent), introduced: Vec::new() });
        self.open.push(id);
        proof {
            assert(self.scopes.len() == self.scopes@.len());
            assert(self.scopes@.len() == old(self).scopes@.len() + 1);
            assert(old(self)@.scopes.len() == old(self).scopes@.len());
            old(self)@.lemma_entered_wf();
            assert(self@.scopes =~= old(self)@.entered().scopes);
            assert(self@.open =~= old(self)@.entered().open);
        }
        id
    }

    /// Closes the current scope and returns its id, unless only the root is
    /// open: the root cannot be left, and the stack then stays as it is.
    pub fn exit(&mut self) -> (r: Option<ScopeId>)
        requires
            old(self)@.wf(),
        ensures
            final(self)@.wf(),
            old(self)@.can_exit() ==> r == Some(old(self)@.current()) && final(self)@ == old(
                self,
            )@.exited(),
            !old(self)@.can_exit() ==> r is None && final(self)@ == old(self)@,
    {
        if self.open.len() <= 1 {
            return None;
        }
        let top = self.open.pop();
        proof {
            old(self)@.lemma_exited_wf();
            assert(self@.open =~= old(self)@.exited().open);
        }
        top
    }

    /// Records `binding` as introduced by the current scope.
    pub fn record(&mut self, binding: BindingId)
        requires
            old(self)@.wf(),
        ensures
            final(self)@ == old(self)@.with_binding(binding),
            final(self)@.wf(),
    {
        let cur = self.current();
        self.scopes[cur].introduced.push(binding);
        proof {
            old(self)@.lemma_with_binding_wf(binding);
            assert(self@.scopes =~= old(self)@.with_binding(binding).scopes);
        }
    }
}

} // verus!
