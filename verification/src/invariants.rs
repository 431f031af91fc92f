//! Proofs that every operation keeps the state consistent.

use crate::borrow::{compatible, conflicts, escapes, has_active};
use crate::model::{
    BindingId, BindingState, BorrowId, BorrowKind, Category, Diagnostic, Name, Operation, ScopeId,
    Subject,
};
use crate::ownership::{
    is_latest_named, is_latest_visible, lemma_resolve_named, lemma_resolve_sound,
    lemma_resolve_visible, with_dropped, with_state,
};
use crate::state::State;
use vstd::prelude::*;

verus! {

/// Whether every element of `s` is greater than the one after it.
pub open spec fn strictly_decreasing(s: Seq<BindingId>) -> bool {
    forall|j: int, k: int| 0 <= j < k < s.len() ==> #[trigger] s[j] > #[trigger] s[k]
}

/// Filtering keeps the order of a sequence, and keeps of it exactly what the
/// predicate accepts.
pub proof fn lemma_filter_decreasing(s: Seq<BindingId>, p: spec_fn(BindingId) -> bool)
    requires
        strictly_decreasing(s),
    ensures
        strictly_decreasing(s.filter(p)),
        forall|k: int|
            0 <= k < s.filter(p).len() ==> s.contains(#[trigger] s.filter(p)[k]) && p(
                s.filter(p)[k],
            ),
        forall|i: int| 0 <= i < s.len() && p(s[i]) ==> s.filter(p).contains(#[trigger] s[i]),
    decreases s.len(),
{
    reveal(Seq::filter);
    if s.len() > 0 {
        let t = s.drop_last();
        let x = s.last();
        let ft = t.filter(p);
        let fs = s.filter(p);
        assert forall|j: int, k: int| 0 <= j < k < t.len() implies #[trigger] t[j]
            > #[trigger] t[k] by {
            assert(s[j] > s[k]);
        }
        lemma_filter_decreasing(t, p);
        assert forall|k: int| 0 <= k < fs.len() implies s.contains(#[trigger] fs[k]) && p(
            fs[k],
        ) by {
            if k < ft.len() {
                assert(fs[k] == ft[k]);
                let i = choose|i: int| 0 <= i < t.len() && t[i] == ft[k];
                assert(s[i] == fs[k]);
            } else {
                assert(fs[k] == x);
                assert(s[s.len() - 1] == x);
            }
        }
        assert forall|j: int, k: int| 0 <= j < k < fs.len() implies #[trigger] fs[j]
            > #[trigger] fs[k] by {
            assert(fs[j] == ft[j]);
            if k < ft.len() {
                assert(fs[k] == ft[k]);
            } else {
                let i = choose|i: int| 0 <= i < t.len() && t[i] == ft[j];
                assert(s[i] > s[s.len() - 1]);
            }
        }
        assert forall|i: int| 0 <= i < s.len() && p(s[i]) implies fs.contains(#[trigger] s[i]) by {
            if i < t.len() {
                assert(t[i] == s[i]);
                let k = choose|k: int| 0 <= k < ft.len() && ft[k] == t[i];
                assert(fs[k] == s[i]);
            } else {
                assert(fs[fs.len() - 1] == s[i]);
            }
        }
    }
}

impl State {
    /// Leaving a scope destroys exactly the bindings that the scope
    /// introduced and that are still owned, each once, the youngest first.
    pub proof fn lemma_drop_order(self)
        requires
            self.wf(),
        ensures
            strictly_decreasing(self.drop_order()),
            forall|k: int|
                0 <= k < self.drop_order().len() ==> self.listed_by(
                    self.current() as int,
                    #[trigger] self.drop_order()[k],
                ) && self.bindings[self.drop_order()[k] as int].state is Owned,
            forall|b: int|
                0 <= b < self.bindings.len() && (#[trigger] self.bindings[b]).scope_id
                    == self.current() && self.bindings[b].state is Owned
                    ==> self.drop_order().contains(b as usize),
    {
        let cur = self.current() as int;
        self.scopes.lemma_current_exists();
        let intro = self.scopes.scopes[cur].introduced;
        let rev = intro.reverse();
        let d = self.drop_order();
        assert forall|j: int, k: int| 0 <= j < k < rev.len() implies #[trigger] rev[j]
            > #[trigger] rev[k] by {
            assert(intro[intro.len() - 1 - k] < intro[intro.len() - 1 - j]);
        }
        lemma_filter_decreasing(rev, self.still_owned());
        assert forall|k: int| 0 <= k < d.len() implies self.listed_by(cur, #[trigger] d[k])
            && self.bindings[d[k] as int].state is Owned by {
            assert(rev.contains(d[k]));
            let i = choose|i: int| 0 <= i < rev.len() && rev[i] == d[k];
            assert(intro[intro.len() - 1 - i] == d[k]);
            assert((self.still_owned())(d[k]));
        }
        assert forall|b: int|
            0 <= b < self.bindings.len() && (#[trigger] self.bindings[b]).scope_id == self.current()
                && self.bindings[b].state is Owned implies d.contains(b as usize) by {
            assert(intro.contains(b as usize));
            let i = choose|i: int| 0 <= i < intro.len() && intro[i] == b as usize;
            assert(rev[intro.len() - 1 - i] == b as usize);
            assert((self.still_owned())(rev[intro.len() - 1 - i]));
        }
    }

    /// Dropping what leaving the current scope destroys is dropping the
    /// bindings of that scope that are still owned.
    pub proof fn lemma_dropped_in_scope(self)
        requires
            self.wf(),
        ensures
            with_dropped(self.bindings, self.drop_order()) == self.dropped_in(self.current()),
    {
        self.lemma_drop_order();
        let d = self.drop_order();
        assert forall|i: int| 0 <= i < self.bindings.len() implies with_dropped(self.bindings, d)[i]
            == self.dropped_in(self.current())[i] by {
            if d.contains(i as usize) {
                let k = choose|k: int| 0 <= k < d.len() && d[k] == i as usize;
                assert(self.listed_by(self.current() as int, d[k]));
            }
        }
        assert(with_dropped(self.bindings, d) =~= self.dropped_in(self.current()));
    }

    /// A binding that an access finds exists, has the name and is owned.
    pub proof fn lemma_access_sound(self, name: Name)
        requires
            self.fits(),
        ensures
            self.access(name) matches Ok(i) ==> {
                &&& i < self.bindings.len()
                &&& self.bindings[i as int].name == name
                &&& self.bindings[i as int].state is Owned
                &&& self.lookup(name) == Some(i)
            },
    {
        lemma_resolve_sound(self.bindings, self.scopes.open, name);
    }

    /// The youngest binding of a name, while its scope is open, is what the
    /// name refers to. Here `k` is the place of that scope among the open
    /// ones.
    pub proof fn lemma_lookup_youngest(self, name: Name, i: int, k: int)
        requires
            self.fits(),
            0 <= i < self.bindings.len(),
            self.bindings[i].name == name,
            0 <= k < self.scopes.open.len(),
            self.scopes.open[k] == self.bindings[i].scope_id,
            forall|j: int|
                i < j < self.bindings.len() ==> (#[trigger] self.bindings[j]).name != name,
        ensures
            self.lookup(name) == Some(i as usize),
    {
        assert(is_latest_visible(self.bindings, self.scopes.open, name, i));
        lemma_resolve_visible(self.bindings, self.scopes.open, name, i);
    }

    /// The youngest binding of a name none of whose bindings is in scope is
    /// what the name refers to.
    pub proof fn lemma_lookup_out_of_scope(self, name: Name, i: int)
        requires
            self.fits(),
            0 <= i < self.bindings.len(),
            self.bindings[i].name == name,
            forall|j: int|
                i < j < self.bindings.len() ==> (#[trigger] self.bindings[j]).name != name,
            forall|j: int|
                0 <= j < self.bindings.len() && (#[trigger] self.bindings[j]).name == name
                    ==> !self.scopes.is_open(self.bindings[j].scope_id),
        ensures
            self.lookup(name) == Some(i as usize),
    {
        assert(is_latest_named(self.bindings, name, i));
        lemma_resolve_named(self.bindings, self.scopes.open, name, i);
    }

    /// An operation adds at most one record to each table.
    pub proof fn lemma_step_grows(self, op: Operation)
        requires
            self.wf(),
        ensures
            self.bindings.len() <= self.step(op).bindings.len() <= self.bindings.len() + 1,
            self.borrows.len() <= self.step(op).borrows.len() <= self.borrows.len() + 1,
            self.scopes.scopes.len() <= self.step(op).scopes.scopes.len(),
            self.step(op).scopes.scopes.len() <= self.scopes.scopes.len() + 1,
    {
        self.scopes.lemma_current_exists();
    }

    /// Binding keeps the state consistent.
    pub proof fn lemma_bind_wf(self, name: Name, category: Category)
        requires
            self.wf(),
            self.bindings.len() <= usize::MAX,
        ensures
            self.bind(name, category).wf(),
    {
        let t = self.bind(name, category);
        let cur = self.current() as int;
        let id = self.bindings.len() as usize;
        self.scopes.lemma_with_binding_wf(id);
        self.scopes.lemma_current_exists();
        assert forall|b: int| 0 <= b < t.bindings.len() implies t.binding_placed(
            b,
            #[trigger] t.bindings[b],
        ) by {
            if b < self.bindings.len() {
                let s = self.bindings[b].scope_id as int;
                let k = choose|k: int|
                    0 <= k < self.scopes.scopes[s].introduced.len()
                        && self.scopes.scopes[s].introduced[k] == b as usize;
                assert(t.scopes.scopes[s].introduced[k] == b as usize);
            } else {
                let intro = t.scopes.scopes[cur].introduced;
                assert(intro[intro.len() - 1] == id);
            }
        }
        assert forall|s: int, k: int|
            0 <= s < t.scopes.scopes.len() && 0 <= k
                < t.scopes.scopes[s].introduced.len() implies t.listed_by(
            s,
            #[trigger] t.scopes.scopes[s].introduced[k],
        ) by {
            if !(s == cur && k == self.scopes.scopes[s].introduced.len()) {
                assert(t.scopes.scopes[s].introduced[k] == self.scopes.scopes[s].introduced[k]);
            }
        }
        assert forall|s: int, j: int, k: int|
            0 <= s < t.scopes.scopes.len() && 0 <= j < k
                < t.scopes.scopes[s].introduced.len() implies (
        #[trigger] t.scopes.scopes[s].introduced[j])
            < (#[trigger] t.scopes.scopes[s].introduced[k]) by {
            assert(t.scopes.scopes[s].introduced[j] == self.scopes.scopes[s].introduced[j]);
            if !(s == cur && k == self.scopes.scopes[s].introduced.len()) {
                assert(t.scopes.scopes[s].introduced[k] == self.scopes.scopes[s].introduced[k]);
            }
        }
    }

    /// Replacing the state of a binding keeps the state consistent.
    pub proof fn lemma_with_state_wf(self, i: int, state: BindingState)
        requires
            self.wf(),
            0 <= i < self.bindings.len(),
        ensures
            (State { bindings: with_state(self.bindings, i, state), ..self }).wf(),
    {
        let t = State { bindings: with_state(self.bindings, i, state), ..self };
        assert forall|b: int| 0 <= b < t.bindings.len() implies t.binding_placed(
            b,
            #[trigger] t.bindings[b],
        ) by {
            assert(t.bindings[b].scope_id == self.bindings[b].scope_id);
        }
    }

    /// Moving keeps the state consistent.
    pub proof fn lemma_move_wf(self, src: Name, dst: Name)
        requires
            self.wf(),
            self.move_binding(src, dst).fits(),
        ensures
            self.move_binding(src, dst).wf(),
    {
        self.lemma_access_sound(src);
        match self.access(src) {
            Err(kind) => {},
            Ok(i) => {
                if !has_active(self.borrows, i) {
                    let bound = self.bind(dst, self.bindings[i as int].category);
                    self.lemma_bind_wf(dst, self.bindings[i as int].category);
                    bound.lemma_with_state_wf(i as int, BindingState::Moved);
                }
            },
        }
    }

    /// Borrowing keeps the state consistent.
    pub proof fn lemma_borrow_wf(self, name: Name, kind: BorrowKind)
        requires
            self.wf(),
            self.borrow(name, kind).fits(),
        ensures
            self.borrow(name, kind).wf(),
    {
        self.lemma_access_sound(name);
        self.scopes.lemma_current_exists();
    }

    /// Entering a scope keeps the state consistent.
    pub proof fn lemma_enter_wf(self)
        requires
            self.wf(),
            self.scopes.scopes.len() <= usize::MAX,
        ensures
            self.enter_scope().wf(),
    {
        let t = self.enter_scope();
        self.scopes.lemma_entered_wf();
        assert forall|b: int| 0 <= b < t.bindings.len() implies t.binding_placed(
            b,
            #[trigger] t.bindings[b],
        ) by {
            assert(self.bindings[b].scope_id < self.scopes.scopes.len());
        }
        assert forall|s: int, k: int|
            0 <= s < t.scopes.scopes.len() && 0 <= k
                < t.scopes.scopes[s].introduced.len() implies t.listed_by(
            s,
            #[trigger] t.scopes.scopes[s].introduced[k],
        ) by {
            assert(t.scopes.scopes[s].introduced[k] == self.scopes.scopes[s].introduced[k]);
        }
        assert forall|s: int, j: int, k: int|
            0 <= s < t.scopes.scopes.len() && 0 <= j < k
                < t.scopes.scopes[s].introduced.len() implies (
        #[trigger] t.scopes.scopes[s].introduced[j])
            < (#[trigger] t.scopes.scopes[s].introduced[k]) by {
            assert(t.scopes.scopes[s].introduced[j] == self.scopes.scopes[s].introduced[j]);
            assert(t.scopes.scopes[s].introduced[k] == self.scopes.scopes[s].introduced[k]);
        }
    }

    /// Leaving a scope keeps the state consistent.
    pub proof fn lemma_exit_wf(self)
        requires
            self.wf(),
        ensures
            self.exit_scope().wf(),
    {
        let t = self.exit_scope();
        if self.scopes.can_exit() {
            self.scopes.lemma_exited_wf();
            assert forall|b: int| 0 <= b < t.bindings.len() implies t.binding_placed(
                b,
                #[trigger] t.bindings[b],
            ) by {
                assert(t.bindings[b].scope_id == self.bindings[b].scope_id);
            }
            assert forall|s: int, k: int|
                0 <= s < t.scopes.scopes.len() && 0 <= k
                    < t.scopes.scopes[s].introduced.len() implies t.listed_by(
                s,
                #[trigger] t.scopes.scopes[s].introduced[k],
            ) by {
                let b = self.scopes.scopes[s].introduced[k] as int;
                assert(t.bindings[b].scope_id == self.bindings[b].scope_id);
            }
            assert forall|r: int| 0 <= r < t.borrows.len() implies t.borrow_placed(
                #[trigger] t.borrows[r],
            ) by {
                assert(t.borrows[r].target == self.borrows[r].target);
            }
        }
    }

    /// The current scope has the greatest id among the open scopes, and
    /// leaving it leaves the others open.
    pub proof fn lemma_current_is_innermost(self, scope: ScopeId)
        requires
            self.wf(),
            self.scopes.is_open(scope),
        ensures
            scope <= self.current(),
            scope != self.current() ==> self.scopes.can_exit() && self.scopes.exited().is_open(
                scope,
            ),
    {
        let k = choose|k: int| 0 <= k < self.scopes.open.len() && self.scopes.open[k] == scope;
        if k < self.scopes.open.len() - 1 {
            self.scopes.lemma_open_increasing(k, self.scopes.open.len() - 1);
            assert(self.scopes.exited().open[k] == scope);
        }
    }

    /// Binding keeps what holds of every reachable state.
    pub proof fn lemma_bind_inv(self, name: Name, category: Category)
        requires
            self.inv(),
            self.bindings.len() <= usize::MAX,
        ensures
            self.bind(name, category).inv(),
    {
        let t = self.bind(name, category);
        self.lemma_bind_wf(name, category);
        assert(self.scopes.open[self.scopes.open.len() - 1] == self.current());
        assert forall|b: int| 0 <= b < t.bindings.len() implies t.state_follows_scope(
            #[trigger] t.bindings[b],
        ) by {
            if b < self.bindings.len() {
                assert(t.bindings[b] == self.bindings[b]);
            }
        }
        assert forall|r: int| 0 <= r < t.borrows.len() implies t.borrow_valid(
            #[trigger] t.borrows[r],
        ) by {
            assert(self.borrow_placed(self.borrows[r]));
        }
    }

    /// Moving keeps what holds of every reachable state.
    pub proof fn lemma_move_inv(self, src: Name, dst: Name)
        requires
            self.inv(),
            self.move_binding(src, dst).fits(),
        ensures
            self.move_binding(src, dst).inv(),
    {
        self.lemma_access_sound(src);
        self.lemma_move_wf(src, dst);
        match self.access(src) {
            Err(kind) => {},
            Ok(i) => {
                let category = self.bindings[i as int].category;
                if !has_active(self.borrows, i) && category is Movable {
                    let bound = self.bind(dst, category);
                    let t = self.move_binding(src, dst);
                    self.lemma_bind_inv(dst, category);
                    assert forall|b: int| 0 <= b < t.bindings.len() implies t.state_follows_scope(
                        #[trigger] t.bindings[b],
                    ) by {
                        if b != i {
                            assert(t.bindings[b] == bound.bindings[b]);
                        }
                    }
                    assert forall|b: int| 0 <= b < t.bindings.len() implies (
                    #[trigger] t.bindings[b]).honours_copy() by {
                        if b != i {
                            assert(t.bindings[b] == bound.bindings[b]);
                        }
                    }
                    assert forall|r: int| 0 <= r < t.borrows.len() implies t.borrow_valid(
                        #[trigger] t.borrows[r],
                    ) by {
                        if t.borrows[r].active {
                            assert(self.borrows[r].target != i);
                            assert(bound.borrow_valid(bound.borrows[r]));
                        }
                    }
                } else if !has_active(self.borrows, i) {
                    self.lemma_bind_inv(dst, category);
                }
            },
        }
    }

    /// Borrowing keeps what holds of every reachable state.
    pub proof fn lemma_borrow_inv(self, name: Name, kind: BorrowKind)
        requires
            self.inv(),
            self.borrow(name, kind).fits(),
        ensures
            self.borrow(name, kind).inv(),
    {
        let t = self.borrow(name, kind);
        self.lemma_access_sound(name);
        self.lemma_borrow_wf(name, kind);
        match self.access(name) {
            Err(violation) => {},
            Ok(i) => {
                if !conflicts(self.borrows, i, kind) {
                    let n = self.borrows.len() as int;
                    assert(self.scopes.open[self.scopes.open.len() - 1] == self.current());
                    self.lemma_current_is_innermost(self.bindings[i as int].scope_id);
                    assert forall|a: int, b: int|
                        0 <= a < t.borrows.len() && 0 <= b < t.borrows.len() && a
                            != b implies compatible(
                        #[trigger] t.borrows[a],
                        #[trigger] t.borrows[b],
                    ) by {
                        if a < n && b < n {
                            assert(compatible(self.borrows[a], self.borrows[b]));
                        } else if a < n {
                            assert(self.borrows[a] == t.borrows[a]);
                        } else {
                            assert(self.borrows[b] == t.borrows[b]);
                        }
                    }
                    assert forall|r: int| 0 <= r < t.borrows.len() implies t.borrow_valid(
                        #[trigger] t.borrows[r],
                    ) by {
                        if r < n {
                            assert(self.borrow_valid(self.borrows[r]));
                        }
                    }
                }
            },
        }
    }

    /// Ending a borrow keeps what holds of every reachable state.
    pub proof fn lemma_end_borrow_inv(self, id: BorrowId)
        requires
            self.inv(),
        ensures
            self.end_borrow(id).inv(),
    {
        let t = self.end_borrow(id);
        if id < self.borrows.len() {
            assert forall|a: int, b: int|
                0 <= a < t.borrows.len() && 0 <= b < t.borrows.len() && a != b implies compatible(
                #[trigger] t.borrows[a],
                #[trigger] t.borrows[b],
            ) by {
                assert(compatible(self.borrows[a], self.borrows[b]));
            }
            assert forall|r: int| 0 <= r < t.borrows.len() implies t.borrow_valid(
                #[trigger] t.borrows[r],
            ) by {
                assert(self.borrow_valid(self.borrows[r]));
            }
        }
    }

    /// Marking a borrow as returned keeps what holds of every reachable state.
    pub proof fn lemma_return_borrow_inv(self, id: BorrowId)
        requires
            self.inv(),
        ensures
            self.return_borrow(id).inv(),
    {
        let t = self.return_borrow(id);
        if id < self.borrows.len() && self.borrows[id as int].active {
            assert forall|a: int, b: int|
                0 <= a < t.borrows.len() && 0 <= b < t.borrows.len() && a != b implies compatible(
                #[trigger] t.borrows[a],
                #[trigger] t.borrows[b],
            ) by {
                assert(compatible(self.borrows[a], self.borrows[b]));
            }
            assert forall|r: int| 0 <= r < t.borrows.len() implies t.borrow_valid(
                #[trigger] t.borrows[r],
            ) by {
                assert(self.borrow_valid(self.borrows[r]));
            }
        }
    }

    /// Entering a scope keeps what holds of every reachable state.
    pub proof fn lemma_enter_inv(self)
        requires
            self.inv(),
            self.scopes.scopes.len() <= usize::MAX,
        ensures
            self.enter_scope().inv(),
    {
        let t = self.enter_scope();
        self.lemma_enter_wf();
        let fresh_id = self.scopes.scopes.len() as usize;
        assert forall|s: ScopeId| self.scopes.is_open(s) implies t.scopes.is_open(s) by {
            let k = choose|k: int| 0 <= k < self.scopes.open.len() && self.scopes.open[k] == s;
            assert(t.scopes.open[k] == s);
        }
        assert forall|s: ScopeId| t.scopes.is_open(s) && s != fresh_id implies self.scopes.is_open(
            s,
        ) by {
            let k = choose|k: int| 0 <= k < t.scopes.open.len() && t.scopes.open[k] == s;
            assert(self.scopes.open[k] == s);
        }
        assert forall|b: int| 0 <= b < t.bindings.len() implies t.state_follows_scope(
            #[trigger] t.bindings[b],
        ) by {
            assert(self.binding_placed(b, self.bindings[b]));
        }
        assert forall|r: int| 0 <= r < t.borrows.len() implies t.borrow_valid(
            #[trigger] t.borrows[r],
        ) by {
            assert(self.borrow_valid(self.borrows[r]));
        }
    }

    /// Leaving a scope keeps what holds of every reachable state.
    pub proof fn lemma_exit_inv(self)
        requires
            self.inv(),
        ensures
            self.exit_scope().inv(),
    {
        let t = self.exit_scope();
        self.lemma_exit_wf();
        if self.scopes.can_exit() {
            let cur = self.current();
            self.scopes.lemma_exited_wf();
            assert forall|s: ScopeId| t.scopes.is_open(s) implies self.scopes.is_open(s) by {
                let k = choose|k: int| 0 <= k < t.scopes.open.len() && t.scopes.open[k] == s;
                assert(self.scopes.open[k] == s);
            }
            assert forall|a: int, b: int|
                0 <= a < t.borrows.len() && 0 <= b < t.borrows.len() && a != b implies compatible(
                #[trigger] t.borrows[a],
                #[trigger] t.borrows[b],
            ) by {
                assert(compatible(self.borrows[a], self.borrows[b]));
            }
            assert forall|b: int| 0 <= b < t.bindings.len() implies t.state_follows_scope(
                #[trigger] t.bindings[b],
            ) by {
                let before = self.bindings[b];
                if before.state is Owned && before.scope_id != cur {
                    self.lemma_current_is_innermost(before.scope_id);
                }
            }
            assert forall|b: int| 0 <= b < t.bindings.len() implies (
            #[trigger] t.bindings[b]).honours_copy() by {
                assert(self.bindings[b].honours_copy());
            }
            assert forall|r: int| 0 <= r < t.borrows.len() implies t.borrow_valid(
                #[trigger] t.borrows[r],
            ) by {
                if t.borrows[r].active {
                    let before = self.borrows[r];
                    assert(self.borrow_valid(before));
                    self.lemma_current_is_innermost(before.owning_scope_id);
                    assert(self.bindings[before.target as int].scope_id != cur);
                }
            }
        }
    }

    /// Leaving a scope none of whose active borrows was returned reports
    /// nothing.
    pub proof fn lemma_exit_reports_nothing(self)
        requires
            forall|r: int|
                0 <= r < self.borrows.len() ==> !((#[trigger] self.borrows[r]).active
                    && self.borrows[r].returned && self.borrows[r].owning_scope_id
                    == self.current()),
        ensures
            self.exit_reports() == Seq::<Diagnostic>::empty(),
    {
        let d = self.drop_order();
        let dangling = self.is_dangling();
        assert forall|k: int| 0 <= k < d.len() implies (|b: BindingId| !dangling(b))(
            #[trigger] d[k],
        ) by {
            if escapes(self.borrows, d[k], self.current()) {
                let r = choose|r: int|
                    0 <= r < self.borrows.len() && (#[trigger] self.borrows[r]).active
                        && self.borrows[r].returned && self.borrows[r].target == d[k]
                        && self.borrows[r].owning_scope_id == self.current();
                assert(false);
            }
        }
        d.lemma_all_neg_filter_empty(dangling);
        assert(self.exit_reports() =~= Seq::<Diagnostic>::empty());
    }

    /// Every operation keeps what holds of every reachable state, as long as
    /// the ids that it issues are machine indices.
    pub proof fn lemma_step_inv(self, op: Operation)
        requires
            self.inv(),
            self.step(op).fits(),
        ensures
            self.step(op).inv(),
    {
        if !self.halted {
            match op {
                Operation::Bind { name, category } => self.lemma_bind_inv(name, category),
                Operation::Move { src, dst } => self.lemma_move_inv(src, dst),
                Operation::Borrow { name, kind } => self.lemma_borrow_inv(name, kind),
                Operation::EndBorrow { borrow } => self.lemma_end_borrow_inv(borrow),
                Operation::Use { subject: Subject::Binding(name) } => {},
                Operation::Use { subject: Subject::Borrow(borrow) } => {},
                Operation::EnterScope => self.lemma_enter_inv(),
                Operation::ExitScope => self.lemma_exit_inv(),
                Operation::ReturnBorrow { borrow } => self.lemma_return_borrow_inv(borrow),
            }
        }
    }
}

} // verus!
