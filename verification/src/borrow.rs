//! The borrow tracker: every borrow record, in order of registration, and the
//! aliasing discipline.

use crate::model::{BindingId, Borrow, BorrowId, BorrowKind, ScopeId};
use vstd::prelude::*;

verus! {

/// Whether some active borrow targets `target`.
pub open spec fn has_active(borrows: Seq<Borrow>, target: BindingId) -> bool {
    exists|i: int|
        0 <= i < borrows.len() && (#[trigger] borrows[i]).active && borrows[i].target == target
}

/// Whether two borrows of one target may not be active together: they may
/// not as soon as one of them is exclusive.
pub open spec fn excludes(a: BorrowKind, b: BorrowKind) -> bool {
    a is Exclusive || b is Exclusive
}

/// Whether a borrow of `target` of the given kind conflicts with a borrow
/// that is active.
pub open spec fn conflicts(borrows: Seq<Borrow>, target: BindingId, kind: BorrowKind) -> bool {
    exists|i: int|
        0 <= i < borrows.len() && (#[trigger] borrows[i]).active && borrows[i].target == target
            && excludes(kind, borrows[i].kind)
}

/// Whether an active borrow of `target`, owned by `scope`, was marked as
/// returned.
pub open spec fn escapes(borrows: Seq<Borrow>, target: BindingId, scope: ScopeId) -> bool {
    exists|i: int|
        0 <= i < borrows.len() && (#[trigger] borrows[i]).active && borrows[i].returned
            && borrows[i].target == target && borrows[i].owning_scope_id == scope
}

/// The borrow `b`, ended. Its record stays.
pub open spec fn ended(b: Borrow) -> Borrow {
    Borrow {
        target: b.target,
        kind: b.kind,
        owning_scope_id: b.owning_scope_id,
        active: false,
        returned: b.returned,
    }
}

/// The borrow `b`, marked as escaping its scope.
pub open spec fn returned(b: Borrow) -> Borrow {
    Borrow {
        target: b.target,
        kind: b.kind,
        owning_scope_id: b.owning_scope_id,
        active: b.active,
        returned: true,
    }
}

/// A fresh active borrow.
pub open spec fn fresh(target: BindingId, kind: BorrowKind, scope: ScopeId) -> Borrow {
    Borrow { target, kind, owning_scope_id: scope, active: true, returned: false }
}

/// `borrows` after every borrow that `scope` owns has ended.
pub open spec fn end_scope(borrows: Seq<Borrow>, scope: ScopeId) -> Seq<Borrow> {
    Seq::new(
        borrows.len(),
        |i: int|
            if borrows[i].owning_scope_id == scope {
                ended(borrows[i])
            } else {
                borrows[i]
            },
    )
}

/// Whether two borrows may stand side by side: unless they are active borrows
/// of one target, one of them exclusive.
pub open spec fn compatible(a: Borrow, b: Borrow) -> bool {
    a.active && b.active && a.target == b.target ==> !excludes(a.kind, b.kind)
}

/// The aliasing discipline: no binding is at once the target of an active
/// exclusive borrow and of any other active borrow.
pub open spec fn exclusive_is_alone(borrows: Seq<Borrow>) -> bool {
    forall|i: int, j: int|
        0 <= i < borrows.len() && 0 <= j < borrows.len() && i != j ==> compatible(
            #[trigger] borrows[i],
            #[trigger] borrows[j],
        )
}

/// Maps each binding to its borrows, active or ended.
pub struct BorrowTracker {
    borrows: Vec<Borrow>,
}

impl View for BorrowTracker {
    type V = Seq<Borrow>;

    closed spec fn view(&self) -> Seq<Borrow> {
        self.borrows@
    }
}

impl BorrowTracker {
    /// A tracker without borrows.
    pub fn new() -> (r: BorrowTracker)
        ensures
            r@ == Seq::<Borrow>::empty(),
    {
        BorrowTracker { borrows: Vec::new() }
    }

    /// The tracker holds no more records than a machine index can count.
    pub proof fn lemma_fits(&self)
        ensures
            self@.len() <= usize::MAX,
    {
        assert(self.borrows.len() == self.borrows@.len());
    }

    /// The number of borrow records, which is the next id to be issued.
    pub fn len(&self) -> (r: usize)
        ensures
            r == self@.len(),
    {
        self.borrows.len()
    }

    /// The record of the borrow `id`, if that id was issued.
    pub fn get(&self, id: BorrowId) -> (r: Option<Borrow>)
        ensures
            r == if id < self@.len() {
                Some(self@[id as int])
            } else {
                None
            },
    {
        if id < self.borrows.len() {
            Some(self.borrows[id])
        } else {
            None
        }
    }

    /// Whether some active borrow targets `target`.
    pub fn has_active(&self, target: BindingId) -> (r: bool)
        ensures
            r == has_active(self@, target),
    {
        let mut i: usize = 0;
        while i < self.borrows.len()
            invariant
                i <= self.borrows.len(),
                forall|j: int|
                    0 <= j < i ==> !((#[trigger] self.borrows@[j]).active && self.borrows@[j].target
                        == target),
            decreases self.borrows.len() - i,
        {
            let b = self.borrows[i];
            if b.active && b.target == target {
                return true;
            }
            i += 1;
        }
        false
    }

    /// Whether a borrow of `target` of the given kind conflicts with an
    /// active borrow.
    pub fn conflicts(&self, target: BindingId, kind: BorrowKind) -> (r: bool)
        ensures
            r == conflicts(self@, target, kind),
    {
        let mut i: usize = 0;
        while i < self.borrows.len()
            invariant
                i <= self.borrows.len(),
                forall|j: int|
                    0 <= j < i ==> !((#[trigger] self.borrows@[j]).active && self.borrows@[j].target
                        == target && excludes(kind, self.borrows@[j].kind)),
            decreases self.borrows.len() - i,
        {
            let b = self.borrows[i];
            if b.active && b.target == target {
                let clash = match kind {
                    BorrowKind::Exclusive => true,
                    BorrowKind::Shared => match b.kind {
                        BorrowKind::Exclusive => true,
                        BorrowKind::Shared => false,
                    },
                };
                if clash {
                    return true;
                }
            }
            i += 1;
        }
        false
    }

    /// Whether an active borrow of `target`, owned by `scope`, was marked as
    /// returned.
    pub fn escapes(&self, target: BindingId, scope: ScopeId) -> (r: bool)
        ensures
            r == escapes(self@, target, scope),
    {
        let mut i: usize = 0;
        while i < self.borrows.len()
            invariant
                i <= self.borrows.len(),
                forall|j: int|
                    0 <= j < i ==> !((#[trigger] self.borrows@[j]).active
                        && self.borrows@[j].returned && self.borrows@[j].target == target
                        && self.borrows@[j].owning_scope_id == scope),
            decreases self.borrows.len() - i,
        {
            let b = self.borrows[i];
            if b.active && b.returned && b.target == target && b.owning_scope_id == scope {
                return true;
            }
            i += 1;
        }
        false
    }

    /// Requests a borrow of `target` of the given kind, owned by `scope`.
    /// Unless it conflicts with an active borrow, it is registered as active
    /// and its id is returned; a request that conflicts changes nothing.
    pub fn request(&mut self, target: BindingId, kind: BorrowKind, scope: ScopeId) -> (r: Option<
        BorrowId,
    >)
        ensures
            conflicts(old(self)@, target, kind) ==> r is None && final(self)@ == old(self)@,
            !conflicts(old(self)@, target, kind) ==> r == Some(old(self)@.len() as usize)
                && final(self)@ == old(self)@.push(fresh(target, kind, scope)),
    {
        if self.conflicts(target, kind) {
            return None;
        }
        let id = self.borrows.len();
        self.borrows.push(
            Borrow { target, kind, owning_scope_id: scope, active: true, returned: false },
        );
        Some(id)
    }

    /// Ends the borrow `id`. Ending a borrow twice changes nothing.
    pub fn end(&mut self, id: BorrowId)
        requires
            id < old(self)@.len(),
        ensures
            final(self)@ == old(self)@.update(id as int, ended(old(self)@[id as int])),
    {
        let b = self.borrows[id];
        self.borrows.set(
            id,
            Borrow {
                target: b.target,
                kind: b.kind,
                owning_scope_id: b.owning_scope_id,
                active: false,
                returned: b.returned,
            },
        );
    }

    /// Marks the borrow `id` as escaping its scope.
    pub fn mark_returned(&mut self, id: BorrowId)
        requires
            id < old(self)@.len(),
        ensures
            final(self)@ == old(self)@.update(id as int, returned(old(self)@[id as int])),
    {
        let b = self.borrows[id];
        self.borrows.set(
            id,
            Borrow {
                target: b.target,
                kind: b.kind,
                owning_scope_id: b.owning_scope_id,
                active: b.active,
                returned: true,
            },
        );
    }

    /// Ends every borrow that `scope` owns.
    pub fn end_scope(&mut self, scope: ScopeId)
        ensures
            final(self)@ == end_scope(old(self)@, scope),
    {
        let n = self.borrows.len();
        let mut i: usize = 0;
        while i < n
            invariant
                i <= n,
                n == self.borrows@.len(),
                n == old(self)@.len(),
                forall|j: int|
                    0 <= j < i ==> #[trigger] self.borrows@[j] == end_scope(old(self)@, scope)[j],
                forall|j: int| i <= j < n ==> #[trigger] self.borrows@[j] == old(self)@[j],
            decreases n - i,
        {
            if self.borrows[i].owning_scope_id == scope {
                self.end(i);
            }
            i += 1;
        }
        assert(self@ =~= end_scope(old(self)@, scope));
    }
}

} // verus!
