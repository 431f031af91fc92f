//! The mathematical model of a validation pass: the state, and what each
//! operation makes of it.

use crate::borrow::{
    conflicts, end_scope, ended, escapes, exclusive_is_alone, fresh, has_active, returned,
};
use crate::model::{
    Binding, BindingId, BindingState, Borrow, BorrowId, BorrowKind, Category, Diagnostic,
    DiagnosticKind, Name, Operation, ScopeId, Subject,
};
use crate::ownership::{dropped, resolve, with_state};
use crate::scope::ScopeTree;
use vstd::prelude::*;

verus! {

/// The state of a pass.
pub struct State {
    pub scopes: ScopeTree,
    /// Every binding record, in creation order.
    pub bindings: Seq<Binding>,
    /// Every borrow record, in order of registration.
    pub borrows: Seq<Borrow>,
    /// The violations reported so far, in the order of their detection.
    pub diagnostics: Seq<Diagnostic>,
    /// Whether an unbalanced scope exit has ended the pass.
    pub halted: bool,
}

impl State {
    /// The state before the first operation: the root scope is open, and
    /// nothing is bound, borrowed or reported.
    pub open spec fn initial() -> State {
        State {
            scopes: ScopeTree::initial(),
            bindings: Seq::empty(),
            borrows: Seq::empty(),
            diagnostics: Seq::empty(),
            halted: false,
        }
    }

    /// The innermost open scope.
    pub open spec fn current(self) -> ScopeId {
        self.scopes.current()
    }

    /// The binding that `name` refers to.
    pub open spec fn lookup(self, name: Name) -> Option<BindingId> {
        resolve(self.bindings, self.scopes.open, name)
    }

    /// The binding that `name` refers to, if it still holds its value; else
    /// the kind of violation that touching it is.
    pub open spec fn access(self, name: Name) -> Result<BindingId, DiagnosticKind> {
        match self.lookup(name) {
            None => Err(DiagnosticKind::UnknownBinding),
            Some(i) => if self.bindings[i as int].state is Owned {
                Ok(i)
            } else {
                Err(self.bindings[i as int].state.violation())
            },
        }
    }

    /// The state with one more diagnostic, detected in the current scope.
    pub open spec fn report(self, kind: DiagnosticKind, binding: Option<Name>) -> State {
        State {
            diagnostics: self.diagnostics.push(
                Diagnostic { kind, binding, scope_id: self.current() },
            ),
            ..self
        }
    }

    /// `bind`: a new owned binding in the current scope.
    pub open spec fn bind(self, name: Name, category: Category) -> State {
        State {
            scopes: self.scopes.with_binding(self.bindings.len() as usize),
            bindings: self.bindings.push(
                Binding { name, category, state: BindingState::Owned, scope_id: self.current() },
            ),
            ..self
        }
    }

    /// `move`: the destination is bound with the category of the source, and
    /// a movable source is left moved. A source that is unknown, no longer
    /// owned, or borrowed is reported instead, and nothing else changes.
    pub open spec fn move_binding(self, src: Name, dst: Name) -> State {
        match self.access(src) {
            Err(kind) => self.report(kind, Some(src)),
            Ok(i) => if has_active(self.borrows, i) {
                self.report(DiagnosticKind::MoveWhileBorrowed, Some(src))
            } else {
                let bound = self.bind(dst, self.bindings[i as int].category);
                if self.bindings[i as int].category is Movable {
                    State {
                        bindings: with_state(bound.bindings, i as int, BindingState::Moved),
                        ..bound
                    }
                } else {
                    bound
                }
            },
        }
    }

    /// `use` of a name: a read changes nothing; a name that is unknown or no
    /// longer owned is reported.
    pub open spec fn use_binding(self, name: Name) -> State {
        match self.access(name) {
            Err(kind) => self.report(kind, Some(name)),
            Ok(_) => self,
        }
    }

    /// `borrow`: a new active borrow owned by the current scope. A target
    /// that is unknown or no longer owned, or a kind that conflicts with an
    /// active borrow of the target, is reported instead.
    pub open spec fn borrow(self, name: Name, kind: BorrowKind) -> State {
        match self.access(name) {
            Err(violation) => self.report(violation, Some(name)),
            Ok(i) => if conflicts(self.borrows, i, kind) {
                self.report(DiagnosticKind::ConflictingBorrow, Some(name))
            } else {
                State { borrows: self.borrows.push(fresh(i, kind, self.current())), ..self }
            },
        }
    }

    /// Whether a `borrow` of `name` of the given kind is granted: the pass is
    /// not over, the name refers to a binding that holds its value, and the
    /// kind conflicts with no active borrow of it.
    pub open spec fn grants(self, name: Name, kind: BorrowKind) -> bool {
        &&& !self.halted
        &&& self.access(name) matches Ok(i) && !conflicts(self.borrows, i, kind)
    }

    /// The name of the binding that the borrow `id` targets.
    pub open spec fn target_name(self, id: BorrowId) -> Name {
        self.bindings[self.borrows[id as int].target as int].name
    }

    /// `end_borrow`: the borrow no longer counts. An id that was never issued
    /// is reported.
    pub open spec fn end_borrow(self, id: BorrowId) -> State {
        if id < self.borrows.len() {
            State {
                borrows: self.borrows.update(id as int, ended(self.borrows[id as int])),
                ..self
            }
        } else {
            self.report(DiagnosticKind::UnknownBinding, None)
        }
    }

    /// `use` of a borrow: a read changes nothing; an id that was never issued
    /// or a borrow that has ended is reported.
    pub open spec fn use_borrow(self, id: BorrowId) -> State {
        if id >= self.borrows.len() {
            self.report(DiagnosticKind::UnknownBinding, None)
        } else if !self.borrows[id as int].active {
            self.report(DiagnosticKind::UseAfterEndOfBorrow, Some(self.target_name(id)))
        } else {
            self
        }
    }

    /// `return_borrow`: the borrow is marked as escaping its scope. An id that
    /// was never issued or a borrow that has ended is reported.
    pub open spec fn return_borrow(self, id: BorrowId) -> State {
        if id >= self.borrows.len() {
            self.report(DiagnosticKind::UnknownBinding, None)
        } else if !self.borrows[id as int].active {
            self.report(DiagnosticKind::UseAfterEndOfBorrow, Some(self.target_name(id)))
        } else {
            State {
                borrows: self.borrows.update(id as int, returned(self.borrows[id as int])),
                ..self
            }
        }
    }

    /// `enter_scope`: a new child of the current scope is open.
    pub open spec fn enter_scope(self) -> State {
        State { scopes: self.scopes.entered(), ..self }
    }

    /// Whether the binding `b` exists and still holds its value.
    pub open spec fn still_owned(self) -> spec_fn(BindingId) -> bool {
        |b: BindingId| b < self.bindings.len() && self.bindings[b as int].state is Owned
    }

    /// Whether a returned borrow that the current scope owns targets `b`.
    pub open spec fn is_dangling(self) -> spec_fn(BindingId) -> bool {
        |b: BindingId| escapes(self.borrows, b, self.current())
    }

    /// The diagnostic for a binding that is destroyed while a returned borrow
    /// targets it.
    pub open spec fn dangling_report(self) -> spec_fn(BindingId) -> Diagnostic {
        |b: BindingId|
            Diagnostic {
                kind: DiagnosticKind::DanglingReference,
                binding: Some(self.bindings[b as int].name),
                scope_id: self.current(),
            }
    }

    /// The bindings that leaving the current scope destroys, in the order of
    /// their destruction: those that the scope introduced and that are still
    /// owned, youngest first.
    pub open spec fn drop_order(self) -> Seq<BindingId> {
        self.scopes.scopes[self.current() as int].introduced.reverse().filter(self.still_owned())
    }

    /// The diagnostics of leaving the current scope: one for each destroyed
    /// binding that a returned borrow targets, in the order of destruction.
    pub open spec fn exit_reports(self) -> Seq<Diagnostic> {
        self.drop_order().filter(self.is_dangling()).map_values(self.dangling_report())
    }

    /// The bindings after the scope `scope` was left: those of its bindings
    /// that were still owned are dropped.
    pub open spec fn dropped_in(self, scope: ScopeId) -> Seq<Binding> {
        Seq::new(
            self.bindings.len(),
            |i: int|
                if self.bindings[i].scope_id == scope && self.bindings[i].state is Owned {
                    dropped(self.bindings[i])
                } else {
                    self.bindings[i]
                },
        )
    }

    /// `exit_scope`: the borrows that the current scope owns end, its owned
    /// bindings are dropped, the dangling references among them are reported,
    /// and the scope is closed. With no nested scope open the exit is
    /// unbalanced: that is reported, and the pass is over.
    pub open spec fn exit_scope(self) -> State {
        if self.scopes.can_exit() {
            State {
                scopes: self.scopes.exited(),
                bindings: self.dropped_in(self.current()),
                borrows: end_scope(self.borrows, self.current()),
                diagnostics: self.diagnostics + self.exit_reports(),
                ..self
            }
        } else {
            State { halted: true, ..self.report(DiagnosticKind::EmptyScopeStack, None) }
        }
    }

    /// Every id that the tables issue is a machine index.
    pub open spec fn fits(self) -> bool {
        &&& self.scopes.scopes.len() <= usize::MAX + 1
        &&& self.bindings.len() <= usize::MAX + 1
        &&& self.borrows.len() <= usize::MAX + 1
    }

    /// Whether `binding`, the record at place `b`, belongs to a scope that
    /// lists it as introduced.
    pub open spec fn binding_placed(self, b: int, binding: Binding) -> bool {
        &&& binding.scope_id < self.scopes.scopes.len()
        &&& self.scopes.scopes[binding.scope_id as int].introduced.contains(b as usize)
    }

    /// Every binding belongs to a scope that lists it as introduced.
    pub open spec fn bindings_placed(self) -> bool {
        forall|b: int|
            0 <= b < self.bindings.len() ==> self.binding_placed(b, #[trigger] self.bindings[b])
    }

    /// Whether `id` is a binding of the scope `s`.
    pub open spec fn listed_by(self, s: int, id: BindingId) -> bool {
        id < self.bindings.len() && self.bindings[id as int].scope_id == s
    }

    /// What a scope lists as introduced is a binding of that scope.
    pub open spec fn introduced_sound(self) -> bool {
        forall|s: int, k: int|
            0 <= s < self.scopes.scopes.len() && 0 <= k < self.scopes.scopes[s].introduced.len()
                ==> self.listed_by(s, #[trigger] self.scopes.scopes[s].introduced[k])
    }

    /// A scope lists what it introduced in creation order, each binding once.
    pub open spec fn introduced_ordered(self) -> bool {
        forall|s: int, j: int, k: int|
            0 <= s < self.scopes.scopes.len() && 0 <= j < k < self.scopes.scopes[s].introduced.len()
                ==> (#[trigger] self.scopes.scopes[s].introduced[j])
                < (#[trigger] self.scopes.scopes[s].introduced[k])
    }

    /// Whether `borrow` targets a binding and is owned by a scope.
    pub open spec fn borrow_placed(self, borrow: Borrow) -> bool {
        borrow.target < self.bindings.len() && borrow.owning_scope_id < self.scopes.scopes.len()
    }

    /// Every borrow targets a binding and is owned by a scope.
    pub open spec fn borrows_placed(self) -> bool {
        forall|r: int|
            0 <= r < self.borrows.len() ==> self.borrow_placed(#[trigger] self.borrows[r])
    }

    /// The records of the state refer to each other consistently.
    pub open spec fn wf(self) -> bool {
        &&& self.fits()
        &&& self.scopes.wf()
        &&& self.bindings_placed()
        &&& self.introduced_sound()
        &&& self.introduced_ordered()
        &&& self.borrows_placed()
    }

    /// A copyable binding is never left moved.
    pub open spec fn copies_stay_owned(self) -> bool {
        forall|b: int| 0 <= b < self.bindings.len() ==> (#[trigger] self.bindings[b]).honours_copy()
    }

    /// Whether the state of `binding` agrees with its scope: it holds its
    /// value only while the scope is open, and is dropped only once the scope
    /// was left.
    pub open spec fn state_follows_scope(self, binding: Binding) -> bool {
        &&& binding.state is Owned ==> self.scopes.is_open(binding.scope_id)
        &&& binding.state is Dropped ==> !self.scopes.is_open(binding.scope_id)
    }

    /// A binding holds its value only while its scope is open, and is dropped
    /// only once its scope was left.
    pub open spec fn states_follow_scopes(self) -> bool {
        forall|b: int|
            0 <= b < self.bindings.len() ==> self.state_follows_scope(#[trigger] self.bindings[b])
    }

    /// Whether `borrow`, if it is active, is owned by an open scope and
    /// targets a binding that holds its value and that the owning scope, or a
    /// scope around it, introduced.
    pub open spec fn borrow_valid(self, borrow: Borrow) -> bool {
        borrow.active ==> {
            &&& self.scopes.is_open(borrow.owning_scope_id)
            &&& self.bindings[borrow.target as int].state is Owned
            &&& self.bindings[borrow.target as int].scope_id <= borrow.owning_scope_id
        }
    }

    /// References are always valid: an active borrow targets a binding that
    /// holds its value, and ends no later than the scope of that binding.
    pub open spec fn borrows_valid(self) -> bool {
        forall|r: int|
            0 <= r < self.borrows.len() ==> self.borrow_valid(#[trigger] self.borrows[r])
    }

    /// What holds of every state that a pass reaches.
    pub open spec fn inv(self) -> bool {
        &&& self.wf()
        &&& exclusive_is_alone(self.borrows)
        &&& self.copies_stay_owned()
        &&& self.states_follow_scopes()
        &&& self.borrows_valid()
    }

    /// What one operation makes of the state. Once the pass is over, nothing.
    pub open spec fn step(self, op: Operation) -> State {
        if self.halted {
            self
        } else {
            match op {
                Operation::Bind { name, category } => self.bind(name, category),
                Operation::Move { src, dst } => self.move_binding(src, dst),
                Operation::Borrow { name, kind } => self.borrow(name, kind),
                Operation::EndBorrow { borrow } => self.end_borrow(borrow),
                Operation::Use { subject: Subject::Binding(name) } => self.use_binding(name),
                Operation::Use { subject: Subject::Borrow(borrow) } => self.use_borrow(borrow),
                Operation::EnterScope => self.enter_scope(),
                Operation::ExitScope => self.exit_scope(),
                Operation::ReturnBorrow { borrow } => self.return_borrow(borrow),
            }
        }
    }

    /// What a program makes of the state, operation by operation.
    pub open spec fn run(self, program: Seq<Operation>) -> State
        decreases program.len(),
    {
        if program.len() == 0 {
            self
        } else {
            self.run(program.drop_last()).step(program.last())
        }
    }
}

/// Running a program that ends in `op` is running what comes before, and
/// then `op`.
pub proof fn lemma_run_push(s: State, program: Seq<Operation>, op: Operation)
    ensures
        s.run(program.push(op)) == s.run(program).step(op),
{
    assert(program.push(op).drop_last() =~= program);
}

/// A pass is the sequence of its states: where `trace` starts at `start` and
/// each of its states comes from the one before by the operation at that
/// place of `program`, the pass ends in the last state of `trace`.
pub proof fn lemma_trace(start: State, program: Seq<Operation>, trace: Seq<State>)
    requires
        trace.len() == program.len() + 1,
        trace[0] == start,
        forall|k: int|
            0 <= k < program.len() ==> #[trigger] trace[k + 1] == trace[k].step(program[k]),
    ensures
        start.run(program) == trace.last(),
    decreases program.len(),
{
    if program.len() > 0 {
        let n = program.len() as int;
        lemma_trace(start, program.drop_last(), trace.drop_last());
        assert(trace[n - 1 + 1] == trace[n - 1].step(program[n - 1]));
    }
}

/// Running one program after another is running the two as one.
pub proof fn lemma_run_concat(s: State, first: Seq<Operation>, second: Seq<Operation>)
    ensures
        s.run(first + second) == s.run(first).run(second),
    decreases second.len(),
{
    if second.len() == 0 {
        assert(first + second =~= first);
    } else {
        assert((first + second).drop_last() =~= first + second.drop_last());
        lemma_run_concat(s, first, second.drop_last());
    }
}

/// Once an unbalanced scope exit has ended the pass, no operation changes
/// anything.
pub proof fn lemma_halted_pass_is_over(s: State, program: Seq<Operation>)
    requires
        s.halted,
    ensures
        s.run(program) == s,
    decreases program.len(),
{
    if program.len() > 0 {
        lemma_halted_pass_is_over(s, program.drop_last());
    }
}

/// The state that a pass over `program` reaches from the initial state.
pub open spec fn reached(program: Seq<Operation>) -> State {
    State::initial().run(program)
}

/// The diagnostics of a program: what a pass from the initial state reports,
/// in order. An empty sequence says that the program is well formed.
pub open spec fn verdict(program: Seq<Operation>) -> Seq<Diagnostic> {
    reached(program).diagnostics
}

} // verus!
