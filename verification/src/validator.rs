//! The validator: it consumes a program operation by operation and reports
//! every violation, without halting at the first.

use crate::borrow::{end_scope, BorrowTracker};
use crate::model::{
    Binding, BindingId, BindingState, Borrow, BorrowId, BorrowKind, Category, Diagnostic,
    DiagnosticKind, Name, Operation, ScopeId, Subject,
};
use crate::ownership::{with_dropped, OwnershipTable};
use crate::scope::ScopeStack;
use crate::state::{lemma_halted_pass_is_over, lemma_run_concat, lemma_run_push, verdict, State};
use vstd::prelude::*;

verus! {

/// The state of a pass, owned by the validator alone.
pub struct Validator {
    scopes: ScopeStack,
    table: OwnershipTable,
    tracker: BorrowTracker,
    diagnostics: Vec<Diagnostic>,
    halted: bool,
}

impl View for Validator {
    type V = State;

    closed spec fn view(&self) -> State {
        State {
            scopes: self.scopes@,
            bindings: self.table@,
            borrows: self.tracker@,
            diagnostics: self.diagnostics@,
            halted: self.halted,
        }
    }
}

impl Validator {
    /// A validator in the initial state.
    pub fn new() -> (r: Validator)
        ensures
            r@ == State::initial(),
            r@.inv(),
    {
        Validator {
            scopes: ScopeStack::new(),
            table: OwnershipTable::new(),
            tracker: BorrowTracker::new(),
            diagnostics: Vec::new(),
            halted: false,
        }
    }

    /// The violations reported so far, in the order of their detection.
    pub fn diagnostics(&self) -> (r: &Vec<Diagnostic>)
        ensures
            r@ == self@.diagnostics,
    {
        &self.diagnostics
    }

    /// Ends the pass and hands out what it reported.
    pub fn into_diagnostics(self) -> (r: Vec<Diagnostic>)
        ensures
            r@ == self@.diagnostics,
    {
        self.diagnostics
    }

    /// Whether nothing was reported so far.
    pub fn is_clean(&self) -> (r: bool)
        ensures
            r == (self@.diagnostics.len() == 0),
    {
        self.diagnostics.len() == 0
    }

    /// Whether an unbalanced scope exit has ended the pass.
    pub fn is_halted(&self) -> (r: bool)
        ensures
            r == self@.halted,
    {
        self.halted
    }

    /// The innermost open scope.
    pub fn current_scope(&self) -> (r: ScopeId)
        requires
            self@.wf(),
        ensures
            r == self@.current(),
    {
        self.scopes.current()
    }

    /// The number of open scopes, counting the root.
    pub fn depth(&self) -> (r: usize)
        ensures
            r == self@.scopes.open.len(),
    {
        self.scopes.depth()
    }

    /// The binding that `name` refers to.
    pub fn lookup(&self, name: Name) -> (r: Option<BindingId>)
        ensures
            r == self@.lookup(name),
    {
        self.table.resolve(name, &self.scopes)
    }

    /// The record of the binding `id`, if there is one.
    pub fn binding(&self, id: BindingId) -> (r: Option<Binding>)
        ensures
            r == if id < self@.bindings.len() {
                Some(self@.bindings[id as int])
            } else {
                None
            },
    {
        if id < self.table.len() {
            Some(self.table.get(id))
        } else {
            None
        }
    }

    /// The record of the borrow `id`, if that id was issued.
    pub fn borrow_record(&self, id: BorrowId) -> (r: Option<Borrow>)
        ensures
            r == if id < self@.borrows.len() {
                Some(self@.borrows[id as int])
            } else {
                None
            },
    {
        self.tracker.get(id)
    }

    /// Establishes that what the tables hold can be counted.
    proof fn lemma_fits(&self)
        ensures
            self@.fits(),
    {
        self.scopes.lemma_fits();
        self.table.lemma_fits();
        self.tracker.lemma_fits();
    }

    fn report(&mut self, kind: DiagnosticKind, binding: Option<Name>)
        requires
            old(self)@.inv(),
        ensures
            final(self)@ == old(self)@.report(kind, binding),
            final(self)@.inv(),
    {
        let scope_id = self.scopes.current();
        self.diagnostics.push(Diagnostic { kind, binding, scope_id });
    }

    fn access(&self, name: Name) -> (r: Result<BindingId, DiagnosticKind>)
        requires
            self@.wf(),
        ensures
            r == self@.access(name),
            r matches Ok(i) ==> i < self@.bindings.len(),
    {
        match self.table.resolve(name, &self.scopes) {
            None => Err(DiagnosticKind::UnknownBinding),
            Some(i) => {
                let state = self.table.get(i).state;
                if state.is_owned() {
                    Ok(i)
                } else {
                    Err(state.violation_kind())
                }
            },
        }
    }

    fn insert(&mut self, name: Name, category: Category)
        requires
            old(self)@.inv(),
        ensures
            final(self)@ == old(self)@.bind(name, category),
            final(self)@.inv(),
    {
        let scope = self.scopes.current();
        let id = self.table.insert(name, category, scope);
        self.scopes.record(id);
        proof {
            self.lemma_fits();
            old(self)@.lemma_bind_inv(name, category);
        }
    }

    /// `bind`: introduces a new owned binding in the current scope.
    pub fn bind(&mut self, name: Name, category: Category)
        requires
            old(self)@.inv(),
        ensures
            final(self)@ == old(self)@.step(Operation::Bind { name, category }),
            final(self)@.inv(),
    {
        if self.halted {
            return;
        }
        self.insert(name, category);
    }

    /// `move`: transfers ownership from `src` to a new binding `dst`, or
    /// reports why it cannot.
    pub fn move_binding(&mut self, src: Name, dst: Name)
        requires
            old(self)@.inv(),
        ensures
            final(self)@ == old(self)@.step(Operation::Move { src, dst }),
            final(self)@.inv(),
    {
        if self.halted {
            return;
        }
        match self.access(src) {
            Err(kind) => self.report(kind, Some(src)),
            Ok(i) => {
                if self.tracker.has_active(i) {
                    self.report(DiagnosticKind::MoveWhileBorrowed, Some(src));
                } else {
                    let category = self.table.get(i).category;
                    self.insert(dst, category);
                    match category {
                        Category::Movable => {
                            self.table.set_state(i, BindingState::Moved);
                        },
                        Category::Copyable => {},
                    }
                    proof {
                        self.lemma_fits();
                        old(self)@.lemma_move_inv(src, dst);
                    }
                }
            },
        }
    }

    /// `use` of a name: a read, which reports a name that is unknown or no
    /// longer owned.
    pub fn use_binding(&mut self, name: Name)
        requires
            old(self)@.inv(),
        ensures
            final(self)@ == old(self)@.step(Operation::Use { subject: Subject::Binding(name) }),
            final(self)@.inv(),
    {
        if self.halted {
            return;
        }
        match self.access(name) {
            Err(kind) => self.report(kind, Some(name)),
            Ok(_) => {},
        }
    }

    /// `borrow`: creates a borrow of `name`, rooted in the current scope, and
    /// returns its id; or reports why it cannot, and returns nothing.
    pub fn borrow(&mut self, name: Name, kind: BorrowKind) -> (r: Option<BorrowId>)
        requires
            old(self)@.inv(),
        ensures
            final(self)@ == old(self)@.step(Operation::Borrow { name, kind }),
            final(self)@.inv(),
            r == if old(self)@.grants(name, kind) {
                Some(old(self)@.borrows.len() as usize)
            } else {
                None
            },
    {
        if self.halted {
            return None;
        }
        match self.access(name) {
            Err(violation) => {
                self.report(violation, Some(name));
                None
            },
            Ok(i) => {
                let scope = self.scopes.current();
                let granted = self.tracker.request(i, kind, scope);
                if granted.is_none() {
                    self.report(DiagnosticKind::ConflictingBorrow, Some(name));
                }
                proof {
                    self.lemma_fits();
                    old(self)@.lemma_borrow_inv(name, kind);
                }
                granted
            },
        }
    }

    /// `end_borrow`: releases a borrow before its scope ends.
    pub fn end_borrow(&mut self, borrow: BorrowId)
        requires
            old(self)@.inv(),
        ensures
            final(self)@ == old(self)@.step(Operation::EndBorrow { borrow }),
            final(self)@.inv(),
    {
        if self.halted {
            return;
        }
        if borrow < self.tracker.len() {
            self.tracker.end(borrow);
            proof {
                old(self)@.lemma_end_borrow_inv(borrow);
            }
        } else {
            self.report(DiagnosticKind::UnknownBinding, None);
        }
    }

    /// `use` of a borrow: a read, which reports an id that was never issued
    /// or a borrow that has ended.
    pub fn use_borrow(&mut self, borrow: BorrowId)
        requires
            old(self)@.inv(),
        ensures
            final(self)@ == old(self)@.step(Operation::Use { subject: Subject::Borrow(borrow) }),
            final(self)@.inv(),
    {
        if self.halted {
            return;
        }
        match self.tracker.get(borrow) {
            None => self.report(DiagnosticKind::UnknownBinding, None),
            Some(b) => {
                if !b.active {
                    let name = self.table.get(b.target).name;
                    self.report(DiagnosticKind::UseAfterEndOfBorrow, Some(name));
                }
            },
        }
    }

    /// `return_borrow`: marks a borrow as escaping the scope that owns it.
    pub fn return_borrow(&mut self, borrow: BorrowId)
        requires
            old(self)@.inv(),
        ensures
            final(self)@ == old(self)@.step(Operation::ReturnBorrow { borrow }),
            final(self)@.inv(),
    {
        if self.halted {
            return;
        }
        match self.tracker.get(borrow) {
            None => self.report(DiagnosticKind::UnknownBinding, None),
            Some(b) => {
                if b.active {
                    self.tracker.mark_returned(borrow);
                    proof {
                        old(self)@.lemma_return_borrow_inv(borrow);
                    }
                } else {
                    let name = self.table.get(b.target).name;
                    self.report(DiagnosticKind::UseAfterEndOfBorrow, Some(name));
                }
            },
        }
    }

    /// `enter_scope`: opens a nested lexical scope.
    pub fn enter_scope(&mut self)
        requires
            old(self)@.inv(),
        ensures
            final(self)@ == old(self)@.step(Operation::EnterScope),
            final(self)@.inv(),
    {
        if self.halted {
            return;
        }
        proof {
            self.lemma_fits();
        }
        self.scopes.enter();
        proof {
            self.lemma_fits();
            old(self)@.lemma_enter_inv();
        }
    }

    /// Collects what leaving the current scope destroys, and reports the
    /// dangling references among it.
    fn collect_dropped(&mut self) -> (victims: Vec<BindingId>)
        requires
            old(self)@.inv(),
        ensures
            victims@ == old(self)@.drop_order(),
            final(self)@ == (State {
                diagnostics: old(self)@.diagnostics + old(self)@.exit_reports(),
                ..old(self)@
            }),
    {
        let scope = self.scopes.current();
        let introduced = self.scopes.introduced(scope);
        let n = introduced.len();
        let ghost before = self@;
        let ghost youngest_first = introduced@.reverse();
        let mut victims: Vec<BindingId> = Vec::new();
        let mut j: usize = 0;
        while j < n
            invariant
                j <= n,
                n == introduced@.len(),
                before.inv(),
                scope == before.current(),
                introduced@ == before.scopes.scopes[scope as int].introduced,
                youngest_first == introduced@.reverse(),
                victims@ == youngest_first.take(j as int).filter(before.still_owned()),
                self.scopes@ == before.scopes,
                self.table@ == before.bindings,
                self.tracker@ == before.borrows,
                self.halted == before.halted,
                self.diagnostics@ == before.diagnostics + victims@.filter(
                    before.is_dangling(),
                ).map_values(before.dangling_report()),
            decreases n - j,
        {
            let b = introduced[n - 1 - j];
            proof {
                before.scopes.lemma_current_exists();
                assert(youngest_first[j as int] == b);
                assert(b == before.scopes.scopes[scope as int].introduced[n - 1 - j]);
                assert(before.listed_by(scope as int, b));
                youngest_first.lemma_take_succ_push(j as int);
                youngest_first.take(j as int).lemma_filter_push(b, before.still_owned());
            }
            if self.table.get(b).state.is_owned() {
                proof {
                    victims@.lemma_filter_push(b, before.is_dangling());
                    victims@.filter(before.is_dangling()).lemma_push_map_commute(
                        before.dangling_report(),
                        b,
                    );
                }
                if self.tracker.escapes(b, scope) {
                    let name = self.table.get(b).name;
                    self.diagnostics.push(
                        Diagnostic {
                            kind: DiagnosticKind::DanglingReference,
                            binding: Some(name),
                            scope_id: scope,
                        },
                    );
                }
                victims.push(b);
            }
            j += 1;
        }
        proof {
            youngest_first.lemma_take_len();
        }
        victims
    }

    /// `exit_scope`: closes the innermost scope and returns the bindings that
    /// this destroys, in the order of their destruction. With no nested scope
    /// open, the exit is reported and ends the pass.
    pub fn exit_scope(&mut self) -> (dropped: Vec<BindingId>)
        requires
            old(self)@.inv(),
        ensures
            final(self)@ == old(self)@.step(Operation::ExitScope),
            final(self)@.inv(),
            dropped@ == if !old(self)@.halted && old(self)@.scopes.can_exit() {
                old(self)@.drop_order()
            } else {
                Seq::empty()
            },
    {
        if self.halted {
            return Vec::new();
        }
        if self.scopes.depth() <= 1 {
            self.report(DiagnosticKind::EmptyScopeStack, None);
            self.halted = true;
            return Vec::new();
        }
        let scope = self.scopes.current();
        let victims = self.collect_dropped();
        self.tracker.end_scope(scope);
        let ghost before = old(self)@;
        let mut k: usize = 0;
        while k < victims.len()
            invariant
                k <= victims@.len(),
                before.inv(),
                scope == before.current(),
                victims@ == before.drop_order(),
                self.table@ == with_dropped(before.bindings, victims@.take(k as int)),
                self.scopes@ == before.scopes,
                self.tracker@ == end_scope(before.borrows, scope),
                self.diagnostics@ == before.diagnostics + before.exit_reports(),
                self.halted == before.halted,
            decreases victims@.len() - k,
        {
            let b = victims[k];
            let ghost done = victims@.take(k as int);
            let ghost next = victims@.take(k + 1);
            proof {
                before.lemma_drop_order();
                assert(before.listed_by(scope as int, victims@[k as int]));
                victims@.lemma_take_succ_push(k as int);
                if done.contains(b) {
                    let j = choose|j: int| 0 <= j < done.len() && done[j] == b;
                    assert(victims@[j] > victims@[k as int]);
                }
            }
            self.table.set_state(b, BindingState::Dropped);
            proof {
                assert forall|i: int| 0 <= i < before.bindings.len() implies self.table@[i]
                    == with_dropped(before.bindings, next)[i] by {
                    if i == b {
                        assert(next[k as int] == b);
                    } else {
                        if next.contains(i as usize) {
                            let j = choose|j: int| 0 <= j < next.len() && next[j] == i as usize;
                            assert(done[j] == i as usize);
                        }
                        if done.contains(i as usize) {
                            let j = choose|j: int| 0 <= j < done.len() && done[j] == i as usize;
                            assert(next[j] == i as usize);
                        }
                    }
                }
                assert(self.table@ =~= with_dropped(before.bindings, next));
            }
            k += 1;
        }
        self.scopes.exit();
        proof {
            victims@.lemma_take_len();
            before.lemma_dropped_in_scope();
            before.lemma_exit_inv();
        }
        victims
    }

    /// Applies one operation.
    pub fn apply(&mut self, op: Operation)
        requires
            old(self)@.inv(),
        ensures
            final(self)@ == old(self)@.step(op),
            final(self)@.inv(),
    {
        match op {
            Operation::Bind { name, category } => self.bind(name, category),
            Operation::Move { src, dst } => self.move_binding(src, dst),
            Operation::Borrow { name, kind } => {
                let _ = self.borrow(name, kind);
            },
            Operation::EndBorrow { borrow } => self.end_borrow(borrow),
            Operation::Use { subject } => match subject {
                Subject::Binding(name) => self.use_binding(name),
                Subject::Borrow(borrow) => self.use_borrow(borrow),
            },
            Operation::EnterScope => self.enter_scope(),
            Operation::ExitScope => {
                let _ = self.exit_scope();
            },
            Operation::ReturnBorrow { borrow } => self.return_borrow(borrow),
        }
    }

    /// Applies the operations of `program` in order, up to the end or to the
    /// unbalanced scope exit that ends the pass.
    pub fn run(&mut self, program: &[Operation])
        requires
            old(self)@.inv(),
        ensures
            final(self)@ == old(self)@.run(program@),
            final(self)@.inv(),
    {
        let mut i: usize = 0;
        while i < program.len() && !self.halted
            invariant
                i <= program@.len(),
                self@.inv(),
                self@ == old(self)@.run(program@.take(i as int)),
            decreases program@.len() - i,
        {
            proof {
                program@.lemma_take_succ_push(i as int);
                lemma_run_push(old(self)@, program@.take(i as int), program@[i as int]);
            }
            self.apply(program[i]);
            i += 1;
        }
        proof {
            let done = program@.take(i as int);
            let rest = program@.skip(i as int);
            assert(done + rest =~= program@);
            lemma_run_concat(old(self)@, done, rest);
            if self.halted {
                lemma_halted_pass_is_over(self@, rest);
            } else {
                assert(rest =~= Seq::<Operation>::empty());
            }
        }
    }
}

/// Validates a program: one pass from the initial state. The result is empty
/// exactly when the program violates no rule.
pub fn validate(program: &[Operation]) -> (diagnostics: Vec<Diagnostic>)
    ensures
        diagnostics@ == verdict(program@),
{
    let mut validator = Validator::new();
    validator.run(program);
    validator.into_diagnostics()
}

} // verus!
