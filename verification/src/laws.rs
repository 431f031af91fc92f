//! What holds of every pass: the rules of ownership and borrowing, stated
//! over the model and proved.

use crate::borrow::{compatible, escapes, has_active};
use crate::invariants::strictly_decreasing;
use crate::model::{
    Binding, BindingId, BindingState, Category, Diagnostic, Name, Operation,
};
use crate::ownership::with_dropped;
use crate::state::{reached, verdict, State};
use vstd::prelude::*;

verus! {

/// A pass over a program that a machine can hold reaches only consistent
/// states: the records refer to each other as they should, the aliasing
/// discipline holds, no copyable binding is moved, a binding holds its value
/// only while its scope is open, and every active borrow targets a binding
/// that holds its value.
pub proof fn reachable_states_are_consistent(program: Seq<Operation>)
    requires
        program.len() <= usize::MAX,
    ensures
        reached(program).inv(),
        reached(program).bindings.len() <= program.len(),
        reached(program).borrows.len() <= program.len(),
        reached(program).scopes.scopes.len() <= program.len() + 1,
    decreases program.len(),
{
    if program.len() == 0 {
        let start = State::initial();
        assert(start.scopes.is_link(0));
        assert(start.inv());
    } else {
        reachable_states_are_consistent(program.drop_last());
        let before = reached(program.drop_last());
        before.lemma_step_grows(program.last());
        before.lemma_step_inv(program.last());
    }
}

/// Aliasing: in every state that a pass reaches, no binding is at once the
/// target of an active exclusive borrow and of any other active borrow,
/// shared or exclusive.
pub proof fn exclusive_borrow_is_alone(program: Seq<Operation>, a: int, b: int)
    requires
        program.len() <= usize::MAX,
        0 <= a < reached(program).borrows.len(),
        0 <= b < reached(program).borrows.len(),
        a != b,
        reached(program).borrows[a].active,
        reached(program).borrows[b].active,
        reached(program).borrows[a].target == reached(program).borrows[b].target,
    ensures
        reached(program).borrows[a].kind is Shared,
        reached(program).borrows[b].kind is Shared,
{
    reachable_states_are_consistent(program);
    assert(compatible(reached(program).borrows[a], reached(program).borrows[b]));
}

/// Validity of references: in every state that a pass reaches, an active
/// borrow targets a binding that still holds its value.
pub proof fn active_borrow_targets_owned_binding(program: Seq<Operation>, r: int)
    requires
        program.len() <= usize::MAX,
        0 <= r < reached(program).borrows.len(),
        reached(program).borrows[r].active,
    ensures
        reached(program).borrows[r].target < reached(program).bindings.len(),
        reached(program).bindings[reached(program).borrows[r].target as int].state is Owned,
{
    reachable_states_are_consistent(program);
    assert(reached(program).borrow_valid(reached(program).borrows[r]));
    assert(reached(program).borrow_placed(reached(program).borrows[r]));
}

/// Only `bind`, `move` and `exit_scope` touch the ownership table.
pub proof fn other_operations_leave_bindings(s: State, op: Operation)
    requires
        !(op is Bind),
        !(op is Move),
        !(op is ExitScope),
    ensures
        s.step(op).bindings == s.bindings,
{
}

/// One operation leaves every binding record as it is, but for its state,
/// which stays or leaves `Owned`.
pub proof fn step_moves_states_forward(s: State, op: Operation, b: int)
    requires
        s.wf(),
        0 <= b < s.bindings.len(),
    ensures
        b < s.step(op).bindings.len(),
        s.step(op).bindings[b].name == s.bindings[b].name,
        s.step(op).bindings[b].category == s.bindings[b].category,
        s.step(op).bindings[b].scope_id == s.bindings[b].scope_id,
        s.bindings[b].state.may_become(s.step(op).bindings[b].state),
{
    if !s.halted {
        match op {
            Operation::Bind { name, category } => {
                assert(s.bind(name, category).bindings[b] == s.bindings[b]);
            },
            Operation::Move { src, dst } => {
                s.lemma_access_sound(src);
                match s.access(src) {
                    Ok(i) => {
                        let bound = s.bind(dst, s.bindings[i as int].category);
                        assert(bound.bindings[b] == s.bindings[b]);
                    },
                    Err(_) => {},
                }
            },
            Operation::ExitScope => {
                if s.scopes.can_exit() {
                    assert(s.exit_scope().bindings[b] == s.dropped_in(s.current())[b]);
                }
            },
            _ => {
                other_operations_leave_bindings(s, op);
            },
        }
    }
}

/// Monotonicity: between any two points of a pass, the state of a binding
/// only moves forward, from `Owned` to `Moved` or to `Dropped`; it never
/// reverts, and a binding that was moved or dropped stays so. Here the
/// earlier point is after `n` operations, the later one at the end.
pub proof fn binding_state_moves_forward(program: Seq<Operation>, n: int, b: int)
    requires
        program.len() <= usize::MAX,
        0 <= n <= program.len(),
        0 <= b < reached(program.take(n)).bindings.len(),
    ensures
        b < reached(program).bindings.len(),
        reached(program).bindings[b].name == reached(program.take(n)).bindings[b].name,
        reached(program).bindings[b].category == reached(program.take(n)).bindings[b].category,
        reached(program).bindings[b].scope_id == reached(program.take(n)).bindings[b].scope_id,
        reached(program.take(n)).bindings[b].state.may_become(reached(program).bindings[b].state),
    decreases program.len(),
{
    if n == program.len() {
        assert(program.take(n) =~= program);
    } else {
        let shorter = program.drop_last();
        assert(shorter.take(n) =~= program.take(n));
        binding_state_moves_forward(shorter, n, b);
        reachable_states_are_consistent(shorter);
        step_moves_states_forward(reached(shorter), program.last(), b);
    }
}

/// Destruction order: leaving a scope drops exactly the bindings that the
/// scope introduced and that still hold their value, each once, in the
/// reverse of their creation order; every other binding is left as it is.
pub proof fn scope_exit_drops_in_reverse(s: State)
    requires
        s.wf(),
        !s.halted,
        s.scopes.can_exit(),
    ensures
        strictly_decreasing(s.drop_order()),
        forall|b: BindingId| s.drop_order().contains(b) ==> b < s.bindings.len(),
        forall|b: int|
            0 <= b < s.bindings.len() ==> (s.drop_order().contains(b as usize) <==> (
            #[trigger] s.bindings[b]).scope_id == s.current() && s.bindings[b].state is Owned),
        s.step(Operation::ExitScope).bindings == with_dropped(s.bindings, s.drop_order()),
{
    s.lemma_drop_order();
    s.lemma_dropped_in_scope();
    let d = s.drop_order();
    assert forall|b: BindingId| d.contains(b) implies b < s.bindings.len() by {
        let k = choose|k: int| 0 <= k < d.len() && d[k] == b;
        assert(s.listed_by(s.current() as int, d[k]));
    }
    assert forall|b: int| 0 <= b < s.bindings.len() implies (d.contains(b as usize) <==> (
    #[trigger] s.bindings[b]).scope_id == s.current() && s.bindings[b].state is Owned) by {
        if d.contains(b as usize) {
            let k = choose|k: int| 0 <= k < d.len() && d[k] == b as usize;
            assert(s.listed_by(s.current() as int, d[k]));
        }
    }
}

/// Dangling references: leaving a scope reports a dangling reference for
/// each binding that it destroys while a returned borrow of the scope targets
/// it, and nothing else. A returned borrow of a binding that an outer scope
/// introduced is therefore not reported.
pub proof fn scope_exit_reports_dangling_only(s: State)
    requires
        s.wf(),
    ensures
        s.exit_reports().len() <= s.drop_order().len(),
        forall|k: int|
            0 <= k < s.exit_reports().len() ==> {
                let report = #[trigger] s.exit_reports()[k];
                &&& report.kind is DanglingReference
                &&& report.scope_id == s.current()
                &&& exists|b: BindingId|
                    s.drop_order().contains(b) && escapes(s.borrows, b, s.current())
                        && report.binding == Some(s.bindings[b as int].name)
            },
        (forall|r: int|
            0 <= r < s.borrows.len() && (#[trigger] s.borrows[r]).active && s.borrows[r].returned
                && s.borrows[r].owning_scope_id == s.current()
                ==> s.bindings[s.borrows[r].target as int].scope_id != s.current())
            ==> s.exit_reports() == Seq::<Diagnostic>::empty(),
{
    let d = s.drop_order();
    let escaping = d.filter(s.is_dangling());
    let reports = s.exit_reports();
    d.lemma_filter_len(s.is_dangling());
    assert forall|k: int| 0 <= k < reports.len() implies {
        let report = #[trigger] reports[k];
        &&& report.kind is DanglingReference
        &&& report.scope_id == s.current()
        &&& exists|b: BindingId|
            d.contains(b) && escapes(s.borrows, b, s.current()) && report.binding == Some(
                s.bindings[b as int].name,
            )
    } by {
        let b = escaping[k];
        d.lemma_filter_pred(s.is_dangling(), k);
        assert(escaping.contains(b));
        d.lemma_filter_contains_rev(s.is_dangling(), b);
    }
    if forall|r: int|
        0 <= r < s.borrows.len() && (#[trigger] s.borrows[r]).active && s.borrows[r].returned
            && s.borrows[r].owning_scope_id == s.current()
            ==> s.bindings[s.borrows[r].target as int].scope_id != s.current() {
        s.lemma_drop_order();
        if escaping.len() > 0 {
            let b = escaping[0];
            d.lemma_filter_pred(s.is_dangling(), 0);
            assert(escaping.contains(b));
            d.lemma_filter_contains_rev(s.is_dangling(), b);
            let k = choose|k: int| 0 <= k < d.len() && d[k] == b;
            assert(s.listed_by(s.current() as int, d[k]));
            let r = choose|r: int|
                0 <= r < s.borrows.len() && (#[trigger] s.borrows[r]).active
                    && s.borrows[r].returned && s.borrows[r].target == b
                    && s.borrows[r].owning_scope_id == s.current();
            assert(false);
        }
        assert(reports =~= Seq::<Diagnostic>::empty());
    }
}

/// Shadowing: a `bind` changes no record; it adds one, and from then on the
/// name refers to the new binding.
pub proof fn bound_name_refers_to_new_binding(s: State, name: Name, category: Category)
    requires
        s.wf(),
        !s.halted,
        s.bindings.len() <= usize::MAX,
    ensures
        s.step(Operation::Bind { name, category }).bindings == s.bindings.push(
            Binding { name, category, state: BindingState::Owned, scope_id: s.current() },
        ),
        s.step(Operation::Bind { name, category }).lookup(name) == Some(s.bindings.len() as usize),
{
    let t = s.step(Operation::Bind { name, category });
    s.lemma_bind_wf(name, category);
    t.lemma_lookup_youngest(name, s.bindings.len() as int, s.scopes.open.len() - 1);
}

/// Copies: a `move` never changes a copyable binding.
pub proof fn move_never_moves_a_copyable_binding(s: State, src: Name, dst: Name, b: int)
    requires
        s.wf(),
        0 <= b < s.bindings.len(),
        s.bindings[b].category is Copyable,
    ensures
        s.step(Operation::Move { src, dst }).bindings[b] == s.bindings[b],
{
    s.lemma_access_sound(src);
    if !s.halted {
        match s.access(src) {
            Ok(i) => {
                let bound = s.bind(dst, s.bindings[i as int].category);
                assert(bound.bindings[b] == s.bindings[b]);
            },
            Err(_) => {},
        }
    }
}

/// Copies: a `move` of a copyable source that is owned and not borrowed
/// changes no binding; the source stays owned, and only the destination is
/// new.
pub proof fn move_duplicates_a_copyable_source(s: State, src: Name, dst: Name)
    requires
        s.wf(),
        !s.halted,
        s.access(src) matches Ok(i) && s.bindings[i as int].category is Copyable && !has_active(
            s.borrows,
            i,
        ),
    ensures
        s.step(Operation::Move { src, dst }).bindings == s.bindings.push(
            Binding {
                name: dst,
                category: Category::Copyable,
                state: BindingState::Owned,
                scope_id: s.current(),
            },
        ),
        s.step(Operation::Move { src, dst }).diagnostics == s.diagnostics,
{
}

/// Copies: in every state that a pass reaches, no copyable binding is moved.
pub proof fn copyable_binding_is_never_moved(program: Seq<Operation>, b: int)
    requires
        program.len() <= usize::MAX,
        0 <= b < reached(program).bindings.len(),
        reached(program).bindings[b].category is Copyable,
    ensures
        !(reached(program).bindings[b].state is Moved),
{
    reachable_states_are_consistent(program);
    assert(reached(program).bindings[b].honours_copy());
}

/// Diagnostics are append-only: an operation never discards or changes one
/// that was emitted.
pub proof fn diagnostics_are_append_only(s: State, op: Operation)
    ensures
        s.diagnostics.is_prefix_of(s.step(op).diagnostics),
{
}

/// A longer program reports everything that its beginning reports, first.
pub proof fn verdict_extends(program: Seq<Operation>, n: int)
    requires
        0 <= n <= program.len(),
    ensures
        verdict(program.take(n)).is_prefix_of(verdict(program)),
    decreases program.len(),
{
    if n == program.len() {
        assert(program.take(n) =~= program);
    } else {
        let shorter = program.drop_last();
        assert(shorter.take(n) =~= program.take(n));
        verdict_extends(shorter, n);
        diagnostics_are_append_only(reached(shorter), program.last());
    }
}

/// Conservative rollback: an operation other than a scope exit reports at
/// most one violation, and one that reports leaves everything else as if it
/// had not occurred.
pub proof fn rejected_operation_changes_nothing(s: State, op: Operation)
    requires
        !(op is ExitScope),
    ensures
        s.step(op).diagnostics == s.diagnostics || (s.step(op).diagnostics.len()
            == s.diagnostics.len() + 1 && s.step(op) == State {
            diagnostics: s.step(op).diagnostics,
            ..s
        }),
{
}

} // verus!
