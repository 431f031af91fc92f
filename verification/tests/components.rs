use borrow_validator::borrow::BorrowTracker;
use borrow_validator::model::{Binding, BindingState, Borrow, BorrowKind, Category};
use borrow_validator::ownership::OwnershipTable;
use borrow_validator::scope::ScopeStack;

#[test]
fn scope_stack_starts_at_the_root() {
    let stack = ScopeStack::new();
    assert_eq!(stack.depth(), 1);
    assert_eq!(stack.len(), 1);
    assert_eq!(stack.current(), 0);
    assert!(stack.is_open(0));
    assert!(!stack.is_open(1));
    assert_eq!(stack.parent(0), None);
    assert_eq!(stack.introduced(0), &Vec::<usize>::new());
}

#[test]
fn scope_stack_is_the_path_to_the_current_scope() {
    let mut stack = ScopeStack::new();
    assert_eq!(stack.enter(), 1);
    assert_eq!(stack.enter(), 2);
    assert_eq!(stack.parent(2), Some(1));
    assert_eq!(stack.parent(1), Some(0));
    assert_eq!(stack.exit(), Some(2));
    assert_eq!(stack.enter(), 3);
    assert_eq!(stack.parent(3), Some(1));
    assert_eq!(stack.depth(), 3);
    assert_eq!(stack.len(), 4);
    assert!(stack.is_open(0) && stack.is_open(1) && stack.is_open(3));
    assert!(!stack.is_open(2));
}

#[test]
fn scope_stack_refuses_to_leave_the_root() {
    let mut stack = ScopeStack::new();
    assert_eq!(stack.exit(), None);
    assert_eq!(stack.depth(), 1);
    stack.enter();
    assert_eq!(stack.exit(), Some(1));
    assert_eq!(stack.exit(), None);
    assert_eq!(stack.current(), 0);
}

#[test]
fn scope_records_what_it_introduced_in_order() {
    let mut stack = ScopeStack::new();
    stack.record(0);
    stack.enter();
    stack.record(1);
    stack.record(2);
    stack.exit();
    stack.record(3);
    assert_eq!(stack.introduced(0), &vec![0, 3]);
    assert_eq!(stack.introduced(1), &vec![1, 2]);
}

#[test]
fn ownership_table_inserts_owned_bindings() {
    let mut table = OwnershipTable::new();
    assert_eq!(table.len(), 0);
    assert_eq!(table.insert(7, Category::Movable, 0), 0);
    assert_eq!(table.insert(8, Category::Copyable, 3), 1);
    assert_eq!(table.len(), 2);
    assert_eq!(
        table.get(1),
        Binding { name: 8, category: Category::Copyable, state: BindingState::Owned, scope_id: 3 }
    );
    table.set_state(0, BindingState::Moved);
    assert_eq!(
        table.get(0),
        Binding { name: 7, category: Category::Movable, state: BindingState::Moved, scope_id: 0 }
    );
    assert_eq!(table.get(1).state, BindingState::Owned);
}

#[test]
fn name_resolves_to_youngest_binding_in_scope() {
    let mut stack = ScopeStack::new();
    let mut table = OwnershipTable::new();
    table.insert(7, Category::Movable, 0);
    stack.enter();
    table.insert(7, Category::Movable, 1);
    table.insert(9, Category::Movable, 1);
    assert_eq!(table.resolve(7, &stack), Some(1));
    assert_eq!(table.resolve(9, &stack), Some(2));
    assert_eq!(table.resolve(5, &stack), None);
    stack.exit();
    assert_eq!(table.resolve(7, &stack), Some(0));
    assert_eq!(table.resolve(9, &stack), Some(2));
}

#[test]
fn name_out_of_scope_resolves_to_its_youngest_binding() {
    let mut stack = ScopeStack::new();
    let mut table = OwnershipTable::new();
    stack.enter();
    table.insert(7, Category::Movable, 1);
    stack.exit();
    stack.enter();
    table.insert(7, Category::Movable, 2);
    stack.exit();
    assert_eq!(table.resolve(7, &stack), Some(1));
}

#[test]
fn tracker_grants_and_refuses_by_the_aliasing_rule() {
    let mut tracker = BorrowTracker::new();
    assert!(!tracker.has_active(0));
    assert_eq!(tracker.request(0, BorrowKind::Shared, 0), Some(0));
    assert_eq!(tracker.request(0, BorrowKind::Shared, 1), Some(1));
    assert!(tracker.has_active(0));
    assert!(tracker.conflicts(0, BorrowKind::Exclusive));
    assert!(!tracker.conflicts(0, BorrowKind::Shared));
    assert!(!tracker.conflicts(1, BorrowKind::Exclusive));
    assert_eq!(tracker.request(0, BorrowKind::Exclusive, 0), None);
    assert_eq!(tracker.len(), 2);
    assert_eq!(tracker.request(1, BorrowKind::Exclusive, 1), Some(2));
    assert!(tracker.conflicts(1, BorrowKind::Shared));
    assert_eq!(tracker.request(1, BorrowKind::Shared, 1), None);
    assert_eq!(
        tracker.get(2),
        Some(Borrow {
            target: 1,
            kind: BorrowKind::Exclusive,
            owning_scope_id: 1,
            active: true,
            returned: false
        })
    );
    assert_eq!(tracker.get(3), None);
}

#[test]
fn tracker_ends_the_borrows_of_a_scope() {
    let mut tracker = BorrowTracker::new();
    tracker.request(0, BorrowKind::Shared, 0);
    tracker.request(0, BorrowKind::Shared, 1);
    tracker.request(1, BorrowKind::Exclusive, 1);
    tracker.end_scope(1);
    assert!(tracker.get(0).unwrap().active);
    assert!(!tracker.get(1).unwrap().active);
    assert!(!tracker.get(2).unwrap().active);
    assert!(tracker.has_active(0));
    assert!(!tracker.has_active(1));
    tracker.end(0);
    assert!(!tracker.has_active(0));
}

#[test]
fn tracker_sees_an_escaping_borrow_only_while_it_is_active() {
    let mut tracker = BorrowTracker::new();
    tracker.request(4, BorrowKind::Shared, 2);
    assert!(!tracker.escapes(4, 2));
    tracker.mark_returned(0);
    assert!(tracker.escapes(4, 2));
    assert!(!tracker.escapes(4, 1));
    assert!(!tracker.escapes(3, 2));
    tracker.end(0);
    assert!(!tracker.escapes(4, 2));
    assert!(tracker.get(0).unwrap().returned);
}
