use borrow_validator::model::{
    Binding, BindingState, Borrow, BorrowKind, Category, Diagnostic, DiagnosticKind, Name,
    Operation, Subject,
};
use borrow_validator::validator::{validate, Validator};

const A: Name = 10;
const B: Name = 11;
const C: Name = 12;

fn diag(kind: DiagnosticKind, binding: Option<Name>, scope_id: usize) -> Diagnostic {
    Diagnostic { kind, binding, scope_id }
}

#[test]
fn new_validator_is_clean_and_at_the_root() {
    let v = Validator::new();
    assert!(v.is_clean());
    assert!(!v.is_halted());
    assert_eq!(v.depth(), 1);
    assert_eq!(v.current_scope(), 0);
    assert_eq!(v.binding(0), None);
    assert_eq!(v.borrow_record(0), None);
    assert_eq!(v.lookup(A), None);
}

#[test]
fn bind_creates_an_owned_binding_in_the_current_scope() {
    let mut v = Validator::new();
    v.enter_scope();
    v.bind(A, Category::Movable);
    assert_eq!(v.lookup(A), Some(0));
    assert_eq!(
        v.binding(0),
        Some(Binding {
            name: A,
            category: Category::Movable,
            state: BindingState::Owned,
            scope_id: 1
        })
    );
    assert!(v.is_clean());
}

#[test]
fn use_of_unknown_name_is_reported() {
    let mut v = Validator::new();
    v.use_binding(A);
    assert_eq!(v.diagnostics(), &vec![diag(DiagnosticKind::UnknownBinding, Some(A), 0)]);
}

#[test]
fn move_of_unknown_name_is_reported_and_binds_nothing() {
    let mut v = Validator::new();
    v.move_binding(A, B);
    assert_eq!(v.diagnostics(), &vec![diag(DiagnosticKind::UnknownBinding, Some(A), 0)]);
    assert_eq!(v.lookup(B), None);
    assert_eq!(v.binding(0), None);
}

#[test]
fn borrow_of_unknown_name_is_reported() {
    let mut v = Validator::new();
    assert_eq!(v.borrow(A, BorrowKind::Shared), None);
    assert_eq!(v.diagnostics(), &vec![diag(DiagnosticKind::UnknownBinding, Some(A), 0)]);
    assert_eq!(v.borrow_record(0), None);
}

#[test]
fn move_marks_a_movable_source_moved_and_binds_the_destination() {
    let mut v = Validator::new();
    v.bind(A, Category::Movable);
    v.move_binding(A, B);
    assert!(v.is_clean());
    assert_eq!(v.binding(0).unwrap().state, BindingState::Moved);
    assert_eq!(
        v.binding(1),
        Some(Binding {
            name: B,
            category: Category::Movable,
            state: BindingState::Owned,
            scope_id: 0
        })
    );
}

#[test]
fn move_leaves_a_copyable_source_owned() {
    let mut v = Validator::new();
    v.bind(A, Category::Copyable);
    v.move_binding(A, B);
    assert!(v.is_clean());
    assert_eq!(v.binding(0).unwrap().state, BindingState::Owned);
    assert_eq!(v.binding(1).unwrap().state, BindingState::Owned);
    assert_eq!(v.binding(1).unwrap().category, Category::Copyable);
}

#[test]
fn second_move_of_a_moved_binding_is_use_after_move() {
    let mut v = Validator::new();
    v.bind(A, Category::Movable);
    v.move_binding(A, B);
    v.move_binding(A, C);
    assert_eq!(v.diagnostics(), &vec![diag(DiagnosticKind::UseAfterMove, Some(A), 0)]);
    assert_eq!(v.lookup(C), None);
}

#[test]
fn borrow_of_a_moved_binding_is_use_after_move() {
    let mut v = Validator::new();
    v.bind(A, Category::Movable);
    v.move_binding(A, B);
    assert_eq!(v.borrow(A, BorrowKind::Shared), None);
    assert_eq!(v.diagnostics(), &vec![diag(DiagnosticKind::UseAfterMove, Some(A), 0)]);
}

#[test]
fn use_after_scope_exit_is_use_after_drop() {
    let mut v = Validator::new();
    v.enter_scope();
    v.bind(A, Category::Movable);
    let dropped = v.exit_scope();
    assert_eq!(dropped, vec![0]);
    assert_eq!(v.binding(0).unwrap().state, BindingState::Dropped);
    v.use_binding(A);
    v.move_binding(A, B);
    assert_eq!(v.borrow(A, BorrowKind::Exclusive), None);
    assert_eq!(
        v.diagnostics(),
        &vec![
            diag(DiagnosticKind::UseAfterDrop, Some(A), 0),
            diag(DiagnosticKind::UseAfterDrop, Some(A), 0),
            diag(DiagnosticKind::UseAfterDrop, Some(A), 0),
        ]
    );
}

#[test]
fn move_while_borrowed_is_rejected_and_source_stays_owned() {
    let mut v = Validator::new();
    v.bind(A, Category::Movable);
    assert_eq!(v.borrow(A, BorrowKind::Shared), Some(0));
    v.move_binding(A, B);
    assert_eq!(v.diagnostics(), &vec![diag(DiagnosticKind::MoveWhileBorrowed, Some(A), 0)]);
    assert_eq!(v.binding(0).unwrap().state, BindingState::Owned);
    assert_eq!(v.lookup(B), None);
    v.end_borrow(0);
    v.move_binding(A, B);
    assert_eq!(v.diagnostics().len(), 1);
    assert_eq!(v.binding(0).unwrap().state, BindingState::Moved);
}

#[test]
fn exclusive_request_conflicts_with_shared_and_with_exclusive() {
    let mut v = Validator::new();
    v.bind(A, Category::Movable);
    assert_eq!(v.borrow(A, BorrowKind::Shared), Some(0));
    assert_eq!(v.borrow(A, BorrowKind::Exclusive), None);
    v.end_borrow(0);
    assert_eq!(v.borrow(A, BorrowKind::Exclusive), Some(1));
    assert_eq!(v.borrow(A, BorrowKind::Exclusive), None);
    assert_eq!(v.borrow(A, BorrowKind::Shared), None);
    assert_eq!(
        v.diagnostics(),
        &vec![
            diag(DiagnosticKind::ConflictingBorrow, Some(A), 0),
            diag(DiagnosticKind::ConflictingBorrow, Some(A), 0),
            diag(DiagnosticKind::ConflictingBorrow, Some(A), 0),
        ]
    );
}

#[test]
fn borrows_of_different_targets_do_not_conflict() {
    let mut v = Validator::new();
    v.bind(A, Category::Movable);
    v.bind(B, Category::Movable);
    assert_eq!(v.borrow(A, BorrowKind::Exclusive), Some(0));
    assert_eq!(v.borrow(B, BorrowKind::Exclusive), Some(1));
    assert!(v.is_clean());
}

#[test]
fn borrow_record_holds_target_kind_and_scope() {
    let mut v = Validator::new();
    v.bind(A, Category::Movable);
    v.bind(B, Category::Movable);
    v.enter_scope();
    assert_eq!(v.borrow(B, BorrowKind::Exclusive), Some(0));
    assert_eq!(
        v.borrow_record(0),
        Some(Borrow {
            target: 1,
            kind: BorrowKind::Exclusive,
            owning_scope_id: 1,
            active: true,
            returned: false
        })
    );
    v.return_borrow(0);
    assert!(v.borrow_record(0).unwrap().returned);
    v.exit_scope();
    assert!(!v.borrow_record(0).unwrap().active);
    assert!(v.is_clean());
}

#[test]
fn use_of_an_ended_borrow_is_reported() {
    let mut v = Validator::new();
    v.bind(A, Category::Movable);
    assert_eq!(v.borrow(A, BorrowKind::Shared), Some(0));
    v.use_borrow(0);
    assert!(v.is_clean());
    v.end_borrow(0);
    v.use_borrow(0);
    v.return_borrow(0);
    assert_eq!(
        v.diagnostics(),
        &vec![
            diag(DiagnosticKind::UseAfterEndOfBorrow, Some(A), 0),
            diag(DiagnosticKind::UseAfterEndOfBorrow, Some(A), 0),
        ]
    );
}

#[test]
fn use_of_a_borrow_ended_by_its_scope_is_reported() {
    let mut v = Validator::new();
    v.bind(A, Category::Movable);
    v.enter_scope();
    assert_eq!(v.borrow(A, BorrowKind::Exclusive), Some(0));
    v.exit_scope();
    v.use_borrow(0);
    assert_eq!(v.diagnostics(), &vec![diag(DiagnosticKind::UseAfterEndOfBorrow, Some(A), 0)]);
}

#[test]
fn ending_a_borrow_twice_changes_nothing() {
    let mut v = Validator::new();
    v.bind(A, Category::Movable);
    v.borrow(A, BorrowKind::Shared);
    v.end_borrow(0);
    let once = v.borrow_record(0);
    v.end_borrow(0);
    assert_eq!(v.borrow_record(0), once);
    assert!(v.is_clean());
}

#[test]
fn unissued_borrow_id_is_reported_without_a_name() {
    let mut v = Validator::new();
    v.use_borrow(0);
    v.end_borrow(3);
    v.return_borrow(7);
    assert_eq!(
        v.diagnostics(),
        &vec![
            diag(DiagnosticKind::UnknownBinding, None, 0),
            diag(DiagnosticKind::UnknownBinding, None, 0),
            diag(DiagnosticKind::UnknownBinding, None, 0),
        ]
    );
}

#[test]
fn rejected_borrow_issues_no_id() {
    let mut v = Validator::new();
    v.bind(A, Category::Movable);
    assert_eq!(v.borrow(A, BorrowKind::Exclusive), Some(0));
    assert_eq!(v.borrow(A, BorrowKind::Shared), None);
    v.end_borrow(0);
    assert_eq!(v.borrow(A, BorrowKind::Shared), Some(1));
}

#[test]
fn exit_of_the_root_scope_halts_the_pass() {
    let mut v = Validator::new();
    v.bind(A, Category::Movable);
    let dropped = v.exit_scope();
    assert_eq!(dropped, Vec::<usize>::new());
    assert!(v.is_halted());
    assert_eq!(v.diagnostics(), &vec![diag(DiagnosticKind::EmptyScopeStack, None, 0)]);
    assert_eq!(v.binding(0).unwrap().state, BindingState::Owned);
    v.use_binding(B);
    v.bind(B, Category::Movable);
    v.enter_scope();
    assert_eq!(v.borrow(A, BorrowKind::Shared), None);
    assert_eq!(v.exit_scope(), Vec::<usize>::new());
    assert_eq!(v.diagnostics().len(), 1);
    assert_eq!(v.depth(), 1);
    assert_eq!(v.binding(1), None);
}

#[test]
fn unbalanced_exit_ends_the_pass_early() {
    let program = vec![
        Operation::EnterScope,
        Operation::ExitScope,
        Operation::ExitScope,
        Operation::Use { subject: Subject::Binding(A) },
        Operation::ExitScope,
    ];
    assert_eq!(validate(&program), vec![diag(DiagnosticKind::EmptyScopeStack, None, 0)]);
}

#[test]
fn scope_exit_drops_owned_bindings_youngest_first() {
    let mut v = Validator::new();
    v.bind(A, Category::Movable);
    v.enter_scope();
    v.bind(B, Category::Movable);
    v.bind(C, Category::Copyable);
    v.bind(A, Category::Movable);
    v.move_binding(B, 99);
    let dropped = v.exit_scope();
    assert_eq!(dropped, vec![4, 3, 2]);
    assert_eq!(v.binding(0).unwrap().state, BindingState::Owned);
    assert_eq!(v.binding(1).unwrap().state, BindingState::Moved);
    assert_eq!(v.binding(2).unwrap().state, BindingState::Dropped);
    assert_eq!(v.binding(3).unwrap().state, BindingState::Dropped);
    assert_eq!(v.binding(4).unwrap().state, BindingState::Dropped);
    assert!(v.is_clean());
}

#[test]
fn inner_binding_shadows_outer_until_its_scope_ends() {
    let mut v = Validator::new();
    v.bind(A, Category::Movable);
    v.enter_scope();
    v.bind(A, Category::Movable);
    assert_eq!(v.lookup(A), Some(1));
    v.move_binding(A, B);
    v.use_binding(A);
    v.exit_scope();
    assert_eq!(v.lookup(A), Some(0));
    v.use_binding(A);
    assert_eq!(v.diagnostics(), &vec![diag(DiagnosticKind::UseAfterMove, Some(A), 1)]);
}

#[test]
fn rebinding_a_moved_name_creates_a_new_record() {
    let mut v = Validator::new();
    v.bind(A, Category::Movable);
    v.move_binding(A, B);
    v.bind(A, Category::Movable);
    v.use_binding(A);
    assert!(v.is_clean());
    assert_eq!(v.lookup(A), Some(2));
    assert_eq!(v.binding(0).unwrap().state, BindingState::Moved);
    assert_eq!(v.binding(2).unwrap().state, BindingState::Owned);
}

#[test]
fn every_dangling_binding_is_reported_in_drop_order() {
    let mut v = Validator::new();
    v.enter_scope();
    v.bind(A, Category::Movable);
    v.bind(B, Category::Movable);
    v.bind(C, Category::Movable);
    assert_eq!(v.borrow(A, BorrowKind::Shared), Some(0));
    assert_eq!(v.borrow(C, BorrowKind::Exclusive), Some(1));
    assert_eq!(v.borrow(B, BorrowKind::Shared), Some(2));
    v.return_borrow(0);
    v.return_borrow(1);
    let dropped = v.exit_scope();
    assert_eq!(dropped, vec![2, 1, 0]);
    assert_eq!(
        v.diagnostics(),
        &vec![
            diag(DiagnosticKind::DanglingReference, Some(C), 1),
            diag(DiagnosticKind::DanglingReference, Some(A), 1),
        ]
    );
}

#[test]
fn returned_borrow_that_was_ended_does_not_dangle() {
    let mut v = Validator::new();
    v.enter_scope();
    v.bind(A, Category::Movable);
    v.borrow(A, BorrowKind::Shared);
    v.return_borrow(0);
    v.end_borrow(0);
    v.exit_scope();
    assert!(v.is_clean());
}

#[test]
fn diagnostic_carries_the_scope_of_detection() {
    let mut v = Validator::new();
    v.enter_scope();
    v.enter_scope();
    v.use_binding(A);
    v.exit_scope();
    v.use_binding(A);
    assert_eq!(
        v.diagnostics(),
        &vec![
            diag(DiagnosticKind::UnknownBinding, Some(A), 2),
            diag(DiagnosticKind::UnknownBinding, Some(A), 1),
        ]
    );
}

#[test]
fn scope_ids_are_never_reused() {
    let mut v = Validator::new();
    v.enter_scope();
    assert_eq!(v.current_scope(), 1);
    v.exit_scope();
    v.enter_scope();
    assert_eq!(v.current_scope(), 2);
    v.enter_scope();
    assert_eq!(v.current_scope(), 3);
    assert_eq!(v.depth(), 3);
}

#[test]
fn analysis_continues_after_a_violation() {
    let program = vec![
        Operation::Use { subject: Subject::Binding(A) },
        Operation::Bind { name: A, category: Category::Movable },
        Operation::Move { src: A, dst: B },
        Operation::Use { subject: Subject::Binding(A) },
        Operation::Borrow { name: B, kind: BorrowKind::Exclusive },
        Operation::Borrow { name: B, kind: BorrowKind::Exclusive },
        Operation::Move { src: B, dst: C },
    ];
    assert_eq!(
        validate(&program),
        vec![
            diag(DiagnosticKind::UnknownBinding, Some(A), 0),
            diag(DiagnosticKind::UseAfterMove, Some(A), 0),
            diag(DiagnosticKind::ConflictingBorrow, Some(B), 0),
            diag(DiagnosticKind::MoveWhileBorrowed, Some(B), 0),
        ]
    );
}

#[test]
fn apply_and_run_agree_with_validate() {
    let program = vec![
        Operation::Bind { name: A, category: Category::Movable },
        Operation::EnterScope,
        Operation::Borrow { name: A, kind: BorrowKind::Shared },
        Operation::Move { src: A, dst: B },
        Operation::ExitScope,
        Operation::Move { src: A, dst: B },
        Operation::Use { subject: Subject::Binding(A) },
    ];
    let mut stepwise = Validator::new();
    for op in &program {
        stepwise.apply(*op);
    }
    let mut whole = Validator::new();
    whole.run(&program);
    let expected = vec![
        diag(DiagnosticKind::MoveWhileBorrowed, Some(A), 1),
        diag(DiagnosticKind::UseAfterMove, Some(A), 0),
    ];
    assert_eq!(stepwise.diagnostics(), &expected);
    assert_eq!(whole.into_diagnostics(), expected);
    assert_eq!(validate(&program), expected);
}

#[test]
fn each_kind_has_its_message() {
    let text = |kind| diag(kind, None, 0).message();
    assert_eq!(text(DiagnosticKind::UnknownBinding), "reference to a name that is not bound");
    assert_eq!(text(DiagnosticKind::UseAfterMove), "use of a binding whose value was moved");
    assert_eq!(text(DiagnosticKind::UseAfterDrop), "use of a binding whose scope has ended");
    assert_eq!(text(DiagnosticKind::MoveWhileBorrowed), "move of a binding that is borrowed");
    assert_eq!(text(DiagnosticKind::ConflictingBorrow), "borrow conflicts with an active borrow");
    assert_eq!(text(DiagnosticKind::UseAfterEndOfBorrow), "use of a borrow that has ended");
    assert_eq!(text(DiagnosticKind::DanglingReference), "returned borrow outlives its target");
    assert_eq!(text(DiagnosticKind::EmptyScopeStack), "scope exit without an open scope");
}

#[test]
fn binding_state_helpers() {
    assert!(BindingState::Owned.is_owned());
    assert!(!BindingState::Moved.is_owned());
    assert!(!BindingState::Dropped.is_owned());
    assert_eq!(BindingState::Moved.violation_kind(), DiagnosticKind::UseAfterMove);
    assert_eq!(BindingState::Dropped.violation_kind(), DiagnosticKind::UseAfterDrop);
}
