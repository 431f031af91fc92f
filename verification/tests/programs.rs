use borrow_validator::model::{
    BorrowKind, Category, Diagnostic, DiagnosticKind, Name, Operation, Subject,
};
use borrow_validator::validator::validate;

const X: Name = 1;
const Y: Name = 2;
const S: Name = 3;
const S2: Name = 4;

fn bind(name: Name, category: Category) -> Operation {
    Operation::Bind { name, category }
}

fn mv(src: Name, dst: Name) -> Operation {
    Operation::Move { src, dst }
}

fn borrow(name: Name, kind: BorrowKind) -> Operation {
    Operation::Borrow { name, kind }
}

fn use_name(name: Name) -> Operation {
    Operation::Use { subject: Subject::Binding(name) }
}

fn use_borrow(id: usize) -> Operation {
    Operation::Use { subject: Subject::Borrow(id) }
}

#[test]
fn copyable_source_stays_usable_after_move() {
    let program = vec![bind(X, Category::Copyable), mv(X, Y), use_name(X)];
    assert_eq!(validate(&program), vec![]);
}

#[test]
fn movable_source_is_invalid_after_move() {
    let program = vec![bind(S, Category::Movable), mv(S, S2), use_name(S)];
    assert_eq!(
        validate(&program),
        vec![Diagnostic { kind: DiagnosticKind::UseAfterMove, binding: Some(S), scope_id: 0 }]
    );
}

#[test]
fn two_shared_borrows_coexist() {
    let program = vec![
        bind(S, Category::Movable),
        borrow(S, BorrowKind::Shared),
        borrow(S, BorrowKind::Shared),
        use_borrow(0),
        use_borrow(1),
    ];
    assert_eq!(validate(&program), vec![]);
}

#[test]
fn shared_borrow_conflicts_with_active_exclusive() {
    let program = vec![
        bind(S, Category::Movable),
        borrow(S, BorrowKind::Exclusive),
        borrow(S, BorrowKind::Shared),
    ];
    assert_eq!(
        validate(&program),
        vec![Diagnostic {
            kind: DiagnosticKind::ConflictingBorrow,
            binding: Some(S),
            scope_id: 0
        }]
    );
}

#[test]
fn exclusive_borrows_in_sequence_across_a_scope() {
    let program = vec![
        bind(S, Category::Movable),
        Operation::EnterScope,
        borrow(S, BorrowKind::Exclusive),
        Operation::ExitScope,
        borrow(S, BorrowKind::Exclusive),
    ];
    assert_eq!(validate(&program), vec![]);
}

#[test]
fn returned_borrow_of_a_local_dangles() {
    let program = vec![
        Operation::EnterScope,
        bind(S, Category::Movable),
        borrow(S, BorrowKind::Shared),
        Operation::ReturnBorrow { borrow: 0 },
        Operation::ExitScope,
    ];
    assert_eq!(
        validate(&program),
        vec![Diagnostic {
            kind: DiagnosticKind::DanglingReference,
            binding: Some(S),
            scope_id: 1
        }]
    );
}

#[test]
fn returned_borrow_of_an_outer_binding_does_not_dangle() {
    let program = vec![
        bind(S, Category::Movable),
        Operation::EnterScope,
        borrow(S, BorrowKind::Shared),
        Operation::ReturnBorrow { borrow: 0 },
        Operation::ExitScope,
    ];
    assert_eq!(validate(&program), vec![]);
}

#[test]
fn empty_program_is_well_formed() {
    assert_eq!(validate(&[]), vec![]);
}
