use borrow_validator::lessons::{
    dangling_references, manual_slice, mutable_reference_restrictions, mutable_references,
    ownership_and_functions, ownership_rules, references, return_value_and_scope,
    stack_only_data_copy, string_slices, the_rules_of_references, variable_scope,
    variables_and_data_interacting_with_move, S, S1, S2, S3,
};
use borrow_validator::model::{BindingState, Diagnostic, DiagnosticKind, Name, Operation};
use borrow_validator::validator::{validate, Validator};

fn diag(kind: DiagnosticKind, binding: Name, scope_id: usize) -> Diagnostic {
    Diagnostic { kind, binding: Some(binding), scope_id }
}

#[test]
fn variable_scope_reports_use_outside_the_scope() {
    assert_eq!(
        validate(&variable_scope()),
        vec![diag(DiagnosticKind::UnknownBinding, S, 1), diag(DiagnosticKind::UseAfterDrop, S, 0)]
    );
}

#[test]
fn move_lesson_reports_the_moved_string() {
    assert_eq!(
        validate(&variables_and_data_interacting_with_move()),
        vec![diag(DiagnosticKind::UseAfterMove, S1, 0)]
    );
}

#[test]
fn copy_lesson_is_clean() {
    assert_eq!(validate(&stack_only_data_copy()), vec![]);
}

#[test]
fn ownership_rules_lesson_reports_both_violations() {
    assert_eq!(
        validate(&ownership_rules()),
        vec![diag(DiagnosticKind::UseAfterMove, S1, 1), diag(DiagnosticKind::UseAfterDrop, S2, 0)]
    );
}

#[test]
fn ownership_and_functions_lesson_reports_the_moved_argument() {
    assert_eq!(
        validate(&ownership_and_functions()),
        vec![diag(DiagnosticKind::UseAfterMove, S, 0)]
    );
}

#[test]
fn return_value_lesson_is_clean_and_drops_s3_then_s1() {
    let program = return_value_and_scope();
    assert_eq!(validate(&program), vec![]);
    assert_eq!(program.last(), Some(&Operation::ExitScope));
    let mut v = Validator::new();
    v.run(&program[..program.len() - 1]);
    let dropped = v.exit_scope();
    assert_eq!(dropped, vec![4, 1]);
    assert_eq!(v.binding(4).unwrap().name, S3);
    assert_eq!(v.binding(1).unwrap().name, S1);
    assert_eq!(v.binding(2).unwrap().state, BindingState::Moved);
}

#[test]
fn references_lesson_is_clean() {
    assert_eq!(validate(&references()), vec![]);
}

#[test]
fn mutable_references_lesson_is_clean() {
    assert_eq!(validate(&mutable_references()), vec![]);
}

#[test]
fn mutable_reference_restrictions_lesson_reports_the_second_exclusive() {
    assert_eq!(
        validate(&mutable_reference_restrictions()),
        vec![diag(DiagnosticKind::ConflictingBorrow, S, 0)]
    );
}

#[test]
fn dangling_references_lesson_reports_the_local() {
    assert_eq!(
        validate(&dangling_references()),
        vec![diag(DiagnosticKind::DanglingReference, S, 1)]
    );
}

#[test]
fn rules_of_references_lesson_reports_three_violations() {
    assert_eq!(
        validate(&the_rules_of_references()),
        vec![
            diag(DiagnosticKind::ConflictingBorrow, S, 0),
            diag(DiagnosticKind::ConflictingBorrow, S, 0),
            diag(DiagnosticKind::UseAfterEndOfBorrow, S, 0),
        ]
    );
}

#[test]
fn manual_slice_lesson_reports_the_clear() {
    assert_eq!(validate(&manual_slice()), vec![diag(DiagnosticKind::ConflictingBorrow, S, 0)]);
}

#[test]
fn string_slices_lesson_is_clean() {
    let program = string_slices();
    assert_eq!(program.len(), 5);
    assert_eq!(validate(&program), vec![]);
}
