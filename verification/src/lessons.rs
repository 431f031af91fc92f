//! Worked examples: the situations by which ownership and borrowing are
//! taught, each as the program that stands for it, with the diagnostics that
//! the validator reports for it.
//!
//! The function of a callee is modelled as a nested scope; where a callee
//! hands a value back, its frame is not a scope of the model, since a value
//! that is handed back outlives the frame.

use crate::borrow::conflicts;
use crate::model::{
    BorrowKind, Category, Diagnostic, DiagnosticKind, Name, Operation, Subject,
};
use crate::ownership::lemma_resolve_unbound;
use crate::state::{lemma_trace, reached, verdict, State};
use vstd::prelude::*;

verus! {

/// The identifier `s` of the examples.
pub const S: Name = 0;

/// The identifier `s1`.
pub const S1: Name = 1;

/// The identifier `s2`.
pub const S2: Name = 2;

/// The identifier `s3`.
pub const S3: Name = 3;

/// The identifier `x`.
pub const X: Name = 4;

/// The identifier `y`.
pub const Y: Name = 5;

/// The identifier `some_string`, a parameter and a local of callees.
pub const SOME_STRING: Name = 6;

/// The identifier `some_integer`, a parameter of a callee.
pub const SOME_INTEGER: Name = 7;

/// The identifier `a_string`, a parameter of a callee.
pub const A_STRING: Name = 8;

/// The identifier `len`.
pub const LEN: Name = 9;

/// A scope in which a name is bound, read, and left behind: the name is
/// unknown before its binding, readable in its scope, and dropped after it.
pub fn variable_scope() -> (program: Vec<Operation>)
    ensures
        program@ == seq![
            Operation::EnterScope,
            Operation::Use { subject: Subject::Binding(S) },
            Operation::Bind { name: S, category: Category::Copyable },
            Operation::Use { subject: Subject::Binding(S) },
            Operation::ExitScope,
            Operation::Use { subject: Subject::Binding(S) },
        ],
        verdict(program@) == seq![
            Diagnostic { kind: DiagnosticKind::UnknownBinding, binding: Some(S), scope_id: 1 },
            Diagnostic { kind: DiagnosticKind::UseAfterDrop, binding: Some(S), scope_id: 0 },
        ],
{
    let program = vec![
        Operation::EnterScope,
        Operation::Use { subject: Subject::Binding(S) },
        Operation::Bind { name: S, category: Category::Copyable },
        Operation::Use { subject: Subject::Binding(S) },
        Operation::ExitScope,
        Operation::Use { subject: Subject::Binding(S) },
    ];
    proof {
        let p = program@;
        let s0 = State::initial();
        let s1 = s0.step(p[0]);
        let s2 = s1.step(p[1]);
        let s3 = s2.step(p[2]);
        let s4 = s3.step(p[3]);
        let s5 = s4.step(p[4]);
        let s6 = s5.step(p[5]);
        lemma_trace(s0, p, seq![s0, s1, s2, s3, s4, s5, s6]);
        assert(s1.scopes.open =~= seq![0usize, 1usize]);
        lemma_resolve_unbound(s1.bindings, s1.scopes.open, S);
        s3.lemma_lookup_youngest(S, 0, 1);
        s4.lemma_exit_reports_nothing();
        assert(s5.scopes.open =~= seq![0usize]);
        s5.lemma_lookup_out_of_scope(S, 0);
        assert(s6.diagnostics =~= seq![
            Diagnostic { kind: DiagnosticKind::UnknownBinding, binding: Some(S), scope_id: 1 },
            Diagnostic { kind: DiagnosticKind::UseAfterDrop, binding: Some(S), scope_id: 0 },
        ]);
    }
    program
}

/// Assigning one variable to another: an integer is copied, a string is
/// moved, and reading the string through its old name afterwards is the one
/// violation.
pub fn variables_and_data_interacting_with_move() -> (program: Vec<Operation>)
    ensures
        program@ == seq![
            Operation::Bind { name: X, category: Category::Copyable },
            Operation::Move { src: X, dst: Y },
            Operation::Bind { name: S1, category: Category::Movable },
            Operation::Move { src: S1, dst: S2 },
            Operation::Use { subject: Subject::Binding(S1) },
        ],
        verdict(program@) == seq![
            Diagnostic { kind: DiagnosticKind::UseAfterMove, binding: Some(S1), scope_id: 0 },
        ],
{
    let program = vec![
        Operation::Bind { name: X, category: Category::Copyable },
        Operation::Move { src: X, dst: Y },
        Operation::Bind { name: S1, category: Category::Movable },
        Operation::Move { src: S1, dst: S2 },
        Operation::Use { subject: Subject::Binding(S1) },
    ];
    proof {
        let p = program@;
        let s0 = State::initial();
        let s1 = s0.step(p[0]);
        let s2 = s1.step(p[1]);
        let s3 = s2.step(p[2]);
        let s4 = s3.step(p[3]);
        let s5 = s4.step(p[4]);
        lemma_trace(s0, p, seq![s0, s1, s2, s3, s4, s5]);
        s1.lemma_lookup_youngest(X, 0, 0);
        s3.lemma_lookup_youngest(S1, 2, 0);
        s4.lemma_lookup_youngest(S1, 2, 0);
        assert(s5.diagnostics =~= seq![
            Diagnostic { kind: DiagnosticKind::UseAfterMove, binding: Some(S1), scope_id: 0 },
        ]);
    }
    program
}

/// Data that lives on the stack alone is copied: after `let y = x`, both
/// names can be read.
pub fn stack_only_data_copy() -> (program: Vec<Operation>)
    ensures
        program@ == seq![
            Operation::Bind { name: X, category: Category::Copyable },
            Operation::Move { src: X, dst: Y },
            Operation::Use { subject: Subject::Binding(X) },
            Operation::Use { subject: Subject::Binding(Y) },
        ],
        verdict(program@) == Seq::<Diagnostic>::empty(),
{
    let program = vec![
        Operation::Bind { name: X, category: Category::Copyable },
        Operation::Move { src: X, dst: Y },
        Operation::Use { subject: Subject::Binding(X) },
        Operation::Use { subject: Subject::Binding(Y) },
    ];
    proof {
        let p = program@;
        let s0 = State::initial();
        let s1 = s0.step(p[0]);
        let s2 = s1.step(p[1]);
        let s3 = s2.step(p[2]);
        let s4 = s3.step(p[3]);
        lemma_trace(s0, p, seq![s0, s1, s2, s3, s4]);
        s1.lemma_lookup_youngest(X, 0, 0);
        s2.lemma_lookup_youngest(X, 0, 0);
        s3.lemma_lookup_youngest(Y, 1, 0);
        assert(s4.diagnostics =~= Seq::<Diagnostic>::empty());
    }
    program
}

/// The rules of ownership: a value has one owner at a time, and it is dropped
/// when its owner goes out of scope. Reading the old owner after a move, and
/// the new owner after its scope, are the two violations.
pub fn ownership_rules() -> (program: Vec<Operation>)
    ensures
        program@ == seq![
            Operation::EnterScope,
            Operation::Bind { name: S1, category: Category::Movable },
            Operation::Move { src: S1, dst: S2 },
            Operation::Use { subject: Subject::Binding(S1) },
            Operation::Use { subject: Subject::Binding(S2) },
            Operation::ExitScope,
            Operation::Use { subject: Subject::Binding(S2) },
        ],
        verdict(program@) == seq![
            Diagnostic { kind: DiagnosticKind::UseAfterMove, binding: Some(S1), scope_id: 1 },
            Diagnostic { kind: DiagnosticKind::UseAfterDrop, binding: Some(S2), scope_id: 0 },
        ],
{
    let program = vec![
        Operation::EnterScope,
        Operation::Bind { name: S1, category: Category::Movable },
        Operation::Move { src: S1, dst: S2 },
        Operation::Use { subject: Subject::Binding(S1) },
        Operation::Use { subject: Subject::Binding(S2) },
        Operation::ExitScope,
        Operation::Use { subject: Subject::Binding(S2) },
    ];
    proof {
        let p = program@;
        let s0 = State::initial();
        let s1 = s0.step(p[0]);
        let s2 = s1.step(p[1]);
        let s3 = s2.step(p[2]);
        let s4 = s3.step(p[3]);
        let s5 = s4.step(p[4]);
        let s6 = s5.step(p[5]);
        let s7 = s6.step(p[6]);
        lemma_trace(s0, p, seq![s0, s1, s2, s3, s4, s5, s6, s7]);
        assert(s1.scopes.open =~= seq![0usize, 1usize]);
        s2.lemma_lookup_youngest(S1, 0, 1);
        s3.lemma_lookup_youngest(S1, 0, 1);
        s4.lemma_lookup_youngest(S2, 1, 1);
        s5.lemma_exit_reports_nothing();
        assert(s6.scopes.open =~= seq![0usize]);
        s6.lemma_lookup_out_of_scope(S2, 1);
        assert(s7.diagnostics =~= seq![
            Diagnostic { kind: DiagnosticKind::UseAfterMove, binding: Some(S1), scope_id: 1 },
            Diagnostic { kind: DiagnosticKind::UseAfterDrop, binding: Some(S2), scope_id: 0 },
        ]);
    }
    program
}

/// Passing values to callees: a string moves into the parameter of the
/// callee and is dropped with it, so that the caller can no longer read it;
/// an integer is copied and stays readable.
pub fn ownership_and_functions() -> (program: Vec<Operation>)
    ensures
        program@ == seq![
            Operation::Bind { name: S, category: Category::Movable },
            Operation::EnterScope,
            Operation::Move { src: S, dst: SOME_STRING },
            Operation::Use { subject: Subject::Binding(SOME_STRING) },
            Operation::ExitScope,
            Operation::Bind { name: X, category: Category::Copyable },
            Operation::EnterScope,
            Operation::Move { src: X, dst: SOME_INTEGER },
            Operation::Use { subject: Subject::Binding(SOME_INTEGER) },
            Operation::ExitScope,
            Operation::Use { subject: Subject::Binding(X) },
            Operation::Use { subject: Subject::Binding(S) },
        ],
        verdict(program@) == seq![
            Diagnostic { kind: DiagnosticKind::UseAfterMove, binding: Some(S), scope_id: 0 },
        ],
{
    let program = vec![
        Operation::Bind { name: S, category: Category::Movable },
        Operation::EnterScope,
        Operation::Move { src: S, dst: SOME_STRING },
        Operation::Use { subject: Subject::Binding(SOME_STRING) },
        Operation::ExitScope,
        Operation::Bind { name: X, category: Category::Copyable },
        Operation::EnterScope,
        Operation::Move { src: X, dst: SOME_INTEGER },
        Operation::Use { subject: Subject::Binding(SOME_INTEGER) },
        Operation::ExitScope,
        Operation::Use { subject: Subject::Binding(X) },
        Operation::Use { subject: Subject::Binding(S) },
    ];
    proof {
        let p = program@;
        let s0 = State::initial();
        let s1 = s0.step(p[0]);
        let s2 = s1.step(p[1]);
        let s3 = s2.step(p[2]);
        let s4 = s3.step(p[3]);
        let s5 = s4.step(p[4]);
        let s6 = s5.step(p[5]);
        let s7 = s6.step(p[6]);
        let s8 = s7.step(p[7]);
        let s9 = s8.step(p[8]);
        let s10 = s9.step(p[9]);
        let s11 = s10.step(p[10]);
        let s12 = s11.step(p[11]);
        lemma_trace(s0, p, seq![s0, s1, s2, s3, s4, s5, s6, s7, s8, s9, s10, s11, s12]);
        assert(s2.scopes.open =~= seq![0usize, 1usize]);
        s2.lemma_lookup_youngest(S, 0, 0);
        s3.lemma_lookup_youngest(SOME_STRING, 1, 1);
        s4.lemma_exit_reports_nothing();
        assert(s5.scopes.open =~= seq![0usize]);
        assert(s7.scopes.open =~= seq![0usize, 2usize]);
        s7.lemma_lookup_youngest(X, 2, 0);
        s8.lemma_lookup_youngest(SOME_INTEGER, 3, 1);
        s9.lemma_exit_reports_nothing();
        assert(s10.scopes.open =~= seq![0usize]);
        s10.lemma_lookup_youngest(X, 2, 0);
        s11.lemma_lookup_youngest(S, 0, 0);
        assert(s12.diagnostics =~= seq![
            Diagnostic { kind: DiagnosticKind::UseAfterMove, binding: Some(S), scope_id: 0 },
        ]);
    }
    program
}

/// Values that callees hand back: ownership follows the value from name to
/// name, and nothing is reported. At the closing brace `s3` is dropped, then
/// `s1`; `s2` was moved, so nothing happens to it.
pub fn return_value_and_scope() -> (program: Vec<Operation>)
    ensures
        program@ == seq![
            Operation::EnterScope,
            Operation::Bind { name: SOME_STRING, category: Category::Movable },
            Operation::Move { src: SOME_STRING, dst: S1 },
            Operation::Bind { name: S2, category: Category::Movable },
            Operation::Move { src: S2, dst: A_STRING },
            Operation::Move { src: A_STRING, dst: S3 },
            Operation::ExitScope,
        ],
        verdict(program@) == Seq::<Diagnostic>::empty(),
        reached(program@.drop_last()).drop_order() == seq![4usize, 1usize],
        reached(program@.drop_last()).bindings[4].name == S3,
        reached(program@.drop_last()).bindings[1].name == S1,
{
    let program = vec![
        Operation::EnterScope,
        Operation::Bind { name: SOME_STRING, category: Category::Movable },
        Operation::Move { src: SOME_STRING, dst: S1 },
        Operation::Bind { name: S2, category: Category::Movable },
        Operation::Move { src: S2, dst: A_STRING },
        Operation::Move { src: A_STRING, dst: S3 },
        Operation::ExitScope,
    ];
    proof {
        let p = program@;
        let s0 = State::initial();
        let s1 = s0.step(p[0]);
        let s2 = s1.step(p[1]);
        let s3 = s2.step(p[2]);
        let s4 = s3.step(p[3]);
        let s5 = s4.step(p[4]);
        let s6 = s5.step(p[5]);
        let s7 = s6.step(p[6]);
        lemma_trace(s0, p, seq![s0, s1, s2, s3, s4, s5, s6, s7]);
        assert(s1.scopes.open =~= seq![0usize, 1usize]);
        s2.lemma_lookup_youngest(SOME_STRING, 0, 1);
        s4.lemma_lookup_youngest(S2, 2, 1);
        s5.lemma_lookup_youngest(A_STRING, 3, 1);
        s6.lemma_exit_reports_nothing();
        assert(p.drop_last() =~= p.take(6));
        lemma_trace(s0, p.take(6), seq![s0, s1, s2, s3, s4, s5, s6]);
        let youngest_first = seq![4usize, 3usize, 2usize, 1usize, 0usize];
        assert(s6.scopes.scopes[1].introduced.reverse() =~= youngest_first);
        assert(youngest_first.drop_last() =~= seq![4usize, 3usize, 2usize, 1usize]);
        assert(seq![4usize, 3usize, 2usize, 1usize].drop_last() =~= seq![4usize, 3usize, 2usize]);
        assert(seq![4usize, 3usize, 2usize].drop_last() =~= seq![4usize, 3usize]);
        assert(seq![4usize, 3usize].drop_last() =~= seq![4usize]);
        reveal_with_fuel(Seq::filter, 7);
        assert(s6.drop_order() =~= seq![4usize, 1usize]);
        assert(s7.diagnostics =~= Seq::<Diagnostic>::empty());
    }
    program
}

/// A callee that reads a string through a reference: the shared borrow does
/// not take the string from its owner, which is readable after the call.
pub fn references() -> (program: Vec<Operation>)
    ensures
        program@ == seq![
            Operation::Bind { name: S1, category: Category::Movable },
            Operation::Borrow { name: S1, kind: BorrowKind::Shared },
            Operation::EnterScope,
            Operation::Use { subject: Subject::Borrow(0) },
            Operation::ExitScope,
            Operation::EndBorrow { borrow: 0 },
            Operation::Bind { name: LEN, category: Category::Copyable },
            Operation::Use { subject: Subject::Binding(S1) },
            Operation::Use { subject: Subject::Binding(LEN) },
        ],
        verdict(program@) == Seq::<Diagnostic>::empty(),
{
    let program = vec![
        Operation::Bind { name: S1, category: Category::Movable },
        Operation::Borrow { name: S1, kind: BorrowKind::Shared },
        Operation::EnterScope,
        Operation::Use { subject: Subject::Borrow(0) },
        Operation::ExitScope,
        Operation::EndBorrow { borrow: 0 },
        Operation::Bind { name: LEN, category: Category::Copyable },
        Operation::Use { subject: Subject::Binding(S1) },
        Operation::Use { subject: Subject::Binding(LEN) },
    ];
    proof {
        let p = program@;
        let s0 = State::initial();
        let s1 = s0.step(p[0]);
        let s2 = s1.step(p[1]);
        let s3 = s2.step(p[2]);
        let s4 = s3.step(p[3]);
        let s5 = s4.step(p[4]);
        let s6 = s5.step(p[5]);
        let s7 = s6.step(p[6]);
        let s8 = s7.step(p[7]);
        let s9 = s8.step(p[8]);
        lemma_trace(s0, p, seq![s0, s1, s2, s3, s4, s5, s6, s7, s8, s9]);
        s1.lemma_lookup_youngest(S1, 0, 0);
        s4.lemma_exit_reports_nothing();
        assert(s5.scopes.open =~= seq![0usize]);
        s7.lemma_lookup_youngest(S1, 0, 0);
        s8.lemma_lookup_youngest(LEN, 1, 0);
        assert(s9.diagnostics =~= Seq::<Diagnostic>::empty());
    }
    program
}

/// A callee that changes a string through a mutable reference: the
/// exclusive borrow is read in the scope of the callee and ends with the
/// call, after which the owner is readable again.
pub fn mutable_references() -> (program: Vec<Operation>)
    ensures
        program@ == seq![
            Operation::Bind { name: S, category: Category::Movable },
            Operation::Borrow { name: S, kind: BorrowKind::Exclusive },
            Operation::EnterScope,
            Operation::Use { subject: Subject::Borrow(0) },
            Operation::ExitScope,
            Operation::EndBorrow { borrow: 0 },
            Operation::Use { subject: Subject::Binding(S) },
        ],
        verdict(program@) == Seq::<Diagnostic>::empty(),
{
    let program = vec![
        Operation::Bind { name: S, category: Category::Movable },
        Operation::Borrow { name: S, kind: BorrowKind::Exclusive },
        Operation::EnterScope,
        Operation::Use { subject: Subject::Borrow(0) },
        Operation::ExitScope,
        Operation::EndBorrow { borrow: 0 },
        Operation::Use { subject: Subject::Binding(S) },
    ];
    proof {
        let p = program@;
        let s0 = State::initial();
        let s1 = s0.step(p[0]);
        let s2 = s1.step(p[1]);
        let s3 = s2.step(p[2]);
        let s4 = s3.step(p[3]);
        let s5 = s4.step(p[4]);
        let s6 = s5.step(p[5]);
        let s7 = s6.step(p[6]);
        lemma_trace(s0, p, seq![s0, s1, s2, s3, s4, s5, s6, s7]);
        s1.lemma_lookup_youngest(S, 0, 0);
        s4.lemma_exit_reports_nothing();
        assert(s5.scopes.open =~= seq![0usize]);
        s6.lemma_lookup_youngest(S, 0, 0);
        assert(s7.diagnostics =~= Seq::<Diagnostic>::empty());
    }
    program
}

/// The restrictions on mutable references: exclusive borrows that follow one
/// another are fine, also across a scope; two at once are not; and shared
/// borrows that have ended do not stand in the way of an exclusive one.
pub fn mutable_reference_restrictions() -> (program: Vec<Operation>)
    ensures
        program@ == seq![
            Operation::Bind { name: S, category: Category::Movable },
            Operation::EnterScope,
            Operation::Borrow { name: S, kind: BorrowKind::Exclusive },
            Operation::ExitScope,
            Operation::Borrow { name: S, kind: BorrowKind::Exclusive },
            Operation::Borrow { name: S, kind: BorrowKind::Exclusive },
            Operation::EndBorrow { borrow: 1 },
            Operation::Borrow { name: S, kind: BorrowKind::Shared },
            Operation::Borrow { name: S, kind: BorrowKind::Shared },
            Operation::Use { subject: Subject::Borrow(2) },
            Operation::Use { subject: Subject::Borrow(3) },
            Operation::EndBorrow { borrow: 2 },
            Operation::EndBorrow { borrow: 3 },
            Operation::Borrow { name: S, kind: BorrowKind::Exclusive },
            Operation::Use { subject: Subject::Borrow(4) },
        ],
        verdict(program@) == seq![
            Diagnostic { kind: DiagnosticKind::ConflictingBorrow, binding: Some(S), scope_id: 0 },
        ],
{
    let program = vec![
        Operation::Bind { name: S, category: Category::Movable },
        Operation::EnterScope,
        Operation::Borrow { name: S, kind: BorrowKind::Exclusive },
        Operation::ExitScope,
        Operation::Borrow { name: S, kind: BorrowKind::Exclusive },
        Operation::Borrow { name: S, kind: BorrowKind::Exclusive },
        Operation::EndBorrow { borrow: 1 },
        Operation::Borrow { name: S, kind: BorrowKind::Shared },
        Operation::Borrow { name: S, kind: BorrowKind::Shared },
        Operation::Use { subject: Subject::Borrow(2) },
        Operation::Use { subject: Subject::Borrow(3) },
        Operation::EndBorrow { borrow: 2 },
        Operation::EndBorrow { borrow: 3 },
        Operation::Borrow { name: S, kind: BorrowKind::Exclusive },
        Operation::Use { subject: Subject::Borrow(4) },
    ];
    proof {
        let p = program@;
        let s0 = State::initial();
        let s1 = s0.step(p[0]);
        let s2 = s1.step(p[1]);
        let s3 = s2.step(p[2]);
        let s4 = s3.step(p[3]);
        let s5 = s4.step(p[4]);
        let s6 = s5.step(p[5]);
        let s7 = s6.step(p[6]);
        let s8 = s7.step(p[7]);
        let s9 = s8.step(p[8]);
        let s10 = s9.step(p[9]);
        let s11 = s10.step(p[10]);
        let s12 = s11.step(p[11]);
        let s13 = s12.step(p[12]);
        let s14 = s13.step(p[13]);
        let s15 = s14.step(p[14]);
        lemma_trace(
            s0,
            p,
            seq![s0, s1, s2, s3, s4, s5, s6, s7, s8, s9, s10, s11, s12, s13, s14, s15],
        );
        assert(s2.scopes.open =~= seq![0usize, 1usize]);
        s2.lemma_lookup_youngest(S, 0, 0);
        s3.lemma_exit_reports_nothing();
        assert(s4.scopes.open =~= seq![0usize]);
        s4.lemma_lookup_youngest(S, 0, 0);
        assert(s5.borrows[1].active);
        assert(conflicts(s5.borrows, 0, BorrowKind::Exclusive));
        assert(s9.borrows[2].active && s9.borrows[3].active);
        assert(s15.diagnostics =~= seq![
            Diagnostic { kind: DiagnosticKind::ConflictingBorrow, binding: Some(S), scope_id: 0 },
        ]);
    }
    program
}

/// A callee that returns a reference. A reference to its own local dangles:
/// the local is dropped when the callee returns. A reference to a value of
/// the caller does not.
pub fn dangling_references() -> (program: Vec<Operation>)
    ensures
        program@ == seq![
            Operation::EnterScope,
            Operation::Bind { name: S, category: Category::Movable },
            Operation::Borrow { name: S, kind: BorrowKind::Shared },
            Operation::ReturnBorrow { borrow: 0 },
            Operation::ExitScope,
            Operation::Bind { name: S1, category: Category::Movable },
            Operation::EnterScope,
            Operation::Borrow { name: S1, kind: BorrowKind::Shared },
            Operation::ReturnBorrow { borrow: 1 },
            Operation::ExitScope,
        ],
        verdict(program@) == seq![
            Diagnostic { kind: DiagnosticKind::DanglingReference, binding: Some(S), scope_id: 1 },
        ],
{
    let program = vec![
        Operation::EnterScope,
        Operation::Bind { name: S, category: Category::Movable },
        Operation::Borrow { name: S, kind: BorrowKind::Shared },
        Operation::ReturnBorrow { borrow: 0 },
        Operation::ExitScope,
        Operation::Bind { name: S1, category: Category::Movable },
        Operation::EnterScope,
        Operation::Borrow { name: S1, kind: BorrowKind::Shared },
        Operation::ReturnBorrow { borrow: 1 },
        Operation::ExitScope,
    ];
    proof {
        let p = program@;
        let s0 = State::initial();
        let s1 = s0.step(p[0]);
        let s2 = s1.step(p[1]);
        let s3 = s2.step(p[2]);
        let s4 = s3.step(p[3]);
        let s5 = s4.step(p[4]);
        let s6 = s5.step(p[5]);
        let s7 = s6.step(p[6]);
        let s8 = s7.step(p[7]);
        let s9 = s8.step(p[8]);
        let s10 = s9.step(p[9]);
        lemma_trace(s0, p, seq![s0, s1, s2, s3, s4, s5, s6, s7, s8, s9, s10]);
        assert(s1.scopes.open =~= seq![0usize, 1usize]);
        s2.lemma_lookup_youngest(S, 0, 1);
        assert(s4.borrows[0].returned && s4.borrows[0].active);
        assert(s4.scopes.scopes[1].introduced.reverse() =~= seq![0usize]);
        reveal_with_fuel(Seq::filter, 3);
        assert(s4.drop_order() =~= seq![0usize]);
        assert(s4.exit_reports() =~= seq![
            Diagnostic { kind: DiagnosticKind::DanglingReference, binding: Some(S), scope_id: 1 },
        ]);
        assert(s5.scopes.open =~= seq![0usize]);
        assert(s7.scopes.open =~= seq![0usize, 2usize]);
        s7.lemma_lookup_youngest(S1, 1, 0);
        assert(s9.scopes.scopes[2].introduced.reverse() =~= Seq::<usize>::empty());
        assert(s9.drop_order() =~= Seq::<usize>::empty());
        assert(s9.exit_reports() =~= Seq::<Diagnostic>::empty());
        assert(s10.diagnostics =~= seq![
            Diagnostic { kind: DiagnosticKind::DanglingReference, binding: Some(S), scope_id: 1 },
        ]);
    }
    program
}

/// The rules of references: at any time either one mutable reference or any
/// number of immutable ones, and a reference is good only until it ends.
pub fn the_rules_of_references() -> (program: Vec<Operation>)
    ensures
        program@ == seq![
            Operation::Bind { name: S, category: Category::Movable },
            Operation::Borrow { name: S, kind: BorrowKind::Shared },
            Operation::Borrow { name: S, kind: BorrowKind::Shared },
            Operation::Borrow { name: S, kind: BorrowKind::Exclusive },
            Operation::EndBorrow { borrow: 0 },
            Operation::EndBorrow { borrow: 1 },
            Operation::Borrow { name: S, kind: BorrowKind::Exclusive },
            Operation::Borrow { name: S, kind: BorrowKind::Shared },
            Operation::Use { subject: Subject::Borrow(0) },
        ],
        verdict(program@) == seq![
            Diagnostic { kind: DiagnosticKind::ConflictingBorrow, binding: Some(S), scope_id: 0 },
            Diagnostic { kind: DiagnosticKind::ConflictingBorrow, binding: Some(S), scope_id: 0 },
            Diagnostic { kind: DiagnosticKind::UseAfterEndOfBorrow, binding: Some(S), scope_id: 0 },
        ],
{
    let program = vec![
        Operation::Bind { name: S, category: Category::Movable },
        Operation::Borrow { name: S, kind: BorrowKind::Shared },
        Operation::Borrow { name: S, kind: BorrowKind::Shared },
        Operation::Borrow { name: S, kind: BorrowKind::Exclusive },
        Operation::EndBorrow { borrow: 0 },
        Operation::EndBorrow { borrow: 1 },
        Operation::Borrow { name: S, kind: BorrowKind::Exclusive },
        Operation::Borrow { name: S, kind: BorrowKind::Shared },
        Operation::Use { subject: Subject::Borrow(0) },
    ];
    proof {
        let p = program@;
        let s0 = State::initial();
        let s1 = s0.step(p[0]);
        let s2 = s1.step(p[1]);
        let s3 = s2.step(p[2]);
        let s4 = s3.step(p[3]);
        let s5 = s4.step(p[4]);
        let s6 = s5.step(p[5]);
        let s7 = s6.step(p[6]);
        let s8 = s7.step(p[7]);
        let s9 = s8.step(p[8]);
        lemma_trace(s0, p, seq![s0, s1, s2, s3, s4, s5, s6, s7, s8, s9]);
        s1.lemma_lookup_youngest(S, 0, 0);
        assert(s3.borrows[1].active);
        assert(conflicts(s3.borrows, 0, BorrowKind::Exclusive));
        assert(s7.borrows[2].active);
        assert(conflicts(s7.borrows, 0, BorrowKind::Shared));
        assert(s9.diagnostics =~= seq![
            Diagnostic { kind: DiagnosticKind::ConflictingBorrow, binding: Some(S), scope_id: 0 },
            Diagnostic { kind: DiagnosticKind::ConflictingBorrow, binding: Some(S), scope_id: 0 },
            Diagnostic { kind: DiagnosticKind::UseAfterEndOfBorrow, binding: Some(S), scope_id: 0 },
        ]);
    }
    program
}

/// An index into a string goes stale when the string is cleared, and
/// nothing objects; a slice keeps the string borrowed, so that clearing it
/// while the slice is in use is a conflict.
pub fn manual_slice() -> (program: Vec<Operation>)
    ensures
        program@ == seq![
            Operation::Bind { name: S, category: Category::Movable },
            Operation::Borrow { name: S, kind: BorrowKind::Shared },
            Operation::EndBorrow { borrow: 0 },
            Operation::Borrow { name: S, kind: BorrowKind::Exclusive },
            Operation::EndBorrow { borrow: 1 },
            Operation::Borrow { name: S, kind: BorrowKind::Shared },
            Operation::Borrow { name: S, kind: BorrowKind::Exclusive },
            Operation::Use { subject: Subject::Borrow(2) },
        ],
        verdict(program@) == seq![
            Diagnostic { kind: DiagnosticKind::ConflictingBorrow, binding: Some(S), scope_id: 0 },
        ],
{
    let program = vec![
        Operation::Bind { name: S, category: Category::Movable },
        Operation::Borrow { name: S, kind: BorrowKind::Shared },
        Operation::EndBorrow { borrow: 0 },
        Operation::Borrow { name: S, kind: BorrowKind::Exclusive },
        Operation::EndBorrow { borrow: 1 },
        Operation::Borrow { name: S, kind: BorrowKind::Shared },
        Operation::Borrow { name: S, kind: BorrowKind::Exclusive },
        Operation::Use { subject: Subject::Borrow(2) },
    ];
    proof {
        let p = program@;
        let s0 = State::initial();
        let s1 = s0.step(p[0]);
        let s2 = s1.step(p[1]);
        let s3 = s2.step(p[2]);
        let s4 = s3.step(p[3]);
        let s5 = s4.step(p[4]);
        let s6 = s5.step(p[5]);
        let s7 = s6.step(p[6]);
        let s8 = s7.step(p[7]);
        lemma_trace(s0, p, seq![s0, s1, s2, s3, s4, s5, s6, s7, s8]);
        s1.lemma_lookup_youngest(S, 0, 0);
        assert(s6.borrows[2].active);
        assert(conflicts(s6.borrows, 0, BorrowKind::Exclusive));
        assert(s8.diagnostics =~= seq![
            Diagnostic { kind: DiagnosticKind::ConflictingBorrow, binding: Some(S), scope_id: 0 },
        ]);
    }
    program
}

/// Slices of one string: any number of shared borrows may be active at once.
pub fn string_slices() -> (program: Vec<Operation>)
    ensures
        program@ == seq![
            Operation::Bind { name: S, category: Category::Movable },
            Operation::Borrow { name: S, kind: BorrowKind::Shared },
            Operation::Borrow { name: S, kind: BorrowKind::Shared },
            Operation::Borrow { name: S, kind: BorrowKind::Shared },
            Operation::Borrow { name: S, kind: BorrowKind::Shared },
        ],
        verdict(program@) == Seq::<Diagnostic>::empty(),
{
    let program = vec![
        Operation::Bind { name: S, category: Category::Movable },
        Operation::Borrow { name: S, kind: BorrowKind::Shared },
        Operation::Borrow { name: S, kind: BorrowKind::Shared },
        Operation::Borrow { name: S, kind: BorrowKind::Shared },
        Operation::Borrow { name: S, kind: BorrowKind::Shared },
    ];
    proof {
        let p = program@;
        let s0 = State::initial();
        let s1 = s0.step(p[0]);
        let s2 = s1.step(p[1]);
        let s3 = s2.step(p[2]);
        let s4 = s3.step(p[3]);
        let s5 = s4.step(p[4]);
        lemma_trace(s0, p, seq![s0, s1, s2, s3, s4, s5]);
        s1.lemma_lookup_youngest(S, 0, 0);
        assert(s5.diagnostics =~= Seq::<Diagnostic>::empty());
    }
    program
}

} // verus!
