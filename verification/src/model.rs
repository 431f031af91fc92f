//! The vocabulary of the validator: operations, records and diagnostics.
//!
//! Everything here is plain data. Identifiers of the analysed program are
//! interned as numbers; records are referred to by their position in the
//! table that holds them, so an id is also the order of creation.

use vstd::prelude::*;
use vstd::string::StringExecFns;

verus! {

/// An identifier of the analysed program, interned as a number.
pub type Name = u64;

/// The position of a binding record in the ownership table.
pub type BindingId = usize;

/// The position of a scope record in the scope tree.
pub type ScopeId = usize;

/// The position of a borrow record in the borrow tracker.
pub type BorrowId = usize;

/// Whether assigning a value transfers it or duplicates it.
#[derive(Clone, Copy, Debug, PartialEq, Eq, Structural)]
pub enum Category {
    /// The value has one owner; assigning it invalidates the source.
    Movable,
    /// The value is trivially duplicated; assigning it leaves the source usable.
    Copyable,
}

/// The ownership state of a binding.
#[derive(Clone, Copy, Debug, PartialEq, Eq, Structural)]
pub enum BindingState {
    /// The binding holds its value.
    Owned,
    /// The value was transferred to another binding.
    Moved,
    /// The scope that introduced the binding was left.
    Dropped,
}

/// The kind of a borrow.
#[derive(Clone, Copy, Debug, PartialEq, Eq, Structural)]
pub enum BorrowKind {
    /// Read-only; any number may be active on one target.
    Shared,
    /// Read-write; excludes every other active borrow of the target.
    Exclusive,
}

/// What a read refers to: a binding by its name, or a borrow by its id.
#[derive(Clone, Copy, Debug, PartialEq, Eq, Structural)]
pub enum Subject {
    Binding(Name),
    Borrow(BorrowId),
}

/// One operation of a straight-line program.
#[derive(Clone, Copy, Debug, PartialEq, Eq)]
pub enum Operation {
    /// Introduce a new owned binding in the current scope.
    Bind { name: Name, category: Category },
    /// Transfer ownership from `src` to a new binding `dst`.
    Move { src: Name, dst: Name },
    /// Borrow the binding `name`; the borrow is rooted in the current scope.
    Borrow { name: Name, kind: BorrowKind },
    /// Release a borrow before its scope ends.
    EndBorrow { borrow: BorrowId },
    /// Read through a binding or a borrow.
    Use { subject: Subject },
    /// Open a nested lexical scope.
    EnterScope,
    /// Close the innermost lexical scope.
    ExitScope,
    /// Mark a borrow as escaping the scope that owns it.
    ReturnBorrow { borrow: BorrowId },
}

/// The kinds of violation that the validator reports.
#[derive(Clone, Copy, Debug, PartialEq, Eq, Structural)]
pub enum DiagnosticKind {
    /// A name that was never bound, or a borrow id that was never issued.
    UnknownBinding,
    /// Read, borrow or move of a binding whose value was moved away.
    UseAfterMove,
    /// Read, borrow or move of a binding whose scope was left.
    UseAfterDrop,
    /// Move of a binding that has an active borrow.
    MoveWhileBorrowed,
    /// A requested borrow conflicts with an active borrow of the same target.
    ConflictingBorrow,
    /// Read through a borrow that has ended.
    UseAfterEndOfBorrow,
    /// A returned borrow targets a binding destroyed by its own scope's exit.
    DanglingReference,
    /// A scope exit with no nested scope open; this one ends the pass.
    EmptyScopeStack,
}

/// A named value slot.
#[derive(Clone, Copy, Debug, PartialEq, Eq)]
pub struct Binding {
    pub name: Name,
    pub category: Category,
    pub state: BindingState,
    /// The scope that introduced the binding and destroys it.
    pub scope_id: ScopeId,
}

/// A reference to a binding's value.
#[derive(Clone, Copy, Debug, PartialEq, Eq)]
pub struct Borrow {
    /// The binding that is borrowed.
    pub target: BindingId,
    pub kind: BorrowKind,
    /// The scope whose exit ends the borrow.
    pub owning_scope_id: ScopeId,
    /// Whether the borrow still counts towards conflicts.
    pub active: bool,
    /// Whether the borrow was marked as escaping its scope.
    pub returned: bool,
}

/// A reported violation.
#[derive(Clone, Copy, Debug, PartialEq, Eq)]
pub struct Diagnostic {
    pub kind: DiagnosticKind,
    /// The name involved; `None` where the operation names no binding
    /// (an unissued borrow id, an unbalanced scope exit).
    pub binding: Option<Name>,
    /// The scope in which the violation was detected.
    pub scope_id: ScopeId,
}

impl BindingState {
    /// A state may stay as it is, or leave `Owned`; nothing else.
    pub open spec fn may_become(self, next: BindingState) -> bool {
        self == next || self is Owned
    }

    /// The diagnostic kind for touching a binding that no longer holds its
    /// value.
    pub open spec fn violation(self) -> DiagnosticKind
        recommends
            !(self is Owned),
    {
        if self is Dropped {
            DiagnosticKind::UseAfterDrop
        } else {
            DiagnosticKind::UseAfterMove
        }
    }

    /// Whether the binding still holds its value.
    pub fn is_owned(self) -> (r: bool)
        ensures
            r == (self is Owned),
    {
        match self {
            BindingState::Owned => true,
            _ => false,
        }
    }

    /// Computes [`BindingState::violation`].
    pub fn violation_kind(self) -> (r: DiagnosticKind)
        ensures
            r == self.violation(),
    {
        match self {
            BindingState::Dropped => DiagnosticKind::UseAfterDrop,
            _ => DiagnosticKind::UseAfterMove,
        }
    }
}

impl Binding {
    /// Whether the binding, if it is copyable, was left unmoved.
    pub open spec fn honours_copy(self) -> bool {
        self.category is Copyable ==> !(self.state is Moved)
    }
}

impl DiagnosticKind {
    /// The text that describes a violation of this kind.
    pub open spec fn text(self) -> Seq<char> {
        match self {
            DiagnosticKind::UnknownBinding => "reference to a name that is not bound"@,
            DiagnosticKind::UseAfterMove => "use of a binding whose value was moved"@,
            DiagnosticKind::UseAfterDrop => "use of a binding whose scope has ended"@,
            DiagnosticKind::MoveWhileBorrowed => "move of a binding that is borrowed"@,
            DiagnosticKind::ConflictingBorrow => "borrow conflicts with an active borrow"@,
            DiagnosticKind::UseAfterEndOfBorrow => "use of a borrow that has ended"@,
            DiagnosticKind::DanglingReference => "returned borrow outlives its target"@,
            DiagnosticKind::EmptyScopeStack => "scope exit without an open scope"@,
        }
    }

    /// Whether a violation of this kind ends the pass.
    pub open spec fn is_fatal(self) -> bool {
        self is EmptyScopeStack
    }
}

impl Diagnostic {
    /// The message of the diagnostic.
    pub fn message(&self) -> (r: String)
        ensures
            r@ == self.kind.text(),
    {
        match self.kind {
            DiagnosticKind::UnknownBinding => String::from_str(
                "reference to a name that is not bound",
            ),
            DiagnosticKind::UseAfterMove => String::from_str(
                "use of a binding whose value was moved",
            ),
            DiagnosticKind::UseAfterDrop => String::from_str(
                "use of a binding whose scope has ended",
            ),
            DiagnosticKind::MoveWhileBorrowed => String::from_str(
                "move of a binding that is borrowed",
            ),
            DiagnosticKind::ConflictingBorrow => String::from_str(
                "borrow conflicts with an active borrow",
            ),
            DiagnosticKind::UseAfterEndOfBorrow => String::from_str(
                "use of a borrow that has ended",
            ),
            DiagnosticKind::DanglingReference => String::from_str(
                "returned borrow outlives its target",
            ),
            DiagnosticKind::EmptyScopeStack => String::from_str("scope exit without an open scope"),
        }
    }
}

} // verus!
