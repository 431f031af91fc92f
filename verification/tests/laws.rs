use borrow_validator::model::{
    BindingState, BorrowKind, Category, Name, Operation, Subject,
};
use borrow_validator::validator::{validate, Validator};

const NAMES: [Name; 3] = [1, 2, 3];

/// A small deterministic generator of programs.
fn program(seed: u64, len: usize) -> Vec<Operation> {
    let mut state = seed.wrapping_mul(6364136223846793005).wrapping_add(1442695040888963407);
    let mut next = move |bound: u64| {
        state = state.wrapping_mul(6364136223846793005).wrapping_add(1442695040888963407);
        (state >> 33) % bound
    };
    let mut ops = Vec::new();
    for _ in 0..len {
        let name = NAMES[next(3) as usize];
        let other = NAMES[next(3) as usize];
        let id = next(4) as usize;
        let op = match next(10) {
            0 | 1 => Operation::Bind {
                name,
                category: if next(2) == 0 { Category::Movable } else { Category::Copyable },
            },
            2 => Operation::Move { src: name, dst: other },
            3 | 4 => Operation::Borrow {
                name,
                kind: if next(2) == 0 { BorrowKind::Shared } else { BorrowKind::Exclusive },
            },
            5 => Operation::EndBorrow { borrow: id },
            6 => Operation::Use {
                subject: if next(2) == 0 { Subject::Binding(name) } else { Subject::Borrow(id) },
            },
            7 => Operation::EnterScope,
            8 => Operation::ExitScope,
            _ => Operation::ReturnBorrow { borrow: id },
        };
        ops.push(op);
    }
    ops
}

fn borrows(v: &Validator) -> Vec<borrow_validator::model::Borrow> {
    let mut all = Vec::new();
    let mut id = 0;
    while let Some(b) = v.borrow_record(id) {
        all.push(b);
        id += 1;
    }
    all
}

fn states(v: &Validator) -> Vec<BindingState> {
    let mut all = Vec::new();
    let mut id = 0;
    while let Some(b) = v.binding(id) {
        all.push(b.state);
        id += 1;
    }
    all
}

#[test]
fn exclusive_borrow_is_never_shared_with_another() {
    for seed in 0..200 {
        let mut v = Validator::new();
        for op in program(seed, 40) {
            v.apply(op);
            let all = borrows(&v);
            for (i, a) in all.iter().enumerate() {
                for (j, b) in all.iter().enumerate() {
                    if i != j && a.active && b.active && a.target == b.target {
                        assert_eq!(a.kind, BorrowKind::Shared);
                        assert_eq!(b.kind, BorrowKind::Shared);
                    }
                }
            }
        }
    }
}

#[test]
fn active_borrow_always_targets_an_owned_binding() {
    for seed in 0..200 {
        let mut v = Validator::new();
        for op in program(seed, 40) {
            v.apply(op);
            for b in borrows(&v) {
                if b.active {
                    assert_eq!(v.binding(b.target).unwrap().state, BindingState::Owned);
                }
            }
        }
    }
}

#[test]
fn binding_state_never_reverts() {
    for seed in 0..200 {
        let mut v = Validator::new();
        let mut before: Vec<BindingState> = Vec::new();
        for op in program(seed, 40) {
            v.apply(op);
            let after = states(&v);
            assert!(after.len() >= before.len());
            for (old, new) in before.iter().zip(after.iter()) {
                assert!(old == new || *old == BindingState::Owned);
            }
            before = after;
        }
    }
}

#[test]
fn scope_exit_drops_in_reverse_creation_order() {
    for seed in 0..200 {
        let mut v = Validator::new();
        for op in program(seed, 40) {
            if op == Operation::ExitScope {
                let scope = v.current_scope();
                let halted_or_root = v.is_halted() || v.depth() <= 1;
                let mut expected = Vec::new();
                let mut id = 0;
                while let Some(b) = v.binding(id) {
                    if b.scope_id == scope && b.state == BindingState::Owned {
                        expected.push(id);
                    }
                    id += 1;
                }
                expected.reverse();
                let dropped = v.exit_scope();
                if halted_or_root {
                    assert_eq!(dropped, Vec::<usize>::new());
                } else {
                    assert_eq!(dropped, expected);
                    for id in dropped {
                        assert_eq!(v.binding(id).unwrap().state, BindingState::Dropped);
                    }
                }
            } else {
                v.apply(op);
            }
        }
    }
}

#[test]
fn copyable_binding_is_never_moved() {
    for seed in 0..200 {
        let mut v = Validator::new();
        for op in program(seed, 40) {
            v.apply(op);
            let mut id = 0;
            while let Some(b) = v.binding(id) {
                if b.category == Category::Copyable {
                    assert_ne!(b.state, BindingState::Moved);
                }
                id += 1;
            }
        }
    }
}

#[test]
fn diagnostics_only_grow() {
    for seed in 0..200 {
        let mut v = Validator::new();
        let mut before = Vec::new();
        for op in program(seed, 40) {
            v.apply(op);
            let after = v.diagnostics().clone();
            assert!(after.len() >= before.len());
            assert_eq!(&after[..before.len()], &before[..]);
            before = after;
        }
    }
}

#[test]
fn validation_is_deterministic() {
    for seed in 0..50 {
        let p = program(seed, 60);
        assert_eq!(validate(&p), validate(&p));
    }
}
