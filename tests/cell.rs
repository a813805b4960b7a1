use hedel_rs::cell::{BorrowFlag, HedelCell};
use hedel_rs::errors::HedelError;

#[test]
fn new_cell_has_no_guard() {
    let cell = HedelCell::new(67);
    assert_eq!(cell.flag(), BorrowFlag::Unused);
    assert_eq!(cell.into_inner(), 67);
}

#[test]
fn second_shared_borrow_counts_up() {
    let mut cell = HedelCell::new(56);
    let first = cell.try_get().unwrap();
    assert_eq!(cell.flag(), BorrowFlag::Shared(1));
    let second = cell.try_get().unwrap();
    assert_eq!(cell.flag(), BorrowFlag::Shared(2));
    assert_eq!(*cell.read(&second), 56);
    second.release(&mut cell);
    assert_eq!(cell.flag(), BorrowFlag::Shared(1));
    first.release(&mut cell);
    assert_eq!(cell.flag(), BorrowFlag::Unused);
}

#[test]
fn exclusive_borrow_fails_while_shared() {
    let mut cell = HedelCell::new(1);
    let guard = cell.get();
    assert!(matches!(cell.try_get_mut(), Err(HedelError::BorrowActiveConflict)));
    assert_eq!(cell.flag(), BorrowFlag::Shared(1));
    guard.release(&mut cell);
    assert!(cell.try_get_mut().is_ok());
}

#[test]
fn shared_borrow_fails_while_exclusive() {
    let mut cell = HedelCell::new(1);
    let guard = cell.get_mut();
    assert!(matches!(cell.try_get(), Err(HedelError::ExclusiveActiveConflict)));
    assert!(matches!(cell.try_get_mut(), Err(HedelError::BorrowActiveConflict)));
    assert_eq!(cell.flag(), BorrowFlag::Exclusive);
    guard.release(&mut cell);
    assert_eq!(cell.flag(), BorrowFlag::Unused);
}

#[test]
fn releasing_last_shared_guard_resets() {
    let mut cell = HedelCell::new(3);
    let a = cell.get();
    let b = cell.get();
    let c = cell.get();
    assert_eq!(cell.flag(), BorrowFlag::Shared(3));
    a.release(&mut cell);
    b.release(&mut cell);
    assert_eq!(cell.flag(), BorrowFlag::Shared(1));
    c.release(&mut cell);
    assert_eq!(cell.flag(), BorrowFlag::Unused);
}

#[test]
fn exclusive_guard_writes_and_resets() {
    let mut cell = HedelCell::new(23);
    let guard = cell.get_mut();
    *cell.value_mut(&guard) = 36;
    guard.release(&mut cell);
    assert_eq!(cell.flag(), BorrowFlag::Unused);
    let shared = cell.get();
    assert_eq!(*cell.read(&shared), 36);
    assert_eq!(*cell.peek(), 36);
    shared.release(&mut cell);
    assert_eq!(cell.into_inner(), 36);
}
