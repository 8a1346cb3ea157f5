//! Tests of the pre-scan: bracket validation and the jump map it builds.

use bfvm::BFVM;
use bfvm::VmError;

#[test]
fn fresh_machine_state() {
    let vm = BFVM::new();
    assert_eq!(vm.tape().len(), 1);
    assert_eq!(vm.tape()[0], 0);
    assert_eq!(vm.pointer(), 0);
}

#[test]
fn scan_balanced_nested_succeeds() {
    let code: Vec<char> = "[[]][]".chars().collect();
    let mut vm = BFVM::new();
    assert!(vm.scan_jump(&code).is_ok());
}

#[test]
fn scan_unmatched_close_fails() {
    let code: Vec<char> = "]".chars().collect();
    let mut vm = BFVM::new();
    assert_eq!(vm.scan_jump(&code), Err(VmError::UnmatchedClose { pos: 1 }));
}

#[test]
fn scan_unmatched_close_reports_position() {
    let code: Vec<char> = "+[-]>]".chars().collect();
    let mut vm = BFVM::new();
    assert_eq!(vm.scan_jump(&code), Err(VmError::UnmatchedClose { pos: 6 }));
}

#[test]
fn scan_unclosed_open_fails() {
    let code: Vec<char> = "[".chars().collect();
    let mut vm = BFVM::new();
    assert_eq!(vm.scan_jump(&code), Err(VmError::UnclosedLoop));
}

#[test]
fn scan_open_never_closed_among_closed_fails() {
    let code: Vec<char> = "[[]".chars().collect();
    let mut vm = BFVM::new();
    assert_eq!(vm.scan_jump(&code), Err(VmError::UnclosedLoop));
}

#[test]
fn jump_map_pairs_in_both_directions() {
    let code: Vec<char> = "[[]][]".chars().collect();
    let mut vm = BFVM::new();
    assert!(vm.scan_jump(&code).is_ok());
    assert_eq!(vm.jump_target(0), Some(3));
    assert_eq!(vm.jump_target(3), Some(0));
    assert_eq!(vm.jump_target(1), Some(2));
    assert_eq!(vm.jump_target(2), Some(1));
    assert_eq!(vm.jump_target(4), Some(5));
    assert_eq!(vm.jump_target(5), Some(4));
}

#[test]
fn jump_map_covers_only_brackets() {
    let code: Vec<char> = "+[-]".chars().collect();
    let mut vm = BFVM::new();
    assert!(vm.scan_jump(&code).is_ok());
    assert_eq!(vm.jump_target(0), None);
    assert_eq!(vm.jump_target(1), Some(3));
    assert_eq!(vm.jump_target(2), None);
    assert_eq!(vm.jump_target(3), Some(1));
    assert_eq!(vm.jump_target(9), None);
}
