//! End-to-end tests of the execution engine.

use bfvm::BFVM;
use bfvm::RunOutcome;
use bfvm::VmError;

const FUEL: u64 = 10_000_000;

#[test]
fn empty_program_halts_at_once() {
    let mut vm = BFVM::new();
    match vm.run(String::new(), Vec::new(), FUEL) {
        Ok(RunOutcome::Halted(out)) => assert!(out.is_empty()),
        _ => panic!("expected a halt"),
    }
    assert_eq!(vm.tape().len(), 1);
    assert_eq!(vm.tape()[0], 0);
    assert_eq!(vm.pointer(), 0);
}

#[test]
fn add_wraps_after_256() {
    let code: String = "+".repeat(256);
    let mut vm = BFVM::new();
    match vm.run(code, Vec::new(), FUEL) {
        Ok(RunOutcome::Halted(out)) => assert!(out.is_empty()),
        _ => panic!("expected a halt"),
    }
    assert_eq!(vm.tape()[0], 0);
}

#[test]
fn sub_on_fresh_cell_wraps_to_255() {
    let mut vm = BFVM::new();
    match vm.run(String::from("-"), Vec::new(), FUEL) {
        Ok(RunOutcome::Halted(_)) => {},
        _ => panic!("expected a halt"),
    }
    assert_eq!(vm.tape()[0], 255);
}

#[test]
fn move_right_grows_tape_by_one_zero_cell_per_move() {
    let code: String = ">".repeat(10_000);
    let mut vm = BFVM::new();
    match vm.run(code, Vec::new(), FUEL) {
        Ok(RunOutcome::Halted(_)) => {},
        _ => panic!("expected a halt"),
    }
    assert_eq!(vm.tape().len(), 10_001);
    assert!(vm.tape().iter().all(|&c| c == 0));
    assert_eq!(vm.pointer(), 10_000);
}

#[test]
fn move_left_from_cell_zero_is_fatal() {
    let mut vm = BFVM::new();
    assert_eq!(vm.run(String::from("<"), Vec::new(), FUEL), Err(VmError::PointerUnderflow));
}

#[test]
fn move_left_after_move_right_is_fine() {
    let mut vm = BFVM::new();
    match vm.run(String::from("><"), Vec::new(), FUEL) {
        Ok(RunOutcome::Halted(_)) => {},
        _ => panic!("expected a halt"),
    }
    assert_eq!(vm.pointer(), 0);
    assert_eq!(vm.tape().len(), 2);
}

#[test]
fn hello_world_byte_for_byte() {
    let code = "++++++++[>++++[>++>+++>+++>+<<<<-]>+>+>->>+[<]<-]>>.>---.+++++++..+++.>>.<-.<.+++.------.--------.>>+.>++.";
    let mut vm = BFVM::new();
    match vm.run(String::from(code), Vec::new(), FUEL) {
        Ok(RunOutcome::Halted(out)) => assert_eq!(out, b"Hello World!\n".to_vec()),
        _ => panic!("expected a halt"),
    }
}

#[test]
fn input_byte_echoes_to_output() {
    let mut vm = BFVM::new();
    match vm.run(String::from(",."), vec![0x41], FUEL) {
        Ok(RunOutcome::Halted(out)) => assert_eq!(out, vec![0x41]),
        _ => panic!("expected a halt"),
    }
}

#[test]
fn exhausted_input_leaves_cell_unchanged() {
    let mut vm = BFVM::new();
    match vm.run(String::from("+++++,"), Vec::new(), FUEL) {
        Ok(RunOutcome::Halted(_)) => {},
        _ => panic!("expected a halt"),
    }
    assert_eq!(vm.tape()[0], 5);
}

#[test]
fn exhausted_input_then_output_emits_unchanged_cell() {
    let mut vm = BFVM::new();
    match vm.run(String::from(",."), Vec::new(), FUEL) {
        Ok(RunOutcome::Halted(out)) => assert_eq!(out, vec![0]),
        _ => panic!("expected a halt"),
    }
}

#[test]
fn second_read_after_exhaustion_also_leaves_cell() {
    let mut vm = BFVM::new();
    match vm.run(String::from(",>++,"), vec![7], FUEL) {
        Ok(RunOutcome::Halted(_)) => {},
        _ => panic!("expected a halt"),
    }
    assert_eq!(vm.tape()[0], 7);
    assert_eq!(vm.tape()[1], 2);
}

#[test]
fn non_instruction_characters_are_ignored() {
    let mut vm = BFVM::new();
    match vm.run(String::from("a+b +\nc!"), Vec::new(), FUEL) {
        Ok(RunOutcome::Halted(_)) => {},
        _ => panic!("expected a halt"),
    }
    assert_eq!(vm.tape()[0], 2);
}

#[test]
fn loop_multiplies() {
    let mut vm = BFVM::new();
    match vm.run(String::from("++[>+++<-]"), Vec::new(), FUEL) {
        Ok(RunOutcome::Halted(_)) => {},
        _ => panic!("expected a halt"),
    }
    assert_eq!(vm.tape()[0], 0);
    assert_eq!(vm.tape()[1], 6);
}

#[test]
fn skipped_loop_body_never_runs() {
    let mut vm = BFVM::new();
    match vm.run(String::from("[>+++<]-"), Vec::new(), FUEL) {
        Ok(RunOutcome::Halted(_)) => {},
        _ => panic!("expected a halt"),
    }
    assert_eq!(vm.tape().len(), 1);
    assert_eq!(vm.tape()[0], 255);
}

#[test]
fn endless_loop_runs_out_of_fuel() {
    let mut vm = BFVM::new();
    match vm.run(String::from("+[]"), Vec::new(), 100) {
        Ok(RunOutcome::OutOfFuel(out)) => assert!(out.is_empty()),
        _ => panic!("expected the fuel to run out"),
    }
}

#[test]
fn run_rejects_malformed_program_before_executing() {
    let mut vm = BFVM::new();
    assert_eq!(
        vm.run(String::from(".]"), Vec::new(), FUEL),
        Err(VmError::UnmatchedClose { pos: 2 })
    );
}

#[test]
fn run_rejects_unclosed_loop_before_executing() {
    let mut vm = BFVM::new();
    assert_eq!(vm.run(String::from(".["), Vec::new(), FUEL), Err(VmError::UnclosedLoop));
}
