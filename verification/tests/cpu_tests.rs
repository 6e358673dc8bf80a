//! Tests of the execution engine on hand-assembled byte images.

use tinyvm::cpu::{Cpu, ExecutionFault, RunResult, StepOutcome};

fn exit_code(r: RunResult) -> u8 {
    match r {
        RunResult::Exited(code) => code,
        other => panic!("expected an exit, got {:?}", other),
    }
}

#[test]
fn test_cpu() {
    let mut bytes = Vec::new();

    // Jump
    bytes.push(12);
    bytes.append(&mut vec![0, 0, 0, 8]);
    // Store values
    bytes.push(10);
    bytes.push(5);
    bytes.push(0);
    // Load register A
    bytes.push(6);
    bytes.append(&mut vec![0, 0, 0, 5]);
    // Load register B
    bytes.push(7);
    bytes.append(&mut vec![0, 0, 0, 6]);
    // Add
    bytes.push(3);
    // Store C
    bytes.push(11);
    bytes.append(&mut vec![0, 0, 0, 7]);
    // Exit
    bytes.push(2);
    bytes.push(0);

    println!("{:?}", bytes);

    let mut cpu = Cpu::new(bytes).unwrap();
    let code = exit_code(cpu.run(1_000));
    let memory = cpu.memory();
    println!("{:?}", memory);
    let data = cpu.get_memory(7);
    println!("Code {code} | Data {data}");
    assert_eq!(code, 0);
    assert_eq!(data, 15);
}

#[test]
fn exit_returns_its_code() {
    let mut cpu = Cpu::new(vec![2, 7]).unwrap();
    assert_eq!(cpu.run(10), RunResult::Exited(7));
}

#[test]
fn exit_code_255_round_trips() {
    let mut cpu = Cpu::new(vec![2, 255]).unwrap();
    assert_eq!(cpu.run(10), RunResult::Exited(255));
}

#[test]
fn add_wraps_at_256() {
    // LoadA 200, LoadB 100, Add, StoreC, Exit 0; data cells at 20 and 21,
    // result cell at 22.
    let bytes = vec![
        6, 0, 0, 0, 20, // LoadA
        7, 0, 0, 0, 21, // LoadB
        3, // Add
        11, 0, 0, 0, 22, // StoreC
        2, 0, // Exit 0
        0, 0, 200, 100, 0,
    ];
    let mut cpu = Cpu::new(bytes).unwrap();
    assert_eq!(cpu.run(100), RunResult::Exited(0));
    assert_eq!(cpu.get_memory(22), 44);
}

#[test]
fn subtract_wraps_below_zero() {
    let bytes = vec![
        6, 0, 0, 0, 20, // LoadA 10
        7, 0, 0, 0, 21, // LoadB 20
        4, // Subtract
        11, 0, 0, 0, 22, // StoreC
        2, 0, // Exit 0
        0, 0, 10, 20, 0,
    ];
    let mut cpu = Cpu::new(bytes).unwrap();
    assert_eq!(cpu.run(100), RunResult::Exited(0));
    assert_eq!(cpu.get_memory(22), 246);
}

#[test]
fn multiply_wraps_at_256() {
    let bytes = vec![
        6, 0, 0, 0, 20, // LoadA 20
        7, 0, 0, 0, 21, // LoadB 20
        5, // Multiply
        11, 0, 0, 0, 22, // StoreC
        2, 0, // Exit 0
        0, 0, 20, 20, 0,
    ];
    let mut cpu = Cpu::new(bytes).unwrap();
    assert_eq!(cpu.run(100), RunResult::Exited(0));
    assert_eq!(cpu.get_memory(22), 144);
}

#[test]
fn jeq_taken_lands_exactly_on_target() {
    // Registers start equal (both zero), so the Jeq is taken to address 6.
    // Byte 5 holds garbage that would fault if the program counter landed
    // one byte short; byte 6 starts `Exit 42`.
    let bytes = vec![13, 0, 0, 0, 6, 99, 2, 42];
    let mut cpu = Cpu::new(bytes).unwrap();
    assert_eq!(cpu.run(10), RunResult::Exited(42));
}

#[test]
fn jeq_not_taken_advances_past_operand() {
    // LoadA makes A differ from B, so the Jeq falls through to `Exit 3`.
    let bytes = vec![
        6, 0, 0, 0, 12, // LoadA 1
        13, 0, 0, 0, 0, // Jeq (not taken)
        2, 3, // Exit 3
        1,
    ];
    let mut cpu = Cpu::new(bytes).unwrap();
    assert_eq!(cpu.run(10), RunResult::Exited(3));
}

#[test]
fn jump_beyond_memory_faults() {
    let bytes = vec![12, 0, 0, 0, 99];
    let mut cpu = Cpu::new(bytes).unwrap();
    assert_eq!(
        cpu.run(10),
        RunResult::Faulted(ExecutionFault::OutOfBounds(99))
    );
}

#[test]
fn load_beyond_memory_faults() {
    let bytes = vec![6, 0, 0, 0, 200];
    let mut cpu = Cpu::new(bytes).unwrap();
    assert_eq!(
        cpu.run(10),
        RunResult::Faulted(ExecutionFault::OutOfBounds(200))
    );
}

#[test]
fn unknown_opcode_faults() {
    let mut cpu = Cpu::new(vec![0]).unwrap();
    assert_eq!(
        cpu.run(10),
        RunResult::Faulted(ExecutionFault::UnknownOpcode(0))
    );
    let mut cpu = Cpu::new(vec![17]).unwrap();
    assert_eq!(
        cpu.run(10),
        RunResult::Faulted(ExecutionFault::UnknownOpcode(17))
    );
}

#[test]
fn truncated_instruction_faults() {
    // An Exit opcode with its code byte cut off by the end of memory.
    let mut cpu = Cpu::new(vec![1, 2]).unwrap();
    assert_eq!(
        cpu.run(10),
        RunResult::Faulted(ExecutionFault::OutOfBounds(2))
    );
}

#[test]
fn empty_budget_reports_still_running() {
    let mut cpu = Cpu::new(vec![2, 7]).unwrap();
    assert_eq!(cpu.run(0), RunResult::Running);
    assert_eq!(cpu.run(1), RunResult::Exited(7));
}

#[test]
fn spinning_jump_never_exits() {
    // A jump to its own address loops forever; the budget stops it.
    let mut cpu = Cpu::new(vec![12, 0, 0, 0, 0]).unwrap();
    assert_eq!(cpu.run(10_000), RunResult::Running);
}

#[test]
fn step_executes_one_instruction() {
    let mut cpu = Cpu::new(vec![1, 2, 9]).unwrap();
    assert_eq!(cpu.step(), StepOutcome::Continued);
    assert_eq!(cpu.step(), StepOutcome::Exited(9));
}

#[test]
fn store_then_load_observes_stored_value() {
    // LoadA reads 77 from address 15, StoreA copies it to address 16, and
    // the LoadB straight after observes the just-stored value.
    let bytes = vec![
        6, 0, 0, 0, 15, // LoadA
        9, 0, 0, 0, 16, // StoreA
        7, 0, 0, 0, 16, // LoadB
        77, 0,
    ];
    let mut cpu = Cpu::new(bytes).unwrap();
    assert_eq!(cpu.step(), StepOutcome::Continued);
    assert_eq!(cpu.step(), StepOutcome::Continued);
    assert_eq!(cpu.get_memory(16), 77);
    assert_eq!(cpu.step(), StepOutcome::Continued);
    assert_eq!(cpu.get_memory(15), 77);
}

#[test]
fn memory_helpers_read_and_write() {
    let mut cpu = Cpu::new(vec![1, 2, 3, 0, 0, 0, 9]).unwrap();
    assert_eq!(cpu.current_memory(), 1);
    assert_eq!(cpu.memory_next_byte(), 2);
    cpu.increment_ptr();
    assert_eq!(cpu.current_memory(), 2);
    cpu.set_ptr(2);
    assert_eq!(cpu.memory_next_address(), 9);
    cpu.set_memory(0, 42);
    assert_eq!(cpu.get_memory(0), 42);
    assert_eq!(cpu.memory().len(), 7);
    assert_eq!(cpu.memory()[0], 42);
}
