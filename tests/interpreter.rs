use threebit::machine::{
    check_output, combo_value, decode_instruction, exec, parse_instructions, run_program,
    shift_right, Execution, ExecError, Instruction, Program, Registers,
};

fn program(words: &[u64]) -> Program {
    Program::new(words.to_vec()).expect("program decodes")
}

fn run(a: u64, b: u64, c: u64, words: &[u64]) -> Result<Execution, ExecError> {
    run_program(&Registers::new(a, b, c), &program(words), 1_000_000)
}

fn rendered(output: &[u64]) -> String {
    output.iter().map(|v| v.to_string()).collect::<Vec<_>>().join(",")
}

#[test]
fn scenario_divide_and_print_loop() {
    let e = run(729, 0, 0, &[0, 1, 5, 4, 3, 0]).unwrap();
    assert_eq!(rendered(&e.output), "4,6,3,5,6,3,5,2,1,0");
}

#[test]
fn scenario_print_literals() {
    let e = run(10, 0, 0, &[5, 0, 5, 1, 5, 4]).unwrap();
    assert_eq!(rendered(&e.output), "0,1,2");
}

#[test]
fn scenario_loop_ends_with_a_zero() {
    let e = run(2024, 0, 0, &[0, 1, 5, 4, 3, 0]).unwrap();
    assert_eq!(rendered(&e.output), "4,2,5,6,7,7,7,7,3,1,0");
    assert_eq!(e.registers.a, 0);
}

#[test]
fn scenario_bxl_xors_literal() {
    let e = run(0, 29, 0, &[1, 7]).unwrap();
    assert!(e.output.is_empty());
    assert_eq!(e.registers.b, 26);
}

#[test]
fn scenario_bxc_xors_c_into_b() {
    let e = run(0, 2024, 43690, &[4, 0]).unwrap();
    assert!(e.output.is_empty());
    assert_eq!(e.registers.b, 44354);
}

#[test]
fn scenario_bst_takes_low_bits() {
    let e = run(0, 0, 9, &[2, 6]).unwrap();
    assert_eq!(e.registers.b, 1);
}

#[test]
fn scenario_bdv_and_cdv_shift_a() {
    let e = run(100, 0, 0, &[6, 2, 7, 3]).unwrap();
    assert_eq!(e.registers.b, 25);
    assert_eq!(e.registers.c, 12);
    assert_eq!(e.registers.a, 100);
}

#[test]
fn invalid_opcode_fails_to_decode() {
    assert_eq!(Program::new(vec![9, 0, 5, 4]).err(), Some(ExecError::InvalidOpcode));
    assert_eq!(decode_instruction(9, 0), Err(ExecError::InvalidOpcode));
    // The whole program is decoded before any instruction runs.
    let regs = Registers::new(7, 8, 9);
    let outcome = Program::new(vec![5, 4, 9, 1]).map(|p| run_program(&regs, &p, 100));
    assert!(matches!(outcome, Err(ExecError::InvalidOpcode)));
    assert_eq!(regs, Registers::new(7, 8, 9));
}

#[test]
fn combo_seven_fails_to_decode() {
    assert_eq!(Program::new(vec![0, 7]).err(), Some(ExecError::InvalidCombo));
    assert_eq!(decode_instruction(5, 7), Err(ExecError::InvalidCombo));
    // A literal operand of 7 is fine.
    assert_eq!(decode_instruction(1, 7), Ok(Instruction::Bxl(7)));
}

#[test]
fn decode_every_opcode() {
    assert_eq!(decode_instruction(0, 4), Ok(Instruction::Adv(4)));
    assert_eq!(decode_instruction(2, 6), Ok(Instruction::Bst(6)));
    assert_eq!(decode_instruction(3, 0), Ok(Instruction::Jnz(0)));
    assert_eq!(decode_instruction(4, 7), Ok(Instruction::Bxc));
    assert_eq!(decode_instruction(6, 1), Ok(Instruction::Bdv(1)));
    assert_eq!(decode_instruction(7, 5), Ok(Instruction::Cdv(5)));
    assert_eq!(
        parse_instructions(&vec![0, 3, 5, 4, 3, 0]),
        Ok(vec![Instruction::Adv(3), Instruction::Out(4), Instruction::Jnz(0)])
    );
}

#[test]
fn trailing_word_is_no_instruction() {
    assert_eq!(parse_instructions(&vec![5, 4, 1]), Ok(vec![Instruction::Out(4)]));
    let e = run(3, 0, 0, &[5, 4, 1]).unwrap();
    assert_eq!(e.output, vec![3]);
}

#[test]
fn jump_to_odd_index_is_rejected() {
    assert_eq!(run(1, 0, 0, &[3, 1, 5, 4]).err(), Some(ExecError::JumpOutOfRange));
}

#[test]
fn jump_past_the_end_is_rejected() {
    assert_eq!(run(1, 0, 0, &[3, 4, 5, 4]).err(), Some(ExecError::JumpOutOfRange));
    // Not taken when A is zero.
    let e = run(0, 0, 0, &[3, 4, 5, 4]).unwrap();
    assert_eq!(e.output, vec![0]);
}

#[test]
fn endless_loop_runs_out_of_fuel() {
    let p = program(&[3, 0]);
    let r = run_program(&Registers::new(1, 0, 0), &p, 1000);
    assert_eq!(r.err(), Some(ExecError::FuelExhausted));
}

#[test]
fn budget_counts_executed_instructions() {
    let p = program(&[5, 4, 5, 4]);
    assert_eq!(run_program(&Registers::new(1, 0, 0), &p, 2).unwrap().output, vec![1, 1]);
    assert_eq!(
        run_program(&Registers::new(1, 0, 0), &p, 1).err(),
        Some(ExecError::FuelExhausted)
    );
}

#[test]
fn empty_program_halts_at_once() {
    let e = run(5, 6, 7, &[]).unwrap();
    assert!(e.output.is_empty());
    assert_eq!(e.registers, Registers::new(5, 6, 7));
}

#[test]
fn repeated_runs_agree() {
    let p = program(&[0, 1, 5, 4, 3, 0]);
    let regs = Registers::new(2024, 0, 0);
    let first = run_program(&regs, &p, 10_000).unwrap();
    let second = run_program(&regs, &p, 10_000).unwrap();
    assert_eq!(first.output, second.output);
    assert_eq!(first.registers, second.registers);
    let larger = run_program(&regs, &p, 1_000_000).unwrap();
    assert_eq!(first.output, larger.output);
}

#[test]
fn combo_reads_registers_when_executed() {
    // A is halved first; the following Out(4) prints the new A.
    let e = run(24, 0, 0, &[0, 1, 5, 4]).unwrap();
    assert_eq!(e.output, vec![4]);
    // B changes between two prints of combo 5.
    let e = run(0, 3, 0, &[5, 5, 1, 6, 5, 5]).unwrap();
    assert_eq!(e.output, vec![3, 5]);
}

#[test]
fn combo_value_resolves_operands() {
    let regs = Registers::new(10, 20, 30);
    assert_eq!(combo_value(3, &regs), 3);
    assert_eq!(combo_value(4, &regs), 10);
    assert_eq!(combo_value(5, &regs), 20);
    assert_eq!(combo_value(6, &regs), 30);
}

#[test]
fn exec_reports_output_and_jump() {
    let mut regs = Registers::new(13, 0, 0);
    assert_eq!(exec(&Instruction::Out(4), &mut regs), (Some(5), None));
    assert_eq!(exec(&Instruction::Jnz(6), &mut regs), (None, Some(6)));
    assert_eq!(exec(&Instruction::Adv(2), &mut regs), (None, None));
    assert_eq!(regs.a, 3);
}

#[test]
fn wide_shifts_give_zero() {
    assert_eq!(shift_right(u64::MAX, 63), 1);
    assert_eq!(shift_right(u64::MAX, 64), 0);
    assert_eq!(shift_right(12345, 1000), 0);
    let e = run(5, 100, 0, &[0, 5]).unwrap();
    assert_eq!(e.registers.a, 0);
}

#[test]
fn check_output_counts_matching_prefix() {
    let p = program(&[0, 1, 5, 4, 3, 0]);
    let regs = Registers::new(729, 0, 0);
    assert_eq!(check_output(&regs, &p, &vec![4, 6, 3, 9], 1000), Ok(3));
    assert_eq!(check_output(&regs, &p, &vec![4, 6], 1000), Ok(2));
    assert_eq!(
        check_output(&regs, &p, &vec![4, 6, 3, 5, 6, 3, 5, 2, 1, 0], 1000),
        Ok(10)
    );
    assert_eq!(check_output(&regs, &p, &vec![1], 1000), Ok(0));
    // Stops at the first mismatch, before the endless loop shows.
    let looping = program(&[5, 4, 3, 0]);
    assert_eq!(check_output(&Registers::new(1, 0, 0), &looping, &vec![2], 1000), Ok(0));
}
