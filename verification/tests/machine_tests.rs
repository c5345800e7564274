use rand::SeedableRng;
use sfwsvm::svm::{StepResult, SvmInstruction, SvmInstructionTy, SvmState};

fn ins(ty: SvmInstructionTy, dest: u8, src: u8) -> SvmInstruction {
    SvmInstruction { ty, dest, src }
}

#[test]
fn step_on_empty_sequence_finishes_immediately() {
    let mut state = SvmState::new(Vec::new());
    assert_eq!(state.step(), StepResult::Finish);
    assert_eq!(state.step(), StepResult::Finish);
}

#[test]
fn one_instruction_continues_then_finishes() {
    let mut state = SvmState::new(vec![ins(SvmInstructionTy::Xor, 0, 0)]);
    assert_eq!(state.step(), StepResult::Continue);
    assert_eq!(state.step(), StepResult::Finish);
}

#[test]
fn seb_sets_exactly_one_bit() {
    for k in 0..32u8 {
        let mut state = SvmState::new(vec![ins(SvmInstructionTy::Seb, 0, k)]);
        state.run_to_finish();
        assert_eq!(state.memory()[0], 1u32 << k);
    }
}

#[test]
fn jis_skips_when_bit_set() {
    for k in 0..31u8 {
        // Bit k pre-set: the Seb is skipped, bit k+1 stays unset.
        let prog = vec![ins(SvmInstructionTy::Jis, 0, k), ins(SvmInstructionTy::Seb, 0, k + 1)];
        let mut state = SvmState::new(prog.clone());
        state.memory_mut()[0] = 1u32 << k;
        state.run_to_finish();
        assert_eq!(state.memory()[0], 1u32 << k);

        // Bit k clear: the Seb executes and sets bit k+1.
        let mut state = SvmState::new(prog);
        state.run_to_finish();
        assert_eq!(state.memory()[0], 1u32 << (k + 1));
    }
}

#[test]
fn binary_opcodes_compute_expected_values() {
    // dest = register 1, src = register 2.
    let cases: Vec<(SvmInstructionTy, u32, u32, u32)> = vec![
        (SvmInstructionTy::Xor, 0b1100, 0b1010, 0b0110),
        (SvmInstructionTy::Add, u32::MAX, 1, 0),
        (SvmInstructionTy::Add, 2, 3, 5),
        (SvmInstructionTy::Sub, 0, 1, u32::MAX),
        (SvmInstructionTy::Sub, 7, 2, 5),
        (SvmInstructionTy::And, 0b1100, 0b1010, 0b1000),
        (SvmInstructionTy::Oor, 0b1100, 0b1010, 0b1110),
        (SvmInstructionTy::Mov, 123, 456, 456),
    ];
    for (ty, a, b, expected) in cases {
        let mut state = SvmState::new(vec![ins(ty, 1, 2)]);
        state.memory_mut()[1] = a;
        state.memory_mut()[2] = b;
        state.run_to_finish();
        assert_eq!(state.memory()[1], expected, "{:?}", ty);
    }
}

#[test]
fn unary_opcodes_use_literal_operand() {
    let cases: Vec<(SvmInstructionTy, u32, u8, u32)> = vec![
        (SvmInstructionTy::Shl, 0b1, 4, 0b10000),
        (SvmInstructionTy::Shr, 0b10000, 4, 0b1),
        (SvmInstructionTy::Seb, 0, 5, 0b100000),
        (SvmInstructionTy::Clb, 0b110000, 4, 0b100000),
    ];
    for (ty, a, amt, expected) in cases {
        let mut state = SvmState::new(vec![ins(ty, 1, amt)]);
        state.memory_mut()[1] = a;
        state.run_to_finish();
        assert_eq!(state.memory()[1], expected, "{:?}", ty);
    }
}

#[test]
fn jns_skips_when_bit_clear() {
    let prog = vec![ins(SvmInstructionTy::Jns, 0, 3), ins(SvmInstructionTy::Seb, 0, 4)];
    let mut state = SvmState::new(prog.clone());
    state.run_to_finish();
    assert_eq!(state.memory()[0], 0);

    let mut state = SvmState::new(prog);
    state.memory_mut()[0] = 1 << 3;
    state.run_to_finish();
    assert_eq!(state.memory()[0], (1 << 3) | (1 << 4));
}

#[test]
fn trailing_skip_is_a_no_op() {
    let mut state = SvmState::new(vec![ins(SvmInstructionTy::Jns, 0, 0)]);
    assert_eq!(state.step(), StepResult::Continue);
    assert_eq!(state.step(), StepResult::Finish);
    assert_eq!(state.memory()[0], 0);
}

#[test]
fn fresh_machine_is_zeroed() {
    let state = SvmState::new(Vec::new());
    assert_eq!(state.memory().len(), 32);
    assert!(state.memory().iter().all(|r| *r == 0));
}

#[test]
fn random_instruction_is_in_range() {
    let mut rng = rand::rngs::StdRng::seed_from_u64(5);
    for _ in 0..200 {
        let i = SvmInstruction::random(&mut rng);
        assert!(i.dest < 32);
        assert!(i.src < 32);
    }
}
