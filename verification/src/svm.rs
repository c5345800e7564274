//! The register-machine interpreter: a bounded, deterministic executor for
//! evolved, untrusted instruction sequences.
//!
//! Register layout: register 0 is the output, registers 1..=10 hold the
//! encoded input letters, the rest are scratch; all start at zero except as
//! set by the caller. The program counter only ever moves forward, so a run
//! takes at most one step per instruction and always terminates.

use crate::fchar::{mask_clear, mask_contains, mask_set};
use crate::rng::rng_below;
use vstd::prelude::*;

verus! {

use vstd::wrapping::u32_specs;

/// Number of 32-bit registers.
pub const SVM_NUM_REGISTERS: usize = 32;

/// The twelve opcodes of the machine.
#[derive(Debug, PartialEq, Eq, Clone, Copy, Structural, Hash)]
pub enum SvmInstructionTy {
    Xor,
    Add,
    Sub,
    And,
    Oor,
    Mov,
    Shl,
    Shr,
    /// Set bit.
    Seb,
    /// Clear bit.
    Clb,
    /// Skip the next instruction if the bit is set.
    Jis,
    /// Skip the next instruction if the bit is not set.
    Jns,
}

/// Position of an opcode in the fixed opcode list, giving opcodes a total
/// order.
pub open spec fn ty_rank(ty: SvmInstructionTy) -> int {
    match ty {
        SvmInstructionTy::Xor => 0,
        SvmInstructionTy::Add => 1,
        SvmInstructionTy::Sub => 2,
        SvmInstructionTy::And => 3,
        SvmInstructionTy::Oor => 4,
        SvmInstructionTy::Mov => 5,
        SvmInstructionTy::Shl => 6,
        SvmInstructionTy::Shr => 7,
        SvmInstructionTy::Seb => 8,
        SvmInstructionTy::Clb => 9,
        SvmInstructionTy::Jis => 10,
        SvmInstructionTy::Jns => 11,
    }
}

/// An opcode that combines the destination with a source register.
pub open spec fn is_binary(ty: SvmInstructionTy) -> bool {
    ty_rank(ty) <= 5
}

/// An opcode that rewrites the destination using its operand as a literal.
pub open spec fn is_unary(ty: SvmInstructionTy) -> bool {
    6 <= ty_rank(ty) <= 9
}

/// A conditional skip.
pub open spec fn is_jump(ty: SvmInstructionTy) -> bool {
    ty_rank(ty) >= 10
}

impl SvmInstructionTy {
    /// The opcode's position in the fixed opcode list.
    pub fn rank(self) -> (r: u8)
        ensures
            r as int == ty_rank(self),
    {
        match self {
            SvmInstructionTy::Xor => 0,
            SvmInstructionTy::Add => 1,
            SvmInstructionTy::Sub => 2,
            SvmInstructionTy::And => 3,
            SvmInstructionTy::Oor => 4,
            SvmInstructionTy::Mov => 5,
            SvmInstructionTy::Shl => 6,
            SvmInstructionTy::Shr => 7,
            SvmInstructionTy::Seb => 8,
            SvmInstructionTy::Clb => 9,
            SvmInstructionTy::Jis => 10,
            SvmInstructionTy::Jns => 11,
        }
    }

    /// One opcode drawn uniformly from the twelve.
    fn random(rng: &mut rand::rngs::StdRng) -> SvmInstructionTy {
        let d = rng_below(rng, 12);
        match d {
            0 => SvmInstructionTy::Xor,
            1 => SvmInstructionTy::Add,
            2 => SvmInstructionTy::Sub,
            3 => SvmInstructionTy::And,
            4 => SvmInstructionTy::Oor,
            5 => SvmInstructionTy::Mov,
            6 => SvmInstructionTy::Shl,
            7 => SvmInstructionTy::Shr,
            8 => SvmInstructionTy::Seb,
            9 => SvmInstructionTy::Clb,
            10 => SvmInstructionTy::Jis,
            _ => SvmInstructionTy::Jns,
        }
    }
}

/// One instruction: an opcode, a destination register, and a source operand
/// that is a register index for binary opcodes and a literal bit or shift
/// amount for the others.
#[derive(Debug, PartialEq, Eq, Clone, Copy, Structural, Hash)]
pub struct SvmInstruction {
    pub ty: SvmInstructionTy,
    pub dest: u8,
    pub src: u8,
}

impl SvmInstruction {
    /// Both operand fields are in the register range.
    pub open spec fn wf(self) -> bool {
        self.dest < 32 && self.src < 32
    }

    /// One uniformly random instruction; its operands are always in range.
    pub fn random(rng: &mut rand::rngs::StdRng) -> (r: SvmInstruction)
        ensures
            r.wf(),
    {
        let ty = SvmInstructionTy::random(rng);
        let dest = rng_below(rng, 32) as u8;
        let src = rng_below(rng, 32) as u8;
        SvmInstruction { ty, dest, src }
    }
}

/// Every instruction of the sequence has in-range operands.
pub open spec fn prog_wf(prog: Seq<SvmInstruction>) -> bool {
    forall|i: int| 0 <= i < prog.len() ==> (#[trigger] prog[i]).wf()
}

/// What one call to [`SvmState::step`] reports.
#[must_use]
#[derive(Debug, Clone, Copy, PartialEq, Eq, Structural)]
pub enum StepResult {
    Continue,
    Finish,
}

/// The new value of the destination register under a binary opcode.
pub open spec fn apply_binary(ty: SvmInstructionTy, a: u32, b: u32) -> u32 {
    match ty {
        SvmInstructionTy::Xor => a ^ b,
        SvmInstructionTy::Add => u32_specs::wrapping_add(a, b),
        SvmInstructionTy::Sub => u32_specs::wrapping_sub(a, b),
        SvmInstructionTy::And => a & b,
        SvmInstructionTy::Oor => a | b,
        SvmInstructionTy::Mov => b,
        _ => a,
    }
}

/// The new value of the destination register under a unary opcode, whose
/// operand `amt` is a literal below 32.
pub open spec fn apply_unary(ty: SvmInstructionTy, a: u32, amt: u8) -> u32 {
    match ty {
        SvmInstructionTy::Shl => a << (amt as u32),
        SvmInstructionTy::Shr => a >> (amt as u32),
        SvmInstructionTy::Seb => mask_set(a, amt),
        SvmInstructionTy::Clb => mask_clear(a, amt),
        _ => a,
    }
}

/// Whether a conditional skip fires, testing bit `bit` of `val`.
pub open spec fn jump_taken(ty: SvmInstructionTy, val: u32, bit: u8) -> bool {
    match ty {
        SvmInstructionTy::Jis => mask_contains(val, bit),
        SvmInstructionTy::Jns => !mask_contains(val, bit),
        _ => false,
    }
}

/// The effect of one instruction: the report of `step`, the next program
/// counter and the new register file. Past the end of the sequence nothing
/// changes and the machine reports `Finish`.
pub open spec fn step_spec(prog: Seq<SvmInstruction>, pc: int, mem: Seq<u32>) -> (
    StepResult,
    int,
    Seq<u32>,
) {
    if pc < 0 || pc >= prog.len() {
        (StepResult::Finish, pc, mem)
    } else {
        let ins = prog[pc];
        if is_binary(ins.ty) {
            (
                StepResult::Continue,
                pc + 1,
                mem.update(
                    ins.dest as int,
                    apply_binary(ins.ty, mem[ins.dest as int], mem[ins.src as int]),
                ),
            )
        } else if is_unary(ins.ty) {
            (
                StepResult::Continue,
                pc + 1,
                mem.update(ins.dest as int, apply_unary(ins.ty, mem[ins.dest as int], ins.src)),
            )
        } else {
            let next = if jump_taken(ins.ty, mem[ins.dest as int], ins.src) {
                if pc + 2 <= prog.len() {
                    pc + 2
                } else {
                    prog.len() as int
                }
            } else {
                pc + 1
            };
            (StepResult::Continue, next, mem)
        }
    }
}

/// A step from inside the sequence always moves the counter forward and
/// never past the end: the machine is guaranteed to terminate.
pub proof fn lemma_step_advances(prog: Seq<SvmInstruction>, pc: int, mem: Seq<u32>)
    requires
        0 <= pc < prog.len(),
    ensures
        pc < step_spec(prog, pc, mem).1 <= prog.len(),
        step_spec(prog, pc, mem).0 == StepResult::Continue,
{
}

/// The register file after running from `pc` to exhaustion.
pub open spec fn run_spec(prog: Seq<SvmInstruction>, pc: int, mem: Seq<u32>) -> Seq<u32>
    decreases prog.len() - pc,
{
    if pc < 0 || pc >= prog.len() {
        mem
    } else {
        let t = step_spec(prog, pc, mem);
        run_spec(prog, t.1, t.2)
    }
}

/// Number of instructions a run from `pc` executes before it finishes.
pub open spec fn run_steps(prog: Seq<SvmInstruction>, pc: int, mem: Seq<u32>) -> int
    decreases prog.len() - pc,
{
    if pc < 0 || pc >= prog.len() {
        0
    } else {
        let t = step_spec(prog, pc, mem);
        1 + run_steps(prog, t.1, t.2)
    }
}

/// A run executes at most one instruction per remaining instruction: the
/// bounded-execution guarantee that makes evolved, untrusted programs
/// safe to run.
pub proof fn lemma_run_bounded(prog: Seq<SvmInstruction>, pc: int, mem: Seq<u32>)
    requires
        0 <= pc <= prog.len(),
    ensures
        0 <= run_steps(prog, pc, mem) <= prog.len() - pc,
    decreases prog.len() - pc,
{
    if pc < prog.len() {
        let t = step_spec(prog, pc, mem);
        lemma_step_advances(prog, pc, mem);
        lemma_run_bounded(prog, t.1, t.2);
    }
}

/// The all-zero register file the machine starts from.
pub open spec fn zero_mem() -> Seq<u32> {
    Seq::new(SVM_NUM_REGISTERS as nat, |i: int| 0u32)
}

/// The machine: a finite instruction sequence, a forward-only program
/// counter, and 32 registers.
#[derive(Debug)]
pub struct SvmState {
    instructions: Vec<SvmInstruction>,
    pc: usize,
    memory: Vec<u32>,
}

impl SvmState {
    /// The instruction sequence being executed.
    pub closed spec fn spec_instructions(self) -> Seq<SvmInstruction> {
        self.instructions@
    }

    /// The next instruction to execute.
    pub closed spec fn spec_pc(self) -> int {
        self.pc as int
    }

    /// The register file.
    pub closed spec fn spec_memory(self) -> Seq<u32> {
        self.memory@
    }

    /// 32 registers, a counter inside the sequence, in-range operands.
    pub open spec fn wf(self) -> bool {
        &&& self.spec_memory().len() == 32
        &&& 0 <= self.spec_pc() <= self.spec_instructions().len()
        &&& prog_wf(self.spec_instructions())
    }

    /// A fresh machine over the given sequence, with zeroed registers.
    pub fn new(instructions: Vec<SvmInstruction>) -> (r: SvmState)
        requires
            prog_wf(instructions@),
        ensures
            r.wf(),
            r.spec_instructions() == instructions@,
            r.spec_pc() == 0,
            r.spec_memory() == zero_mem(),
    {
        let mut memory: Vec<u32> = Vec::new();
        let mut i: usize = 0;
        while i < SVM_NUM_REGISTERS
            invariant
                i <= SVM_NUM_REGISTERS,
                memory@.len() == i,
                forall|j: int| 0 <= j < i ==> memory@[j] == 0u32,
            decreases SVM_NUM_REGISTERS - i,
        {
            memory.push(0);
            i = i + 1;
        }
        proof {
            assert(memory@ =~= zero_mem());
        }
        SvmState { instructions, pc: 0, memory }
    }

    /// Read-only access to the register file.
    pub fn memory(&self) -> (r: &Vec<u32>)
        ensures
            r@ == self.spec_memory(),
    {
        &self.memory
    }

    /// Mutable access to the register file, for loading inputs. The caller
    /// must keep its length at 32 for the machine to stay well formed.
    pub fn memory_mut(&mut self) -> (r: &mut Vec<u32>)
        ensures
            r@ == old(self).spec_memory(),
            final(self).spec_memory() == final(r)@,
            final(self).spec_instructions() == old(self).spec_instructions(),
            final(self).spec_pc() == old(self).spec_pc(),
    {
        &mut self.memory
    }

    /// The value of register `i`.
    pub fn get(&self, i: u8) -> (r: u32)
        requires
            self.wf(),
            i < 32,
        ensures
            r == self.spec_memory()[i as int],
    {
        self.memory[i as usize]
    }

    /// Applies a binary opcode: `dest` is combined with register `src`.
    pub fn oper2(&mut self, dest: u8, src: u8, ty: SvmInstructionTy) -> (r: ())
        requires
            old(self).wf(),
            dest < 32,
            src < 32,
        ensures
            final(self).wf(),
            final(self).spec_instructions() == old(self).spec_instructions(),
            final(self).spec_pc() == old(self).spec_pc(),
            final(self).spec_memory() == old(self).spec_memory().update(
                dest as int,
                apply_binary(
                    ty,
                    old(self).spec_memory()[dest as int],
                    old(self).spec_memory()[src as int],
                ),
            ),
    {
        let a = self.memory[dest as usize];
        let b = self.memory[src as usize];
        let v = match ty {
            SvmInstructionTy::Xor => a ^ b,
            SvmInstructionTy::Add => a.wrapping_add(b),
            SvmInstructionTy::Sub => a.wrapping_sub(b),
            SvmInstructionTy::And => a & b,
            SvmInstructionTy::Oor => a | b,
            SvmInstructionTy::Mov => b,
            _ => a,
        };
        self.memory[dest as usize] = v;
    }

    /// Applies a unary opcode: `dest` is rewritten using `amt` as a literal.
    pub fn oper1(&mut self, dest: u8, amt: u8, ty: SvmInstructionTy) -> (r: ())
        requires
            old(self).wf(),
            dest < 32,
            amt < 32,
        ensures
            final(self).wf(),
            final(self).spec_instructions() == old(self).spec_instructions(),
            final(self).spec_pc() == old(self).spec_pc(),
            final(self).spec_memory() == old(self).spec_memory().update(
                dest as int,
                apply_unary(ty, old(self).spec_memory()[dest as int], amt),
            ),
    {
        let a = self.memory[dest as usize];
        let v = match ty {
            SvmInstructionTy::Shl => a << (amt as u32),
            SvmInstructionTy::Shr => a >> (amt as u32),
            SvmInstructionTy::Seb => a | (1u32 << (amt as u32)),
            SvmInstructionTy::Clb => a & !(1u32 << (amt as u32)),
            _ => a,
        };
        self.memory[dest as usize] = v;
    }

    /// Executes one instruction, or reports `Finish` once the sequence is
    /// exhausted. A skip that points past the end is a no-op.
    pub fn step(&mut self) -> (r: StepResult)
        requires
            old(self).wf(),
        ensures
            final(self).wf(),
            final(self).spec_instructions() == old(self).spec_instructions(),
            ({
                let t = step_spec(
                    old(self).spec_instructions(),
                    old(self).spec_pc(),
                    old(self).spec_memory(),
                );
                r == t.0 && final(self).spec_pc() == t.1 && final(self).spec_memory() == t.2
            }),
    {
        if self.pc >= self.instructions.len() {
            return StepResult::Finish;
        }
        let ins = self.instructions[self.pc];
        match ins.ty {
            SvmInstructionTy::Xor
            | SvmInstructionTy::Add
            | SvmInstructionTy::Sub
            | SvmInstructionTy::And
            | SvmInstructionTy::Oor
            | SvmInstructionTy::Mov => {
                self.oper2(ins.dest, ins.src, ins.ty);
                self.pc = self.pc + 1;
            },
            SvmInstructionTy::Shl
            | SvmInstructionTy::Shr
            | SvmInstructionTy::Seb
            | SvmInstructionTy::Clb => {
                self.oper1(ins.dest, ins.src, ins.ty);
                self.pc = self.pc + 1;
            },
            SvmInstructionTy::Jis | SvmInstructionTy::Jns => {
                let val = self.get(ins.dest);
                let bit_set = val & (1u32 << (ins.src as u32)) != 0;
                let taken = if matches!(ins.ty, SvmInstructionTy::Jis) {
                    bit_set
                } else {
                    !bit_set
                };
                if taken {
                    if self.pc + 1 < self.instructions.len() {
                        self.pc = self.pc + 2;
                    } else {
                        self.pc = self.instructions.len();
                    }
                } else {
                    self.pc = self.pc + 1;
                }
            },
        }
        StepResult::Continue
    }

    /// Runs the machine until the sequence is exhausted.
    pub fn run_to_finish(&mut self) -> (r: ())
        requires
            old(self).wf(),
        ensures
            final(self).wf(),
            final(self).spec_instructions() == old(self).spec_instructions(),
            final(self).spec_pc() == old(self).spec_instructions().len(),
            final(self).spec_memory() == run_spec(
                old(self).spec_instructions(),
                old(self).spec_pc(),
                old(self).spec_memory(),
            ),
    {
        let ghost prog0 = old(self).spec_instructions();
        let ghost pc0 = old(self).spec_pc();
        let ghost mem0 = old(self).spec_memory();
        loop
            invariant
                self.wf(),
                self.spec_instructions() == prog0,
                run_spec(prog0, self.spec_pc(), self.spec_memory()) == run_spec(prog0, pc0, mem0),
            ensures
                self.wf(),
                self.spec_instructions() == prog0,
                self.spec_pc() == prog0.len(),
                self.spec_memory() == run_spec(prog0, pc0, mem0),
            decreases prog0.len() - self.spec_pc(),
        {
            let r = self.step();
            if matches!(r, StepResult::Finish) {
                break ;
            }
        }
    }
}

/// On an empty sequence `step` finishes at once and changes nothing; on a
/// one-instruction sequence it continues once and then finishes.
pub proof fn lemma_step_termination(prog: Seq<SvmInstruction>, mem: Seq<u32>)
    ensures
        prog.len() == 0 ==> step_spec(prog, 0, mem) == (StepResult::Finish, 0int, mem),
        prog.len() == 1 ==> ({
            let t = step_spec(prog, 0, mem);
            &&& t.0 == StepResult::Continue
            &&& t.1 == 1
            &&& step_spec(prog, t.1, t.2).0 == StepResult::Finish
        }),
{
}

/// A program of the single instruction `Seb(dest=0, src=k)` sets exactly
/// bit `k` of register 0 and nothing else, for every `k` below 32.
pub proof fn lemma_seb_sets_exactly_one_bit(k: u8, j: u8)
    requires
        k < 32,
        j < 32,
    ensures
        ({
            let prog = seq![SvmInstruction { ty: SvmInstructionTy::Seb, dest: 0, src: k }];
            let memf = run_spec(prog, 0, zero_mem());
            &&& memf[0] == 1u32 << (k as u32)
            &&& (mask_contains(memf[0], j) <==> j == k)
        }),
{
    let prog = seq![SvmInstruction { ty: SvmInstructionTy::Seb, dest: 0, src: k }];
    let t = step_spec(prog, 0, zero_mem());
    assert(run_spec(prog, 0, zero_mem()) == run_spec(prog, t.1, t.2));
    assert(t.2 == zero_mem().update(0, mask_set(0u32, k)));
    assert(run_spec(prog, t.1, t.2) == t.2);
    assert(t.2[0] == mask_set(0u32, k));
    assert(mask_set(0u32, k) == 1u32 << (k as u32)) by (bit_vector);
    assert(mask_contains(1u32 << (k as u32), j) <==> j == k) by (bit_vector)
        requires
            k < 32,
            j < 32,
    ;
}

/// A program `Jis(dest=0, src=k); Seb(dest=0, src=k+1)`: if bit `k` of
/// register 0 is set, the skip fires and the registers are left unchanged;
/// if it is clear, the `Seb` runs and sets bit `k+1` of register 0.
pub proof fn lemma_jis_skip(k: u8, mem: Seq<u32>)
    requires
        k < 31,
        mem.len() == 32,
    ensures
        ({
            let prog = seq![
                SvmInstruction { ty: SvmInstructionTy::Jis, dest: 0, src: k },
                SvmInstruction { ty: SvmInstructionTy::Seb, dest: 0, src: (k + 1) as u8 },
            ];
            let memf = run_spec(prog, 0, mem);
            &&& mask_contains(mem[0], k) ==> memf == mem
            &&& !mask_contains(mem[0], k) ==> memf == mem.update(
                0,
                mask_set(mem[0], (k + 1) as u8),
            )
        }),
{
    let prog = seq![
        SvmInstruction { ty: SvmInstructionTy::Jis, dest: 0, src: k },
        SvmInstruction { ty: SvmInstructionTy::Seb, dest: 0, src: (k + 1) as u8 },
    ];
    let t = step_spec(prog, 0, mem);
    assert(run_spec(prog, 0, mem) == run_spec(prog, t.1, t.2));
    if mask_contains(mem[0], k) {
        assert(t.1 == 2 && t.2 == mem);
    } else {
        assert(t.1 == 1 && t.2 == mem);
        let t2 = step_spec(prog, 1, mem);
        assert(run_spec(prog, 1, mem) == run_spec(prog, t2.1, t2.2));
        assert(t2.2 == mem.update(0, mask_set(mem[0], (k + 1) as u8)));
    }
}

} // verus!
