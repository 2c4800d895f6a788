use vstd::prelude::*;
use vstd::std_specs::cmp::PartialEqSpec;

verus! {

/// What executing one instruction asks of the shell.
#[derive(Clone, Copy, Eq, PartialEq, Structural, Debug)]
pub enum InstructionResult {
    Proceed,
    Halt,
    Break,
    Error,
    JumpFwd(usize),
    JumpBck(usize),
}

/// Why a run of the machine stopped.
#[derive(Clone, Copy, Eq, PartialEq, Structural, Debug)]
pub enum RunResult {
    Proceed,
    Halt,
    Break,
    Error,
}

/// An instruction interpreter supplied by the caller: it may read and write
/// the whole machine state.
pub trait CPU<RegKey, RegVal: Copy, Instr> {
    fn execute_instruction(
        &self,
        vm: &mut VM<RegKey, RegVal, Instr>,
        i: &Instr,
    ) -> InstructionResult;
}

/// A register machine: a program, a register file filled on first write, and
/// a program counter. The register file keeps keys and values at matching
/// positions.
pub struct VM<RegKey, RegVal: Copy, Instr> {
    pub program: Vec<Instr>,
    pub reg_keys: Vec<RegKey>,
    pub reg_vals: Vec<RegVal>,
    pub register_default: RegVal,
    pub pc: usize,
}

impl<RegKey: PartialEq, RegVal: Copy, Instr> VM<RegKey, RegVal, Instr> {
    /// The two halves of the register file line up.
    pub open spec fn regs_wf(&self) -> bool {
        self.reg_keys@.len() == self.reg_vals@.len()
    }

    fn new(program: Vec<Instr>, register_default: RegVal) -> (r: Self)
        ensures
            r.program == program,
            r.reg_keys@.len() == 0,
            r.reg_vals@.len() == 0,
            r.register_default == register_default,
            r.pc == 0,
    {
        VM {
            program,
            reg_keys: Vec::new(),
            reg_vals: Vec::new(),
            register_default,
            pc: 0,
        }
    }

    fn is_halted(&self) -> (r: bool)
        ensures
            r == (self.pc >= self.program@.len()),
    {
        self.pc >= self.program.len()
    }

    fn reset(&mut self)
        ensures
            final(self).program == old(self).program,
            final(self).register_default == old(self).register_default,
            final(self).reg_keys@.len() == 0,
            final(self).reg_vals@.len() == 0,
            final(self).pc == 0,
    {
        self.reg_keys.clear();
        self.reg_vals.clear();
        self.pc = 0;
    }

    /// The value of register `r`: the value stored at the first key equal to
    /// `r`, or the default when no key matches.
    pub fn get_reg(&self, r: RegKey) -> (v: RegVal)
        requires
            self.regs_wf(),
        ensures
            RegKey::obeys_eq_spec() ==> {
                ||| exists|i: int|
                    0 <= i < self.reg_keys@.len() && (#[trigger] self.reg_keys@[i]).eq_spec(&r)
                        && v == self.reg_vals@[i] && (forall|j: int|
                        0 <= j < i ==> !(#[trigger] self.reg_keys@[j]).eq_spec(&r))
                ||| (forall|i: int|
                    0 <= i < self.reg_keys@.len() ==> !(#[trigger] self.reg_keys@[i]).eq_spec(&r))
                    && v == self.register_default
            },
    {
        let mut i: usize = 0;
        while i < self.reg_keys.len()
            invariant
                self.regs_wf(),
                i <= self.reg_keys@.len(),
                RegKey::obeys_eq_spec() ==> forall|j: int|
                    0 <= j < i ==> !(#[trigger] self.reg_keys@[j]).eq_spec(&r),
            decreases self.reg_keys@.len() - i,
        {
            if self.reg_keys[i] == r {
                return self.reg_vals[i];
            }
            i = i + 1;
        }
        self.register_default
    }

    /// Stores `v` in register `r`: overwrites the value at the first key
    /// equal to `r`, or appends a fresh register when no key matches.
    pub fn set_reg(&mut self, r: RegKey, v: RegVal)
        requires
            old(self).regs_wf(),
        ensures
            final(self).regs_wf(),
            final(self).program == old(self).program,
            final(self).register_default == old(self).register_default,
            final(self).pc == old(self).pc,
            RegKey::obeys_eq_spec() ==> {
                ||| exists|i: int|
                    {
                        &&& 0 <= i < old(self).reg_keys@.len()
                        &&& (#[trigger] old(self).reg_keys@[i]).eq_spec(&r)
                        &&& forall|j: int|
                            0 <= j < i ==> !(#[trigger] old(self).reg_keys@[j]).eq_spec(&r)
                        &&& final(self).reg_keys@ == old(self).reg_keys@
                        &&& final(self).reg_vals@ == old(self).reg_vals@.update(i, v)
                    }
                ||| {
                    &&& forall|i: int|
                        0 <= i < old(self).reg_keys@.len() ==> !(#[trigger] old(
                            self,
                        ).reg_keys@[i]).eq_spec(&r)
                    &&& final(self).reg_keys@ == old(self).reg_keys@.push(r)
                    &&& final(self).reg_vals@ == old(self).reg_vals@.push(v)
                }
            },
    {
        let mut i: usize = 0;
        while i < self.reg_keys.len()
            invariant
                self == old(self),
                self.regs_wf(),
                i <= self.reg_keys@.len(),
                RegKey::obeys_eq_spec() ==> forall|j: int|
                    0 <= j < i ==> !(#[trigger] self.reg_keys@[j]).eq_spec(&r),
            decreases self.reg_keys@.len() - i,
        {
            if self.reg_keys[i] == r {
                self.reg_vals.set(i, v);
                return ;
            }
            i = i + 1;
        }
        self.reg_keys.push(r);
        self.reg_vals.push(v);
    }
}

/// The program counter and run-level outcome that one instruction outcome
/// produces, before the final off-the-end check: stepping past the program
/// halts, a break pauses after advancing, jumps move the counter (forward
/// jumps saturate, backward jumps wrap), and an error stops the run.
pub open spec fn spec_apply_instruction_result(pc: nat, res: InstructionResult) -> (nat, RunResult) {
    match res {
        InstructionResult::Proceed => (if pc < usize::MAX {
            (pc + 1) as nat
        } else {
            usize::MAX as nat
        }, RunResult::Proceed),
        InstructionResult::Halt => (usize::MAX as nat, RunResult::Halt),
        InstructionResult::Break => (if pc < usize::MAX {
            (pc + 1) as nat
        } else {
            usize::MAX as nat
        }, RunResult::Break),
        InstructionResult::Error => (pc, RunResult::Error),
        InstructionResult::JumpFwd(n) => (if pc + n <= usize::MAX {
            (pc + n) as nat
        } else {
            usize::MAX as nat
        }, RunResult::Proceed),
        InstructionResult::JumpBck(n) => (if pc >= n {
            (pc - n) as nat
        } else {
            (pc - n + usize::MAX + 1) as nat
        }, RunResult::Proceed),
    }
}

/// Applies one instruction outcome to the program counter.
pub fn apply_instruction_result(pc: usize, res: InstructionResult) -> (r: (usize, RunResult))
    ensures
        (r.0 as nat, r.1) == spec_apply_instruction_result(pc as nat, res),
{
    match res {
        InstructionResult::Proceed => {
            if pc < usize::MAX {
                (pc + 1, RunResult::Proceed)
            } else {
                (usize::MAX, RunResult::Proceed)
            }
        },
        InstructionResult::Halt => (usize::MAX, RunResult::Halt),
        InstructionResult::Break => {
            if pc < usize::MAX {
                (pc + 1, RunResult::Break)
            } else {
                (usize::MAX, RunResult::Break)
            }
        },
        InstructionResult::Error => (pc, RunResult::Error),
        InstructionResult::JumpFwd(n) => {
            if pc <= usize::MAX - n {
                (pc + n, RunResult::Proceed)
            } else {
                (usize::MAX, RunResult::Proceed)
            }
        },
        InstructionResult::JumpBck(n) => {
            if pc >= n {
                (pc - n, RunResult::Proceed)
            } else {
                proof {
                    assert(pc - n + usize::MAX + 1 <= usize::MAX);
                }
                (((pc as u128 + usize::MAX as u128 + 1 - n as u128) as usize), RunResult::Proceed)
            }
        },
    }
}

/// Drives a register machine through an instruction interpreter, one step or
/// many at a time.
pub struct VMShell<RegKey, RegVal: Copy, Instr> {
    pub vm: VM<RegKey, RegVal, Instr>,
}

/// What one call of `step` establishes between the machine before and after
/// it, and the result it returns: a machine already past its program halts
/// unchanged; otherwise the interpreter rewrites the machine to some
/// intermediate state and returns some outcome, the counter moves as that
/// outcome directs, and a counter ending past the program halts the machine.
pub open spec fn spec_step_rel<RegKey, RegVal: Copy, Instr>(
    pre: VMShell<RegKey, RegVal, Instr>,
    post: VMShell<RegKey, RegVal, Instr>,
    r: RunResult,
) -> bool {
    if pre.vm.pc >= pre.vm.program@.len() {
        post == pre && r == RunResult::Halt
    } else {
        exists|mid: VM<RegKey, RegVal, Instr>, ir: InstructionResult|
            #![trigger spec_apply_instruction_result(mid.pc as nat, ir)]
            {
                let (pc1, r1) = spec_apply_instruction_result(mid.pc as nat, ir);
                if r1 == RunResult::Proceed && pc1 > mid.program@.len() {
                    &&& post.vm == (VM { pc: usize::MAX, ..mid })
                    &&& r == RunResult::Halt
                } else {
                    &&& post.vm == (VM { pc: pc1 as usize, ..mid })
                    &&& r == r1
                }
            }
    }
}

impl<RegKey: PartialEq, RegVal: Copy, Instr: Clone> VMShell<RegKey, RegVal, Instr> {
    /// A shell over a fresh machine loaded with `program`.
    pub fn new(program: Vec<Instr>, register_default: RegVal) -> (r: Self)
        ensures
            r.vm.program == program,
            r.vm.reg_keys@.len() == 0,
            r.vm.reg_vals@.len() == 0,
            r.vm.register_default == register_default,
            r.vm.pc == 0,
    {
        let vm = VM::new(program, register_default);
        VMShell { vm }
    }

    /// Clears the registers and rewinds the program counter.
    pub fn reset(&mut self)
        ensures
            final(self).vm.program == old(self).vm.program,
            final(self).vm.register_default == old(self).vm.register_default,
            final(self).vm.reg_keys@.len() == 0,
            final(self).vm.reg_vals@.len() == 0,
            final(self).vm.pc == 0,
    {
        self.vm.reset();
    }

    /// Executes one instruction. A machine whose counter already sits past
    /// the program halts unchanged. Otherwise the interpreter runs on the
    /// current instruction — it may rewrite the machine however it likes —
    /// and the counter then moves as the returned outcome directs; a counter
    /// that ends up past the program halts the machine.
    pub fn step<C: CPU<RegKey, RegVal, Instr>>(&mut self, cpu: &C) -> (r: RunResult)
        ensures
            spec_step_rel(*old(self), *final(self), r),
    {
        if self.vm.is_halted() {
            proof {
                assert(spec_step_rel(*old(self), *self, RunResult::Halt));
            }
            return RunResult::Halt;
        }
        let inst = self.vm.program[self.vm.pc].clone();
        let res = cpu.execute_instruction(&mut self.vm, &inst);
        let ghost mid = self.vm;
        let out = apply_instruction_result(self.vm.pc, res);
        let pc1 = out.0;
        let r1 = out.1;
        self.vm.pc = pc1;
        if r1 == RunResult::Proceed && pc1 > self.vm.program.len() {
            self.vm.pc = usize::MAX;
            proof {
                let (pc1s, r1s) = spec_apply_instruction_result(mid.pc as nat, res);
                assert(final(self).vm == (VM { pc: usize::MAX, ..mid }));
            }
            return RunResult::Halt;
        }
        proof {
            let (pc1s, r1s) = spec_apply_instruction_result(mid.pc as nat, res);
            assert(final(self).vm == (VM { pc: pc1s as usize, ..mid }));
        }
        r1
    }

    /// Runs the machine until a step reports something other than plain
    /// progress, or until `max_steps` steps have been taken. `Some` carries
    /// the first non-progress result, reached from the starting machine by a
    /// chain of plain-progress steps and one final step, each related by
    /// `step`'s contract; `None` means all `max_steps` steps made plain
    /// progress, leaving the machine at the end of such a chain.
    pub fn run<C: CPU<RegKey, RegVal, Instr>>(&mut self, cpu: &C, max_steps: usize) -> (r: Option<
        RunResult,
    >)
        ensures
            match r {
                Option::Some(rr) => rr != RunResult::Proceed && exists|
                    hist: Seq<VMShell<RegKey, RegVal, Instr>>,
                |
                    #![trigger hist.len()]
                    {
                        &&& 2 <= hist.len() <= max_steps + 1
                        &&& hist[0] == *old(self)
                        &&& hist.last() == *final(self)
                        &&& forall|k: int|
                            0 <= k < hist.len() - 2 ==> spec_step_rel(
                                #[trigger] hist[k],
                                hist[k + 1],
                                RunResult::Proceed,
                            )
                        &&& spec_step_rel(hist[hist.len() - 2], hist.last(), rr)
                    },
                Option::None => exists|hist: Seq<VMShell<RegKey, RegVal, Instr>>|
                    #![trigger hist.len()]
                    {
                        &&& hist.len() == max_steps + 1
                        &&& hist[0] == *old(self)
                        &&& hist.last() == *final(self)
                        &&& forall|k: int|
                            0 <= k < hist.len() - 1 ==> spec_step_rel(
                                #[trigger] hist[k],
                                hist[k + 1],
                                RunResult::Proceed,
                            )
                    },
            },
    {
        let ghost mut hist: Seq<VMShell<RegKey, RegVal, Instr>> = seq![*self];
        let mut i: usize = 0;
        while i < max_steps
            invariant
                i <= max_steps,
                hist.len() == i + 1,
                hist[0] == *old(self),
                hist.last() == *self,
                forall|k: int|
                    0 <= k < hist.len() - 1 ==> spec_step_rel(
                        #[trigger] hist[k],
                        hist[k + 1],
                        RunResult::Proceed,
                    ),
            decreases max_steps - i,
        {
            let r = self.step(cpu);
            proof {
                hist = hist.push(*self);
            }
            if !(r == RunResult::Proceed) {
                proof {
                    assert(hist[hist.len() - 2] == hist.drop_last().last());
                    assert(spec_step_rel(hist[hist.len() - 2], hist.last(), r));
                }
                return Some(r);
            }
            i = i + 1;
        }
        None
    }
}

} // verus!
