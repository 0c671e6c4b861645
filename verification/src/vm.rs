//! The virtual machine: exact single-step semantics over a configuration,
//! and the fetch-execute loop that runs a programme until its `End`
//! sentinel. Cell arithmetic wraps at 8 bits; the tape doubles with zero
//! cells when the pointer runs past its right end; moving below cell 0 is a
//! fatal bounds condition; reading exhausted input stores 0.

use vstd::prelude::*;

use crate::instruction::Instruction;
use crate::state::{Programme, MachineState, IoBuffer, Config, config_of, jumps_ok};

verus! {

/// Run-time failure: the tape pointer would move below cell 0.
#[derive(Debug, Copy, Clone, PartialEq, Eq, Structural)]
pub enum VmError {
    Bounds,
}

/// One cell increment, with 8-bit wrapping: 255 + 1 = 0.
pub open spec fn incr_byte(b: u8) -> u8 {
    if b == 255 {
        0
    } else {
        (b + 1) as u8
    }
}

/// One cell decrement, with 8-bit wrapping: 0 - 1 = 255.
pub open spec fn decr_byte(b: u8) -> u8 {
    if b == 0 {
        255
    } else {
        (b - 1) as u8
    }
}

/// The tape after the pointer has stepped right to `cell`: doubled with
/// zero cells when the pointer ran past the end, unchanged otherwise.
pub open spec fn grown_tape(tape: Seq<u8>, cell: int) -> Seq<u8> {
    if cell >= tape.len() {
        tape + Seq::new(tape.len(), |j: int| 0u8)
    } else {
        tape
    }
}

/// The configuration one step later, or the error that step meets. This is
/// the single-step semantics of the language: jumps replace the default +1
/// advance; a `JumpOpen` on a zero cell lands one slot past its partner; a
/// `JumpClose` on a non-zero cell lands on its partner's own slot; `End`
/// changes nothing.
pub open spec fn step_spec(c: Config) -> Result<Config, VmError> {
    match c.instrs[c.ip] {
        Instruction::Right => Ok(
            Config { ip: c.ip + 1, cell: c.cell + 1, tape: grown_tape(c.tape, c.cell + 1), ..c },
        ),
        Instruction::Left => if c.cell == 0 {
            Err(VmError::Bounds)
        } else {
            Ok(Config { ip: c.ip + 1, cell: c.cell - 1, ..c })
        },
        Instruction::Increment => Ok(
            Config { ip: c.ip + 1, tape: c.tape.update(c.cell, incr_byte(c.tape[c.cell])), ..c },
        ),
        Instruction::Decrement => Ok(
            Config { ip: c.ip + 1, tape: c.tape.update(c.cell, decr_byte(c.tape[c.cell])), ..c },
        ),
        Instruction::Output => Ok(
            Config { ip: c.ip + 1, output: c.output.push(c.tape[c.cell]), ..c },
        ),
        Instruction::Input => if c.read < c.input.len() {
            Ok(
                Config {
                    ip: c.ip + 1,
                    tape: c.tape.update(c.cell, c.input[c.read]),
                    read: c.read + 1,
                    ..c
                },
            )
        } else {
            Ok(Config { ip: c.ip + 1, tape: c.tape.update(c.cell, 0u8), ..c })
        },
        Instruction::JumpOpen(off) => if c.tape[c.cell] == 0 {
            Ok(Config { ip: c.ip + off + 1, ..c })
        } else {
            Ok(Config { ip: c.ip + 1, ..c })
        },
        Instruction::JumpClose(off) => if c.tape[c.cell] != 0 {
            Ok(Config { ip: c.ip - off, ..c })
        } else {
            Ok(Config { ip: c.ip + 1, ..c })
        },
        Instruction::Comment(_) => Ok(Config { ip: c.ip + 1, ..c }),
        Instruction::End => Ok(c),
    }
}

/// Whether a configuration has reached the `End` sentinel.
pub open spec fn halted(c: Config) -> bool {
    c.instrs[c.ip] == Instruction::End
}

/// The configuration after `n` steps, or the first error met on the way.
pub open spec fn run_n(c: Config, n: nat) -> Result<Config, VmError>
    decreases n,
{
    if n == 0 {
        Ok(c)
    } else {
        match step_spec(c) {
            Ok(c2) => run_n(c2, (n - 1) as nat),
            Err(e) => Err(e),
        }
    }
}

/// Whether a run of `n` steps from a configuration has already ended: it
/// reached the `End` sentinel, or it met an error on the way.
pub open spec fn ends_by(c: Config, n: nat) -> bool {
    match run_n(c, n) {
        Ok(c2) => halted(c2),
        Err(_) => true,
    }
}

/// Whether a run from a configuration ends at all: some number of steps
/// reaches `End` or an error. A run of the empty loop `[]` over a non-zero
/// cell never does; the fetch-execute loop then never returns, as the
/// language demands.
pub open spec fn run_ends(c: Config) -> bool {
    exists|n: nat| #[trigger] ends_by(c, n)
}

/// Splitting a run: `a + b` steps are `a` steps and then `b` more.
pub proof fn lemma_run_n_add(c: Config, a: nat, b: nat)
    ensures
        run_n(c, a + b) == (match run_n(c, a) {
            Ok(c1) => run_n(c1, b),
            Err(e) => Err::<Config, VmError>(e),
        }),
    decreases a,
{
    if a > 0 {
        match step_spec(c) {
            Ok(c2) => {
                lemma_run_n_add(c2, (a - 1) as nat, b);
                assert((a + b - 1) as nat == (a - 1) as nat + b);
            },
            Err(_) => {},
        }
    }
}

/// A halted configuration never moves again: `End` is a no-op.
pub proof fn lemma_halted_stays(c: Config, n: nat)
    requires
        halted(c),
    ensures
        run_n(c, n) == Ok::<Config, VmError>(c),
    decreases n,
{
    if n > 0 {
        lemma_halted_stays(c, (n - 1) as nat);
    }
}

/// Reaching a configuration in `n` steps and stepping once more is
/// reaching the stepped configuration in `n + 1` steps.
pub proof fn lemma_run_n_snoc(c0: Config, c1: Config, c2: Config, n: nat)
    requires
        run_n(c0, n) == Ok::<Config, VmError>(c1),
        step_spec(c1) == Ok::<Config, VmError>(c2),
    ensures
        run_n(c0, (n + 1) as nat) == Ok::<Config, VmError>(c2),
    decreases n,
{
    if n == 0 {
        assert(c1 == c0);
        assert(run_n(c0, 1) == run_n(c2, 0));
    } else {
        match step_spec(c0) {
            Ok(cm) => {
                lemma_run_n_snoc(cm, c1, c2, (n - 1) as nat);
                assert((n + 1) as nat - 1 == (n - 1) as nat + 1);
            },
            Err(_) => {},
        }
    }
}

impl Programme {
    /// Execute exactly one instruction. The three values afterwards stand
    /// for exactly `step_spec` of the configuration they stood for before;
    /// on an error nothing has changed. The instruction sequence and the
    /// input stream are never written.
    pub fn step(&mut self, ms: &mut MachineState, io: &mut IoBuffer) -> (r: Result<(), VmError>)
        requires
            old(self).wf(),
            old(ms).wf(),
            old(io).wf(),
        ensures
            final(self).instructions@ == old(self).instructions@,
            final(io).input@ == old(io).input@,
            match r {
                Ok(()) => {
                    &&& step_spec(config_of(*old(self), *old(ms), *old(io))) == Ok::<
                        Config,
                        VmError,
                    >(config_of(*final(self), *final(ms), *final(io)))
                    &&& final(self).wf()
                    &&& final(ms).wf()
                    &&& final(io).wf()
                },
                Err(e) => {
                    &&& step_spec(config_of(*old(self), *old(ms), *old(io))) == Err::<
                        Config,
                        VmError,
                    >(e)
                    &&& *final(self) == *old(self)
                    &&& *final(ms) == *old(ms)
                    &&& *final(io) == *old(io)
                },
            },
    {
        proof {
            assert(jumps_ok(self.instructions@, self.index as int));
        }
        // the executable length bounds the sequence within usize, so the
        // cursor arithmetic below cannot overflow
        let n_instr = self.instructions.len();
        let ghost c0 = config_of(*self, *ms, *io);
        proof {
            assert(self.instructions@.len() == n_instr);
        }
        let instr = self.instructions[self.index];
        match instr {
            Instruction::Right => {
                let len = ms.tape.len();
                ms.index = ms.index + 1;
                if ms.index >= len {
                    let ghost tape0 = ms.tape@;
                    let mut k: usize = 0;
                    proof {
                        assert(ms.tape@ =~= tape0 + Seq::new(0, |j: int| 0u8));
                    }
                    while k < len
                        invariant
                            k <= len,
                            ms.index == c0.cell + 1,
                            ms.tape@ == tape0 + Seq::new(k as nat, |j: int| 0u8),
                        decreases len - k,
                    {
                        ms.tape.push(0);
                        k = k + 1;
                        proof {
                            assert(ms.tape@ =~= tape0 + Seq::new(k as nat, |j: int| 0u8));
                        }
                    }
                }
                self.index = self.index + 1;
                proof {
                    assert(ms.tape@ =~= grown_tape(c0.tape, c0.cell + 1));
                    assert(step_spec(c0) == Ok::<Config, VmError>(config_of(*self, *ms, *io)));
                }
            },
            Instruction::Left => {
                if ms.index == 0 {
                    return Err(VmError::Bounds);
                }
                ms.index = ms.index - 1;
                self.index = self.index + 1;
                proof {
                    assert(step_spec(c0) == Ok::<Config, VmError>(config_of(*self, *ms, *io)));
                }
            },
            Instruction::Increment => {
                let b = ms.tape[ms.index];
                let nb: u8 = if b == 255 {
                    0
                } else {
                    b + 1
                };
                ms.tape[ms.index] = nb;
                self.index = self.index + 1;
                proof {
                    assert(step_spec(c0) == Ok::<Config, VmError>(config_of(*self, *ms, *io)));
                }
            },
            Instruction::Decrement => {
                let b = ms.tape[ms.index];
                let nb: u8 = if b == 0 {
                    255
                } else {
                    b - 1
                };
                ms.tape[ms.index] = nb;
                self.index = self.index + 1;
                proof {
                    assert(step_spec(c0) == Ok::<Config, VmError>(config_of(*self, *ms, *io)));
                }
            },
            Instruction::Output => {
                io.output.push(ms.tape[ms.index]);
                self.index = self.index + 1;
                proof {
                    assert(step_spec(c0) == Ok::<Config, VmError>(config_of(*self, *ms, *io)));
                }
            },
            Instruction::Input => {
                let b: u8 = if io.read < io.input.len() {
                    let b = io.input[io.read];
                    io.read = io.read + 1;
                    b
                } else {
                    0
                };
                ms.tape[ms.index] = b;
                self.index = self.index + 1;
                proof {
                    assert(step_spec(c0) == Ok::<Config, VmError>(config_of(*self, *ms, *io)));
                }
            },
            Instruction::JumpOpen(off) => {
                if ms.tape[ms.index] == 0 {
                    self.index = self.index + off + 1;
                } else {
                    self.index = self.index + 1;
                }
                proof {
                    assert(step_spec(c0) == Ok::<Config, VmError>(config_of(*self, *ms, *io)));
                }
            },
            Instruction::JumpClose(off) => {
                if ms.tape[ms.index] != 0 {
                    self.index = self.index - off;
                } else {
                    self.index = self.index + 1;
                }
                proof {
                    assert(step_spec(c0) == Ok::<Config, VmError>(config_of(*self, *ms, *io)));
                }
            },
            Instruction::Comment(_) => {
                // comments never survive parsing, so a well-formed
                // programme cannot reach this arm
                proof {
                    assert(false);
                }
            },
            Instruction::End => {},
        }
        Ok(())
    }

    /// Run at most `budget` steps of the fetch-execute loop, stopping early
    /// at the `End` sentinel or on a failing step. Returns `Ok(true)` when
    /// the machine halted within the budget, `Ok(false)` when the budget
    /// ran out first — then exactly `budget` steps were taken and the
    /// machine has not halted — and the error when a step failed.
    pub fn run_steps(&mut self, ms: &mut MachineState, io: &mut IoBuffer, budget: usize) -> (r:
        Result<bool, VmError>)
        requires
            old(self).wf(),
            old(ms).wf(),
            old(io).wf(),
        ensures
            final(self).instructions@ == old(self).instructions@,
            final(io).input@ == old(io).input@,
            final(self).wf(),
            final(ms).wf(),
            final(io).wf(),
            exists|n: nat|
                n <= budget && run_n(config_of(*old(self), *old(ms), *old(io)), n) == Ok::<
                    Config,
                    VmError,
                >(config_of(*final(self), *final(ms), *final(io))),
            match r {
                Ok(true) => halted(config_of(*final(self), *final(ms), *final(io))),
                Ok(false) => {
                    &&& run_n(config_of(*old(self), *old(ms), *old(io)), budget as nat) == Ok::<
                        Config,
                        VmError,
                    >(config_of(*final(self), *final(ms), *final(io)))
                    &&& !halted(config_of(*final(self), *final(ms), *final(io)))
                },
                Err(e) => step_spec(config_of(*final(self), *final(ms), *final(io))) == Err::<
                    Config,
                    VmError,
                >(e),
            },
    {
        let ghost c_init = config_of(*self, *ms, *io);
        let mut steps: usize = 0;
        while steps < budget && self.instructions[self.index] != Instruction::End
            invariant
                steps <= budget,
                self.wf(),
                ms.wf(),
                io.wf(),
                c_init == config_of(*old(self), *old(ms), *old(io)),
                self.instructions@ == c_init.instrs,
                io.input@ == c_init.input,
                run_n(c_init, steps as nat) == Ok::<Config, VmError>(config_of(*self, *ms, *io)),
            decreases budget - steps,
        {
            let ghost c_pre = config_of(*self, *ms, *io);
            let r = self.step(ms, io);
            match r {
                Ok(()) => {
                    proof {
                        lemma_run_n_snoc(c_init, c_pre, config_of(*self, *ms, *io), steps as nat);
                    }
                    steps = steps + 1;
                },
                Err(e) => {
                    return Err(e);
                },
            }
        }
        if self.instructions[self.index] == Instruction::End {
            Ok(true)
        } else {
            Ok(false)
        }
    }

    /// Run the fetch-execute loop until the `End` sentinel, or until a step
    /// fails. The loop itself is the original unbounded one, so the caller
    /// must bring a run that ends; a run that never reaches `End` nor an
    /// error would keep the machine stepping forever. On success the three
    /// values afterwards stand for a halted configuration that the starting
    /// one reaches in some number of steps; on an error they stand for the
    /// configuration at the exact step where it occurred, whose next step
    /// is that error.
    pub fn execute(&mut self, ms: &mut MachineState, io: &mut IoBuffer) -> (r: Result<
        (),
        VmError,
    >)
        requires
            old(self).wf(),
            old(ms).wf(),
            old(io).wf(),
            run_ends(config_of(*old(self), *old(ms), *old(io))),
        ensures
            final(self).instructions@ == old(self).instructions@,
            final(io).input@ == old(io).input@,
            final(self).wf(),
            final(ms).wf(),
            final(io).wf(),
            exists|n: nat|
                run_n(config_of(*old(self), *old(ms), *old(io)), n) == Ok::<Config, VmError>(
                    config_of(*final(self), *final(ms), *final(io)),
                ),
            match r {
                Ok(()) => halted(config_of(*final(self), *final(ms), *final(io))),
                Err(e) => step_spec(config_of(*final(self), *final(ms), *final(io))) == Err::<
                    Config,
                    VmError,
                >(e),
            },
    {
        let ghost c_init = config_of(*self, *ms, *io);
        let ghost n0 = choose|n: nat| #[trigger] ends_by(c_init, n);
        let ghost mut k: nat = 0;
        while self.instructions[self.index] != Instruction::End
            invariant
                self.wf(),
                ms.wf(),
                io.wf(),
                c_init == config_of(*old(self), *old(ms), *old(io)),
                self.instructions@ == c_init.instrs,
                io.input@ == c_init.input,
                run_n(c_init, k) == Ok::<Config, VmError>(config_of(*self, *ms, *io)),
                ends_by(c_init, n0),
            decreases n0 - k,
        {
            proof {
                if k >= n0 {
                    lemma_run_n_add(c_init, n0, (k - n0) as nat);
                    match run_n(c_init, n0) {
                        Ok(ch) => {
                            lemma_halted_stays(ch, (k - n0) as nat);
                            assert(false);
                        },
                        Err(_) => {
                            assert(false);
                        },
                    }
                }
            }
            let ghost c_pre = config_of(*self, *ms, *io);
            let r = self.step(ms, io);
            match r {
                Ok(()) => {
                    proof {
                        lemma_run_n_snoc(c_init, c_pre, config_of(*self, *ms, *io), k);
                        k = (k + 1) as nat;
                    }
                },
                Err(e) => {
                    return Err(e);
                },
            }
        }
        Ok(())
    }
}

} // verus!
