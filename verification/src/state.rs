//! The data model: a parsed programme with its instruction cursor, the
//! machine's byte tape with its cell cursor, the in-memory input and output
//! streams, and the ghost configuration that the execution contracts speak of.

use vstd::prelude::*;

use crate::instruction::Instruction;

verus! {

/// An immutable-after-construction instruction sequence plus a mutable
/// instruction-pointer cursor.
#[derive(Debug, Clone, PartialEq, Eq, Default)]
pub struct Programme {
    pub instructions: Vec<Instruction>,
    pub index: usize,
}

/// The byte tape plus a mutable tape-pointer cursor. Created with every cell
/// zero; the tape grows on the right when the pointer runs past its end, and
/// moving the pointer below cell 0 is a fatal condition.
#[derive(Debug, Clone, PartialEq, Eq, Default)]
pub struct MachineState {
    pub tape: Vec<u8>,
    pub index: usize,
}

/// The machine's two byte streams held as plain values: the bytes still to
/// be read (with a read cursor) and the bytes written so far.
#[derive(Debug, Clone, PartialEq, Eq, Default)]
pub struct IoBuffer {
    pub input: Vec<u8>,
    pub read: usize,
    pub output: Vec<u8>,
}

/// The condition on one slot of a finished programme: a jump is paired
/// with its partner at the exact slot distance its offset claims —
/// `open.offset == close.offset == close - open` — and no comment survives
/// parsing.
pub open spec fn jumps_ok(instrs: Seq<Instruction>, i: int) -> bool {
    match instrs[i] {
        Instruction::JumpOpen(off) => {
            &&& 1 <= off
            &&& i + off < instrs.len() - 1
            &&& instrs[i + off] == Instruction::JumpClose(off)
        },
        Instruction::JumpClose(off) => {
            &&& 1 <= off <= i
            &&& instrs[i - off] == Instruction::JumpOpen(off)
        },
        Instruction::Comment(_) => false,
        _ => true,
    }
}

/// A well-formed instruction sequence: non-empty, terminated by a single
/// `End`, and every slot passing `jumps_ok`.
pub open spec fn prog_wf(instrs: Seq<Instruction>) -> bool {
    &&& instrs.len() >= 1
    &&& instrs[instrs.len() - 1] == Instruction::End
    &&& forall|i: int|
        0 <= i < instrs.len() - 1 ==> #[trigger] instrs[i] != Instruction::End
    &&& forall|i: int| 0 <= i < instrs.len() ==> #[trigger] jumps_ok(instrs, i)
}

impl Programme {
    /// A programme ready to run: well-formed instructions, cursor in range.
    pub open spec fn wf(self) -> bool {
        &&& prog_wf(self.instructions@)
        &&& self.index < self.instructions@.len()
    }
}

impl MachineState {
    /// A machine state ready to run: a non-empty tape, cursor in range.
    pub open spec fn wf(self) -> bool {
        &&& self.tape@.len() >= 1
        &&& self.index < self.tape@.len()
    }

    /// A fresh machine state: `size` zero cells, the pointer on cell 0.
    pub fn new(size: usize) -> (ms: MachineState)
        requires
            size >= 1,
        ensures
            ms.wf(),
            ms.tape@ == Seq::new(size as nat, |i: int| 0u8),
            ms.index == 0,
    {
        let mut tape: Vec<u8> = Vec::new();
        while tape.len() < size
            invariant
                tape@.len() <= size,
                tape@ == Seq::new(tape@.len(), |i: int| 0u8),
            decreases size - tape@.len(),
        {
            tape.push(0);
            proof {
                assert(tape@ =~= Seq::new(tape@.len(), |i: int| 0u8));
            }
        }
        proof {
            assert(tape@ =~= Seq::new(size as nat, |i: int| 0u8));
        }
        MachineState { tape, index: 0 }
    }
}

impl IoBuffer {
    /// The read cursor never runs past the input.
    pub open spec fn wf(self) -> bool {
        self.read <= self.input@.len()
    }

    /// A fresh stream pair: `input` still unread, nothing written yet.
    pub fn new(input: Vec<u8>) -> (io: IoBuffer)
        ensures
            io.wf(),
            io.input@ == input@,
            io.read == 0,
            io.output@ == Seq::<u8>::empty(),
    {
        IoBuffer { input, read: 0, output: Vec::new() }
    }
}

/// The whole execution state at the mathematical level: the instruction
/// sequence, both cursors, the tape, and the two streams.
pub ghost struct Config {
    pub instrs: Seq<Instruction>,
    pub ip: int,
    pub tape: Seq<u8>,
    pub cell: int,
    pub input: Seq<u8>,
    pub read: int,
    pub output: Seq<u8>,
}

/// The configuration that a concrete programme, machine state and stream
/// pair stand for.
pub open spec fn config_of(p: Programme, ms: MachineState, io: IoBuffer) -> Config {
    Config {
        instrs: p.instructions@,
        ip: p.index as int,
        tape: ms.tape@,
        cell: ms.index as int,
        input: io.input@,
        read: io.read as int,
        output: io.output@,
    }
}

/// A configuration on which a step is safe: well-formed instructions and
/// every cursor in range.
pub open spec fn config_wf(c: Config) -> bool {
    &&& prog_wf(c.instrs)
    &&& 0 <= c.ip < c.instrs.len()
    &&& c.tape.len() >= 1
    &&& 0 <= c.cell < c.tape.len()
    &&& 0 <= c.read <= c.input.len()
}

} // verus!
