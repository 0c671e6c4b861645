//! The parser: source bytes to a flat instruction sequence. Every character
//! outside the eight recognized symbols is a comment and is discarded; a
//! loop-open emits a placeholder jump that is backpatched with the real
//! offset once its partner close is found; a single `End` is appended last.

use vstd::prelude::*;

use crate::instruction::{Instruction, instruction_of_char};
use crate::state::{Programme, prog_wf, jumps_ok};

verus! {

/// Parse-time failure: a close bracket with no pending open partner, or an
/// open bracket still pending when the source ends.
#[derive(Debug, Copy, Clone, PartialEq, Eq, Structural)]
pub enum ParseError {
    UnmatchedClose,
    UnmatchedOpen,
}

/// Whether a source byte is one of the eight recognized symbols.
pub open spec fn is_symbol(b: u8) -> bool {
    !(instruction_of_char(b as char) is Comment)
}

/// The number of recognized symbols in a source text.
pub open spec fn symbol_count(s: Seq<u8>) -> nat
    decreases s.len(),
{
    if s.len() == 0 {
        0
    } else {
        symbol_count(s.drop_last()) + if is_symbol(s.last()) {
            1nat
        } else {
            0nat
        }
    }
}

/// There are no more recognized symbols than source bytes.
pub proof fn lemma_symbol_count_le_len(s: Seq<u8>)
    ensures
        symbol_count(s) <= s.len(),
    decreases s.len(),
{
    if s.len() > 0 {
        lemma_symbol_count_le_len(s.drop_last());
    }
}

/// How one source byte extends a scan state: the instructions emitted so
/// far and the stack of pending open-bracket slots. `None` means the byte
/// is a close bracket with no pending open.
pub open spec fn scan_step(instrs: Seq<Instruction>, stack: Seq<int>, b: u8) -> Option<
    (Seq<Instruction>, Seq<int>),
> {
    match instruction_of_char(b as char) {
        Instruction::Comment(_) => Some((instrs, stack)),
        Instruction::JumpOpen(_) => Some(
            (instrs.push(Instruction::JumpOpen(0)), stack.push(instrs.len() as int)),
        ),
        Instruction::JumpClose(_) => {
            if stack.len() == 0 {
                None
            } else {
                let open = stack.last();
                let off = (instrs.len() - open) as usize;
                Some(
                    (
                        instrs.update(open, Instruction::JumpOpen(off)).push(
                            Instruction::JumpClose(off),
                        ),
                        stack.drop_last(),
                    ),
                )
            }
        },
        instr => Some((instrs.push(instr), stack)),
    }
}

/// The scan state after reading a whole source prefix, byte by byte.
/// `None` means an unmatched close bracket was hit somewhere in it.
pub open spec fn scan(s: Seq<u8>) -> Option<(Seq<Instruction>, Seq<int>)>
    decreases s.len(),
{
    if s.len() == 0 {
        Some((Seq::empty(), Seq::empty()))
    } else {
        match scan(s.drop_last()) {
            None => None,
            Some(st) => scan_step(st.0, st.1, s.last()),
        }
    }
}

/// What parsing returns, determined entirely by the source: the emitted
/// instructions with `End` appended, or the exact error.
pub open spec fn parse_spec(s: Seq<u8>) -> Result<Seq<Instruction>, ParseError> {
    match scan(s) {
        None => Err(ParseError::UnmatchedClose),
        Some(st) => if st.1.len() == 0 {
            Ok(st.0.push(Instruction::End))
        } else {
            Err(ParseError::UnmatchedOpen)
        },
    }
}

/// The condition on one emitted slot midway through a scan: a placeholder
/// open (offset 0) is on the pending stack; every other jump is already
/// paired at the exact slot distance its offset claims; comments and `End`
/// never stand in the emitted sequence.
pub open spec fn slot_ok(instrs: Seq<Instruction>, stack: Seq<int>, i: int) -> bool {
    match instrs[i] {
        Instruction::JumpOpen(off) => if off == 0 {
            stack.contains(i)
        } else {
            i + off < instrs.len() && instrs[i + off] == Instruction::JumpClose(off)
        },
        Instruction::JumpClose(off) => 1 <= off <= i && instrs[i - off]
            == Instruction::JumpOpen(off),
        Instruction::Comment(_) => false,
        Instruction::End => false,
        _ => true,
    }
}

/// Everything that holds of a scan state midway through the source: the
/// stack lists exactly the placeholder opens, bottom to top in slot order,
/// and every emitted slot satisfies `slot_ok`.
pub open spec fn scan_inv(instrs: Seq<Instruction>, stack: Seq<int>) -> bool {
    &&& forall|k: int|
        0 <= k < stack.len() ==> 0 <= #[trigger] stack[k] < instrs.len() && instrs[stack[k]]
            == Instruction::JumpOpen(0)
    &&& forall|k1: int, k2: int| 0 <= k1 < k2 < stack.len() ==> stack[k1] < stack[k2]
    &&& forall|i: int| 0 <= i < instrs.len() ==> #[trigger] slot_ok(instrs, stack, i)
}

/// Appending a placeholder open and pushing its slot keeps the invariant.
proof fn lemma_scan_step_open(instrs: Seq<Instruction>, stack: Seq<int>)
    requires
        scan_inv(instrs, stack),
    ensures
        scan_inv(instrs.push(Instruction::JumpOpen(0)), stack.push(instrs.len() as int)),
{
    let instrs2 = instrs.push(Instruction::JumpOpen(0));
    let stack2 = stack.push(instrs.len() as int);
    assert forall|k: int| 0 <= k < stack2.len() implies 0 <= #[trigger] stack2[k] < instrs2.len()
        && instrs2[stack2[k]] == Instruction::JumpOpen(0) by {
        if k < stack.len() {
            assert(stack2[k] == stack[k]);
            assert(instrs2[stack[k]] == instrs[stack[k]]);
        } else {
            assert(stack2[k] == instrs.len() as int);
        }
    }
    assert forall|i: int| 0 <= i < instrs2.len() implies #[trigger] slot_ok(instrs2, stack2, i) by {
        if i < instrs.len() {
            assert(slot_ok(instrs, stack, i));
            assert(instrs2[i] == instrs[i]);
            match instrs[i] {
                Instruction::JumpOpen(off) => {
                    if off == 0 {
                        let k = choose|k: int| 0 <= k < stack.len() && stack[k] == i;
                        assert(stack2[k] == i);
                        assert(stack2.contains(i));
                    } else {
                        assert(instrs2[i + off] == instrs[i + off]);
                    }
                },
                Instruction::JumpClose(off) => {
                    assert(instrs2[i - off] == instrs[i - off]);
                },
                _ => {},
            }
        } else {
            assert(instrs2[i] == Instruction::JumpOpen(0));
            assert(stack2[stack.len() as int] == i);
            assert(stack2.contains(i));
        }
    }
}

/// Backpatching the top pending open and appending its close keeps the
/// invariant.
proof fn lemma_scan_step_close(instrs: Seq<Instruction>, stack: Seq<int>)
    requires
        scan_inv(instrs, stack),
        stack.len() >= 1,
        instrs.len() <= usize::MAX,
    ensures
        ({
            let open = stack.last();
            let off = (instrs.len() - open) as usize;
            scan_inv(
                instrs.update(open, Instruction::JumpOpen(off)).push(Instruction::JumpClose(off)),
                stack.drop_last(),
            )
        }),
{
    let open = stack.last();
    let off = (instrs.len() - open) as usize;
    assert(0 <= open < instrs.len());
    assert(instrs[open] == Instruction::JumpOpen(0));
    assert(1 <= off);
    let instrs2 = instrs.update(open, Instruction::JumpOpen(off)).push(
        Instruction::JumpClose(off),
    );
    let stack2 = stack.drop_last();
    assert forall|k: int| 0 <= k < stack2.len() implies 0 <= #[trigger] stack2[k] < instrs2.len()
        && instrs2[stack2[k]] == Instruction::JumpOpen(0) by {
        assert(stack2[k] == stack[k]);
        assert(stack[k] < stack.last());
        assert(instrs2[stack[k]] == instrs[stack[k]]);
    }
    assert forall|i: int| 0 <= i < instrs2.len() implies #[trigger] slot_ok(instrs2, stack2, i) by {
        if i == open {
            assert(instrs2[i] == Instruction::JumpOpen(off));
            assert(instrs2[open + off] == Instruction::JumpClose(off));
        } else if i == instrs.len() {
            assert(instrs2[i] == Instruction::JumpClose(off));
            assert(instrs2[i - off] == Instruction::JumpOpen(off));
        } else {
            assert(slot_ok(instrs, stack, i));
            assert(instrs2[i] == instrs[i]);
            match instrs[i] {
                Instruction::JumpOpen(o) => {
                    if o == 0 {
                        let k = choose|k: int| 0 <= k < stack.len() && stack[k] == i;
                        assert(stack[k] != stack.last());
                        assert(k < stack.len() - 1);
                        assert(stack2[k] == i);
                        assert(stack2.contains(i));
                    } else {
                        assert(instrs[i + o] == Instruction::JumpClose(o));
                        assert(i + o != open);
                        assert(instrs2[i + o] == Instruction::JumpClose(o));
                    }
                },
                Instruction::JumpClose(o) => {
                    assert(instrs[i - o] == Instruction::JumpOpen(o));
                    assert(i - o != open);
                    assert(instrs2[i - o] == Instruction::JumpOpen(o));
                },
                _ => {},
            }
        }
    }
}

/// Appending a plain (non-jump, non-comment) instruction keeps the
/// invariant.
proof fn lemma_scan_step_plain(instrs: Seq<Instruction>, stack: Seq<int>, instr: Instruction)
    requires
        scan_inv(instrs, stack),
        !(instr is JumpOpen),
        !(instr is JumpClose),
        !(instr is Comment),
        !(instr is End),
    ensures
        scan_inv(instrs.push(instr), stack),
{
    let instrs2 = instrs.push(instr);
    assert forall|k: int| 0 <= k < stack.len() implies 0 <= #[trigger] stack[k] < instrs2.len()
        && instrs2[stack[k]] == Instruction::JumpOpen(0) by {
        assert(instrs2[stack[k]] == instrs[stack[k]]);
    }
    assert forall|i: int| 0 <= i < instrs2.len() implies #[trigger] slot_ok(instrs2, stack, i) by {
        if i < instrs.len() {
            assert(slot_ok(instrs, stack, i));
            assert(instrs2[i] == instrs[i]);
            match instrs[i] {
                Instruction::JumpOpen(off) => {
                    if off != 0 {
                        assert(instrs2[i + off] == instrs[i + off]);
                    }
                },
                Instruction::JumpClose(off) => {
                    assert(instrs2[i - off] == instrs[i - off]);
                },
                _ => {},
            }
        } else {
            assert(instrs2[i] == instr);
        }
    }
}

/// One byte keeps the scan invariant, and grows the emitted sequence by one
/// slot exactly when the byte is a recognized symbol.
proof fn lemma_scan_step_inv(instrs: Seq<Instruction>, stack: Seq<int>, b: u8)
    requires
        scan_inv(instrs, stack),
        instrs.len() <= usize::MAX,
    ensures
        match scan_step(instrs, stack, b) {
            None => true,
            Some(st) => scan_inv(st.0, st.1) && st.0.len() == instrs.len() + (
            if is_symbol(b) {
                1int
            } else {
                0int
            }),
        },
{
    match instruction_of_char(b as char) {
        Instruction::Comment(_) => {},
        Instruction::JumpOpen(_) => {
            lemma_scan_step_open(instrs, stack);
        },
        Instruction::JumpClose(_) => {
            if stack.len() != 0 {
                lemma_scan_step_close(instrs, stack);
            }
        },
        _ => {
            lemma_scan_step_plain(instrs, stack, instruction_of_char(b as char));
        },
    }
}

/// The scan state of every source prefix satisfies the scan invariant, and
/// its emitted sequence is exactly one slot per recognized symbol.
proof fn lemma_scan_props(s: Seq<u8>)
    requires
        s.len() <= usize::MAX,
    ensures
        match scan(s) {
            None => true,
            Some(st) => scan_inv(st.0, st.1) && st.0.len() == symbol_count(s),
        },
    decreases s.len(),
{
    if s.len() == 0 {
    } else {
        lemma_scan_props(s.drop_last());
        match scan(s.drop_last()) {
            None => {},
            Some(st) => {
                lemma_symbol_count_le_len(s.drop_last());
                lemma_scan_step_inv(st.0, st.1, s.last());
            },
        }
    }
}

/// An unmatched close bracket in a prefix dooms the whole source.
proof fn lemma_scan_none_extends(s: Seq<u8>, i: int)
    requires
        0 <= i <= s.len(),
        scan(s.take(i)) is None,
    ensures
        scan(s) is None,
    decreases s.len() - i,
{
    if i < s.len() {
        assert(s.take(i + 1).drop_last() =~= s.take(i));
        lemma_scan_none_extends(s, i + 1);
    } else {
        assert(s.take(i) =~= s);
    }
}

/// A successfully parsed sequence is well formed: `End`-terminated, free of
/// comments, every jump paired at the exact distance its offset claims; and
/// it holds one slot per recognized symbol plus the one `End`.
pub proof fn lemma_parse_spec_wf(s: Seq<u8>)
    requires
        s.len() <= usize::MAX,
    ensures
        match parse_spec(s) {
            Ok(instrs) => prog_wf(instrs) && instrs.len() == symbol_count(s) + 1,
            Err(_) => true,
        },
{
    lemma_scan_props(s);
    match scan(s) {
        None => {},
        Some(st) => {
            if st.1.len() == 0 {
                let instrs = st.0;
                let full = instrs.push(Instruction::End);
                assert forall|i: int| 0 <= i < full.len() - 1 implies #[trigger] full[i]
                    != Instruction::End by {
                    assert(slot_ok(instrs, st.1, i));
                    assert(full[i] == instrs[i]);
                }
                assert forall|i: int| 0 <= i < full.len() implies #[trigger] jumps_ok(full, i) by {
                    if i < instrs.len() {
                        assert(slot_ok(instrs, st.1, i));
                        assert(full[i] == instrs[i]);
                        match instrs[i] {
                            Instruction::JumpOpen(off) => {
                                if off == 0 {
                                    assert(st.1.contains(i));
                                    assert(false);
                                } else {
                                    assert(instrs[i + off] == Instruction::JumpClose(off));
                                    assert(full[i + off] == Instruction::JumpClose(off));
                                }
                            },
                            Instruction::JumpClose(off) => {
                                assert(instrs[i - off] == Instruction::JumpOpen(off));
                                assert(full[i - off] == Instruction::JumpOpen(off));
                            },
                            _ => {},
                        }
                    }
                }
                assert(prog_wf(full));
            }
        },
    }
}

impl Programme {
    /// Parse source text into a programme. Succeeds exactly when the
    /// brackets in `source` are balanced; the result is then the sequence
    /// `parse_spec` describes, with its cursor on slot 0, well formed, and
    /// one slot long per recognized symbol plus the trailing `End`.
    pub fn parse(source: &[u8]) -> (r: Result<Programme, ParseError>)
        ensures
            match r {
                Ok(p) => {
                    &&& parse_spec(source@) == Ok::<Seq<Instruction>, ParseError>(
                        p.instructions@,
                    )
                    &&& p.index == 0
                    &&& p.wf()
                    &&& p.instructions@.len() == symbol_count(source@) + 1
                },
                Err(e) => parse_spec(source@) == Err::<Seq<Instruction>, ParseError>(e),
            },
    {
        let mut instructions: Vec<Instruction> = Vec::new();
        let mut sq_brackets: Vec<usize> = Vec::new();

        let mut i: usize = 0;
        while i < source.len()
            invariant
                i <= source@.len(),
                scan(source@.take(i as int)) == Some(
                    (instructions@, sq_brackets@.map_values(|x: usize| x as int)),
                ),
            decreases source@.len() - i,
        {
            proof {
                assert(source@.take(i as int + 1).drop_last() =~= source@.take(i as int));
                lemma_scan_props(source@.take(i as int));
            }
            let ghost stack0 = sq_brackets@.map_values(|x: usize| x as int);
            let ghost instrs0 = instructions@;
            let b = source[i];
            proof {
                assert(source@.take(i as int + 1).last() == b);
            }
            let instr = Instruction::from(b as char);
            match instr {
                Instruction::Comment(_) => {},
                Instruction::JumpOpen(_) => {
                    sq_brackets.push(instructions.len());
                    instructions.push(Instruction::JumpOpen(0));
                    proof {
                        assert(sq_brackets@.map_values(|x: usize| x as int) =~= stack0.push(
                            instrs0.len() as int,
                        ));
                    }
                },
                Instruction::JumpClose(_) => {
                    match sq_brackets.pop() {
                        None => {
                            proof {
                                assert(stack0.len() == 0);
                                lemma_scan_none_extends(source@, i as int + 1);
                            }
                            return Err(ParseError::UnmatchedClose);
                        },
                        Some(i_open) => {
                            proof {
                                assert(stack0[stack0.len() - 1] == i_open as int);
                                assert((i_open as int) < instructions@.len());
                                assert(sq_brackets@.map_values(|x: usize| x as int)
                                    =~= stack0.drop_last());
                            }
                            let off = instructions.len() - i_open;
                            instructions[i_open] = Instruction::JumpOpen(off);
                            instructions.push(Instruction::JumpClose(off));
                        },
                    }
                },
                _ => {
                    instructions.push(instr);
                },
            }
            i = i + 1;
        }
        proof {
            assert(source@.take(i as int) =~= source@);
        }
        if sq_brackets.len() > 0 {
            proof {
                assert(sq_brackets@.map_values(|x: usize| x as int).len() > 0);
            }
            return Err(ParseError::UnmatchedOpen);
        }
        proof {
            assert(sq_brackets@.map_values(|x: usize| x as int).len() == 0);
            lemma_parse_spec_wf(source@);
        }
        instructions.push(Instruction::End);
        Ok(Programme { instructions, index: 0 })
    }
}

} // verus!
