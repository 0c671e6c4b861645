//! The laws of the machine, stated over the same spec functions that the
//! parser's and the virtual machine's contracts use, and proved once and
//! for all.

use vstd::prelude::*;

use crate::instruction::Instruction;
use crate::parser::{parse_spec, ParseError};
use crate::state::{Config, config_wf, jumps_ok};
use crate::vm::{
    step_spec, run_n, halted, incr_byte, decr_byte, lemma_run_n_snoc, lemma_run_n_add, VmError,
};

verus! {

/// Law: executing a `JumpOpen` on a zero cell lands the instruction
/// pointer exactly one slot past the partner `JumpClose` that stands at
/// slot `ip + offset`, as the parse-time offset promises.
pub proof fn lemma_jump_open_lands_past_partner(c: Config)
    requires
        config_wf(c),
        c.instrs[c.ip] is JumpOpen,
        c.tape[c.cell] == 0,
    ensures
        ({
            let off = c.instrs[c.ip]->JumpOpen_0;
            &&& c.instrs[c.ip + off] == Instruction::JumpClose(off)
            &&& step_spec(c) == Ok::<Config, VmError>(Config { ip: c.ip + off + 1, ..c })
        }),
{
    assert(jumps_ok(c.instrs, c.ip));
}

/// Law: executing a `JumpClose` on a non-zero cell lands the instruction
/// pointer exactly on the slot of the partner `JumpOpen` that stands at
/// slot `ip - offset`, re-entering the loop.
pub proof fn lemma_jump_close_lands_on_partner(c: Config)
    requires
        config_wf(c),
        c.instrs[c.ip] is JumpClose,
        c.tape[c.cell] != 0,
    ensures
        ({
            let off = c.instrs[c.ip]->JumpClose_0;
            &&& c.instrs[c.ip - off] == Instruction::JumpOpen(off)
            &&& step_spec(c) == Ok::<Config, VmError>(Config { ip: c.ip - off, ..c })
        }),
{
    assert(jumps_ok(c.instrs, c.ip));
}

/// Law: parsing is a function of the source text alone, so parsing the
/// same source twice yields structurally identical instruction sequences.
pub proof fn lemma_parse_idempotent(s: Seq<u8>, a: Seq<Instruction>, b: Seq<Instruction>)
    requires
        parse_spec(s) == Ok::<Seq<Instruction>, ParseError>(a),
        parse_spec(s) == Ok::<Seq<Instruction>, ParseError>(b),
    ensures
        a == b,
{
}

/// The cell value after `n` increments.
pub open spec fn iter_incr(b: u8, n: nat) -> u8
    decreases n,
{
    if n == 0 {
        b
    } else {
        incr_byte(iter_incr(b, (n - 1) as nat))
    }
}

/// `n` increments add `n` to the cell, modulo 256.
pub proof fn lemma_iter_incr_value(b: u8, n: nat)
    ensures
        iter_incr(b, n) == ((b + n) % 256) as u8,
    decreases n,
{
    if n > 0 {
        lemma_iter_incr_value(b, (n - 1) as nat);
    }
}

/// Law: increment applied 256 times returns a cell to its original value.
pub proof fn lemma_increment_wraps_around(b: u8)
    ensures
        iter_incr(b, 256) == b,
{
    lemma_iter_incr_value(b, 256);
}

/// Law: decrement applied to a zero cell yields 255, and undoes one
/// increment exactly.
pub proof fn lemma_decrement_wraps(b: u8)
    ensures
        decr_byte(0) == 255,
        decr_byte(incr_byte(b)) == b,
{
}

/// The instruction sequence of the counting programme: `n` increments,
/// one output, the `End` sentinel.
pub open spec fn counting_programme(n: nat) -> Seq<Instruction> {
    Seq::new(n, |i: int| Instruction::Increment) + seq![Instruction::Output, Instruction::End]
}

/// The first `k` increments of the counting programme leave the pointer on
/// slot `k` with the cell incremented `k` times and nothing else changed.
proof fn lemma_counting_phase(c: Config, n: nat, k: nat)
    requires
        k <= n,
        c.instrs == counting_programme(n),
        c.ip == 0,
        0 <= c.cell < c.tape.len(),
    ensures
        run_n(c, k) == Ok::<Config, VmError>(
            Config {
                ip: k as int,
                tape: c.tape.update(c.cell, iter_incr(c.tape[c.cell], k)),
                ..c
            },
        ),
    decreases k,
{
    if k == 0 {
        assert(c.tape.update(c.cell, iter_incr(c.tape[c.cell], 0)) =~= c.tape);
    } else {
        lemma_counting_phase(c, n, (k - 1) as nat);
        let ck = Config {
            ip: k - 1,
            tape: c.tape.update(c.cell, iter_incr(c.tape[c.cell], (k - 1) as nat)),
            ..c
        };
        assert(ck.instrs[ck.ip] == Instruction::Increment);
        assert(ck.tape[ck.cell] == iter_incr(c.tape[c.cell], (k - 1) as nat));
        let ck1 = Config {
            ip: k as int,
            tape: c.tape.update(c.cell, iter_incr(c.tape[c.cell], k)),
            ..c
        };
        assert(ck.tape.update(ck.cell, incr_byte(ck.tape[ck.cell])) =~= ck1.tape);
        assert(step_spec(ck) == Ok::<Config, VmError>(ck1));
        lemma_run_n_snoc(c, ck, ck1, (k - 1) as nat);
    }
}

/// Law: the programme of `n` increments followed by one output, run from
/// slot 0, halts and writes exactly one byte: the starting cell value plus
/// `n`, modulo 256 — on a zero cell, `n mod 256`.
pub proof fn lemma_counting_programme_output(c: Config, n: nat)
    requires
        c.instrs == counting_programme(n),
        c.ip == 0,
        c.tape.len() >= 1,
        0 <= c.cell < c.tape.len(),
        c.output == Seq::<u8>::empty(),
    ensures
        ({
            let byte = ((c.tape[c.cell] + n) % 256) as u8;
            exists|m: nat|
                (#[trigger] run_n(c, m)) matches Ok(c2) && halted(c2) && c2.output == seq![
                    byte,
                ]
        }),
{
    lemma_counting_phase(c, n, n);
    let cn = Config {
        ip: n as int,
        tape: c.tape.update(c.cell, iter_incr(c.tape[c.cell], n)),
        ..c
    };
    assert(cn.instrs[cn.ip] == Instruction::Output);
    let byte = ((c.tape[c.cell] + n) % 256) as u8;
    lemma_iter_incr_value(c.tape[c.cell], n);
    assert(cn.tape[cn.cell] == byte);
    let cn1 = Config { ip: n as int + 1, output: cn.output.push(byte), ..cn };
    assert(step_spec(cn) == Ok::<Config, VmError>(cn1));
    lemma_run_n_snoc(c, cn, cn1, n);
    assert(cn1.instrs[cn1.ip] == Instruction::End);
    assert(halted(cn1));
    assert(cn1.output =~= seq![byte]);
    assert(run_n(c, (n + 1) as nat) matches Ok(c2) && halted(c2) && c2.output == seq![byte]);
}

/// The instruction sequence of the clear loop `[-]`: a loop that
/// decrements the current cell until it is zero.
pub open spec fn clear_loop_programme() -> Seq<Instruction> {
    seq![
        Instruction::JumpOpen(2),
        Instruction::Decrement,
        Instruction::JumpClose(2),
        Instruction::End,
    ]
}

/// Law: the clear loop halts on every starting cell value, leaves that
/// cell zero, touches nothing else, and writes no output.
pub proof fn lemma_clear_loop_halts(c: Config)
    requires
        c.instrs == clear_loop_programme(),
        c.ip == 0,
        0 <= c.cell < c.tape.len(),
    ensures
        exists|m: nat|
            (#[trigger] run_n(c, m)) matches Ok(c2) && halted(c2) && c2.tape == c.tape.update(
                c.cell,
                0u8,
            ) && c2.cell == c.cell && c2.output == c.output,
    decreases c.tape[c.cell],
{
    let v = c.tape[c.cell];
    if v == 0 {
        let c1 = Config { ip: 3, ..c };
        assert(step_spec(c) == Ok::<Config, VmError>(c1));
        lemma_run_n_snoc(c, c, c1, 0);
        assert(run_n(c, 1) == Ok::<Config, VmError>(c1));
        assert(halted(c1));
        assert(c1.tape =~= c.tape.update(c.cell, 0u8));
        assert((#[trigger] run_n(c, 1)) matches Ok(c2) && halted(c2) && c2.tape == c.tape.update(
            c.cell,
            0u8,
        ) && c2.cell == c.cell && c2.output == c.output);
    } else {
        let c1 = Config { ip: 1, ..c };
        let c2 = Config { ip: 2, tape: c.tape.update(c.cell, decr_byte(v)), ..c };
        assert(step_spec(c) == Ok::<Config, VmError>(c1));
        assert(c1.tape[c1.cell] == v);
        assert(step_spec(c1) == Ok::<Config, VmError>(c2));
        assert(c2.tape[c2.cell] == decr_byte(v));
        lemma_run_n_snoc(c, c, c1, 0);
        if decr_byte(v) != 0 {
            let c3 = Config { ip: 0, ..c2 };
            assert(step_spec(c2) == Ok::<Config, VmError>(c3));
            lemma_run_n_snoc(c, c1, c2, 1);
            lemma_run_n_snoc(c, c2, c3, 2);
            assert(run_n(c, 3) == Ok::<Config, VmError>(c3));
            assert(c3.tape[c3.cell] == decr_byte(v) < v);
            lemma_clear_loop_halts(c3);
            let m3 = choose|m: nat|
                (#[trigger] run_n(c3, m)) matches Ok(cf) && halted(cf) && cf.tape
                    == c3.tape.update(c3.cell, 0u8) && cf.cell == c3.cell && cf.output
                    == c3.output;
            lemma_run_n_add(c, 3, m3);
            assert(c3.tape.update(c3.cell, 0u8) =~= c.tape.update(c.cell, 0u8));
            assert((#[trigger] run_n(c, 3 + m3)) matches Ok(cf) && halted(cf) && cf.tape
                == c.tape.update(c.cell, 0u8) && cf.cell == c.cell && cf.output == c.output);
        } else {
            let c3 = Config { ip: 3, ..c2 };
            assert(step_spec(c2) == Ok::<Config, VmError>(c3));
            lemma_run_n_snoc(c, c1, c2, 1);
            lemma_run_n_snoc(c, c2, c3, 2);
            assert(run_n(c, 3) == Ok::<Config, VmError>(c3));
            assert(halted(c3));
            assert(c3.tape =~= c.tape.update(c.cell, 0u8));
            assert((#[trigger] run_n(c, 3)) matches Ok(cf) && halted(cf) && cf.tape
                == c.tape.update(c.cell, 0u8) && cf.cell == c.cell && cf.output == c.output);
        }
    }
}

} // verus!
