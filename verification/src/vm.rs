//! The virtual machine: a stack automaton over 32-bit signed words with a
//! separate 1024-word random-access memory, an instruction pointer and two
//! mode flags (halt and raw I/O).
//!
//! The meaning of one instruction is given by the specification function
//! [`step_spec`]: a small-step transition from a mathematical machine state
//! ([`VMView`]) to either a successor state (possibly with one output item,
//! possibly consuming one input number), a wait for input, or a fatal error.
//! The executable machine is proved to follow `step_spec` exactly; [`VM::run`]
//! is proved to produce precisely an iterated application of `step_spec`.
//!
//! Signed arithmetic wraps on overflow (two's complement); division and
//! modulus truncate toward zero, and division or modulus by zero is a fatal
//! error.
use vstd::prelude::*;

use crate::instructions::{
    ADD, AND, CRF, DEC, DIV, DUP, HALT, IN, INC, JE, JG, JGE, JL, JLE, JMP, JNE, LOAD, MOD, MUL,
    NEG, NOP, NOT, OR, OUT, OVR, POP, RF, SHL, SHR, STOR, SUB, SWP, XOR,
};

verus! {

/// Capacity of the operand stack, in words.
pub const STACK_SIZE: usize = 1024;

/// Size of the random-access memory, in words.
pub const MEM_SIZE: usize = 1024;

/// The fatal errors that stop a run.
#[derive(Clone, Copy, Debug, PartialEq, Eq, Structural)]
pub enum VMError {
    /// A push was attempted while the stack was full.
    StackOverflow,
    /// A pop or peek was attempted with too few entries on the stack.
    CorruptStack,
    /// A memory or jump address outside `[0, MEM_SIZE)`.
    InvalidMemoryAddress,
    /// A negative word outside the defined opcode set was fetched.
    UnknownInstruction(i32),
    /// Division or modulus by zero, or a failure of the input stream.
    IOError,
    /// An operation whose semantics is deliberately left undefined
    /// (reading input while in raw mode).
    Unsupported,
}

/// One item of program output: a decimal number with trailing newline, or a
/// single raw byte (the low eight bits of the written word).
#[derive(Clone, Copy, Debug, PartialEq, Eq, Structural)]
pub enum OutputItem {
    Number(i32),
    Byte(u8),
}

/// Why [`VM::run`] returned.
#[derive(Clone, Copy, Debug, PartialEq, Eq, Structural)]
pub enum RunStatus {
    /// The halt flag was set or the instruction pointer ran past the program.
    Finished,
    /// An input instruction was reached and the input queue was empty.
    AwaitingInput,
    /// The step budget was exhausted; calling [`VM::run`] again continues the
    /// run where it stopped.
    Paused,
    /// A fatal error; the machine stopped at the failing instruction.
    Failed(VMError),
}

/// The mathematical state of the machine: the loaded program, the valid part
/// of the operand stack (bottom first), the memory, the instruction pointer
/// and the two flags.
#[verifier::ext_equal]
pub struct VMView {
    pub program: Seq<i32>,
    pub stack: Seq<i32>,
    pub memory: Seq<i32>,
    pub ip: int,
    pub hf: bool,
    pub rf: bool,
}

/// Well-formedness of a machine state: the stack holds at most `STACK_SIZE`
/// words and the memory exactly `MEM_SIZE` words.
pub open spec fn wf_view(s: VMView) -> bool {
    &&& s.stack.len() <= STACK_SIZE
    &&& s.memory.len() == MEM_SIZE
    &&& 0 <= s.ip
}

/// A state from which one more instruction can be fetched.
pub open spec fn can_tick(s: VMView) -> bool {
    0 <= s.ip < s.program.len() && !s.hf
}

/// The outcome of one instruction.
pub enum StepOut {
    /// The machine moved to `post`, emitting `out` (if any) and consuming one
    /// input number iff `used_input`.
    Next { post: VMView, out: Option<OutputItem>, used_input: bool },
    /// An input instruction was reached but no input is available; nothing
    /// changed.
    Await,
    /// A fatal error; nothing changed.
    Fail(VMError),
}

/// The raw byte written by `OUT` in raw mode: the low eight bits of the word.
pub open spec fn byte_of(v: i32) -> u8 {
    (v & 255) as u8
}

/// The value pushed by the four one-operand instructions.
pub open spec fn unop_result(op: i32, a: i32) -> i32 {
    if op == NEG {
        (0i32).wrapping_sub(a)
    } else if op == INC {
        a.wrapping_add(1)
    } else if op == DEC {
        a.wrapping_sub(1)
    } else {
        // NOT
        !a
    }
}

/// The two-operand instructions whose result replaces both operands.
pub open spec fn is_binop(op: i32) -> bool {
    ||| op == ADD
    ||| op == SUB
    ||| op == MUL
    ||| op == DIV
    ||| op == MOD
    ||| op == AND
    ||| op == OR
    ||| op == XOR
    ||| op == SHL
    ||| op == SHR
}

pub open spec fn is_unop(op: i32) -> bool {
    op == NEG || op == INC || op == DEC || op == NOT
}

/// The value pushed by a two-operand instruction, `b` being the deeper
/// operand: arithmetic wraps, shifts take the low five bits of the shift
/// amount, division and modulus truncate toward zero and fail on a zero
/// divisor.
pub open spec fn binop_result(op: i32, b: i32, a: i32) -> Result<i32, VMError> {
    if op == ADD {
        Ok(b.wrapping_add(a))
    } else if op == SUB {
        Ok(b.wrapping_sub(a))
    } else if op == MUL {
        Ok(b.wrapping_mul(a))
    } else if op == DIV {
        if a == 0 {
            Err(VMError::IOError)
        } else {
            match b.checked_div(a) {
                Some(q) => Ok(q),
                None => Ok(i32::MIN),
            }
        }
    } else if op == MOD {
        if a == 0 {
            Err(VMError::IOError)
        } else {
            match b.checked_rem(a) {
                Some(r) => Ok(r),
                None => Ok(0),
            }
        }
    } else if op == AND {
        Ok(b & a)
    } else if op == OR {
        Ok(b | a)
    } else if op == XOR {
        Ok(b ^ a)
    } else if op == SHL {
        Ok(b.wrapping_shl((a & 31) as u32))
    } else {
        // SHR, arithmetic (sign-preserving)
        Ok(b.wrapping_shr((a & 31) as u32))
    }
}

pub open spec fn is_cond_jump(op: i32) -> bool {
    op == JE || op == JNE || op == JG || op == JGE || op == JL || op == JLE
}

/// Whether a conditional jump is taken; `x` is popped before `y`.
pub open spec fn cond_holds(op: i32, x: i32, y: i32) -> bool {
    if op == JE {
        x == y
    } else if op == JNE {
        x != y
    } else if op == JG {
        x > y
    } else if op == JGE {
        x >= y
    } else if op == JL {
        x < y
    } else {
        // JLE
        x <= y
    }
}

/// A successor state that pushed `v` and advanced the instruction pointer, or
/// a stack overflow.
pub open spec fn push_step(s: VMView, v: i32, used: bool) -> StepOut {
    if s.stack.len() >= STACK_SIZE {
        StepOut::Fail(VMError::StackOverflow)
    } else {
        StepOut::Next {
            post: VMView { stack: s.stack.push(v), ip: s.ip + 1, ..s },
            out: None,
            used_input: used,
        }
    }
}

/// A valid memory (and jump) address.
pub open spec fn addr_ok(a: i32) -> bool {
    0 <= a < MEM_SIZE
}

/// One instruction of the machine, as a transition on [`VMView`].
///
/// `input` is the next pending input number, if any; it is consumed only by a
/// (non-raw) `IN`. On `Fail` and `Await` the state is unchanged.
pub open spec fn step_spec(s: VMView, input: Option<i32>) -> StepOut
    recommends
        wf_view(s),
        can_tick(s),
{
    let inst = s.program[s.ip];
    let len = s.stack.len() as int;
    if inst >= 0 {
        push_step(s, inst, false)
    } else if inst == IN {
        if s.rf {
            StepOut::Fail(VMError::Unsupported)
        } else if s.stack.len() >= STACK_SIZE {
            StepOut::Fail(VMError::StackOverflow)
        } else {
            match input {
                None => StepOut::Await,
                Some(v) => push_step(s, v, true),
            }
        }
    } else if inst == OUT {
        if len < 1 {
            StepOut::Fail(VMError::CorruptStack)
        } else {
            let v = s.stack[len - 1];
            let item = if s.rf {
                OutputItem::Byte(byte_of(v))
            } else {
                OutputItem::Number(v)
            };
            StepOut::Next {
                post: VMView { stack: s.stack.take(len - 1), ip: s.ip + 1, ..s },
                out: Some(item),
                used_input: false,
            }
        }
    } else if is_binop(inst) {
        if len < 2 {
            StepOut::Fail(VMError::CorruptStack)
        } else {
            let a = s.stack[len - 1];
            let b = s.stack[len - 2];
            match binop_result(inst, b, a) {
                Ok(r) => StepOut::Next {
                    post: VMView { stack: s.stack.take(len - 2).push(r), ip: s.ip + 1, ..s },
                    out: None,
                    used_input: false,
                },
                Err(e) => StepOut::Fail(e),
            }
        }
    } else if is_unop(inst) {
        if len < 1 {
            StepOut::Fail(VMError::CorruptStack)
        } else {
            let a = s.stack[len - 1];
            StepOut::Next {
                post: VMView {
                    stack: s.stack.update(len - 1, unop_result(inst, a)),
                    ip: s.ip + 1,
                    ..s
                },
                out: None,
                used_input: false,
            }
        }
    } else if inst == POP {
        if len < 1 {
            StepOut::Fail(VMError::CorruptStack)
        } else {
            StepOut::Next {
                post: VMView { stack: s.stack.take(len - 1), ip: s.ip + 1, ..s },
                out: None,
                used_input: false,
            }
        }
    } else if inst == DUP {
        if s.stack.len() >= STACK_SIZE {
            StepOut::Fail(VMError::StackOverflow)
        } else if len < 1 {
            StepOut::Fail(VMError::CorruptStack)
        } else {
            push_step(s, s.stack[len - 1], false)
        }
    } else if inst == SWP {
        if len < 2 {
            StepOut::Fail(VMError::CorruptStack)
        } else {
            let a = s.stack[len - 1];
            let b = s.stack[len - 2];
            StepOut::Next {
                post: VMView {
                    stack: s.stack.update(len - 2, a).update(len - 1, b),
                    ip: s.ip + 1,
                    ..s
                },
                out: None,
                used_input: false,
            }
        }
    } else if inst == OVR {
        if len < 2 {
            StepOut::Fail(VMError::CorruptStack)
        } else {
            push_step(s, s.stack[len - 2], false)
        }
    } else if inst == LOAD {
        if len < 1 {
            StepOut::Fail(VMError::CorruptStack)
        } else {
            let ad = s.stack[len - 1];
            if !addr_ok(ad) {
                StepOut::Fail(VMError::InvalidMemoryAddress)
            } else {
                StepOut::Next {
                    post: VMView {
                        stack: s.stack.update(len - 1, s.memory[ad as int]),
                        ip: s.ip + 1,
                        ..s
                    },
                    out: None,
                    used_input: false,
                }
            }
        }
    } else if inst == STOR {
        if len < 2 {
            StepOut::Fail(VMError::CorruptStack)
        } else {
            let ad = s.stack[len - 1];
            let v = s.stack[len - 2];
            if !addr_ok(ad) {
                StepOut::Fail(VMError::InvalidMemoryAddress)
            } else {
                StepOut::Next {
                    post: VMView {
                        stack: s.stack.take(len - 2),
                        memory: s.memory.update(ad as int, v),
                        ip: s.ip + 1,
                        ..s
                    },
                    out: None,
                    used_input: false,
                }
            }
        }
    } else if inst == JMP {
        if len < 1 {
            StepOut::Fail(VMError::CorruptStack)
        } else {
            let ad = s.stack[len - 1];
            if !addr_ok(ad) {
                StepOut::Fail(VMError::InvalidMemoryAddress)
            } else {
                StepOut::Next {
                    post: VMView { stack: s.stack.take(len - 1), ip: ad as int, ..s },
                    out: None,
                    used_input: false,
                }
            }
        }
    } else if is_cond_jump(inst) {
        if len < 1 {
            StepOut::Fail(VMError::CorruptStack)
        } else {
            let ad = s.stack[len - 1];
            if !addr_ok(ad) {
                StepOut::Fail(VMError::InvalidMemoryAddress)
            } else if len < 3 {
                StepOut::Fail(VMError::CorruptStack)
            } else {
                let x = s.stack[len - 2];
                let y = s.stack[len - 3];
                StepOut::Next {
                    post: VMView {
                        stack: s.stack.take(len - 3),
                        ip: if cond_holds(inst, x, y) {
                            ad as int
                        } else {
                            s.ip + 1
                        },
                        ..s
                    },
                    out: None,
                    used_input: false,
                }
            }
        }
    } else if inst == RF {
        StepOut::Next {
            post: VMView { rf: true, ip: s.ip + 1, ..s },
            out: None,
            used_input: false,
        }
    } else if inst == CRF {
        StepOut::Next {
            post: VMView { rf: false, ip: s.ip + 1, ..s },
            out: None,
            used_input: false,
        }
    } else if inst == NOP {
        StepOut::Next {
            post: VMView { ip: s.ip + 1, ..s },
            out: None,
            used_input: false,
        }
    } else if inst == HALT {
        StepOut::Next {
            post: VMView { hf: true, ip: s.ip + 1, ..s },
            out: None,
            used_input: false,
        }
    } else {
        StepOut::Fail(VMError::UnknownInstruction(inst))
    }
}

/// The next pending input, if any.
pub open spec fn head_input(ins: Seq<i32>) -> Option<i32> {
    if ins.len() == 0 {
        None
    } else {
        Some(ins[0])
    }
}

/// The output of one step, as a (possibly empty) sequence.
pub open spec fn out_seq(out: Option<OutputItem>) -> Seq<OutputItem> {
    match out {
        None => Seq::empty(),
        Some(o) => seq![o],
    }
}

/// `n` applications of [`step_spec`] from state `s` with input queue `ins`:
/// the reached state, the remaining inputs and the outputs emitted, or `None`
/// if the machine stops (for any reason) in fewer than `n` steps.
pub open spec fn run_steps(s: VMView, ins: Seq<i32>, n: nat) -> Option<(VMView, Seq<i32>, Seq<OutputItem>)>
    decreases n,
{
    if n == 0 {
        Some((s, ins, Seq::empty()))
    } else {
        match run_steps(s, ins, (n - 1) as nat) {
            None => None,
            Some((t, tins, outs)) => {
                if can_tick(t) {
                    match step_spec(t, head_input(tins)) {
                        StepOut::Next { post, out, used_input } => Some(
                            (
                                post,
                                if used_input {
                                    tins.skip(1)
                                } else {
                                    tins
                                },
                                outs + out_seq(out),
                            ),
                        ),
                        _ => None,
                    }
                } else {
                    None
                }
            },
        }
    }
}

/// The machine state right after loading a program: empty stack, zeroed
/// memory, both flags clear, the instruction pointer at the first word.
pub open spec fn init_view(prog: Seq<i32>) -> VMView {
    VMView {
        program: prog,
        stack: Seq::empty(),
        memory: Seq::new(MEM_SIZE as nat, |i: int| 0i32),
        ip: 0,
        hf: false,
        rf: false,
    }
}

/// Iterated stepping composes: `a + b` steps are `a` steps followed by `b`
/// steps from the reached state, with the outputs concatenated.
pub proof fn lemma_run_steps_compose(s: VMView, ins: Seq<i32>, a: nat, b: nat)
    requires
        run_steps(s, ins, a) is Some,
    ensures
        ({
            let m = run_steps(s, ins, a)->0;
            run_steps(s, ins, a + b) == match run_steps(m.0, m.1, b) {
                Some(f) => Some((f.0, f.1, m.2 + f.2)),
                None => None::<(VMView, Seq<i32>, Seq<OutputItem>)>,
            }
        }),
    decreases b,
{
    let m = run_steps(s, ins, a)->0;
    if b == 0 {
        assert(run_steps(m.0, m.1, 0) == Some((m.0, m.1, Seq::<OutputItem>::empty())));
        assert(m.2 + Seq::<OutputItem>::empty() =~= m.2);
    } else {
        lemma_run_steps_compose(s, ins, a, (b - 1) as nat);
        assert(a + b - 1 == a + (b - 1) as nat);
        match run_steps(m.0, m.1, (b - 1) as nat) {
            None => {
                assert(run_steps(m.0, m.1, b) is None);
            },
            Some(g) => {
                if can_tick(g.0) {
                    match step_spec(g.0, head_input(g.1)) {
                        StepOut::Next { post, out, used_input } => {
                            assert((m.2 + g.2) + out_seq(out) =~= m.2 + (g.2 + out_seq(out)));
                        },
                        _ => {},
                    }
                }
            },
        }
    }
}

/// Every step of the machine keeps the state well-formed: the stack pointer
/// stays within `[0, STACK_SIZE]`. The instruction pointer stays within
/// `[0, len(program)]` except through a taken jump, whose target — always in
/// `[0, MEM_SIZE)` — may lie past the end of a program shorter than
/// `MEM_SIZE`; in that case the run loop stops at once.
pub proof fn lemma_step_preserves_wf(s: VMView, input: Option<i32>)
    requires
        wf_view(s),
        can_tick(s),
        step_spec(s, input) is Next,
    ensures
        wf_view(step_spec(s, input)->Next_post),
        step_spec(s, input)->Next_post.program == s.program,
        step_spec(s, input)->Next_post.ip <= s.program.len()
            || is_cond_jump(s.program[s.ip]) || s.program[s.ip] == JMP,
        step_spec(s, input)->Next_post.ip <= s.program.len()
            || step_spec(s, input)->Next_post.ip < MEM_SIZE,
{
}

/// The full contract of one executed cycle, relating machine, input queue and
/// output buffer before and after to [`step_spec`]: `Ok(true)` is one
/// transition, `Ok(false)` a wait for input, `Err` a fatal error; in the last
/// two cases nothing changes.
pub open spec fn tick_post(
    pre: VMView,
    pre_ins: Seq<i32>,
    pre_outs: Seq<OutputItem>,
    post: VMView,
    post_ins: Seq<i32>,
    post_outs: Seq<OutputItem>,
    r: Result<bool, VMError>,
) -> bool {
    match r {
        Ok(progressed) => if progressed {
            &&& step_spec(pre, head_input(pre_ins)) matches StepOut::Next { post: p, out, used_input }
            &&& post == p
            &&& post_ins == if used_input {
                pre_ins.skip(1)
            } else {
                pre_ins
            }
            &&& match out {
                None => post_outs == pre_outs,
                Some(o) => post_outs == pre_outs.push(o),
            }
        } else {
            &&& step_spec(pre, head_input(pre_ins)) is Await
            &&& post == pre
            &&& post_ins == pre_ins
            &&& post_outs == pre_outs
        },
        Err(e) => {
            &&& step_spec(pre, head_input(pre_ins)) == StepOut::Fail(e)
            &&& post == pre
            &&& post_ins == pre_ins
            &&& post_outs == pre_outs
        },
    }
}

/// The 32-bit word stored little-endian in four bytes (two's complement).
pub open spec fn word_of_le(b0: u8, b1: u8, b2: u8, b3: u8) -> i32 {
    let u = b0 + 256 * b1 + 65536 * b2 + 16777216 * b3;
    if u >= 0x8000_0000 {
        (u - 0x1_0000_0000) as i32
    } else {
        u as i32
    }
}

/// The words of a byte sequence read four bytes at a time, little-endian;
/// a trailing fragment shorter than four bytes is nothing the format allows.
pub open spec fn words_of_bytes(bs: Seq<u8>) -> Seq<i32>
    decreases bs.len(),
{
    if bs.len() < 4 {
        Seq::empty()
    } else {
        words_of_bytes(bs.take(bs.len() - 4)) + seq![
            word_of_le(
                bs[bs.len() - 4],
                bs[bs.len() - 3],
                bs[bs.len() - 2],
                bs[bs.len() - 1],
            ),
        ]
    }
}

/// The four little-endian bytes of a word (two's complement).
pub open spec fn le_bytes(w: i32) -> Seq<u8> {
    let u = if w < 0 {
        w + 0x1_0000_0000
    } else {
        w as int
    };
    seq![
        (u % 256) as u8,
        ((u / 256) % 256) as u8,
        ((u / 65536) % 256) as u8,
        ((u / 16777216) % 256) as u8,
    ]
}

/// The little-endian encoding of a word sequence.
pub open spec fn bytes_of_words(ws: Seq<i32>) -> Seq<u8>
    decreases ws.len(),
{
    if ws.len() == 0 {
        Seq::empty()
    } else {
        bytes_of_words(ws.drop_last()) + le_bytes(ws.last())
    }
}

/// Encode a program as the on-disk bytecode format: each word as four
/// little-endian bytes, in program order.
pub fn words_to_bytes(ws: &Vec<i32>) -> (r: Vec<u8>)
    ensures
        r@ == bytes_of_words(ws@),
        r@.len() == 4 * ws@.len(),
{
    let mut out: Vec<u8> = Vec::new();
    let mut i: usize = 0;
    while i < ws.len()
        invariant
            i <= ws@.len(),
            out@ == bytes_of_words(ws@.take(i as int)),
            out@.len() == 4 * i,
        decreases ws@.len() - i,
    {
        let w = ws[i];
        let u: u32 = if w >= 0 {
            w as u32
        } else {
            (w - i32::MIN) as u32 + 0x8000_0000u32
        };
        out.push((u % 256) as u8);
        out.push((u / 256 % 256) as u8);
        out.push((u / 65536 % 256) as u8);
        out.push((u / 16777216 % 256) as u8);
        proof {
            assert(ws@.take(i + 1).drop_last() =~= ws@.take(i as int));
            assert(out@ =~= bytes_of_words(ws@.take(i as int)) + le_bytes(ws@[i as int]));
        }
        i += 1;
    }
    proof {
        assert(ws@.take(ws@.len() as int) =~= ws@);
    }
    out
}

pub struct VM {
    stack: Vec<i32>,
    memory: Vec<i32>,
    program: Vec<i32>,
    ip: usize,
    sp: usize,
    hf: bool,
    rf: bool,
}

impl View for VM {
    type V = VMView;

    closed spec fn view(&self) -> VMView {
        VMView {
            program: self.program@,
            stack: self.stack@.take(self.sp as int),
            memory: self.memory@,
            ip: self.ip as int,
            hf: self.hf,
            rf: self.rf,
        }
    }
}

impl VM {
    /// The representation invariant: fixed-size stack and memory arrays, with
    /// the stack pointer inside the stack array.
    pub closed spec fn wf(&self) -> bool {
        &&& self.stack@.len() == STACK_SIZE
        &&& self.sp <= STACK_SIZE
        &&& self.memory@.len() == MEM_SIZE
    }

    /// A fresh machine: empty program, empty stack, zeroed memory, both flags
    /// clear.
    pub fn new() -> (vm: VM)
        ensures
            vm.wf(),
            vm@.program == Seq::<i32>::empty(),
            vm@.stack == Seq::<i32>::empty(),
            vm@.memory == Seq::new(MEM_SIZE as nat, |i: int| 0i32),
            vm@.ip == 0,
            !vm@.hf,
            !vm@.rf,
    {
        let mut stack: Vec<i32> = Vec::new();
        let mut memory: Vec<i32> = Vec::new();
        let mut i: usize = 0;
        while i < STACK_SIZE
            invariant
                i <= STACK_SIZE,
                stack@.len() == i,
                memory@.len() == i,
                forall|j: int| 0 <= j < i ==> memory@[j] == 0i32,
            decreases STACK_SIZE - i,
        {
            stack.push(0);
            memory.push(0);
            i += 1;
        }
        let vm = VM { stack, memory, program: Vec::new(), ip: 0, sp: 0, hf: false, rf: false };
        proof {
            assert(vm@.stack =~= Seq::<i32>::empty());
            assert(vm@.memory =~= Seq::new(MEM_SIZE as nat, |i: int| 0i32));
        }
        vm
    }

    fn check_stack_free_space(&self, min: usize) -> (r: bool)
        requires
            self.wf(),
        ensures
            r == (STACK_SIZE - self@.stack.len() >= min),
    {
        self.stack.len() - self.sp >= min
    }

    fn assert_stack_free_space(&self, min: usize) -> (r: Result<(), VMError>)
        requires
            self.wf(),
        ensures
            r is Ok <==> STACK_SIZE - self@.stack.len() >= min,
            r is Err ==> r->Err_0 == VMError::StackOverflow,
    {
        if !self.check_stack_free_space(min) {
            Err(VMError::StackOverflow)
        } else {
            Ok(())
        }
    }

    fn check_stack_size(&self, min: usize) -> (r: bool)
        requires
            self.wf(),
        ensures
            r == (self@.stack.len() >= min),
    {
        self.sp >= min
    }

    fn assert_stack_size(&self, min: usize) -> (r: Result<(), VMError>)
        requires
            self.wf(),
        ensures
            r is Ok <==> self@.stack.len() >= min,
            r is Err ==> r->Err_0 == VMError::CorruptStack,
    {
        if !self.check_stack_size(min) {
            Err(VMError::CorruptStack)
        } else {
            Ok(())
        }
    }

    fn check_memory_address(&self, addr: usize) -> (r: bool)
        requires
            self.wf(),
        ensures
            r == (addr < MEM_SIZE),
    {
        addr < self.memory.len()
    }

    fn assert_memory_address(&self, addr: usize) -> (r: Result<(), VMError>)
        requires
            self.wf(),
        ensures
            r is Ok <==> addr < MEM_SIZE,
            r is Err ==> r->Err_0 == VMError::InvalidMemoryAddress,
    {
        if !self.check_memory_address(addr) {
            Err(VMError::InvalidMemoryAddress)
        } else {
            Ok(())
        }
    }

    /// Pop the address on top of the stack, checking it against the memory
    /// bounds without yet removing anything on failure.
    fn peek_addr(&self, depth: usize) -> (r: Result<usize, VMError>)
        requires
            self.wf(),
            1 <= depth <= self@.stack.len(),
        ensures
            match r {
                Ok(a) => addr_ok(self@.stack[self@.stack.len() - depth]) && a
                    == self@.stack[self@.stack.len() - depth],
                Err(e) => e == VMError::InvalidMemoryAddress && !addr_ok(
                    self@.stack[self@.stack.len() - depth],
                ),
            },
    {
        let w = self.stack[self.sp - depth];
        if w < 0 {
            return Err(VMError::InvalidMemoryAddress);
        }
        let a = w as usize;
        self.assert_memory_address(a)?;
        Ok(a)
    }

    fn push(&mut self, v: i32) -> (r: Result<(), VMError>)
        requires
            old(self).wf(),
        ensures
            final(self).wf(),
            final(self)@.program == old(self)@.program,
            final(self)@.memory == old(self)@.memory,
            final(self)@.ip == old(self)@.ip,
            final(self)@.hf == old(self)@.hf,
            final(self)@.rf == old(self)@.rf,
            if old(self)@.stack.len() < STACK_SIZE {
                r is Ok && final(self)@.stack == old(self)@.stack.push(v)
            } else {
                r == Result::<(), VMError>::Err(VMError::StackOverflow) && final(self)@ == old(self)@
            },
    {
        self.assert_stack_free_space(1)?;
        self.stack[self.sp] = v;
        self.sp += 1;
        proof {
            assert(self@.stack =~= old(self)@.stack.push(v));
        }
        Ok(())
    }

    fn pop(&mut self) -> (r: Result<i32, VMError>)
        requires
            old(self).wf(),
        ensures
            final(self).wf(),
            final(self)@.program == old(self)@.program,
            final(self)@.memory == old(self)@.memory,
            final(self)@.ip == old(self)@.ip,
            final(self)@.hf == old(self)@.hf,
            final(self)@.rf == old(self)@.rf,
            if old(self)@.stack.len() >= 1 {
                r is Ok && r->Ok_0 == old(self)@.stack.last()
                    && final(self)@.stack == old(self)@.stack.drop_last()
            } else {
                r == Result::<i32, VMError>::Err(VMError::CorruptStack) && final(self)@ == old(self)@
            },
    {
        self.assert_stack_size(1)?;
        let v = self.stack[self.sp - 1];
        self.sp -= 1;
        proof {
            assert(self@.stack =~= old(self)@.stack.drop_last());
        }
        Ok(v)
    }

    /// The shared body of the ten two-operand instructions.
    fn binop(&mut self, op: i32) -> (r: Result<(), VMError>)
        requires
            old(self).wf(),
            is_binop(op),
        ensures
            final(self).wf(),
            final(self)@.program == old(self)@.program,
            final(self)@.memory == old(self)@.memory,
            final(self)@.ip == old(self)@.ip,
            final(self)@.hf == old(self)@.hf,
            final(self)@.rf == old(self)@.rf,
            match r {
                Ok(_) => {
                    let len = old(self)@.stack.len() as int;
                    &&& len >= 2
                    &&& binop_result(op, old(self)@.stack[len - 2], old(self)@.stack[len - 1]) matches Ok(v)
                    &&& final(self)@.stack == old(self)@.stack.take(len - 2).push(v)
                },
                Err(e) => {
                    let len = old(self)@.stack.len() as int;
                    &&& final(self)@ == old(self)@
                    &&& if len < 2 {
                        e == VMError::CorruptStack
                    } else {
                        binop_result(op, old(self)@.stack[len - 2], old(self)@.stack[len - 1])
                            == Result::<i32, VMError>::Err(e)
                    }
                },
            },
    {
        self.assert_stack_size(2)?;
        let a = self.stack[self.sp - 1];
        let b = self.stack[self.sp - 2];
        let res: i32 = if op == ADD {
            b.wrapping_add(a)
        } else if op == SUB {
            b.wrapping_sub(a)
        } else if op == MUL {
            b.wrapping_mul(a)
        } else if op == DIV {
            if a == 0 {
                return Err(VMError::IOError);
            }
            match b.checked_div(a) {
                Some(q) => q,
                None => i32::MIN,
            }
        } else if op == MOD {
            if a == 0 {
                return Err(VMError::IOError);
            }
            match b.checked_rem(a) {
                Some(m) => m,
                None => 0,
            }
        } else if op == AND {
            b & a
        } else if op == OR {
            b | a
        } else if op == XOR {
            b ^ a
        } else {
            proof {
                assert(0 <= (a & 31i32) < 32) by (bit_vector);
            }
            let sh = (a & 31) as u32;
            if op == SHL {
                b.wrapping_shl(sh)
            } else {
                b.wrapping_shr(sh)
            }
        };
        self.stack[self.sp - 2] = res;
        self.sp -= 1;
        proof {
            assert(self@.stack =~= old(self)@.stack.take(old(self)@.stack.len() - 2).push(res));
        }
        Ok(())
    }

    /// The shared body of the four one-operand instructions.
    fn unop(&mut self, op: i32) -> (r: Result<(), VMError>)
        requires
            old(self).wf(),
            is_unop(op),
        ensures
            final(self).wf(),
            final(self)@.program == old(self)@.program,
            final(self)@.memory == old(self)@.memory,
            final(self)@.ip == old(self)@.ip,
            final(self)@.hf == old(self)@.hf,
            final(self)@.rf == old(self)@.rf,
            match r {
                Ok(_) => {
                    let len = old(self)@.stack.len() as int;
                    &&& len >= 1
                    &&& final(self)@.stack == old(self)@.stack.update(
                        len - 1,
                        unop_result(op, old(self)@.stack[len - 1]),
                    )
                },
                Err(e) => {
                    &&& final(self)@ == old(self)@
                    &&& old(self)@.stack.len() < 1
                    &&& e == VMError::CorruptStack
                },
            },
    {
        self.assert_stack_size(1)?;
        let a = self.stack[self.sp - 1];
        let res: i32 = if op == NEG {
            (0i32).wrapping_sub(a)
        } else if op == INC {
            a.wrapping_add(1)
        } else if op == DEC {
            a.wrapping_sub(1)
        } else {
            !a
        };
        self.stack[self.sp - 1] = res;
        proof {
            assert(self@.stack =~= old(self)@.stack.update(old(self)@.stack.len() - 1, res));
        }
        Ok(())
    }

    /// The shared body of the six conditional jumps; also advances or
    /// redirects the instruction pointer.
    fn cond_jump(&mut self, op: i32) -> (r: Result<(), VMError>)
        requires
            old(self).wf(),
            is_cond_jump(op),
            old(self)@.ip < old(self)@.program.len(),
        ensures
            final(self).wf(),
            final(self)@.program == old(self)@.program,
            final(self)@.memory == old(self)@.memory,
            final(self)@.hf == old(self)@.hf,
            final(self)@.rf == old(self)@.rf,
            match r {
                Ok(_) => {
                    let len = old(self)@.stack.len() as int;
                    let ad = old(self)@.stack[len - 1];
                    let x = old(self)@.stack[len - 2];
                    let y = old(self)@.stack[len - 3];
                    &&& len >= 3
                    &&& addr_ok(ad)
                    &&& final(self)@.stack == old(self)@.stack.take(len - 3)
                    &&& final(self)@.ip == if cond_holds(op, x, y) {
                        ad as int
                    } else {
                        old(self)@.ip + 1
                    }
                },
                Err(e) => {
                    let len = old(self)@.stack.len() as int;
                    &&& final(self)@ == old(self)@
                    &&& if len < 1 {
                        e == VMError::CorruptStack
                    } else if !addr_ok(old(self)@.stack[len - 1]) {
                        e == VMError::InvalidMemoryAddress
                    } else {
                        len < 3 && e == VMError::CorruptStack
                    }
                },
            },
    {
        let proglen = self.program.len();
        self.assert_stack_size(1)?;
        let ad = self.peek_addr(1)?;
        self.assert_stack_size(3)?;
        let x = self.stack[self.sp - 2];
        let y = self.stack[self.sp - 3];
        self.sp -= 3;
        let taken = if op == JE {
            x == y
        } else if op == JNE {
            x != y
        } else if op == JG {
            x > y
        } else if op == JGE {
            x >= y
        } else if op == JL {
            x < y
        } else {
            x <= y
        };
        if taken {
            self.ip = ad;
        } else {
            self.ip += 1;
        }
        proof {
            assert(self@.stack =~= old(self)@.stack.take(old(self)@.stack.len() - 3));
        }
        Ok(())
    }

    /// Dispatch one fetched instruction, advancing the instruction pointer;
    /// the returned value and the effect on machine, inputs and outputs are
    /// exactly those of [`step_spec`].
    fn execute(&mut self, inst: i32, inputs: &mut Vec<i32>, outputs: &mut Vec<OutputItem>) -> (r:
        Result<bool, VMError>)
        requires
            old(self).wf(),
            can_tick(old(self)@),
            inst == old(self)@.program[old(self)@.ip],
        ensures
            final(self).wf(),
            tick_post(
                old(self)@,
                old(inputs)@,
                old(outputs)@,
                final(self)@,
                final(inputs)@,
                final(outputs)@,
                r,
            ),
    {
        let proglen = self.program.len();
        proof {
            assert(self@.ip < proglen);
        }
        if inst >= 0 {
            self.push(inst)?;
            self.ip += 1;
            Ok(true)
        } else if inst == IN {
            if self.rf {
                return Err(VMError::Unsupported);
            }
            self.assert_stack_free_space(1)?;
            if inputs.len() == 0 {
                return Ok(false);
            }
            let v = inputs.remove(0);
            proof {
                assert(inputs@ =~= old(inputs)@.skip(1));
            }
            let p = self.push(v);
            if let Err(e) = p {
                return Err(e);
            }
            self.ip += 1;
            Ok(true)
        } else if inst == OUT {
            let v = self.pop()?;
            if !self.rf {
                outputs.push(OutputItem::Number(v));
            } else {
                proof {
                    assert(0 <= (v & 255i32) < 256) by (bit_vector);
                }
                let m = (v & 255) as u8;
                outputs.push(OutputItem::Byte(m));
            }
            self.ip += 1;
            proof {
                assert(old(self)@.stack.drop_last() =~= old(self)@.stack.take(
                    old(self)@.stack.len() - 1,
                ));
            }
            Ok(true)
        } else if inst == ADD || inst == SUB || inst == MUL || inst == DIV || inst == MOD || inst
            == AND || inst == OR || inst == XOR || inst == SHL || inst == SHR {
            self.binop(inst)?;
            self.ip += 1;
            Ok(true)
        } else if inst == NEG || inst == INC || inst == DEC || inst == NOT {
            self.unop(inst)?;
            self.ip += 1;
            Ok(true)
        } else if inst == POP {
            self.pop()?;
            self.ip += 1;
            proof {
                assert(old(self)@.stack.drop_last() =~= old(self)@.stack.take(
                    old(self)@.stack.len() - 1,
                ));
            }
            Ok(true)
        } else if inst == DUP {
            self.assert_stack_free_space(1)?;
            self.assert_stack_size(1)?;
            let v = self.stack[self.sp - 1];
            self.stack[self.sp] = v;
            self.sp += 1;
            self.ip += 1;
            proof {
                assert(self@.stack =~= old(self)@.stack.push(old(self)@.stack.last()));
            }
            Ok(true)
        } else if inst == SWP {
            self.assert_stack_size(2)?;
            let a = self.stack[self.sp - 1];
            let b = self.stack[self.sp - 2];
            self.stack[self.sp - 1] = b;
            self.stack[self.sp - 2] = a;
            self.ip += 1;
            proof {
                let len = old(self)@.stack.len() as int;
                assert(self@.stack =~= old(self)@.stack.update(len - 2, a).update(len - 1, b));
            }
            Ok(true)
        } else if inst == OVR {
            self.assert_stack_size(2)?;
            let v = self.stack[self.sp - 2];
            self.push(v)?;
            self.ip += 1;
            Ok(true)
        } else if inst == LOAD {
            self.assert_stack_size(1)?;
            let ad = self.peek_addr(1)?;
            let v = self.memory[ad];
            self.stack[self.sp - 1] = v;
            self.ip += 1;
            proof {
                assert(self@.stack =~= old(self)@.stack.update(
                    old(self)@.stack.len() - 1,
                    old(self)@.memory[old(self)@.stack.last() as int],
                ));
            }
            Ok(true)
        } else if inst == STOR {
            self.assert_stack_size(2)?;
            let ad = self.peek_addr(1)?;
            let v = self.stack[self.sp - 2];
            self.memory[ad] = v;
            self.sp -= 2;
            self.ip += 1;
            proof {
                assert(self@.stack =~= old(self)@.stack.take(old(self)@.stack.len() - 2));
            }
            Ok(true)
        } else if inst == JMP {
            self.assert_stack_size(1)?;
            let ad = self.peek_addr(1)?;
            self.sp -= 1;
            self.ip = ad;
            proof {
                assert(self@.stack =~= old(self)@.stack.take(old(self)@.stack.len() - 1));
            }
            Ok(true)
        } else if inst == JE || inst == JNE || inst == JG || inst == JGE || inst == JL || inst
            == JLE {
            self.cond_jump(inst)?;
            Ok(true)
        } else if inst == RF {
            self.rf = true;
            self.ip += 1;
            Ok(true)
        } else if inst == CRF {
            self.rf = false;
            self.ip += 1;
            Ok(true)
        } else if inst == NOP {
            self.ip += 1;
            Ok(true)
        } else if inst == HALT {
            self.hf = true;
            self.ip += 1;
            Ok(true)
        } else {
            Err(VMError::UnknownInstruction(inst))
        }
    }

    /// Fetch and execute one instruction.
    fn tick(&mut self, inputs: &mut Vec<i32>, outputs: &mut Vec<OutputItem>) -> (r: Result<
        bool,
        VMError,
    >)
        requires
            old(self).wf(),
            can_tick(old(self)@),
        ensures
            final(self).wf(),
            tick_post(
                old(self)@,
                old(inputs)@,
                old(outputs)@,
                final(self)@,
                final(inputs)@,
                final(outputs)@,
                r,
            ),
    {
        let inst = self.program[self.ip];
        self.execute(inst, inputs, outputs)
    }

    /// Run the loaded program until it halts, falls off the end, needs input
    /// that `inputs` cannot supply, fails, or has executed `budget`
    /// instructions.
    ///
    /// Numbers read by `IN` are taken from the front of `inputs`; everything
    /// written by `OUT` is appended to `outputs`. The final machine, the
    /// remaining inputs and the appended outputs are exactly the result of
    /// iterating [`step_spec`] some number of times from the initial state,
    /// and the returned status tells how that iteration stopped.
    pub fn run(&mut self, inputs: &mut Vec<i32>, outputs: &mut Vec<OutputItem>, budget: u64) -> (r:
        RunStatus)
        requires
            old(self).wf(),
        ensures
            final(self).wf(),
            final(self)@.program == old(self)@.program,
            exists|n: nat|
                {
                    &&& #[trigger] run_steps(old(self)@, old(inputs)@, n) matches Some(fin)
                    &&& fin.0 == final(self)@
                    &&& fin.1 == final(inputs)@
                    &&& final(outputs)@ == old(outputs)@ + fin.2
                    &&& match r {
                        RunStatus::Finished => final(self)@.hf
                            || final(self)@.ip >= final(self)@.program.len(),
                        RunStatus::AwaitingInput => {
                            &&& can_tick(final(self)@)
                            &&& final(inputs)@.len() == 0
                            &&& step_spec(final(self)@, None) is Await
                        },
                        RunStatus::Paused => n == budget,
                        RunStatus::Failed(e) => {
                            &&& can_tick(final(self)@)
                            &&& step_spec(final(self)@, head_input(final(inputs)@))
                                == StepOut::Fail(e)
                        },
                    }
                },
    {
        let ghost s0 = self@;
        let ghost ins0 = inputs@;
        let ghost outs0 = outputs@;
        let ghost l0 = outs0.len() as int;
        let mut steps: u64 = 0;
        loop
            invariant
                self.wf(),
                outputs@.len() >= l0,
                outputs@.take(l0) == outs0,
                steps <= budget,
                run_steps(s0, ins0, steps as nat) == Some((self@, inputs@, outputs@.skip(l0))),
                self@.program == s0.program,
                s0 == old(self)@,
                ins0 == old(inputs)@,
                outs0 == old(outputs)@,
                l0 == outs0.len() as int,
            decreases budget - steps,
        {
            if !(self.ip < self.program.len() && !self.hf) {
                proof {
                    assert(outputs@ =~= outs0 + outputs@.skip(l0));
                }
                return RunStatus::Finished;
            }
            if steps == budget {
                proof {
                    assert(outputs@ =~= outs0 + outputs@.skip(l0));
                }
                return RunStatus::Paused;
            }
            let ghost pre_s = self@;
            let ghost pre_ins = inputs@;
            let ghost pre_outs = outputs@;
            match self.tick(inputs, outputs) {
                Ok(true) => {
                    steps = steps + 1;
                    proof {
                        lemma_step_preserves_wf(pre_s, head_input(pre_ins));
                        let stepped = step_spec(pre_s, head_input(pre_ins));
                        assert(outputs@.skip(l0) =~= pre_outs.skip(l0) + out_seq(
                            stepped->Next_out,
                        ));
                        assert(outputs@.take(l0) =~= outs0);
                    }
                },
                Ok(false) => {
                    proof {
                        assert(outputs@ =~= outs0 + outputs@.skip(l0));
                    }
                    return RunStatus::AwaitingInput;
                },
                Err(e) => {
                    proof {
                        assert(outputs@ =~= outs0 + outputs@.skip(l0));
                    }
                    return RunStatus::Failed(e);
                },
            }
        }
    }

    /// Append a bytecode image to the program: each four bytes are one
    /// little-endian word. A length that is not a multiple of four is not a
    /// valid image and is rejected whole.
    pub fn load(&mut self, bytes: &Vec<u8>) -> (r: Result<(), VMError>)
        requires
            old(self).wf(),
        ensures
            final(self).wf(),
            if bytes@.len() % 4 == 0 {
                &&& r is Ok
                &&& final(self)@.program == old(self)@.program + words_of_bytes(bytes@)
                &&& final(self)@.stack == old(self)@.stack
                &&& final(self)@.memory == old(self)@.memory
                &&& final(self)@.ip == old(self)@.ip
                &&& final(self)@.hf == old(self)@.hf
                &&& final(self)@.rf == old(self)@.rf
            } else {
                r == Result::<(), VMError>::Err(VMError::IOError) && final(self)@ == old(self)@
            },
    {
        if bytes.len() % 4 != 0 {
            return Err(VMError::IOError);
        }
        let nwords = bytes.len() / 4;
        proof {
            vstd::arithmetic::div_mod::lemma_fundamental_div_mod(bytes@.len() as int, 4);
        }
        let mut k: usize = 0;
        while k < nwords
            invariant
                self.wf(),
                k <= nwords,
                4 * nwords == bytes@.len(),
                bytes@.len() <= usize::MAX,
                self@.program == old(self)@.program + words_of_bytes(bytes@.take(4 * k)),
                self@.stack == old(self)@.stack,
                self@.memory == old(self)@.memory,
                self@.ip == old(self)@.ip,
                self@.hf == old(self)@.hf,
                self@.rf == old(self)@.rf,
            decreases nwords - k,
        {
            let i = 4 * k;
            let b0 = bytes[i];
            let b1 = bytes[i + 1];
            let b2 = bytes[i + 2];
            let b3 = bytes[i + 3];
            let u: u32 = b0 as u32 + 256 * (b1 as u32) + 65536 * (b2 as u32) + 16777216 * (b3
                as u32);
            let w: i32 = if u >= 0x8000_0000u32 {
                (u - 0x8000_0000u32) as i32 + i32::MIN
            } else {
                u as i32
            };
            self.program.push(w);
            proof {
                assert(bytes@.take(i + 4).take(i as int) =~= bytes@.take(i as int));
                assert(self@.program =~= old(self)@.program + words_of_bytes(bytes@.take(i + 4)));
            }
            k += 1;
        }
        proof {
            assert(bytes@.take(bytes@.len() as int) =~= bytes@);
        }
        Ok(())
    }
}

} // verus!
