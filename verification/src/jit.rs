//! The x86_64 code emitter: instructions in, machine code and a data section out.
use vstd::prelude::*;
use vstd::utf8::encode_utf8;
use crate::mapper::{lemma_x86_reg_range, x86_reg, TrayMapper};
use crate::parser::{
    line_meaning, ConditionOp, InstrModel, Instruction, Operand, OperandModel, Parser, StoreroomOffset,
};
use crate::target::{CpuArch, TargetContext};
use crate::text::{chars_of, eq_str, string_from_chars};

verus! {

// ---------------------------------------------------------------------------
// Encodings
// ---------------------------------------------------------------------------

/// The `n` lowest bytes of `v`, least significant first.
pub open spec fn le_bytes(v: int, n: nat) -> Seq<u8>
    decreases n,
{
    if n == 0 {
        seq![]
    } else {
        seq![(v % 256) as u8] + le_bytes(v / 256, (n - 1) as nat)
    }
}

/// The 64-bit two's complement pattern of `v`.
pub open spec fn imm64(v: i64) -> int {
    if v >= 0 {
        v as int
    } else {
        v + 0x1_0000_0000_0000_0000
    }
}

/// The 32-bit displacement from `from` to `to`, as an unsigned pattern.
pub open spec fn rel32(to: int, from: int) -> int {
    (to - from) % 0x1_0000_0000
}

pub open spec fn hi(r: u8) -> int {
    if r >= 8 {
        1
    } else {
        0
    }
}

/// REX.W prefix with the B bit of `rm`.
pub open spec fn rex_b(rm: u8) -> u8 {
    (0x48 + hi(rm)) as u8
}

/// REX.W prefix with the R bit of `reg`.
pub open spec fn rex_r(reg: u8) -> u8 {
    (0x48 + 4 * hi(reg)) as u8
}

/// REX.W prefix with the R bit of `reg` and the B bit of `rm`.
pub open spec fn rex_rb(reg: u8, rm: u8) -> u8 {
    (0x48 + 4 * hi(reg) + hi(rm)) as u8
}

/// A register-direct ModRM byte.
pub open spec fn modrm(reg: int, rm: u8) -> u8 {
    (0xc0 + (reg % 8) * 8 + rm % 8) as u8
}

/// `mov r64, imm64`.
#[verifier::opaque]
pub open spec fn mov_imm64(r: u8, v: int) -> Seq<u8> {
    seq![rex_b(r), (0xb8 + r % 8) as u8] + le_bytes(v, 8)
}

/// `mov dst, src`.
#[verifier::opaque]
pub open spec fn mov_rr(dst: u8, src: u8) -> Seq<u8> {
    seq![rex_rb(src, dst), 0x89u8, modrm(src as int, dst)]
}

/// The register-immediate ALU operations the emitter uses.
pub enum AluOp {
    Add,
    Sub,
    Compare,
}

/// The ModRM extension of an ALU operation with an immediate (`0x81 /ext`).
pub open spec fn alu_ext(op: AluOp) -> int {
    match op {
        AluOp::Add => 0,
        AluOp::Sub => 5,
        AluOp::Compare => 7,
    }
}

/// `add dst, src` / `sub dst, src` / `cmp dst, src`.
#[verifier::opaque]
pub open spec fn alu_rr(op: AluOp, dst: u8, src: u8) -> Seq<u8> {
    let opcode: u8 = match op {
        AluOp::Add => 0x01,
        AluOp::Sub => 0x29,
        AluOp::Compare => 0x39,
    };
    seq![rex_rb(src, dst), opcode, modrm(src as int, dst)]
}

/// The register that stages a 64-bit immediate for an operation on `r`: R11, or
/// R10 when `r` is R11. It is saved before and restored after, so no tray but
/// the target changes.
pub open spec fn scratch(r: u8) -> u8 {
    if r == 11 {
        10
    } else {
        11
    }
}

/// `push x; mov x, v; <code>; pop x` with `x` the scratch register of `r`.
pub open spec fn staged(r: u8, v: int, body: Seq<u8>) -> Seq<u8> {
    push_op(scratch(r)) + mov_imm64(scratch(r), v) + body + pop_op(scratch(r))
}

/// An ALU operation with an immediate: a 32-bit immediate when `v` fits in
/// `i32`, else `v` staged in the scratch register (saved and restored; `pop`
/// leaves the flags of a comparison alone).
#[verifier::opaque]
pub open spec fn alu_imm(op: AluOp, r: u8, v: int) -> Seq<u8> {
    if v <= 0x7fff_ffff {
        seq![rex_b(r), 0x81u8, modrm(alu_ext(op), r)] + le_bytes(v, 4)
    } else {
        staged(r, v, alu_rr(op, r, scratch(r)))
    }
}

/// `imul dst, src`.
#[verifier::opaque]
pub open spec fn imul_rr(dst: u8, src: u8) -> Seq<u8> {
    seq![rex_rb(dst, src), 0x0fu8, 0xafu8, modrm(dst as int, src)]
}

/// Writes RAX (`src` 0) or RDX (`src` 2) into tray register `d` once the division
/// frame (the divisor, then the saved RAX, then the saved RDX) has dropped its
/// divisor: into the saved copy when `d` is RAX or RDX, so that the restoring
/// `pop`s deliver it; directly otherwise.
pub open spec fn quotient_store(d: u8, src: u8) -> Seq<u8> {
    if d == 0 {
        seq![0x48u8, 0x89, (0x04 + src * 8) as u8, 0x24]
    } else if d == 2 {
        seq![0x48u8, 0x89, (0x44 + src * 8) as u8, 0x24, 0x08]
    } else {
        mov_rr(d, src)
    }
}

/// With RDX and RAX saved and the divisor on top of the stack:
/// `mov rax, d; cqo; idiv qword [rsp]; add rsp, 8`, the quotient (or, when
/// `rem`, the remainder) into `d`, then `pop rax; pop rdx`. The division is
/// signed and truncates toward zero; only `d` changes.
#[verifier::opaque]
pub open spec fn div_tail(d: u8, rem: bool) -> Seq<u8> {
    mov_rr(0, d) + seq![0x48u8, 0x99, 0x48, 0xf7, 0x3c, 0x24, 0x48, 0x83, 0xc4, 0x08]
        + quotient_store(d, if rem { 2u8 } else { 0u8 }) + seq![0x58u8, 0x5a]
}

/// `d = d / v` (or `d % v` when `rem`) for a tray, number or character divisor:
/// RDX and RAX are saved, the divisor is pushed (a literal through RAX, which is
/// then reloaded), and [`div_tail`] divides. Nothing for a string.
#[verifier::opaque]
pub open spec fn division_bytes(d: u8, v: OperandModel, rem: bool) -> Seq<u8> {
    match v {
        OperandModel::Tray(t) => seq![0x52u8, 0x50] + push_op(x86_reg(t)) + div_tail(d, rem),
        OperandModel::StringLit(_) => seq![],
        _ => seq![0x52u8, 0x50] + mov_imm64(0, operand_imm(v)) + seq![
            0x50u8,
            0x48,
            0x8b,
            0x44,
            0x24,
            0x08,
        ] + div_tail(d, rem),
    }
}

/// `push rax; push rcx; push rdx; push rsi; push rdi; push r11`.
pub open spec fn preserve_bytes() -> Seq<u8> {
    seq![0x50u8, 0x51, 0x52, 0x56, 0x57, 0x41, 0x53]
}

/// `pop r11; pop rdi; pop rsi; pop rdx; pop rcx; pop rax`.
pub open spec fn restore_bytes() -> Seq<u8> {
    seq![0x41u8, 0x5b, 0x5f, 0x5e, 0x5a, 0x59, 0x58]
}

/// Eight zero bytes: room for an absolute address.
pub open spec fn zeros8() -> Seq<u8> {
    seq![0u8, 0, 0, 0, 0, 0, 0, 0]
}

/// `push rbp; mov rbp, rsp; sub rsp, 4096; jmp rel32` (the storeroom frame and
/// the jump to `main`, whose displacement is filled in when linking).
pub open spec fn prologue_bytes() -> Seq<u8> {
    seq![
        0x53u8, 0x41, 0x54, 0x41, 0x55, 0x41, 0x56, 0x41, 0x57, 0x55, 0x48, 0x89, 0xe5, 0x48, 0x81,
        0xec, 0x00, 0x10, 0x00, 0x00, 0xe9, 0, 0, 0, 0,
    ]
}

/// `mov rsp, rbp; pop rbp; pop r15; pop r14; pop r13; pop r12; pop rbx; ret`: the
/// caller's stack and callee-saved registers back, from wherever the program
/// left the stack.
pub open spec fn epilogue_bytes() -> Seq<u8> {
    seq![0x48u8, 0x89, 0xec, 0x5d, 0x41, 0x5f, 0x41, 0x5e, 0x41, 0x5d, 0x41, 0x5c, 0x5b, 0xc3]
}

/// Printing the signed decimal value of RAX and a newline (`write` to standard
/// output), through a 32-byte buffer on the stack; uses RCX, RDX, RSI, RDI, R8
/// and R11, which the caller saves.
#[verifier::opaque]
pub open spec fn number_text_bytes() -> Seq<u8> {
    seq![
        0x48u8, 0x83, 0xec, 0x20, 0x48, 0x8d, 0x74, 0x24, 0x20, 0x48, 0xff, 0xce, 0xc6, 0x06, 0x0a,
        0x49, 0x89, 0xc0, 0x48, 0x85, 0xc0, 0x79, 0x03, 0x48, 0xf7, 0xd8, 0xb9, 0x0a, 0x00, 0x00,
        0x00, 0x31, 0xd2, 0x48, 0xf7, 0xf1, 0x80, 0xc2, 0x30, 0x48, 0xff, 0xce, 0x88, 0x16, 0x48,
        0x85, 0xc0, 0x75, 0xee, 0x4d, 0x85, 0xc0, 0x79, 0x06, 0x48, 0xff, 0xce, 0xc6, 0x06, 0x2d,
        0x48, 0x8d, 0x54, 0x24, 0x20, 0x48, 0x29, 0xf2, 0xb8, 0x01, 0x00, 0x00, 0x00, 0xbf, 0x01,
        0x00, 0x00, 0x00, 0x0f, 0x05, 0x48, 0x83, 0xc4, 0x20,
    ]
}

/// Printing the number in register `r`: the registers a supervisor call may
/// clobber and R8 are saved around [`number_text_bytes`].
#[verifier::opaque]
pub open spec fn say_number_bytes(r: u8) -> Seq<u8> {
    preserve_bytes() + seq![0x41u8, 0x50] + mov_rr(0, r) + number_text_bytes() + seq![0x41u8, 0x58]
        + restore_bytes()
}

/// Saving the registers an input routine uses: those of a supervisor call, then
/// R8 and R9.
#[verifier::opaque]
pub open spec fn input_open() -> Seq<u8> {
    preserve_bytes() + seq![0x41u8, 0x50, 0x41, 0x51]
}

/// Where the saved copy of register `r` lies above the stack pointer once
/// [`input_open`] has run, if `r` is one of the saved registers.
pub open spec fn saved_slot(r: u8) -> Option<u8> {
    if r == 0 {
        Some(56u8)
    } else if r == 1 {
        Some(48u8)
    } else if r == 2 {
        Some(40u8)
    } else if r == 6 {
        Some(32u8)
    } else if r == 7 {
        Some(24u8)
    } else if r == 11 {
        Some(16u8)
    } else if r == 8 {
        Some(8u8)
    } else if r == 9 {
        Some(0u8)
    } else {
        None
    }
}

/// The result in R8 handed to register `r` (through its saved copy when it is a
/// saved register), then the saved registers restored: only `r` changes.
#[verifier::opaque]
pub open spec fn input_close(r: u8) -> Seq<u8> {
    (match saved_slot(r) {
        Some(off) => seq![0x4cu8, 0x89, 0x44, 0x24, off],
        None => mov_rr(r, 8),
    }) + seq![0x41u8, 0x59, 0x41, 0x58] + restore_bytes()
}

/// Reading a line from standard input one byte at a time into R8 as a signed
/// decimal number: digits accumulate, a `-` makes it negative, other bytes are
/// skipped, and a newline or the end of input stops it.
#[verifier::opaque]
pub open spec fn read_number_bytes() -> Seq<u8> {
    seq![
        0x48u8, 0x83, 0xec, 0x10, 0x4d, 0x31, 0xc0, 0x4d, 0x31, 0xc9, 0x31, 0xc0, 0x31, 0xff, 0x48,
        0x89, 0xe6, 0xba, 0x01, 0x00, 0x00, 0x00, 0x0f, 0x05, 0x48, 0x83, 0xf8, 0x01, 0x75, 0x28,
        0x0f, 0xb6, 0x0c, 0x24, 0x80, 0xf9, 0x0a, 0x74, 0x1f, 0x80, 0xf9, 0x2d, 0x75, 0x09, 0x49,
        0xc7, 0xc1, 0x01, 0x00, 0x00, 0x00, 0xeb, 0xd5, 0x83, 0xe9, 0x30, 0x83, 0xf9, 0x09, 0x77,
        0xcd, 0x4d, 0x6b, 0xc0, 0x0a, 0x49, 0x01, 0xc8, 0xeb, 0xc4, 0x4d, 0x85, 0xc9, 0x74, 0x03,
        0x49, 0xf7, 0xd8, 0x48, 0x83, 0xc4, 0x10,
    ]
}

/// Reading one character (its byte) from standard input into R8, 0 at the end of
/// input, and skipping the rest of its line.
#[verifier::opaque]
pub open spec fn read_char_bytes() -> Seq<u8> {
    seq![
        0x48u8, 0x83, 0xec, 0x10, 0x4d, 0x31, 0xc0, 0x31, 0xc0, 0x31, 0xff, 0x48, 0x89, 0xe6, 0xba,
        0x01, 0x00, 0x00, 0x00, 0x0f, 0x05, 0x48, 0x83, 0xf8, 0x01, 0x75, 0x25, 0x44, 0x0f, 0xb6,
        0x04, 0x24, 0x41, 0x80, 0xf8, 0x0a, 0x74, 0x1a, 0x31, 0xc0, 0x31, 0xff, 0x48, 0x89, 0xe6,
        0xba, 0x01, 0x00, 0x00, 0x00, 0x0f, 0x05, 0x48, 0x83, 0xf8, 0x01, 0x75, 0x06, 0x80, 0x3c,
        0x24, 0x0a, 0x75, 0xe6, 0x48, 0x83, 0xc4, 0x10,
    ]
}

/// With the buffer's address in R8: reading a line from standard input into
/// the buffer, at most 255 bytes, one at a time, and ending it with a zero byte
/// in place of the newline.
#[verifier::opaque]
pub open spec fn read_line_bytes() -> Seq<u8> {
    seq![
        0x45u8, 0x31, 0xc9, 0x31, 0xc0, 0x31, 0xff, 0x4c, 0x89, 0xc6, 0x4c, 0x01, 0xce, 0xba, 0x01,
        0x00, 0x00, 0x00, 0x0f, 0x05, 0x48, 0x83, 0xf8, 0x01, 0x75, 0x11, 0x80, 0x3e, 0x0a, 0x74,
        0x0c, 0x49, 0xff, 0xc1, 0x49, 0x81, 0xf9, 0xff, 0x00, 0x00, 0x00, 0x72, 0xd8, 0x43, 0xc6,
        0x04, 0x08, 0x00,
    ]
}

/// With the bound in RCX: a hardware random number (`rdrand`, retried until it
/// succeeds) reduced to `1..=RCX` into R8; a bound of 0 counts as 1.
#[verifier::opaque]
pub open spec fn random_draw_bytes() -> Seq<u8> {
    seq![
        0x48u8, 0x85, 0xc9, 0x75, 0x05, 0xb9, 0x01, 0x00, 0x00, 0x00, 0x48, 0x0f, 0xc7, 0xf0, 0x73,
        0xfa, 0x31, 0xd2, 0x48, 0xf7, 0xf1, 0x4c, 0x8d, 0x42, 0x01,
    ]
}

/// A random number from 1 to `max` (a tray, number or character) into register
/// `r`; nothing for a string bound.
#[verifier::opaque]
pub open spec fn random_bytes(r: u8, max: OperandModel) -> Seq<u8> {
    match max {
        OperandModel::Tray(t) => input_open() + mov_rr(1, x86_reg(t)) + random_draw_bytes() + input_close(r),
        OperandModel::StringLit(_) => seq![],
        _ => input_open() + mov_imm64(1, operand_imm(max)) + random_draw_bytes() + input_close(r),
    }
}

/// The string-length scan and `write` of the string a tray points to.
pub open spec fn say_scan_bytes() -> Seq<u8> {
    seq![
        0x48u8, 0x89, 0xf7, 0x30, 0xc0, 0x48, 0xc7, 0xc1, 0x00, 0x04, 0x00, 0x00, 0xf2, 0xae,
        0x48, 0x29, 0xf7, 0x48, 0xff, 0xcf, 0x48, 0x89, 0xfa, 0x48, 0xc7, 0xc0, 0x01, 0x00, 0x00,
        0x00, 0x48, 0xc7, 0xc7, 0x01, 0x00, 0x00, 0x00, 0x0f, 0x05,
    ]
}

/// `mov rax, 1; mov rdi, 1; mov rsi, imm64` (the address follows).
pub open spec fn newline_head() -> Seq<u8> {
    seq![0x48u8, 0xc7, 0xc0, 0x01, 0x00, 0x00, 0x00, 0x48, 0xc7, 0xc7, 0x01, 0x00, 0x00, 0x00, 0x48, 0xbe]
}

/// `mov rdx, 1; syscall`.
pub open spec fn newline_tail() -> Seq<u8> {
    seq![0x48u8, 0xc7, 0xc2, 0x01, 0x00, 0x00, 0x00, 0x0f, 0x05]
}

/// The immediate an operand stands for, if it is a literal number or character.
pub open spec fn operand_imm(v: OperandModel) -> int {
    match v {
        OperandModel::Number(n) => imm64(n),
        OperandModel::Char(c) => (c as u32) as int,
        _ => 0,
    }
}

/// `cmp a, v` for a tray, number or character operand; nothing for a string.
#[verifier::opaque]
pub open spec fn compare_bytes(a: u8, v: OperandModel) -> Seq<u8> {
    match v {
        OperandModel::Tray(t) => alu_rr(AluOp::Compare, a, x86_reg(t)),
        OperandModel::StringLit(_) => seq![],
        _ => alu_imm(AluOp::Compare, a, operand_imm(v)),
    }
}

/// `add`/`sub` of an operand into a register; nothing for a string.
#[verifier::opaque]
pub open spec fn arith_bytes(op: AluOp, d: u8, v: OperandModel) -> Seq<u8> {
    match v {
        OperandModel::Tray(t) => alu_rr(op, d, x86_reg(t)),
        OperandModel::StringLit(_) => seq![],
        _ => alu_imm(op, d, operand_imm(v)),
    }
}

/// `imul` of a register by an operand; nothing for a string.
#[verifier::opaque]
pub open spec fn multiply_bytes(d: u8, v: OperandModel) -> Seq<u8> {
    match v {
        OperandModel::Tray(t) => imul_rr(d, x86_reg(t)),
        OperandModel::StringLit(_) => seq![],
        _ => staged(d, operand_imm(v), imul_rr(d, scratch(d))),
    }
}


/// The storeroom slot `n` lies at `rbp - 8 * (n + 1)`: the displacement pattern.
pub open spec fn neg_disp(n: usize) -> int {
    (0 - (n + 1) * 8) % 0x1_0000_0000
}

/// `mov [rbp - disp], r` (opcode 0x89) or `mov r, [rbp - disp]` (opcode 0x8b) for a
/// fixed slot. For a slot named by tray `k`: the scratch register of `r` is saved,
/// set to minus the value of `k`, used as the index of
/// `[rbp + 8 * index - 8]`, and restored.
#[verifier::opaque]
pub open spec fn storeroom_bytes(opcode: u8, r: u8, off: StoreroomOffset) -> Seq<u8> {
    match off {
        StoreroomOffset::Fixed(n) => seq![rex_r(r), opcode, (0x85 + (r % 8) * 8) as u8] + le_bytes(
            neg_disp(n),
            4,
        ),
        StoreroomOffset::Dynamic(k) => push_op(scratch(r)) + mov_rr(scratch(r), x86_reg(k)) + seq![
            rex_b(scratch(r)),
            0xf7u8,
            (0xd8 + scratch(r) % 8) as u8,
            (0x48 + 4 * hi(r) + 2 * hi(scratch(r))) as u8,
            opcode,
            (0x44 + (r % 8) * 8) as u8,
            (0xc0 + (scratch(r) % 8) * 8 + 5) as u8,
            0xf8,
        ] + pop_op(scratch(r)),
    }
}

/// Whether a fixed slot's displacement can be computed without overflow: `8 * (n + 1)`
/// fits in `usize` and its low 32 bits are not `i32::MIN`, which cannot be negated.
pub open spec fn storeroom_ok(off: StoreroomOffset) -> bool {
    match off {
        StoreroomOffset::Fixed(n) => (n + 1) * 8 <= usize::MAX && ((n + 1) * 8) % 0x1_0000_0000
            != 0x8000_0000,
        StoreroomOffset::Dynamic(_) => true,
    }
}

/// The second opcode byte of the jump that skips the body of an inline `if`: the
/// negation of its condition.
pub open spec fn skip_opcode(op: ConditionOp) -> u8 {
    match op {
        ConditionOp::Equal => 0x85,
        ConditionOp::NotEqual => 0x84,
        ConditionOp::Greater => 0x8e,
        ConditionOp::Less => 0x8d,
        ConditionOp::GreaterEqual => 0x8c,
        ConditionOp::LessEqual => 0x8f,
    }
}

// ---------------------------------------------------------------------------
// The emitter's state
// ---------------------------------------------------------------------------

/// What the emitter holds: the code and data emitted so far, where each
/// workstation starts, and the places still to be filled in when linking.
pub struct JitState {
    pub arch: CpuArch,
    pub code: Seq<u8>,
    pub data: Seq<u8>,
    /// Code offset of each workstation.
    pub offsets: Map<Seq<char>, usize>,
    /// `call rel32` displacements to fill in: (offset of the displacement, workstation).
    pub calls: Seq<(usize, Seq<char>)>,
    /// `jmp`/`jcc rel32` displacements to fill in: (offset of the displacement, workstation).
    pub jumps: Seq<(usize, Seq<char>)>,
    /// `mov r, imm64` addresses to fill in: (offset of the immediate, offset in the data).
    pub strings: Seq<(usize, usize)>,
    /// The offset of the displacement of the jump to `main`.
    pub entry: Option<usize>,
    /// The workstation being compiled.
    pub current: Option<Seq<char>>,
}

/// The label of the shared exit code.
pub open spec fn exit_name() -> Seq<char> {
    "__fal_exit"@
}

/// The label of the entry workstation.
pub open spec fn main_name() -> Seq<char> {
    "main"@
}

/// `s` with `b` appended to its code.
pub open spec fn emit(s: JitState, b: Seq<u8>) -> JitState {
    JitState { code: s.code + b, ..s }
}

/// `s` with a jump (opcode bytes `opcode`) to `target` appended, its displacement left open.
#[verifier::opaque]
pub open spec fn pending_jump(s: JitState, opcode: Seq<u8>, target: Seq<char>) -> JitState {
    JitState {
        code: s.code + opcode + seq![0u8, 0, 0, 0],
        jumps: s.jumps.push(((s.code.len() + opcode.len()) as usize, target)),
        ..s
    }
}

/// `s` with a call of `target` appended, its displacement left open.
#[verifier::opaque]
pub open spec fn pending_call(s: JitState, target: Seq<char>) -> JitState {
    JitState {
        code: s.code + seq![0xe8u8, 0, 0, 0, 0],
        calls: s.calls.push(((s.code.len() + 1) as usize, target)),
        ..s
    }
}

/// Leaving a workstation: `main` jumps to the exit code, any other returns.
#[verifier::opaque]
pub open spec fn leave_workstation(s: JitState) -> JitState {
    if s.current == Some(main_name()) {
        pending_jump(s, seq![0xe9u8], exit_name())
    } else {
        emit(s, seq![0xc3u8])
    }
}

/// Loading the address of a new zero-terminated string `text` into register `r`.
#[verifier::opaque]
pub open spec fn load_string(s: JitState, r: u8, text: Seq<char>) -> JitState {
    JitState {
        code: s.code + seq![rex_b(r), (0xb8 + r % 8) as u8] + zeros8(),
        data: s.data + encode_utf8(text) + seq![0u8],
        strings: s.strings.push(((s.code.len() + 2) as usize, s.data.len() as usize)),
        ..s
    }
}

/// 256 zero bytes: an input line buffer.
pub open spec fn line_buffer() -> Seq<u8> {
    Seq::new(256, |i: int| 0u8)
}

/// Reading a line into a new buffer in the data and loading the buffer's address
/// into register `r`.
#[verifier::opaque]
pub open spec fn ask_string(s: JitState, r: u8) -> JitState {
    JitState {
        code: s.code + input_open() + seq![0x49u8, 0xb8] + zeros8() + read_line_bytes() + input_close(r),
        data: s.data + line_buffer(),
        strings: s.strings.push(((s.code.len() + 13) as usize, s.data.len() as usize)),
        ..s
    }
}

/// Writing `text` and a newline to standard output, registers preserved.
#[verifier::opaque]
pub open spec fn say_literal(s: JitState, text: Seq<char>) -> JitState {
    let bytes = encode_utf8(text) + seq![10u8];
    let head = preserve_bytes() + mov_imm64(0, 1) + mov_imm64(7, 1) + seq![0x48u8, 0xbe];
    JitState {
        code: s.code + head + zeros8() + mov_imm64(2, bytes.len() as int) + seq![0x0fu8, 0x05]
            + restore_bytes(),
        data: s.data + bytes,
        strings: s.strings.push(((s.code.len() + head.len()) as usize, s.data.len() as usize)),
        ..s
    }
}

/// Writing the string register `r` points to, then a newline, registers preserved.
#[verifier::opaque]
pub open spec fn say_tray(s: JitState, r: u8) -> JitState {
    let head = preserve_bytes() + mov_rr(6, r) + say_scan_bytes() + newline_head();
    JitState {
        code: s.code + head + zeros8() + newline_tail() + restore_bytes(),
        data: s.data.push(10u8),
        strings: s.strings.push(((s.code.len() + head.len()) as usize, s.data.len() as usize)),
        ..s
    }
}

/// `code` with `b` written over the bytes at `off`.
pub open spec fn write_at(code: Seq<u8>, off: int, b: Seq<u8>) -> Seq<u8> {
    code.subrange(0, off) + b + code.subrange(off + b.len(), code.len() as int)
}

/// Whether an instruction can be compiled without an arithmetic overflow.
pub open spec fn compiles(inst: InstrModel) -> bool
    decreases inst,
{
    match inst {
        InstrModel::Store { offset, .. } => storeroom_ok(offset),
        InstrModel::Load { offset, .. } => storeroom_ok(offset),
        InstrModel::InlineIf { then_inst, .. } => compiles(*then_inst),
        _ => true,
    }
}

/// The emitter's state after compiling `inst`.
pub open spec fn compile_step(s: JitState, inst: InstrModel) -> JitState
    decreases inst,
{
    match inst {
        InstrModel::Workstation { name } => {
            let s1 = if s.current is Some {
                leave_workstation(s)
            } else {
                s
            };
            JitState {
                current: Some(name),
                offsets: s1.offsets.insert(name, s1.code.len() as usize),
                ..s1
            }
        },
        InstrModel::EndWorkstation => JitState { current: None, ..leave_workstation(s) },
        InstrModel::Fill { val, tray } => emit(s, mov_imm64(x86_reg(tray), imm64(val))),
        InstrModel::AssignChar { ch, tray } => emit(s, mov_imm64(x86_reg(tray), (ch as u32) as int)),
        InstrModel::AssignString { text, tray } => load_string(s, x86_reg(tray), text),
        InstrModel::Move { src_tray, dst_tray } => emit(
            s,
            mov_rr(x86_reg(dst_tray), x86_reg(src_tray)),
        ),
        InstrModel::Clear { tray } => emit(s, mov_imm64(x86_reg(tray), 0)),
        InstrModel::Add { src, dst_tray } => emit(s, arith_bytes(AluOp::Add, x86_reg(dst_tray), src)),
        InstrModel::Sub { src, dst_tray } => emit(s, arith_bytes(AluOp::Sub, x86_reg(dst_tray), src)),
        InstrModel::Multiply { src, dst_tray } => emit(s, multiply_bytes(x86_reg(dst_tray), src)),
        InstrModel::Divide { src, dst_tray } => emit(s, division_bytes(x86_reg(dst_tray), src, false)),
        InstrModel::Modulo { src, dst_tray } => emit(s, division_bytes(x86_reg(dst_tray), src, true)),
        InstrModel::Compare { tray_a, val_b } => emit(s, compare_bytes(x86_reg(tray_a), val_b)),
        InstrModel::Jump { target } => pending_jump(s, seq![0xe9u8], target),
        InstrModel::JumpIfEqual { target } => pending_jump(s, seq![0x0fu8, 0x84], target),
        InstrModel::JumpIfNotEqual { target } => pending_jump(s, seq![0x0fu8, 0x85], target),
        InstrModel::JumpIfGreater { target } => pending_jump(s, seq![0x0fu8, 0x8f], target),
        InstrModel::JumpIfLess { target } => pending_jump(s, seq![0x0fu8, 0x8c], target),
        InstrModel::InlineIf { tray, op, target_val, then_inst } => {
            let s1 = emit(s, compare_bytes(x86_reg(tray), target_val));
            let skip = s1.code.len() as int + 2;
            let s2 = emit(s1, seq![0x0fu8, skip_opcode(op), 0, 0, 0, 0]);
            let s3 = compile_step(s2, *then_inst);
            JitState {
                code: write_at(s3.code, skip, le_bytes(rel32(s3.code.len() as int, skip + 4), 4)),
                ..s3
            }
        },
        InstrModel::Store { tray, offset } => emit(
            s,
            storeroom_bytes(0x89, x86_reg(tray), offset),
        ),
        InstrModel::Load { offset, tray } => emit(s, storeroom_bytes(0x8b, x86_reg(tray), offset)),
        InstrModel::SayLiteral { text } => say_literal(s, text),
        InstrModel::SayTray { tray } => say_tray(s, x86_reg(tray)),
        InstrModel::SayNumber { tray } => emit(s, say_number_bytes(x86_reg(tray))),
        InstrModel::AskNumber { tray } => emit(
            s,
            input_open() + read_number_bytes() + input_close(x86_reg(tray)),
        ),
        InstrModel::AskChar { tray } => emit(
            s,
            input_open() + read_char_bytes() + input_close(x86_reg(tray)),
        ),
        InstrModel::AskString { tray } => ask_string(s, x86_reg(tray)),
        InstrModel::Random { max, tray } => emit(s, random_bytes(x86_reg(tray), max)),
        InstrModel::Call { workstation } => pending_call(s, workstation),
        InstrModel::Return { tray } => {
            let s1 = match tray {
                Some(t) => if x86_reg(t) != 0 {
                    emit(s, mov_rr(0, x86_reg(t)))
                } else {
                    s
                },
                None => s,
            };
            emit(s1, seq![0xc3u8])
        },
        InstrModel::CallSupervisor { action, tray } => if action == "exit"@ {
            pending_jump(s, seq![0xe9u8], exit_name())
        } else if action == "print"@ && tray is Some {
            say_tray(s, x86_reg(tray->0))
        } else {
            s
        },
    }
}

/// The state of a fresh emitter for `arch`: on x86_64 the prologue, with the jump
/// to `main` still open.
pub open spec fn initial_state(arch: CpuArch) -> JitState {
    JitState {
        arch,
        code: if arch == CpuArch::X86_64 {
            prologue_bytes()
        } else {
            seq![]
        },
        data: seq![],
        offsets: Map::empty(),
        calls: seq![],
        jumps: seq![],
        strings: seq![],
        entry: if arch == CpuArch::X86_64 {
            Some(21)
        } else {
            None
        },
        current: None,
    }
}

/// Every place still to be filled in lies inside the code (and every string inside
/// the data), so that linking can write there.
pub open spec fn slots_in_range(s: JitState) -> bool {
    &&& forall|i: int| 0 <= i < s.calls.len() ==> #[trigger] s.calls[i].0 + 4 <= s.code.len()
    &&& forall|i: int| 0 <= i < s.jumps.len() ==> #[trigger] s.jumps[i].0 + 4 <= s.code.len()
    &&& forall|i: int|
        0 <= i < s.strings.len() ==> #[trigger] s.strings[i].0 + 8 <= s.code.len()
            && s.strings[i].1 < s.data.len()
    &&& s.entry matches Some(e) ==> e + 4 <= s.code.len()
}

/// `code` with the displacement of the jump or call at `p` filled in, when its
/// workstation is known; unchanged otherwise.
pub open spec fn patch_one(code: Seq<u8>, p: (usize, Seq<char>), offs: Map<Seq<char>, usize>) -> Seq<
    u8,
> {
    if offs.contains_key(p.1) {
        write_at(code, p.0 as int, le_bytes(rel32(offs[p.1] as int, p.0 + 4), 4))
    } else {
        code
    }
}

/// `code` with the displacements of `ps` filled in, in order.
pub open spec fn patch_all(code: Seq<u8>, ps: Seq<(usize, Seq<char>)>, offs: Map<Seq<char>, usize>) -> Seq<
    u8,
>
    decreases ps.len(),
{
    if ps.len() == 0 {
        code
    } else {
        patch_all(patch_one(code, ps[0], offs), ps.drop_first(), offs)
    }
}

/// `code` with the absolute address `base + data offset` of each string of `ls` filled in.
pub open spec fn patch_strings(code: Seq<u8>, ls: Seq<(usize, usize)>, base: int) -> Seq<u8>
    decreases ls.len(),
{
    if ls.len() == 0 {
        code
    } else {
        patch_strings(
            write_at(code, ls[0].0 as int, le_bytes(base + ls[0].1, 8)),
            ls.drop_first(),
            base,
        )
    }
}

/// Where the entry jump at `e` goes: to `main`, or else to the next instruction.
pub open spec fn entry_target(s: JitState, e: int) -> int {
    if s.offsets.contains_key(main_name()) {
        s.offsets[main_name()] as int
    } else {
        e + 4
    }
}

/// `s`'s code with the entry jump fixed.
pub open spec fn with_entry(s: JitState) -> Seq<u8> {
    match s.entry {
        Some(e) => write_at(s.code, e as int, le_bytes(rel32(entry_target(s, e as int), e + 4), 4)),
        None => s.code,
    }
}

/// `s`'s code linked for its data placed at address `data_base`: the entry jump
/// goes to `main`, calls and jumps to the workstations they name, and string
/// loads to their data. Only the string loads depend on where the data is; the
/// code itself may run anywhere.
pub open spec fn linked_code(s: JitState, data_base: int) -> Seq<u8> {
    let c = patch_all(patch_all(with_entry(s), s.calls, s.offsets), s.jumps, s.offsets);
    patch_strings(c, s.strings, data_base)
}

/// `s` with the shared exit code appended and labelled.
pub open spec fn finished(s: JitState) -> JitState {
    JitState {
        offsets: s.offsets.insert(exit_name(), s.code.len() as usize),
        code: s.code + epilogue_bytes(),
        ..s
    }
}

/// The size of the executable mapping for `n` bytes: `n` rounded up to whole
/// 4096-byte pages, and at least one page.
pub open spec fn mapping_size(n: int) -> int {
    let t = ((n + 4095) / 4096) * 4096;
    if t < 4096 {
        4096
    } else {
        t
    }
}

// ---------------------------------------------------------------------------
// The emitter
// ---------------------------------------------------------------------------

struct PendingPatch {
    code_offset: usize,
    target: String,
}

struct PendingStringLoad {
    imm_offset: usize,
    data_offset: usize,
}

/// A workstation label and the code offset where it starts; later entries
/// override earlier ones with the same label.
pub open spec fn label_map(s: Seq<(Seq<char>, usize)>) -> Map<Seq<char>, usize>
    decreases s.len(),
{
    if s.len() == 0 {
        Map::empty()
    } else {
        label_map(s.drop_last()).insert(s.last().0, s.last().1)
    }
}

/// Whether one of the strings of `r` is `n`.
pub open spec fn lists_name(r: Seq<String>, n: Seq<char>) -> bool {
    exists|k: int| 0 <= k < r.len() && #[trigger] r[k]@ == n
}

/// Whether one of the first `i` labels of `lv` is `n`.
spec fn labels_name(lv: Seq<(Seq<char>, usize)>, i: int, n: Seq<char>) -> bool {
    exists|k: int| 0 <= k < i && #[trigger] lv[k].0 == n
}

/// A name is labelled exactly when some entry of the list carries it.
proof fn lemma_label_map_dom(s: Seq<(Seq<char>, usize)>)
    ensures
        forall|n: Seq<char>| #[trigger] label_map(s).contains_key(n) <==> labels_name(s, s.len() as int, n),
    decreases s.len(),
{
    if s.len() > 0 {
        let d = s.drop_last();
        lemma_label_map_dom(d);
        assert forall|n: Seq<char>| #[trigger] label_map(s).contains_key(n) implies labels_name(s, s.len() as int, n) by {
            if n == s.last().0 {
                assert(s[s.len() - 1].0 == n);
            } else {
                assert(label_map(d).contains_key(n));
                let k = choose|k: int| 0 <= k < d.len() && #[trigger] d[k].0 == n;
                assert(s[k].0 == n);
            }
        }
        assert forall|n: Seq<char>| labels_name(s, s.len() as int, n) implies #[trigger] label_map(s).contains_key(n) by {
            let k = choose|k: int| 0 <= k < s.len() && #[trigger] s[k].0 == n;
            if k < s.len() - 1 {
                assert(d[k].0 == n);
                assert(labels_name(d, d.len() as int, n));
                assert(label_map(d).contains_key(n));
            }
        }
    }
}

spec fn patch_view(v: Seq<PendingPatch>) -> Seq<(usize, Seq<char>)> {
    v.map_values(|p: PendingPatch| (p.code_offset, p.target@))
}

spec fn load_view(v: Seq<PendingStringLoad>) -> Seq<(usize, usize)> {
    v.map_values(|p: PendingStringLoad| (p.imm_offset, p.data_offset))
}

spec fn label_view(v: Seq<(String, usize)>) -> Seq<(Seq<char>, usize)> {
    v.map_values(|p: (String, usize)| (p.0@, p.1))
}

/// The JIT compiler: collects machine code for a program, then links it for the
/// address it will run at.
pub struct DynamicJitEngine {
    ctx: TargetContext,
    mapper: TrayMapper,
    code: Vec<u8>,
    data_section: Vec<u8>,
    workstation_offsets: Vec<(String, usize)>,
    pending_calls: Vec<PendingPatch>,
    pending_jumps: Vec<PendingPatch>,
    pending_string_loads: Vec<PendingStringLoad>,
    entry_jump_offset: Option<usize>,
    current_workstation: Option<String>,
}

impl View for DynamicJitEngine {
    type V = JitState;

    closed spec fn view(&self) -> JitState {
        JitState {
            arch: self.ctx.arch,
            code: self.code@,
            data: self.data_section@,
            offsets: label_map(label_view(self.workstation_offsets@)),
            calls: patch_view(self.pending_calls@),
            jumps: patch_view(self.pending_jumps@),
            strings: load_view(self.pending_string_loads@),
            entry: self.entry_jump_offset,
            current: match self.current_workstation {
                Some(s) => Some(s@),
                None => None,
            },
        }
    }
}

fn scratch_for(r: u8) -> (x: u8)
    ensures
        x == scratch(r),
{
    if r == 11 {
        10
    } else {
        11
    }
}

fn imm_of_i64(v: i64) -> (r: u64)
    ensures
        r as int == imm64(v),
{
    if v >= 0 {
        v as u64
    } else {
        let m = (-(v + 1)) as u64;
        u64::MAX - m
    }
}

impl DynamicJitEngine {
    /// A fresh emitter for the host `ctx`; on x86_64 it starts with the prologue.
    pub fn new(ctx: TargetContext) -> (r: DynamicJitEngine)
        ensures
            r@ == initial_state(ctx.arch),
    {
        let mapper = TrayMapper::new(ctx.clone());
        let mut engine = DynamicJitEngine {
            ctx,
            mapper,
            code: Vec::new(),
            data_section: Vec::new(),
            workstation_offsets: Vec::new(),
            pending_calls: Vec::new(),
            pending_jumps: Vec::new(),
            pending_string_loads: Vec::new(),
            entry_jump_offset: None,
            current_workstation: None,
        };
        assert(label_view(engine.workstation_offsets@) =~= Seq::<(Seq<char>, usize)>::empty());
        assert(engine@.offsets =~= Map::<Seq<char>, usize>::empty());
        assert(engine@.calls =~= Seq::<(usize, Seq<char>)>::empty());
        assert(engine@.jumps =~= Seq::<(usize, Seq<char>)>::empty());
        assert(engine@.strings =~= Seq::<(usize, usize)>::empty());
        engine.emit_prologue();
        engine
    }

    fn emit_prologue(&mut self)
        requires
            old(self)@.code.len() == 0,
            old(self)@.entry is None,
        ensures
            final(self)@ == (if old(self)@.arch == CpuArch::X86_64 {
                (JitState { code: prologue_bytes(), entry: Some(21), ..old(self)@ })
            } else {
                old(self)@
            }),
    {
        if self.ctx.arch == CpuArch::X86_64 {
            self.emit(
                &[
                    0x53, 0x41, 0x54, 0x41, 0x55, 0x41, 0x56, 0x41, 0x57, 0x55, 0x48, 0x89, 0xe5, 0x48,
                    0x81, 0xec, 0x00, 0x10, 0x00, 0x00,
                ],
            );
            self.emit(&[0xe9]);
            self.entry_jump_offset = Some(self.code.len());
            self.emit(&[0x00, 0x00, 0x00, 0x00]);
            assert(self@.code =~= prologue_bytes());
        }
    }

    /// Appends `b` to the code.
    fn emit(&mut self, b: &[u8])
        ensures
            final(self)@ == emit(old(self)@, b@),
    {
        let mut i: usize = 0;
        let ghost start = self.code@;
        while i < b.len()
            invariant
                i <= b@.len(),
                self.code@ == start + b@.subrange(0, i as int),
                self@ == (JitState { code: self.code@, ..old(self)@ }),
                start == old(self)@.code,
            decreases b@.len() - i,
        {
            self.code.push(b[i]);
            i = i + 1;
            assert(self.code@ =~= start + b@.subrange(0, i as int));
        }
        assert(b@.subrange(0, b@.len() as int) =~= b@);
    }

    /// Appends the `n` lowest bytes of `v`, least significant first.
    fn emit_le(&mut self, v: u64, n: u8)
        ensures
            final(self)@ == emit(old(self)@, le_bytes(v as int, n as nat)),
        decreases n,
    {
        if n > 0 {
            self.emit(&[(v % 256) as u8]);
            self.emit_le(v / 256, n - 1);
            assert(final(self)@.code =~= old(self)@.code + le_bytes(v as int, n as nat));
        } else {
            assert(old(self)@.code + le_bytes(v as int, 0) =~= old(self)@.code);
        }
    }

    fn emit_mov_reg_imm64(&mut self, reg_id: u8, val: u64)
        requires
            reg_id < 16,
        ensures
            final(self)@ == emit(old(self)@, mov_imm64(reg_id, val as int)),
    {
        proof {
            reveal(mov_imm64);
        }
        let rex: u8 = if reg_id >= 8 {
            0x49
        } else {
            0x48
        };
        self.emit(&[rex, 0xb8 + (reg_id % 8)]);
        self.emit_le(val, 8);
        assert(self@.code =~= old(self)@.code + mov_imm64(reg_id, val as int));
    }

    fn rex_rb(reg: u8, rm: u8) -> (r: u8)
        requires
            reg < 16,
            rm < 16,
        ensures
            r == rex_rb(reg, rm),
    {
        0x48 + (if reg >= 8 {
            4
        } else {
            0
        }) + (if rm >= 8 {
            1
        } else {
            0
        })
    }

    fn modrm(reg: u8, rm: u8) -> (r: u8)
        requires
            reg < 16,
            rm < 16,
        ensures
            r == modrm(reg as int, rm),
    {
        0xc0 + (reg % 8) * 8 + (rm % 8)
    }

    fn emit_mov_reg_reg(&mut self, dst_reg: u8, src_reg: u8)
        requires
            dst_reg < 16,
            src_reg < 16,
        ensures
            final(self)@ == emit(old(self)@, mov_rr(dst_reg, src_reg)),
    {
        proof {
            reveal(mov_rr);
        }
        self.emit(&[Self::rex_rb(src_reg, dst_reg), 0x89, Self::modrm(src_reg, dst_reg)]);
    }

    fn emit_add_reg_reg(&mut self, dst_reg: u8, src_reg: u8)
        requires
            dst_reg < 16,
            src_reg < 16,
        ensures
            final(self)@ == emit(old(self)@, alu_rr(AluOp::Add, dst_reg, src_reg)),
    {
        proof {
            reveal(alu_rr);
        }
        self.emit(&[Self::rex_rb(src_reg, dst_reg), 0x01, Self::modrm(src_reg, dst_reg)]);
    }

    fn emit_sub_reg_reg(&mut self, dst_reg: u8, src_reg: u8)
        requires
            dst_reg < 16,
            src_reg < 16,
        ensures
            final(self)@ == emit(old(self)@, alu_rr(AluOp::Sub, dst_reg, src_reg)),
    {
        proof {
            reveal(alu_rr);
        }
        self.emit(&[Self::rex_rb(src_reg, dst_reg), 0x29, Self::modrm(src_reg, dst_reg)]);
    }

    fn emit_compare_reg_reg(&mut self, reg_a: u8, reg_b: u8)
        requires
            reg_a < 16,
            reg_b < 16,
        ensures
            final(self)@ == emit(old(self)@, alu_rr(AluOp::Compare, reg_a, reg_b)),
    {
        proof {
            reveal(alu_rr);
        }
        self.emit(&[Self::rex_rb(reg_b, reg_a), 0x39, Self::modrm(reg_b, reg_a)]);
    }

    fn emit_imul_reg_reg(&mut self, dst_reg: u8, src_reg: u8)
        requires
            dst_reg < 16,
            src_reg < 16,
        ensures
            final(self)@ == emit(old(self)@, imul_rr(dst_reg, src_reg)),
    {
        proof {
            reveal(imul_rr);
        }
        self.emit(&[Self::rex_rb(dst_reg, src_reg), 0x0f, 0xaf, Self::modrm(dst_reg, src_reg)]);
    }

    /// An ALU operation with an immediate, `ext` being its ModRM extension.
    fn emit_alu_imm(&mut self, op: AluOp, ext: u8, dst_reg: u8, val: u64)
        requires
            dst_reg < 16,
            ext as int == alu_ext(op),
        ensures
            final(self)@ == emit(old(self)@, alu_imm(op, dst_reg, val as int)),
    {
        proof {
            reveal(alu_imm);
        }
        if val <= 0x7fff_ffff {
            let rex: u8 = if dst_reg >= 8 {
                0x49
            } else {
                0x48
            };
            self.emit(&[rex, 0x81, Self::modrm(ext, dst_reg)]);
            self.emit_le(val, 4);
            assert(self@.code =~= old(self)@.code + alu_imm(op, dst_reg, val as int));
        } else {
            let x = scratch_for(dst_reg);
            self.emit_push(x);
            self.emit_mov_reg_imm64(x, val);
            match op {
                AluOp::Add => self.emit_add_reg_reg(dst_reg, x),
                AluOp::Sub => self.emit_sub_reg_reg(dst_reg, x),
                AluOp::Compare => self.emit_compare_reg_reg(dst_reg, x),
            }
            self.emit_pop(x);
            assert(self@.code =~= old(self)@.code + alu_imm(op, dst_reg, val as int));
        }
    }

    fn emit_add_reg_imm(&mut self, dst_reg: u8, val: u64)
        requires
            dst_reg < 16,
        ensures
            final(self)@ == emit(old(self)@, alu_imm(AluOp::Add, dst_reg, val as int)),
    {
        self.emit_alu_imm(AluOp::Add, 0, dst_reg, val);
    }

    fn emit_sub_reg_imm(&mut self, dst_reg: u8, val: u64)
        requires
            dst_reg < 16,
        ensures
            final(self)@ == emit(old(self)@, alu_imm(AluOp::Sub, dst_reg, val as int)),
    {
        self.emit_alu_imm(AluOp::Sub, 5, dst_reg, val);
    }

    fn emit_compare_reg_imm(&mut self, reg_a: u8, val: u64)
        requires
            reg_a < 16,
        ensures
            final(self)@ == emit(old(self)@, alu_imm(AluOp::Compare, reg_a, val as int)),
    {
        self.emit_alu_imm(AluOp::Compare, 7, reg_a, val);
    }

    fn emit_imul_reg_imm(&mut self, dst_reg: u8, val: u64)
        requires
            dst_reg < 16,
        ensures
            final(self)@ == emit(old(self)@, staged(dst_reg, val as int, imul_rr(dst_reg, scratch(dst_reg)))),
    {
        let x = scratch_for(dst_reg);
        self.emit_push(x);
        self.emit_mov_reg_imm64(x, val);
        self.emit_imul_reg_reg(dst_reg, x);
        self.emit_pop(x);
        assert(self@.code =~= old(self)@.code + staged(dst_reg, val as int, imul_rr(dst_reg, x)));
    }

    fn emit_push(&mut self, r: u8)
        requires
            r < 16,
        ensures
            final(self)@ == emit(old(self)@, push_op(r)),
    {
        if r < 8 {
            self.emit(&[0x50 + r]);
        } else {
            self.emit(&[0x41, 0x50 + (r - 8)]);
        }
        assert(self@.code =~= old(self)@.code + push_op(r));
    }

    fn emit_pop(&mut self, r: u8)
        requires
            r < 16,
        ensures
            final(self)@ == emit(old(self)@, pop_op(r)),
    {
        if r < 8 {
            self.emit(&[0x58 + r]);
        } else {
            self.emit(&[0x41, 0x58 + (r - 8)]);
        }
        assert(self@.code =~= old(self)@.code + pop_op(r));
    }

    /// See [`div_tail`].
    fn emit_div_tail(&mut self, d: u8, rem: bool)
        requires
            d < 16,
        ensures
            final(self)@ == emit(old(self)@, div_tail(d, rem)),
    {
        proof {
            reveal(div_tail);
        }
        self.emit_mov_reg_reg(0, d);
        self.emit(&[0x48, 0x99, 0x48, 0xf7, 0x3c, 0x24, 0x48, 0x83, 0xc4, 0x08]);
        let src: u8 = if rem {
            2
        } else {
            0
        };
        if d == 0 {
            self.emit(&[0x48, 0x89, 0x04 + src * 8, 0x24]);
        } else if d == 2 {
            self.emit(&[0x48, 0x89, 0x44 + src * 8, 0x24, 0x08]);
        } else {
            self.emit_mov_reg_reg(d, src);
        }
        self.emit(&[0x58, 0x5a]);
        assert(self@.code =~= old(self)@.code + div_tail(d, rem));
    }

    fn emit_preserve_registers(&mut self)
        ensures
            final(self)@ == emit(old(self)@, preserve_bytes()),
    {
        self.emit(&[0x50, 0x51, 0x52, 0x56, 0x57, 0x41, 0x53]);
    }

    fn emit_restore_registers(&mut self)
        ensures
            final(self)@ == emit(old(self)@, restore_bytes()),
    {
        self.emit(&[0x41, 0x5b, 0x5f, 0x5e, 0x5a, 0x59, 0x58]);
    }
}


/// Compiling only appends: what was emitted before stays in place.
#[verifier::spinoff_prover]
#[verifier::rlimit(40)]
pub proof fn lemma_compile_appends(s: JitState, inst: InstrModel)
    ensures
        compile_step(s, inst).code.len() >= s.code.len(),
        compile_step(s, inst).code.subrange(0, s.code.len() as int) == s.code,
    decreases inst,
{
    reveal(pending_jump);
    reveal(pending_call);
    reveal(leave_workstation);
    reveal(load_string);
    reveal(ask_string);
    reveal(say_literal);
    reveal(say_tray);
    let r = compile_step(s, inst);
    match inst {
        InstrModel::InlineIf { tray, op, target_val, then_inst } => {
            let s1 = emit(s, compare_bytes(x86_reg(tray), target_val));
            let skip = s1.code.len() as int + 2;
            let s2 = emit(s1, seq![0x0fu8, skip_opcode(op), 0, 0, 0, 0]);
            lemma_compile_appends(s2, *then_inst);
            let s3 = compile_step(s2, *then_inst);
            assert(s3.code.subrange(0, s.code.len() as int) =~= s2.code.subrange(
                0,
                s2.code.len() as int,
            ).subrange(0, s.code.len() as int));
            assert(r.code.subrange(0, s.code.len() as int) =~= s.code);
        },
        InstrModel::Workstation { name } => {
            assert(r.code.subrange(0, s.code.len() as int) =~= s.code);
        },
        InstrModel::Return { tray } => {
            assert(r.code.subrange(0, s.code.len() as int) =~= s.code);
        },
        InstrModel::CallSupervisor { action, tray } => {
            assert(r.code.subrange(0, s.code.len() as int) =~= s.code);
        },
        _ => {
            assert(r.code.subrange(0, s.code.len() as int) =~= s.code);
        },
    }
}

/// Whether `a` is a prefix of `b`.
pub open spec fn is_prefix<T>(a: Seq<T>, b: Seq<T>) -> bool {
    a.len() <= b.len() && b.subrange(0, a.len() as int) == a
}

/// Compiling never rewrites or drops what was there: the data and the lists of
/// calls, jumps and string loads still to be filled in are prefixes of the new
/// ones (and the code is, by [`lemma_compile_appends`]).
pub proof fn lemma_compile_grows(s: JitState, inst: InstrModel)
    ensures
        is_prefix(s.code, compile_step(s, inst).code),
        is_prefix(s.data, compile_step(s, inst).data),
        is_prefix(s.calls, compile_step(s, inst).calls),
        is_prefix(s.jumps, compile_step(s, inst).jumps),
        is_prefix(s.strings, compile_step(s, inst).strings),
    decreases inst,
{
    reveal(pending_jump);
    reveal(pending_call);
    reveal(leave_workstation);
    reveal(load_string);
    reveal(ask_string);
    reveal(say_literal);
    reveal(say_tray);
    lemma_compile_appends(s, inst);
    let r = compile_step(s, inst);
    match inst {
        InstrModel::InlineIf { tray, op, target_val, then_inst } => {
            let s1 = emit(s, compare_bytes(x86_reg(tray), target_val));
            let s2 = emit(s1, seq![0x0fu8, skip_opcode(op), 0, 0, 0, 0]);
            lemma_compile_grows(s2, *then_inst);
        },
        _ => {
            assert(r.data.subrange(0, s.data.len() as int) =~= s.data);
            assert(r.calls.subrange(0, s.calls.len() as int) =~= s.calls);
            assert(r.jumps.subrange(0, s.jumps.len() as int) =~= s.jumps);
            assert(r.strings.subrange(0, s.strings.len() as int) =~= s.strings);
        },
    }
}

/// The immediate of a length one past a slice length is the length plus one,
/// modulo 2^64.
proof fn lemma_length_immediate(n: nat)
    requires
        n <= u64::MAX,
    ensures
        mov_imm64(2, n as int + 1) == mov_imm64(2, (if n == u64::MAX { 0 } else { n as int + 1 })),
{
    if n == u64::MAX {
        reveal_with_fuel(le_bytes, 9);
        reveal(mov_imm64);
        assert(le_bytes(0x1_0000_0000_0000_0000, 8) =~= le_bytes(0, 8));
    }
}

pub proof fn lemma_le_bytes_len(v: int, n: nat)
    ensures
        le_bytes(v, n).len() == n,
    decreases n,
{
    if n > 0 {
        lemma_le_bytes_len(v / 256, (n - 1) as nat);
    }
}


proof fn lemma_emit_slots(s: JitState, b: Seq<u8>)
    requires
        slots_in_range(s),
    ensures
        slots_in_range(emit(s, b)),
{
}

proof fn lemma_pending_jump_slots(s: JitState, opcode: Seq<u8>, target: Seq<char>)
    requires
        slots_in_range(s),
        s.code.len() + opcode.len() <= usize::MAX,
    ensures
        slots_in_range(pending_jump(s, opcode, target)),
{
    reveal(pending_jump);
    let r = pending_jump(s, opcode, target);
    assert forall|i: int| 0 <= i < r.jumps.len() implies #[trigger] r.jumps[i].0 + 4 <= r.code.len() by {
        if i < s.jumps.len() {
            assert(r.jumps[i] == s.jumps[i]);
        }
    }
}

proof fn lemma_pending_call_slots(s: JitState, target: Seq<char>)
    requires
        slots_in_range(s),
        s.code.len() + 1 <= usize::MAX,
    ensures
        slots_in_range(pending_call(s, target)),
{
    reveal(pending_call);
    let r = pending_call(s, target);
    assert forall|i: int| 0 <= i < r.calls.len() implies #[trigger] r.calls[i].0 + 4 <= r.code.len() by {
        if i < s.calls.len() {
            assert(r.calls[i] == s.calls[i]);
        }
    }
}

#[verifier::spinoff_prover]
proof fn lemma_load_string_slots(s: JitState, r: u8, text: Seq<char>)
    requires
        slots_in_range(s),
        s.code.len() + 2 <= usize::MAX,
        s.data.len() <= usize::MAX,
    ensures
        slots_in_range(load_string(s, r, text)),
{
    reveal(load_string);
    let t = load_string(s, r, text);
    assert forall|i: int| 0 <= i < t.strings.len() implies #[trigger] t.strings[i].0 + 8 <= t.code.len()
        && t.strings[i].1 < t.data.len() by {
        if i < s.strings.len() {
            assert(t.strings[i] == s.strings[i]);
        }
    }
}

#[verifier::spinoff_prover]
proof fn lemma_ask_string_slots(s: JitState, r: u8)
    requires
        slots_in_range(s),
        s.code.len() + 13 <= usize::MAX,
        s.data.len() <= usize::MAX,
    ensures
        slots_in_range(ask_string(s, r)),
{
    reveal(ask_string);
    reveal(input_open);
    let t = ask_string(s, r);
    assert(input_open().len() == 11);
    assert(line_buffer().len() == 256);
    assert(t.code.len() >= s.code.len() + 21);
    assert(t.data.len() == s.data.len() + 256);
    assert(t.strings.len() == s.strings.len() + 1);
    assert(t.strings[s.strings.len() as int] == ((s.code.len() + 13) as usize, s.data.len() as usize));
    assert forall|i: int| 0 <= i < t.strings.len() implies #[trigger] t.strings[i].0 + 8 <= t.code.len()
        && t.strings[i].1 < t.data.len() by {
        if i < s.strings.len() {
            assert(t.strings[i] == s.strings[i]);
        }
    }
}

#[verifier::spinoff_prover]
proof fn lemma_say_literal_slots(s: JitState, text: Seq<char>)
    requires
        slots_in_range(s),
        s.code.len() + 40 <= usize::MAX,
        s.data.len() <= usize::MAX,
    ensures
        slots_in_range(say_literal(s, text)),
{
    reveal(say_literal);
    reveal(mov_imm64);
    lemma_le_bytes_len(1, 8);
    lemma_le_bytes_len((encode_utf8(text) + seq![10u8]).len() as int, 8);
    let t = say_literal(s, text);
    let bytes = encode_utf8(text) + seq![10u8];
    assert(t.data == s.data + bytes);
    assert(t.data.len() == s.data.len() + bytes.len());
    assert(bytes.len() >= 1);
    assert(t.strings.len() == s.strings.len() + 1);
    assert(t.code.len() >= s.code.len() + 7 + 10 + 10 + 2 + 8);
    assert forall|i: int| 0 <= i < t.strings.len() implies #[trigger] t.strings[i].0 + 8 <= t.code.len()
        && t.strings[i].1 < t.data.len() by {
        if i < s.strings.len() {
            assert(t.strings[i] == s.strings[i]);
        }
    }
}

#[verifier::spinoff_prover]
proof fn lemma_say_tray_slots(s: JitState, r: u8)
    requires
        slots_in_range(s),
        s.code.len() + 80 <= usize::MAX,
        s.data.len() <= usize::MAX,
    ensures
        slots_in_range(say_tray(s, r)),
{
    reveal(say_tray);
    reveal(mov_rr);
    let t = say_tray(s, r);
    assert forall|i: int| 0 <= i < t.strings.len() implies #[trigger] t.strings[i].0 + 8 <= t.code.len()
        && t.strings[i].1 < t.data.len() by {
        if i < s.strings.len() {
            assert(t.strings[i] == s.strings[i]);
        }
    }
}

proof fn lemma_leave_slots(s: JitState)
    requires
        slots_in_range(s),
        s.code.len() + 1 <= usize::MAX,
    ensures
        slots_in_range(leave_workstation(s)),
{
    reveal(leave_workstation);
    if s.current == Some(main_name()) {
        lemma_pending_jump_slots(s, seq![0xe9u8], exit_name());
    }
}

/// Whether `s`'s code and data can grow by the most one instruction emits without
/// leaving the range of `usize`.
pub open spec fn has_room(s: JitState, inst: InstrModel) -> bool {
    s.code.len() + 200 * instr_depth(inst) <= usize::MAX && s.data.len() <= usize::MAX
}

/// The nesting depth of an instruction (inline `if`s count one each).
pub open spec fn instr_depth(inst: InstrModel) -> nat
    decreases inst,
{
    match inst {
        InstrModel::InlineIf { then_inst, .. } => 1 + instr_depth(*then_inst),
        _ => 1,
    }
}


proof fn lemma_compare_bytes_len(a: u8, v: OperandModel)
    ensures
        compare_bytes(a, v).len() <= 20,
{
    reveal(compare_bytes);
    reveal(alu_imm);
    reveal(alu_rr);
    reveal(mov_imm64);
    lemma_le_bytes_len(operand_imm(v), 8);
    lemma_le_bytes_len(operand_imm(v), 4);
}

/// Compiling keeps every place still to be filled in inside the code and data.
#[verifier::spinoff_prover]
#[verifier::rlimit(40)]
pub proof fn lemma_compile_keeps_slots(s: JitState, inst: InstrModel)
    requires
        slots_in_range(s),
        has_room(s, inst),
    ensures
        slots_in_range(compile_step(s, inst)),
    decreases inst,
{
    match inst {
        InstrModel::Workstation { name } => {
            if s.current is Some {
                lemma_leave_slots(s);
            }
            let s1 = if s.current is Some {
                leave_workstation(s)
            } else {
                s
            };
            assert(slots_in_range(s1));
            assert(slots_in_range(compile_step(s, inst)));
        },
        InstrModel::EndWorkstation => lemma_leave_slots(s),
        InstrModel::AssignString { text, tray } => lemma_load_string_slots(s, x86_reg(tray), text),
        InstrModel::Jump { target } => lemma_pending_jump_slots(s, seq![0xe9u8], target),
        InstrModel::JumpIfEqual { target } => lemma_pending_jump_slots(s, seq![0x0fu8, 0x84], target),
        InstrModel::JumpIfNotEqual { target } => lemma_pending_jump_slots(
            s,
            seq![0x0fu8, 0x85],
            target,
        ),
        InstrModel::JumpIfGreater { target } => lemma_pending_jump_slots(
            s,
            seq![0x0fu8, 0x8f],
            target,
        ),
        InstrModel::JumpIfLess { target } => lemma_pending_jump_slots(s, seq![0x0fu8, 0x8c], target),
        InstrModel::InlineIf { tray, op, target_val, then_inst } => {
            let s1 = emit(s, compare_bytes(x86_reg(tray), target_val));
            let skip = s1.code.len() as int + 2;
            let s2 = emit(s1, seq![0x0fu8, skip_opcode(op), 0, 0, 0, 0]);
            lemma_compare_bytes_len(x86_reg(tray), target_val);
            lemma_emit_slots(s, compare_bytes(x86_reg(tray), target_val));
            lemma_emit_slots(s1, seq![0x0fu8, skip_opcode(op), 0, 0, 0, 0]);
            lemma_compile_keeps_slots(s2, *then_inst);
            lemma_compile_appends(s2, *then_inst);
            let s3 = compile_step(s2, *then_inst);
            lemma_le_bytes_len(rel32(s3.code.len() as int, skip + 4), 4);
            let r = compile_step(s, inst);
            assert(r.code.len() == s3.code.len());
            assert(r == (JitState { code: r.code, ..s3 }));
        },
        InstrModel::SayLiteral { text } => lemma_say_literal_slots(s, text),
        InstrModel::SayTray { tray } => lemma_say_tray_slots(s, x86_reg(tray)),
        InstrModel::Call { workstation } => lemma_pending_call_slots(s, workstation),
        InstrModel::CallSupervisor { action, tray } => {
            if action == "exit"@ {
                lemma_pending_jump_slots(s, seq![0xe9u8], exit_name());
            } else if action == "print"@ && tray is Some {
                lemma_say_tray_slots(s, x86_reg(tray->0));
            }
        },
        InstrModel::Fill { val, tray } => lemma_emit_slots(s, mov_imm64(x86_reg(tray), imm64(val))),
        InstrModel::AssignChar { ch, tray } => lemma_emit_slots(
            s,
            mov_imm64(x86_reg(tray), (ch as u32) as int),
        ),
        InstrModel::Move { src_tray, dst_tray } => lemma_emit_slots(
            s,
            mov_rr(x86_reg(dst_tray), x86_reg(src_tray)),
        ),
        InstrModel::Clear { tray } => lemma_emit_slots(s, mov_imm64(x86_reg(tray), 0)),
        InstrModel::Add { src, dst_tray } => lemma_emit_slots(
            s,
            arith_bytes(AluOp::Add, x86_reg(dst_tray), src),
        ),
        InstrModel::Sub { src, dst_tray } => lemma_emit_slots(
            s,
            arith_bytes(AluOp::Sub, x86_reg(dst_tray), src),
        ),
        InstrModel::Multiply { src, dst_tray } => lemma_emit_slots(
            s,
            multiply_bytes(x86_reg(dst_tray), src),
        ),
        InstrModel::Divide { src, dst_tray } => lemma_emit_slots(
            s,
            division_bytes(x86_reg(dst_tray), src, false),
        ),
        InstrModel::Modulo { src, dst_tray } => lemma_emit_slots(
            s,
            division_bytes(x86_reg(dst_tray), src, true),
        ),
        InstrModel::SayNumber { tray } => lemma_emit_slots(s, say_number_bytes(x86_reg(tray))),
        InstrModel::AskNumber { tray } => lemma_emit_slots(
            s,
            input_open() + read_number_bytes() + input_close(x86_reg(tray)),
        ),
        InstrModel::AskChar { tray } => lemma_emit_slots(
            s,
            input_open() + read_char_bytes() + input_close(x86_reg(tray)),
        ),
        InstrModel::Random { max, tray } => lemma_emit_slots(s, random_bytes(x86_reg(tray), max)),
        InstrModel::AskString { tray } => lemma_ask_string_slots(s, x86_reg(tray)),
        InstrModel::Compare { tray_a, val_b } => lemma_emit_slots(
            s,
            compare_bytes(x86_reg(tray_a), val_b),
        ),
        InstrModel::Store { tray, offset } => lemma_emit_slots(
            s,
            storeroom_bytes(0x89, x86_reg(tray), offset),
        ),
        InstrModel::Load { offset, tray } => lemma_emit_slots(
            s,
            storeroom_bytes(0x8b, x86_reg(tray), offset),
        ),
        InstrModel::Return { tray } => {
            let s1 = match tray {
                Some(t) => if x86_reg(t) != 0 {
                    emit(s, mov_rr(0, x86_reg(t)))
                } else {
                    s
                },
                None => s,
            };
            if let Some(t) = tray {
                lemma_emit_slots(s, mov_rr(0, x86_reg(t)));
            }
            lemma_emit_slots(s1, seq![0xc3u8]);
        },
        _ => {},
    }
}

/// Compiling keeps every place still to be filled in inside the code and data,
/// whenever the code and data it produces fit the address space (as those the
/// emitter holds always do): the same law as [`lemma_compile_keeps_slots`],
/// without asking for room in advance.
#[verifier::spinoff_prover]
#[verifier::rlimit(60)]
pub proof fn lemma_compile_keeps_slots_fitting(s: JitState, inst: InstrModel)
    requires
        slots_in_range(s),
        compile_step(s, inst).code.len() <= usize::MAX,
        compile_step(s, inst).data.len() <= usize::MAX,
    ensures
        slots_in_range(compile_step(s, inst)),
    decreases inst,
{
    reveal(pending_jump);
    reveal(pending_call);
    reveal(leave_workstation);
    reveal(load_string);
    reveal(ask_string);
    reveal(say_literal);
    reveal(say_tray);
    reveal(mov_imm64);
    reveal(mov_rr);
    reveal(input_open);
    lemma_le_bytes_len(1, 8);
    if let InstrModel::SayLiteral { text } = inst {
        lemma_le_bytes_len((encode_utf8(text) + seq![10u8]).len() as int, 8);
    }

    match inst {
        InstrModel::Workstation { name } => {
            if s.current is Some {
                let s1 = leave_workstation(s);
                assert(compile_step(s, inst).code == s1.code);
                assert(s1.code.len() >= s.code.len() + 1);
                lemma_leave_slots(s);
            }
            let s1 = if s.current is Some {
                leave_workstation(s)
            } else {
                s
            };
            assert(slots_in_range(s1));
            assert(slots_in_range(compile_step(s, inst)));
        },
        InstrModel::EndWorkstation => lemma_leave_slots(s),
        InstrModel::AssignString { text, tray } => lemma_load_string_slots(s, x86_reg(tray), text),
        InstrModel::Jump { target } => lemma_pending_jump_slots(s, seq![0xe9u8], target),
        InstrModel::JumpIfEqual { target } => lemma_pending_jump_slots(s, seq![0x0fu8, 0x84], target),
        InstrModel::JumpIfNotEqual { target } => lemma_pending_jump_slots(
            s,
            seq![0x0fu8, 0x85],
            target,
        ),
        InstrModel::JumpIfGreater { target } => lemma_pending_jump_slots(
            s,
            seq![0x0fu8, 0x8f],
            target,
        ),
        InstrModel::JumpIfLess { target } => lemma_pending_jump_slots(s, seq![0x0fu8, 0x8c], target),
        InstrModel::InlineIf { tray, op, target_val, then_inst } => {
            let s1 = emit(s, compare_bytes(x86_reg(tray), target_val));
            let skip = s1.code.len() as int + 2;
            let s2 = emit(s1, seq![0x0fu8, skip_opcode(op), 0, 0, 0, 0]);
            lemma_compare_bytes_len(x86_reg(tray), target_val);
            lemma_emit_slots(s, compare_bytes(x86_reg(tray), target_val));
            lemma_emit_slots(s1, seq![0x0fu8, skip_opcode(op), 0, 0, 0, 0]);
            lemma_compile_appends(s2, *then_inst);
            let s3 = compile_step(s2, *then_inst);
            lemma_le_bytes_len(rel32(s3.code.len() as int, skip + 4), 4);
            let r = compile_step(s, inst);
            assert(r.code.len() == s3.code.len());
            assert(r.data == s3.data);
            lemma_compile_keeps_slots_fitting(s2, *then_inst);
            assert(r == (JitState { code: r.code, ..s3 }));
        },
        InstrModel::SayLiteral { text } => lemma_say_literal_slots(s, text),
        InstrModel::SayTray { tray } => lemma_say_tray_slots(s, x86_reg(tray)),
        InstrModel::Call { workstation } => lemma_pending_call_slots(s, workstation),
        InstrModel::CallSupervisor { action, tray } => {
            if action == "exit"@ {
                lemma_pending_jump_slots(s, seq![0xe9u8], exit_name());
            } else if action == "print"@ && tray is Some {
                lemma_say_tray_slots(s, x86_reg(tray->0));
            }
        },
        InstrModel::Fill { val, tray } => lemma_emit_slots(s, mov_imm64(x86_reg(tray), imm64(val))),
        InstrModel::AssignChar { ch, tray } => lemma_emit_slots(
            s,
            mov_imm64(x86_reg(tray), (ch as u32) as int),
        ),
        InstrModel::Move { src_tray, dst_tray } => lemma_emit_slots(
            s,
            mov_rr(x86_reg(dst_tray), x86_reg(src_tray)),
        ),
        InstrModel::Clear { tray } => lemma_emit_slots(s, mov_imm64(x86_reg(tray), 0)),
        InstrModel::Add { src, dst_tray } => lemma_emit_slots(
            s,
            arith_bytes(AluOp::Add, x86_reg(dst_tray), src),
        ),
        InstrModel::Sub { src, dst_tray } => lemma_emit_slots(
            s,
            arith_bytes(AluOp::Sub, x86_reg(dst_tray), src),
        ),
        InstrModel::Multiply { src, dst_tray } => lemma_emit_slots(
            s,
            multiply_bytes(x86_reg(dst_tray), src),
        ),
        InstrModel::Divide { src, dst_tray } => lemma_emit_slots(
            s,
            division_bytes(x86_reg(dst_tray), src, false),
        ),
        InstrModel::Modulo { src, dst_tray } => lemma_emit_slots(
            s,
            division_bytes(x86_reg(dst_tray), src, true),
        ),
        InstrModel::SayNumber { tray } => lemma_emit_slots(s, say_number_bytes(x86_reg(tray))),
        InstrModel::AskNumber { tray } => lemma_emit_slots(
            s,
            input_open() + read_number_bytes() + input_close(x86_reg(tray)),
        ),
        InstrModel::AskChar { tray } => lemma_emit_slots(
            s,
            input_open() + read_char_bytes() + input_close(x86_reg(tray)),
        ),
        InstrModel::Random { max, tray } => lemma_emit_slots(s, random_bytes(x86_reg(tray), max)),
        InstrModel::AskString { tray } => lemma_ask_string_slots(s, x86_reg(tray)),
        InstrModel::Compare { tray_a, val_b } => lemma_emit_slots(
            s,
            compare_bytes(x86_reg(tray_a), val_b),
        ),
        InstrModel::Store { tray, offset } => lemma_emit_slots(
            s,
            storeroom_bytes(0x89, x86_reg(tray), offset),
        ),
        InstrModel::Load { offset, tray } => lemma_emit_slots(
            s,
            storeroom_bytes(0x8b, x86_reg(tray), offset),
        ),
        InstrModel::Return { tray } => {
            let s1 = match tray {
                Some(t) => if x86_reg(t) != 0 {
                    emit(s, mov_rr(0, x86_reg(t)))
                } else {
                    s
                },
                None => s,
            };
            if let Some(t) = tray {
                lemma_emit_slots(s, mov_rr(0, x86_reg(t)));
            }
            lemma_emit_slots(s1, seq![0xc3u8]);
        },
        _ => {},
    }
}

/// The fresh emitter has its entry slot inside its code, and nothing else to fill in.
pub proof fn lemma_initial_slots(arch: CpuArch)
    ensures
        slots_in_range(initial_state(arch)),
        slots_apart(initial_state(arch)),
{
}


/// `push r` for a register number below 16.
pub open spec fn push_op(r: u8) -> Seq<u8> {
    if r < 8 {
        seq![(0x50 + r) as u8]
    } else {
        seq![0x41u8, (0x50 + r - 8) as u8]
    }
}

/// `pop r` for a register number below 16.
pub open spec fn pop_op(r: u8) -> Seq<u8> {
    if r < 8 {
        seq![(0x58 + r) as u8]
    } else {
        seq![0x41u8, (0x58 + r - 8) as u8]
    }
}

/// Pushes of `rs`, in order.
pub open spec fn pushes(rs: Seq<u8>) -> Seq<u8>
    decreases rs.len(),
{
    if rs.len() == 0 {
        seq![]
    } else {
        push_op(rs[0]) + pushes(rs.drop_first())
    }
}

/// Pops of `rs`, in order.
pub open spec fn pops(rs: Seq<u8>) -> Seq<u8>
    decreases rs.len(),
{
    if rs.len() == 0 {
        seq![]
    } else {
        pop_op(rs[0]) + pops(rs.drop_first())
    }
}

/// The registers a supervisor call may clobber: RAX, RCX, RDX, RSI, RDI, R11.
pub open spec fn saved_registers() -> Seq<u8> {
    seq![0u8, 1, 2, 6, 7, 11]
}

/// Around every supervisor call the registers it may clobber are pushed, and
/// popped again in the reverse order, so every tray keeps its value.
pub proof fn lemma_registers_restored()
    ensures
        preserve_bytes() == pushes(saved_registers()),
        restore_bytes() == pops(saved_registers().reverse()),
{
    reveal_with_fuel(pushes, 7);
    reveal_with_fuel(pops, 7);
    let r = saved_registers();
    assert(r.reverse() =~= seq![11u8, 7, 6, 2, 1, 0]);
    assert(r.drop_first() =~= seq![1u8, 2, 6, 7, 11]);
    assert(seq![1u8, 2, 6, 7, 11].drop_first() =~= seq![2u8, 6, 7, 11]);
    assert(seq![2u8, 6, 7, 11].drop_first() =~= seq![6u8, 7, 11]);
    assert(seq![6u8, 7, 11].drop_first() =~= seq![7u8, 11]);
    assert(seq![7u8, 11].drop_first() =~= seq![11u8]);
    assert(seq![11u8].drop_first() =~= Seq::<u8>::empty());
    assert(seq![11u8, 7, 6, 2, 1, 0].drop_first() =~= seq![7u8, 6, 2, 1, 0]);
    assert(seq![7u8, 6, 2, 1, 0].drop_first() =~= seq![6u8, 2, 1, 0]);
    assert(seq![6u8, 2, 1, 0].drop_first() =~= seq![2u8, 1, 0]);
    assert(seq![2u8, 1, 0].drop_first() =~= seq![1u8, 0]);
    assert(seq![1u8, 0].drop_first() =~= seq![0u8]);
    assert(seq![0u8].drop_first() =~= Seq::<u8>::empty());
    assert(preserve_bytes() =~= pushes(saved_registers()));
    assert(restore_bytes() =~= pops(saved_registers().reverse()));
}


// ---------------------------------------------------------------------------
// Places to fill in never overlap
// ---------------------------------------------------------------------------

/// Whether the byte ranges `[a, a + la)` and `[b, b + lb)` do not overlap.
pub open spec fn apart(a: int, la: int, b: int, lb: int) -> bool {
    a + la <= b || b + lb <= a
}

/// No two places still to be filled in overlap.
pub open spec fn slots_apart(s: JitState) -> bool {
    &&& forall|i: int, j: int|
        0 <= i < s.calls.len() && 0 <= j < s.calls.len() && i != j ==> apart(
            #[trigger] s.calls[i].0 as int,
            4,
            #[trigger] s.calls[j].0 as int,
            4,
        )
    &&& forall|i: int, j: int|
        0 <= i < s.jumps.len() && 0 <= j < s.jumps.len() && i != j ==> apart(
            #[trigger] s.jumps[i].0 as int,
            4,
            #[trigger] s.jumps[j].0 as int,
            4,
        )
    &&& forall|i: int, j: int|
        0 <= i < s.strings.len() && 0 <= j < s.strings.len() && i != j ==> apart(
            #[trigger] s.strings[i].0 as int,
            8,
            #[trigger] s.strings[j].0 as int,
            8,
        )
    &&& forall|i: int, j: int|
        0 <= i < s.calls.len() && 0 <= j < s.jumps.len() ==> apart(
            #[trigger] s.calls[i].0 as int,
            4,
            #[trigger] s.jumps[j].0 as int,
            4,
        )
    &&& forall|i: int, j: int|
        0 <= i < s.calls.len() && 0 <= j < s.strings.len() ==> apart(
            #[trigger] s.calls[i].0 as int,
            4,
            #[trigger] s.strings[j].0 as int,
            8,
        )
    &&& forall|i: int, j: int|
        0 <= i < s.jumps.len() && 0 <= j < s.strings.len() ==> apart(
            #[trigger] s.jumps[i].0 as int,
            4,
            #[trigger] s.strings[j].0 as int,
            8,
        )
    &&& s.entry matches Some(e) ==> {
        &&& forall|i: int| 0 <= i < s.calls.len() ==> apart(e as int, 4, #[trigger] s.calls[i].0 as int, 4)
        &&& forall|i: int| 0 <= i < s.jumps.len() ==> apart(e as int, 4, #[trigger] s.jumps[i].0 as int, 4)
        &&& forall|i: int|
            0 <= i < s.strings.len() ==> apart(e as int, 4, #[trigger] s.strings[i].0 as int, 8)
    }
}

/// Whether `b` is `a` or `a` with one element appended.
pub open spec fn grows_by_at_most_one<T>(a: Seq<T>, b: Seq<T>) -> bool {
    b == a || (b.len() == a.len() + 1 && forall|i: int| 0 <= i < a.len() ==> b[i] == a[i])
}

/// A single new place to fill in, after all the code that was there, keeps the
/// places apart.
proof fn lemma_one_new_slot(s: JitState, t: JitState)
    requires
        slots_in_range(s),
        slots_apart(s),
        t.entry == s.entry,
        grows_by_at_most_one(s.calls, t.calls),
        grows_by_at_most_one(s.jumps, t.jumps),
        grows_by_at_most_one(s.strings, t.strings),
        (if t.calls == s.calls { 0int } else { 1int }) + (if t.jumps == s.jumps { 0int } else { 1int })
            + (if t.strings == s.strings { 0int } else { 1int }) <= 1,
        t.calls != s.calls ==> t.calls.last().0 >= s.code.len(),
        t.jumps != s.jumps ==> t.jumps.last().0 >= s.code.len(),
        t.strings != s.strings ==> t.strings.last().0 >= s.code.len(),
    ensures
        slots_apart(t),
{
}


/// Compiling keeps the places still to be filled in apart from one another.
#[verifier::spinoff_prover]
#[verifier::rlimit(40)]
pub proof fn lemma_compile_keeps_apart(s: JitState, inst: InstrModel)
    requires
        slots_in_range(s),
        slots_apart(s),
        has_room(s, inst),
    ensures
        slots_apart(compile_step(s, inst)),
    decreases inst,
{
    reveal(pending_jump);
    reveal(pending_call);
    reveal(leave_workstation);
    reveal(load_string);
    reveal(ask_string);
    reveal(say_literal);
    reveal(say_tray);
    reveal(mov_rr);
    reveal(mov_imm64);
    lemma_le_bytes_len(1, 8);
    let r = compile_step(s, inst);
    match inst {
        InstrModel::InlineIf { tray, op, target_val, then_inst } => {
            let s1 = emit(s, compare_bytes(x86_reg(tray), target_val));
            let s2 = emit(s1, seq![0x0fu8, skip_opcode(op), 0, 0, 0, 0]);
            lemma_compare_bytes_len(x86_reg(tray), target_val);
            lemma_emit_slots(s, compare_bytes(x86_reg(tray), target_val));
            lemma_emit_slots(s1, seq![0x0fu8, skip_opcode(op), 0, 0, 0, 0]);
            lemma_compile_keeps_apart(s2, *then_inst);
        },
        InstrModel::SayLiteral { text } => {
            lemma_le_bytes_len((encode_utf8(text) + seq![10u8]).len() as int, 8);
            lemma_one_new_slot(s, r);
        },
        InstrModel::Workstation { name } => {
            let s1 = if s.current is Some {
                leave_workstation(s)
            } else {
                s
            };
            lemma_one_new_slot(s, s1);
        },
        InstrModel::CallSupervisor { action, tray } => {
            lemma_one_new_slot(s, r);
        },
        _ => {
            lemma_one_new_slot(s, r);
        },
    }
}


// ---------------------------------------------------------------------------
// What linking writes
// ---------------------------------------------------------------------------

proof fn lemma_write_elsewhere(code: Seq<u8>, off: int, b: Seq<u8>, x: int, n: int)
    requires
        0 <= off,
        off + b.len() <= code.len(),
        0 <= x,
        x + n <= code.len(),
        0 <= n,
        apart(off, b.len() as int, x, n),
    ensures
        write_at(code, off, b).len() == code.len(),
        write_at(code, off, b).subrange(x, x + n) == code.subrange(x, x + n),
{
    let w = write_at(code, off, b);
    assert(w.len() == code.len());
    assert forall|i: int| 0 <= i < n implies #[trigger] w[x + i] == code[x + i] by {
        if x + i < off {
        } else {
            assert(x + i >= off + b.len());
        }
    }
    assert(w.subrange(x, x + n) =~= code.subrange(x, x + n));
}

proof fn lemma_write_here(code: Seq<u8>, off: int, b: Seq<u8>)
    requires
        0 <= off,
        off + b.len() <= code.len(),
    ensures
        write_at(code, off, b).len() == code.len(),
        write_at(code, off, b).subrange(off, off + b.len()) == b,
{
    assert(write_at(code, off, b).subrange(off, off + b.len()) =~= b);
}

proof fn lemma_patch_one_elsewhere(
    code: Seq<u8>,
    p: (usize, Seq<char>),
    offs: Map<Seq<char>, usize>,
    x: int,
    n: int,
)
    requires
        p.0 + 4 <= code.len(),
        0 <= x,
        x + n <= code.len(),
        0 <= n,
        apart(p.0 as int, 4, x, n),
    ensures
        patch_one(code, p, offs).len() == code.len(),
        patch_one(code, p, offs).subrange(x, x + n) == code.subrange(x, x + n),
{
    if offs.contains_key(p.1) {
        let b = le_bytes(rel32(offs[p.1] as int, p.0 + 4), 4);
        lemma_le_bytes_len(rel32(offs[p.1] as int, p.0 + 4), 4);
        lemma_write_elsewhere(code, p.0 as int, b, x, n);
    }
}

/// Patches apart from a range leave it as it was.
proof fn lemma_patch_all_elsewhere(
    code: Seq<u8>,
    ps: Seq<(usize, Seq<char>)>,
    offs: Map<Seq<char>, usize>,
    x: int,
    n: int,
)
    requires
        forall|i: int| 0 <= i < ps.len() ==> #[trigger] ps[i].0 + 4 <= code.len(),
        forall|i: int| 0 <= i < ps.len() ==> apart(#[trigger] ps[i].0 as int, 4, x, n),
        0 <= x,
        x + n <= code.len(),
        0 <= n,
    ensures
        patch_all(code, ps, offs).len() == code.len(),
        patch_all(code, ps, offs).subrange(x, x + n) == code.subrange(x, x + n),
    decreases ps.len(),
{
    if ps.len() > 0 {
        lemma_patch_one_elsewhere(code, ps[0], offs, x, n);
        let c1 = patch_one(code, ps[0], offs);
        let rest = ps.drop_first();
        assert forall|i: int| 0 <= i < rest.len() implies #[trigger] rest[i].0 + 4 <= c1.len() by {
            assert(rest[i] == ps[i + 1]);
        }
        assert forall|i: int| 0 <= i < rest.len() implies apart(#[trigger] rest[i].0 as int, 4, x, n) by {
            assert(rest[i] == ps[i + 1]);
        }
        lemma_patch_all_elsewhere(c1, rest, offs, x, n);
    }
}

/// A patch whose workstation is known, apart from all the others, ends up holding
/// the displacement to that workstation.
proof fn lemma_patch_all_at(
    code: Seq<u8>,
    ps: Seq<(usize, Seq<char>)>,
    offs: Map<Seq<char>, usize>,
    k: int,
)
    requires
        forall|i: int| 0 <= i < ps.len() ==> #[trigger] ps[i].0 + 4 <= code.len(),
        0 <= k < ps.len(),
        forall|i: int| 0 <= i < ps.len() && i != k ==> apart(#[trigger] ps[i].0 as int, 4, ps[k].0 as int, 4),
        offs.contains_key(ps[k].1),
    ensures
        patch_all(code, ps, offs).len() == code.len(),
        patch_all(code, ps, offs).subrange(ps[k].0 as int, ps[k].0 + 4) == le_bytes(
            rel32(offs[ps[k].1] as int, ps[k].0 + 4),
            4,
        ),
    decreases ps.len(),
{
    let c1 = patch_one(code, ps[0], offs);
    let rest = ps.drop_first();
    lemma_le_bytes_len(rel32(offs[ps[k].1] as int, ps[k].0 + 4), 4);
    assert(ps[0].0 + 4 <= code.len());
    if offs.contains_key(ps[0].1) {
        lemma_le_bytes_len(rel32(offs[ps[0].1] as int, ps[0].0 + 4), 4);
    }
    assert(c1.len() == code.len());
    assert forall|i: int| 0 <= i < rest.len() implies #[trigger] rest[i].0 + 4 <= c1.len() by {
        assert(rest[i] == ps[i + 1]);
    }
    if k == 0 {
        lemma_write_here(code, ps[0].0 as int, le_bytes(rel32(offs[ps[0].1] as int, ps[0].0 + 4), 4));
        assert forall|i: int| 0 <= i < rest.len() implies apart(
            #[trigger] rest[i].0 as int,
            4,
            ps[0].0 as int,
            4,
        ) by {
            assert(rest[i] == ps[i + 1]);
        }
        lemma_patch_all_elsewhere(c1, rest, offs, ps[0].0 as int, 4);
    } else {
        lemma_patch_one_elsewhere(code, ps[0], offs, ps[k].0 as int, 4);
        assert(rest[k - 1] == ps[k]);
        assert forall|i: int| 0 <= i < rest.len() && i != k - 1 implies apart(
            #[trigger] rest[i].0 as int,
            4,
            rest[k - 1].0 as int,
            4,
        ) by {
            assert(rest[i] == ps[i + 1]);
        }
        lemma_patch_all_at(c1, rest, offs, k - 1);
    }
}

/// String patches apart from a range leave it as it was.
proof fn lemma_patch_strings_elsewhere(code: Seq<u8>, ls: Seq<(usize, usize)>, base: int, x: int, n: int)
    requires
        forall|i: int| 0 <= i < ls.len() ==> #[trigger] ls[i].0 + 8 <= code.len(),
        forall|i: int| 0 <= i < ls.len() ==> apart(#[trigger] ls[i].0 as int, 8, x, n),
        0 <= x,
        x + n <= code.len(),
        0 <= n,
    ensures
        patch_strings(code, ls, base).len() == code.len(),
        patch_strings(code, ls, base).subrange(x, x + n) == code.subrange(x, x + n),
    decreases ls.len(),
{
    if ls.len() > 0 {
        let b = le_bytes(base + ls[0].1, 8);
        lemma_le_bytes_len(base + ls[0].1, 8);
        lemma_write_elsewhere(code, ls[0].0 as int, b, x, n);
        let c1 = write_at(code, ls[0].0 as int, b);
        let rest = ls.drop_first();
        assert forall|i: int| 0 <= i < rest.len() implies #[trigger] rest[i].0 + 8 <= c1.len() by {
            assert(rest[i] == ls[i + 1]);
        }
        assert forall|i: int| 0 <= i < rest.len() implies apart(#[trigger] rest[i].0 as int, 8, x, n) by {
            assert(rest[i] == ls[i + 1]);
        }
        lemma_patch_strings_elsewhere(c1, rest, base, x, n);
    }
}

/// A string patch apart from all the others ends up holding its address.
proof fn lemma_patch_strings_at(code: Seq<u8>, ls: Seq<(usize, usize)>, base: int, k: int)
    requires
        forall|i: int| 0 <= i < ls.len() ==> #[trigger] ls[i].0 + 8 <= code.len(),
        0 <= k < ls.len(),
        forall|i: int| 0 <= i < ls.len() && i != k ==> apart(#[trigger] ls[i].0 as int, 8, ls[k].0 as int, 8),
    ensures
        patch_strings(code, ls, base).len() == code.len(),
        patch_strings(code, ls, base).subrange(ls[k].0 as int, ls[k].0 + 8) == le_bytes(base + ls[k].1, 8),
    decreases ls.len(),
{
    let b = le_bytes(base + ls[0].1, 8);
    lemma_le_bytes_len(base + ls[0].1, 8);
    lemma_le_bytes_len(base + ls[k].1, 8);
    let c1 = write_at(code, ls[0].0 as int, b);
    let rest = ls.drop_first();
    assert(ls[0].0 + 8 <= code.len());
    assert forall|i: int| 0 <= i < rest.len() implies #[trigger] rest[i].0 + 8 <= c1.len() by {
        assert(rest[i] == ls[i + 1]);
    }
    if k == 0 {
        lemma_write_here(code, ls[0].0 as int, b);
        assert forall|i: int| 0 <= i < rest.len() implies apart(#[trigger] rest[i].0 as int, 8, ls[0].0 as int, 8) by {
            assert(rest[i] == ls[i + 1]);
        }
        lemma_patch_strings_elsewhere(c1, rest, base, ls[0].0 as int, 8);
    } else {
        lemma_write_elsewhere(code, ls[0].0 as int, b, ls[k].0 as int, 8);
        assert(rest[k - 1] == ls[k]);
        assert forall|i: int| 0 <= i < rest.len() && i != k - 1 implies apart(
            #[trigger] rest[i].0 as int,
            8,
            rest[k - 1].0 as int,
            8,
        ) by {
            assert(rest[i] == ls[i + 1]);
        }
        lemma_patch_strings_at(c1, rest, base, k - 1);
    }
}

/// The code with the entry jump fixed has the length of the code.
proof fn lemma_with_entry_len(s: JitState)
    requires
        slots_in_range(s),
    ensures
        with_entry(s).len() == s.code.len(),
{
    if let Some(e) = s.entry {
        lemma_le_bytes_len(rel32(entry_target(s, e as int), e + 4), 4);
    }
}

/// Linking leaves every call whose workstation is known holding the displacement
/// that lands on that workstation.
pub proof fn lemma_linked_call(s: JitState, data_base: int, k: int)
    requires
        slots_in_range(s),
        slots_apart(s),
        0 <= k < s.calls.len(),
        s.offsets.contains_key(s.calls[k].1),
    ensures
        linked_code(s, data_base).len() == s.code.len(),
        linked_code(s, data_base).subrange(s.calls[k].0 as int, s.calls[k].0 + 4) == le_bytes(
            rel32(s.offsets[s.calls[k].1] as int, s.calls[k].0 + 4),
            4,
        ),
{
    let x = s.calls[k].0 as int;
    lemma_with_entry_len(s);
    let c0 = with_entry(s);
    lemma_patch_all_at(c0, s.calls, s.offsets, k);
    let c1 = patch_all(c0, s.calls, s.offsets);
    assert forall|i: int| 0 <= i < s.jumps.len() implies apart(#[trigger] s.jumps[i].0 as int, 4, x, 4) by {
        assert(apart(s.calls[k].0 as int, 4, s.jumps[i].0 as int, 4));
    }
    lemma_patch_all_elsewhere(c1, s.jumps, s.offsets, x, 4);
    let c2 = patch_all(c1, s.jumps, s.offsets);
    assert forall|i: int| 0 <= i < s.strings.len() implies apart(#[trigger] s.strings[i].0 as int, 8, x, 4) by {
        assert(apart(s.calls[k].0 as int, 4, s.strings[i].0 as int, 8));
    }
    lemma_patch_strings_elsewhere(c2, s.strings, data_base, x, 4);
}

/// Linking leaves every jump whose workstation is known holding the displacement
/// that lands on that workstation.
pub proof fn lemma_linked_jump(s: JitState, data_base: int, k: int)
    requires
        slots_in_range(s),
        slots_apart(s),
        0 <= k < s.jumps.len(),
        s.offsets.contains_key(s.jumps[k].1),
    ensures
        linked_code(s, data_base).len() == s.code.len(),
        linked_code(s, data_base).subrange(s.jumps[k].0 as int, s.jumps[k].0 + 4) == le_bytes(
            rel32(s.offsets[s.jumps[k].1] as int, s.jumps[k].0 + 4),
            4,
        ),
{
    let x = s.jumps[k].0 as int;
    lemma_with_entry_len(s);
    let c0 = with_entry(s);
    assert forall|i: int| 0 <= i < s.calls.len() implies apart(#[trigger] s.calls[i].0 as int, 4, x, 4) by {
        assert(apart(s.calls[i].0 as int, 4, s.jumps[k].0 as int, 4));
    }
    lemma_patch_all_elsewhere(c0, s.calls, s.offsets, x, 4);
    let c1 = patch_all(c0, s.calls, s.offsets);
    lemma_patch_all_at(c1, s.jumps, s.offsets, k);
    let c2 = patch_all(c1, s.jumps, s.offsets);
    assert forall|i: int| 0 <= i < s.strings.len() implies apart(#[trigger] s.strings[i].0 as int, 8, x, 4) by {
        assert(apart(s.jumps[k].0 as int, 4, s.strings[i].0 as int, 8));
    }
    lemma_patch_strings_elsewhere(c2, s.strings, data_base, x, 4);
}

/// Linking leaves every string load holding the absolute address of its string,
/// the data being placed right after the code at `data_base`.
pub proof fn lemma_linked_string(s: JitState, data_base: int, k: int)
    requires
        slots_in_range(s),
        slots_apart(s),
        0 <= k < s.strings.len(),
    ensures
        linked_code(s, data_base).len() == s.code.len(),
        linked_code(s, data_base).subrange(s.strings[k].0 as int, s.strings[k].0 + 8) == le_bytes(
            data_base + s.strings[k].1,
            8,
        ),
{
    let x = s.strings[k].0 as int;
    lemma_with_entry_len(s);
    let c0 = with_entry(s);
    assert forall|i: int| 0 <= i < s.calls.len() implies apart(#[trigger] s.calls[i].0 as int, 4, x, 8) by {
        assert(apart(s.calls[i].0 as int, 4, s.strings[k].0 as int, 8));
    }
    lemma_patch_all_elsewhere(c0, s.calls, s.offsets, x, 8);
    let c1 = patch_all(c0, s.calls, s.offsets);
    assert forall|i: int| 0 <= i < s.jumps.len() implies apart(#[trigger] s.jumps[i].0 as int, 4, x, 8) by {
        assert(apart(s.jumps[i].0 as int, 4, s.strings[k].0 as int, 8));
    }
    lemma_patch_all_elsewhere(c1, s.jumps, s.offsets, x, 8);
    let c2 = patch_all(c1, s.jumps, s.offsets);
    lemma_patch_strings_at(c2, s.strings, data_base, k);
}

/// Linking leaves the entry jump holding the displacement to `main` (or to the
/// next instruction when there is no `main`).
pub proof fn lemma_linked_entry(s: JitState, data_base: int)
    requires
        slots_in_range(s),
        slots_apart(s),
        s.entry is Some,
    ensures
        linked_code(s, data_base).len() == s.code.len(),
        linked_code(s, data_base).subrange(s.entry->0 as int, s.entry->0 + 4) == le_bytes(
            rel32(entry_target(s, s.entry->0 as int), s.entry->0 + 4),
            4,
        ),
{
    let e = s.entry->0 as int;
    let b = le_bytes(rel32(entry_target(s, e), e + 4), 4);
    lemma_le_bytes_len(rel32(entry_target(s, e), e + 4), 4);
    lemma_write_here(s.code, e, b);
    let c0 = with_entry(s);
    assert forall|i: int| 0 <= i < s.calls.len() implies apart(#[trigger] s.calls[i].0 as int, 4, e, 4) by {
        assert(apart(e, 4, s.calls[i].0 as int, 4));
    }
    lemma_patch_all_elsewhere(c0, s.calls, s.offsets, e, 4);
    let c1 = patch_all(c0, s.calls, s.offsets);
    assert forall|i: int| 0 <= i < s.jumps.len() implies apart(#[trigger] s.jumps[i].0 as int, 4, e, 4) by {
        assert(apart(e, 4, s.jumps[i].0 as int, 4));
    }
    lemma_patch_all_elsewhere(c1, s.jumps, s.offsets, e, 4);
    let c2 = patch_all(c1, s.jumps, s.offsets);
    assert forall|i: int| 0 <= i < s.strings.len() implies apart(#[trigger] s.strings[i].0 as int, 8, e, 4) by {
        assert(apart(e, 4, s.strings[i].0 as int, 8));
    }
    lemma_patch_strings_elsewhere(c2, s.strings, data_base, e, 4);
}

// ---------------------------------------------------------------------------
// Inline conditions, storeroom slots, mapping sizes
// ---------------------------------------------------------------------------

/// The jump that skips the instruction of an inline condition lands right after
/// that instruction's code: it is the negated condition's jump, and its
/// displacement, counted from its end, spans exactly the instruction's code,
/// which follows it unchanged.
pub proof fn lemma_inline_skip(
    s: JitState,
    tray: usize,
    op: ConditionOp,
    target_val: OperandModel,
    then_inst: InstrModel,
)
    ensures
        ({
            let s1 = emit(s, compare_bytes(x86_reg(tray), target_val));
            let skip = s1.code.len() as int + 2;
            let s2 = emit(s1, seq![0x0fu8, skip_opcode(op), 0, 0, 0, 0]);
            let t = compile_step(s2, then_inst);
            let r = compile_step(
                s,
                InstrModel::InlineIf { tray, op, target_val, then_inst: Box::new(then_inst) },
            );
            &&& r.code.len() == t.code.len()
            &&& r.code.subrange(0, skip) == s1.code + seq![0x0fu8, skip_opcode(op)]
            &&& r.code.subrange(skip, skip + 4) == le_bytes(rel32(r.code.len() as int, skip + 4), 4)
            &&& r.code.subrange(skip + 4, r.code.len() as int) == t.code.subrange(
                skip + 4,
                t.code.len() as int,
            )
        }),
{
    let s1 = emit(s, compare_bytes(x86_reg(tray), target_val));
    let skip = s1.code.len() as int + 2;
    let s2 = emit(s1, seq![0x0fu8, skip_opcode(op), 0, 0, 0, 0]);
    let t = compile_step(s2, then_inst);
    lemma_compile_appends(s2, then_inst);
    let b = le_bytes(rel32(t.code.len() as int, skip + 4), 4);
    lemma_le_bytes_len(rel32(t.code.len() as int, skip + 4), 4);
    let w = write_at(t.code, skip, b);
    lemma_write_here(t.code, skip, b);
    lemma_write_elsewhere(t.code, skip, b, 0, skip);
    lemma_write_elsewhere(t.code, skip, b, skip + 4, t.code.len() - skip - 4);
    assert(t.code.subrange(0, skip) =~= s2.code.subrange(0, s2.code.len() as int).subrange(0, skip));
    assert(s2.code.subrange(0, skip) =~= s1.code + seq![0x0fu8, skip_opcode(op)]);
}

/// A store to a fixed storeroom slot and a load from it address the same cell:
/// their encodings differ in the opcode byte alone.
pub proof fn lemma_store_load_same_slot(r: u8, n: usize)
    ensures
        storeroom_bytes(0x89, r, StoreroomOffset::Fixed(n)).len() == 7,
        storeroom_bytes(0x8b, r, StoreroomOffset::Fixed(n)) == storeroom_bytes(
            0x89,
            r,
            StoreroomOffset::Fixed(n),
        ).update(1, 0x8b),
{
    reveal(storeroom_bytes);
    lemma_le_bytes_len(neg_disp(n), 4);
    assert(storeroom_bytes(0x8b, r, StoreroomOffset::Fixed(n)) =~= storeroom_bytes(
        0x89,
        r,
        StoreroomOffset::Fixed(n),
    ).update(1, 0x8b));
}

/// The value of little-endian bytes.
pub open spec fn le_value(b: Seq<u8>) -> int
    decreases b.len(),
{
    if b.len() == 0 {
        0
    } else {
        b[0] + 256 * le_value(b.drop_first())
    }
}

/// `n` little-endian bytes give back any value below `256^n`.
proof fn lemma_le_bytes_value(v: int, n: nat)
    requires
        0 <= v < pow256(n),
    ensures
        le_value(le_bytes(v, n)) == v,
    decreases n,
{
    if n > 0 {
        assert(pow256(n) == 256 * pow256((n - 1) as nat));
        assert(v / 256 < pow256((n - 1) as nat)) by (nonlinear_arith)
            requires
                0 <= v < 256 * pow256((n - 1) as nat),
        ;
        lemma_le_bytes_value(v / 256, (n - 1) as nat);
        assert(le_bytes(v, n).drop_first() =~= le_bytes(v / 256, (n - 1) as nat));
        assert(((v % 256) as u8) as int == v % 256);
    }
}

/// `256^n`.
pub open spec fn pow256(n: nat) -> int
    decreases n,
{
    if n == 0 {
        1
    } else {
        256 * pow256((n - 1) as nat)
    }
}

/// Two different storeroom slots below `2^28` lie in different cells: their
/// displacements differ.
pub proof fn lemma_slots_apart(a: usize, b: usize)
    requires
        a != b,
        a < 0x1000_0000,
        b < 0x1000_0000,
    ensures
        le_bytes(neg_disp(a), 4) != le_bytes(neg_disp(b), 4),
{
    assert(pow256(4) == 0x1_0000_0000) by {
        reveal_with_fuel(pow256, 5);
    }
    assert(neg_disp(a) == 0x1_0000_0000 - (a + 1) * 8);
    assert(neg_disp(b) == 0x1_0000_0000 - (b + 1) * 8);
    lemma_le_bytes_value(neg_disp(a), 4);
    lemma_le_bytes_value(neg_disp(b), 4);
}

/// The executable mapping is the fewest whole 4096-byte pages that hold `n`
/// bytes, and at least one page.
pub proof fn lemma_mapping_size(n: int)
    requires
        n >= 0,
    ensures
        mapping_size(n) % 4096 == 0,
        mapping_size(n) >= n,
        mapping_size(n) >= 4096,
        mapping_size(n) - 4096 < n || mapping_size(n) == 4096,
{
    let t = ((n + 4095) / 4096) * 4096;
    assert(t % 4096 == 0 && t >= n && t - 4096 < n) by (nonlinear_arith)
        requires
            n >= 0,
            t == ((n + 4095) / 4096) * 4096,
    ;
}

/// Linking changes no byte of the code outside the entry jump's displacement and
/// the places still to be filled in.
pub proof fn lemma_linked_elsewhere(s: JitState, data_base: int, x: int, n: int)
    requires
        slots_in_range(s),
        0 <= x,
        0 <= n,
        x + n <= s.code.len(),
        s.entry matches Some(e) ==> apart(e as int, 4, x, n),
        forall|i: int| 0 <= i < s.calls.len() ==> apart(#[trigger] s.calls[i].0 as int, 4, x, n),
        forall|i: int| 0 <= i < s.jumps.len() ==> apart(#[trigger] s.jumps[i].0 as int, 4, x, n),
        forall|i: int| 0 <= i < s.strings.len() ==> apart(#[trigger] s.strings[i].0 as int, 8, x, n),
    ensures
        linked_code(s, data_base).len() == s.code.len(),
        linked_code(s, data_base).subrange(x, x + n) == s.code.subrange(x, x + n),
{
    lemma_with_entry_len(s);
    let c0 = with_entry(s);
    if let Some(e) = s.entry {
        let b = le_bytes(rel32(entry_target(s, e as int), e + 4), 4);
        lemma_le_bytes_len(rel32(entry_target(s, e as int), e + 4), 4);
        lemma_write_elsewhere(s.code, e as int, b, x, n);
    }
    lemma_patch_all_elsewhere(c0, s.calls, s.offsets, x, n);
    let c1 = patch_all(c0, s.calls, s.offsets);
    lemma_patch_all_elsewhere(c1, s.jumps, s.offsets, x, n);
    let c2 = patch_all(c1, s.jumps, s.offsets);
    lemma_patch_strings_elsewhere(c2, s.strings, data_base, x, n);
}

/// The bytes `le_bytes(v, n)`.
fn le_vec(v: u64, n: u8) -> (r: Vec<u8>)
    ensures
        r@ == le_bytes(v as int, n as nat),
    decreases n,
{
    if n == 0 {
        Vec::new()
    } else {
        let mut r: Vec<u8> = Vec::new();
        r.push((v % 256) as u8);
        let mut rest = le_vec(v / 256, n - 1);
        r.append(&mut rest);
        assert(r@ =~= le_bytes(v as int, n as nat));
        r
    }
}

/// Whether `s` holds exactly the characters of `name`.
fn is_named(s: &String, name: &str) -> (r: bool)
    ensures
        r == (s@ == name@),
{
    eq_str(&chars_of(s.as_str()), name)
}

/// The label of the shared exit code.
fn exit_label() -> (r: String)
    ensures
        r@ == exit_name(),
{
    string_from_chars(&chars_of("__fal_exit"))
}

impl DynamicJitEngine {
    /// Overwrites the code at `off` with `b`.
    fn write_bytes(&mut self, off: usize, b: &Vec<u8>)
        requires
            off + b@.len() <= old(self)@.code.len(),
        ensures
            final(self)@ == (JitState {
                code: write_at(old(self)@.code, off as int, b@),
                ..old(self)@
            }),
    {
        let n = self.code.len();
        let mut i: usize = 0;
        while i < b.len()
            invariant
                n == old(self)@.code.len(),
                off + b@.len() <= n,
                i <= b@.len(),
                self.code@ == write_at(
                    old(self)@.code,
                    off as int,
                    b@.subrange(0, i as int),
                ),
                self@ == (JitState { code: self.code@, ..old(self)@ }),
            decreases b@.len() - i,
        {
            self.code.set(off + i, b[i]);
            i = i + 1;
            assert(self.code@ =~= write_at(old(self)@.code, off as int, b@.subrange(0, i as int)));
        }
        assert(b@.subrange(0, b@.len() as int) =~= b@);
    }

    /// Appends a jump to `target` with opcode bytes `opcode`, its displacement left open.
    fn add_jump(&mut self, opcode: &Vec<u8>, target: String)
        ensures
            final(self)@ == pending_jump(old(self)@, opcode@, target@),
    {
        proof {
            reveal(pending_jump);
        }
        self.emit(opcode.as_slice());
        let code_offset = self.code.len();
        self.emit(&[0x00, 0x00, 0x00, 0x00]);
        self.pending_jumps.push(PendingPatch { code_offset, target });
        assert(self@.jumps =~= old(self)@.jumps.push((code_offset, target@)));
        assert(self@.code =~= old(self)@.code + opcode@ + seq![0u8, 0, 0, 0]);
    }

    /// Appends a call of `target`, its displacement left open.
    fn add_call(&mut self, target: String)
        ensures
            final(self)@ == pending_call(old(self)@, target@),
    {
        proof {
            reveal(pending_call);
        }
        self.emit(&[0xe8]);
        let code_offset = self.code.len();
        self.emit(&[0x00, 0x00, 0x00, 0x00]);
        self.pending_calls.push(PendingPatch { code_offset, target });
        assert(self@.calls =~= old(self)@.calls.push((code_offset, target@)));
        assert(self@.code =~= old(self)@.code + seq![0xe8u8, 0, 0, 0, 0]);
    }

    /// Leaves the current workstation: `main` jumps to the exit code, others return.
    fn leave_workstation(&mut self)
        ensures
            final(self)@ == leave_workstation(old(self)@),
    {
        proof {
            reveal(leave_workstation);
        }
        let is_main = match &self.current_workstation {
            Some(p) => is_named(p, "main"),
            None => false,
        };
        assert(is_main == (self@.current == Some(main_name())));
        let ghost o = self@;
        if is_main {
            {
                let op = vec![0xe9];
                assert(op@ =~= seq![0xe9u8]);
                self.add_jump(&op, exit_label());
            };
        } else {
            self.emit(&[0xc3]);
            assert(self@.code =~= o.code + seq![0xc3u8]);
        }
    }

    /// Appends `b` to the data section.
    fn add_data(&mut self, b: &[u8])
        ensures
            final(self)@ == (JitState { data: old(self)@.data + b@, ..old(self)@ }),
    {
        let mut i: usize = 0;
        let ghost start = self.data_section@;
        while i < b.len()
            invariant
                i <= b@.len(),
                self.data_section@ == start + b@.subrange(0, i as int),
                self@ == (JitState { data: self.data_section@, ..old(self)@ }),
                start == old(self)@.data,
            decreases b@.len() - i,
        {
            self.data_section.push(b[i]);
            i = i + 1;
            assert(self.data_section@ =~= start + b@.subrange(0, i as int));
        }
        assert(b@.subrange(0, b@.len() as int) =~= b@);
    }

    /// Records a string load whose immediate is at `imm_offset` and whose string
    /// starts at `data_offset`.
    fn add_string_load(&mut self, imm_offset: usize, data_offset: usize)
        ensures
            final(self)@ == (JitState {
                strings: old(self)@.strings.push((imm_offset, data_offset)),
                ..old(self)@
            }),
    {
        self.pending_string_loads.push(PendingStringLoad { imm_offset, data_offset });
        assert(self@.strings =~= old(self)@.strings.push((imm_offset, data_offset)));
    }

    fn emit_compare(&mut self, reg_a: u8, val_b: &Operand)
        requires
            reg_a < 16,
        ensures
            final(self)@ == emit(old(self)@, compare_bytes(reg_a, val_b@)),
    {
        proof {
            reveal(compare_bytes);
        }
        match val_b {
            Operand::Tray(t) => {
                let reg_b = self.mapper.resolve_x86_reg_id(*t);
                self.emit_compare_reg_reg(reg_a, reg_b);
            },
            Operand::Number(n) => self.emit_compare_reg_imm(reg_a, imm_of_i64(*n)),
            Operand::Char(c) => self.emit_compare_reg_imm(reg_a, *c as u32 as u64),
            Operand::StringLit(_) => {
                assert(old(self)@.code + seq![] =~= old(self)@.code);
            },
        }
    }

    fn emit_arith(&mut self, op: AluOp, dst_reg: u8, src: &Operand)
        requires
            dst_reg < 16,
            !(op is Compare),
        ensures
            final(self)@ == emit(old(self)@, arith_bytes(op, dst_reg, src@)),
    {
        proof {
            reveal(arith_bytes);
        }
        match src {
            Operand::Tray(t) => {
                let src_reg = self.mapper.resolve_x86_reg_id(*t);
                match op {
                    AluOp::Add => self.emit_add_reg_reg(dst_reg, src_reg),
                    _ => self.emit_sub_reg_reg(dst_reg, src_reg),
                }
            },
            Operand::Number(n) => match op {
                AluOp::Add => self.emit_add_reg_imm(dst_reg, imm_of_i64(*n)),
                _ => self.emit_sub_reg_imm(dst_reg, imm_of_i64(*n)),
            },
            Operand::Char(c) => match op {
                AluOp::Add => self.emit_add_reg_imm(dst_reg, *c as u32 as u64),
                _ => self.emit_sub_reg_imm(dst_reg, *c as u32 as u64),
            },
            Operand::StringLit(_) => {
                assert(old(self)@.code + seq![] =~= old(self)@.code);
            },
        }
    }

    fn emit_multiply(&mut self, dst_reg: u8, src: &Operand)
        requires
            dst_reg < 16,
        ensures
            final(self)@ == emit(old(self)@, multiply_bytes(dst_reg, src@)),
    {
        proof {
            reveal(multiply_bytes);
        }
        match src {
            Operand::Tray(t) => {
                let src_reg = self.mapper.resolve_x86_reg_id(*t);
                self.emit_imul_reg_reg(dst_reg, src_reg);
            },
            Operand::Number(n) => self.emit_imul_reg_imm(dst_reg, imm_of_i64(*n)),
            Operand::Char(c) => self.emit_imul_reg_imm(dst_reg, *c as u32 as u64),
            Operand::StringLit(_) => {
                assert(old(self)@.code + seq![] =~= old(self)@.code);
            },
        }
    }

    fn emit_division(&mut self, dst_reg: u8, src: &Operand, rem: bool)
        requires
            dst_reg < 16,
        ensures
            final(self)@ == emit(old(self)@, division_bytes(dst_reg, src@, rem)),
    {
        proof {
            reveal(division_bytes);
        }
        match src {
            Operand::Tray(t) => {
                let src_reg = self.mapper.resolve_x86_reg_id(*t);
                self.emit(&[0x52, 0x50]);
                self.emit_push(src_reg);
                self.emit_div_tail(dst_reg, rem);
                assert(self@.code =~= old(self)@.code + division_bytes(dst_reg, src@, rem));
            },
            Operand::StringLit(_) => {
                assert(old(self)@.code + seq![] =~= old(self)@.code);
            },
            _ => {
                let v: u64 = match src {
                    Operand::Number(n) => imm_of_i64(*n),
                    Operand::Char(c) => *c as u32 as u64,
                    _ => 0,
                };
                assert(v as int == operand_imm(src@));
                self.emit(&[0x52, 0x50]);
                self.emit_mov_reg_imm64(0, v);
                self.emit(&[0x50, 0x48, 0x8b, 0x44, 0x24, 0x08]);
                self.emit_div_tail(dst_reg, rem);
                assert(self@.code =~= old(self)@.code + division_bytes(dst_reg, src@, rem));
            },
        }
    }

    fn emit_storeroom(&mut self, opcode: u8, reg_id: u8, offset: &StoreroomOffset)
        requires
            reg_id < 16,
            storeroom_ok(*offset),
        ensures
            final(self)@ == emit(old(self)@, storeroom_bytes(opcode, reg_id, *offset)),
    {
        proof {
            reveal(storeroom_bytes);
        }
        match offset {
            StoreroomOffset::Fixed(n) => {
                let disp: usize = (*n + 1) * 8;
                let low: u64 = (disp as u64) % 0x1_0000_0000;
                let neg: u64 = if low == 0 {
                    0
                } else {
                    0x1_0000_0000 - low
                };
                assert(neg as int == neg_disp(*n)) by {
                    assert(neg_disp(*n) == (0 - disp) % 0x1_0000_0000);
                }
                let rex: u8 = if reg_id >= 8 {
                    0x4c
                } else {
                    0x48
                };
                self.emit(&[rex, opcode, 0x85 + (reg_id % 8) * 8]);
                self.emit_le(neg, 4);
                assert(self@.code =~= old(self)@.code + storeroom_bytes(opcode, reg_id, *offset));
            },
            StoreroomOffset::Dynamic(k) => {
                let x = scratch_for(reg_id);
                let kreg = self.mapper.resolve_x86_reg_id(*k);
                self.emit_push(x);
                self.emit_mov_reg_reg(x, kreg);
                let rexx: u8 = if x >= 8 {
                    0x49
                } else {
                    0x48
                };
                let rexm: u8 = 0x48 + (if reg_id >= 8 {
                    4
                } else {
                    0
                }) + (if x >= 8 {
                    2
                } else {
                    0
                });
                self.emit(
                    &[
                        rexx,
                        0xf7,
                        0xd8 + x % 8,
                        rexm,
                        opcode,
                        0x44 + (reg_id % 8) * 8,
                        0xc0 + (x % 8) * 8 + 5,
                        0xf8,
                    ],
                );
                self.emit_pop(x);
                assert(self@.code =~= old(self)@.code + storeroom_bytes(opcode, reg_id, *offset));
            },
        }
    }

    fn say_tray(&mut self, reg_id: u8)
        requires
            reg_id < 16,
        ensures
            final(self)@ == say_tray(old(self)@, reg_id),
    {
        proof {
            reveal(say_tray);
        }
        self.emit_preserve_registers();
        self.emit_mov_reg_reg(6, reg_id);
        self.emit(
            &[
                0x48, 0x89, 0xf7, 0x30, 0xc0, 0x48, 0xc7, 0xc1, 0x00, 0x04, 0x00, 0x00, 0xf2, 0xae,
                0x48, 0x29, 0xf7, 0x48, 0xff, 0xcf, 0x48, 0x89, 0xfa, 0x48, 0xc7, 0xc0, 0x01, 0x00,
                0x00, 0x00, 0x48, 0xc7, 0xc7, 0x01, 0x00, 0x00, 0x00, 0x0f, 0x05,
            ],
        );
        let nl_offset = self.data_section.len();
        self.add_data(&[0x0a]);
        self.emit(
            &[
                0x48, 0xc7, 0xc0, 0x01, 0x00, 0x00, 0x00, 0x48, 0xc7, 0xc7, 0x01, 0x00, 0x00, 0x00,
                0x48, 0xbe,
            ],
        );
        let imm_offset = self.code.len();
        self.emit(&[0x00, 0x00, 0x00, 0x00, 0x00, 0x00, 0x00, 0x00]);
        self.add_string_load(imm_offset, nl_offset);
        self.emit(&[0x48, 0xc7, 0xc2, 0x01, 0x00, 0x00, 0x00, 0x0f, 0x05]);
        self.emit_restore_registers();
        proof {
            let o = old(self)@;
            let head = preserve_bytes() + mov_rr(6, reg_id) + say_scan_bytes() + newline_head();
            assert(self@.code =~= o.code + head + zeros8() + newline_tail() + restore_bytes());
            assert(self@.data =~= o.data.push(10u8));
            assert(imm_offset == o.code.len() + head.len());
        }
    }

    fn say_literal(&mut self, text: &String)
        ensures
            final(self)@ == say_literal(old(self)@, text@),
    {
        proof {
            reveal(say_literal);
        }
        let data_offset = self.data_section.len();
        let bytes = text.as_str().as_bytes();
        self.add_data(bytes);
        self.add_data(&[0x0a]);
        let len: u64 = (bytes.len() as u64).wrapping_add(1);
        proof {
            lemma_length_immediate(bytes@.len());
        }
        self.emit_preserve_registers();
        self.emit_mov_reg_imm64(0, 1);
        self.emit_mov_reg_imm64(7, 1);
        self.emit(&[0x48, 0xbe]);
        let imm_offset = self.code.len();
        self.emit(&[0x00, 0x00, 0x00, 0x00, 0x00, 0x00, 0x00, 0x00]);
        self.add_string_load(imm_offset, data_offset);
        self.emit_mov_reg_imm64(2, len);
        self.emit(&[0x0f, 0x05]);
        self.emit_restore_registers();
        proof {
            let o = old(self)@;
            let b = encode_utf8(text@) + seq![10u8];
            let head = preserve_bytes() + mov_imm64(0, 1) + mov_imm64(7, 1) + seq![0x48u8, 0xbe];
            assert(self@.data =~= o.data + b);
            assert(self@.code =~= o.code + head + zeros8() + mov_imm64(2, b.len() as int) + seq![
                0x0fu8,
                0x05,
            ] + restore_bytes());
            assert(imm_offset == o.code.len() + head.len());
        }
    }

    fn load_string(&mut self, reg_id: u8, text: &String)
        requires
            reg_id < 16,
        ensures
            final(self)@ == load_string(old(self)@, reg_id, text@),
    {
        proof {
            reveal(load_string);
        }
        let data_offset = self.data_section.len();
        self.add_data(text.as_str().as_bytes());
        self.add_data(&[0x00]);
        let rex: u8 = if reg_id >= 8 {
            0x49
        } else {
            0x48
        };
        self.emit(&[rex, 0xb8 + (reg_id % 8)]);
        let imm_offset = self.code.len();
        self.emit(&[0x00, 0x00, 0x00, 0x00, 0x00, 0x00, 0x00, 0x00]);
        self.add_string_load(imm_offset, data_offset);
        proof {
            let o = old(self)@;
            assert(self@.data =~= o.data + encode_utf8(text@) + seq![0u8]);
            assert(self@.code =~= o.code + seq![rex_b(reg_id), (0xb8 + reg_id % 8) as u8] + zeros8());
        }
    }

    /// Compiles a workstation boundary, jump, call, return or supervisor call.
    fn compile_flow(&mut self, inst: &Instruction)
        requires
            compiles(inst@),
            inst@ is Workstation || inst@ is EndWorkstation || inst@ is Jump || inst@ is JumpIfEqual || inst@ is JumpIfNotEqual || inst@ is JumpIfGreater || inst@ is JumpIfLess || inst@ is Call || inst@ is Return || inst@ is CallSupervisor,
        ensures
            final(self)@ == compile_step(old(self)@, inst@),
    {
        match inst {
            Instruction::Workstation { name } => {
                if self.current_workstation.is_some() {
                    self.leave_workstation();
                }
                let ghost s0 = self@;
                self.current_workstation = Some(name.clone());
                let off = self.code.len();
                let ghost before = label_view(self.workstation_offsets@);
                let ghost s1 = self@;
                self.workstation_offsets.push((name.clone(), off));
                assert(label_view(self.workstation_offsets@).drop_last() =~= before);
                assert(label_view(self.workstation_offsets@).last() == (name@, off));
                assert(self@.offsets =~= s0.offsets.insert(name@, off));
            },
            Instruction::EndWorkstation => {
                self.leave_workstation();
                self.current_workstation = None;
            },
            Instruction::Jump { target } => {
                let op = vec![0xe9];
                assert(op@ =~= seq![0xe9u8]);
                self.add_jump(&op, target.clone());
            },
            Instruction::JumpIfEqual { target } => {
                let op = vec![0x0f, 0x84];
                assert(op@ =~= seq![0x0fu8, 0x84]);
                self.add_jump(&op, target.clone());
            },
            Instruction::JumpIfNotEqual { target } => {
                let op = vec![0x0f, 0x85];
                assert(op@ =~= seq![0x0fu8, 0x85]);
                self.add_jump(&op, target.clone());
            },
            Instruction::JumpIfGreater { target } => {
                let op = vec![0x0f, 0x8f];
                assert(op@ =~= seq![0x0fu8, 0x8f]);
                self.add_jump(&op, target.clone());
            },
            Instruction::JumpIfLess { target } => {
                let op = vec![0x0f, 0x8c];
                assert(op@ =~= seq![0x0fu8, 0x8c]);
                self.add_jump(&op, target.clone());
            },
            Instruction::Call { workstation } => self.add_call(workstation.clone()),
            Instruction::Return { tray } => {
                if let Some(t) = tray {
                    let ret_reg = self.mapper.resolve_x86_reg_id(*t);
                    if ret_reg != 0 {
                        self.emit_mov_reg_reg(0, ret_reg);
                    }
                }
                let ghost s1 = self@;
                self.emit(&[0xc3]);
                assert(self@.code =~= s1.code + seq![0xc3u8]);
            },
            Instruction::CallSupervisor { action, tray } => {
                if is_named(action, "exit") {
                    let op = vec![0xe9];
                    assert(op@ =~= seq![0xe9u8]);
                    self.add_jump(&op, exit_label());
                } else if is_named(action, "print") {
                    if let Some(t) = tray {
                        let reg_id = self.mapper.resolve_x86_reg_id(*t);
                        self.say_tray(reg_id);
                    }
                }
            },

            _ => {},
        }
    }

    /// Compiles an assignment, a storeroom access or an output instruction.
    fn compile_data(&mut self, inst: &Instruction)
        requires
            compiles(inst@),
            inst@ is Fill || inst@ is AssignChar || inst@ is AssignString || inst@ is Move || inst@ is Clear || inst@ is Store || inst@ is Load || inst@ is SayLiteral || inst@ is SayTray,
        ensures
            final(self)@ == compile_step(old(self)@, inst@),
    {
        match inst {
            Instruction::Fill { val, tray } => {
                let reg_id = self.mapper.resolve_x86_reg_id(*tray);
                self.emit_mov_reg_imm64(reg_id, imm_of_i64(*val));
            },
            Instruction::AssignChar { val, tray } => {
                let reg_id = self.mapper.resolve_x86_reg_id(*tray);
                self.emit_mov_reg_imm64(reg_id, *val as u32 as u64);
            },
            Instruction::AssignString { text, tray } => {
                let reg_id = self.mapper.resolve_x86_reg_id(*tray);
                self.load_string(reg_id, text);
            },
            Instruction::Move { src_tray, dst_tray } => {
                let src_reg = self.mapper.resolve_x86_reg_id(*src_tray);
                let dst_reg = self.mapper.resolve_x86_reg_id(*dst_tray);
                self.emit_mov_reg_reg(dst_reg, src_reg);
            },
            Instruction::Clear { tray } => {
                let reg_id = self.mapper.resolve_x86_reg_id(*tray);
                self.emit_mov_reg_imm64(reg_id, 0);
            },
            Instruction::Store { tray, offset } => {
                let reg_id = self.mapper.resolve_x86_reg_id(*tray);
                self.emit_storeroom(0x89, reg_id, offset);
            },
            Instruction::Load { offset, tray } => {
                let reg_id = self.mapper.resolve_x86_reg_id(*tray);
                self.emit_storeroom(0x8b, reg_id, offset);
            },
            Instruction::SayLiteral { text } => self.say_literal(text),
            Instruction::SayTray { tray } => {
                let reg_id = self.mapper.resolve_x86_reg_id(*tray);
                self.say_tray(reg_id);
            },
            _ => {},
        }
    }

    /// Compiles an arithmetic instruction or a comparison.
    fn compile_math(&mut self, inst: &Instruction)
        requires
            compiles(inst@),
            inst@ is Add || inst@ is Sub || inst@ is Multiply || inst@ is Divide || inst@ is Modulo
                || inst@ is Compare,
        ensures
            final(self)@ == compile_step(old(self)@, inst@),
    {
        match inst {
            Instruction::Add { src, dst_tray } => {
                let dst_reg = self.mapper.resolve_x86_reg_id(*dst_tray);
                self.emit_arith(AluOp::Add, dst_reg, src);
            },
            Instruction::Sub { src, dst_tray } => {
                let dst_reg = self.mapper.resolve_x86_reg_id(*dst_tray);
                self.emit_arith(AluOp::Sub, dst_reg, src);
            },
            Instruction::Multiply { src, dst_tray } => {
                let dst_reg = self.mapper.resolve_x86_reg_id(*dst_tray);
                self.emit_multiply(dst_reg, src);
            },
            Instruction::Divide { src, dst_tray } => {
                let dst_reg = self.mapper.resolve_x86_reg_id(*dst_tray);
                self.emit_division(dst_reg, src, false);
            },
            Instruction::Modulo { src, dst_tray } => {
                let dst_reg = self.mapper.resolve_x86_reg_id(*dst_tray);
                self.emit_division(dst_reg, src, true);
            },
            Instruction::Compare { tray_a, val_b } => {
                let reg_a = self.mapper.resolve_x86_reg_id(*tray_a);
                self.emit_compare(reg_a, val_b);
            },
            _ => {},
        }
    }

    /// Emits `input_open`, `body`, then `input_close(r)`.
    fn emit_input(&mut self, body: &[u8], r: u8)
        requires
            r < 16,
        ensures
            final(self)@ == emit(old(self)@, input_open() + body@ + input_close(r)),
    {
        self.emit_input_open();
        self.emit(body);
        self.emit_input_close(r);
        assert(self@.code =~= old(self)@.code + (input_open() + body@ + input_close(r)));
    }

    fn emit_input_open(&mut self)
        ensures
            final(self)@ == emit(old(self)@, input_open()),
    {
        proof {
            reveal(input_open);
        }
        self.emit(&[0x50, 0x51, 0x52, 0x56, 0x57, 0x41, 0x53, 0x41, 0x50, 0x41, 0x51]);
        assert(old(self)@.code + seq![0x50u8, 0x51, 0x52, 0x56, 0x57, 0x41, 0x53, 0x41, 0x50, 0x41, 0x51]
            =~= old(self)@.code + input_open());
    }

    fn emit_input_close(&mut self, r: u8)
        requires
            r < 16,
        ensures
            final(self)@ == emit(old(self)@, input_close(r)),
    {
        let off: u8 = if r == 0 {
            56
        } else if r == 1 {
            48
        } else if r == 2 {
            40
        } else if r == 6 {
            32
        } else if r == 7 {
            24
        } else if r == 11 {
            16
        } else if r == 8 {
            8
        } else if r == 9 {
            0
        } else {
            255
        };
        proof {
            reveal(input_close);
        }
        if off == 255 {
            self.emit_mov_reg_reg(r, 8);
        } else {
            self.emit(&[0x4c, 0x89, 0x44, 0x24, off]);
        }
        self.emit(&[0x41, 0x59, 0x41, 0x58, 0x41, 0x5b, 0x5f, 0x5e, 0x5a, 0x59, 0x58]);
        assert(self@.code =~= old(self)@.code + input_close(r));
    }

    fn emit_say_number(&mut self, r: u8)
        requires
            r < 16,
        ensures
            final(self)@ == emit(old(self)@, say_number_bytes(r)),
    {
        proof {
            reveal(say_number_bytes);
            reveal(number_text_bytes);
        }
        self.emit_preserve_registers();
        self.emit(&[0x41, 0x50]);
        self.emit_mov_reg_reg(0, r);
        let body: &[u8] = &[
            0x48, 0x83, 0xec, 0x20, 0x48, 0x8d, 0x74, 0x24, 0x20, 0x48, 0xff, 0xce, 0xc6, 0x06, 0x0a,
            0x49, 0x89, 0xc0, 0x48, 0x85, 0xc0, 0x79, 0x03, 0x48, 0xf7, 0xd8, 0xb9, 0x0a, 0x00, 0x00,
            0x00, 0x31, 0xd2, 0x48, 0xf7, 0xf1, 0x80, 0xc2, 0x30, 0x48, 0xff, 0xce, 0x88, 0x16, 0x48,
            0x85, 0xc0, 0x75, 0xee, 0x4d, 0x85, 0xc0, 0x79, 0x06, 0x48, 0xff, 0xce, 0xc6, 0x06, 0x2d,
            0x48, 0x8d, 0x54, 0x24, 0x20, 0x48, 0x29, 0xf2, 0xb8, 0x01, 0x00, 0x00, 0x00, 0xbf, 0x01,
            0x00, 0x00, 0x00, 0x0f, 0x05, 0x48, 0x83, 0xc4, 0x20,
        ];
        assert(body@ =~= number_text_bytes());
        self.emit(body);
        self.emit(&[0x41, 0x58]);
        self.emit_restore_registers();
        assert(self@.code =~= old(self)@.code + say_number_bytes(r));
    }

    fn emit_ask_number(&mut self, r: u8)
        requires
            r < 16,
        ensures
            final(self)@ == emit(old(self)@, input_open() + read_number_bytes() + input_close(r)),
    {
        proof {
            reveal(read_number_bytes);
        }
        let body: &[u8] = &[
                        0x48, 0x83, 0xec, 0x10, 0x4d, 0x31, 0xc0, 0x4d, 0x31, 0xc9, 0x31, 0xc0, 0x31,
                        0xff, 0x48, 0x89, 0xe6, 0xba, 0x01, 0x00, 0x00, 0x00, 0x0f, 0x05, 0x48, 0x83,
                        0xf8, 0x01, 0x75, 0x28, 0x0f, 0xb6, 0x0c, 0x24, 0x80, 0xf9, 0x0a, 0x74, 0x1f,
                        0x80, 0xf9, 0x2d, 0x75, 0x09, 0x49, 0xc7, 0xc1, 0x01, 0x00, 0x00, 0x00, 0xeb,
                        0xd5, 0x83, 0xe9, 0x30, 0x83, 0xf9, 0x09, 0x77, 0xcd, 0x4d, 0x6b, 0xc0, 0x0a,
                        0x49, 0x01, 0xc8, 0xeb, 0xc4, 0x4d, 0x85, 0xc9, 0x74, 0x03, 0x49, 0xf7, 0xd8,
                        0x48, 0x83, 0xc4, 0x10,
                    ];
        assert(body@ =~= read_number_bytes());
        self.emit_input(body, r);
    }

    fn emit_ask_char(&mut self, r: u8)
        requires
            r < 16,
        ensures
            final(self)@ == emit(old(self)@, input_open() + read_char_bytes() + input_close(r)),
    {
        proof {
            reveal(read_char_bytes);
        }
        let body: &[u8] = &[
                        0x48, 0x83, 0xec, 0x10, 0x4d, 0x31, 0xc0, 0x31, 0xc0, 0x31, 0xff, 0x48, 0x89,
                        0xe6, 0xba, 0x01, 0x00, 0x00, 0x00, 0x0f, 0x05, 0x48, 0x83, 0xf8, 0x01, 0x75,
                        0x25, 0x44, 0x0f, 0xb6, 0x04, 0x24, 0x41, 0x80, 0xf8, 0x0a, 0x74, 0x1a, 0x31,
                        0xc0, 0x31, 0xff, 0x48, 0x89, 0xe6, 0xba, 0x01, 0x00, 0x00, 0x00, 0x0f, 0x05,
                        0x48, 0x83, 0xf8, 0x01, 0x75, 0x06, 0x80, 0x3c, 0x24, 0x0a, 0x75, 0xe6, 0x48,
                        0x83, 0xc4, 0x10,
                    ];
        assert(body@ =~= read_char_bytes());
        self.emit_input(body, r);
    }

    fn emit_random(&mut self, r: u8, max: &Operand)
        requires
            r < 16,
        ensures
            final(self)@ == emit(old(self)@, random_bytes(r, max@)),
    {
        proof {
            reveal(random_bytes);
            reveal(random_draw_bytes);
        }
        match max {
            Operand::StringLit(_) => {
                assert(old(self)@.code + seq![] =~= old(self)@.code);
            },
            _ => {
                self.emit_input_open();
                match max {
                    Operand::Tray(t) => {
                        let m = self.mapper.resolve_x86_reg_id(*t);
                        self.emit_mov_reg_reg(1, m);
                    },
                    Operand::Number(n) => self.emit_mov_reg_imm64(1, imm_of_i64(*n)),
                    Operand::Char(c) => self.emit_mov_reg_imm64(1, *c as u32 as u64),
                    Operand::StringLit(_) => {},
                }
                self.emit(&[
                                0x48, 0x85, 0xc9, 0x75, 0x05, 0xb9, 0x01, 0x00, 0x00, 0x00, 0x48, 0x0f,
                                0xc7, 0xf0, 0x73, 0xfa, 0x31, 0xd2, 0x48, 0xf7, 0xf1, 0x4c, 0x8d, 0x42,
                                0x01,
                            ]);
                self.emit_input_close(r);
                assert(self@.code =~= old(self)@.code + random_bytes(r, max@));
            },
        }
    }

    /// Compiles a number output, an input or a random draw.
    fn compile_io(&mut self, inst: &Instruction)
        requires
            inst@ is SayNumber || inst@ is AskNumber || inst@ is AskChar || inst@ is AskString
                || inst@ is Random,
        ensures
            final(self)@ == compile_step(old(self)@, inst@),
    {
        match inst {
            Instruction::SayNumber { tray } => {
                let r = self.mapper.resolve_x86_reg_id(*tray);
                self.emit_say_number(r);
            },
            Instruction::AskNumber { tray } => {
                let r = self.mapper.resolve_x86_reg_id(*tray);
                self.emit_ask_number(r);
            },
            Instruction::AskChar { tray } => {
                let r = self.mapper.resolve_x86_reg_id(*tray);
                self.emit_ask_char(r);
            },
            Instruction::Random { max, tray } => {
                let r = self.mapper.resolve_x86_reg_id(*tray);
                self.emit_random(r, max);
            },
            Instruction::AskString { tray } => {
                let r = self.mapper.resolve_x86_reg_id(*tray);
                self.ask_string(r);
            },
            _ => {},
        }
    }

    /// See [`ask_string`].
    fn ask_string(&mut self, reg_id: u8)
        requires
            reg_id < 16,
        ensures
            final(self)@ == ask_string(old(self)@, reg_id),
    {
        proof {
            reveal(ask_string);
            reveal(read_line_bytes);
            reveal(input_open);
        }
        let data_offset = self.data_section.len();
        let mut zeros: Vec<u8> = Vec::new();
        let mut i: usize = 0;
        while i < 256
            invariant
                i <= 256,
                zeros@ == Seq::new(i as nat, |j: int| 0u8),
            decreases 256 - i,
        {
            zeros.push(0);
            i = i + 1;
            assert(zeros@ =~= Seq::new(i as nat, |j: int| 0u8));
        }
        self.add_data(zeros.as_slice());
        self.emit_input_open();
        self.emit(&[0x49, 0xb8]);
        let imm_offset = self.code.len();
        self.emit(&[0x00, 0x00, 0x00, 0x00, 0x00, 0x00, 0x00, 0x00]);
        self.add_string_load(imm_offset, data_offset);
        self.emit(
            &[
                0x45, 0x31, 0xc9, 0x31, 0xc0, 0x31, 0xff, 0x4c, 0x89, 0xc6, 0x4c, 0x01, 0xce, 0xba,
                0x01, 0x00, 0x00, 0x00, 0x0f, 0x05, 0x48, 0x83, 0xf8, 0x01, 0x75, 0x11, 0x80, 0x3e,
                0x0a, 0x74, 0x0c, 0x49, 0xff, 0xc1, 0x49, 0x81, 0xf9, 0xff, 0x00, 0x00, 0x00, 0x72,
                0xd8, 0x43, 0xc6, 0x04, 0x08, 0x00,
            ],
        );
        self.emit_input_close(reg_id);
        proof {
            let o = old(self)@;
            assert(self@.data =~= o.data + line_buffer());
            assert(self@.code =~= o.code + input_open() + seq![0x49u8, 0xb8] + zeros8() + read_line_bytes()
                + input_close(reg_id));
        }
    }

    /// Compiles one instruction, appending its machine code (see [`compile_step`]).
    pub fn compile_instruction(&mut self, inst: &Instruction)
        requires
            compiles(inst@),
        ensures
            final(self)@ == compile_step(old(self)@, inst@),
            slots_in_range(old(self)@) ==> slots_in_range(final(self)@),
            is_prefix(old(self)@.code, final(self)@.code),
            is_prefix(old(self)@.data, final(self)@.data),
            is_prefix(old(self)@.calls, final(self)@.calls),
            is_prefix(old(self)@.jumps, final(self)@.jumps),
            is_prefix(old(self)@.strings, final(self)@.strings),
        decreases inst,
    {
        let ghost s0 = self@;
        self.compile_one(inst);
        let _code_len = self.code.len();
        let _data_len = self.data_section.len();
        proof {
            lemma_compile_grows(s0, inst@);
            if slots_in_range(s0) {
                lemma_compile_keeps_slots_fitting(s0, inst@);
            }
        }
    }

    /// See [`DynamicJitEngine::compile_instruction`].
    fn compile_one(&mut self, inst: &Instruction)
        requires
            compiles(inst@),
        ensures
            final(self)@ == compile_step(old(self)@, inst@),
        decreases inst,
    {
        match inst {
            Instruction::InlineIf { tray, op, target_val, then_inst } => {
                let reg_a = self.mapper.resolve_x86_reg_id(*tray);
                self.emit_compare(reg_a, target_val);
                let ghost s1 = self@;
                let second: u8 = match op {
                    ConditionOp::Equal => 0x85,
                    ConditionOp::NotEqual => 0x84,
                    ConditionOp::Greater => 0x8e,
                    ConditionOp::Less => 0x8d,
                    ConditionOp::GreaterEqual => 0x8c,
                    ConditionOp::LessEqual => 0x8f,
                };
                self.emit(&[0x0f, second]);
                let skip_patch_offset = self.code.len();
                self.emit(&[0x00, 0x00, 0x00, 0x00]);
                let ghost s2 = self@;
                assert(s2 == emit(s1, seq![0x0fu8, skip_opcode(*op), 0, 0, 0, 0])) by {
                    assert(s2.code =~= s1.code + seq![0x0fu8, skip_opcode(*op), 0, 0, 0, 0]);
                }
                let inner: &Instruction = then_inst;
                self.compile_one(inner);
                proof {
                    lemma_compile_appends(s2, inner@);
                }
                let skip_dest = self.code.len();
                let diff = skip_dest - (skip_patch_offset + 4);
                let rel: u64 = (diff as u64) % 0x1_0000_0000;
                let bytes = le_vec(rel, 4);
                proof {
                    lemma_le_bytes_len(rel as int, 4);
                    assert(rel as int == rel32(skip_dest as int, skip_patch_offset + 4));
                }
                self.write_bytes(skip_patch_offset, &bytes);
            },
            Instruction::Workstation { .. } | Instruction::EndWorkstation | Instruction::Jump { .. }
            | Instruction::JumpIfEqual { .. } | Instruction::JumpIfNotEqual { .. }
            | Instruction::JumpIfGreater { .. } | Instruction::JumpIfLess { .. }
            | Instruction::Call { .. } | Instruction::Return { .. }
            | Instruction::CallSupervisor { .. } => self.compile_flow(inst),
            Instruction::Fill { .. } | Instruction::AssignChar { .. }
            | Instruction::AssignString { .. } | Instruction::Move { .. } | Instruction::Clear { .. }
            | Instruction::Store { .. } | Instruction::Load { .. } | Instruction::SayLiteral { .. }
            | Instruction::SayTray { .. } => self.compile_data(inst),
            Instruction::Add { .. } | Instruction::Sub { .. } | Instruction::Multiply { .. }
            | Instruction::Divide { .. } | Instruction::Modulo { .. } | Instruction::Compare { .. } => {
                self.compile_math(inst)
            },
            Instruction::SayNumber { .. } | Instruction::AskNumber { .. } | Instruction::AskChar { .. }
            | Instruction::AskString { .. } | Instruction::Random { .. } => self.compile_io(inst),
        }
    }
}


/// `rel32(to, from)` computed on machine integers.
fn rel32_exec(to: usize, from: usize) -> (r: u64)
    ensures
        r as int == rel32(to as int, from as int),
{
    let a: u64 = (to as u64) % 0x1_0000_0000;
    let b: u64 = (from as u64) % 0x1_0000_0000;
    proof {
        vstd::arithmetic::div_mod::lemma_sub_mod_noop(to as int, from as int, 0x1_0000_0000);
    }
    if a >= b {
        a - b
    } else {
        assert((a - b) % 0x1_0000_0000 == a - b + 0x1_0000_0000) by (nonlinear_arith)
            requires
                a < b,
                b < 0x1_0000_0000,
        {
        }
        a + 0x1_0000_0000 - b
    }
}

impl DynamicJitEngine {
    /// The number of code bytes emitted so far.
    pub fn code_len(&self) -> (r: usize)
        ensures
            r == self@.code.len(),
    {
        self.code.len()
    }

    /// The number of data bytes emitted so far.
    pub fn data_len(&self) -> (r: usize)
        ensures
            r == self@.data.len(),
    {
        self.data_section.len()
    }

    /// The code offset of the workstation `name`, if one is labelled so.
    fn lookup(&self, name: &String) -> (r: Option<usize>)
        ensures
            r == (if self@.offsets.contains_key(name@) {
                Some(self@.offsets[name@])
            } else {
                None
            }),
    {
        let ghost lv = label_view(self.workstation_offsets@);
        let mut i = self.workstation_offsets.len();
        assert(lv.subrange(0, i as int) =~= lv);
        while i > 0
            invariant
                i <= lv.len(),
                lv == label_view(self.workstation_offsets@),
                label_map(lv).contains_key(name@) == label_map(lv.subrange(0, i as int)).contains_key(
                    name@,
                ),
                label_map(lv).contains_key(name@) ==> label_map(lv)[name@] == label_map(
                    lv.subrange(0, i as int),
                )[name@],
            decreases i,
        {
            assert(lv.subrange(0, i as int).drop_last() =~= lv.subrange(0, i - 1));
            assert(lv.subrange(0, i as int).last() == lv[i - 1]);
            let entry = &self.workstation_offsets[i - 1];
            if entry.0 == *name {
                return Some(entry.1);
            }
            i = i - 1;
        }
        assert(lv.subrange(0, 0) =~= Seq::<(Seq<char>, usize)>::empty());
        None
    }

    /// The names of the labelled workstations (the shared exit code among them once
    /// the program is finished), each once.
    pub fn workstation_names(&self) -> (r: Vec<String>)
        ensures
            forall|n: Seq<char>| #[trigger] self@.offsets.contains_key(n) <==> lists_name(r@, n),
            forall|a: int, b: int| 0 <= a < b < r@.len() ==> r@[a]@ != r@[b]@,
    {
        let ghost lv = label_view(self.workstation_offsets@);
        let mut r: Vec<String> = Vec::new();
        let mut i: usize = 0;
        while i < self.workstation_offsets.len()
            invariant
                i <= lv.len(),
                lv == label_view(self.workstation_offsets@),
                forall|n: Seq<char>| #[trigger] lists_name(r@, n) <==> labels_name(lv, i as int, n),
                forall|a: int, b: int| 0 <= a < b < r@.len() ==> r@[a]@ != r@[b]@,
            decreases lv.len() - i,
        {
            let name = &self.workstation_offsets[i].0;
            assert(lv[i as int].0 == name@);
            let ghost old_r = r@;
            let mut seen = false;
            let mut j: usize = 0;
            while j < r.len()
                invariant
                    j <= r@.len(),
                    seen <==> exists|k: int| 0 <= k < j && #[trigger] r@[k]@ == name@,
                decreases r@.len() - j,
            {
                if r[j] == *name {
                    seen = true;
                }
                j = j + 1;
            }
            if !seen {
                r.push(name.clone());
                assert(r@[old_r.len() as int]@ == name@);
            }
            assert forall|n: Seq<char>| #[trigger] lists_name(r@, n) implies labels_name(lv, i + 1, n) by {
                let k = choose|k: int| 0 <= k < r@.len() && #[trigger] r@[k]@ == n;
                if k < old_r.len() {
                    assert(old_r[k]@ == n);
                    assert(lists_name(old_r, n));
                    let k2 = choose|k2: int| 0 <= k2 < i && #[trigger] lv[k2].0 == n;
                    assert(lv[k2].0 == n);
                } else {
                    assert(lv[i as int].0 == n);
                }
            }
            assert forall|n: Seq<char>| #[trigger] labels_name(lv, i + 1, n) implies lists_name(r@, n) by {
                let k = choose|k: int| 0 <= k < i + 1 && #[trigger] lv[k].0 == n;
                if k < i {
                    assert(labels_name(lv, i as int, n));
                    assert(lists_name(old_r, n));
                    let k2 = choose|k2: int| 0 <= k2 < old_r.len() && #[trigger] old_r[k2]@ == n;
                    assert(r@[k2]@ == n);
                } else if seen {
                    let k2 = choose|k2: int| 0 <= k2 < old_r.len() && #[trigger] old_r[k2]@ == name@;
                    assert(r@[k2]@ == n);
                } else {
                    assert(r@[old_r.len() as int]@ == n);
                }
            }
            i = i + 1;
        }
        proof {
            lemma_label_map_dom(lv);
            assert forall|n: Seq<char>| #[trigger] self@.offsets.contains_key(n) <==> lists_name(r@, n) by {
                assert(labels_name(lv, lv.len() as int, n) <==> label_map(lv).contains_key(n));
            }
        }
        r
    }

    /// Appends the shared exit code and labels it; returns the size of the mapping
    /// that will hold the code and the data.
    pub fn finish(&mut self) -> (size: usize)
        requires
            old(self)@.code.len() + old(self)@.data.len() + 14 + 4095 <= usize::MAX,
        ensures
            final(self)@ == finished(old(self)@),
            slots_in_range(old(self)@) ==> slots_in_range(final(self)@),
            slots_apart(old(self)@) ==> slots_apart(final(self)@),
            size == mapping_size(final(self)@.code.len() as int + final(self)@.data.len()),
    {
        let exit_offset = self.code.len();
        let ghost before = label_view(self.workstation_offsets@);
        let ghost o = self@;
        self.workstation_offsets.push((exit_label(), exit_offset));
        assert(label_view(self.workstation_offsets@).drop_last() =~= before);
        self.emit(&[0x48, 0x89, 0xec, 0x5d, 0x41, 0x5f, 0x41, 0x5e, 0x41, 0x5d, 0x41, 0x5c, 0x5b, 0xc3]);
        assert(self@.code =~= o.code + epilogue_bytes());
        assert(self@.offsets =~= o.offsets.insert(exit_name(), exit_offset));
        let n = self.code.len() + self.data_section.len();
        let t = (n + 4095) / 4096 * 4096;
        if t < 4096 {
            4096
        } else {
            t
        }
    }

    /// Fills in the entry jump, every call and jump whose workstation is known, and
    /// every string address, for data placed at `data_base`.
    fn patch_targets(&mut self, data_base: usize)
        requires
            slots_in_range(old(self)@),
            data_base + old(self)@.data.len() <= usize::MAX,
        ensures
            final(self)@ == (JitState { code: linked_code(old(self)@, data_base as int), ..old(self)@ }),
    {
        let ghost s = self@;
        let code_len = self.code.len();
        if let Some(entry_offset) = self.entry_jump_offset {
            let main = string_from_chars(&chars_of("main"));
            let target_offset = match self.lookup(&main) {
                Some(t) => t,
                None => entry_offset + 4,
            };
            let rel = rel32_exec(target_offset, entry_offset + 4);
            let bytes = le_vec(rel, 4);
            proof {
                lemma_le_bytes_len(rel as int, 4);
            }
            self.write_bytes(entry_offset, &bytes);
        }
        assert(self.code@ == with_entry(s));
        let ghost c1 = self.code@;
        let n_calls = self.pending_calls.len();
        let mut i: usize = 0;
        assert(s.calls.subrange(0, n_calls as int) =~= s.calls);
        while i < n_calls
            invariant
                i <= n_calls,
                n_calls == s.calls.len(),
                self@ == (JitState { code: self.code@, ..s }),
                self.code@.len() == s.code.len(),
                code_len == s.code.len(),
                slots_in_range(s),
                patch_all(c1, s.calls, s.offsets) == patch_all(
                    self.code@,
                    s.calls.subrange(i as int, n_calls as int),
                    s.offsets,
                ),
            decreases n_calls - i,
        {
            let ghost cur = self.code@;
            assert(s.calls.subrange(i as int, n_calls as int).drop_first() =~= s.calls.subrange(
                i + 1,
                n_calls as int,
            ));
            assert(s.calls.subrange(i as int, n_calls as int)[0] == s.calls[i as int]);
            let off = self.pending_calls[i].code_offset;
            assert(s.calls[i as int].0 == off);
            assert(s.calls[i as int].0 + 4 <= s.code.len());
            match self.lookup(&self.pending_calls[i].target) {
                Some(target) => {
                    let rel = rel32_exec(target, off + 4);
                    let bytes = le_vec(rel, 4);
                    proof {
                        lemma_le_bytes_len(rel as int, 4);
                    }
                    self.write_bytes(off, &bytes);
                },
                None => {},
            }
            assert(self.code@ == patch_one(cur, s.calls[i as int], s.offsets));
            i = i + 1;
        }
        assert(s.calls.subrange(n_calls as int, n_calls as int) =~= Seq::<(usize, Seq<char>)>::empty());
        let ghost c2 = self.code@;
        let n_jumps = self.pending_jumps.len();
        let mut i: usize = 0;
        assert(s.jumps.subrange(0, n_jumps as int) =~= s.jumps);
        while i < n_jumps
            invariant
                i <= n_jumps,
                n_jumps == s.jumps.len(),
                self@ == (JitState { code: self.code@, ..s }),
                self.code@.len() == s.code.len(),
                code_len == s.code.len(),
                slots_in_range(s),
                patch_all(c2, s.jumps, s.offsets) == patch_all(
                    self.code@,
                    s.jumps.subrange(i as int, n_jumps as int),
                    s.offsets,
                ),
            decreases n_jumps - i,
        {
            let ghost cur = self.code@;
            assert(s.jumps.subrange(i as int, n_jumps as int).drop_first() =~= s.jumps.subrange(
                i + 1,
                n_jumps as int,
            ));
            assert(s.jumps.subrange(i as int, n_jumps as int)[0] == s.jumps[i as int]);
            let off = self.pending_jumps[i].code_offset;
            assert(s.jumps[i as int].0 == off);
            assert(s.jumps[i as int].0 + 4 <= s.code.len());
            match self.lookup(&self.pending_jumps[i].target) {
                Some(target) => {
                    let rel = rel32_exec(target, off + 4);
                    let bytes = le_vec(rel, 4);
                    proof {
                        lemma_le_bytes_len(rel as int, 4);
                    }
                    self.write_bytes(off, &bytes);
                },
                None => {},
            }
            assert(self.code@ == patch_one(cur, s.jumps[i as int], s.offsets));
            i = i + 1;
        }
        assert(s.jumps.subrange(n_jumps as int, n_jumps as int) =~= Seq::<(usize, Seq<char>)>::empty());
        let ghost c3 = self.code@;
        let n_loads = self.pending_string_loads.len();
        let mut i: usize = 0;
        assert(s.strings.subrange(0, n_loads as int) =~= s.strings);
        while i < n_loads
            invariant
                i <= n_loads,
                n_loads == s.strings.len(),
                self@ == (JitState { code: self.code@, ..s }),
                self.code@.len() == s.code.len(),
                code_len == s.code.len(),
                slots_in_range(s),
                data_base + s.data.len() <= usize::MAX,
                patch_strings(c3, s.strings, data_base as int) == patch_strings(
                    self.code@,
                    s.strings.subrange(i as int, n_loads as int),
                    data_base as int,
                ),
            decreases n_loads - i,
        {
            assert(s.strings.subrange(i as int, n_loads as int).drop_first() =~= s.strings.subrange(
                i + 1,
                n_loads as int,
            ));
            assert(s.strings.subrange(i as int, n_loads as int)[0] == s.strings[i as int]);
            let imm = self.pending_string_loads[i].imm_offset;
            let doff = self.pending_string_loads[i].data_offset;
            assert(s.strings[i as int] == (imm, doff));
            let abs_addr = (data_base + doff) as u64;
            let bytes = le_vec(abs_addr, 8);
            proof {
                lemma_le_bytes_len(abs_addr as int, 8);
            }
            self.write_bytes(imm, &bytes);
            i = i + 1;
        }
        assert(s.strings.subrange(n_loads as int, n_loads as int) =~= Seq::<(usize, usize)>::empty());
    }

    /// Links the program for its data placed at `data_base` (see [`linked_code`])
    /// and returns the code followed by the data; the code goes into executable
    /// memory, the data (which input lines are read into) into writable memory at
    /// `data_base`.
    pub fn link(&mut self, data_base: usize) -> (image: Vec<u8>)
        requires
            slots_in_range(old(self)@),
            data_base + old(self)@.data.len() <= usize::MAX,
        ensures
            final(self)@ == (JitState { code: linked_code(old(self)@, data_base as int), ..old(self)@ }),
            image@ == final(self)@.code + final(self)@.data,
    {
        self.patch_targets(data_base);
        let mut image: Vec<u8> = Vec::new();
        let mut i: usize = 0;
        while i < self.code.len()
            invariant
                i <= self.code@.len(),
                image@ == self.code@.subrange(0, i as int),
            decreases self.code@.len() - i,
        {
            image.push(self.code[i]);
            i = i + 1;
            assert(image@ =~= self.code@.subrange(0, i as int));
        }
        let mut j: usize = 0;
        assert(image@ =~= self.code@);
        while j < self.data_section.len()
            invariant
                j <= self.data_section@.len(),
                image@ == self.code@ + self.data_section@.subrange(0, j as int),
            decreases self.data_section@.len() - j,
        {
            image.push(self.data_section[j]);
            j = j + 1;
            assert(image@ =~= self.code@ + self.data_section@.subrange(0, j as int));
        }
        assert(self.data_section@.subrange(0, j as int) =~= self.data_section@);
        image
    }
}


/// Why a program could not be compiled.
#[derive(Debug, Clone, Copy, PartialEq, Eq)]
pub enum CompileError {
    /// Reading this line (zero-based) slices its text inside a character or before
    /// the start of a range.
    UnreadableLine(usize),
    /// The storeroom slot of the instruction on this line has a displacement that
    /// overflows.
    StoreroomSlotOverflow(usize),
    /// The machine code would outgrow the address space.
    ProgramTooLarge,
}

/// Compiling line `i`, whose text is `line`, after state `s`.
#[verifier::opaque]
pub open spec fn line_step(s: JitState, line: Seq<char>, i: int) -> Result<JitState, CompileError> {
    match line_meaning(line) {
        None => Err(CompileError::UnreadableLine(i as usize)),
        Some(None) => Ok(s),
        Some(Some(inst)) => if !compiles(inst) {
            Err(CompileError::StoreroomSlotOverflow(i as usize))
        } else if !has_room(s, inst) {
            Err(CompileError::ProgramTooLarge)
        } else {
            Ok(compile_step(s, inst))
        },
    }
}

/// Compiling a whole program, line by line, for `arch`: the first failing line decides.
pub open spec fn compile_lines(arch: CpuArch, lines: Seq<Seq<char>>) -> Result<JitState, CompileError>
    decreases lines.len(),
{
    if lines.len() == 0 {
        Ok(initial_state(arch))
    } else {
        match compile_lines(arch, lines.drop_last()) {
            Err(e) => Err(e),
            Ok(s) => line_step(s, lines.last(), lines.len() - 1),
        }
    }
}

/// The characters of each line.
pub open spec fn line_views(lines: Seq<String>) -> Seq<Seq<char>> {
    lines.map_values(|l: String| l@)
}

/// A failing line stops the compilation: the error of a prefix is the error of
/// the whole program.
pub proof fn lemma_compile_lines_err_prefix(arch: CpuArch, lines: Seq<Seq<char>>, k: int)
    requires
        0 <= k <= lines.len(),
        compile_lines(arch, lines.subrange(0, k)) is Err,
    ensures
        compile_lines(arch, lines) == compile_lines(arch, lines.subrange(0, k)),
    decreases lines.len() - k,
{
    if k == lines.len() {
        assert(lines.subrange(0, k) =~= lines);
    } else {
        let l2 = lines.subrange(0, k + 1);
        assert(l2.drop_last() =~= lines.subrange(0, k));
        lemma_compile_lines_err_prefix(arch, lines, k + 1);
    }
}

/// Compiling only leaves places to fill in inside the code, and never two that overlap.
pub proof fn lemma_compile_lines_slots(arch: CpuArch, lines: Seq<Seq<char>>)
    ensures
        compile_lines(arch, lines) matches Ok(s) ==> slots_in_range(s) && slots_apart(s),
    decreases lines.len(),
{
    if lines.len() == 0 {
        lemma_initial_slots(arch);
    } else {
        lemma_compile_lines_slots(arch, lines.drop_last());
        reveal(line_step);
        match compile_lines(arch, lines.drop_last()) {
            Ok(s) => match line_meaning(lines.last()) {
                Some(Some(inst)) => if compiles(inst) && has_room(s, inst) {
                    lemma_compile_keeps_slots(s, inst);
                    lemma_compile_keeps_apart(s, inst);
                },
                _ => {},
            },
            Err(_) => {},
        }
    }
}

/// A program that compiles, once its exit code is appended and it is linked to run
/// at `base`, has every call and jump to a workstation that it labels landing on
/// that workstation, every string load holding the address of its string, and the
/// entry jump going to `main` (or straight on when there is none).
pub proof fn lemma_program_links(arch: CpuArch, lines: Seq<Seq<char>>, data_base: int)
    requires
        compile_lines(arch, lines) is Ok,
    ensures
        ({
            let s = finished(compile_lines(arch, lines)->Ok_0);
            let c = linked_code(s, data_base);
            &&& c.len() == s.code.len()
            &&& forall|k: int|
                0 <= k < s.calls.len() && s.offsets.contains_key(#[trigger] s.calls[k].1) ==> c.subrange(
                    s.calls[k].0 as int,
                    s.calls[k].0 + 4,
                ) == le_bytes(rel32(s.offsets[s.calls[k].1] as int, s.calls[k].0 + 4), 4)
            &&& forall|k: int|
                0 <= k < s.jumps.len() && s.offsets.contains_key(#[trigger] s.jumps[k].1) ==> c.subrange(
                    s.jumps[k].0 as int,
                    s.jumps[k].0 + 4,
                ) == le_bytes(rel32(s.offsets[s.jumps[k].1] as int, s.jumps[k].0 + 4), 4)
            &&& forall|k: int|
                0 <= k < s.strings.len() ==> c.subrange(
                    #[trigger] s.strings[k].0 as int,
                    s.strings[k].0 + 8,
                ) == le_bytes(data_base + s.strings[k].1, 8)
            &&& s.entry matches Some(e) ==> c.subrange(e as int, e + 4) == le_bytes(
                rel32(entry_target(s, e as int), e + 4),
                4,
            )
        }),
{
    let s0 = compile_lines(arch, lines)->Ok_0;
    lemma_compile_lines_slots(arch, lines);
    let s = finished(s0);
    assert(slots_in_range(s));
    assert(slots_apart(s));
    let c = linked_code(s, data_base);
    lemma_with_entry_len(s);
    assert forall|k: int|
        0 <= k < s.calls.len() && s.offsets.contains_key(#[trigger] s.calls[k].1) implies c.subrange(
            s.calls[k].0 as int,
            s.calls[k].0 + 4,
        ) == le_bytes(rel32(s.offsets[s.calls[k].1] as int, s.calls[k].0 + 4), 4) by {
        lemma_linked_call(s, data_base, k);
    }
    assert forall|k: int|
        0 <= k < s.jumps.len() && s.offsets.contains_key(#[trigger] s.jumps[k].1) implies c.subrange(
            s.jumps[k].0 as int,
            s.jumps[k].0 + 4,
        ) == le_bytes(rel32(s.offsets[s.jumps[k].1] as int, s.jumps[k].0 + 4), 4) by {
        lemma_linked_jump(s, data_base, k);
    }
    assert forall|k: int| 0 <= k < s.strings.len() implies c.subrange(
        #[trigger] s.strings[k].0 as int,
        s.strings[k].0 + 8,
    ) == le_bytes(data_base + s.strings[k].1, 8) by {
        lemma_linked_string(s, data_base, k);
    }
    if s.entry is Some {
        lemma_linked_entry(s, data_base);
    } else {
        let c0 = with_entry(s);
        lemma_patch_all_elsewhere(c0, s.calls, s.offsets, 0, 0);
        let c1 = patch_all(c0, s.calls, s.offsets);
        lemma_patch_all_elsewhere(c1, s.jumps, s.offsets, 0, 0);
        let c2 = patch_all(c1, s.jumps, s.offsets);
        lemma_patch_strings_elsewhere(c2, s.strings, data_base, 0, 0);
    }
}

/// The nesting depth of an instruction.
fn depth_of(inst: &Instruction) -> (r: u64)
    ensures
        r == instr_depth(inst@) || (r == u64::MAX && instr_depth(inst@) >= u64::MAX),
    decreases inst,
{
    match inst {
        Instruction::InlineIf { then_inst, .. } => {
            let inner: &Instruction = then_inst;
            let d = depth_of(inner);
            if d == u64::MAX {
                u64::MAX
            } else {
                d + 1
            }
        },
        _ => 1,
    }
}

/// Whether the storeroom displacement of an instruction can be computed.
pub fn instruction_compiles(inst: &Instruction) -> (r: bool)
    ensures
        r == compiles(inst@),
    decreases inst,
{
    match inst {
        Instruction::Store { offset, .. } | Instruction::Load { offset, .. } => match offset {
            StoreroomOffset::Fixed(n) => {
                if *n > (usize::MAX - 8) / 8 {
                    false
                } else {
                    let d: usize = (*n + 1) * 8;
                    (d as u64) % 0x1_0000_0000 != 0x8000_0000
                }
            },
            StoreroomOffset::Dynamic(_) => true,
        },
        Instruction::InlineIf { then_inst, .. } => {
            let inner: &Instruction = then_inst;
            instruction_compiles(inner)
        },
        _ => true,
    }
}

impl DynamicJitEngine {
    /// Whether `inst` fits after the code emitted so far.
    fn has_room_for(&self, inst: &Instruction) -> (r: bool)
        ensures
            r == has_room(self@, inst@),
    {
        let d = depth_of(inst);
        let n = self.code.len();
        let _data_len = self.data_section.len();
        if d == u64::MAX {
            false
        } else {
            (n as u128) + (d as u128) * 200 <= usize::MAX as u128
        }
    }

    /// Compiles line `i` of a program, whose text is `line`.
    fn compile_line(&mut self, line: &String, i: usize) -> (r: Result<(), CompileError>)
        ensures
            match r {
                Ok(()) => line_step(old(self)@, line@, i as int) == Ok::<JitState, CompileError>(
                    final(self)@,
                ),
                Err(e) => line_step(old(self)@, line@, i as int) == Err::<JitState, CompileError>(e),
            },
    {
        proof {
            reveal(line_step);
        }
        match Parser::try_parse_line(line.as_str()) {
            None => Err(CompileError::UnreadableLine(i)),
            Some(None) => Ok(()),
            Some(Some(inst)) => {
                if !instruction_compiles(&inst) {
                    return Err(CompileError::StoreroomSlotOverflow(i));
                }
                if !self.has_room_for(&inst) {
                    return Err(CompileError::ProgramTooLarge);
                }
                self.compile_instruction(&inst);
                Ok(())
            },
        }
    }

    /// Compiles the lines of a program in order for the host `ctx`, as the `run`
    /// command does (see [`compile_lines`]).
    pub fn compile_source(ctx: TargetContext, lines: &Vec<String>) -> (r: Result<
        DynamicJitEngine,
        CompileError,
    >)
        ensures
            r matches Ok(e) ==> compile_lines(ctx.arch, line_views(lines@)) == Ok::<
                JitState,
                CompileError,
            >(e@) && slots_in_range(e@) && slots_apart(e@),
            r matches Err(err) ==> compile_lines(ctx.arch, line_views(lines@)) == Err::<
                JitState,
                CompileError,
            >(err),
    {
        let ghost arch = ctx.arch;
        let mut engine = DynamicJitEngine::new(ctx);
        let n = lines.len();
        let mut i: usize = 0;
        proof {
            assert(line_views(lines@).subrange(0, 0) =~= Seq::<Seq<char>>::empty());
        }
        while i < n
            invariant
                i <= n,
                n == lines@.len(),
                arch == ctx.arch,
                compile_lines(arch, line_views(lines@).subrange(0, i as int)) == Ok::<
                    JitState,
                    CompileError,
                >(engine@),
            decreases n - i,
        {
            let ghost prefix = line_views(lines@).subrange(0, i as int + 1);
            assert(prefix.drop_last() =~= line_views(lines@).subrange(0, i as int));
            assert(prefix.last() == lines@[i as int]@);
            match engine.compile_line(&lines[i], i) {
                Err(e) => {
                    proof {
                        lemma_compile_lines_err_prefix(arch, line_views(lines@), i + 1);
                    }
                    return Err(e);
                },
                Ok(()) => {},
            }
            i = i + 1;
        }
        proof {
            assert(line_views(lines@).subrange(0, n as int) =~= line_views(lines@));
            lemma_compile_lines_slots(arch, line_views(lines@));
        }
        Ok(engine)
    }
}


// ---------------------------------------------------------------------------
// What the emitted instructions do
// ---------------------------------------------------------------------------

/// Whether the prefix byte `rex` is a REX prefix with the W bit (64-bit operands).
pub open spec fn rex_w(rex: u8) -> bool {
    (rex as int) / 16 == 4 && ((rex as int) / 8) % 2 == 1
}

/// The register a ModRM byte names in its `reg` field, extended by REX.R.
pub open spec fn reg_field(rex: u8, m: u8) -> int {
    (((rex as int) / 4) % 2) * 8 + ((m as int) / 8) % 8
}

/// The register a register-direct ModRM byte names in its `r/m` field, extended
/// by REX.B.
pub open spec fn rm_field(rex: u8, m: u8) -> int {
    ((rex as int) % 2) * 8 + (m as int) % 8
}

/// Whether a ModRM byte names a register (mode 3), not memory.
pub open spec fn register_direct(m: u8) -> bool {
    (m as int) / 64 == 3
}

/// The ModRM fields that `rex_rb` and `modrm` encode decode back to their
/// registers.
proof fn lemma_fields(reg: u8, rm: u8)
    requires
        reg < 16,
        rm < 16,
    ensures
        rex_w(rex_rb(reg, rm)),
        reg_field(rex_rb(reg, rm), modrm(reg as int, rm)) == reg,
        rm_field(rex_rb(reg, rm), modrm(reg as int, rm)) == rm,
        register_direct(modrm(reg as int, rm)),
{
}

/// Whether the condition `a op b` of an inline `if` holds (signed values).
pub open spec fn condition_holds(op: ConditionOp, a: int, b: int) -> bool {
    match op {
        ConditionOp::Equal => a == b,
        ConditionOp::NotEqual => a != b,
        ConditionOp::Greater => a > b,
        ConditionOp::Less => a < b,
        ConditionOp::GreaterEqual => a >= b,
        ConditionOp::LessEqual => a <= b,
    }
}

/// Whether the x86 conditional jump `0x0f cc` is taken after `cmp a, b`, for the
/// signed conditions (`je`, `jne`, `jl`, `jge`, `jle`, `jg`); other codes are
/// not among them.
pub open spec fn jcc_taken(cc: u8, a: int, b: int) -> bool {
    if cc == 0x84 {
        a == b
    } else if cc == 0x85 {
        a != b
    } else if cc == 0x8c {
        a < b
    } else if cc == 0x8d {
        a >= b
    } else if cc == 0x8e {
        a <= b
    } else if cc == 0x8f {
        a > b
    } else {
        false
    }
}

/// The jump that skips an inline condition's instruction is a signed conditional
/// jump taken exactly when the condition fails: for every pair of compared
/// values, the instruction runs if and only if `tray op value` holds.
#[verifier::spinoff_prover]
pub proof fn lemma_inline_skip_condition(
    s: JitState,
    tray: usize,
    op: ConditionOp,
    target_val: OperandModel,
    then_inst: InstrModel,
    a: int,
    b: int,
)
    ensures
        ({
            let skip = s.code.len() + compare_bytes(x86_reg(tray), target_val).len() + 2;
            let r = compile_step(
                s,
                InstrModel::InlineIf { tray, op, target_val, then_inst: Box::new(then_inst) },
            );
            &&& r.code[skip - 2] == 0x0f
            &&& jcc_taken(r.code[skip - 1], a, b) <==> !condition_holds(op, a, b)
        }),
{
    lemma_inline_skip(s, tray, op, target_val, then_inst);
    let s1 = emit(s, compare_bytes(x86_reg(tray), target_val));
    let skip = s1.code.len() as int + 2;
    let r = compile_step(s, InstrModel::InlineIf { tray, op, target_val, then_inst: Box::new(then_inst) });
    let s2 = emit(s1, seq![0x0fu8, skip_opcode(op), 0, 0, 0, 0]);
    lemma_compile_appends(s2, then_inst);
    assert(r.code.len() >= skip);
    assert(r.code[skip - 2] == r.code.subrange(0, skip)[skip - 2]);
    assert(r.code[skip - 1] == r.code.subrange(0, skip)[skip - 1]);
}

/// The conditional jumps jump exactly when the last comparison `a` with `b`
/// found `a == b`, `a != b`, `a > b` or `a < b` respectively (signed).
pub proof fn lemma_conditional_jumps(s: JitState, target: Seq<char>, a: int, b: int)
    ensures
        ({
            let n = s.code.len() as int;
            let e = compile_step(s, InstrModel::JumpIfEqual { target }).code;
            let ne = compile_step(s, InstrModel::JumpIfNotEqual { target }).code;
            let g = compile_step(s, InstrModel::JumpIfGreater { target }).code;
            let l = compile_step(s, InstrModel::JumpIfLess { target }).code;
            &&& e[n] == 0x0f && (jcc_taken(e[n + 1], a, b) <==> a == b)
            &&& ne[n] == 0x0f && (jcc_taken(ne[n + 1], a, b) <==> a != b)
            &&& g[n] == 0x0f && (jcc_taken(g[n + 1], a, b) <==> a > b)
            &&& l[n] == 0x0f && (jcc_taken(l[n + 1], a, b) <==> a < b)
        }),
{
    reveal(pending_jump);
}

/// `multiply trayD by trayS` is `imul` (`0x0f 0xaf`, register `reg` times `r/m`
/// into `reg`) with trayD's register receiving the product and trayS's read.
#[verifier::spinoff_prover]
pub proof fn lemma_multiply_tray(s: JitState, src: usize, dst_tray: usize)
    ensures
        ({
            let m = compile_step(s, InstrModel::Multiply { src: OperandModel::Tray(src), dst_tray }).code.subrange(
                s.code.len() as int,
                (s.code.len() + 4) as int,
            );
            &&& compile_step(s, InstrModel::Multiply { src: OperandModel::Tray(src), dst_tray }).code.len()
                == s.code.len() + 4
            &&& rex_w(m[0]) && m[1] == 0x0f && m[2] == 0xaf && register_direct(m[3])
            &&& reg_field(m[0], m[3]) == x86_reg(dst_tray)
            &&& rm_field(m[0], m[3]) == x86_reg(src)
        }),
{
    reveal(multiply_bytes);
    reveal(imul_rr);
    lemma_x86_reg_range(src);
    lemma_x86_reg_range(dst_tray);
    lemma_fields(x86_reg(dst_tray), x86_reg(src));
    let r = compile_step(s, InstrModel::Multiply { src: OperandModel::Tray(src), dst_tray });
    assert(r.code.subrange(s.code.len() as int, (s.code.len() + 4) as int) =~= imul_rr(x86_reg(dst_tray), x86_reg(src)));
}

/// `compare trayA with trayB` is `cmp` (`0x39`, flags of `r/m` minus `reg`) with
/// trayA's register as `r/m` and trayB's as `reg`: the flags are those of
/// trayA - trayB.
#[verifier::spinoff_prover]
pub proof fn lemma_compare_tray(s: JitState, tray_a: usize, t: usize)
    ensures
        ({
            let c = compile_step(s, InstrModel::Compare { tray_a, val_b: OperandModel::Tray(t) }).code;
            let m = c.subrange(s.code.len() as int, (s.code.len() + 3) as int);
            &&& c.len() == s.code.len() + 3
            &&& rex_w(m[0]) && m[1] == 0x39 && register_direct(m[2])
            &&& rm_field(m[0], m[2]) == x86_reg(tray_a)
            &&& reg_field(m[0], m[2]) == x86_reg(t)
        }),
{
    reveal(compare_bytes);
    reveal(alu_rr);
    lemma_x86_reg_range(t);
    lemma_x86_reg_range(tray_a);
    lemma_fields(x86_reg(t), x86_reg(tray_a));
    let c = compile_step(s, InstrModel::Compare { tray_a, val_b: OperandModel::Tray(t) }).code;
    assert(c.subrange(s.code.len() as int, (s.code.len() + 3) as int) =~= alu_rr(
        AluOp::Compare,
        x86_reg(tray_a),
        x86_reg(t),
    ));
}

/// `add trayS to trayD` and `sub trayS from trayD` are `add`/`sub` (`0x01`/`0x29`,
/// `r/m` plus/minus `reg` into `r/m`) with trayD's register as `r/m` and trayS's
/// as `reg`; `move trayS to trayD` is `mov` (`0x89`, `reg` into `r/m`) the same way.
#[verifier::spinoff_prover]
pub proof fn lemma_add_sub_move_tray(s: JitState, src: usize, dst: usize)
    ensures
        ({
            let n = s.code.len() as int;
            let ad = compile_step(s, InstrModel::Add { src: OperandModel::Tray(src), dst_tray: dst }).code;
            let sb = compile_step(s, InstrModel::Sub { src: OperandModel::Tray(src), dst_tray: dst }).code;
            let mv = compile_step(s, InstrModel::Move { src_tray: src, dst_tray: dst }).code;
            &&& ad.len() == n + 3 && sb.len() == n + 3 && mv.len() == n + 3
            &&& rex_w(ad[n]) && ad[n + 1] == 0x01 && register_direct(ad[n + 2])
            &&& rm_field(ad[n], ad[n + 2]) == x86_reg(dst) && reg_field(ad[n], ad[n + 2]) == x86_reg(src)
            &&& rex_w(sb[n]) && sb[n + 1] == 0x29 && register_direct(sb[n + 2])
            &&& rm_field(sb[n], sb[n + 2]) == x86_reg(dst) && reg_field(sb[n], sb[n + 2]) == x86_reg(src)
            &&& rex_w(mv[n]) && mv[n + 1] == 0x89 && register_direct(mv[n + 2])
            &&& rm_field(mv[n], mv[n + 2]) == x86_reg(dst) && reg_field(mv[n], mv[n + 2]) == x86_reg(src)
        }),
{
    reveal(arith_bytes);
    reveal(alu_rr);
    reveal(mov_rr);
    lemma_x86_reg_range(src);
    lemma_x86_reg_range(dst);
    lemma_fields(x86_reg(src), x86_reg(dst));
}

/// A storeroom access through a bin named by tray `k`: the scratch register
/// (saved first) gets tray `k`'s value and is negated, and the access uses
/// `[rbp + 8 * scratch - 8]`, that is `rbp - 8 * (value + 1)`, the cell of the
/// fixed bin `value`, with `r` as the register stored or loaded. A store and a
/// load through the same tray differ only in the opcode, so they address the
/// same cell.
#[verifier::spinoff_prover]
pub proof fn lemma_tray_named_bin(r: u8, k: usize)
    requires
        r < 16,
    ensures
        ({
            let st = storeroom_bytes(0x89, r, StoreroomOffset::Dynamic(k));
            let ld = storeroom_bytes(0x8b, r, StoreroomOffset::Dynamic(k));
            let x = scratch(r);
            let p = push_op(x).len() as int;
            &&& st.len() == ld.len()
            &&& st[p + 7] == 0x89 && ld[p + 7] == 0x8b
            &&& forall|j: int| 0 <= j < st.len() && j != p + 7 ==> st[j] == ld[j]
            &&& x != r && x < 16
            &&& st.subrange(0, p) == push_op(x)
            &&& rex_w(st[p]) && st[p + 1] == 0x89 && register_direct(st[p + 2])
            &&& rm_field(st[p], st[p + 2]) == x && reg_field(st[p], st[p + 2]) == x86_reg(k)
            &&& rex_w(st[p + 3]) && st[p + 4] == 0xf7 && register_direct(st[p + 5])
            &&& ((st[p + 5] as int) / 8) % 8 == 3 && rm_field(st[p + 3], st[p + 5]) == x
            &&& rex_w(st[p + 6]) && (st[p + 6] as int) % 2 == 0
            &&& (st[p + 8] as int) / 64 == 1 && (st[p + 8] as int) % 8 == 4
            &&& reg_field(st[p + 6], st[p + 8]) == r
            &&& (st[p + 9] as int) / 64 == 3 && (st[p + 9] as int) % 8 == 5
            &&& (((st[p + 6] as int) / 2) % 2) * 8 + ((st[p + 9] as int) / 8) % 8 == x
            &&& st[p + 10] == 0xf8
            &&& st.subrange(p + 11, st.len() as int) == pop_op(x)
        }),
{
    reveal(storeroom_bytes);
    reveal(mov_rr);
    lemma_x86_reg_range(k);
    let x = scratch(r);
    lemma_fields(x86_reg(k), x);
    let st = storeroom_bytes(0x89, r, StoreroomOffset::Dynamic(k));
    let ld = storeroom_bytes(0x8b, r, StoreroomOffset::Dynamic(k));
    let p = push_op(x).len() as int;
    assert(st.subrange(0, p) =~= push_op(x));
    assert(st.subrange(p + 11, st.len() as int) =~= pop_op(x));
}

/// Whether `b` is `mov reg, imm64` (`REX.W B8+r`) loading `v` into register `reg`.
pub open spec fn loads_immediate(b: Seq<u8>, reg: int, v: int) -> bool {
    &&& b.len() == 10
    &&& rex_w(b[0])
    &&& (b[1] as int) / 8 == 23
    &&& ((b[0] as int) % 2) * 8 + (b[1] as int) % 8 == reg
    &&& le_value(b.subrange(2, 10)) == v
}

/// Whether `b` is the register-to-register instruction `opcode` (`REX.W opcode /r`)
/// with `rm` in its `r/m` field and `reg` in its `reg` field.
pub open spec fn reg_instruction(b: Seq<u8>, opcode: u8, rm: int, reg: int) -> bool {
    &&& b.len() == 3
    &&& rex_w(b[0])
    &&& b[1] == opcode
    &&& register_direct(b[2])
    &&& rm_field(b[0], b[2]) == rm
    &&& reg_field(b[0], b[2]) == reg
}

/// Whether `b` is `push r` (`50+r`, with REX.B for R8-R15).
pub open spec fn is_push(b: Seq<u8>, r: int) -> bool {
    ||| 0 <= r < 8 && b == seq![(0x50 + r) as u8]
    ||| 8 <= r < 16 && b == seq![0x41u8, (0x50 + r - 8) as u8]
}

/// Whether `b` is `pop r` (`58+r`, with REX.B for R8-R15).
pub open spec fn is_pop(b: Seq<u8>, r: int) -> bool {
    ||| 0 <= r < 8 && b == seq![(0x58 + r) as u8]
    ||| 8 <= r < 16 && b == seq![0x41u8, (0x58 + r - 8) as u8]
}

proof fn lemma_pow256_8()
    ensures
        pow256(8) == 0x1_0000_0000_0000_0000,
        pow256(4) == 0x1_0000_0000,
{
    reveal_with_fuel(pow256, 9);
}

/// `mov_imm64` loads what it says.
proof fn lemma_loads(r: u8, v: int)
    requires
        r < 16,
        0 <= v < 0x1_0000_0000_0000_0000,
    ensures
        loads_immediate(mov_imm64(r, v), r as int, v),
{
    reveal(mov_imm64);
    lemma_pow256_8();
    lemma_le_bytes_len(v, 8);
    lemma_le_bytes_value(v, 8);
    assert(mov_imm64(r, v).subrange(2, 10) =~= le_bytes(v, 8));
}

proof fn lemma_push_pop(r: u8)
    requires
        r < 16,
    ensures
        is_push(push_op(r), r as int),
        is_pop(pop_op(r), r as int),
{
}

/// `trayN = v`, `clear trayN` and `trayN = 'c'` load the number `v` (as a 64-bit
/// two's complement pattern), 0, or the character's code into trayN's register.
#[verifier::spinoff_prover]
pub proof fn lemma_fills(s: JitState, val: i64, ch: char, tray: usize)
    ensures
        ({
            let n = s.code.len() as int;
            let f = compile_step(s, InstrModel::Fill { val, tray }).code;
            let z = compile_step(s, InstrModel::Clear { tray }).code;
            let c = compile_step(s, InstrModel::AssignChar { ch, tray }).code;
            &&& f.subrange(0, n) == s.code && loads_immediate(
                f.subrange(n, f.len() as int),
                x86_reg(tray) as int,
                (val as int) % 0x1_0000_0000_0000_0000,
            )
            &&& z.subrange(0, n) == s.code && loads_immediate(
                z.subrange(n, z.len() as int),
                x86_reg(tray) as int,
                0,
            )
            &&& c.subrange(0, n) == s.code && loads_immediate(
                c.subrange(n, c.len() as int),
                x86_reg(tray) as int,
                ch as u32 as int,
            )
        }),
{
    lemma_x86_reg_range(tray);
    let r = x86_reg(tray);
    assert(imm64(val) == (val as int) % 0x1_0000_0000_0000_0000);
    lemma_loads(r, imm64(val));
    lemma_loads(r, 0);
    lemma_loads(r, ch as u32 as int);
    let n = s.code.len() as int;
    let f = compile_step(s, InstrModel::Fill { val, tray }).code;
    let z = compile_step(s, InstrModel::Clear { tray }).code;
    let c = compile_step(s, InstrModel::AssignChar { ch, tray }).code;
    assert(f.subrange(0, n) =~= s.code && f.subrange(n, f.len() as int) =~= mov_imm64(r, imm64(val)));
    assert(z.subrange(0, n) =~= s.code && z.subrange(n, z.len() as int) =~= mov_imm64(r, 0));
    assert(c.subrange(0, n) =~= s.code && c.subrange(n, c.len() as int) =~= mov_imm64(r, ch as u32 as int));
}

/// Whether `b` is `op r/m64, imm32` (`REX.W 81 /ext id`) on register `rm` with
/// the immediate `v`.
pub open spec fn immediate_instruction(b: Seq<u8>, ext: int, rm: int, v: int) -> bool {
    &&& b.len() == 7
    &&& rex_w(b[0])
    &&& b[1] == 0x81
    &&& register_direct(b[2])
    &&& ((b[2] as int) / 8) % 8 == ext
    &&& rm_field(b[0], b[2]) == rm
    &&& le_value(b.subrange(3, 7)) == v
}

/// Whether `b` is `imul reg, r/m` (`REX.W 0F AF /r`): `reg` times `rm` into `reg`.
pub open spec fn imul_instruction(b: Seq<u8>, reg: int, rm: int) -> bool {
    &&& b.len() == 4
    &&& rex_w(b[0])
    &&& b[1] == 0x0f
    &&& b[2] == 0xaf
    &&& register_direct(b[3])
    &&& reg_field(b[0], b[3]) == reg
    &&& rm_field(b[0], b[3]) == rm
}

/// Whether `b` pushes register `x`, loads `w` into it, runs `body` (decided by
/// `body_ok`), and pops `x` again.
pub open spec fn staged_through(b: Seq<u8>, x: int, w: int, body_len: int) -> bool {
    let p = if x < 8 {
        1int
    } else {
        2int
    };
    &&& b.len() == p + 10 + body_len + p
    &&& is_push(b.subrange(0, p), x)
    &&& loads_immediate(b.subrange(p, p + 10), x, w)
    &&& is_pop(b.subrange(p + 10 + body_len, b.len() as int), x)
}

/// The instruction inside a staged sequence of `body_len` bytes for register `x`.
pub open spec fn staged_body(b: Seq<u8>, x: int, body_len: int) -> Seq<u8> {
    let p = if x < 8 {
        1int
    } else {
        2int
    };
    b.subrange(p + 10, p + 10 + body_len)
}

proof fn lemma_alu_imm_small(op: AluOp, r: u8, v: int)
    requires
        r < 16,
        0 <= v <= 0x7fff_ffff,
    ensures
        immediate_instruction(alu_imm(op, r, v), alu_ext(op), r as int, v),
{
    reveal(alu_imm);
    lemma_pow256_8();
    lemma_le_bytes_len(v, 4);
    lemma_le_bytes_value(v, 4);
    assert(alu_imm(op, r, v).subrange(3, 7) =~= le_bytes(v, 4));
}

proof fn lemma_staged(r: u8, w: int, body: Seq<u8>)
    requires
        r < 16,
        0 <= w < 0x1_0000_0000_0000_0000,
    ensures
        staged_through(staged(r, w, body), scratch(r) as int, w, body.len() as int),
        staged_body(staged(r, w, body), scratch(r) as int, body.len() as int) == body,
{
    let x = scratch(r);
    let b = staged(r, w, body);
    lemma_loads(x, w);
    lemma_push_pop(x);
    reveal(mov_imm64);
    lemma_le_bytes_len(w, 8);
    let p = push_op(x).len() as int;
    assert(b.subrange(0, p) =~= push_op(x));
    assert(b.subrange(p, p + 10) =~= mov_imm64(x, w));
    assert(b.subrange(p + 10, p + 10 + body.len()) =~= body);
    assert(b.subrange(p + 10 + body.len(), b.len() as int) =~= pop_op(x));
}

/// Adding, subtracting or comparing a number `v` from 0 to `i32::MAX` is the
/// single instruction `81 /ext imm32` on trayD's register with ext 0 (`add`),
/// 5 (`sub`) or 7 (`cmp`) and the immediate `v`.
#[verifier::spinoff_prover]
pub proof fn lemma_small_immediates(s: JitState, v: i64, dst: usize)
    requires
        0 <= v <= 0x7fff_ffff,
    ensures
        ({
            let n = s.code.len() as int;
            let d = x86_reg(dst) as int;
            let ad = compile_step(s, InstrModel::Add { src: OperandModel::Number(v), dst_tray: dst }).code;
            let sb = compile_step(s, InstrModel::Sub { src: OperandModel::Number(v), dst_tray: dst }).code;
            let cp = compile_step(s, InstrModel::Compare { tray_a: dst, val_b: OperandModel::Number(v) }).code;
            &&& ad.subrange(0, n) == s.code && immediate_instruction(ad.subrange(n, ad.len() as int), 0, d, v as int)
            &&& sb.subrange(0, n) == s.code && immediate_instruction(sb.subrange(n, sb.len() as int), 5, d, v as int)
            &&& cp.subrange(0, n) == s.code && immediate_instruction(cp.subrange(n, cp.len() as int), 7, d, v as int)
        }),
{
    reveal(arith_bytes);
    reveal(compare_bytes);
    lemma_x86_reg_range(dst);
    let r = x86_reg(dst);
    let n = s.code.len() as int;
    lemma_alu_imm_small(AluOp::Add, r, v as int);
    lemma_alu_imm_small(AluOp::Sub, r, v as int);
    lemma_alu_imm_small(AluOp::Compare, r, v as int);
    let ad = compile_step(s, InstrModel::Add { src: OperandModel::Number(v), dst_tray: dst }).code;
    let sb = compile_step(s, InstrModel::Sub { src: OperandModel::Number(v), dst_tray: dst }).code;
    let cp = compile_step(s, InstrModel::Compare { tray_a: dst, val_b: OperandModel::Number(v) }).code;
    assert(ad.subrange(0, n) =~= s.code);
    assert(ad.subrange(n, ad.len() as int) =~= alu_imm(AluOp::Add, r, v as int));
    assert(sb.subrange(0, n) =~= s.code);
    assert(sb.subrange(n, sb.len() as int) =~= alu_imm(AluOp::Sub, r, v as int));
    assert(cp.subrange(0, n) =~= s.code);
    assert(cp.subrange(n, cp.len() as int) =~= alu_imm(AluOp::Compare, r, v as int));
}

/// The opcode of an ALU operation from register to register.
pub open spec fn alu_opcode(op: AluOp) -> u8 {
    match op {
        AluOp::Add => 0x01,
        AluOp::Sub => 0x29,
        AluOp::Compare => 0x39,
    }
}

/// The instruction an ALU operation compiles from.
pub open spec fn alu_inst(op: AluOp, v: i64, dst: usize) -> InstrModel {
    match op {
        AluOp::Add => InstrModel::Add { src: OperandModel::Number(v), dst_tray: dst },
        AluOp::Sub => InstrModel::Sub { src: OperandModel::Number(v), dst_tray: dst },
        AluOp::Compare => InstrModel::Compare { tray_a: dst, val_b: OperandModel::Number(v) },
    }
}

#[verifier::spinoff_prover]
proof fn lemma_large_immediate(s: JitState, v: i64, dst: usize, op: AluOp)
    requires
        v < 0 || v > 0x7fff_ffff,
    ensures
        ({
            let n = s.code.len() as int;
            let d = x86_reg(dst) as int;
            let x = scratch(x86_reg(dst)) as int;
            let c = compile_step(s, alu_inst(op, v, dst)).code;
            let t = c.subrange(n, c.len() as int);
            &&& x != d && 0 <= x < 16
            &&& c.subrange(0, n) == s.code
            &&& staged_through(t, x, (v as int) % 0x1_0000_0000_0000_0000, 3)
            &&& reg_instruction(staged_body(t, x, 3), alu_opcode(op), d, x)
        }),
{
    reveal(arith_bytes);
    reveal(compare_bytes);
    reveal(alu_imm);
    reveal(alu_rr);
    lemma_x86_reg_range(dst);
    let d = x86_reg(dst);
    let x = scratch(d);
    let w = imm64(v);
    assert(w == (v as int) % 0x1_0000_0000_0000_0000);
    lemma_fields(x, d);
    let n = s.code.len() as int;
    let body = alu_rr(op, d, x);
    lemma_staged(d, w, body);
    let c = compile_step(s, alu_inst(op, v, dst)).code;
    assert(c =~= s.code + staged(d, w, body));
    assert(c.subrange(0, n) =~= s.code);
    assert(c.subrange(n, c.len() as int) =~= staged(d, w, body));
}

/// Adding, subtracting or comparing a number that is negative or above
/// `i32::MAX`: a scratch register other than trayD's is pushed, loaded with the
/// number (as a 64-bit pattern), used as the source of `add`/`sub`/`cmp`
/// (`01`/`29`/`39`) into trayD's register, and popped again.
pub proof fn lemma_large_immediates(s: JitState, v: i64, dst: usize)
    requires
        v < 0 || v > 0x7fff_ffff,
    ensures
        ({
            let n = s.code.len() as int;
            let d = x86_reg(dst) as int;
            let x = scratch(x86_reg(dst)) as int;
            let w = (v as int) % 0x1_0000_0000_0000_0000;
            let ad = compile_step(s, InstrModel::Add { src: OperandModel::Number(v), dst_tray: dst }).code;
            let sb = compile_step(s, InstrModel::Sub { src: OperandModel::Number(v), dst_tray: dst }).code;
            let cp = compile_step(s, InstrModel::Compare { tray_a: dst, val_b: OperandModel::Number(v) }).code;
            let ta = ad.subrange(n, ad.len() as int);
            let ts = sb.subrange(n, sb.len() as int);
            let tc = cp.subrange(n, cp.len() as int);
            &&& x != d && 0 <= x < 16
            &&& ad.subrange(0, n) == s.code && staged_through(ta, x, w, 3)
            &&& reg_instruction(staged_body(ta, x, 3), 0x01, d, x)
            &&& sb.subrange(0, n) == s.code && staged_through(ts, x, w, 3)
            &&& reg_instruction(staged_body(ts, x, 3), 0x29, d, x)
            &&& cp.subrange(0, n) == s.code && staged_through(tc, x, w, 3)
            &&& reg_instruction(staged_body(tc, x, 3), 0x39, d, x)
        }),
{
    lemma_large_immediate(s, v, dst, AluOp::Add);
    lemma_large_immediate(s, v, dst, AluOp::Sub);
    lemma_large_immediate(s, v, dst, AluOp::Compare);
}

/// Multiplying trayD by a number or character: a scratch register other than
/// trayD's is pushed, loaded with the factor, `imul` multiplies trayD's register
/// by it into trayD's register, and the scratch register is popped again.
#[verifier::spinoff_prover]
#[verifier::rlimit(30)]
pub proof fn lemma_multiply_literal(s: JitState, v: OperandModel, dst: usize)
    requires
        v is Number || v is Char,
    ensures
        ({
            let n = s.code.len() as int;
            let d = x86_reg(dst) as int;
            let x = scratch(x86_reg(dst)) as int;
            let w = match v {
                OperandModel::Number(k) => (k as int) % 0x1_0000_0000_0000_0000,
                OperandModel::Char(c) => c as u32 as int,
                _ => 0,
            };
            let ml = compile_step(s, InstrModel::Multiply { src: v, dst_tray: dst }).code;
            let t = ml.subrange(n, ml.len() as int);
            &&& x != d && 0 <= x < 16
            &&& ml.subrange(0, n) == s.code && staged_through(t, x, w, 4)
            &&& imul_instruction(staged_body(t, x, 4), d, x)
        }),
{
    reveal(multiply_bytes);
    reveal(imul_rr);
    lemma_x86_reg_range(dst);
    let d = x86_reg(dst);
    let x = scratch(d);
    let w = operand_imm(v);
    assert(w == match v {
        OperandModel::Number(k) => (k as int) % 0x1_0000_0000_0000_0000,
        OperandModel::Char(c) => c as u32 as int,
        _ => 0,
    });
    assert(0 <= w < 0x1_0000_0000_0000_0000);
    lemma_fields(d, x);
    lemma_staged(d, w, imul_rr(d, x));
    let n = s.code.len() as int;
    let ml = compile_step(s, InstrModel::Multiply { src: v, dst_tray: dst }).code;
    assert(ml.subrange(0, n) =~= s.code);
    assert(ml.subrange(n, ml.len() as int) =~= staged(d, w, imul_rr(d, x)));
}

/// Whether `b` is `mov` between register `r` and the memory at `rbp + disp32`
/// (`REX.W opcode /r` with mode 2 and base RBP), with `disp` the displacement's
/// unsigned 32-bit pattern.
pub open spec fn rbp_access(b: Seq<u8>, opcode: u8, r: int, disp: int) -> bool {
    &&& b.len() == 7
    &&& rex_w(b[0])
    &&& (b[0] as int) % 2 == 0
    &&& b[1] == opcode
    &&& (b[2] as int) / 64 == 2
    &&& (b[2] as int) % 8 == 5
    &&& reg_field(b[0], b[2]) == r
    &&& le_value(b.subrange(3, 7)) == disp
}

#[verifier::spinoff_prover]
proof fn lemma_fixed_bin_bytes(opcode: u8, r: u8, n: usize)
    requires
        r < 16,
        n < 0x1000_0000,
    ensures
        rbp_access(
            storeroom_bytes(opcode, r, StoreroomOffset::Fixed(n)),
            opcode,
            r as int,
            0x1_0000_0000 - 8 * (n + 1),
        ),
{
    reveal(storeroom_bytes);
    lemma_pow256_8();
    assert(neg_disp(n) == 0x1_0000_0000 - 8 * (n + 1));
    lemma_le_bytes_len(neg_disp(n), 4);
    lemma_le_bytes_value(neg_disp(n), 4);
    let b = storeroom_bytes(opcode, r, StoreroomOffset::Fixed(n));
    assert(b.subrange(3, 7) =~= le_bytes(neg_disp(n), 4));
}

/// Storing trayN into the fixed bin `n` is `mov [rbp - 8 * (n + 1)], r` (`89`:
/// memory from register) and loading it is `mov r, [rbp - 8 * (n + 1)]` (`8b`:
/// register from memory), with `r` trayN's register: bin `n` is the 8-byte cell
/// `n + 1` words below the frame base, the same cell a bin named by a tray
/// holding `n` reaches.
#[verifier::spinoff_prover]
pub proof fn lemma_fixed_bins(s: JitState, tray: usize, n: usize)
    requires
        n < 0x1000_0000,
    ensures
        ({
            let m = s.code.len() as int;
            let st = compile_step(s, InstrModel::Store { tray, offset: StoreroomOffset::Fixed(n) }).code;
            let ld = compile_step(s, InstrModel::Load { offset: StoreroomOffset::Fixed(n), tray }).code;
            &&& st.subrange(0, m) == s.code
            &&& rbp_access(st.subrange(m, st.len() as int), 0x89, x86_reg(tray) as int, 0x1_0000_0000 - 8 * (n + 1))
            &&& ld.subrange(0, m) == s.code
            &&& rbp_access(ld.subrange(m, ld.len() as int), 0x8b, x86_reg(tray) as int, 0x1_0000_0000 - 8 * (n + 1))
        }),
{
    lemma_x86_reg_range(tray);
    let r = x86_reg(tray);
    lemma_fixed_bin_bytes(0x89, r, n);
    lemma_fixed_bin_bytes(0x8b, r, n);
    let m = s.code.len() as int;
    let st = compile_step(s, InstrModel::Store { tray, offset: StoreroomOffset::Fixed(n) }).code;
    let ld = compile_step(s, InstrModel::Load { offset: StoreroomOffset::Fixed(n), tray }).code;
    assert(st.subrange(0, m) =~= s.code);
    assert(st.subrange(m, st.len() as int) =~= storeroom_bytes(0x89, r, StoreroomOffset::Fixed(n)));
    assert(ld.subrange(0, m) =~= s.code);
    assert(ld.subrange(m, ld.len() as int) =~= storeroom_bytes(0x8b, r, StoreroomOffset::Fixed(n)));
}

/// Whether `b` ends a division into register `d` from register `res` (RAX for
/// the quotient, RDX for the remainder) while RAX and RDX are saved at `[rsp]` and
/// `[rsp + 8]`: the result goes into the saved copy when `d` is RAX or RDX (so
/// the following `pop rax; pop rdx` deliver it), else directly into `d`.
pub open spec fn stores_result(b: Seq<u8>, d: int, res: int) -> bool {
    if d == 0 {
        b == seq![0x48u8, 0x89, (0x04 + res * 8) as u8, 0x24]
    } else if d == 2 {
        b == seq![0x48u8, 0x89, (0x44 + res * 8) as u8, 0x24, 0x08]
    } else {
        reg_instruction(b, 0x89, d, res)
    }
}

/// The length of what [`stores_result`] accepts for `d`.
pub open spec fn result_store_len(d: int) -> int {
    if d == 0 {
        4
    } else if d == 2 {
        5
    } else {
        3
    }
}

/// The division facts of [`lemma_divide_tray`] for the appended bytes alone.
pub open spec fn divides_into(b: Seq<u8>, d: int, q: int, rem: bool) -> bool {
    let p = if q < 8 {
        1int
    } else {
        2int
    };
    let k = 15 + p + result_store_len(d);
    &&& b.len() == k + 2
    &&& b[0] == 0x52 && b[1] == 0x50
    &&& is_push(b.subrange(2, 2 + p), q)
    &&& reg_instruction(b.subrange(2 + p, 5 + p), 0x89, 0, d)
    &&& b.subrange(5 + p, 7 + p) == seq![0x48u8, 0x99]
    &&& b.subrange(7 + p, 11 + p) == seq![0x48u8, 0xf7, 0x3c, 0x24]
    &&& b.subrange(11 + p, 15 + p) == seq![0x48u8, 0x83, 0xc4, 0x08]
    &&& stores_result(b.subrange(15 + p, k), d, if rem { 2int } else { 0int })
    &&& b[k] == 0x58 && b[k + 1] == 0x5a
}

proof fn lemma_quotient_store(d: u8, src: u8)
    requires
        d < 16,
        src == 0 || src == 2,
    ensures
        stores_result(quotient_store(d, src), d as int, src as int),
        quotient_store(d, src).len() == result_store_len(d as int),
{
    reveal(mov_rr);
    lemma_fields(src, d);
}

#[verifier::spinoff_prover]
proof fn lemma_division_bytes(d: u8, t: usize, rem: bool)
    requires
        d < 16,
    ensures
        divides_into(division_bytes(d, OperandModel::Tray(t), rem), d as int, x86_reg(t) as int, rem),
{
    reveal(division_bytes);
    reveal(div_tail);
    reveal(mov_rr);
    lemma_x86_reg_range(t);
    let q = x86_reg(t);
    lemma_push_pop(q);
    lemma_fields(d, 0);
    let src: u8 = if rem { 2u8 } else { 0u8 };
    lemma_quotient_store(d, src);
    let b = division_bytes(d, OperandModel::Tray(t), rem);
    let p = push_op(q).len() as int;
    let qs = quotient_store(d, src);
    let k = 15 + p + qs.len();
    assert(b =~= seq![0x52u8, 0x50] + push_op(q) + mov_rr(0, d) + seq![
        0x48u8,
        0x99,
        0x48,
        0xf7,
        0x3c,
        0x24,
        0x48,
        0x83,
        0xc4,
        0x08,
    ] + qs + seq![0x58u8, 0x5a]);
    assert(b.subrange(2, 2 + p) =~= push_op(q));
    assert(b.subrange(2 + p, 5 + p) =~= mov_rr(0, d));
    assert(b.subrange(5 + p, 7 + p) =~= seq![0x48u8, 0x99]);
    assert(b.subrange(7 + p, 11 + p) =~= seq![0x48u8, 0xf7, 0x3c, 0x24]);
    assert(b.subrange(11 + p, 15 + p) =~= seq![0x48u8, 0x83, 0xc4, 0x08]);
    assert(b.subrange(15 + p, k) =~= qs);
}

/// Dividing trayD by trayS (or taking the remainder): RDX and RAX are pushed,
/// then trayS's register (so the divisor is read before anything changes), RAX
/// gets trayD (`mov`), `cqo` sign-extends it into RDX, `idiv qword [rsp]` divides
/// signed by the pushed divisor (quotient in RAX, remainder in RDX, truncating
/// toward zero), the divisor is dropped (`add rsp, 8`), the quotient (or the
/// remainder) is stored into trayD, and RAX and RDX are popped: only trayD
/// changes.
#[verifier::spinoff_prover]
pub proof fn lemma_divide_tray(s: JitState, t: usize, dst: usize, rem: bool)
    ensures
        ({
            let m = s.code.len() as int;
            let inst = if rem {
                InstrModel::Modulo { src: OperandModel::Tray(t), dst_tray: dst }
            } else {
                InstrModel::Divide { src: OperandModel::Tray(t), dst_tray: dst }
            };
            let c = compile_step(s, inst).code;
            &&& c.subrange(0, m) == s.code
            &&& divides_into(c.subrange(m, c.len() as int), x86_reg(dst) as int, x86_reg(t) as int, rem)
        }),
{
    lemma_x86_reg_range(dst);
    let d = x86_reg(dst);
    lemma_division_bytes(d, t, rem);
    let m = s.code.len() as int;
    let inst = if rem {
        InstrModel::Modulo { src: OperandModel::Tray(t), dst_tray: dst }
    } else {
        InstrModel::Divide { src: OperandModel::Tray(t), dst_tray: dst }
    };
    let c = compile_step(s, inst).code;
    assert(c.subrange(0, m) =~= s.code);
    assert(c.subrange(m, c.len() as int) =~= division_bytes(d, OperandModel::Tray(t), rem));
}

/// Returning with trayN copies trayN's register into RAX (`mov rax, r`, unless it
/// is RAX already) and then returns (`c3`); a bare `return` only returns.
#[verifier::spinoff_prover]
pub proof fn lemma_return(s: JitState, t: usize)
    ensures
        ({
            let m = s.code.len() as int;
            let r = x86_reg(t) as int;
            let c = compile_step(s, InstrModel::Return { tray: Some(t) }).code;
            let e = compile_step(s, InstrModel::Return { tray: None }).code;
            &&& e == s.code.push(0xc3)
            &&& c.subrange(0, m) == s.code
            &&& c.last() == 0xc3
            &&& (r == 0 ==> c.len() == m + 1)
            &&& (r != 0 ==> c.len() == m + 4 && reg_instruction(c.subrange(m, m + 3), 0x89, 0, r))
        }),
{
    reveal(mov_rr);
    lemma_x86_reg_range(t);
    lemma_fields(x86_reg(t), 0);
    let m = s.code.len() as int;
    let c = compile_step(s, InstrModel::Return { tray: Some(t) }).code;
    assert(c.subrange(0, m) =~= s.code);
    if x86_reg(t) != 0 {
        assert(c.subrange(m, m + 3) =~= mov_rr(0, x86_reg(t)));
    }
    assert(compile_step(s, InstrModel::Return { tray: None }).code =~= s.code.push(0xc3));
}

/// Whether the 32-bit displacement `window`, ending a jump or call whose
/// displacement starts at `at`, lands on `target`: the next instruction's address
/// plus the displacement is `target`, modulo 2^32.
pub open spec fn lands_on(window: Seq<u8>, at: int, target: int) -> bool {
    window.len() == 4 && (at + 4 + le_value(window)) % 0x1_0000_0000 == target % 0x1_0000_0000
}

proof fn lemma_rel_lands(to: int, at: int)
    ensures
        lands_on(le_bytes(rel32(to, at + 4), 4), at, to),
{
    lemma_pow256_8();
    let v = rel32(to, at + 4);
    assert(0 <= v < 0x1_0000_0000);
    lemma_le_bytes_len(v, 4);
    lemma_le_bytes_value(v, 4);
    assert((at + 4 + v) % 0x1_0000_0000 == to % 0x1_0000_0000) by (nonlinear_arith)
        requires
            v == (to - (at + 4)) % 0x1_0000_0000,
    ;
}

/// In a program that compiles, once finished and linked, every call and jump to a
/// workstation it labels lands on that workstation, and the entry jump lands on
/// `main` (or on the next instruction when there is none).
pub proof fn lemma_program_lands(arch: CpuArch, lines: Seq<Seq<char>>, data_base: int)
    requires
        compile_lines(arch, lines) is Ok,
    ensures
        ({
            let s = finished(compile_lines(arch, lines)->Ok_0);
            let c = linked_code(s, data_base);
            &&& forall|k: int|
                0 <= k < s.calls.len() && s.offsets.contains_key(#[trigger] s.calls[k].1) ==> lands_on(
                    c.subrange(s.calls[k].0 as int, s.calls[k].0 + 4),
                    s.calls[k].0 as int,
                    s.offsets[s.calls[k].1] as int,
                )
            &&& forall|k: int|
                0 <= k < s.jumps.len() && s.offsets.contains_key(#[trigger] s.jumps[k].1) ==> lands_on(
                    c.subrange(s.jumps[k].0 as int, s.jumps[k].0 + 4),
                    s.jumps[k].0 as int,
                    s.offsets[s.jumps[k].1] as int,
                )
            &&& s.entry matches Some(e) ==> lands_on(
                c.subrange(e as int, e + 4),
                e as int,
                if s.offsets.contains_key("main"@) {
                    s.offsets["main"@] as int
                } else {
                    e + 4
                },
            )
        }),
{
    lemma_program_links(arch, lines, data_base);
    let s = finished(compile_lines(arch, lines)->Ok_0);
    let c = linked_code(s, data_base);
    assert forall|k: int|
        0 <= k < s.calls.len() && s.offsets.contains_key(#[trigger] s.calls[k].1) implies lands_on(
            c.subrange(s.calls[k].0 as int, s.calls[k].0 + 4),
            s.calls[k].0 as int,
            s.offsets[s.calls[k].1] as int,
        ) by {
        lemma_rel_lands(s.offsets[s.calls[k].1] as int, s.calls[k].0 as int);
    }
    assert forall|k: int|
        0 <= k < s.jumps.len() && s.offsets.contains_key(#[trigger] s.jumps[k].1) implies lands_on(
            c.subrange(s.jumps[k].0 as int, s.jumps[k].0 + 4),
            s.jumps[k].0 as int,
            s.offsets[s.jumps[k].1] as int,
        ) by {
        lemma_rel_lands(s.offsets[s.jumps[k].1] as int, s.jumps[k].0 as int);
    }
    if let Some(e) = s.entry {
        assert(main_name() == "main"@);
        lemma_rel_lands(entry_target(s, e as int), e as int);
    }
}

/// The jump that skips an inline condition's instruction lands right after the
/// instruction's code.
pub proof fn lemma_inline_skip_lands(
    s: JitState,
    tray: usize,
    op: ConditionOp,
    target_val: OperandModel,
    then_inst: InstrModel,
)
    ensures
        ({
            let skip = (s.code.len() + compare_bytes(x86_reg(tray), target_val).len() + 2) as int;
            let r = compile_step(
                s,
                InstrModel::InlineIf { tray, op, target_val, then_inst: Box::new(then_inst) },
            );
            lands_on(r.code.subrange(skip, skip + 4), skip, r.code.len() as int)
        }),
{
    lemma_inline_skip(s, tray, op, target_val, then_inst);
    let skip = (s.code.len() + compare_bytes(x86_reg(tray), target_val).len() + 2) as int;
    let r = compile_step(s, InstrModel::InlineIf { tray, op, target_val, then_inst: Box::new(then_inst) });
    lemma_rel_lands(r.code.len() as int, skip);
}

/// `jump` is `jmp rel32` (`e9`) and `call workstation` is `call rel32` (`e8`),
/// each recording its displacement, right after the opcode, as a place to fill
/// in with the named workstation; a workstation's label is where the code stood
/// once the previous workstation was left, so its first instruction starts there.
pub proof fn lemma_jump_call_label(s: JitState, target: Seq<char>)
    requires
        s.code.len() + 5 <= usize::MAX,
    ensures
        ({
            let n = s.code.len() as int;
            let j = compile_step(s, InstrModel::Jump { target });
            let c = compile_step(s, InstrModel::Call { workstation: target });
            let w = compile_step(s, InstrModel::Workstation { name: target });
            &&& j.code.subrange(0, n) == s.code && j.code.len() == n + 5 && j.code[n] == 0xe9
            &&& j.jumps == s.jumps.push(((n + 1) as usize, target)) && j.calls == s.calls
            &&& c.code.subrange(0, n) == s.code && c.code.len() == n + 5 && c.code[n] == 0xe8
            &&& c.calls == s.calls.push(((n + 1) as usize, target)) && c.jumps == s.jumps
            &&& w.offsets.contains_key(target) && w.offsets[target] == w.code.len()
            &&& w.current == Some(target)
        }),
{
    reveal(pending_jump);
    reveal(pending_call);
    reveal(leave_workstation);
    let n = s.code.len() as int;
    let j = compile_step(s, InstrModel::Jump { target });
    let c = compile_step(s, InstrModel::Call { workstation: target });
    assert(j.code.subrange(0, n) =~= s.code);
    assert(c.code.subrange(0, n) =~= s.code);
    let w = compile_step(s, InstrModel::Workstation { name: target });
    assert(w.offsets[target] == w.code.len() as usize);
}

/// `say "text"` appends the text's UTF-8 bytes and a newline to the data and
/// writes them: with the registers a system call may clobber saved, RAX gets 1
/// (`write`), RDI 1 (standard output), RSI the address of the text (a string load
/// of the data offset where the text starts), RDX its length in bytes, then
/// `syscall`, then the registers are restored.
#[verifier::spinoff_prover]
pub proof fn lemma_say_literal_writes(s: JitState, text: Seq<char>)
    requires
        encode_utf8(text).len() + 1 < 0x1_0000_0000_0000_0000,
        s.code.len() + 64 <= usize::MAX,
        s.data.len() <= usize::MAX,
    ensures
        ({
            let n = s.code.len() as int;
            let bytes = encode_utf8(text) + seq![10u8];
            let r = compile_step(s, InstrModel::SayLiteral { text });
            &&& r.data == s.data + bytes
            &&& r.code.len() == n + 56
            &&& r.code.subrange(0, n) == s.code
            &&& r.code.subrange(n, n + 7) == preserve_bytes()
            &&& loads_immediate(r.code.subrange(n + 7, n + 17), 0, 1)
            &&& loads_immediate(r.code.subrange(n + 17, n + 27), 7, 1)
            &&& r.code[n + 27] == 0x48 && r.code[n + 28] == 0xbe
            &&& r.strings == s.strings.push(((n + 29) as usize, s.data.len() as usize))
            &&& loads_immediate(r.code.subrange(n + 37, n + 47), 2, bytes.len() as int)
            &&& r.code[n + 47] == 0x0f && r.code[n + 48] == 0x05
            &&& r.code.subrange(n + 49, n + 56) == restore_bytes()
        }),
{
    reveal(say_literal);
    let bytes = encode_utf8(text) + seq![10u8];
    lemma_loads(0, 1);
    lemma_loads(7, 1);
    lemma_loads(2, bytes.len() as int);
    reveal(mov_imm64);
    lemma_le_bytes_len(1, 8);
    lemma_le_bytes_len(bytes.len() as int, 8);
    let n = s.code.len() as int;
    let r = compile_step(s, InstrModel::SayLiteral { text });
    assert(r.code =~= s.code + preserve_bytes() + mov_imm64(0, 1) + mov_imm64(7, 1) + seq![0x48u8, 0xbe]
        + zeros8() + mov_imm64(2, bytes.len() as int) + seq![0x0fu8, 0x05] + restore_bytes());
    assert(r.code.subrange(0, n) =~= s.code);
    assert(r.code.subrange(n, n + 7) =~= preserve_bytes());
    assert(r.code.subrange(n + 7, n + 17) =~= mov_imm64(0, 1));
    assert(r.code.subrange(n + 17, n + 27) =~= mov_imm64(7, 1));
    assert(r.code.subrange(n + 37, n + 47) =~= mov_imm64(2, bytes.len() as int));
    assert(r.code.subrange(n + 49, n + 56) =~= restore_bytes());
}

/// The registers the generated program must give back to its caller unchanged
/// (callee-saved in the System V ABI), and the frame base: RBX, R12-R15, RBP.
pub open spec fn callee_saved() -> Seq<u8> {
    seq![3u8, 12, 13, 14, 15, 5]
}

/// The program saves every callee-saved register on entry, before it touches
/// any, and on exit puts the stack pointer back to the frame base, restores them
/// in the reverse order and returns: the caller's registers are kept.
pub proof fn lemma_callee_saved()
    ensures
        prologue_bytes().subrange(0, 10) == pushes(callee_saved()),
        epilogue_bytes() == seq![0x48u8, 0x89, 0xec] + pops(callee_saved().reverse()) + seq![0xc3u8],
        reg_instruction(epilogue_bytes().subrange(0, 3), 0x89, 4, 5),
{
    reveal_with_fuel(pushes, 7);
    reveal_with_fuel(pops, 7);
    let r = callee_saved();
    assert(r.drop_first() =~= seq![12u8, 13, 14, 15, 5]);
    assert(seq![12u8, 13, 14, 15, 5].drop_first() =~= seq![13u8, 14, 15, 5]);
    assert(seq![13u8, 14, 15, 5].drop_first() =~= seq![14u8, 15, 5]);
    assert(seq![14u8, 15, 5].drop_first() =~= seq![15u8, 5]);
    assert(seq![15u8, 5].drop_first() =~= seq![5u8]);
    assert(seq![5u8].drop_first() =~= Seq::<u8>::empty());
    assert(r.reverse() =~= seq![5u8, 15, 14, 13, 12, 3]);
    assert(seq![5u8, 15, 14, 13, 12, 3].drop_first() =~= seq![15u8, 14, 13, 12, 3]);
    assert(seq![15u8, 14, 13, 12, 3].drop_first() =~= seq![14u8, 13, 12, 3]);
    assert(seq![14u8, 13, 12, 3].drop_first() =~= seq![13u8, 12, 3]);
    assert(seq![13u8, 12, 3].drop_first() =~= seq![12u8, 3]);
    assert(seq![12u8, 3].drop_first() =~= seq![3u8]);
    assert(seq![3u8].drop_first() =~= Seq::<u8>::empty());
    assert(prologue_bytes().subrange(0, 10) =~= pushes(callee_saved()));
    assert(epilogue_bytes() =~= seq![0x48u8, 0x89, 0xec] + pops(callee_saved().reverse()) + seq![0xc3u8]);
    assert(epilogue_bytes().subrange(0, 3) =~= seq![0x48u8, 0x89, 0xec]);
}

/// The registers an input routine saves, in the order it pushes them.
pub open spec fn input_saved() -> Seq<u8> {
    seq![0u8, 1, 2, 6, 7, 11, 8, 9]
}

/// An input routine (or a random draw) saves the registers it uses, pushing
/// them in the order of [`input_saved`]; at the end it hands the result in R8 to
/// the tray's register `r`: when `r` is one of the saved registers, by writing
/// the stack slot where `r` was pushed (the `i`-th push lies `8 * (7 - i)` bytes
/// above the stack pointer), so that restoring it delivers the result; otherwise
/// by `mov r, r8`. Then every saved register is popped in the reverse order.
pub proof fn lemma_input_result(r: u8)
    requires
        r < 16,
    ensures
        input_open() == pushes(input_saved()),
        ({
            let c = input_close(r);
            let k = if input_saved().contains(r) { 5int } else { 3int };
            &&& c.subrange(k, c.len() as int) == pops(input_saved().reverse())
            &&& forall|i: int| 0 <= i < 8 && input_saved()[i] == r ==> c.subrange(0, 5) == seq![
                0x4cu8,
                0x89,
                0x44,
                0x24,
                (8 * (7 - i)) as u8,
            ]
            &&& !input_saved().contains(r) ==> reg_instruction(c.subrange(0, 3), 0x89, r as int, 8)
        }),
{
    reveal(input_open);
    reveal(input_close);
    reveal(mov_rr);
    reveal_with_fuel(pushes, 9);
    reveal_with_fuel(pops, 9);
    let o = input_saved();
    assert(o.drop_first() =~= seq![1u8, 2, 6, 7, 11, 8, 9]);
    assert(seq![1u8, 2, 6, 7, 11, 8, 9].drop_first() =~= seq![2u8, 6, 7, 11, 8, 9]);
    assert(seq![2u8, 6, 7, 11, 8, 9].drop_first() =~= seq![6u8, 7, 11, 8, 9]);
    assert(seq![6u8, 7, 11, 8, 9].drop_first() =~= seq![7u8, 11, 8, 9]);
    assert(seq![7u8, 11, 8, 9].drop_first() =~= seq![11u8, 8, 9]);
    assert(seq![11u8, 8, 9].drop_first() =~= seq![8u8, 9]);
    assert(seq![8u8, 9].drop_first() =~= seq![9u8]);
    assert(seq![9u8].drop_first() =~= Seq::<u8>::empty());
    let rv = o.reverse();
    assert(rv =~= seq![9u8, 8, 11, 7, 6, 2, 1, 0]);
    assert(rv.drop_first() =~= seq![8u8, 11, 7, 6, 2, 1, 0]);
    assert(seq![8u8, 11, 7, 6, 2, 1, 0].drop_first() =~= seq![11u8, 7, 6, 2, 1, 0]);
    assert(seq![11u8, 7, 6, 2, 1, 0].drop_first() =~= seq![7u8, 6, 2, 1, 0]);
    assert(seq![7u8, 6, 2, 1, 0].drop_first() =~= seq![6u8, 2, 1, 0]);
    assert(seq![6u8, 2, 1, 0].drop_first() =~= seq![2u8, 1, 0]);
    assert(seq![2u8, 1, 0].drop_first() =~= seq![1u8, 0]);
    assert(seq![1u8, 0].drop_first() =~= seq![0u8]);
    assert(seq![0u8].drop_first() =~= Seq::<u8>::empty());
    assert(input_open() =~= pushes(o));
    let c = input_close(r);
    let in_list = r == 0 || r == 1 || r == 2 || r == 6 || r == 7 || r == 11 || r == 8 || r == 9;
    if in_list {
        assert(o.contains(r)) by {
            if r == 0 { assert(o[0] == r); } else if r == 1 { assert(o[1] == r); } else if r == 2 { assert(o[2] == r); }
            else if r == 6 { assert(o[3] == r); } else if r == 7 { assert(o[4] == r); } else if r == 11 { assert(o[5] == r); }
            else if r == 8 { assert(o[6] == r); } else { assert(o[7] == r); }
        }
        assert(c.subrange(5, c.len() as int) =~= pops(rv));
    } else {
        assert(!o.contains(r)) by {
            if o.contains(r) {
                let i = choose|i: int| 0 <= i < o.len() && o[i] == r;
                assert(o[i] == r);
            }
        }
        lemma_fields(8, r);
        assert(c.subrange(0, 3) =~= mov_rr(r, 8));
        assert(c.subrange(3, c.len() as int) =~= pops(rv));
    }
}

/// Saying a number saves the registers a system call may clobber and R8, copies
/// the tray's register `r` into RAX (`mov rax, r`, read before anything changes)
/// for printing, and restores R8 and the saved registers in the reverse order.
pub proof fn lemma_say_number_reads(r: u8)
    requires
        r < 16,
    ensures
        ({
            let b = say_number_bytes(r);
            &&& b.subrange(0, 7) == preserve_bytes()
            &&& b.subrange(7, 9) == seq![0x41u8, 0x50]
            &&& reg_instruction(b.subrange(9, 12), 0x89, 0, r as int)
            &&& b.subrange(b.len() - 9, b.len() as int) == seq![0x41u8, 0x58] + restore_bytes()
        }),
{
    reveal(say_number_bytes);
    reveal(mov_rr);
    lemma_fields(r, 0);
    let b = say_number_bytes(r);
    let t = number_text_bytes();
    assert(b =~= preserve_bytes() + seq![0x41u8, 0x50] + mov_rr(0, r) + t + seq![0x41u8, 0x58] + restore_bytes());
    assert(b.subrange(0, 7) =~= preserve_bytes());
    assert(b.subrange(7, 9) =~= seq![0x41u8, 0x50]);
    assert(b.subrange(9, 12) =~= mov_rr(0, r));
    assert(b.subrange(b.len() - 9, b.len() as int) =~= seq![0x41u8, 0x58] + restore_bytes());
}

} // verus!
