//! Instruction mnemonics, the decoding of an assembly line into an
//! instruction, and the assembly of a prepared program into memory.
use vstd::prelude::*;
use crate::frontend::CustomError;
use crate::metadata::labelinfo::immediatetrick::ImmediateAddressing;
use crate::metadata::memlayout::{
    data_fits, instruction_bytes, instruction_fits, put_data, put_instruction, store_all, stride, MemView, NeanderMem,
};
use crate::metadata::segment::SegInfo;
use crate::metadata::Metadata;
use crate::text::{
    lemma_total_len_skip, lemma_words_len, lines, string_of, text_lines, total_len,
    chars_eq, chars_of, digit_value, is_digit, parse_u8, parse_u8_chars, split_words,
    views, words, lemma_words_are_words,
};

verus! {

/// The instructions of the machine, with the extension instructions.
#[derive(Clone, Copy, Debug, PartialEq, Eq, Structural)]
pub enum Mnemonic {
    Nop,
    Sta,
    Lda,
    Add,
    Or,
    And,
    Not,
    Jmp,
    Jn,
    Jz,
    Hlt,
    Xor,
    Neg,
    Sub,
    Mul,
}

/// The mnemonic that a word names; an unknown word names `Nop`.
pub open spec fn mnemonic_of(s: Seq<char>) -> Mnemonic {
    if s == seq!['n', 'o', 'p'] {
        Mnemonic::Nop
    } else if s == seq!['s', 't', 'a'] || s == seq!['s', 'r'] {
        Mnemonic::Sta
    } else if s == seq!['l', 'd', 'a'] || s == seq!['l', 'r'] {
        Mnemonic::Lda
    } else if s == seq!['a', 'd', 'd'] {
        Mnemonic::Add
    } else if s == seq!['o', 'r'] {
        Mnemonic::Or
    } else if s == seq!['a', 'n', 'd'] {
        Mnemonic::And
    } else if s == seq!['n', 'o', 't'] {
        Mnemonic::Not
    } else if s == seq!['j', 'm', 'p'] {
        Mnemonic::Jmp
    } else if s == seq!['j', 'n'] {
        Mnemonic::Jn
    } else if s == seq!['j', 'z'] {
        Mnemonic::Jz
    } else if s == seq!['h', 'l', 't'] {
        Mnemonic::Hlt
    } else if s == seq!['x', 'o', 'r'] {
        Mnemonic::Xor
    } else if s == seq!['n', 'e', 'g'] {
        Mnemonic::Neg
    } else if s == seq!['s', 'u', 'b'] {
        Mnemonic::Sub
    } else if s == seq!['m', 'u', 'l'] {
        Mnemonic::Mul
    } else {
        Mnemonic::Nop
    }
}

/// The four-bit operation code of a mnemonic.
pub open spec fn op_code(m: Mnemonic) -> nat {
    match m {
        Mnemonic::Nop => 0,
        Mnemonic::Sta => 1,
        Mnemonic::Lda => 2,
        Mnemonic::Add => 3,
        Mnemonic::Or => 4,
        Mnemonic::And => 5,
        Mnemonic::Not => 6,
        Mnemonic::Jmp => 8,
        Mnemonic::Jn => 9,
        Mnemonic::Jz => 10,
        Mnemonic::Hlt => 15,
        Mnemonic::Xor => 7,
        Mnemonic::Neg => 12,
        Mnemonic::Sub => 13,
        Mnemonic::Mul => 14,
    }
}

/// Different mnemonics have different operation codes.
pub proof fn lemma_op_codes_distinct(a: Mnemonic, b: Mnemonic)
    ensures
        a != b ==> op_code(a) != op_code(b),
        op_code(a) < 16,
{
}

impl Mnemonic {
    /// The mnemonic named by a word (`sr` and `lr` are other names of `sta`
    /// and `lda`); an unknown word gives `Nop`.
    pub fn from_text(s: &str) -> (m: Mnemonic)
        ensures
            m == mnemonic_of(s@),
    {
        let v = chars_of(s);
        Self::from_chars(v.as_slice())
    }

    fn from_chars(w: &[char]) -> (m: Mnemonic)
        ensures
            m == mnemonic_of(w@),
    {
        if chars_eq(w, &['n', 'o', 'p']) {
            Mnemonic::Nop
        } else if chars_eq(w, &['s', 't', 'a']) || chars_eq(w, &['s', 'r']) {
            Mnemonic::Sta
        } else if chars_eq(w, &['l', 'd', 'a']) || chars_eq(w, &['l', 'r']) {
            Mnemonic::Lda
        } else if chars_eq(w, &['a', 'd', 'd']) {
            Mnemonic::Add
        } else if chars_eq(w, &['o', 'r']) {
            Mnemonic::Or
        } else if chars_eq(w, &['a', 'n', 'd']) {
            Mnemonic::And
        } else if chars_eq(w, &['n', 'o', 't']) {
            Mnemonic::Not
        } else if chars_eq(w, &['j', 'm', 'p']) {
            Mnemonic::Jmp
        } else if chars_eq(w, &['j', 'n']) {
            Mnemonic::Jn
        } else if chars_eq(w, &['j', 'z']) {
            Mnemonic::Jz
        } else if chars_eq(w, &['h', 'l', 't']) {
            Mnemonic::Hlt
        } else if chars_eq(w, &['x', 'o', 'r']) {
            Mnemonic::Xor
        } else if chars_eq(w, &['n', 'e', 'g']) {
            Mnemonic::Neg
        } else if chars_eq(w, &['s', 'u', 'b']) {
            Mnemonic::Sub
        } else if chars_eq(w, &['m', 'u', 'l']) {
            Mnemonic::Mul
        } else {
            Mnemonic::Nop
        }
    }

    /// The operation byte of the mnemonic: its operation code in the high four bits.
    pub fn to_opcode(&self) -> (b: u8)
        ensures
            b == 16 * op_code(*self),
    {
        16 * match self {
            Mnemonic::Nop => 0b0000,
            Mnemonic::Sta => 0b0001,
            Mnemonic::Lda => 0b0010,
            Mnemonic::Add => 0b0011,
            Mnemonic::Or => 0b0100,
            Mnemonic::And => 0b0101,
            Mnemonic::Not => 0b0110,
            Mnemonic::Jmp => 0b1000,
            Mnemonic::Jn => 0b1001,
            Mnemonic::Jz => 0b1010,
            Mnemonic::Hlt => 0b1111,
            Mnemonic::Xor => 0b0111,
            Mnemonic::Neg => 0b1100,
            Mnemonic::Sub => 0b1101,
            Mnemonic::Mul => 0b1110,
        }
    }
}


/// A decoded instruction: the extension instructions name a destination and
/// a source register; memory instructions name an address.
pub struct Instruction {
    pub mnemonic: Mnemonic,
    pub destination: Option<u8>,
    pub source: Option<u8>,
    pub addr: Option<u8>,
}

/// The address operand at word `i`, if there is such a word and it is a byte.
pub open spec fn addr_operand(ws: Seq<Seq<char>>, i: int) -> Option<u8> {
    if i < ws.len() {
        parse_u8(ws[i])
    } else {
        None
    }
}

/// The register operand at word `i`: the digit that ends the word.
pub open spec fn reg_operand(ws: Seq<Seq<char>>, i: int) -> Option<u8> {
    if i < ws.len() {
        Some(digit_value(ws[i].last()) as u8)
    } else {
        None
    }
}

/// Whether word `i`, if there is one, ends with a decimal digit.
pub open spec fn reg_operand_ok(ws: Seq<Seq<char>>, i: int) -> bool {
    i < ws.len() ==> is_digit(ws[i].last())
}

/// The instruction that a line of assembly decodes to.
pub open spec fn instruction_of(line: Seq<char>, extended: bool) -> Instruction {
    let ws = words(line);
    let m = mnemonic_of(ws[0]);
    if !extended {
        Instruction { mnemonic: m, destination: None, source: None, addr: addr_operand(ws, 1) }
    } else {
        match m {
            Mnemonic::Lda | Mnemonic::Sta => Instruction {
                mnemonic: m,
                destination: reg_operand(ws, 1),
                source: None,
                addr: addr_operand(ws, 2),
            },
            Mnemonic::Jmp | Mnemonic::Jn | Mnemonic::Jz => Instruction {
                mnemonic: m,
                destination: None,
                source: None,
                addr: addr_operand(ws, 1),
            },
            Mnemonic::Neg | Mnemonic::Not => Instruction {
                mnemonic: m,
                destination: reg_operand(ws, 1),
                source: None,
                addr: None,
            },
            _ => Instruction {
                mnemonic: m,
                destination: reg_operand(ws, 1),
                source: reg_operand(ws, 2),
                addr: None,
            },
        }
    }
}

/// Whether a line decodes without failing: it has a word, and in extended
/// mode each register operand ends with a decimal digit.
pub open spec fn line_decodes(line: Seq<char>, extended: bool) -> bool {
    let ws = words(line);
    &&& ws.len() > 0
    &&& extended ==> match mnemonic_of(ws[0]) {
        Mnemonic::Jmp | Mnemonic::Jn | Mnemonic::Jz => true,
        Mnemonic::Lda | Mnemonic::Sta | Mnemonic::Neg | Mnemonic::Not => reg_operand_ok(ws, 1),
        _ => reg_operand_ok(ws, 1) && reg_operand_ok(ws, 2),
    }
}

fn addr_at(ws: &Vec<Vec<char>>, i: usize) -> (r: Option<u8>)
    ensures
        r == addr_operand(views(ws@), i as int),
{
    if i < ws.len() {
        parse_u8_chars(&ws[i])
    } else {
        None
    }
}

fn reg_at(ws: &Vec<Vec<char>>, i: usize) -> (r: Option<u8>)
    requires
        reg_operand_ok(views(ws@), i as int),
        forall|j: int| 0 <= j < ws.len() ==> #[trigger] ws@[j].len() > 0,
    ensures
        r == reg_operand(views(ws@), i as int),
{
    if i < ws.len() {
        let w = &ws[i];
        assert(views(ws@)[i as int] == w@);
        let c = w[w.len() - 1];
        let u = c as u32;
        Some((u - 48) as u8)
    } else {
        None
    }
}

/// The register that a register operand names: the digit that ends it.
pub open spec fn register_named(w: Seq<char>) -> u8 {
    (((w.last() as u32) - 48) as nat) as u8
}

/// How a line decodes, operand by operand. Without the extension every
/// instruction takes the byte written as its second word as address. With
/// it, a load or a store (`lda rN a`, `sta rN a`) takes register N as
/// destination and the byte `a` as address; a jump takes the byte after it
/// as address; `neg rN` and `not rN` take one register and no address; the
/// other instructions take a destination and a source register and no
/// address. A missing operand decodes as none; a memory operand that is not
/// a byte decodes as no address. A line decodes unless, with the
/// extension, one of its register operands does not end with a digit.
pub proof fn lemma_decoded_operands(line: Seq<char>, extended: bool)
    requires
        words(line).len() > 0,
    ensures
        ({
            let ws = words(line);
            let ins = instruction_of(line, extended);
            let m = mnemonic_of(ws[0]);
            let word1 = if ws.len() > 1 { parse_u8(ws[1]) } else { None };
            let word2 = if ws.len() > 2 { parse_u8(ws[2]) } else { None };
            let reg1 = if ws.len() > 1 { Some(register_named(ws[1])) } else { None };
            let reg2 = if ws.len() > 2 { Some(register_named(ws[2])) } else { None };
            &&& ins.mnemonic == m
            &&& !extended ==> ins.destination is None && ins.source is None && ins.addr == word1
            &&& extended && (m is Lda || m is Sta) ==> ins.destination == reg1 && ins.source is None
                && ins.addr == word2
            &&& extended && (m is Jmp || m is Jn || m is Jz) ==> ins.destination is None
                && ins.source is None && ins.addr == word1
            &&& extended && (m is Neg || m is Not) ==> ins.destination == reg1 && ins.source is None
                && ins.addr is None
            &&& extended && !(m is Lda || m is Sta || m is Jmp || m is Jn || m is Jz || m is Neg
                || m is Not) ==> ins.destination == reg1 && ins.source == reg2 && ins.addr is None
            &&& !extended ==> line_decodes(line, extended)
            &&& extended && (m is Jmp || m is Jn || m is Jz) ==> line_decodes(line, extended)
            &&& extended && (m is Lda || m is Sta || m is Neg || m is Not) ==> (line_decodes(
                line,
                extended,
            ) <==> (ws.len() > 1 ==> is_digit(ws[1].last())))
            &&& extended && !(m is Lda || m is Sta || m is Jmp || m is Jn || m is Jz || m is Neg
                || m is Not) ==> (line_decodes(line, extended) <==> (ws.len() > 1 ==> is_digit(
                ws[1].last(),
            )) && (ws.len() > 2 ==> is_digit(ws[2].last())))
        }),
{
}

/// A load or a store in extended mode, `lda rN a` or `sta rN a` with `a` a
/// byte, is written as two machine bytes (each followed by a padding byte in
/// the simulator's format): its operation code with the register, and the
/// address `a`.
pub proof fn lemma_memory_instruction_bytes(line: Seq<char>, target_sim: bool, a: u8)
    requires
        words(line).len() > 2,
        mnemonic_of(words(line)[0]) is Lda || mnemonic_of(words(line)[0]) is Sta,
        parse_u8(words(line)[2]) == Some(a),
    ensures
        instruction_bytes(instruction_of(line, true), target_sim).len() == 2 * stride(target_sim),
        instruction_bytes(instruction_of(line, true), target_sim)[stride(target_sim) as int] == a,
        instruction_bytes(instruction_of(line, true), target_sim)[0] == (16 * op_code(
            mnemonic_of(words(line)[0]),
        ) + (register_named(words(line)[1]) * 4) % 256) as u8,
{
}

impl Instruction {
    /// Decodes a line of assembly (in extended mode, with register operands).
    pub fn from_line(line: &str, extended: bool) -> (ins: Instruction)
        requires
            line_decodes(line@, extended),
        ensures
            ins == instruction_of(line@, extended),
    {
        let v = chars_of(line);
        let ws = split_words(&v);
        proof {
            lemma_words_are_words(v@);
            assert forall|j: int| 0 <= j < ws.len() implies #[trigger] ws@[j].len() > 0 by {
                assert(views(ws@)[j] == ws@[j]@);
            }
        }
        assert(views(ws@)[0] == ws@[0]@);
        let mnemonic = Mnemonic::from_chars(ws[0].as_slice());
        if extended {
            match mnemonic {
                Mnemonic::Lda | Mnemonic::Sta => Instruction {
                    mnemonic,
                    destination: reg_at(&ws, 1),
                    source: None,
                    addr: addr_at(&ws, 2),
                },
                Mnemonic::Jmp | Mnemonic::Jn | Mnemonic::Jz => Instruction {
                    mnemonic,
                    destination: None,
                    source: None,
                    addr: addr_at(&ws, 1),
                },
                Mnemonic::Neg | Mnemonic::Not => Instruction {
                    mnemonic,
                    destination: reg_at(&ws, 1),
                    source: None,
                    addr: None,
                },
                _ => Instruction {
                    mnemonic,
                    destination: reg_at(&ws, 1),
                    source: reg_at(&ws, 2),
                    addr: None,
                },
            }
        } else {
            Instruction { mnemonic, destination: None, source: None, addr: addr_at(&ws, 1) }
        }
    }
}


/// The state of assembly after some lines: whether the next line is read as
/// code, how many words have been read in the current segment, and the image.
pub struct AsmState {
    pub on_code: bool,
    pub counting_words: nat,
    pub mem: MemView,
}

/// The segment that the next line belongs to, and the words read in it
/// before that line: once a segment's words have all been read, the other
/// segment starts.
pub open spec fn asm_mode(st: AsmState, seg: SegInfo) -> (bool, nat) {
    if st.on_code {
        if st.counting_words >= seg.code.len {
            (false, 0)
        } else {
            (true, st.counting_words)
        }
    } else {
        if st.counting_words >= seg.data.len {
            (true, 0)
        } else {
            (false, st.counting_words)
        }
    }
}

/// The image after one line is written: a code line as an instruction, a
/// data line as a byte.
pub open spec fn line_written(on_code: bool, mem: MemView, line: Seq<char>, extended: bool) -> MemView {
    if on_code {
        put_instruction(mem, instruction_of(line, extended))
    } else {
        put_data(mem, parse_u8(line)->0)
    }
}

/// Whether one line can be written: a code line decodes and its
/// instruction fits; a data line is a byte and fits.
pub open spec fn line_ok(on_code: bool, mem: MemView, line: Seq<char>, extended: bool) -> bool {
    if on_code {
        line_decodes(line, extended) && instruction_fits(mem, instruction_of(line, extended))
    } else {
        parse_u8(line) is Some && data_fits(mem)
    }
}

/// The error met at a line that cannot be written: a code line that does
/// not decode is an `Instruction` error, a data line that is not a byte is a
/// `MalformedLine`, and what does not fit is `NotEnoughMemory`.
pub open spec fn line_error(on_code: bool, line: Seq<char>, extended: bool) -> CustomError {
    if on_code {
        if !line_decodes(line, extended) {
            CustomError::Instruction
        } else {
            CustomError::NotEnoughMemory
        }
    } else {
        if parse_u8(line) is None {
            CustomError::MalformedLine
        } else {
            CustomError::NotEnoughMemory
        }
    }
}

/// Assembly of one more line.
pub open spec fn asm_step(st: AsmState, line: Seq<char>, seg: SegInfo, extended: bool) -> AsmState {
    let (on_code, cw) = asm_mode(st, seg);
    AsmState {
        on_code,
        counting_words: cw + words(line).len(),
        mem: line_written(on_code, st.mem, line, extended),
    }
}

/// Whether one more line can be assembled.
pub open spec fn asm_step_ok(st: AsmState, line: Seq<char>, seg: SegInfo, extended: bool) -> bool {
    line_ok(asm_mode(st, seg).0, st.mem, line, extended)
}

/// The state before the first line: the text starts with code exactly when
/// the code segment starts at position zero.
pub open spec fn asm_start(mem: MemView, seg: SegInfo) -> AsmState {
    AsmState { on_code: seg.code.addr == 0, counting_words: 0, mem }
}

/// Assembly of a sequence of lines.
pub open spec fn asm_scan(ls: Seq<Seq<char>>, mem: MemView, seg: SegInfo, extended: bool) -> AsmState
    decreases ls.len(),
{
    if ls.len() == 0 {
        asm_start(mem, seg)
    } else {
        asm_step(asm_scan(ls.drop_last(), mem, seg, extended), ls.last(), seg, extended)
    }
}

/// Whether every line can be assembled in turn.
pub open spec fn asm_ok(ls: Seq<Seq<char>>, mem: MemView, seg: SegInfo, extended: bool) -> bool {
    forall|i: int|
        0 <= i < ls.len() ==> asm_step_ok(
            #[trigger] asm_scan(ls.take(i), mem, seg, extended),
            ls[i],
            seg,
            extended,
        )
}

/// The error met at a line that cannot be assembled.
pub open spec fn step_error(st: AsmState, line: Seq<char>, seg: SegInfo, extended: bool) -> CustomError {
    line_error(asm_mode(st, seg).0, line, extended)
}

/// The error at the first line that cannot be assembled, if there is one.
pub open spec fn asm_failure(ls: Seq<Seq<char>>, mem: MemView, seg: SegInfo, extended: bool) -> Option<
    CustomError,
>
    decreases ls.len(),
{
    if ls.len() == 0 {
        None
    } else {
        let f = asm_failure(ls.drop_last(), mem, seg, extended);
        if f is Some {
            f
        } else if asm_step_ok(asm_scan(ls.drop_last(), mem, seg, extended), ls.last(), seg, extended) {
            None
        } else {
            Some(step_error(asm_scan(ls.drop_last(), mem, seg, extended), ls.last(), seg, extended))
        }
    }
}

/// No line fails exactly when every line can be assembled in turn.
pub proof fn lemma_asm_failure_ok(ls: Seq<Seq<char>>, mem: MemView, seg: SegInfo, extended: bool)
    ensures
        asm_failure(ls, mem, seg, extended) is None <==> asm_ok(ls, mem, seg, extended),
    decreases ls.len(),
{
    if ls.len() > 0 {
        let init = ls.drop_last();
        lemma_asm_failure_ok(init, mem, seg, extended);
        assert(ls.take(ls.len() - 1) =~= init);
        assert forall|i: int| 0 <= i < init.len() implies init.take(i) == ls.take(i) && init[i]
            == ls[i] by {
            assert(init.take(i) =~= ls.take(i));
        }
        if asm_ok(ls, mem, seg, extended) {
            assert forall|i: int| 0 <= i < init.len() implies asm_step_ok(
                #[trigger] asm_scan(init.take(i), mem, seg, extended),
                init[i],
                seg,
                extended,
            ) by {
                assert(asm_step_ok(asm_scan(ls.take(i), mem, seg, extended), ls[i], seg, extended));
            }
            assert(asm_step_ok(
                asm_scan(ls.take(ls.len() - 1), mem, seg, extended),
                ls[ls.len() - 1],
                seg,
                extended,
            ));
        }
        if asm_failure(ls, mem, seg, extended) is None {
            assert forall|i: int| 0 <= i < ls.len() implies asm_step_ok(
                #[trigger] asm_scan(ls.take(i), mem, seg, extended),
                ls[i],
                seg,
                extended,
            ) by {
                if i < init.len() {
                    assert(asm_step_ok(asm_scan(init.take(i), mem, seg, extended), init[i], seg, extended));
                }
            }
        }
    }
}

/// Assembly keeps the image's format, size and number of bytes.
pub proof fn lemma_asm_scan_shape(ls: Seq<Seq<char>>, mem: MemView, seg: SegInfo, extended: bool)
    requires
        asm_ok(ls, mem, seg, extended),
    ensures
        asm_scan(ls, mem, seg, extended).mem.target_sim == mem.target_sim,
        asm_scan(ls, mem, seg, extended).mem.mem_size == mem.mem_size,
        asm_scan(ls, mem, seg, extended).mem.arr.len() == mem.arr.len(),
    decreases ls.len(),
{
    if ls.len() > 0 {
        let init = ls.drop_last();
        assert forall|i: int| 0 <= i < init.len() implies asm_step_ok(
            #[trigger] asm_scan(init.take(i), mem, seg, extended),
            init[i],
            seg,
            extended,
        ) by {
            assert(init.take(i) =~= ls.take(i));
            assert(asm_step_ok(asm_scan(ls.take(i), mem, seg, extended), ls[i], seg, extended));
        }
        lemma_asm_scan_shape(init, mem, seg, extended);
        assert(ls.take(ls.len() - 1) =~= init);
        assert(asm_step_ok(asm_scan(ls.take(ls.len() - 1), mem, seg, extended), ls[ls.len() - 1], seg, extended));
    }
}

/// Once a line has failed, the first failure of any longer sequence is that one.
pub proof fn lemma_asm_failure_prefix(ls: Seq<Seq<char>>, mem: MemView, seg: SegInfo, extended: bool, i: int)
    requires
        0 <= i <= ls.len(),
        asm_failure(ls.take(i), mem, seg, extended) is Some,
    ensures
        asm_failure(ls, mem, seg, extended) == asm_failure(ls.take(i), mem, seg, extended),
    decreases ls.len() - i,
{
    if i < ls.len() {
        assert(ls.take(i + 1).drop_last() =~= ls.take(i));
        lemma_asm_failure_prefix(ls, mem, seg, extended, i + 1);
    } else {
        assert(ls.take(i) =~= ls);
    }
}

/// Whether each immediate's address falls inside the image.
pub open spec fn immediates_in_image(imms: Seq<ImmediateAddressing>, mem: MemView) -> bool {
    forall|i: int| 0 <= i < imms.len() ==> #[trigger] imms[i].addr * stride(mem.target_sim) < mem.arr.len()
}

/// The image that assembly leaves: the lines written in order, then the
/// immediates stored at their addresses.
pub open spec fn assembled(
    text: Seq<char>,
    mem: MemView,
    seg: SegInfo,
    imms: Seq<ImmediateAddressing>,
    extended: bool,
) -> MemView {
    let st = asm_scan(lines(text), mem, seg, extended);
    MemView { arr: store_all(st.mem.arr, imms, stride(st.mem.target_sim)), ..st.mem }
}

fn decodes(l: &Vec<char>, extended: bool) -> (b: bool)
    ensures
        b == line_decodes(l@, extended),
{
    let ws = split_words(l);
    proof {
        lemma_words_are_words(l@);
        assert forall|j: int| 0 <= j < ws.len() implies #[trigger] ws@[j].len() > 0 by {
            assert(views(ws@)[j] == ws@[j]@);
        }
    }
    if ws.len() == 0 {
        return false;
    }
    if !extended {
        return true;
    }
    assert(views(ws@)[0] == ws@[0]@);
    let m = Mnemonic::from_chars(ws[0].as_slice());
    let ok1 = ws.len() <= 1 || is_digit_char(ws[1][ws[1].len() - 1]);
    let ok2 = ws.len() <= 2 || is_digit_char(ws[2][ws[2].len() - 1]);
    proof {
        if ws.len() > 1 {
            assert(views(ws@)[1] == ws@[1]@);
        }
        if ws.len() > 2 {
            assert(views(ws@)[2] == ws@[2]@);
        }
    }
    match m {
        Mnemonic::Jmp | Mnemonic::Jn | Mnemonic::Jz => true,
        Mnemonic::Lda | Mnemonic::Sta | Mnemonic::Neg | Mnemonic::Not => ok1,
        _ => ok1 && ok2,
    }
}

fn is_digit_char(c: char) -> (b: bool)
    ensures
        b == is_digit(c),
{
    let u = c as u32;
    48 <= u && u <= 57
}

/// Writes one line as code or as data, or says why it cannot be written.
fn write_line(mem: &mut NeanderMem, on_code: bool, l: &Vec<char>, extended: bool) -> (r: Result<
    (),
    CustomError,
>)
    ensures
        r is Ok <==> line_ok(on_code, old(mem)@, l@, extended),
        r matches Err(e) ==> e == line_error(on_code, l@, extended) && final(mem)@ == old(mem)@,
        r is Ok ==> final(mem)@ == line_written(on_code, old(mem)@, l@, extended),
{
    if on_code {
        if !decodes(l, extended) {
            return Err(CustomError::Instruction);
        }
        let line = string_of(l);
        let ins = Instruction::from_line(line.as_str(), extended);
        if !mem.fits_instruction(&ins) {
            return Err(CustomError::NotEnoughMemory);
        }
        mem.write_instruction(ins);
        Ok(())
    } else {
        match parse_u8_chars(l) {
            None => Err(CustomError::MalformedLine),
            Some(value) => {
                if !mem.fits_data() {
                    return Err(CustomError::NotEnoughMemory);
                }
                mem.write_data(value);
                Ok(())
            },
        }
    }
}

/// Writes the prepared program into its memory image, or says which line
/// cannot be written: the lines are read as code or data by segment, and the
/// immediates are stored last.
pub fn try_assemble(metadata: Metadata, extended: bool) -> (r: Result<NeanderMem, CustomError>)
    ensures
        ({
            let ls = lines(metadata.text@);
            let f = asm_failure(ls, metadata.mem_layout@, metadata.seg_info, extended);
            let imms = metadata.label_info.immediates@;
            &&& r is Ok <==> f is None && immediates_in_image(imms, metadata.mem_layout@)
            &&& r matches Err(e) ==> (if f is Some {
                e == f->0
            } else {
                e == CustomError::NotEnoughMemory
            })
            &&& r matches Ok(mem) ==> mem@ == assembled(
                metadata.text@,
                metadata.mem_layout@,
                metadata.seg_info,
                imms,
                extended,
            )
        }),
{
    let ghost start = metadata.mem_layout@;
    let ghost seg = metadata.seg_info;
    let ghost imms = metadata.label_info.immediates@;
    let mut mem = metadata.mem_layout;
    let immediates = metadata.label_info.immediates;
    let mut on_code = metadata.seg_info.code.addr == 0;
    let mut counting_words: usize = 0;
    let ls = text_lines(metadata.text.as_str());
    let ghost all = views(ls@);
    let mut i: usize = 0;
    assert(all.take(0) =~= seq![]);
    assert(all.skip(0) =~= all);
    while i < ls.len()
        invariant
            i <= ls.len(),
            all == views(ls@),
            all == lines(metadata.text@),
            seg == metadata.seg_info,
            start == metadata.mem_layout@,
            total_len(all) <= usize::MAX,
            asm_failure(all.take(i as int), start, seg, extended) is None,
            ({
                let st = asm_scan(all.take(i as int), start, seg, extended);
                &&& mem@ == st.mem
                &&& on_code == st.on_code
                &&& counting_words == st.counting_words
            }),
            mem.arr.len() == start.arr.len(),
            mem.target_sim == start.target_sim,
            counting_words + total_len(all.skip(i as int)) <= total_len(all),
        decreases ls.len() - i,
    {
        let ghost st = asm_scan(all.take(i as int), start, seg, extended);
        assert(all.take(i + 1).drop_last() =~= all.take(i as int));
        let l = &ls[i];
        assert(all[i as int] == l@);
        assert(all.take(i + 1).last() == l@);
        proof {
            lemma_total_len_skip(all, i as int);
            lemma_words_len(l@);
        }
        if on_code {
            if counting_words >= metadata.seg_info.code.len {
                on_code = false;
                counting_words = 0;
            }
        } else if counting_words >= metadata.seg_info.data.len {
            on_code = true;
            counting_words = 0;
        }
        assert(on_code == asm_mode(st, seg).0);
        let ws = split_words(l);
        assert(views(ws@).len() == ws@.len());
        counting_words += ws.len();
        match write_line(&mut mem, on_code, l, extended) {
            Ok(()) => {},
            Err(e) => {
                assert(asm_failure(all.take(i + 1), start, seg, extended) == Some(e));
                proof {
                    lemma_asm_failure_prefix(all, start, seg, extended, i + 1);
                }
                return Err(e);
            },
        }
        i += 1;
    }
    assert(all.take(i as int) =~= all);
    assert(asm_failure(all, start, seg, extended) is None);
    let mut k: usize = 0;
    let per: usize = if mem.target_sim {
        2
    } else {
        1
    };
    while k < immediates.len()
        invariant
            k <= immediates.len(),
            immediates@ == imms,
            per == stride(mem.target_sim),
            mem.target_sim == start.target_sim,
            mem.arr.len() == start.arr.len(),
            all == lines(metadata.text@),
            seg == metadata.seg_info,
            start == metadata.mem_layout@,
            imms == metadata.label_info.immediates@,
            asm_failure(all, start, seg, extended) is None,
            forall|j: int| 0 <= j < k ==> #[trigger] imms[j].addr * stride(start.target_sim) < start.arr.len(),
        decreases immediates.len() - k,
    {
        let a = immediates[k].addr;
        if a > 0 && per > (usize::MAX / a) {
            assert(a * per > usize::MAX) by (nonlinear_arith)
                requires
                    a > 0,
                    per > usize::MAX / a,
            ;
            assert(!immediates_in_image(imms, start));
            return Err(CustomError::NotEnoughMemory);
        }
        assert(a * per <= usize::MAX) by (nonlinear_arith)
            requires
                a == 0 || per <= usize::MAX / a,
        ;
        if a * per >= mem.arr.len() {
            assert(!immediates_in_image(imms, start));
            return Err(CustomError::NotEnoughMemory);
        }
        k += 1;
    }
    mem.write_reverse_data(immediates);
    Ok(mem)
}

/// Writes the prepared program into its memory image: the lines are read as
/// code or data by segment, and the immediates are stored last.
pub fn assemble(metadata: Metadata, extended: bool) -> (mem: NeanderMem)
    requires
        asm_ok(lines(metadata.text@), metadata.mem_layout@, metadata.seg_info, extended),
        immediates_in_image(metadata.label_info.immediates@, metadata.mem_layout@),
    ensures
        mem@ == assembled(
            metadata.text@,
            metadata.mem_layout@,
            metadata.seg_info,
            metadata.label_info.immediates@,
            extended,
        ),
{
    proof {
        lemma_asm_failure_ok(lines(metadata.text@), metadata.mem_layout@, metadata.seg_info, extended);
    }
    try_assemble(metadata, extended).unwrap()
}

} // verus!
