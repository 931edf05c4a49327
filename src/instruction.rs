use vstd::prelude::*;

use crate::expr::CODE_START;
use crate::opcode::Opcode;

verus! {

/// A fully resolved unit of output.
#[derive(Debug, PartialEq, Eq)]
pub enum Instruction {
    /// An arithmetic-class operation: register operand and value operand.
    Arith { op: Opcode, reg: u16, imm: u16 },
    /// A conditional jump: register operand, value operand and target address.
    Jump { op: Opcode, reg: u16, imm: u16, label: u16 },
    /// 16-bit data words.
    Data(Vec<u16>),
    /// Bytes, always an even number of them.
    ByteData(Vec<u8>),
}

/// The model of an instruction.
pub enum Instr {
    Arith(Opcode, u16, u16),
    Jump(Opcode, u16, u16, u16),
    Data(Seq<u16>),
    Bytes(Seq<u8>),
}

impl View for Instruction {
    type V = Instr;

    open spec fn view(&self) -> Instr {
        match self {
            Instruction::Arith { op, reg, imm } => Instr::Arith(*op, *reg, *imm),
            Instruction::Jump { op, reg, imm, label } => Instr::Jump(*op, *reg, *imm, *label),
            Instruction::Data(v) => Instr::Data(v@),
            Instruction::ByteData(v) => Instr::Bytes(v@),
        }
    }
}

/// The models of a list of instructions.
pub open spec fn instrs(s: Seq<Instruction>) -> Seq<Instr> {
    s.map_values(|i: Instruction| i@)
}

/// An instruction can be encoded: its register operand lies in the register
/// window and byte data has even length.
pub open spec fn encodable(i: Instr) -> bool {
    match i {
        Instr::Arith(_, reg, _) => reg < CODE_START,
        Instr::Jump(_, reg, _, _) => reg < CODE_START,
        Instr::Data(_) => true,
        Instr::Bytes(b) => b.len() % 2 == 0,
    }
}

/// A word, low byte first.
pub open spec fn word_bytes(w: u16) -> Seq<u8> {
    seq![(w % 256) as u8, (w / 256) as u8]
}

/// Words, each low byte first.
pub open spec fn words_bytes(ws: Seq<u16>) -> Seq<u8>
    decreases ws.len(),
{
    if ws.len() == 0 {
        Seq::empty()
    } else {
        words_bytes(ws.drop_last()) + word_bytes(ws.last())
    }
}

/// The first word of an operation: the opcode's code in the top six bits,
/// the register operand in the low ten.
pub open spec fn head_word(op: Opcode, reg: u16) -> u16 {
    (op.spec_code() * 1024 + reg) as u16
}

/// The output words of an instruction, low byte first.
pub open spec fn instr_bytes(i: Instr) -> Seq<u8> {
    match i {
        Instr::Arith(op, reg, imm) => words_bytes(seq![head_word(op, reg), imm]),
        Instr::Jump(op, reg, imm, label) => words_bytes(seq![head_word(op, reg), imm, label]),
        Instr::Data(ws) => words_bytes(ws),
        Instr::Bytes(bs) => bs,
    }
}

fn push_word(out: &mut Vec<u8>, w: u16)
    ensures
        final(out)@ == old(out)@ + word_bytes(w),
{
    out.push((w % 256) as u8);
    out.push((w / 256) as u8);
    proof {
        assert(final(out)@ =~= old(out)@ + word_bytes(w));
    }
}

fn push_words(out: &mut Vec<u8>, ws: &[u16])
    ensures
        final(out)@ == old(out)@ + words_bytes(ws@),
{
    let ghost start = out@;
    let mut i: usize = 0;
    while i < ws.len()
        invariant
            i <= ws.len(),
            out@ == start + words_bytes(ws@.subrange(0, i as int)),
        decreases ws.len() - i,
    {
        push_word(out, ws[i]);
        proof {
            let p = ws@.subrange(0, i as int + 1);
            assert(p.drop_last() =~= ws@.subrange(0, i as int));
            assert(start + words_bytes(p) =~= start + words_bytes(ws@.subrange(0, i as int)) + word_bytes(ws@[i as int]));
        }
        i = i + 1;
    }
    proof {
        assert(ws@.subrange(0, ws@.len() as int) =~= ws@);
    }
}

impl Instruction {
    /// Appends the instruction's output bytes to `out`.
    pub fn encode(&self, out: &mut Vec<u8>)
        requires
            encodable(self@),
        ensures
            final(out)@ == old(out)@ + instr_bytes(self@),
    {
        match self {
            Instruction::Arith { op, reg, imm } => {
                let ghost start = out@;
                let head = op.to_u16() * 1024 + *reg;
                push_word(out, head);
                push_word(out, *imm);
                proof {
                    let ws = seq![head_word(*op, *reg), *imm];
                    assert(ws.drop_last() =~= seq![head_word(*op, *reg)]);
                    assert(ws.drop_last().drop_last() =~= Seq::<u16>::empty());
                    reveal_with_fuel(words_bytes, 3);
                    assert(words_bytes(ws) =~= word_bytes(head) + word_bytes(*imm));
                    assert(out@ =~= start + words_bytes(ws));
                }
            },
            Instruction::Jump { op, reg, imm, label } => {
                let ghost start = out@;
                let head = op.to_u16() * 1024 + *reg;
                push_word(out, head);
                push_word(out, *imm);
                push_word(out, *label);
                proof {
                    let ws = seq![head_word(*op, *reg), *imm, *label];
                    assert(ws.drop_last() =~= seq![head_word(*op, *reg), *imm]);
                    assert(ws.drop_last().drop_last() =~= seq![head_word(*op, *reg)]);
                    assert(ws.drop_last().drop_last().drop_last() =~= Seq::<u16>::empty());
                    reveal_with_fuel(words_bytes, 4);
                    assert(words_bytes(ws) =~= word_bytes(head) + word_bytes(*imm) + word_bytes(*label));
                    assert(out@ =~= start + words_bytes(ws));
                }
            },
            Instruction::Data(ws) => {
                push_words(out, ws.as_slice());
            },
            Instruction::ByteData(bs) => {
                let ghost start = out@;
                let mut i: usize = 0;
                while i < bs.len()
                    invariant
                        i <= bs.len(),
                        out@ == start + bs@.subrange(0, i as int),
                    decreases bs.len() - i,
                {
                    out.push(bs[i]);
                    proof {
                        assert(start + bs@.subrange(0, i as int + 1) =~= start + bs@.subrange(0, i as int)
                            + seq![bs@[i as int]]);
                    }
                    i = i + 1;
                }
                proof {
                    assert(bs@.subrange(0, bs@.len() as int) =~= bs@);
                }
            },
        }
    }
}

/// The bytes of a whole program, in order.
pub open spec fn program_bytes(is: Seq<Instr>) -> Seq<u8>
    decreases is.len(),
{
    if is.len() == 0 {
        Seq::empty()
    } else {
        program_bytes(is.drop_last()) + instr_bytes(is.last())
    }
}

impl Instruction {
    /// Whether the instruction can be encoded.
    pub fn is_encodable(&self) -> (r: bool)
        ensures
            r == encodable(self@),
    {
        match self {
            Instruction::Arith { reg, .. } => *reg < CODE_START,
            Instruction::Jump { reg, .. } => *reg < CODE_START,
            Instruction::Data(_) => true,
            Instruction::ByteData(bs) => bs.len() % 2 == 0,
        }
    }
}

/// Serialises a program into its output image; `None` if some instruction
/// cannot be encoded.
pub fn encode_program(program: &Vec<Instruction>) -> (r: Option<Vec<u8>>)
    ensures
        r is Some <==> forall|k: int| 0 <= k < program.len() ==> encodable(#[trigger] program[k]@),
        r matches Some(b) ==> b@ == program_bytes(instrs(program@)),
{
    let mut i: usize = 0;
    while i < program.len()
        invariant
            i <= program.len(),
            forall|k: int| 0 <= k < i ==> encodable(#[trigger] program[k]@),
        decreases program.len() - i,
    {
        if !program[i].is_encodable() {
            return None;
        }
        i = i + 1;
    }
    let mut out: Vec<u8> = Vec::new();
    let mut i: usize = 0;
    while i < program.len()
        invariant
            i <= program.len(),
            forall|k: int| 0 <= k < program.len() ==> encodable(#[trigger] program[k]@),
            out@ == program_bytes(instrs(program@.subrange(0, i as int))),
        decreases program.len() - i,
    {
        program[i].encode(&mut out);
        proof {
            let p = instrs(program@.subrange(0, i as int + 1));
            assert(p.drop_last() =~= instrs(program@.subrange(0, i as int)));
            assert(p.last() == program@[i as int]@);
        }
        i = i + 1;
    }
    proof {
        assert(program@.subrange(0, program@.len() as int) =~= program@);
    }
    Some(out)
}

/// An arithmetic-class opcode occupies exactly two output words and a
/// conditional jump exactly three, both when sized and when encoded.
pub proof fn lemma_opcode_words(op: Opcode, reg: u16, imm: u16, target: u16)
    ensures
        op.spec_is_arith() ==> op.spec_size() == 2 && instr_bytes(Instr::Arith(op, reg, imm)).len() == 2
            * 2,
        !op.spec_is_arith() ==> op.spec_size() == 3 && instr_bytes(Instr::Jump(op, reg, imm, target)).len()
            == 2 * 3,
{
    reveal_with_fuel(words_bytes, 4);
}

} // verus!
