use vstd::prelude::*;

use crate::directive::{dirs, Dir, Directive, DirectiveVar};
use crate::error::{AsmError, ErrorKind, Position};
use crate::expr::{copy_bytes, eval, exprs, register_map, Expr, OpArg, SymbolTable, CODE_START};
use crate::instruction::{encodable, instrs, Instr, Instruction};
use crate::opcode::{expansion_of, lookup_mnemonic, mnemonic_size, ops_size, MacroOp, Opcode};

verus! {

/// Highest address an instruction or datum may end at.
pub const ADDRESS_LIMIT: u16 = 0xFFFF;

/// Output words of a data directive of `n` bytes.
pub open spec fn byte_words(n: nat) -> nat {
    (n + 1) / 2
}

/// Where the address counter stands after directive `d`, begun at `a`.
pub open spec fn advance(d: Dir, a: int) -> Result<int, ErrorKind> {
    let next: Result<int, ErrorKind> = match d {
        Dir::Op(name, _) => match mnemonic_size(name) {
            Some(s) => Ok(a + s),
            None => Err(ErrorKind::UnknownOpcode),
        },
        Dir::Data(v) => Ok(a + v.len()),
        Dir::Bytes(v) => Ok(a + byte_words(v.len())),
        Dir::Macro(_, _) => Err(ErrorKind::UnimplementedFeature),
        _ => Ok(a),
    };
    match next {
        Ok(n) => if n > ADDRESS_LIMIT {
            Err(ErrorKind::ProgramTooLarge)
        } else {
            Ok(n)
        },
        Err(e) => Err(e),
    }
}

/// The addressing pass over the first `n` directives: the table of
/// registers and labels, and the address counter.
pub open spec fn pass1(ds: Seq<Dir>, n: nat) -> Result<(Map<Seq<u8>, u16>, int), ErrorKind>
    decreases n,
{
    if n == 0 {
        Ok((register_map(), CODE_START as int))
    } else {
        match pass1(ds, (n - 1) as nat) {
            Err(e) => Err(e),
            Ok((m, a)) => match ds[n - 1] {
                Dir::Label(name) => if m.contains_key(name) {
                    Err(ErrorKind::DuplicateDefinition)
                } else {
                    Ok((m.insert(name, a as u16), a))
                },
                d => match advance(d, a) {
                    Err(e) => Err(e),
                    Ok(a2) => Ok((m, a2)),
                },
            },
        }
    }
}

/// The constant pass over the first `n` directives, starting from the
/// table `m0` that the addressing pass built.
pub open spec fn pass2(ds: Seq<Dir>, n: nat, m0: Map<Seq<u8>, u16>) -> Result<
    (Map<Seq<u8>, u16>, int),
    ErrorKind,
>
    decreases n,
{
    if n == 0 {
        Ok((m0, CODE_START as int))
    } else {
        match pass2(ds, (n - 1) as nat, m0) {
            Err(e) => Err(e),
            Ok((m, a)) => match ds[n - 1] {
                Dir::Const(name, e) => match eval(e, m, Seq::empty(), a as u16) {
                    Err(k) => Err(
                        if k == ErrorKind::UndefinedLabel {
                            ErrorKind::UndefinedConstant
                        } else {
                            k
                        },
                    ),
                    Ok(v) => if m.contains_key(name) {
                        Err(ErrorKind::DuplicateDefinition)
                    } else {
                        Ok((m.insert(name, v), a))
                    },
                },
                Dir::Label(_) => Ok((m, a)),
                d => match advance(d, a) {
                    Err(e) => Err(e),
                    Ok(a2) => Ok((m, a2)),
                },
            },
        }
    }
}

/// The complete symbol table of a program, or the first error.
pub open spec fn resolve(ds: Seq<Dir>) -> Result<Map<Seq<u8>, u16>, ErrorKind> {
    match pass1(ds, ds.len()) {
        Err(e) => Err(e),
        Ok((m, _)) => match pass2(ds, ds.len(), m) {
            Err(e) => Err(e),
            Ok((m2, _)) => Ok(m2),
        },
    }
}

/// Operands each opcode takes: two, or three for a jump.
pub open spec fn operand_count(op: Opcode) -> nat {
    if op.spec_is_arith() { 2 } else { 3 }
}

/// One primitive operation resolved at address `a`.
pub open spec fn emit_one(op: Opcode, t: Seq<Expr>, args: Seq<Expr>, m: Map<Seq<u8>, u16>, a: int) -> Result<
    Instr,
    ErrorKind,
> {
    if t.len() != operand_count(op) {
        Err(ErrorKind::MacroArityMismatch)
    } else {
        match eval(t[0], m, args, a as u16) {
            Err(e) => Err(e),
            Ok(reg) => if reg >= CODE_START {
                Err(ErrorKind::OperandRange)
            } else {
                match eval(t[1], m, args, a as u16) {
                    Err(e) => Err(e),
                    Ok(imm) => if op.spec_is_arith() {
                        Ok(Instr::Arith(op, reg, imm))
                    } else {
                        match eval(t[2], m, args, a as u16) {
                            Err(e) => Err(e),
                            Ok(target) => Ok(Instr::Jump(op, reg, imm, target)),
                        }
                    },
                }
            },
        }
    }
}

/// The operations of an expansion resolved in turn from address `a`, each
/// seeing its own address as `$`; and the address after them.
pub open spec fn emit_ops(
    ops: Seq<(Opcode, Seq<Expr>)>,
    args: Seq<Expr>,
    m: Map<Seq<u8>, u16>,
    a: int,
) -> Result<(Seq<Instr>, int), ErrorKind>
    decreases ops.len(),
{
    if ops.len() == 0 {
        Ok((Seq::empty(), a))
    } else {
        let (op, t) = ops[0];
        if a + op.spec_size() > ADDRESS_LIMIT {
            Err(ErrorKind::ProgramTooLarge)
        } else {
            match emit_one(op, t, args, m, a) {
                Err(e) => Err(e),
                Ok(i) => match emit_ops(ops.drop_first(), args, m, a + op.spec_size()) {
                    Err(e) => Err(e),
                    Ok((is, a2)) => Ok((seq![i] + is, a2)),
                },
            }
        }
    }
}

/// The values of data operands, all evaluated at address `a`.
pub open spec fn eval_words(v: Seq<Expr>, m: Map<Seq<u8>, u16>, a: int) -> Result<Seq<u16>, ErrorKind>
    decreases v.len(),
{
    if v.len() == 0 {
        Ok(Seq::empty())
    } else {
        match eval(v[0], m, Seq::empty(), a as u16) {
            Err(e) => Err(e),
            Ok(w) => match eval_words(v.drop_first(), m, a) {
                Err(e) => Err(e),
                Ok(ws) => Ok(seq![w] + ws),
            },
        }
    }
}

/// The values of byte operands, all evaluated at address `a`; each must fit a byte.
pub open spec fn eval_bytes(v: Seq<Expr>, m: Map<Seq<u8>, u16>, a: int) -> Result<Seq<u8>, ErrorKind>
    decreases v.len(),
{
    if v.len() == 0 {
        Ok(Seq::empty())
    } else {
        match eval(v[0], m, Seq::empty(), a as u16) {
            Err(e) => Err(e),
            Ok(w) => if w > 255 {
                Err(ErrorKind::OperandRange)
            } else {
                match eval_bytes(v.drop_first(), m, a) {
                    Err(e) => Err(e),
                    Ok(bs) => Ok(seq![w as u8] + bs),
                }
            },
        }
    }
}

/// Byte data padded with a zero to a whole number of words.
pub open spec fn pad_bytes(bs: Seq<u8>) -> Seq<u8> {
    if bs.len() % 2 == 1 {
        bs.push(0)
    } else {
        bs
    }
}

/// The instructions one directive yields at address `a`, and the address after it.
pub open spec fn emit_dir(d: Dir, m: Map<Seq<u8>, u16>, a: int) -> Result<(Seq<Instr>, int), ErrorKind> {
    match d {
        Dir::Op(name, args) => match expansion_of(name) {
            None => Err(ErrorKind::UnknownOpcode),
            Some((arity, ops)) => if args.len() != arity {
                Err(ErrorKind::MacroArityMismatch)
            } else {
                emit_ops(ops, args, m, a)
            },
        },
        Dir::Data(v) => if a + v.len() > ADDRESS_LIMIT {
            Err(ErrorKind::ProgramTooLarge)
        } else {
            match eval_words(v, m, a) {
                Err(e) => Err(e),
                Ok(ws) => Ok((seq![Instr::Data(ws)], a + v.len())),
            }
        },
        Dir::Bytes(v) => if a + byte_words(v.len()) > ADDRESS_LIMIT {
            Err(ErrorKind::ProgramTooLarge)
        } else {
            match eval_bytes(v, m, a) {
                Err(e) => Err(e),
                Ok(bs) => Ok((seq![Instr::Bytes(pad_bytes(bs))], a + byte_words(v.len()))),
            }
        },
        Dir::Macro(_, _) => Err(ErrorKind::UnimplementedFeature),
        _ => Ok((Seq::empty(), a)),
    }
}

/// The instructions that directives `from..` yield, starting at address
/// `a`, and the error that stops them, if any.
pub open spec fn rest_output(ds: Seq<Dir>, from: int, m: Map<Seq<u8>, u16>, a: int) -> (
    Seq<Instr>,
    Option<ErrorKind>,
)
    decreases ds.len() - from,
{
    if from < 0 || from >= ds.len() {
        (Seq::empty(), None)
    } else {
        match emit_dir(ds[from], m, a) {
            Err(e) => (Seq::empty(), Some(e)),
            Ok((is, a2)) => {
                let (rest, e) = rest_output(ds, from + 1, m, a2);
                (is + rest, e)
            },
        }
    }
}

/// The program's instructions, or the first error.
pub open spec fn assemble_spec(ds: Seq<Dir>) -> Result<Seq<Instr>, ErrorKind> {
    match resolve(ds) {
        Err(e) => Err(e),
        Ok(m) => {
            let (is, e) = rest_output(ds, 0, m, CODE_START as int);
            match e {
                Some(k) => Err(k),
                None => Ok(is),
            }
        },
    }
}

proof fn lemma_pass1_stops(ds: Seq<Dir>, i: nat, n: nat)
    requires
        i <= n,
        pass1(ds, i) is Err,
    ensures
        pass1(ds, n) == pass1(ds, i),
    decreases n - i,
{
    if n > i {
        lemma_pass1_stops(ds, i, (n - 1) as nat);
    }
}

proof fn lemma_pass2_stops(ds: Seq<Dir>, i: nat, n: nat, m0: Map<Seq<u8>, u16>)
    requires
        i <= n,
        pass2(ds, i, m0) is Err,
    ensures
        pass2(ds, n, m0) == pass2(ds, i, m0),
    decreases n - i,
{
    if n > i {
        lemma_pass2_stops(ds, i, (n - 1) as nat, m0);
    }
}

proof fn lemma_expansion_small(name: Seq<u8>)
    requires
        expansion_of(name) is Some,
    ensures
        expansion_of(name)->Some_0.1.len() <= 3,
        forall|k: int|
            0 <= k < expansion_of(name)->Some_0.1.len() ==> (#[trigger] expansion_of(name)->Some_0.1[k]).0.spec_size() <= 3,
{
}

/// Advances the address counter past a directive that is neither a label
/// nor a constant.
fn advance_exec(d: &Directive, addr: u16) -> (r: Result<u16, AsmError>)
    requires
        !(d@ is Label),
        !(d@ is Const),
    ensures
        r matches Ok(a2) ==> advance(d@, addr as int) == Ok::<int, ErrorKind>(a2 as int),
        r matches Err(e) ==> advance(d@, addr as int) == Err::<int, ErrorKind>(e.kind),
{
    let size: usize = match &d.variant {
        DirectiveVar::Op(name, _) => match Parser::size_of_op_str(d.pos, name.as_slice()) {
            Ok(s) => s as usize,
            Err(e) => {
                return Err(e);
            },
        },
        DirectiveVar::Data(v) => v.len(),
        DirectiveVar::ByteData(v) => v.len() / 2 + v.len() % 2,
        DirectiveVar::Macro { .. } => {
            return Err(AsmError::new(ErrorKind::UnimplementedFeature, d.pos));
        },
        _ => 0,
    };
    if size > (ADDRESS_LIMIT - addr) as usize {
        Err(AsmError::new(ErrorKind::ProgramTooLarge, d.pos))
    } else {
        Ok(addr + size as u16)
    }
}

/// One primitive operation with operand templates `t`, resolved at `addr`.
fn emit_one_exec(
    op: Opcode,
    t: &Vec<OpArg>,
    args: &[OpArg],
    labels: &SymbolTable,
    addr: u16,
    pos: Position,
) -> (r: Result<Instruction, AsmError>)
    requires
        labels.wf(),
    ensures
        r matches Ok(i) ==> emit_one(op, exprs(t@), exprs(args@), labels@, addr as int) == Ok::<
            Instr,
            ErrorKind,
        >(i@),
        r matches Err(e) ==> emit_one(op, exprs(t@), exprs(args@), labels@, addr as int) == Err::<
            Instr,
            ErrorKind,
        >(e.kind),
{
    let count: usize = if op.is_arith() { 2 } else { 3 };
    if t.len() != count {
        return Err(AsmError::new(ErrorKind::MacroArityMismatch, pos));
    }
    let reg = t[0].evaluate(labels, args, addr)?;
    if reg >= CODE_START {
        return Err(AsmError::new(ErrorKind::OperandRange, pos));
    }
    let imm = t[1].evaluate(labels, args, addr)?;
    if op.is_arith() {
        Ok(Instruction::Arith { op, reg, imm })
    } else {
        let label = t[2].evaluate(labels, args, addr)?;
        Ok(Instruction::Jump { op, reg, imm, label })
    }
}

/// Resolves every operation of an expansion in turn, appending to `out`.
fn emit_ops_exec(
    ops: &Vec<MacroOp>,
    args: &[OpArg],
    labels: &SymbolTable,
    addr: u16,
    pos: Position,
    out: &mut Vec<Instruction>,
) -> (r: Result<u16, AsmError>)
    requires
        labels.wf(),
    ensures
        r matches Ok(a2) ==> emit_ops(ops@.map_values(|o: MacroOp| o@), exprs(args@), labels@, addr as int)
            matches Ok((is, a)) && a == a2 as int && instrs(final(out)@) == instrs(old(out)@) + is,
        r matches Err(e) ==> emit_ops(ops@.map_values(|o: MacroOp| o@), exprs(args@), labels@, addr as int)
            == Err::<(Seq<Instr>, int), ErrorKind>(e.kind),
{
    let ghost all = ops@.map_values(|o: MacroOp| o@);
    let ghost a_args = exprs(args@);
    let ghost start = instrs(out@);
    let mut a = addr;
    let mut i: usize = 0;
    proof {
        assert(all.subrange(0, all.len() as int) =~= all);
        assert(instrs(out@).subrange(start.len() as int, instrs(out@).len() as int) =~= Seq::<Instr>::empty());
        assert(instrs(out@).subrange(0, start.len() as int) =~= start);
        if let Ok((is, a2)) = emit_ops(all, a_args, labels@, addr as int) {
            assert(Seq::<Instr>::empty() + is =~= is);
        }
    }
    while i < ops.len()
        invariant
            labels.wf(),
            all == ops@.map_values(|o: MacroOp| o@),
            a_args == exprs(args@),
            i <= ops.len(),
            emit_ops(all, a_args, labels@, addr as int) == (match emit_ops(
                all.subrange(i as int, all.len() as int),
                a_args,
                labels@,
                a as int,
            ) {
                Err(e) => Err(e),
                Ok((is, a2)) => Ok((instrs(out@).subrange(start.len() as int, instrs(out@).len() as int) + is, a2)),
            }),
            instrs(out@).subrange(0, start.len() as int) == start,
            instrs(out@).len() >= start.len(),
        decreases ops.len() - i,
    {
        let ghost rest = all.subrange(i as int, all.len() as int);
        proof {
            assert(rest[0] == ops@[i as int]@);
            assert(rest.drop_first() =~= all.subrange(i as int + 1, all.len() as int));
        }
        let op = ops[i].op;
        let size = op.size();
        if size > ADDRESS_LIMIT - a {
            return Err(AsmError::new(ErrorKind::ProgramTooLarge, pos));
        }
        let inst = emit_one_exec(op, &ops[i].args, args, labels, a, pos)?;
        let ghost before = instrs(out@);
        out.push(inst);
        proof {
            assert(instrs(out@) =~= before.push(inst@));
            assert(instrs(out@).subrange(0, start.len() as int) =~= before.subrange(0, start.len() as int));
            assert(instrs(out@).subrange(start.len() as int, instrs(out@).len() as int) =~= before.subrange(
                start.len() as int,
                before.len() as int,
            ) + seq![inst@]);
            match emit_ops(rest.drop_first(), a_args, labels@, (a + size) as int) {
                Err(e) => {},
                Ok((is, a2)) => {
                    assert(before.subrange(start.len() as int, before.len() as int) + (seq![inst@] + is)
                        =~= before.subrange(start.len() as int, before.len() as int) + seq![inst@] + is);
                },
            }
        }
        a = a + size;
        i = i + 1;
    }
    proof {
        assert(all.subrange(i as int, all.len() as int) =~= Seq::<(Opcode, Seq<Expr>)>::empty());
        assert(instrs(out@) =~= start + instrs(out@).subrange(start.len() as int, instrs(out@).len() as int));
    }
    Ok(a)
}

/// Evaluates data operands at `addr`.
fn eval_words_exec(v: &Vec<OpArg>, labels: &SymbolTable, addr: u16) -> (r: Result<Vec<u16>, AsmError>)
    requires
        labels.wf(),
    ensures
        r matches Ok(ws) ==> eval_words(exprs(v@), labels@, addr as int) == Ok::<Seq<u16>, ErrorKind>(ws@),
        r matches Err(e) ==> eval_words(exprs(v@), labels@, addr as int) == Err::<Seq<u16>, ErrorKind>(e.kind),
{
    let ghost all = exprs(v@);
    let mut ws: Vec<u16> = Vec::new();
    let mut i: usize = 0;
    let empty: [OpArg; 0] = [];
    proof {
        assert(exprs(empty@) =~= Seq::<Expr>::empty());
        assert(all.subrange(0, all.len() as int) =~= all);
        if let Ok(rest) = eval_words(all, labels@, addr as int) {
            assert(ws@ + rest =~= rest);
        }
    }
    while i < v.len()
        invariant
            labels.wf(),
            all == exprs(v@),
            exprs(empty@) == Seq::<Expr>::empty(),
            i <= v.len(),
            eval_words(all, labels@, addr as int) == (match eval_words(all.subrange(i as int, all.len() as int), labels@, addr as int) {
                Err(e) => Err(e),
                Ok(rest) => Ok(ws@ + rest),
            }),
        decreases v.len() - i,
    {
        let ghost rest = all.subrange(i as int, all.len() as int);
        proof {
            assert(rest[0] == v@[i as int]@);
            assert(rest.drop_first() =~= all.subrange(i as int + 1, all.len() as int));
        }
        let w = v[i].evaluate(labels, &empty, addr)?;
        let ghost before = ws@;
        ws.push(w);
        proof {
            match eval_words(rest.drop_first(), labels@, addr as int) {
                Err(e) => {},
                Ok(tail) => {
                    assert(before + (seq![w] + tail) =~= ws@ + tail);
                },
            }
        }
        i = i + 1;
    }
    proof {
        assert(all.subrange(i as int, all.len() as int) =~= Seq::<Expr>::empty());
        assert(ws@ + Seq::<u16>::empty() =~= ws@);
    }
    Ok(ws)
}

/// Evaluates byte operands at `addr` and pads them to whole words.
fn eval_bytes_exec(v: &Vec<OpArg>, labels: &SymbolTable, addr: u16, pos: Position) -> (r: Result<
    Vec<u8>,
    AsmError,
>)
    requires
        labels.wf(),
    ensures
        r matches Ok(bs) ==> eval_bytes(exprs(v@), labels@, addr as int) matches Ok(b) && bs@ == pad_bytes(b),
        r matches Err(e) ==> eval_bytes(exprs(v@), labels@, addr as int) == Err::<Seq<u8>, ErrorKind>(e.kind),
{
    let ghost all = exprs(v@);
    let mut bs: Vec<u8> = Vec::new();
    let mut i: usize = 0;
    let empty: [OpArg; 0] = [];
    proof {
        assert(exprs(empty@) =~= Seq::<Expr>::empty());
        assert(all.subrange(0, all.len() as int) =~= all);
        if let Ok(rest) = eval_bytes(all, labels@, addr as int) {
            assert(bs@ + rest =~= rest);
        }
    }
    while i < v.len()
        invariant
            labels.wf(),
            all == exprs(v@),
            exprs(empty@) == Seq::<Expr>::empty(),
            i <= v.len(),
            bs.len() == i,
            eval_bytes(all, labels@, addr as int) == (match eval_bytes(all.subrange(i as int, all.len() as int), labels@, addr as int) {
                Err(e) => Err(e),
                Ok(rest) => Ok(bs@ + rest),
            }),
        decreases v.len() - i,
    {
        let ghost rest = all.subrange(i as int, all.len() as int);
        proof {
            assert(rest[0] == v@[i as int]@);
            assert(rest.drop_first() =~= all.subrange(i as int + 1, all.len() as int));
        }
        let w = v[i].evaluate(labels, &empty, addr)?;
        if w > 255 {
            return Err(AsmError::new(ErrorKind::OperandRange, pos));
        }
        let ghost before = bs@;
        bs.push(w as u8);
        proof {
            match eval_bytes(rest.drop_first(), labels@, addr as int) {
                Err(e) => {},
                Ok(tail) => {
                    assert(before + (seq![w as u8] + tail) =~= bs@ + tail);
                },
            }
        }
        i = i + 1;
    }
    proof {
        assert(all.subrange(i as int, all.len() as int) =~= Seq::<Expr>::empty());
        assert(bs@ + Seq::<u8>::empty() =~= bs@);
    }
    if bs.len() % 2 == 1 {
        bs.push(0);
    }
    Ok(bs)
}

/// The instructions one directive yields at `addr`, appended to `out`; the
/// address after it.
fn emit_directive(d: &Directive, labels: &SymbolTable, addr: u16, out: &mut Vec<Instruction>) -> (r:
    Result<u16, AsmError>)
    requires
        labels.wf(),
    ensures
        r matches Ok(a2) ==> emit_dir(d@, labels@, addr as int) matches Ok((is, a)) && a == a2 as int
            && instrs(final(out)@) == instrs(old(out)@) + is,
        r matches Err(e) ==> emit_dir(d@, labels@, addr as int) == Err::<(Seq<Instr>, int), ErrorKind>(
            e.kind,
        ),
{
    match &d.variant {
        DirectiveVar::Op(name, args) => match lookup_mnemonic(name.as_slice()) {
            None => Err(AsmError::new(ErrorKind::UnknownOpcode, d.pos)),
            Some(e) => {
                if args.len() != e.arity as usize {
                    return Err(AsmError::new(ErrorKind::MacroArityMismatch, d.pos));
                }
                emit_ops_exec(&e.ops, args.as_slice(), labels, addr, d.pos, out)
            },
        },
        DirectiveVar::Data(v) => {
            if v.len() > (ADDRESS_LIMIT - addr) as usize {
                return Err(AsmError::new(ErrorKind::ProgramTooLarge, d.pos));
            }
            let ws = eval_words_exec(v, labels, addr)?;
            let ghost before = instrs(out@);
            let inst = Instruction::Data(ws);
            out.push(inst);
            proof {
                assert(instrs(final(out)@) =~= before + seq![inst@]);
            }
            Ok(addr + v.len() as u16)
        },
        DirectiveVar::ByteData(v) => {
            let words = v.len() / 2 + v.len() % 2;
            if words > (ADDRESS_LIMIT - addr) as usize {
                return Err(AsmError::new(ErrorKind::ProgramTooLarge, d.pos));
            }
            let bs = eval_bytes_exec(v, labels, addr, d.pos)?;
            let ghost before = instrs(out@);
            let inst = Instruction::ByteData(bs);
            out.push(inst);
            proof {
                assert(instrs(final(out)@) =~= before + seq![inst@]);
            }
            Ok(addr + words as u16)
        },
        DirectiveVar::Macro { .. } => Err(AsmError::new(ErrorKind::UnimplementedFeature, d.pos)),
        _ => {
            proof {
                assert(instrs(out@) =~= instrs(out@) + Seq::<Instr>::empty());
            }
            Ok(addr)
        },
    }
}

/// The resolver: it owns the merged directive list and the symbol table,
/// and yields the program's instructions one at a time.
#[derive(Debug)]
pub struct Parser {
    /// Instructions of the current expansion not yet handed out, in order.
    inst_buffer: Vec<Instruction>,
    /// Address of the next directive to emit.
    inst_offset: u16,
    directives: Vec<Directive>,
    labels: SymbolTable,
    /// Index of the next directive to emit.
    idx: usize,
}

impl Parser {
    pub closed spec fn wf(&self) -> bool {
        &&& self.labels.wf()
        &&& self.idx <= self.directives.len()
    }

    /// The final symbol table.
    pub closed spec fn symbols(&self) -> Map<Seq<u8>, u16> {
        self.labels@
    }

    /// What is still to come: the instructions in order, then the error that
    /// stops them, if any.
    pub closed spec fn pending(&self) -> (Seq<Instr>, Option<ErrorKind>) {
        let (rest, e) = rest_output(dirs(self.directives@), self.idx as int, self.labels@, self.inst_offset as int);
        (instrs(self.inst_buffer@) + rest, e)
    }

    /// Output words of the mnemonic `op`, or `UnknownOpcode`.
    pub fn size_of_op_str(pos: Position, op: &[u8]) -> (r: Result<u16, AsmError>)
        ensures
            r matches Ok(s) ==> mnemonic_size(op@) == Some(s as nat) && s <= 9,
            r matches Err(e) ==> mnemonic_size(op@) is None && e.kind == ErrorKind::UnknownOpcode,
    {
        match lookup_mnemonic(op) {
            None => Err(AsmError::new(ErrorKind::UnknownOpcode, pos)),
            Some(e) => {
                proof {
                    lemma_expansion_small(op@);
                }
                let ghost ops = e@.1;
                let mut acc: u16 = 0;
                let mut i: usize = 0;
                while i < e.ops.len()
                    invariant
                        ops == e@.1,
                        ops.len() <= 3,
                        forall|k: int| 0 <= k < ops.len() ==> (#[trigger] ops[k]).0.spec_size() <= 3,
                        i <= e.ops.len(),
                        acc == ops_size(ops.subrange(0, i as int)),
                        acc <= 3 * i,
                    decreases e.ops.len() - i,
                {
                    proof {
                        assert(ops[i as int] == e.ops@[i as int]@);
                        assert(ops.subrange(0, i as int + 1).drop_last() =~= ops.subrange(0, i as int));
                    }
                    acc = acc + e.ops[i].op.size();
                    i = i + 1;
                }
                proof {
                    assert(ops.subrange(0, ops.len() as int) =~= ops);
                }
                Ok(acc)
            },
        }
    }

    /// Runs the addressing pass and the constant pass over `directives`.
    pub fn new(directives: Vec<Directive>) -> (r: Result<Parser, AsmError>)
        ensures
            r matches Ok(p) ==> p.wf() && resolve(dirs(directives@)) == Ok::<Map<Seq<u8>, u16>, ErrorKind>(p.symbols())
                && p.pending() == rest_output(dirs(directives@), 0, p.symbols(), CODE_START as int),
            r matches Err(e) ==> resolve(dirs(directives@)) == Err::<Map<Seq<u8>, u16>, ErrorKind>(e.kind),
    {
        let ghost ds = dirs(directives@);
        let mut labels = SymbolTable::with_registers();
        // Addressing pass: labels get the address counter's value.
        let mut addr: u16 = CODE_START;
        let mut i: usize = 0;
        while i < directives.len()
            invariant
                ds == dirs(directives@),
                labels.wf(),
                i <= directives.len(),
                pass1(ds, i as nat) == Ok::<(Map<Seq<u8>, u16>, int), ErrorKind>((labels@, addr as int)),
            decreases directives.len() - i,
        {
            let d = &directives[i];
            proof {
                assert(ds[i as int] == d@);
            }
            match &d.variant {
                DirectiveVar::Label(name) => {
                    if !labels.insert(copy_bytes(name), addr) {
                        proof {
                            lemma_pass1_stops(ds, (i + 1) as nat, ds.len());
                        }
                        return Err(AsmError::new(ErrorKind::DuplicateDefinition, d.pos));
                    }
                },
                DirectiveVar::Const(_, _) => {},
                _ => {
                    match advance_exec(d, addr) {
                        Ok(a2) => {
                            addr = a2;
                        },
                        Err(e) => {
                            proof {
                                lemma_pass1_stops(ds, (i + 1) as nat, ds.len());
                            }
                            return Err(e);
                        },
                    }
                },
            }
            i = i + 1;
        }
        let ghost m1 = labels@;
        // Constant pass: constants are evaluated in source order.
        let mut addr: u16 = CODE_START;
        let mut i: usize = 0;
        let empty: [OpArg; 0] = [];
        proof {
            assert(exprs(empty@) =~= Seq::<Expr>::empty());
        }
        while i < directives.len()
            invariant
                ds == dirs(directives@),
                labels.wf(),
                i <= directives.len(),
                pass1(ds, ds.len()) == Ok::<(Map<Seq<u8>, u16>, int), ErrorKind>((m1, pass1(ds, ds.len())->Ok_0.1)),
                exprs(empty@) == Seq::<Expr>::empty(),
                pass2(ds, i as nat, m1) == Ok::<(Map<Seq<u8>, u16>, int), ErrorKind>((labels@, addr as int)),
            decreases directives.len() - i,
        {
            let d = &directives[i];
            proof {
                assert(ds[i as int] == d@);
            }
            match &d.variant {
                DirectiveVar::Label(_) => {},
                DirectiveVar::Const(name, value) => {
                    match value.evaluate(&labels, &empty, addr) {
                        Ok(v) => {
                            if !labels.insert(copy_bytes(name), v) {
                                proof {
                                    lemma_pass2_stops(ds, (i + 1) as nat, ds.len(), m1);
                                }
                                return Err(AsmError::new(ErrorKind::DuplicateDefinition, d.pos));
                            }
                        },
                        Err(e) => {
                            proof {
                                lemma_pass2_stops(ds, (i + 1) as nat, ds.len(), m1);
                            }
                            let kind = if e.kind == ErrorKind::UndefinedLabel {
                                ErrorKind::UndefinedConstant
                            } else {
                                e.kind
                            };
                            return Err(AsmError::new(kind, e.pos));
                        },
                    }
                },
                _ => {
                    match advance_exec(d, addr) {
                        Ok(a2) => {
                            addr = a2;
                        },
                        Err(e) => {
                            proof {
                                lemma_pass2_stops(ds, (i + 1) as nat, ds.len(), m1);
                            }
                            return Err(e);
                        },
                    }
                },
            }
            i = i + 1;
        }
        let p = Parser { inst_buffer: Vec::new(), inst_offset: CODE_START, directives, labels, idx: 0 };
        proof {
            assert(instrs(p.inst_buffer@) =~= Seq::<Instr>::empty());
            let (rest, e) = rest_output(ds, 0, p.labels@, CODE_START as int);
            assert(Seq::<Instr>::empty() + rest =~= rest);
        }
        Ok(p)
    }

    /// The symbol table after both passes.
    pub fn labels(&self) -> (r: &SymbolTable)
        requires
            self.wf(),
        ensures
            r.wf(),
            r@ == self.symbols(),
    {
        &self.labels
    }

    /// The next instruction of the program: `Ok(None)` once all are out,
    /// `Err` at the first directive that cannot be emitted.
    pub fn next(&mut self) -> (r: Result<Option<Instruction>, AsmError>)
        requires
            old(self).wf(),
        ensures
            final(self).wf(),
            final(self).symbols() == old(self).symbols(),
            old(self).pending().0.len() > 0 ==> (r matches Ok(Some(i)) && i@ == old(self).pending().0[0]
                && final(self).pending() == (old(self).pending().0.drop_first(), old(self).pending().1)),
            old(self).pending().0.len() == 0 && old(self).pending().1 is None ==> r matches Ok(None),
            old(self).pending().0.len() == 0 && old(self).pending().1 is Some ==> (r matches Err(e)
                && e.kind == old(self).pending().1->Some_0),
    {
        let ghost start = self.pending();
        loop
            invariant
                self.wf(),
                self.pending() == start,
                self.symbols() == old(self).symbols(),
                start == old(self).pending(),
            decreases self.directives.len() - self.idx,
        {
            if self.inst_buffer.len() > 0 {
                let ghost buf = instrs(self.inst_buffer@);
                let inst = self.inst_buffer.remove(0);
                proof {
                    assert(instrs(self.inst_buffer@) =~= buf.drop_first());
                    let (rest, e) = rest_output(dirs(self.directives@), self.idx as int, self.labels@, self.inst_offset as int);
                    assert(buf.drop_first() + rest =~= (buf + rest).drop_first());
                }
                return Ok(Some(inst));
            }
            if self.idx >= self.directives.len() {
                proof {
                    assert(instrs(self.inst_buffer@) =~= Seq::<Instr>::empty());
                }
                return Ok(None);
            }
            let ghost ds = dirs(self.directives@);
            let mut out: Vec<Instruction> = Vec::new();
            let res = emit_directive(&self.directives[self.idx], &self.labels, self.inst_offset, &mut out);
            proof {
                assert(ds[self.idx as int] == self.directives@[self.idx as int]@);
                assert(instrs(self.inst_buffer@) =~= Seq::<Instr>::empty());
            }
            match res {
                Err(e) => {
                    return Err(e);
                },
                Ok(a2) => {
                    proof {
                        assert(instrs(Seq::<Instruction>::empty()) =~= Seq::<Instr>::empty());
                        assert(Seq::<Instr>::empty() + instrs(out@) =~= instrs(out@));
                    }
                    self.inst_offset = a2;
                    self.idx = self.idx + 1;
                    self.inst_buffer = out;
                },
            }
        }
    }
}

proof fn lemma_emit_ops_encodable(
    ops: Seq<(Opcode, Seq<Expr>)>,
    args: Seq<Expr>,
    m: Map<Seq<u8>, u16>,
    a: int,
)
    requires
        emit_ops(ops, args, m, a) is Ok,
    ensures
        forall|k: int|
            0 <= k < emit_ops(ops, args, m, a)->Ok_0.0.len() ==> encodable(
                #[trigger] emit_ops(ops, args, m, a)->Ok_0.0[k],
            ),
    decreases ops.len(),
{
    if ops.len() > 0 {
        let (op, t) = ops[0];
        lemma_emit_ops_encodable(ops.drop_first(), args, m, a + op.spec_size());
    }
}

/// Everything that directives `from..` yield can be encoded.
pub proof fn lemma_output_encodable(ds: Seq<Dir>, from: int, m: Map<Seq<u8>, u16>, a: int)
    ensures
        forall|k: int|
            0 <= k < rest_output(ds, from, m, a).0.len() ==> encodable(#[trigger] rest_output(ds, from, m, a).0[k]),
    decreases ds.len() - from,
{
    if 0 <= from < ds.len() {
        if let Ok((is, a2)) = emit_dir(ds[from], m, a) {
            lemma_output_encodable(ds, from + 1, m, a2);
            match ds[from] {
                Dir::Op(name, args) => {
                    let (arity, ops) = expansion_of(name)->Some_0;
                    lemma_emit_ops_encodable(ops, args, m, a);
                },
                Dir::Bytes(v) => {
                    let bs = eval_bytes(v, m, a)->Ok_0;
                    assert(pad_bytes(bs).len() % 2 == 0);
                },
                _ => {},
            }
            let rest = rest_output(ds, from + 1, m, a2).0;
            assert forall|k: int| 0 <= k < (is + rest).len() implies encodable(#[trigger] (is + rest)[k]) by {
                if k >= is.len() {
                    assert((is + rest)[k] == rest[k - is.len()]);
                }
            }
        }
    }
}

/// A whole assembled program.
#[derive(Debug)]
pub struct Program(pub Vec<Instruction>);

impl Program {
    /// Resolves `directives` and collects every instruction they yield.
    pub fn new(directives: Vec<Directive>) -> (r: Result<Program, AsmError>)
        ensures
            r matches Ok(p) ==> assemble_spec(dirs(directives@)) == Ok::<Seq<Instr>, ErrorKind>(instrs(p.0@)),
            r matches Ok(p) ==> forall|k: int| 0 <= k < p.0.len() ==> encodable(#[trigger] p.0@[k]@),
            r matches Err(e) ==> assemble_spec(dirs(directives@)) == Err::<Seq<Instr>, ErrorKind>(e.kind),
    {
        let ghost ds = dirs(directives@);
        let mut parser = Parser::new(directives)?;
        let ghost total = parser.pending();
        let mut out: Vec<Instruction> = Vec::new();
        loop
            invariant
                ds == dirs(directives@),
                parser.wf(),
                total == rest_output(ds, 0, parser.symbols(), CODE_START as int),
                resolve(ds) == Ok::<Map<Seq<u8>, u16>, ErrorKind>(parser.symbols()),
                instrs(out@) + parser.pending().0 == total.0,
                parser.pending().1 == total.1,
            decreases parser.pending().0.len(),
        {
            let ghost before = parser.pending();
            match parser.next() {
                Err(e) => {
                    proof {
                        assert(before.0.len() == 0);
                        assert(total.1 == Some(e.kind));
                    }
                    return Err(e);
                },
                Ok(None) => {
                    proof {
                        lemma_output_encodable(ds, 0, parser.symbols(), CODE_START as int);
                        assert forall|k: int| 0 <= k < out.len() implies encodable(#[trigger] out@[k]@) by {
                            assert(instrs(out@)[k] == out@[k]@);
                            assert((instrs(out@) + before.0)[k] == total.0[k]);
                        }
                        assert(before.0.len() == 0);
                        assert(before.0 =~= Seq::<Instr>::empty());
                        assert(instrs(out@) + before.0 =~= instrs(out@));
                        assert(total.1 is None);
                    }
                    return Ok(Program(out));
                },
                Ok(Some(inst)) => {
                    let ghost prev = instrs(out@);
                    out.push(inst);
                    proof {
                        assert(instrs(out@) =~= prev.push(inst@));
                        assert(prev.push(inst@) + before.0.drop_first() =~= prev + before.0);
                    }
                },
            }
        }
    }
}


/// Output words a directive occupies (zero for those that emit nothing).
pub open spec fn dir_words(d: Dir) -> nat {
    match d {
        Dir::Op(name, _) => match mnemonic_size(name) {
            Some(s) => s,
            None => 0,
        },
        Dir::Data(v) => v.len(),
        Dir::Bytes(v) => byte_words(v.len()),
        _ => 0,
    }
}

/// Output words of the first `n` directives.
pub open spec fn prefix_words(ds: Seq<Dir>, n: nat) -> nat
    decreases n,
{
    if n == 0 {
        0
    } else {
        prefix_words(ds, (n - 1) as nat) + dir_words(ds[n - 1])
    }
}

/// The name a label or constant directive defines.
pub open spec fn defined_name(d: Dir) -> Option<Seq<u8>> {
    match d {
        Dir::Label(n) => Some(n),
        Dir::Const(n, _) => Some(n),
        _ => None,
    }
}

/// Every binding of `m1` stands unchanged in `m2`.
pub open spec fn extends(m1: Map<Seq<u8>, u16>, m2: Map<Seq<u8>, u16>) -> bool {
    forall|k: Seq<u8>| #[trigger] m1.contains_key(k) ==> m2.contains_key(k) && m2[k] == m1[k]
}

proof fn lemma_pass1_prefix(ds: Seq<Dir>, k: nat, n: nat)
    requires
        k <= n,
        pass1(ds, n) is Ok,
    ensures
        pass1(ds, k) is Ok,
        extends(pass1(ds, k)->Ok_0.0, pass1(ds, n)->Ok_0.0),
        pass1(ds, k)->Ok_0.1 == CODE_START + prefix_words(ds, k),
        CODE_START <= pass1(ds, k)->Ok_0.1 <= ADDRESS_LIMIT,
    decreases n,
{
    if k < n {
        lemma_pass1_prefix(ds, k, (n - 1) as nat);
        if pass1(ds, (n - 1) as nat) is Err {
            lemma_pass1_stops(ds, (n - 1) as nat, n);
        }
        lemma_pass1_prefix(ds, (n - 1) as nat, (n - 1) as nat);
    } else if n > 0 {
        if pass1(ds, (n - 1) as nat) is Err {
            lemma_pass1_stops(ds, (n - 1) as nat, n);
        }
        lemma_pass1_prefix(ds, (n - 1) as nat, (n - 1) as nat);
    }
}

proof fn lemma_pass2_prefix(ds: Seq<Dir>, k: nat, n: nat, m0: Map<Seq<u8>, u16>)
    requires
        k <= n,
        pass2(ds, n, m0) is Ok,
    ensures
        pass2(ds, k, m0) is Ok,
        extends(pass2(ds, k, m0)->Ok_0.0, pass2(ds, n, m0)->Ok_0.0),
    decreases n,
{
    if n > 0 {
        if pass2(ds, (n - 1) as nat, m0) is Err {
            lemma_pass2_stops(ds, (n - 1) as nat, n, m0);
        }
        if k < n {
            lemma_pass2_prefix(ds, k, (n - 1) as nat, m0);
        }
    }
}

proof fn lemma_pass1_label(ds: Seq<Dir>, i: int)
    requires
        0 <= i < ds.len(),
        ds[i] is Label,
        pass1(ds, (i + 1) as nat) is Ok,
    ensures
        pass1(ds, i as nat) is Ok,
        pass1(ds, (i + 1) as nat)->Ok_0.0.contains_key(ds[i]->Label_0),
        pass1(ds, (i + 1) as nat)->Ok_0.0[ds[i]->Label_0] == pass1(ds, i as nat)->Ok_0.1 as u16,
{
    let n = (i + 1) as nat;
    assert((n - 1) as nat == i as nat);
    if pass1(ds, i as nat) is Err {
        lemma_pass1_stops(ds, i as nat, n);
    }
}

proof fn lemma_pass2_const(ds: Seq<Dir>, i: int, m0: Map<Seq<u8>, u16>)
    requires
        0 <= i < ds.len(),
        ds[i] is Const,
        pass2(ds, (i + 1) as nat, m0) is Ok,
    ensures
        pass2(ds, i as nat, m0) is Ok,
        !pass2(ds, i as nat, m0)->Ok_0.0.contains_key(ds[i]->Const_0),
        pass2(ds, (i + 1) as nat, m0)->Ok_0.0.contains_key(ds[i]->Const_0),
{
    let n = (i + 1) as nat;
    assert((n - 1) as nat == i as nat);
    if pass2(ds, i as nat, m0) is Err {
        lemma_pass2_stops(ds, i as nat, n, m0);
    }
}

proof fn lemma_pass1_label_fresh(ds: Seq<Dir>, i: int)
    requires
        0 <= i < ds.len(),
        ds[i] is Label,
        pass1(ds, (i + 1) as nat) is Ok,
    ensures
        pass1(ds, i as nat) is Ok,
        !pass1(ds, i as nat)->Ok_0.0.contains_key(ds[i]->Label_0),
{
    let n = (i + 1) as nat;
    assert((n - 1) as nat == i as nat);
    if pass1(ds, i as nat) is Err {
        lemma_pass1_stops(ds, i as nat, n);
    }
}

/// A label resolves to the code-segment base plus the words of every
/// directive before it, wherever in the program it is referenced.
pub proof fn lemma_label_address(ds: Seq<Dir>, i: int)
    requires
        resolve(ds) is Ok,
        0 <= i < ds.len(),
        ds[i] is Label,
    ensures
        resolve(ds)->Ok_0.contains_key(ds[i]->Label_0),
        resolve(ds)->Ok_0[ds[i]->Label_0] == CODE_START + prefix_words(ds, i as nat),
{
    let name = ds[i]->Label_0;
    lemma_pass1_prefix(ds, (i + 1) as nat, ds.len());
    lemma_pass1_prefix(ds, i as nat, ds.len());
    lemma_pass1_label(ds, i);
    let m1 = pass1(ds, ds.len())->Ok_0.0;
    let mi = pass1(ds, (i + 1) as nat)->Ok_0.0;
    assert(mi.contains_key(name));
    assert(m1.contains_key(name) && m1[name] == mi[name]);
    lemma_pass2_prefix(ds, 0, ds.len(), m1);
    let m2 = pass2(ds, ds.len(), m1)->Ok_0.0;
    assert(pass2(ds, 0, m1)->Ok_0.0 == m1);
    assert(m2.contains_key(name) && m2[name] == m1[name]);
}

/// A name defined twice, by two labels, two constants, or one of each, and
/// in whichever order, makes the program fail.
pub proof fn lemma_duplicate_fails(ds: Seq<Dir>, i: int, j: int)
    requires
        0 <= i < j < ds.len(),
        defined_name(ds[i]) is Some,
        defined_name(ds[i]) == defined_name(ds[j]),
    ensures
        resolve(ds) is Err,
{
    let name = defined_name(ds[i])->Some_0;
    if resolve(ds) is Ok {
        lemma_pass1_prefix(ds, 0, ds.len());
        let m1 = pass1(ds, ds.len())->Ok_0.0;
        lemma_pass2_prefix(ds, 0, ds.len(), m1);
        assert(pass2(ds, 0, m1)->Ok_0.0 == m1);
        if ds[j] is Label {
            lemma_pass1_prefix(ds, (j + 1) as nat, ds.len());
            lemma_pass1_label_fresh(ds, j);
            if ds[i] is Label {
                lemma_pass1_prefix(ds, (i + 1) as nat, j as nat);
                lemma_pass1_prefix(ds, j as nat, ds.len());
                lemma_pass1_prefix(ds, (i + 1) as nat, ds.len());
                lemma_pass1_label(ds, i);
                let mi = pass1(ds, (i + 1) as nat)->Ok_0.0;
                assert(mi.contains_key(name));
                assert(pass1(ds, j as nat)->Ok_0.0.contains_key(name));
            } else {
                lemma_pass1_label(ds, j);
                let mj = pass1(ds, (j + 1) as nat)->Ok_0.0;
                assert(mj.contains_key(name));
                assert(m1.contains_key(name));
                lemma_pass2_prefix(ds, (i + 1) as nat, ds.len(), m1);
                lemma_pass2_const(ds, i, m1);
                lemma_pass2_prefix(ds, 0, i as nat, m1);
                lemma_pass2_prefix(ds, i as nat, ds.len(), m1);
                assert(pass2(ds, i as nat, m1)->Ok_0.0.contains_key(name));
            }
        } else {
            lemma_pass2_prefix(ds, (j + 1) as nat, ds.len(), m1);
            lemma_pass2_const(ds, j, m1);
            lemma_pass2_prefix(ds, j as nat, ds.len(), m1);
            if ds[i] is Label {
                lemma_pass1_prefix(ds, (i + 1) as nat, ds.len());
                lemma_pass1_label(ds, i);
                let mi = pass1(ds, (i + 1) as nat)->Ok_0.0;
                assert(mi.contains_key(name));
                assert(m1.contains_key(name));
                lemma_pass2_prefix(ds, 0, j as nat, m1);
            } else {
                lemma_pass2_prefix(ds, (i + 1) as nat, ds.len(), m1);
                lemma_pass2_prefix(ds, (i + 1) as nat, j as nat, m1);
                lemma_pass2_const(ds, i, m1);
                assert(pass2(ds, (i + 1) as nat, m1)->Ok_0.0.contains_key(name));
            }
            assert(pass2(ds, j as nat, m1)->Ok_0.0.contains_key(name));
        }
    }
}

/// Defining a register's name as a label or constant makes the program fail.
pub proof fn lemma_register_redefinition_fails(ds: Seq<Dir>, j: int)
    requires
        0 <= j < ds.len(),
        defined_name(ds[j]) is Some,
        register_map().contains_key(defined_name(ds[j])->Some_0),
    ensures
        resolve(ds) is Err,
{
    let name = defined_name(ds[j])->Some_0;
    if resolve(ds) is Ok {
        lemma_pass1_prefix(ds, 0, ds.len());
        let m1 = pass1(ds, ds.len())->Ok_0.0;
        assert(pass1(ds, 0)->Ok_0.0 == register_map());
        assert(m1.contains_key(name));
        if ds[j] is Label {
            lemma_pass1_prefix(ds, (j + 1) as nat, ds.len());
            lemma_pass1_label_fresh(ds, j);
            lemma_pass1_prefix(ds, 0, j as nat);
            lemma_pass1_prefix(ds, j as nat, ds.len());
        } else {
            lemma_pass2_prefix(ds, (j + 1) as nat, ds.len(), m1);
            lemma_pass2_const(ds, j, m1);
            lemma_pass2_prefix(ds, 0, j as nat, m1);
            lemma_pass2_prefix(ds, j as nat, ds.len(), m1);
            assert(pass2(ds, 0, m1)->Ok_0.0 == m1);
        }
    }
}

/// When the directives before the second of two equal labels are all
/// accepted, the failure is a duplicate definition.
pub proof fn lemma_duplicate_label_kind(ds: Seq<Dir>, i: int, j: int)
    requires
        0 <= i < j < ds.len(),
        ds[i] is Label,
        ds[j] is Label,
        ds[i]->Label_0 == ds[j]->Label_0,
        pass1(ds, j as nat) is Ok,
    ensures
        resolve(ds) == Err::<Map<Seq<u8>, u16>, ErrorKind>(ErrorKind::DuplicateDefinition),
{
    lemma_pass1_prefix(ds, (i + 1) as nat, j as nat);
    lemma_pass1_prefix(ds, j as nat, j as nat);
    let name = ds[i]->Label_0;
    let n = (i + 1) as nat;
    assert((n - 1) as nat == i as nat);
    let mi = pass1(ds, (i + 1) as nat)->Ok_0.0;
    assert(mi.contains_key(name));
    assert(pass1(ds, j as nat)->Ok_0.0.contains_key(name));
    let nj = (j + 1) as nat;
    assert((nj - 1) as nat == j as nat);
    assert(pass1(ds, nj) == Err::<(Map<Seq<u8>, u16>, int), ErrorKind>(ErrorKind::DuplicateDefinition));
    lemma_pass1_stops(ds, nj, ds.len());
}

/// The register operand decides: at or above the code-segment base it is an
/// out-of-range error; below it, the operation is emitted with that register
/// once its other operands resolve.
pub proof fn lemma_register_operand_range(
    op: Opcode,
    t: Seq<Expr>,
    args: Seq<Expr>,
    m: Map<Seq<u8>, u16>,
    a: int,
    reg: u16,
)
    requires
        t.len() == operand_count(op),
        eval(t[0], m, args, a as u16) == Ok::<u16, ErrorKind>(reg),
    ensures
        reg >= CODE_START ==> emit_one(op, t, args, m, a) == Err::<Instr, ErrorKind>(ErrorKind::OperandRange),
        reg < CODE_START && eval(t[1], m, args, a as u16) is Ok && (!op.spec_is_arith() ==> eval(
            t[2],
            m,
            args,
            a as u16,
        ) is Ok) ==> (emit_one(op, t, args, m, a) matches Ok(i) && (match i {
            Instr::Arith(_, r, _) => r == reg,
            Instr::Jump(_, r, _, _) => r == reg,
            _ => false,
        })),
{
}

proof fn lemma_rest_prefix(ds: Seq<Dir>, i: int, from: int, m: Map<Seq<u8>, u16>, a: int)
    requires
        0 <= from <= i < ds.len(),
        rest_output(ds.subrange(0, i), from, m, a).1 is None,
        emit_dir(ds[i], m, 0) is Err,
        forall|b: int| #[trigger] emit_dir(ds[i], m, b) == emit_dir(ds[i], m, 0),
    ensures
        rest_output(ds, from, m, a).1 == Some(emit_dir(ds[i], m, 0)->Err_0),
    decreases i - from,
{
    let pre = ds.subrange(0, i);
    if from < i {
        assert(pre[from] == ds[from]);
        if let Ok((is, a2)) = emit_dir(ds[from], m, a) {
            lemma_rest_prefix(ds, i, from + 1, m, a2);
        }
    }
}

/// Invoking a mnemonic with the wrong number of operands makes assembly
/// fail with no output; when every directive before it is emitted
/// without error, the failure is the arity mismatch.
pub proof fn lemma_arity_mismatch_fails(ds: Seq<Dir>, i: int)
    requires
        0 <= i < ds.len(),
        ds[i] matches Dir::Op(name, args) && expansion_of(name) matches Some((arity, _)) && args.len() != arity,
    ensures
        assemble_spec(ds) is Err,
        resolve(ds) matches Ok(m) && rest_output(ds.subrange(0, i), 0, m, CODE_START as int).1 is None
            ==> assemble_spec(ds) == Err::<Seq<Instr>, ErrorKind>(ErrorKind::MacroArityMismatch),
{
    if let Ok(m) = resolve(ds) {
        assert forall|b: int| #[trigger] emit_dir(ds[i], m, b) == emit_dir(ds[i], m, 0) by {}
        lemma_rest_stops(ds, i, 0, m, CODE_START as int);
        if rest_output(ds.subrange(0, i), 0, m, CODE_START as int).1 is None {
            lemma_rest_prefix(ds, i, 0, m, CODE_START as int);
        }
    }
}

proof fn lemma_rest_stops(ds: Seq<Dir>, i: int, from: int, m: Map<Seq<u8>, u16>, a: int)
    requires
        0 <= from <= i < ds.len(),
        forall|b: int| #[trigger] emit_dir(ds[i], m, b) is Err,
    ensures
        rest_output(ds, from, m, a).1 is Some,
    decreases i - from,
{
    assert(emit_dir(ds[from], m, a) is Err || from < i);
    if from < i {
        if let Ok((is, a2)) = emit_dir(ds[from], m, a) {
            lemma_rest_stops(ds, i, from + 1, m, a2);
        }
    }
}

proof fn lemma_pass1_keys(ds: Seq<Dir>, n: nat)
    requires
        n <= ds.len(),
        pass1(ds, n) is Ok,
    ensures
        forall|k: Seq<u8>|
            #[trigger] pass1(ds, n)->Ok_0.0.contains_key(k) ==> register_map().contains_key(k) || exists|q: int|
                0 <= q < n && ds[q] == Dir::Label(k),
    decreases n,
{
    if n > 0 {
        if pass1(ds, (n - 1) as nat) is Err {
            lemma_pass1_stops(ds, (n - 1) as nat, n);
        }
        lemma_pass1_keys(ds, (n - 1) as nat);
        let prev = pass1(ds, (n - 1) as nat)->Ok_0.0;
        assert forall|k: Seq<u8>| #[trigger] pass1(ds, n)->Ok_0.0.contains_key(k) implies register_map().contains_key(k)
            || exists|q: int| 0 <= q < n && ds[q] == Dir::Label(k) by {
            if prev.contains_key(k) {
                if !register_map().contains_key(k) {
                    let q = choose|q: int| 0 <= q < n - 1 && ds[q] == Dir::Label(k);
                    assert(0 <= q < n && ds[q] == Dir::Label(k));
                }
            } else {
                assert(ds[n - 1] == Dir::Label(k));
            }
        }
    }
}

proof fn lemma_pass2_keys(ds: Seq<Dir>, n: nat, m0: Map<Seq<u8>, u16>)
    requires
        n <= ds.len(),
        pass2(ds, n, m0) is Ok,
    ensures
        forall|k: Seq<u8>|
            #[trigger] pass2(ds, n, m0)->Ok_0.0.contains_key(k) ==> m0.contains_key(k) || exists|q: int, e: Expr|
                0 <= q < n && ds[q] == Dir::Const(k, e),
    decreases n,
{
    if n > 0 {
        if pass2(ds, (n - 1) as nat, m0) is Err {
            lemma_pass2_stops(ds, (n - 1) as nat, n, m0);
        }
        lemma_pass2_keys(ds, (n - 1) as nat, m0);
        let prev = pass2(ds, (n - 1) as nat, m0)->Ok_0.0;
        assert forall|k: Seq<u8>| #[trigger] pass2(ds, n, m0)->Ok_0.0.contains_key(k) implies m0.contains_key(k)
            || exists|q: int, e: Expr| 0 <= q < n && ds[q] == Dir::Const(k, e) by {
            if prev.contains_key(k) {
                if !m0.contains_key(k) {
                    let (q, e) = choose|q: int, e: Expr| 0 <= q < n - 1 && ds[q] == Dir::Const(k, e);
                    assert(0 <= q < n && ds[q] == Dir::Const(k, e));
                }
            } else {
                let e = ds[n - 1]->Const_1;
                assert(ds[n - 1] == Dir::Const(k, e));
            }
        }
    }
}

/// A constant whose value names a symbol that no label, register or earlier
/// constant defines fails as undefined, even when a later constant defines
/// it: constants resolve in source order. Here nothing before it fails.
pub proof fn lemma_constant_order(ds: Seq<Dir>, j: int, x: Seq<u8>)
    requires
        0 <= j < ds.len(),
        ds[j] matches Dir::Const(_, Expr::Label(y)) && y == x,
        !register_map().contains_key(x),
        forall|q: int| 0 <= q < ds.len() ==> ds[q] != Dir::Label(x),
        forall|q: int, e: Expr| 0 <= q < j ==> ds[q] != Dir::Const(x, e),
        pass1(ds, ds.len()) is Ok,
        pass2(ds, j as nat, pass1(ds, ds.len())->Ok_0.0) is Ok,
    ensures
        resolve(ds) == Err::<Map<Seq<u8>, u16>, ErrorKind>(ErrorKind::UndefinedConstant),
{
    let m1 = pass1(ds, ds.len())->Ok_0.0;
    lemma_pass1_keys(ds, ds.len());
    lemma_pass2_keys(ds, j as nat, m1);
    let m = pass2(ds, j as nat, m1)->Ok_0.0;
    if m1.contains_key(x) {
        assert(register_map().contains_key(x) || exists|q: int| 0 <= q < ds.len() && ds[q] == Dir::Label(x));
    }
    if m.contains_key(x) {
        assert(m1.contains_key(x) || exists|q: int, e: Expr| 0 <= q < j && ds[q] == Dir::Const(x, e));
    }
    let n = (j + 1) as nat;
    assert((n - 1) as nat == j as nat);
    assert(pass2(ds, n, m1) == Err::<(Map<Seq<u8>, u16>, int), ErrorKind>(ErrorKind::UndefinedConstant));
    lemma_pass2_stops(ds, n, ds.len(), m1);
}

} // verus!
