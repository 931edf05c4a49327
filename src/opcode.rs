use vstd::prelude::*;

use crate::error::Position;
use crate::expr::{bytes_eq, exprs, ArithOp, Expr, OpArg, OpArgVar};

verus! {

/// The base operations of the machine. The first thirteen are
/// arithmetic-class, the last three conditional jumps.
#[derive(Clone, Copy, Debug, PartialEq, Eq, Structural)]
pub enum BaseOp {
    /// `MI`: move immediate.
    Mvi,
    /// `MV`: move.
    Mv,
    /// `MD`: move through a pointer.
    Mvd,
    /// `LD`: load.
    Ld,
    /// `ST`: store.
    St,
    /// `ND`: bitwise and.
    And,
    /// `OR`: bitwise or.
    Or,
    /// `XR`: bitwise exclusive or.
    Xor,
    /// `AD`: add.
    Add,
    /// `SB`: subtract.
    Sub,
    /// `SR`: shift right.
    Shr,
    /// `SL`: shift left.
    Shl,
    /// `SA`: arithmetic shift right.
    Sha,
    /// `JL`: jump if less.
    Jl,
    /// `JG`: jump if greater.
    Jg,
    /// `JQ`: jump if equal.
    Jq,
}

/// The four-bit code of a base operation.
pub open spec fn base_code(b: BaseOp) -> u16 {
    match b {
        BaseOp::Mvi => 0,
        BaseOp::Mv => 1,
        BaseOp::Mvd => 2,
        BaseOp::Ld => 3,
        BaseOp::St => 4,
        BaseOp::And => 5,
        BaseOp::Or => 6,
        BaseOp::Xor => 7,
        BaseOp::Add => 8,
        BaseOp::Sub => 9,
        BaseOp::Shr => 10,
        BaseOp::Shl => 11,
        BaseOp::Sha => 12,
        BaseOp::Jl => 13,
        BaseOp::Jg => 14,
        BaseOp::Jq => 15,
    }
}

/// The base operation whose two-letter name is `a` `b` (upper-case ASCII).
pub open spec fn base_of_name(a: u8, b: u8) -> Option<BaseOp> {
    if a == 0x4D && b == 0x49 { Some(BaseOp::Mvi) }  // MI
    else if a == 0x4D && b == 0x56 { Some(BaseOp::Mv) }  // MV
    else if a == 0x4D && b == 0x44 { Some(BaseOp::Mvd) }  // MD
    else if a == 0x4C && b == 0x44 { Some(BaseOp::Ld) }  // LD
    else if a == 0x53 && b == 0x54 { Some(BaseOp::St) }  // ST
    else if a == 0x4E && b == 0x44 { Some(BaseOp::And) }  // ND
    else if a == 0x4F && b == 0x52 { Some(BaseOp::Or) }  // OR
    else if a == 0x58 && b == 0x52 { Some(BaseOp::Xor) }  // XR
    else if a == 0x41 && b == 0x44 { Some(BaseOp::Add) }  // AD
    else if a == 0x53 && b == 0x42 { Some(BaseOp::Sub) }  // SB
    else if a == 0x53 && b == 0x52 { Some(BaseOp::Shr) }  // SR
    else if a == 0x53 && b == 0x4C { Some(BaseOp::Shl) }  // SL
    else if a == 0x53 && b == 0x41 { Some(BaseOp::Sha) }  // SA
    else if a == 0x4A && b == 0x4C { Some(BaseOp::Jl) }  // JL
    else if a == 0x4A && b == 0x47 { Some(BaseOp::Jg) }  // JG
    else if a == 0x4A && b == 0x51 { Some(BaseOp::Jq) }  // JQ
    else { None }
}

/// A primitive opcode: a base operation, an operand width (16 or 8 bits)
/// and an addressing mode (immediate or memory).
#[derive(Clone, Copy, Debug, PartialEq, Eq, Structural)]
pub struct Opcode {
    pub base: BaseOp,
    pub imm: bool,
    pub bits16: bool,
}

/// `B`, the mnemonic suffix of the 8-bit form.
pub const SUFFIX_BYTE: u8 = 0x42;

/// `I`, the mnemonic suffix of the immediate form.
pub const SUFFIX_IMM: u8 = 0x49;

/// The primitive opcode named `s`: a base name, then `B` for the 8-bit form,
/// then `I` for the immediate form.
pub open spec fn opcode_of(s: Seq<u8>) -> Option<Opcode> {
    if 2 <= s.len() <= 4 && base_of_name(s[0], s[1]) is Some {
        let base = base_of_name(s[0], s[1])->Some_0;
        let rest = s.subrange(2, s.len() as int);
        if rest.len() == 0 {
            Some(Opcode { base, imm: false, bits16: true })
        } else if rest == seq![SUFFIX_BYTE] {
            Some(Opcode { base, imm: false, bits16: false })
        } else if rest == seq![SUFFIX_IMM] {
            Some(Opcode { base, imm: true, bits16: true })
        } else if rest == seq![SUFFIX_BYTE, SUFFIX_IMM] {
            Some(Opcode { base, imm: true, bits16: false })
        } else {
            None
        }
    } else {
        None
    }
}

impl Opcode {
    pub open spec fn spec_is_arith(self) -> bool {
        base_code(self.base) < 13
    }

    /// Output words the opcode occupies.
    pub open spec fn spec_size(self) -> u16 {
        if self.spec_is_arith() { 2 } else { 3 }
    }

    /// The six-bit code packed into the top of the first word.
    pub open spec fn spec_code(self) -> u16 {
        (base_code(self.base) + (if self.bits16 { 16int } else { 0int }) + (if self.imm { 32int } else { 0int })) as u16
    }

    /// Looks up a primitive mnemonic (upper case).
    pub fn from_str(s: &[u8]) -> (r: Option<Opcode>)
        ensures
            r == opcode_of(s@),
    {
        if s.len() < 2 || s.len() > 4 {
            return None;
        }
        let base = match base_from_bytes(s[0], s[1]) {
            Some(b) => b,
            None => {
                return None;
            },
        };
        let ghost rest = s@.subrange(2, s@.len() as int);
        if s.len() == 2 {
            proof {
                assert(rest.len() == 0);
            }
            Some(Opcode { base, imm: false, bits16: true })
        } else if s.len() == 3 && s[2] == SUFFIX_BYTE {
            proof {
                assert(rest =~= seq![SUFFIX_BYTE]);
            }
            Some(Opcode { base, imm: false, bits16: false })
        } else if s.len() == 3 && s[2] == SUFFIX_IMM {
            proof {
                assert(rest =~= seq![SUFFIX_IMM]);
            }
            Some(Opcode { base, imm: true, bits16: true })
        } else if s.len() == 4 && s[2] == SUFFIX_BYTE && s[3] == SUFFIX_IMM {
            proof {
                assert(rest =~= seq![SUFFIX_BYTE, SUFFIX_IMM]);
            }
            Some(Opcode { base, imm: true, bits16: false })
        } else {
            proof {
                if s.len() == 3 {
                    assert(rest.len() == 1 && rest[0] == s@[2]);
                    assert(rest != seq![SUFFIX_BYTE, SUFFIX_IMM]);
                    assert(rest != seq![SUFFIX_BYTE] ==> rest[0] != SUFFIX_BYTE) by {
                        if rest[0] == SUFFIX_BYTE {
                            assert(rest =~= seq![SUFFIX_BYTE]);
                        }
                    }
                    assert(rest[0] != SUFFIX_IMM || rest =~= seq![SUFFIX_IMM]);
                } else {
                    assert(rest.len() == 2 && rest[0] == s@[2] && rest[1] == s@[3]);
                    assert(rest != seq![SUFFIX_BYTE]);
                    assert(rest != seq![SUFFIX_IMM]);
                    assert(rest[0] != SUFFIX_BYTE || rest[1] != SUFFIX_IMM || rest =~= seq![
                        SUFFIX_BYTE,
                        SUFFIX_IMM,
                    ]);
                }
            }
            None
        }
    }

    /// The six-bit code of the opcode: base in bits 0-3, the 16-bit flag in
    /// bit 4, the immediate flag in bit 5.
    pub fn to_u16(self) -> (r: u16)
        ensures
            r == self.spec_code(),
            r < 64,
    {
        let mut r = base_to_u16(self.base);
        if self.bits16 {
            r = r + 16;
        }
        if self.imm {
            r = r + 32;
        }
        r
    }

    /// Output words the opcode occupies: 2 for arithmetic-class, 3 for jumps.
    pub fn size(&self) -> (r: u16)
        ensures
            r == self.spec_size(),
            self.spec_is_arith() ==> r == 2,
            !self.spec_is_arith() ==> r == 3,
    {
        if self.is_arith() {
            2
        } else {
            3
        }
    }

    /// Whether the opcode is arithmetic-class (register, operand) rather
    /// than a conditional jump (register, operand, target).
    pub fn is_arith(&self) -> (r: bool)
        ensures
            r == self.spec_is_arith(),
    {
        base_to_u16(self.base) < 13
    }

    /// The operand templates of the opcode used on its own: it takes its
    /// caller's operands in order.
    pub fn args(&self) -> (r: Vec<OpArg>)
        ensures
            exprs(r@) == primitive_templates(*self),
    {
        let mut r: Vec<OpArg> = Vec::new();
        r.push(OpArg::macro_arg(0));
        r.push(OpArg::macro_arg(1));
        if !self.is_arith() {
            r.push(OpArg::macro_arg(2));
        }
        proof {
            assert(exprs(r@) =~= primitive_templates(*self));
        }
        r
    }
}

fn base_to_u16(b: BaseOp) -> (r: u16)
    ensures
        r == base_code(b),
{
    match b {
        BaseOp::Mvi => 0,
        BaseOp::Mv => 1,
        BaseOp::Mvd => 2,
        BaseOp::Ld => 3,
        BaseOp::St => 4,
        BaseOp::And => 5,
        BaseOp::Or => 6,
        BaseOp::Xor => 7,
        BaseOp::Add => 8,
        BaseOp::Sub => 9,
        BaseOp::Shr => 10,
        BaseOp::Shl => 11,
        BaseOp::Sha => 12,
        BaseOp::Jl => 13,
        BaseOp::Jg => 14,
        BaseOp::Jq => 15,
    }
}

fn base_from_bytes(a: u8, b: u8) -> (r: Option<BaseOp>)
    ensures
        r == base_of_name(a, b),
{
    if a == 0x4D && b == 0x49 { Some(BaseOp::Mvi) }
    else if a == 0x4D && b == 0x56 { Some(BaseOp::Mv) }
    else if a == 0x4D && b == 0x44 { Some(BaseOp::Mvd) }
    else if a == 0x4C && b == 0x44 { Some(BaseOp::Ld) }
    else if a == 0x53 && b == 0x54 { Some(BaseOp::St) }
    else if a == 0x4E && b == 0x44 { Some(BaseOp::And) }
    else if a == 0x4F && b == 0x52 { Some(BaseOp::Or) }
    else if a == 0x58 && b == 0x52 { Some(BaseOp::Xor) }
    else if a == 0x41 && b == 0x44 { Some(BaseOp::Add) }
    else if a == 0x53 && b == 0x42 { Some(BaseOp::Sub) }
    else if a == 0x53 && b == 0x52 { Some(BaseOp::Shr) }
    else if a == 0x53 && b == 0x4C { Some(BaseOp::Shl) }
    else if a == 0x53 && b == 0x41 { Some(BaseOp::Sha) }
    else if a == 0x4A && b == 0x4C { Some(BaseOp::Jl) }
    else if a == 0x4A && b == 0x47 { Some(BaseOp::Jg) }
    else if a == 0x4A && b == 0x51 { Some(BaseOp::Jq) }
    else { None }
}

/// The templates of a primitive used on its own: `%0, %1` or `%0, %1, %2`.
pub open spec fn primitive_templates(op: Opcode) -> Seq<Expr> {
    if op.spec_is_arith() {
        seq![Expr::MacroArg(0), Expr::MacroArg(1)]
    } else {
        seq![Expr::MacroArg(0), Expr::MacroArg(1), Expr::MacroArg(2)]
    }
}


/// One primitive operation of an expansion, with its operand templates.
pub struct MacroOp {
    pub op: Opcode,
    pub args: Vec<OpArg>,
}

impl View for MacroOp {
    type V = (Opcode, Seq<Expr>);

    open spec fn view(&self) -> (Opcode, Seq<Expr>) {
        (self.op, exprs(self.args@))
    }
}

/// What a mnemonic stands for: the number of operands it takes and the
/// primitive operations it expands to.
pub struct Expansion {
    pub arity: u16,
    pub ops: Vec<MacroOp>,
}

/// Model of an expansion: arity and the templates of its operations.
pub type ExpansionModel = (u16, Seq<(Opcode, Seq<Expr>)>);

impl View for Expansion {
    type V = ExpansionModel;

    open spec fn view(&self) -> ExpansionModel {
        (self.arity, self.ops@.map_values(|o: MacroOp| o@))
    }
}

pub open spec fn op16(base: BaseOp, imm: bool) -> Opcode {
    Opcode { base, imm, bits16: true }
}

pub open spec fn reg_sc() -> Expr {
    Expr::Label(seq![0x53u8, 0x43u8])
}

pub open spec fn reg_sp() -> Expr {
    Expr::Label(seq![0x53u8, 0x50u8])
}

pub open spec fn reg_ip() -> Expr {
    Expr::Label(seq![0x49u8, 0x50u8])
}

/// The built-in pseudo-instructions, by upper-case name.
pub open spec fn builtin_of(name: Seq<u8>) -> Option<ExpansionModel> {
    let a0 = Expr::MacroArg(0);
    let jq = op16(BaseOp::Jq, false);
    if name == seq![0x4Au8, 0x4Du8, 0x50u8] {
        // JMP target
        Some((1, seq![(jq, seq![reg_sc(), reg_sc(), a0])]))
    } else if name == seq![0x4Au8, 0x4Du8, 0x50u8, 0x49u8] {
        // JMPI pointer
        Some((1, seq![(op16(BaseOp::Mv, false), seq![reg_ip(), a0])]))
    } else if name == seq![0x49u8, 0x4Eu8, 0x43u8] {
        // INC register
        Some((1, seq![(op16(BaseOp::Add, true), seq![a0, Expr::Number(1)])]))
    } else if name == seq![0x44u8, 0x45u8, 0x43u8] {
        // DEC register
        Some((1, seq![(op16(BaseOp::Sub, true), seq![a0, Expr::Number(1)])]))
    } else if name == seq![0x4Eu8, 0x45u8, 0x47u8] {
        // NEG register
        Some((1, seq![
            (op16(BaseOp::Xor, true), seq![a0, Expr::Number(0xFFFF)]),
            (op16(BaseOp::Add, true), seq![a0, Expr::Number(1)]),
        ]))
    } else if name == seq![0x50u8, 0x55u8, 0x53u8, 0x48u8] {
        // PUSH source
        Some((1, seq![
            (op16(BaseOp::Sub, true), seq![reg_sp(), Expr::Number(2)]),
            (op16(BaseOp::St, false), seq![reg_sp(), a0]),
        ]))
    } else if name == seq![0x50u8, 0x4Fu8, 0x50u8] {
        // POP register
        Some((1, seq![
            (op16(BaseOp::Ld, false), seq![a0, reg_sp()]),
            (op16(BaseOp::Add, true), seq![reg_sp(), Expr::Number(2)]),
        ]))
    } else if name == seq![0x43u8, 0x41u8, 0x4Cu8, 0x4Cu8] {
        // CALL target: push the address after the call, then jump
        Some((1, seq![
            (op16(BaseOp::Sub, true), seq![reg_sp(), Expr::Number(2)]),
            (op16(BaseOp::St, true), seq![reg_sp(), here_plus_spec(5)]),
            (jq, seq![reg_sc(), reg_sc(), a0]),
        ]))
    } else if name == seq![0x52u8, 0x45u8, 0x54u8] {
        // RET: pop the return address into IP
        Some((0, seq![
            (op16(BaseOp::Ld, false), seq![reg_sc(), reg_sp()]),
            (op16(BaseOp::Add, true), seq![reg_sp(), Expr::Number(2)]),
            (op16(BaseOp::Mv, false), seq![reg_ip(), reg_sc()]),
        ]))
    } else {
        None
    }
}

pub open spec fn here_plus_spec(n: u16) -> Expr {
    Expr::Arith(ArithOp::Add, Box::new(Expr::Here), Box::new(Expr::Number(n)))
}

/// What a mnemonic stands for: a primitive opcode taking its operands in
/// order, or a built-in pseudo-instruction. No name is both.
pub open spec fn expansion_of(name: Seq<u8>) -> Option<ExpansionModel> {
    match opcode_of(name) {
        Some(op) => Some((primitive_templates(op).len() as u16, seq![(op, primitive_templates(op))])),
        None => builtin_of(name),
    }
}

/// Output words taken by a list of operations.
pub open spec fn ops_size(ops: Seq<(Opcode, Seq<Expr>)>) -> nat
    decreases ops.len(),
{
    if ops.len() == 0 {
        0
    } else {
        (ops_size(ops.drop_last()) + ops.last().0.spec_size()) as nat
    }
}

/// Output words taken by the mnemonic `name`, if it names anything.
pub open spec fn mnemonic_size(name: Seq<u8>) -> Option<nat> {
    match expansion_of(name) {
        Some(e) => Some(ops_size(e.1)),
        None => None,
    }
}

fn label2(a: u8, b: u8) -> (r: OpArg)
    ensures
        r@ == Expr::Label(seq![a, b]),
{
    let name: Vec<u8> = vec![a, b];
    proof {
        assert(name@ =~= seq![a, b]);
    }
    OpArg { variant: OpArgVar::Label(name), pos: Position::builtin() }
}

fn sc() -> (r: OpArg)
    ensures
        r@ == reg_sc(),
{
    label2(0x53, 0x43)
}

fn sp() -> (r: OpArg)
    ensures
        r@ == reg_sp(),
{
    label2(0x53, 0x50)
}

fn ip() -> (r: OpArg)
    ensures
        r@ == reg_ip(),
{
    label2(0x49, 0x50)
}

fn num(n: u16) -> (r: OpArg)
    ensures
        r@ == Expr::Number(n),
{
    OpArg::number(n, Position::builtin())
}

fn here_plus(n: u16) -> (r: OpArg)
    ensures
        r@ == here_plus_spec(n),
{
    let here = OpArg { variant: OpArgVar::Here, pos: Position::builtin() };
    let k = num(n);
    assert(here@ == Expr::Here);
    let r = OpArg {
        variant: OpArgVar::ArithOp(ArithOp::Add, Box::new(here), Box::new(k)),
        pos: Position::builtin(),
    };
    assert(r@ == Expr::Arith(ArithOp::Add, Box::new(here@), Box::new(k@)));
    r
}

fn mop2(op: Opcode, a: OpArg, b: OpArg) -> (r: MacroOp)
    ensures
        r@ == (op, seq![a@, b@]),
{
    let ghost (va, vb) = (a@, b@);
    let mut args: Vec<OpArg> = Vec::new();
    args.push(a);
    args.push(b);
    proof {
        assert(exprs(args@) =~= seq![va, vb]);
    }
    MacroOp { op, args }
}

fn mop3(op: Opcode, a: OpArg, b: OpArg, c: OpArg) -> (r: MacroOp)
    ensures
        r@ == (op, seq![a@, b@, c@]),
{
    let ghost (va, vb, vc) = (a@, b@, c@);
    let mut args: Vec<OpArg> = Vec::new();
    args.push(a);
    args.push(b);
    args.push(c);
    proof {
        assert(exprs(args@) =~= seq![va, vb, vc]);
    }
    MacroOp { op, args }
}

fn opc(base: BaseOp, imm: bool) -> (r: Opcode)
    ensures
        r == op16(base, imm),
{
    Opcode { base, imm, bits16: true }
}

fn expansion1(arity: u16, a: MacroOp) -> (r: Expansion)
    ensures
        r@ == (arity, seq![a@]),
{
    let ghost va = a@;
    let mut ops: Vec<MacroOp> = Vec::new();
    ops.push(a);
    proof {
        assert(ops@.map_values(|o: MacroOp| o@) =~= seq![va]);
    }
    Expansion { arity, ops }
}

fn expansion2(arity: u16, a: MacroOp, b: MacroOp) -> (r: Expansion)
    ensures
        r@ == (arity, seq![a@, b@]),
{
    let ghost (va, vb) = (a@, b@);
    let mut ops: Vec<MacroOp> = Vec::new();
    ops.push(a);
    ops.push(b);
    proof {
        assert(ops@.map_values(|o: MacroOp| o@) =~= seq![va, vb]);
    }
    Expansion { arity, ops }
}

fn expansion3(arity: u16, a: MacroOp, b: MacroOp, c: MacroOp) -> (r: Expansion)
    ensures
        r@ == (arity, seq![a@, b@, c@]),
{
    let ghost (va, vb, vc) = (a@, b@, c@);
    let mut ops: Vec<MacroOp> = Vec::new();
    ops.push(a);
    ops.push(b);
    ops.push(c);
    proof {
        assert(ops@.map_values(|o: MacroOp| o@) =~= seq![va, vb, vc]);
    }
    Expansion { arity, ops }
}

/// Whether `name` is the three-byte word `a b c`.
fn is_word3(name: &[u8], a: u8, b: u8, c: u8) -> (r: bool)
    ensures
        r == (name@ == seq![a, b, c]),
{
    let r = name.len() == 3 && name[0] == a && name[1] == b && name[2] == c;
    proof {
        if r {
            assert(name@ =~= seq![a, b, c]);
        }
    }
    r
}

/// Whether `name` is the four-byte word `a b c d`.
fn is_word4(name: &[u8], a: u8, b: u8, c: u8, d: u8) -> (r: bool)
    ensures
        r == (name@ == seq![a, b, c, d]),
{
    let r = name.len() == 4 && name[0] == a && name[1] == b && name[2] == c && name[3] == d;
    proof {
        if r {
            assert(name@ =~= seq![a, b, c, d]);
        }
    }
    r
}

/// Looks up a built-in pseudo-instruction by its upper-case name.
pub fn builtin_macro(name: &[u8]) -> (r: Option<Expansion>)
    ensures
        r matches Some(e) ==> builtin_of(name@) == Some(e@),
        r is None ==> builtin_of(name@) is None,
{
    let a0 = OpArg::macro_arg(0);
    let jq = opc(BaseOp::Jq, false);
    if is_word3(name, 0x4A, 0x4D, 0x50) {
        Some(expansion1(1, mop3(jq, sc(), sc(), a0)))
    } else if is_word4(name, 0x4A, 0x4D, 0x50, 0x49) {
        Some(expansion1(1, mop2(opc(BaseOp::Mv, false), ip(), a0)))
    } else if is_word3(name, 0x49, 0x4E, 0x43) {
        Some(expansion1(1, mop2(opc(BaseOp::Add, true), a0, num(1))))
    } else if is_word3(name, 0x44, 0x45, 0x43) {
        Some(expansion1(1, mop2(opc(BaseOp::Sub, true), a0, num(1))))
    } else if is_word3(name, 0x4E, 0x45, 0x47) {
        Some(
            expansion2(
                1,
                mop2(opc(BaseOp::Xor, true), OpArg::macro_arg(0), num(0xFFFF)),
                mop2(opc(BaseOp::Add, true), a0, num(1)),
            ),
        )
    } else if is_word4(name, 0x50, 0x55, 0x53, 0x48) {
        Some(
            expansion2(
                1,
                mop2(opc(BaseOp::Sub, true), sp(), num(2)),
                mop2(opc(BaseOp::St, false), sp(), a0),
            ),
        )
    } else if is_word3(name, 0x50, 0x4F, 0x50) {
        Some(
            expansion2(
                1,
                mop2(opc(BaseOp::Ld, false), a0, sp()),
                mop2(opc(BaseOp::Add, true), sp(), num(2)),
            ),
        )
    } else if is_word4(name, 0x43, 0x41, 0x4C, 0x4C) {
        Some(
            expansion3(
                1,
                mop2(opc(BaseOp::Sub, true), sp(), num(2)),
                mop2(opc(BaseOp::St, true), sp(), here_plus(5)),
                mop3(jq, sc(), sc(), a0),
            ),
        )
    } else if is_word3(name, 0x52, 0x45, 0x54) {
        Some(
            expansion3(
                0,
                mop2(opc(BaseOp::Ld, false), sc(), sp()),
                mop2(opc(BaseOp::Add, true), sp(), num(2)),
                mop2(opc(BaseOp::Mv, false), ip(), sc()),
            ),
        )
    } else {
        None
    }
}

/// Looks up a mnemonic: a primitive opcode first, then a built-in.
pub fn lookup_mnemonic(name: &[u8]) -> (r: Option<Expansion>)
    ensures
        r matches Some(e) ==> expansion_of(name@) == Some(e@),
        r is None ==> expansion_of(name@) is None,
{
    match Opcode::from_str(name) {
        Some(op) => {
            let args = op.args();
            let n = args.len() as u16;
            Some(expansion1(n, MacroOp { op, args }))
        },
        None => builtin_macro(name),
    }
}

} // verus!
