use vstd::prelude::*;

use crate::error::Position;
use crate::expr::{copy_bytes, exprs, Expr, OpArg};

verus! {

/// One parsed source statement, before symbol resolution.
#[derive(Debug)]
pub enum DirectiveVar {
    /// `name:` defines a label at the current address.
    Label(Vec<u8>),
    /// A mnemonic and its operands.
    Op(Vec<u8>, Vec<OpArg>),
    /// `EQU name value` defines a constant.
    Const(Vec<u8>, OpArg),
    /// `DATA ...`: 16-bit words, `REP` already expanded.
    Data(Vec<OpArg>),
    /// `BYTES ...`: 8-bit values, padded to a whole number of words.
    ByteData(Vec<OpArg>),
    /// `PUBLIC name`: accepted and not enforced.
    Public(Vec<u8>),
    /// `IMPORT a.b.c`: the dotted path segments.
    Import(Vec<Vec<u8>>),
    /// A user-defined macro header; such macros cannot be expanded.
    Macro { name: Vec<u8>, args: u16 },
}

/// A directive together with where it was written.
#[derive(Debug)]
pub struct Directive {
    pub variant: DirectiveVar,
    pub pos: Position,
}

/// The model of a directive.
pub enum Dir {
    Label(Seq<u8>),
    Op(Seq<u8>, Seq<Expr>),
    Const(Seq<u8>, Expr),
    Data(Seq<Expr>),
    Bytes(Seq<Expr>),
    Public(Seq<u8>),
    Import(Seq<Seq<u8>>),
    Macro(Seq<u8>, u16),
}

impl View for Directive {
    type V = Dir;

    open spec fn view(&self) -> Dir {
        match &self.variant {
            DirectiveVar::Label(n) => Dir::Label(n@),
            DirectiveVar::Op(n, a) => Dir::Op(n@, exprs(a@)),
            DirectiveVar::Const(n, v) => Dir::Const(n@, v@),
            DirectiveVar::Data(v) => Dir::Data(exprs(v@)),
            DirectiveVar::ByteData(v) => Dir::Bytes(exprs(v@)),
            DirectiveVar::Public(n) => Dir::Public(n@),
            DirectiveVar::Import(p) => Dir::Import(p@.map_values(|s: Vec<u8>| s@)),
            DirectiveVar::Macro { name, args } => Dir::Macro(name@, *args),
        }
    }
}

/// The models of a list of directives.
pub open spec fn dirs(ds: Seq<Directive>) -> Seq<Dir> {
    ds.map_values(|d: Directive| d@)
}

/// Copies of a list of operands, with the same models.
pub fn duplicate_args(v: &Vec<OpArg>) -> (r: Vec<OpArg>)
    ensures
        exprs(r@) == exprs(v@),
{
    let mut r: Vec<OpArg> = Vec::new();
    let mut i: usize = 0;
    while i < v.len()
        invariant
            i <= v.len(),
            exprs(r@) == exprs(v@.subrange(0, i as int)),
        decreases v.len() - i,
    {
        let x = v[i].duplicate();
        let ghost before = exprs(r@);
        r.push(x);
        proof {
            assert(exprs(r@) =~= before.push(x@));
            assert(exprs(v@.subrange(0, i + 1)) =~= exprs(v@.subrange(0, i as int)).push(v@[i as int]@));
        }
        i = i + 1;
    }
    proof {
        assert(v@.subrange(0, v@.len() as int) =~= v@);
    }
    r
}

fn duplicate_path(v: &Vec<Vec<u8>>) -> (r: Vec<Vec<u8>>)
    ensures
        r@.map_values(|s: Vec<u8>| s@) == v@.map_values(|s: Vec<u8>| s@),
{
    let mut r: Vec<Vec<u8>> = Vec::new();
    let mut i: usize = 0;
    while i < v.len()
        invariant
            i <= v.len(),
            r@.map_values(|s: Vec<u8>| s@) == v@.subrange(0, i as int).map_values(|s: Vec<u8>| s@),
        decreases v.len() - i,
    {
        let x = copy_bytes(&v[i]);
        let ghost before = r@.map_values(|s: Vec<u8>| s@);
        r.push(x);
        proof {
            assert(r@.map_values(|s: Vec<u8>| s@) =~= before.push(x@));
            assert(v@.subrange(0, i + 1).map_values(|s: Vec<u8>| s@) =~= v@.subrange(0, i as int).map_values(
                |s: Vec<u8>| s@,
            ).push(v@[i as int]@));
        }
        i = i + 1;
    }
    proof {
        assert(v@.subrange(0, v@.len() as int) =~= v@);
    }
    r
}

impl Directive {
    /// A copy of this directive, with the same model and position.
    pub fn duplicate(&self) -> (r: Directive)
        ensures
            r@ == self@,
            r.pos == self.pos,
    {
        let variant = match &self.variant {
            DirectiveVar::Label(n) => DirectiveVar::Label(copy_bytes(n)),
            DirectiveVar::Op(n, a) => DirectiveVar::Op(copy_bytes(n), duplicate_args(a)),
            DirectiveVar::Const(n, v) => DirectiveVar::Const(copy_bytes(n), v.duplicate()),
            DirectiveVar::Data(v) => DirectiveVar::Data(duplicate_args(v)),
            DirectiveVar::ByteData(v) => DirectiveVar::ByteData(duplicate_args(v)),
            DirectiveVar::Public(n) => DirectiveVar::Public(copy_bytes(n)),
            DirectiveVar::Import(p) => DirectiveVar::Import(duplicate_path(p)),
            DirectiveVar::Macro { name, args } => DirectiveVar::Macro { name: copy_bytes(name), args: *args },
        };
        Directive { variant, pos: self.pos }
    }
}

} // verus!
