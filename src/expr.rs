use vstd::prelude::*;

use crate::error::{AsmError, ErrorKind, Position};

verus! {

/// Lowest address of the code segment; addresses below it are the register window.
pub const CODE_START: u16 = 0x400;

/// The operators that may combine two operands.
#[derive(Clone, Copy, Debug, PartialEq, Eq, Structural)]
pub enum ArithOp {
    Add,
    Sub,
    Mul,
    Div,
}

/// What `op` computes: 16-bit wrapping arithmetic, truncating division.
pub open spec fn arith_spec(op: ArithOp, lhs: u16, rhs: u16) -> u16 {
    match op {
        ArithOp::Add => ((lhs + rhs) % 0x10000) as u16,
        ArithOp::Sub => ((lhs - rhs + 0x10000) % 0x10000) as u16,
        ArithOp::Mul => ((lhs * rhs) % 0x10000) as u16,
        ArithOp::Div => (lhs / rhs) as u16,
    }
}

impl ArithOp {
    pub fn op(self, lhs: u16, rhs: u16) -> (r: u16)
        requires
            self is Div ==> rhs != 0,
        ensures
            r == arith_spec(self, lhs, rhs),
    {
        match self {
            ArithOp::Add => lhs.wrapping_add(rhs),
            ArithOp::Sub => lhs.wrapping_sub(rhs),
            ArithOp::Mul => lhs.wrapping_mul(rhs),
            ArithOp::Div => lhs / rhs,
        }
    }
}

/// An operand expression, resolved lazily.
#[derive(Debug)]
pub enum OpArgVar {
    Number(u16),
    Label(Vec<u8>),
    MacroArg(u16),
    ArithOp(ArithOp, Box<OpArg>, Box<OpArg>),
    /// `$`: the address of the instruction being sized or emitted.
    Here,
}

/// An operand together with where it was written.
#[derive(Debug)]
pub struct OpArg {
    pub variant: OpArgVar,
    pub pos: Position,
}

/// The mathematical model of an operand: its expression tree without positions.
pub enum Expr {
    Number(u16),
    Label(Seq<u8>),
    MacroArg(u16),
    Arith(ArithOp, Box<Expr>, Box<Expr>),
    Here,
}

impl View for OpArg {
    type V = Expr;

    open spec fn view(&self) -> Expr
        decreases self,
    {
        match &self.variant {
            OpArgVar::Number(n) => Expr::Number(*n),
            OpArgVar::Label(name) => Expr::Label(name@),
            OpArgVar::MacroArg(n) => Expr::MacroArg(*n),
            OpArgVar::ArithOp(op, lhs, rhs) => Expr::Arith(*op, Box::new((**lhs)@), Box::new((**rhs)@)),
            OpArgVar::Here => Expr::Here,
        }
    }
}

/// The models of a list of operands.
pub open spec fn exprs(args: Seq<OpArg>) -> Seq<Expr> {
    args.map_values(|a: OpArg| a@)
}

/// The value of an operand, given the symbol table, the bound macro
/// arguments and the current address; `Err` names the failure.
pub open spec fn eval(a: Expr, labels: Map<Seq<u8>, u16>, args: Seq<Expr>, here: u16) -> Result<
    u16,
    ErrorKind,
>
    decreases args.len(), a,
{
    match a {
        Expr::Number(n) => Ok(n),
        Expr::Label(name) => if labels.contains_key(name) {
            Ok(labels[name])
        } else {
            Err(ErrorKind::UndefinedLabel)
        },
        Expr::MacroArg(n) => if n < args.len() {
            eval(args[n as int], labels, Seq::empty(), here)
        } else {
            Err(ErrorKind::MacroArityMismatch)
        },
        Expr::Arith(op, lhs, rhs) => match eval(*lhs, labels, args, here) {
            Err(e) => Err(e),
            Ok(l) => match eval(*rhs, labels, args, here) {
                Err(e) => Err(e),
                Ok(r) => if op is Div && r == 0 {
                    Err(ErrorKind::DivisionByZero)
                } else {
                    Ok(arith_spec(op, l, r))
                },
            },
        },
        Expr::Here => Ok(here),
    }
}

impl OpArg {
    pub fn number(n: u16, pos: Position) -> (r: OpArg)
        ensures
            r@ == Expr::Number(n),
            r.pos == pos,
    {
        OpArg { variant: OpArgVar::Number(n), pos }
    }

    pub fn macro_arg(n: u16) -> (r: OpArg)
        ensures
            r@ == Expr::MacroArg(n),
    {
        OpArg { variant: OpArgVar::MacroArg(n), pos: Position::builtin() }
    }

    /// A copy of this operand, equal to it.
    pub fn duplicate(&self) -> (r: OpArg)
        ensures
            r@ == self@,
            r.pos == self.pos,
        decreases self,
    {
        let variant = match &self.variant {
            OpArgVar::Number(n) => OpArgVar::Number(*n),
            OpArgVar::Label(name) => OpArgVar::Label(copy_bytes(name)),
            OpArgVar::MacroArg(n) => OpArgVar::MacroArg(*n),
            OpArgVar::ArithOp(op, lhs, rhs) => OpArgVar::ArithOp(
                *op,
                Box::new((**lhs).duplicate()),
                Box::new((**rhs).duplicate()),
            ),
            OpArgVar::Here => OpArgVar::Here,
        };
        OpArg { variant, pos: self.pos }
    }

    /// Resolves the operand against `labels`, the macro arguments `mac_args`
    /// and the current address `inst_offset`.
    pub fn evaluate(&self, labels: &SymbolTable, mac_args: &[OpArg], inst_offset: u16) -> (r:
        Result<u16, AsmError>)
        requires
            labels.wf(),
        ensures
            r matches Ok(v) ==> eval(self@, labels@, exprs(mac_args@), inst_offset) == Ok::<u16, ErrorKind>(v),
            r matches Err(e) ==> eval(self@, labels@, exprs(mac_args@), inst_offset) == Err::<u16, ErrorKind>(e.kind),
        decreases mac_args@.len(), self,
    {
        match &self.variant {
            OpArgVar::Number(n) => Ok(*n),
            OpArgVar::Label(name) => match labels.get(name.as_slice()) {
                Some(v) => Ok(v),
                None => Err(AsmError::new(ErrorKind::UndefinedLabel, self.pos)),
            },
            OpArgVar::MacroArg(n) => {
                if (*n as usize) < mac_args.len() {
                    let empty: [OpArg; 0] = [];
                    let r = mac_args[*n as usize].evaluate(labels, &empty, inst_offset);
                    proof {
                        assert(exprs(empty@) =~= Seq::<Expr>::empty());
                    }
                    r
                } else {
                    Err(AsmError::new(ErrorKind::MacroArityMismatch, self.pos))
                }
            },
            OpArgVar::ArithOp(op, lhs, rhs) => {
                let l = match (**lhs).evaluate(labels, mac_args, inst_offset) {
                    Ok(v) => v,
                    Err(e) => {
                        return Err(e);
                    },
                };
                let r = match (**rhs).evaluate(labels, mac_args, inst_offset) {
                    Ok(v) => v,
                    Err(e) => {
                        return Err(e);
                    },
                };
                if *op == ArithOp::Div && r == 0 {
                    Err(AsmError::new(ErrorKind::DivisionByZero, self.pos))
                } else {
                    Ok(op.op(l, r))
                }
            },
            OpArgVar::Here => Ok(inst_offset),
        }
    }
}

/// A copy of a byte string.
pub fn copy_bytes(b: &Vec<u8>) -> (r: Vec<u8>)
    ensures
        r@ == b@,
{
    let mut r: Vec<u8> = Vec::new();
    let mut i: usize = 0;
    while i < b.len()
        invariant
            i <= b.len(),
            r@ == b@.subrange(0, i as int),
        decreases b.len() - i,
    {
        r.push(b[i]);
        i = i + 1;
    }
    proof {
        assert(b@.subrange(0, b@.len() as int) =~= b@);
    }
    r
}

/// Whether two byte strings are equal.
pub fn bytes_eq(a: &[u8], b: &[u8]) -> (r: bool)
    ensures
        r == (a@ == b@),
{
    if a.len() != b.len() {
        return false;
    }
    let mut i: usize = 0;
    while i < a.len()
        invariant
            i <= a.len(),
            a@.len() == b@.len(),
            forall|k: int| 0 <= k < i ==> a@[k] == b@[k],
        decreases a.len() - i,
    {
        if a[i] != b[i] {
            return false;
        }
        i = i + 1;
    }
    proof {
        assert(a@ =~= b@);
    }
    true
}

/// The table from case-folded names to 16-bit values: labels, constants and
/// the architectural registers. Each name occurs at most once.
#[derive(Debug)]
pub struct SymbolTable {
    names: Vec<Vec<u8>>,
    values: Vec<u16>,
}

/// The registers the table starts with (`IP`, `SP`, `BP`, `SC`), and their addresses.
pub open spec fn register_map() -> Map<Seq<u8>, u16> {
    map![
        seq![0x49u8, 0x50u8] => 0x0u16,  // IP
        seq![0x53u8, 0x50u8] => 0x2u16,  // SP
        seq![0x42u8, 0x50u8] => 0x4u16,  // BP
        seq![0x53u8, 0x43u8] => 0x6u16,  // SC
    ]
}

impl SymbolTable {
    pub closed spec fn wf(&self) -> bool {
        &&& self.names.len() == self.values.len()
        &&& forall|i: int, j: int|
            0 <= i < j < self.names.len() ==> #[trigger] self.names[i]@ != #[trigger] self.names[j]@
    }

    pub closed spec fn view(&self) -> Map<Seq<u8>, u16> {
        Map::new(
            |k: Seq<u8>| exists|i: int| 0 <= i < self.names.len() && #[trigger] self.names[i]@ == k,
            |k: Seq<u8>|
                self.values[choose|i: int| 0 <= i < self.names.len() && #[trigger] self.names[i]@ == k],
        )
    }

    proof fn lemma_view_at(&self, i: int)
        requires
            self.wf(),
            0 <= i < self.names.len(),
        ensures
            self@.contains_key(self.names[i]@),
            self@[self.names[i]@] == self.values[i],
    {
        let k = self.names[i]@;
        assert(exists|j: int| 0 <= j < self.names.len() && #[trigger] self.names[j]@ == k);
        let c = choose|j: int| 0 <= j < self.names.len() && #[trigger] self.names[j]@ == k;
        if c != i {
            if c < i {
                assert(self.names[c]@ != self.names[i]@);
            } else {
                assert(self.names[i]@ != self.names[c]@);
            }
        }
    }

    /// An empty table.
    pub fn empty() -> (r: SymbolTable)
        ensures
            r.wf(),
            r@ == Map::<Seq<u8>, u16>::empty(),
    {
        let r = SymbolTable { names: Vec::new(), values: Vec::new() };
        proof {
            assert(r@ =~= Map::<Seq<u8>, u16>::empty());
        }
        r
    }

    /// A table holding the architectural registers and nothing else.
    pub fn with_registers() -> (r: SymbolTable)
        ensures
            r.wf(),
            r@ == register_map(),
    {
        let mut t = SymbolTable::empty();
        let ip: Vec<u8> = vec![0x49, 0x50];
        let sp: Vec<u8> = vec![0x53, 0x50];
        let bp: Vec<u8> = vec![0x42, 0x50];
        let sc: Vec<u8> = vec![0x53, 0x43];
        let _ = t.insert(ip, 0x0);
        let _ = t.insert(sp, 0x2);
        let _ = t.insert(bp, 0x4);
        let _ = t.insert(sc, 0x6);
        proof {
            assert(t@ =~= register_map());
        }
        t
    }

    /// The value bound to `name`, if any.
    pub fn get(&self, name: &[u8]) -> (r: Option<u16>)
        requires
            self.wf(),
        ensures
            r matches Some(v) ==> self@.contains_key(name@) && self@[name@] == v,
            r is None ==> !self@.contains_key(name@),
    {
        let mut i: usize = 0;
        while i < self.names.len()
            invariant
                self.wf(),
                i <= self.names.len(),
                forall|k: int| 0 <= k < i ==> #[trigger] self.names[k]@ != name@,
            decreases self.names.len() - i,
        {
            if bytes_eq(self.names[i].as_slice(), name) {
                proof {
                    self.lemma_view_at(i as int);
                }
                return Some(self.values[i]);
            }
            i = i + 1;
        }
        None
    }

    /// Number of names bound.
    pub fn len(&self) -> (r: usize)
        requires
            self.wf(),
        ensures
            r == self@.dom().len(),
    {
        proof {
            self.lemma_dom_len();
        }
        self.names.len()
    }

    /// The `i`-th binding, in order of insertion.
    pub fn entry(&self, i: usize) -> (r: (&[u8], u16))
        requires
            self.wf(),
            i < self@.dom().len(),
        ensures
            self@.contains_key(r.0@),
            self@[r.0@] == r.1,
    {
        proof {
            self.lemma_dom_len();
            self.lemma_view_at(i as int);
        }
        (self.names[i].as_slice(), self.values[i])
    }

    proof fn lemma_dom_len(&self)
        requires
            self.wf(),
        ensures
            self@.dom().len() == self.names.len(),
            self@.dom().finite(),
        decreases self.names.len(),
    {
        let keys = self.names@.map_values(|v: Vec<u8>| v@);
        assert forall|i: int, j: int| 0 <= i < j < keys.len() implies keys[i] != keys[j] by {
            assert(self.names[i]@ != self.names[j]@);
        }
        keys.unique_seq_to_set();
        assert(self@.dom() =~= keys.to_set()) by {
            assert forall|k: Seq<u8>| self@.dom().contains(k) implies keys.to_set().contains(k) by {
                let i = choose|i: int| 0 <= i < self.names.len() && #[trigger] self.names[i]@ == k;
                assert(keys[i] == k);
            }
            assert forall|k: Seq<u8>| keys.to_set().contains(k) implies self@.dom().contains(k) by {
                let i = choose|i: int| 0 <= i < keys.len() && keys[i] == k;
                assert(self.names[i]@ == k);
            }
        }
    }

    /// Binds `name` to `value`; a name that is already bound is refused and
    /// leaves the table unchanged.
    pub fn insert(&mut self, name: Vec<u8>, value: u16) -> (r: bool)
        requires
            old(self).wf(),
        ensures
            final(self).wf(),
            r == !old(self)@.contains_key(name@),
            r ==> final(self)@ == old(self)@.insert(name@, value),
            !r ==> final(self)@ == old(self)@,
    {
        if self.get(name.as_slice()).is_some() {
            return false;
        }
        let ghost old_t = *self;
        let ghost k = name@;
        self.names.push(name);
        self.values.push(value);
        proof {
            let n = old_t.names.len() as int;
            assert forall|i: int, j: int| 0 <= i < j < self.names.len() implies #[trigger] self.names[i]@
                != #[trigger] self.names[j]@ by {
                if j == n {
                    assert(self.names[i] == old_t.names[i]);
                    assert(!(exists|m: int| 0 <= m < old_t.names.len() && #[trigger] old_t.names[m]@ == k));
                } else {
                    assert(self.names[i] == old_t.names[i]);
                    assert(self.names[j] == old_t.names[j]);
                }
            }
            assert forall|q: Seq<u8>| #[trigger] self@.contains_key(q) == old_t@.insert(k, value).contains_key(q) by {
                if q == k {
                    assert(self.names[n]@ == q);
                } else if old_t@.contains_key(q) {
                    let m = choose|m: int| 0 <= m < old_t.names.len() && #[trigger] old_t.names[m]@ == q;
                    assert(self.names[m] == old_t.names[m]);
                } else if self@.contains_key(q) {
                    let m = choose|m: int| 0 <= m < self.names.len() && #[trigger] self.names[m]@ == q;
                    assert(old_t.names[m] == self.names[m]);
                }
            }
            assert forall|q: Seq<u8>| #[trigger] self@.contains_key(q) implies self@[q] == old_t@.insert(k, value)[q] by {
                let m = choose|m: int| 0 <= m < self.names.len() && #[trigger] self.names[m]@ == q;
                self.lemma_view_at(m);
                if q != k {
                    assert(m < n);
                    assert(old_t.names[m] == self.names[m]);
                    old_t.lemma_view_at(m);
                }
            }
            assert(self@ =~= old_t@.insert(k, value));
        }
        true
    }
}

} // verus!
