use vstd::prelude::*;

use crate::directive::{dirs, Dir, Directive, DirectiveVar};
use crate::error::{AsmError, ErrorKind, Position};
use crate::expr::{exprs, Expr, OpArg, OpArgVar};
use crate::lexer::{lemma_lex_progress, lemma_skip_trivia, lex_token, skip_trivia, Lexer, Tok, Token, TokenVar};

verus! {

/// The operand a single token stands for: `$`, a name, a number, or a
/// one-character string (its byte value).
pub open spec fn operand(t: Tok) -> Result<Expr, ErrorKind> {
    match t {
        Tok::Here => Ok(Expr::Here),
        Tok::Ident(n) => Ok(Expr::Label(n)),
        Tok::Num(n) => Ok(Expr::Number(n)),
        Tok::Str(b) => if b.len() == 1 {
            Ok(Expr::Number(b[0] as u16))
        } else {
            Err(ErrorKind::Syntax)
        },
        _ => Err(ErrorKind::Syntax),
    }
}

/// Where the input stands once only insignificant text is left before `i`.
pub open spec fn trivia_end(s: Seq<u8>, i: int) -> int {
    skip_trivia(s, i, false)
}

/// `REP count, operand` after the `REP` keyword, which ended at `e`:
/// `count` copies of the operand.
pub open spec fn rep_item(s: Seq<u8>, e: int) -> Result<(Seq<Expr>, int), ErrorKind> {
    match lex_token(s, e) {
        Err(k) => Err(k),
        Ok(Some((Tok::Num(n), e2))) => match lex_token(s, e2) {
            Err(k) => Err(k),
            Ok(Some((Tok::Comma, e3))) => match lex_token(s, e3) {
                Err(k) => Err(k),
                Ok(Some((t4, e4))) => match operand(t4) {
                    Err(k) => Err(k),
                    Ok(x) => Ok((Seq::new(n as nat, |_k: int| x), e4)),
                },
                Ok(None) => Err(ErrorKind::Syntax),
            },
            _ => Err(ErrorKind::Syntax),
        },
        _ => Err(ErrorKind::Syntax),
    }
}

/// The operands of one list item that began with token `t`, which ended at
/// `e`. In data lists an item may also be a string (one operand per byte)
/// or a `REP`.
pub open spec fn item_from_tok(s: Seq<u8>, t: Tok, e: int, data: bool) -> Result<(Seq<Expr>, int), ErrorKind> {
    if data && t is Rep {
        rep_item(s, e)
    } else if data && t is Str {
        Ok((t->Str_0.map_values(|c: u8| Expr::Number(c as u16)), e))
    } else {
        match operand(t) {
            Err(k) => Err(k),
            Ok(x) => Ok((seq![x], e)),
        }
    }
}

pub open spec fn prepend_exprs(p: Seq<Expr>, r: Result<(Seq<Expr>, int), ErrorKind>) -> Result<
    (Seq<Expr>, int),
    ErrorKind,
> {
    match r {
        Err(k) => Err(k),
        Ok((b, e)) => Ok((p + b, e)),
    }
}

/// A list item ends at or after its first token and within the input.
pub proof fn lemma_item_end(s: Seq<u8>, t: Tok, e: int, data: bool)
    requires
        0 <= e <= s.len(),
        item_from_tok(s, t, e, data) is Ok,
    ensures
        e <= item_from_tok(s, t, e, data)->Ok_0.1 <= s.len(),
{
    if data && t is Rep {
        lemma_lex_progress(s, e);
        let e2 = lex_token(s, e)->Ok_0->Some_0.1;
        lemma_lex_progress(s, e2);
        let e3 = lex_token(s, e2)->Ok_0->Some_0.1;
        lemma_lex_progress(s, e3);
    }
}

/// A comma-separated list up to the end of the line (or of the input).
/// `state` is 0 at the start, 1 after an item, 2 after a comma.
pub open spec fn list_from(s: Seq<u8>, i: int, state: int, data: bool) -> Result<(Seq<Expr>, int), ErrorKind>
    decreases s.len() - i,
{
    if i < 0 || i > s.len() {
        Err(ErrorKind::Syntax)
    } else {
        match lex_token(s, i) {
            Err(k) => Err(k),
            Ok(None) => if state == 2 {
                Err(ErrorKind::Syntax)
            } else {
                Ok((Seq::empty(), trivia_end(s, i)))
            },
            Ok(Some((t, e))) => {
                proof {
                    lemma_lex_progress(s, i);
                }
                if state != 2 && t is Newline {
                    Ok((Seq::empty(), e))
                } else if state == 1 {
                    if t is Comma {
                        list_from(s, e, 2, data)
                    } else {
                        Err(ErrorKind::Syntax)
                    }
                } else {
                    match item_from_tok(s, t, e, data) {
                        Err(k) => Err(k),
                        Ok((xs, e2)) => {
                            proof {
                                lemma_item_end(s, t, e, data);
                            }
                            prepend_exprs(xs, list_from(s, e2, 1, data))
                        },
                    }
                }
            },
        }
    }
}

pub open spec fn prepend_seg(p: Seq<u8>, r: Result<(Seq<Seq<u8>>, int), ErrorKind>) -> Result<
    (Seq<Seq<u8>>, int),
    ErrorKind,
> {
    match r {
        Err(k) => Err(k),
        Ok((b, e)) => Ok((seq![p] + b, e)),
    }
}

/// The dotted segments of an import path up to the end of the line.
/// `need` says a segment must come next.
pub open spec fn path_from(s: Seq<u8>, i: int, need: bool) -> Result<(Seq<Seq<u8>>, int), ErrorKind>
    decreases s.len() - i,
{
    if i < 0 || i > s.len() {
        Err(ErrorKind::Syntax)
    } else {
        match lex_token(s, i) {
            Err(k) => Err(k),
            Ok(None) => if need {
                Err(ErrorKind::Syntax)
            } else {
                Ok((Seq::empty(), trivia_end(s, i)))
            },
            Ok(Some((t, e))) => {
                proof {
                    lemma_lex_progress(s, i);
                }
                if need {
                    if t is Ident {
                        prepend_seg(t->Ident_0, path_from(s, e, false))
                    } else {
                        Err(ErrorKind::Syntax)
                    }
                } else if t is Dot {
                    path_from(s, e, true)
                } else if t is Newline {
                    Ok((Seq::empty(), e))
                } else {
                    Err(ErrorKind::Syntax)
                }
            },
        }
    }
}

/// The next directive of `s` from `i` and where it ends; `None` once only
/// blank lines and comments are left.
pub open spec fn parse_dir(s: Seq<u8>, i: int) -> Result<Option<(Dir, int)>, ErrorKind>
    decreases s.len() - i,
{
    if i < 0 || i > s.len() {
        Err(ErrorKind::Syntax)
    } else {
        match lex_token(s, i) {
            Err(k) => Err(k),
            Ok(None) => Ok(None),
            Ok(Some((t, e))) => {
                proof {
                    lemma_lex_progress(s, i);
                }
                match t {
                    Tok::Newline => parse_dir(s, e),
                    Tok::Label(n) => Ok(Some((Dir::Label(n), e))),
                    Tok::Ident(op) => match list_from(s, e, 0, false) {
                        Err(k) => Err(k),
                        Ok((a, e2)) => Ok(Some((Dir::Op(op, a), e2))),
                    },
                    Tok::Data => match list_from(s, e, 0, true) {
                        Err(k) => Err(k),
                        Ok((a, e2)) => Ok(Some((Dir::Data(a), e2))),
                    },
                    Tok::Bytes => match list_from(s, e, 0, true) {
                        Err(k) => Err(k),
                        Ok((a, e2)) => Ok(Some((Dir::Bytes(a), e2))),
                    },
                    Tok::Equ => match lex_token(s, e) {
                        Err(k) => Err(k),
                        Ok(Some((Tok::Ident(n), e2))) => match lex_token(s, e2) {
                            Err(k) => Err(k),
                            Ok(Some((t3, e3))) => match operand(t3) {
                                Err(k) => Err(k),
                                Ok(x) => Ok(Some((Dir::Const(n, x), e3))),
                            },
                            Ok(None) => Err(ErrorKind::Syntax),
                        },
                        _ => Err(ErrorKind::Syntax),
                    },
                    Tok::Import => match path_from(s, e, true) {
                        Err(k) => Err(k),
                        Ok((p, e2)) => Ok(Some((Dir::Import(p), e2))),
                    },
                    Tok::Public => match lex_token(s, e) {
                        Err(k) => Err(k),
                        Ok(Some((Tok::Ident(n), e2))) => Ok(Some((Dir::Public(n), e2))),
                        _ => Err(ErrorKind::Syntax),
                    },
                    Tok::Macro => Err(ErrorKind::UnimplementedFeature),
                    Tok::EndMacro => Err(ErrorKind::UnimplementedFeature),
                    _ => Err(ErrorKind::Syntax),
                }
            },
        }
    }
}

/// The operand a token stands for.
fn operand_exec(tok: Token) -> (r: Result<OpArg, AsmError>)
    ensures
        r matches Ok(x) ==> operand(tok.variant@) == Ok::<Expr, ErrorKind>(x@) && x.pos == tok.pos,
        r matches Err(e) ==> operand(tok.variant@) == Err::<Expr, ErrorKind>(e.kind),
{
    let pos = tok.pos;
    match tok.variant {
        TokenVar::Here => Ok(OpArg { variant: OpArgVar::Here, pos }),
        TokenVar::Ident(n) => Ok(OpArg { variant: OpArgVar::Label(n), pos }),
        TokenVar::NumLit(n) => Ok(OpArg::number(n, pos)),
        TokenVar::StrLit(b) => {
            if b.len() == 1 {
                Ok(OpArg::number(b[0] as u16, pos))
            } else {
                Err(AsmError::new(ErrorKind::Syntax, pos))
            }
        },
        _ => Err(AsmError::new(ErrorKind::Syntax, pos)),
    }
}

impl Lexer {
    /// Reads `count, operand` after a `REP` keyword.
    fn rep_exec(&mut self, pos: Position) -> (r: Result<Vec<OpArg>, AsmError>)
        requires
            old(self).wf(),
        ensures
            final(self).wf(),
            final(self).source() == old(self).source(),
            rep_item(old(self).source(), old(self).cursor()) matches Ok((xs, e)) ==> (r matches Ok(v) && exprs(v@)
                == xs && final(self).cursor() == e),
            rep_item(old(self).source(), old(self).cursor()) matches Err(k) ==> (r matches Err(err) && err.kind
                == k),
    {
        let n = match self.next_token()? {
            Some(Token { variant: TokenVar::NumLit(n), .. }) => n,
            _ => {
                return Err(AsmError::new(ErrorKind::Syntax, pos));
            },
        };
        match self.next_token()? {
            Some(Token { variant: TokenVar::Comma, .. }) => {},
            _ => {
                return Err(AsmError::new(ErrorKind::Syntax, pos));
            },
        }
        let tok = match self.next_token()? {
            Some(t) => t,
            None => {
                return Err(AsmError::new(ErrorKind::Syntax, pos));
            },
        };
        let x = operand_exec(tok)?;
        let mut v: Vec<OpArg> = Vec::new();
        let mut i: u16 = 0;
        while i < n
            invariant
                i <= n,
                exprs(v@) == Seq::new(i as nat, |_k: int| x@),
            decreases n - i,
        {
            let ghost before = exprs(v@);
            v.push(x.duplicate());
            proof {
                assert(exprs(v@) =~= before.push(x@));
                assert(Seq::new((i + 1) as nat, |_k: int| x@) =~= Seq::new(i as nat, |_k: int| x@).push(x@));
            }
            i = i + 1;
        }
        proof {
            assert(exprs(v@) =~= Seq::new(n as nat, |_k: int| x@));
        }
        Ok(v)
    }

    /// Reads the rest of a list item that began with `tok`.
    fn item_exec(&mut self, tok: Token, data: bool) -> (r: Result<Vec<OpArg>, AsmError>)
        requires
            old(self).wf(),
        ensures
            final(self).wf(),
            final(self).source() == old(self).source(),
            item_from_tok(old(self).source(), tok.variant@, old(self).cursor(), data) matches Ok((xs, e)) ==> (r matches Ok(
                v,
            ) && exprs(v@) == xs && final(self).cursor() == e),
            item_from_tok(old(self).source(), tok.variant@, old(self).cursor(), data) matches Err(k) ==> (r matches Err(
                err,
            ) && err.kind == k),
    {
        let pos = tok.pos;
        if data {
            match tok.variant {
                TokenVar::Rep => {
                    return self.rep_exec(pos);
                },
                TokenVar::StrLit(b) => {
                    let mut v: Vec<OpArg> = Vec::new();
                    let mut i: usize = 0;
                    while i < b.len()
                        invariant
                            i <= b.len(),
                            exprs(v@) == b@.subrange(0, i as int).map_values(|c: u8| Expr::Number(c as u16)),
                        decreases b.len() - i,
                    {
                        let ghost before = exprs(v@);
                        let x = OpArg::number(b[i] as u16, pos);
                        v.push(x);
                        proof {
                            assert(exprs(v@) =~= before.push(x@));
                            assert(b@.subrange(0, i + 1).map_values(|c: u8| Expr::Number(c as u16))
                                =~= b@.subrange(0, i as int).map_values(|c: u8| Expr::Number(c as u16)).push(x@));
                        }
                        i = i + 1;
                    }
                    proof {
                        assert(b@.subrange(0, b@.len() as int) =~= b@);
                    }
                    return Ok(v);
                },
                other => {
                    let x = operand_exec(Token { variant: other, pos })?;
                    let mut v: Vec<OpArg> = Vec::new();
                    v.push(x);
                    proof {
                        assert(exprs(v@) =~= seq![x@]);
                    }
                    return Ok(v);
                },
            }
        }
        let x = operand_exec(tok)?;
        let mut v: Vec<OpArg> = Vec::new();
        v.push(x);
        proof {
            assert(exprs(v@) =~= seq![x@]);
        }
        Ok(v)
    }

    /// Reads a comma-separated list up to the end of the line.
    fn list_exec(&mut self, data: bool) -> (r: Result<Vec<OpArg>, AsmError>)
        requires
            old(self).wf(),
        ensures
            final(self).wf(),
            final(self).source() == old(self).source(),
            list_from(old(self).source(), old(self).cursor(), 0, data) matches Ok((xs, e)) ==> (r matches Ok(v)
                && exprs(v@) == xs && final(self).cursor() == e),
            list_from(old(self).source(), old(self).cursor(), 0, data) matches Err(k) ==> (r matches Err(err)
                && err.kind == k),
    {
        let ghost s = self.source();
        let ghost target = list_from(s, self.cursor(), 0, data);
        let mut acc: Vec<OpArg> = Vec::new();
        let mut state: u8 = 0;
        proof {
            assert(exprs(acc@) =~= Seq::<Expr>::empty());
            if let Ok((xs, e)) = target {
                assert(Seq::<Expr>::empty() + xs =~= xs);
            }
        }
        loop
            invariant
                self.wf(),
                self.source() == s,
                s == old(self).source(),
                state <= 2,
                target == list_from(s, old(self).cursor(), 0, data),
                target == prepend_exprs(exprs(acc@), list_from(s, self.cursor(), state as int, data)),
            decreases s.len() - self.cursor(),
        {
            proof {
                self.lemma_cursor();
            }
            let ghost i = self.cursor();
            let ghost a0 = exprs(acc@);
            let tok = match self.next_token() {
                Err(e) => {
                    return Err(e);
                },
                Ok(None) => {
                    if state == 2 {
                        return Err(AsmError::new(ErrorKind::Syntax, self.position()));
                    }
                    proof {
                        assert(a0 + Seq::<Expr>::empty() =~= a0);
                    }
                    return Ok(acc);
                },
                Ok(Some(t)) => t,
            };
            proof {
                lemma_lex_progress(s, i);
            }
            let newline = match tok.variant {
                TokenVar::Newline => true,
                _ => false,
            };
            let comma = match tok.variant {
                TokenVar::Comma => true,
                _ => false,
            };
            if state != 2 && newline {
                proof {
                    assert(a0 + Seq::<Expr>::empty() =~= a0);
                }
                return Ok(acc);
            } else if state == 1 {
                if comma {
                    state = 2;
                } else {
                    return Err(AsmError::new(ErrorKind::Syntax, tok.pos));
                }
            } else {
                let ghost tv = tok.variant@;
                let ghost e = self.cursor();
                proof {
                    self.lemma_cursor();
                }
                let mut xs = self.item_exec(tok, data)?;
                proof {
                    lemma_item_end(s, tv, e, data);
                }
                let ghost xv = exprs(xs@);
                acc.append(&mut xs);
                proof {
                    assert(exprs(acc@) =~= a0 + xv);
                    match list_from(s, self.cursor(), 1, data) {
                        Err(k) => {},
                        Ok((b, e)) => {
                            assert(a0 + (xv + b) =~= exprs(acc@) + b);
                        },
                    }
                }
                state = 1;
            }
        }
    }

    /// Reads the dotted path of an `IMPORT`.
    fn path_exec(&mut self, pos: Position) -> (r: Result<Vec<Vec<u8>>, AsmError>)
        requires
            old(self).wf(),
        ensures
            final(self).wf(),
            final(self).source() == old(self).source(),
            path_from(old(self).source(), old(self).cursor(), true) matches Ok((p, e)) ==> (r matches Ok(v)
                && v@.map_values(|x: Vec<u8>| x@) == p && final(self).cursor() == e),
            path_from(old(self).source(), old(self).cursor(), true) matches Err(k) ==> (r matches Err(err)
                && err.kind == k),
    {
        let ghost s = self.source();
        let ghost target = path_from(s, self.cursor(), true);
        let mut acc: Vec<Vec<u8>> = Vec::new();
        let mut need = true;
        proof {
            assert(acc@.map_values(|x: Vec<u8>| x@) =~= Seq::<Seq<u8>>::empty());
            if let Ok((p, e)) = target {
                assert(Seq::<Seq<u8>>::empty() + p =~= p);
            }
        }
        loop
            invariant
                self.wf(),
                self.source() == s,
                s == old(self).source(),
                target == path_from(s, old(self).cursor(), true),
                target == (match path_from(s, self.cursor(), need) {
                    Err(k) => Err(k),
                    Ok((b, e)) => Ok((acc@.map_values(|x: Vec<u8>| x@) + b, e)),
                }),
            decreases s.len() - self.cursor(),
        {
            proof {
                self.lemma_cursor();
            }
            let ghost i = self.cursor();
            let ghost a0 = acc@.map_values(|x: Vec<u8>| x@);
            let tok = match self.next_token() {
                Err(e) => {
                    return Err(e);
                },
                Ok(None) => {
                    if need {
                        return Err(AsmError::new(ErrorKind::Syntax, pos));
                    }
                    proof {
                        assert(a0 + Seq::<Seq<u8>>::empty() =~= a0);
                    }
                    return Ok(acc);
                },
                Ok(Some(t)) => t,
            };
            proof {
                lemma_lex_progress(s, i);
            }
            if need {
                match tok.variant {
                    TokenVar::Ident(seg) => {
                        let ghost sv = seg@;
                        acc.push(seg);
                        proof {
                            assert(acc@.map_values(|x: Vec<u8>| x@) =~= a0.push(sv));
                            match path_from(s, self.cursor(), false) {
                                Err(k) => {},
                                Ok((b, e)) => {
                                    assert(a0 + (seq![sv] + b) =~= a0.push(sv) + b);
                                },
                            }
                        }
                        need = false;
                    },
                    _ => {
                        return Err(AsmError::new(ErrorKind::Syntax, tok.pos));
                    },
                }
            } else {
                match tok.variant {
                    TokenVar::Dot => {
                        need = true;
                    },
                    TokenVar::Newline => {
                        proof {
                            assert(a0 + Seq::<Seq<u8>>::empty() =~= a0);
                        }
                        return Ok(acc);
                    },
                    _ => {
                        return Err(AsmError::new(ErrorKind::Syntax, tok.pos));
                    },
                }
            }
        }
    }

    /// The next directive of the source; `None` once only blank lines and
    /// comments are left.
    pub fn next_directive(&mut self) -> (r: Result<Option<Directive>, AsmError>)
        requires
            old(self).wf(),
        ensures
            final(self).wf(),
            final(self).source() == old(self).source(),
            parse_dir(old(self).source(), old(self).cursor()) matches Ok(None) ==> r matches Ok(None),
            parse_dir(old(self).source(), old(self).cursor()) matches Ok(Some((d, e))) ==> (r matches Ok(Some(dir))
                && dir@ == d && final(self).cursor() == e),
            parse_dir(old(self).source(), old(self).cursor()) matches Err(k) ==> (r matches Err(err) && err.kind
                == k),
        decreases old(self).source().len() - old(self).cursor(),
    {
        let ghost s = self.source();
        let ghost i = self.cursor();
        proof {
            self.lemma_cursor();
        }
        let tok = match self.next_token()? {
            None => {
                return Ok(None);
            },
            Some(t) => t,
        };
        proof {
            lemma_lex_progress(s, i);
        }
        let pos = tok.pos;
        let variant = match tok.variant {
            TokenVar::Newline => {
                return self.next_directive();
            },
            TokenVar::Label(n) => DirectiveVar::Label(n),
            TokenVar::Ident(op) => DirectiveVar::Op(op, self.list_exec(false)?),
            TokenVar::Data => DirectiveVar::Data(self.list_exec(true)?),
            TokenVar::Bytes => DirectiveVar::ByteData(self.list_exec(true)?),
            TokenVar::Equ => {
                let name = match self.next_token()? {
                    Some(Token { variant: TokenVar::Ident(n), .. }) => n,
                    _ => {
                        return Err(AsmError::new(ErrorKind::Syntax, pos));
                    },
                };
                let value = match self.next_token()? {
                    Some(t) => operand_exec(t)?,
                    None => {
                        return Err(AsmError::new(ErrorKind::Syntax, pos));
                    },
                };
                DirectiveVar::Const(name, value)
            },
            TokenVar::Import => {
                let path = self.path_exec(pos)?;
                DirectiveVar::Import(path)
            },
            TokenVar::Public => match self.next_token()? {
                Some(Token { variant: TokenVar::Ident(n), .. }) => DirectiveVar::Public(n),
                _ => {
                    return Err(AsmError::new(ErrorKind::Syntax, pos));
                },
            },
            TokenVar::Macro | TokenVar::EndMacro => {
                return Err(AsmError::new(ErrorKind::UnimplementedFeature, pos));
            },
            _ => {
                return Err(AsmError::new(ErrorKind::Syntax, pos));
            },
        };
        Ok(Some(Directive { variant, pos }))
    }
}


proof fn lemma_list_end(s: Seq<u8>, i: int, state: int, data: bool)
    requires
        list_from(s, i, state, data) is Ok,
    ensures
        i <= list_from(s, i, state, data)->Ok_0.1 <= s.len(),
    decreases s.len() - i,
{
    lemma_skip_trivia(s, i, false);
    if let Ok(Some((t, e))) = lex_token(s, i) {
        lemma_lex_progress(s, i);
        if state != 2 && t is Newline {
        } else if state == 1 {
            if t is Comma {
                lemma_list_end(s, e, 2, data);
            }
        } else if let Ok((xs, e2)) = item_from_tok(s, t, e, data) {
            lemma_item_end(s, t, e, data);
            lemma_list_end(s, e2, 1, data);
        }
    }
}

proof fn lemma_path_end(s: Seq<u8>, i: int, need: bool)
    requires
        path_from(s, i, need) is Ok,
    ensures
        i <= path_from(s, i, need)->Ok_0.1 <= s.len(),
    decreases s.len() - i,
{
    lemma_skip_trivia(s, i, false);
    if let Ok(Some((t, e))) = lex_token(s, i) {
        lemma_lex_progress(s, i);
        if need {
            if t is Ident {
                lemma_path_end(s, e, false);
            }
        } else if t is Dot {
            lemma_path_end(s, e, true);
        }
    }
}

/// A directive ends after it starts and within the input.
pub proof fn lemma_parse_progress(s: Seq<u8>, i: int)
    requires
        parse_dir(s, i) matches Ok(Some(_)),
    ensures
        i < parse_dir(s, i)->Ok_0->Some_0.1 <= s.len(),
    decreases s.len() - i,
{
    lemma_lex_progress(s, i);
    let (t, e) = lex_token(s, i)->Ok_0->Some_0;
    match t {
        Tok::Newline => {
            lemma_parse_progress(s, e);
        },
        Tok::Ident(_) => {
            lemma_list_end(s, e, 0, false);
        },
        Tok::Data => {
            lemma_list_end(s, e, 0, true);
        },
        Tok::Bytes => {
            lemma_list_end(s, e, 0, true);
        },
        Tok::Equ => {
            lemma_lex_progress(s, e);
            let e2 = lex_token(s, e)->Ok_0->Some_0.1;
            lemma_lex_progress(s, e2);
        },
        Tok::Import => {
            lemma_path_end(s, e, true);
        },
        Tok::Public => {
            lemma_lex_progress(s, e);
        },
        _ => {},
    }
}

/// All directives of `s` from `i`, or the first error.
pub open spec fn parse_all(s: Seq<u8>, i: int) -> Result<Seq<Dir>, ErrorKind>
    decreases s.len() - i,
{
    match parse_dir(s, i) {
        Err(k) => Err(k),
        Ok(None) => Ok(Seq::empty()),
        Ok(Some((d, e))) => {
            proof {
                lemma_parse_progress(s, i);
            }
            match parse_all(s, e) {
                Err(k) => Err(k),
                Ok(ds) => Ok(seq![d] + ds),
            }
        },
    }
}

/// Parses a whole source file, the file numbered `file`, into directives.
pub fn parse_source(input: Vec<u8>, file: usize) -> (r: Result<Vec<Directive>, AsmError>)
    ensures
        r matches Ok(v) ==> parse_all(input@, 0) == Ok::<Seq<Dir>, ErrorKind>(dirs(v@)),
        r matches Err(e) ==> parse_all(input@, 0) == Err::<Seq<Dir>, ErrorKind>(e.kind),
{
    let ghost s = input@;
    let mut lexer = Lexer::new(input, file);
    let mut out: Vec<Directive> = Vec::new();
    proof {
        assert(dirs(out@) =~= Seq::<Dir>::empty());
        if let Ok(ds) = parse_all(s, 0) {
            assert(Seq::<Dir>::empty() + ds =~= ds);
        }
    }
    loop
        invariant
            lexer.wf(),
            lexer.source() == s,
            s == input@,
            parse_all(s, 0) == (match parse_all(s, lexer.cursor()) {
                Err(k) => Err(k),
                Ok(ds) => Ok(dirs(out@) + ds),
            }),
        decreases s.len() - lexer.cursor(),
    {
        let ghost i = lexer.cursor();
        let ghost before = dirs(out@);
        match lexer.next_directive() {
            Err(e) => {
                return Err(e);
            },
            Ok(None) => {
                proof {
                    assert(before + Seq::<Dir>::empty() =~= before);
                }
                return Ok(out);
            },
            Ok(Some(d)) => {
                proof {
                    lemma_parse_progress(s, i);
                }
                let ghost dv = d@;
                out.push(d);
                proof {
                    assert(dirs(out@) =~= before.push(dv));
                    if let Ok(ds) = parse_all(s, lexer.cursor()) {
                        assert(before + (seq![dv] + ds) =~= dirs(out@) + ds);
                    }
                }
            },
        }
    }
}

} // verus!
