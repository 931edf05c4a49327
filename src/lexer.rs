use vstd::prelude::*;

use crate::error::{AsmError, ErrorKind, Position};
use crate::expr::bytes_eq;

verus! {

pub const NL: u8 = 0x0A;

pub const BACKSLASH: u8 = 0x5C;

pub const SQUOTE: u8 = 0x27;

pub const DQUOTE: u8 = 0x22;

pub const COLON: u8 = 0x3A;

pub open spec fn is_space(c: u8) -> bool {
    c == 0x20 || c == 0x09 || c == 0x0B || c == 0x0C || c == 0x0D
}

pub open spec fn is_alpha(c: u8) -> bool {
    (0x61 <= c <= 0x7A) || (0x41 <= c <= 0x5A)
}

pub open spec fn is_digit(c: u8) -> bool {
    0x30 <= c <= 0x39
}

pub open spec fn is_ident_start(c: u8) -> bool {
    is_alpha(c) || c == 0x5F
}

pub open spec fn is_ident_char(c: u8) -> bool {
    is_ident_start(c) || is_digit(c)
}

/// ASCII upper case.
pub open spec fn upper(c: u8) -> u8 {
    if 0x61 <= c <= 0x7A {
        (c - 32) as u8
    } else {
        c
    }
}

/// A token without its position.
pub enum Tok {
    Ident(Seq<u8>),
    Label(Seq<u8>),
    Str(Seq<u8>),
    Num(u16),
    MacroArg(u16),
    MacroLabel(Seq<u8>),
    Data,
    Bytes,
    Equ,
    Rep,
    Macro,
    EndMacro,
    Import,
    Public,
    Here,
    Comma,
    Dot,
    Newline,
}

/// The index where insignificant text starting at `i` ends: blanks, `#`
/// and `;` comments up to (not including) the newline, and a backslash
/// directly followed by a newline. `comment` says `i` is inside a comment.
pub open spec fn skip_trivia(s: Seq<u8>, i: int, comment: bool) -> int
    decreases s.len() - i, (if comment { 1int } else { 0int }),
{
    if i < 0 || i >= s.len() {
        i
    } else if comment {
        if s[i] == NL {
            skip_trivia(s, i, false)
        } else {
            skip_trivia(s, i + 1, true)
        }
    } else if is_space(s[i]) {
        skip_trivia(s, i + 1, false)
    } else if s[i] == 0x23 || s[i] == 0x3B {
        skip_trivia(s, i + 1, true)
    } else if s[i] == BACKSLASH && i + 1 < s.len() && s[i + 1] == NL {
        skip_trivia(s, i + 2, false)
    } else {
        i
    }
}

/// The end of the identifier characters starting at `i`.
pub open spec fn ident_end(s: Seq<u8>, i: int) -> int
    decreases s.len() - i,
{
    if 0 <= i < s.len() && is_ident_char(s[i]) {
        ident_end(s, i + 1)
    } else {
        i
    }
}

pub open spec fn upper_seq(s: Seq<u8>) -> Seq<u8> {
    s.map_values(|c: u8| upper(c))
}

/// The keyword an upper-case word names, or the word as an identifier.
pub open spec fn keyword_or_ident(w: Seq<u8>) -> Tok {
    if w == seq![0x44u8, 0x41u8, 0x54u8, 0x41u8] {
        Tok::Data
    } else if w == seq![0x42u8, 0x59u8, 0x54u8, 0x45u8, 0x53u8] {
        Tok::Bytes
    } else if w == seq![0x45u8, 0x51u8, 0x55u8] {
        Tok::Equ
    } else if w == seq![0x52u8, 0x45u8, 0x50u8] {
        Tok::Rep
    } else if w == seq![0x4Du8, 0x41u8, 0x43u8, 0x52u8, 0x4Fu8] {
        Tok::Macro
    } else if w == seq![0x45u8, 0x4Eu8, 0x44u8, 0x4Du8, 0x41u8, 0x43u8, 0x52u8, 0x4Fu8] {
        Tok::EndMacro
    } else if w == seq![0x49u8, 0x4Du8, 0x50u8, 0x4Fu8, 0x52u8, 0x54u8] {
        Tok::Import
    } else if w == seq![0x50u8, 0x55u8, 0x42u8, 0x4Cu8, 0x49u8, 0x43u8] {
        Tok::Public
    } else {
        Tok::Ident(w)
    }
}

/// Whether the upper-case character `c` is a digit of `base`.
pub open spec fn allowed(c: u8, base: u32) -> bool {
    if base == 2 {
        0x30 <= c < 0x32
    } else if base == 8 {
        0x30 <= c < 0x38
    } else if base == 10 {
        is_digit(c)
    } else {
        is_digit(c) || (0x41 <= c <= 0x46)
    }
}

/// The end of the digits of `base` starting at `i`.
pub open spec fn digits_end(s: Seq<u8>, i: int, base: u32) -> int
    decreases s.len() - i,
{
    if 0 <= i < s.len() && allowed(upper(s[i]), base) {
        digits_end(s, i + 1, base)
    } else {
        i
    }
}

pub open spec fn digit_val(c: u8) -> int {
    if is_alpha(c) {
        c - 0x41 + 10
    } else {
        c - 0x30
    }
}

/// The value of the digits `s[from..to]` in `base`.
pub open spec fn num_value(s: Seq<u8>, from: int, to: int, base: u32) -> int
    decreases to - from,
{
    if to <= from {
        0
    } else {
        num_value(s, from, to - 1, base) * base + digit_val(upper(s[to - 1]))
    }
}

/// The numeral whose digits in `base` start at `start`.
pub open spec fn numeral(s: Seq<u8>, start: int, base: u32) -> Result<Option<(Tok, int)>, ErrorKind> {
    let e = digits_end(s, start, base);
    if e < s.len() && is_alpha(upper(s[e])) {
        Err(ErrorKind::Lexical)
    } else if num_value(s, start, e, base) > 0xFFFF {
        Err(ErrorKind::Lexical)
    } else {
        Ok(Some((Tok::Num(num_value(s, start, e, base) as u16), e)))
    }
}

/// A numeric literal starting with the digit at `i`: `0b`, `0o`, `0d` and
/// `0x` select base 2, 8, 10 and 16, and base 10 is the default.
pub open spec fn num_token(s: Seq<u8>, i: int) -> Result<Option<(Tok, int)>, ErrorKind> {
    if s[i] == 0x30 && i + 1 < s.len() {
        let c = upper(s[i + 1]);
        if c == 0x42 {
            numeral(s, i + 2, 2)
        } else if c == 0x4F {
            numeral(s, i + 2, 8)
        } else if c == 0x44 {
            numeral(s, i + 2, 10)
        } else if c == 0x58 {
            numeral(s, i + 2, 16)
        } else if is_digit(c) {
            numeral(s, i + 1, 10)
        } else if is_alpha(c) {
            Err(ErrorKind::Lexical)
        } else {
            Ok(Some((Tok::Num(0), i + 1)))
        }
    } else {
        numeral(s, i, 10)
    }
}

/// The contents of a string literal from `i` up to the closing `q`, and
/// the index after it. Escapes: `\'`, `\"`, `\n`, and a backslash-newline
/// that also skips the blanks that open the next line. `gap` says the
/// scan is inside those blanks.
pub open spec fn str_scan(s: Seq<u8>, i: int, q: u8, gap: bool) -> Result<(Seq<u8>, int), ErrorKind>
    decreases s.len() - i, (if gap { 1int } else { 0int }),
{
    if i < 0 || i >= s.len() {
        Err(ErrorKind::Lexical)
    } else if gap {
        if is_space(s[i]) {
            str_scan(s, i + 1, q, true)
        } else {
            str_scan(s, i, q, false)
        }
    } else if s[i] == BACKSLASH {
        if i + 1 >= s.len() {
            Err(ErrorKind::Lexical)
        } else if s[i + 1] == SQUOTE || s[i + 1] == DQUOTE {
            prepend(s[i + 1], str_scan(s, i + 2, q, false))
        } else if s[i + 1] == 0x6E {
            prepend(NL, str_scan(s, i + 2, q, false))
        } else if s[i + 1] == NL {
            str_scan(s, i + 2, q, true)
        } else {
            Err(ErrorKind::Lexical)
        }
    } else if s[i] == q {
        Ok((Seq::empty(), i + 1))
    } else {
        prepend(s[i], str_scan(s, i + 1, q, false))
    }
}

pub open spec fn prepend(c: u8, r: Result<(Seq<u8>, int), ErrorKind>) -> Result<(Seq<u8>, int), ErrorKind> {
    match r {
        Err(k) => Err(k),
        Ok((b, e)) => Ok((seq![c] + b, e)),
    }
}

pub open spec fn prepend_all(p: Seq<u8>, r: Result<(Seq<u8>, int), ErrorKind>) -> Result<
    (Seq<u8>, int),
    ErrorKind,
> {
    match r {
        Err(k) => Err(k),
        Ok((b, e)) => Ok((p + b, e)),
    }
}

/// The next token of `s` from index `i` and the index after it; `None` at
/// the end of the input.
pub closed spec fn lex_token(s: Seq<u8>, i: int) -> Result<Option<(Tok, int)>, ErrorKind>
    decreases s.len() - i,
{
    let j = skip_trivia(s, i, false);
    if i < 0 || j < i {
        Ok(None)
    } else if j >= s.len() {
        Ok(None)
    } else {
        let c = s[j];
        if c == NL {
            Ok(Some((Tok::Newline, j + 1)))
        } else if c == 0x2C {
            Ok(Some((Tok::Comma, j + 1)))
        } else if c == 0x24 {
            Ok(Some((Tok::Here, j + 1)))
        } else if c == 0x2E {
            Ok(Some((Tok::Dot, j + 1)))
        } else if c == SQUOTE || c == DQUOTE {
            match str_scan(s, j + 1, c, false) {
                Err(k) => Err(k),
                Ok((b, e)) => Ok(Some((Tok::Str(b), e))),
            }
        } else if is_ident_start(c) {
            let e = ident_end(s, j);
            let w = upper_seq(s.subrange(j, e));
            if e < s.len() && s[e] == COLON {
                Ok(Some((Tok::Label(w), e + 1)))
            } else {
                Ok(Some((keyword_or_ident(w), e)))
            }
        } else if is_digit(c) {
            num_token(s, j)
        } else if c == 0x25 {
            match lex_token(s, j + 1) {
                Ok(Some((Tok::Num(n), e))) => Ok(Some((Tok::MacroArg(n), e))),
                Ok(Some((Tok::Label(l), e))) => Ok(Some((Tok::MacroLabel(l), e))),
                Err(k) => Err(k),
                _ => Err(ErrorKind::Lexical),
            }
        } else {
            Err(ErrorKind::Lexical)
        }
    }
}

/// The kinds of token, with their contents.
#[derive(Debug)]
pub enum TokenVar {
    Ident(Vec<u8>),
    Label(Vec<u8>),
    StrLit(Vec<u8>),
    NumLit(u16),
    MacroArg(u16),
    MacroLabel(Vec<u8>),
    Data,
    Bytes,
    Equ,
    Rep,
    Macro,
    EndMacro,
    Import,
    Public,
    /// `$`
    Here,
    Comma,
    Dot,
    Newline,
}

impl View for TokenVar {
    type V = Tok;

    open spec fn view(&self) -> Tok {
        match self {
            TokenVar::Ident(w) => Tok::Ident(w@),
            TokenVar::Label(w) => Tok::Label(w@),
            TokenVar::StrLit(w) => Tok::Str(w@),
            TokenVar::NumLit(n) => Tok::Num(*n),
            TokenVar::MacroArg(n) => Tok::MacroArg(*n),
            TokenVar::MacroLabel(w) => Tok::MacroLabel(w@),
            TokenVar::Data => Tok::Data,
            TokenVar::Bytes => Tok::Bytes,
            TokenVar::Equ => Tok::Equ,
            TokenVar::Rep => Tok::Rep,
            TokenVar::Macro => Tok::Macro,
            TokenVar::EndMacro => Tok::EndMacro,
            TokenVar::Import => Tok::Import,
            TokenVar::Public => Tok::Public,
            TokenVar::Here => Tok::Here,
            TokenVar::Comma => Tok::Comma,
            TokenVar::Dot => Tok::Dot,
            TokenVar::Newline => Tok::Newline,
        }
    }
}

/// A token and where it starts.
#[derive(Debug)]
pub struct Token {
    pub variant: TokenVar,
    pub pos: Position,
}

fn space(c: u8) -> (r: bool)
    ensures
        r == is_space(c),
{
    c == 0x20 || c == 0x09 || c == 0x0B || c == 0x0C || c == 0x0D
}

fn alpha(c: u8) -> (r: bool)
    ensures
        r == is_alpha(c),
{
    (0x61 <= c && c <= 0x7A) || (0x41 <= c && c <= 0x5A)
}

fn digit(c: u8) -> (r: bool)
    ensures
        r == is_digit(c),
{
    0x30 <= c && c <= 0x39
}

fn ident_char(c: u8) -> (r: bool)
    ensures
        r == is_ident_char(c),
{
    alpha(c) || c == 0x5F || digit(c)
}

fn to_upper(c: u8) -> (r: u8)
    ensures
        r == upper(c),
{
    if 0x61 <= c && c <= 0x7A {
        c - 32
    } else {
        c
    }
}

fn digit_allowed(c: u8, base: u32) -> (r: bool)
    requires
        base == 2 || base == 8 || base == 10 || base == 16,
    ensures
        r == allowed(c, base),
{
    if base == 2 {
        0x30 <= c && c < 0x32
    } else if base == 8 {
        0x30 <= c && c < 0x38
    } else if base == 10 {
        digit(c)
    } else {
        digit(c) || (0x41 <= c && c <= 0x46)
    }
}

proof fn lemma_num_value_grows(s: Seq<u8>, from: int, k: int, to: int, base: u32)
    requires
        from <= k <= to,
        base >= 2,
        forall|x: int| from <= x < to ==> allowed(upper(#[trigger] s[x]), base),
    ensures
        num_value(s, from, k, base) <= num_value(s, from, to, base),
        num_value(s, from, k, base) >= 0,
    decreases to - from,
{
    if to > from {
        if k < to {
            lemma_num_value_grows(s, from, k, to - 1, base);
        } else {
            lemma_num_value_grows(s, from, k - 1, k - 1, base);
        }
        let c = upper(s[to - 1]);
        assert(allowed(c, base));
        assert(digit_val(c) >= 0);
        lemma_num_value_grows(s, from, to - 1, to - 1, base);
        assert(num_value(s, from, to - 1, base) * base >= num_value(s, from, to - 1, base)) by (nonlinear_arith)
            requires
                num_value(s, from, to - 1, base) >= 0,
                base >= 2,
        ;
    }
}

proof fn lemma_digits_allowed(s: Seq<u8>, i: int, base: u32)
    requires
        0 <= i,
    ensures
        i <= digits_end(s, i, base),
        digits_end(s, i, base) <= s.len() || digits_end(s, i, base) == i,
        forall|x: int| i <= x < digits_end(s, i, base) ==> allowed(upper(#[trigger] s[x]), base),
    decreases s.len() - i,
{
    if 0 <= i < s.len() && allowed(upper(s[i]), base) {
        lemma_digits_allowed(s, i + 1, base);
    }
}

proof fn lemma_ident_end(s: Seq<u8>, i: int)
    requires
        0 <= i,
    ensures
        i <= ident_end(s, i),
        ident_end(s, i) <= s.len() || ident_end(s, i) == i,
    decreases s.len() - i,
{
    if 0 <= i < s.len() && is_ident_char(s[i]) {
        lemma_ident_end(s, i + 1);
    }
}

pub(crate) proof fn lemma_skip_trivia(s: Seq<u8>, i: int, comment: bool)
    requires
        0 <= i <= s.len(),
    ensures
        i <= skip_trivia(s, i, comment) <= s.len(),
    decreases s.len() - i, (if comment { 1int } else { 0int }),
{
    if i < s.len() {
        if comment {
            if s[i] == NL {
                lemma_skip_trivia(s, i, false);
            } else {
                lemma_skip_trivia(s, i + 1, true);
            }
        } else if is_space(s[i]) {
            lemma_skip_trivia(s, i + 1, false);
        } else if s[i] == 0x23 || s[i] == 0x3B {
            lemma_skip_trivia(s, i + 1, true);
        } else if s[i] == BACKSLASH && i + 1 < s.len() && s[i + 1] == NL {
            lemma_skip_trivia(s, i + 2, false);
        }
    }
}

/// A cursor over one source file's bytes.
pub struct Lexer {
    input: Vec<u8>,
    idx: usize,
    line: usize,
    offset: usize,
    file: usize,
}

impl Lexer {
    /// The source being read.
    pub closed spec fn source(&self) -> Seq<u8> {
        self.input@
    }

    /// How far the source has been read.
    pub closed spec fn cursor(&self) -> int {
        self.idx as int
    }

    pub closed spec fn wf(&self) -> bool {
        self.idx <= self.input.len()
    }

    /// The cursor never passes the end of the source.
    pub proof fn lemma_cursor(&self)
        requires
            self.wf(),
        ensures
            0 <= self.cursor() <= self.source().len(),
    {
    }

    /// The number of the file being read.
    pub closed spec fn file_index(&self) -> usize {
        self.file
    }

    /// A lexer at the start of `input`, the file numbered `file`.
    pub fn new(input: Vec<u8>, file: usize) -> (r: Lexer)
        ensures
            r.wf(),
            r.source() == input@,
            r.cursor() == 0,
    {
        Lexer { input, idx: 0, line: 1, offset: 0, file }
    }

    /// The position of the next character.
    pub fn position(&self) -> (r: Position)
        ensures
            r.file == self.file_index(),
    {
        Position { file: self.file, line: self.line, offset: self.offset }
    }

    fn peek_char(&self) -> (r: Option<u8>)
        requires
            self.wf(),
        ensures
            self.idx < self.input.len() ==> r == Some(self.input@[self.idx as int]),
            self.idx >= self.input.len() ==> r is None,
    {
        if self.idx < self.input.len() {
            Some(self.input[self.idx])
        } else {
            None
        }
    }

    /// Consumes one character, keeping the line and column up to date.
    fn get_char(&mut self)
        requires
            old(self).wf(),
            old(self).idx < old(self).input.len(),
        ensures
            final(self).wf(),
            final(self).input@ == old(self).input@,
            final(self).file == old(self).file,
            final(self).idx == old(self).idx + 1,
    {
        let c = self.input[self.idx];
        self.idx = self.idx + 1;
        if c == NL {
            self.offset = 0;
            self.line = self.line.saturating_add(1);
        } else {
            self.offset = self.offset.saturating_add(1);
        }
    }

    fn skip_trivia(&mut self)
        requires
            old(self).wf(),
        ensures
            final(self).wf(),
            final(self).input@ == old(self).input@,
            final(self).file == old(self).file,
            final(self).idx == skip_trivia(old(self).input@, old(self).idx as int, false),
    {
        let ghost s = self.input@;
        let ghost target = skip_trivia(s, self.idx as int, false);
        let ghost file = self.file;
        let mut comment = false;
        loop
            invariant
                self.wf(),
                self.input@ == s,
                self.file == file,
                s == old(self).input@,
                file == old(self).file,
                skip_trivia(s, self.idx as int, comment) == target,
                target == skip_trivia(s, old(self).idx as int, false),
            decreases s.len() - self.idx, (if comment { 1int } else { 0int }),
        {
            match self.peek_char() {
                None => {
                    return;
                },
                Some(c) => {
                    if comment {
                        if c == NL {
                            comment = false;
                        } else {
                            self.get_char();
                        }
                    } else if space(c) {
                        self.get_char();
                    } else if c == 0x23 || c == 0x3B {
                        self.get_char();
                        comment = true;
                    } else if c == BACKSLASH && self.idx + 1 < self.input.len() && self.input[self.idx
                        + 1] == NL {
                        self.get_char();
                        self.get_char();
                    } else {
                        return;
                    }
                },
            }
        }
    }

    /// Reads the digits of a numeral in `base` from the cursor.
    fn numeral(&mut self, base: u32) -> (r: Result<u16, AsmError>)
        requires
            old(self).wf(),
            base == 2 || base == 8 || base == 10 || base == 16,
        ensures
            final(self).wf(),
            final(self).input@ == old(self).input@,
            final(self).file == old(self).file,
            numeral(old(self).input@, old(self).idx as int, base) matches Ok(Some((t, e))) ==> (r matches Ok(
                n,
            ) && t == Tok::Num(n) && final(self).idx == e),
            numeral(old(self).input@, old(self).idx as int, base) is Err ==> r is Err
                && r->Err_0.kind == ErrorKind::Lexical,
    {
        let ghost s = self.input@;
        let ghost start = self.idx as int;
        let ghost file = self.file;
        proof {
            lemma_digits_allowed(s, start, base);
        }
        let ghost e = digits_end(s, start, base);
        let mut acc: u32 = 0;
        loop
            invariant
                self.wf(),
                self.input@ == s,
                self.file == file,
                s == old(self).input@,
                file == old(self).file,
                base == 2 || base == 8 || base == 10 || base == 16,
                start <= self.idx <= e,
                e == digits_end(s, start, base),
                e <= s.len(),
                forall|x: int| start <= x < e ==> allowed(upper(#[trigger] s[x]), base),
                digits_end(s, self.idx as int, base) == e,
                acc == num_value(s, start, self.idx as int, base),
                acc <= 0xFFFF,
                start == old(self).idx as int,
            ensures
                self.wf(),
                self.input@ == s,
                self.file == old(self).file,
                self.idx as int == e,
                !(e < s.len() && is_alpha(upper(s[e]))),
                acc == num_value(s, start, e, base),
                acc <= 0xFFFF,
            decreases s.len() - self.idx,
        {
            match self.peek_char() {
                None => {
                    break;
                },
                Some(ch) => {
                    let c = to_upper(ch);
                    if digit_allowed(c, base) {
                        proof {
                            lemma_digits_allowed(s, self.idx + 1, base);
                        }
                        let d: u32 = if alpha(c) {
                            (c - 0x41 + 10) as u32
                        } else {
                            (c - 0x30) as u32
                        };
                        let next = acc * base + d;
                        let ghost i = self.idx as int;
                        self.get_char();
                        if next > 0xFFFF {
                            proof {
                                lemma_num_value_grows(s, start, i + 1, e, base);
                            }
                            return Err(AsmError::new(ErrorKind::Lexical, self.position()));
                        }
                        acc = next;
                    } else if alpha(c) {
                        return Err(AsmError::new(ErrorKind::Lexical, self.position()));
                    } else {
                        break;
                    }
                },
            }
        }
        Ok(acc as u16)
    }

    /// Reads a numeric literal whose first digit is at the cursor.
    fn number(&mut self) -> (r: Result<u16, AsmError>)
        requires
            old(self).wf(),
            old(self).idx < old(self).input.len(),
            is_digit(old(self).input@[old(self).idx as int]),
        ensures
            final(self).wf(),
            final(self).input@ == old(self).input@,
            final(self).file == old(self).file,
            num_token(old(self).input@, old(self).idx as int) matches Ok(Some((t, e))) ==> (r matches Ok(n)
                && t == Tok::Num(n) && final(self).idx == e),
            num_token(old(self).input@, old(self).idx as int) is Err ==> r is Err
                && r->Err_0.kind == ErrorKind::Lexical,
    {
        let first = self.input[self.idx];
        if first == 0x30 && self.idx + 1 < self.input.len() {
            let c = to_upper(self.input[self.idx + 1]);
            let base: u32 = if c == 0x42 {
                2
            } else if c == 0x4F {
                8
            } else if c == 0x44 {
                10
            } else if c == 0x58 {
                16
            } else if digit(c) {
                self.get_char();
                return self.numeral(10);
            } else if alpha(c) {
                return Err(AsmError::new(ErrorKind::Lexical, self.position()));
            } else {
                self.get_char();
                return Ok(0);
            };
            self.get_char();
            self.get_char();
            self.numeral(base)
        } else {
            self.numeral(10)
        }
    }

    /// Reads a string literal whose opening quote `q` was just consumed.
    fn string(&mut self, q: u8) -> (r: Result<Vec<u8>, AsmError>)
        requires
            old(self).wf(),
        ensures
            final(self).wf(),
            final(self).input@ == old(self).input@,
            final(self).file == old(self).file,
            str_scan(old(self).input@, old(self).idx as int, q, false) matches Ok((b, e)) ==> (r matches Ok(
                v,
            ) && v@ == b && final(self).idx == e),
            str_scan(old(self).input@, old(self).idx as int, q, false) matches Err(k) ==> (r is Err
                && r->Err_0.kind == k),
    {
        let ghost s = self.input@;
        let ghost target = str_scan(s, self.idx as int, q, false);
        let ghost file = self.file;
        let mut buf: Vec<u8> = Vec::new();
        let mut gap = false;
        proof {
            assert(buf@ =~= Seq::<u8>::empty());
            if let Ok((b, e)) = target {
                assert(Seq::<u8>::empty() + b =~= b);
            }
        }
        loop
            invariant
                self.wf(),
                self.input@ == s,
                self.file == file,
                s == old(self).input@,
                file == old(self).file,
                target == prepend_all(buf@, str_scan(s, self.idx as int, q, gap)),
                target == str_scan(s, old(self).idx as int, q, false),
            decreases s.len() - self.idx, (if gap { 1int } else { 0int }),
        {
            let ghost i = self.idx as int;
            let ghost b0 = buf@;
            match self.peek_char() {
                None => {
                    return Err(AsmError::new(ErrorKind::Lexical, self.position()));
                },
                Some(c) => {
                    if gap {
                        if space(c) {
                            self.get_char();
                        } else {
                            gap = false;
                        }
                    } else if c == BACKSLASH {
                        self.get_char();
                        match self.peek_char() {
                            None => {
                                return Err(AsmError::new(ErrorKind::Lexical, self.position()));
                            },
                            Some(e) => {
                                if e == SQUOTE || e == DQUOTE {
                                    buf.push(e);
                                    self.get_char();
                                } else if e == 0x6E {
                                    buf.push(NL);
                                    self.get_char();
                                } else if e == NL {
                                    self.get_char();
                                    gap = true;
                                } else {
                                    return Err(AsmError::new(ErrorKind::Lexical, self.position()));
                                }
                                proof {
                                    if e != NL {
                                        match str_scan(s, i + 2, q, false) {
                                            Err(k) => {},
                                            Ok((b, en)) => {
                                                assert(b0 + (seq![buf@.last()] + b) =~= buf@ + b);
                                            },
                                        }
                                    }
                                }
                            },
                        }
                    } else if c == q {
                        self.get_char();
                        proof {
                            assert(buf@ + Seq::<u8>::empty() =~= buf@);
                        }
                        return Ok(buf);
                    } else {
                        buf.push(c);
                        self.get_char();
                        proof {
                            match str_scan(s, i + 1, q, false) {
                                Err(k) => {},
                                Ok((b, en)) => {
                                    assert(b0 + (seq![c] + b) =~= buf@ + b);
                                },
                            }
                        }
                    }
                },
            }
        }
    }

    /// Reads an identifier, label definition or keyword starting at the cursor.
    fn word(&mut self) -> (r: TokenVar)
        requires
            old(self).wf(),
            old(self).idx < old(self).input.len(),
            is_ident_start(old(self).input@[old(self).idx as int]),
        ensures
            final(self).wf(),
            final(self).input@ == old(self).input@,
            final(self).file == old(self).file,
            ({
                let s = old(self).input@;
                let j = old(self).idx as int;
                let e = ident_end(s, j);
                let w = upper_seq(s.subrange(j, e));
                if e < s.len() && s[e] == COLON {
                    r@ == Tok::Label(w) && final(self).idx == e + 1
                } else {
                    r@ == keyword_or_ident(w) && final(self).idx == e
                }
            }),
    {
        let ghost s = self.input@;
        let ghost j = self.idx as int;
        let ghost file = self.file;
        proof {
            lemma_ident_end(s, j);
        }
        let mut w: Vec<u8> = Vec::new();
        while self.idx < self.input.len() && ident_char(self.input[self.idx])
            invariant
                self.wf(),
                self.input@ == s,
                self.file == file,
                s == old(self).input@,
                file == old(self).file,
                j <= self.idx <= ident_end(s, j),
                ident_end(s, self.idx as int) == ident_end(s, j),
                w@ == upper_seq(s.subrange(j, self.idx as int)),
            decreases s.len() - self.idx,
        {
            let c = self.input[self.idx];
            proof {
                lemma_ident_end(s, self.idx + 1);
            }
            w.push(to_upper(c));
            self.get_char();
            proof {
                assert(upper_seq(s.subrange(j, self.idx as int)) =~= upper_seq(s.subrange(j, self.idx - 1))
                    + seq![upper(c)]);
            }
        }
        if self.idx < self.input.len() && self.input[self.idx] == COLON {
            self.get_char();
            return TokenVar::Label(w);
        }
        keyword(w)
    }

    /// The next token, `None` at the end of the input.
    pub fn next_token(&mut self) -> (r: Result<Option<Token>, AsmError>)
        requires
            old(self).wf(),
        ensures
            final(self).wf(),
            final(self).source() == old(self).source(),
            lex_token(old(self).source(), old(self).cursor()) matches Ok(None) ==> (r matches Ok(None)
                && final(self).cursor() == skip_trivia(old(self).source(), old(self).cursor(), false)),
            lex_token(old(self).source(), old(self).cursor()) matches Ok(Some((t, e))) ==> (r matches Ok(Some(tok))
                && tok.variant@ == t && final(self).cursor() == e),
            lex_token(old(self).source(), old(self).cursor()) matches Err(k) ==> (r matches Err(err)
                && err.kind == k),
        decreases old(self).source().len() - old(self).cursor(),
    {
        let ghost s = self.input@;
        let ghost i = self.idx as int;
        proof {
            lemma_skip_trivia(s, i, false);
        }
        self.skip_trivia();
        let pos = self.position();
        let c = match self.peek_char() {
            None => {
                return Ok(None);
            },
            Some(c) => c,
        };
        let variant = if c == NL {
            self.get_char();
            TokenVar::Newline
        } else if c == 0x2C {
            self.get_char();
            TokenVar::Comma
        } else if c == 0x24 {
            self.get_char();
            TokenVar::Here
        } else if c == 0x2E {
            self.get_char();
            TokenVar::Dot
        } else if c == SQUOTE || c == DQUOTE {
            self.get_char();
            TokenVar::StrLit(self.string(c)?)
        } else if ident_char(c) && !digit(c) {
            self.word()
        } else if digit(c) {
            TokenVar::NumLit(self.number()?)
        } else if c == 0x25 {
            self.get_char();
            match self.next_token()? {
                Some(Token { variant: TokenVar::NumLit(n), .. }) => TokenVar::MacroArg(n),
                Some(Token { variant: TokenVar::Label(l), .. }) => TokenVar::MacroLabel(l),
                _ => {
                    return Err(AsmError::new(ErrorKind::Lexical, pos));
                },
            }
        } else {
            return Err(AsmError::new(ErrorKind::Lexical, pos));
        };
        Ok(Some(Token { variant, pos }))
    }
}

/// The keyword token an upper-case word names, or an identifier.
fn keyword(w: Vec<u8>) -> (r: TokenVar)
    ensures
        r@ == keyword_or_ident(w@),
{
    let data: Vec<u8> = vec![0x44, 0x41, 0x54, 0x41];
    let bytes: Vec<u8> = vec![0x42, 0x59, 0x54, 0x45, 0x53];
    let equ: Vec<u8> = vec![0x45, 0x51, 0x55];
    let rep: Vec<u8> = vec![0x52, 0x45, 0x50];
    let mac: Vec<u8> = vec![0x4D, 0x41, 0x43, 0x52, 0x4F];
    let endmac: Vec<u8> = vec![0x45, 0x4E, 0x44, 0x4D, 0x41, 0x43, 0x52, 0x4F];
    let import: Vec<u8> = vec![0x49, 0x4D, 0x50, 0x4F, 0x52, 0x54];
    let public: Vec<u8> = vec![0x50, 0x55, 0x42, 0x4C, 0x49, 0x43];
    proof {
        assert(data@ =~= seq![0x44u8, 0x41u8, 0x54u8, 0x41u8]);
        assert(bytes@ =~= seq![0x42u8, 0x59u8, 0x54u8, 0x45u8, 0x53u8]);
        assert(equ@ =~= seq![0x45u8, 0x51u8, 0x55u8]);
        assert(rep@ =~= seq![0x52u8, 0x45u8, 0x50u8]);
        assert(mac@ =~= seq![0x4Du8, 0x41u8, 0x43u8, 0x52u8, 0x4Fu8]);
        assert(endmac@ =~= seq![0x45u8, 0x4Eu8, 0x44u8, 0x4Du8, 0x41u8, 0x43u8, 0x52u8, 0x4Fu8]);
        assert(import@ =~= seq![0x49u8, 0x4Du8, 0x50u8, 0x4Fu8, 0x52u8, 0x54u8]);
        assert(public@ =~= seq![0x50u8, 0x55u8, 0x42u8, 0x4Cu8, 0x49u8, 0x43u8]);
    }
    if bytes_eq(w.as_slice(), data.as_slice()) {
        TokenVar::Data
    } else if bytes_eq(w.as_slice(), bytes.as_slice()) {
        TokenVar::Bytes
    } else if bytes_eq(w.as_slice(), equ.as_slice()) {
        TokenVar::Equ
    } else if bytes_eq(w.as_slice(), rep.as_slice()) {
        TokenVar::Rep
    } else if bytes_eq(w.as_slice(), mac.as_slice()) {
        TokenVar::Macro
    } else if bytes_eq(w.as_slice(), endmac.as_slice()) {
        TokenVar::EndMacro
    } else if bytes_eq(w.as_slice(), import.as_slice()) {
        TokenVar::Import
    } else if bytes_eq(w.as_slice(), public.as_slice()) {
        TokenVar::Public
    } else {
        TokenVar::Ident(w)
    }
}


proof fn lemma_str_scan_end(s: Seq<u8>, i: int, q: u8, gap: bool)
    requires
        0 <= i,
        str_scan(s, i, q, gap) is Ok,
    ensures
        i < str_scan(s, i, q, gap)->Ok_0.1 <= s.len(),
    decreases s.len() - i, (if gap { 1int } else { 0int }),
{
    if i < s.len() {
        if gap {
            if is_space(s[i]) {
                lemma_str_scan_end(s, i + 1, q, true);
            } else {
                lemma_str_scan_end(s, i, q, false);
            }
        } else if s[i] == BACKSLASH {
            if i + 1 < s.len() {
                if s[i + 1] == SQUOTE || s[i + 1] == DQUOTE || s[i + 1] == 0x6E {
                    lemma_str_scan_end(s, i + 2, q, false);
                } else if s[i + 1] == NL {
                    lemma_str_scan_end(s, i + 2, q, true);
                }
            }
        } else if s[i] != q {
            lemma_str_scan_end(s, i + 1, q, false);
        }
    }
}

/// Every token moves the cursor forward and stays within the input.
pub proof fn lemma_lex_progress(s: Seq<u8>, i: int)
    requires
        0 <= i <= s.len(),
        lex_token(s, i) matches Ok(Some(_)),
    ensures
        i < lex_token(s, i)->Ok_0->Some_0.1 <= s.len(),
    decreases s.len() - i,
{
    lemma_skip_trivia(s, i, false);
    let j = skip_trivia(s, i, false);
    let c = s[j];
    if c == SQUOTE || c == DQUOTE {
        lemma_str_scan_end(s, j + 1, c, false);
    } else if is_ident_start(c) {
        lemma_ident_end(s, j + 1);
    } else if is_digit(c) {
        if s[j] == 0x30 && j + 1 < s.len() {
            lemma_digits_allowed(s, j + 2, 2);
            lemma_digits_allowed(s, j + 2, 8);
            lemma_digits_allowed(s, j + 2, 10);
            lemma_digits_allowed(s, j + 2, 16);
            lemma_digits_allowed(s, j + 1, 10);
        } else {
            lemma_digits_allowed(s, j, 10);
            lemma_digits_allowed(s, j + 1, 10);
        }
    } else if c == 0x25 {
        lemma_lex_progress(s, j + 1);
    }
}

} // verus!
