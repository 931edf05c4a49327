use vstd::prelude::*;

verus! {

/// Where in the source a token, directive or operand came from.
#[derive(Clone, Copy, Debug, PartialEq, Eq, Structural)]
pub struct Position {
    /// Index of the source file in the caller's list of files.
    pub file: usize,
    /// Line number, starting at 1.
    pub line: usize,
    /// Column, starting at 0 and reset at each newline.
    pub offset: usize,
}

impl Position {
    /// The position given to operands that the assembler itself builds.
    pub fn builtin() -> (r: Position)
        ensures
            r.file == 0 && r.line == 0 && r.offset == 0,
    {
        Position { file: 0, line: 0, offset: 0 }
    }
}

/// The kinds of fatal diagnostics.
#[derive(Clone, Copy, Debug, PartialEq, Eq, Structural)]
pub enum ErrorKind {
    /// Invalid character, unterminated literal, bad escape, bad digit, numeric overflow.
    Lexical,
    /// Unexpected token, wrong argument count to a directive or opcode, malformed `REP`.
    Syntax,
    /// An operand named a label absent from the symbol table.
    UndefinedLabel,
    /// A constant's value named a symbol that was not yet defined.
    UndefinedConstant,
    /// A label, constant or register name inserted twice.
    DuplicateDefinition,
    /// A mnemonic that is neither a primitive opcode nor a built-in macro.
    UnknownOpcode,
    /// A built-in macro invoked with the wrong number of arguments, or a
    /// reference to a macro argument that is not bound.
    MacroArityMismatch,
    /// A register operand at or above the code segment, or a byte datum above 255.
    OperandRange,
    /// An imported file could not be found or opened.
    ImportResolution,
    /// A user-defined `MACRO` was used.
    UnimplementedFeature,
    /// An operand divided by zero.
    DivisionByZero,
    /// The program does not fit in the 16-bit address space.
    ProgramTooLarge,
}

/// A fatal diagnostic: its kind and where it arose.
#[derive(Clone, Copy, Debug, PartialEq, Eq, Structural)]
pub struct AsmError {
    pub kind: ErrorKind,
    pub pos: Position,
}

impl AsmError {
    pub fn new(kind: ErrorKind, pos: Position) -> (r: AsmError)
        ensures
            r.kind == kind,
            r.pos == pos,
    {
        AsmError { kind, pos }
    }
}

} // verus!
