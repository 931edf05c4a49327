use ct64k_asm::directive::{Directive, DirectiveVar};
use ct64k_asm::error::{AsmError, ErrorKind, Position};
use ct64k_asm::expr::{ArithOp, OpArg, OpArgVar, SymbolTable, CODE_START};
use ct64k_asm::imports::{merge_imports, Entry};
use ct64k_asm::instruction::{encode_program, Instruction};
use ct64k_asm::opcode::{lookup_mnemonic, BaseOp, Opcode};
use ct64k_asm::parser::{Parser, Program};
use ct64k_asm::syntax::parse_source;

fn parse(src: &str) -> Result<Vec<Directive>, AsmError> {
    parse_source(src.as_bytes().to_vec(), 0)
}

fn assemble(src: &str) -> Result<Vec<Instruction>, AsmError> {
    let dirs = parse(src)?;
    Program::new(dirs).map(|p| p.0)
}

fn error_kind(src: &str) -> ErrorKind {
    match assemble(src) {
        Ok(_) => panic!("expected an error"),
        Err(e) => e.kind,
    }
}

fn op(name: &str) -> Opcode {
    Opcode::from_str(name.as_bytes()).unwrap()
}

fn symbol(src: &str, name: &str) -> Option<u16> {
    let parser = Parser::new(parse(src).unwrap()).unwrap();
    parser.labels().get(name.as_bytes())
}

const SC: u16 = 6;
const SP: u16 = 2;

#[test]
fn end_to_end_label_and_two_ops() {
    let src = "FOO: MI SC, 5\nAD SC, FOO\n";
    assert_eq!(symbol(src, "FOO"), Some(CODE_START));
    let prog = assemble(src).unwrap();
    assert_eq!(
        prog,
        vec![
            Instruction::Arith { op: op("MI"), reg: SC, imm: 5 },
            Instruction::Arith { op: op("AD"), reg: SC, imm: CODE_START },
        ]
    );
    let bytes = encode_program(&prog).unwrap();
    assert_eq!(bytes.len(), 8);
    // AD: base 8, 16-bit flag 16 -> code 24; 24 << 10 | 6 = 0x6006.
    assert_eq!(&bytes[4..8], &[0x06, 0x60, 0x00, 0x04]);
}

#[test]
fn constants_resolve_in_source_order() {
    let src = "EQU X 5\nEQU Y X\n";
    assert_eq!(symbol(src, "Y"), Some(5));
    assert_eq!(symbol(src, "X"), Some(5));
}

#[test]
fn constant_before_its_dependency_fails() {
    assert_eq!(error_kind("EQU Y X\nEQU X 5\n"), ErrorKind::UndefinedConstant);
}

#[test]
fn macro_with_wrong_argument_count_fails() {
    assert_eq!(error_kind("INC SC, 1\n"), ErrorKind::MacroArityMismatch);
    assert_eq!(error_kind("RET SC\n"), ErrorKind::MacroArityMismatch);
    assert_eq!(error_kind("AD SC\n"), ErrorKind::MacroArityMismatch);
}

#[test]
fn register_operand_range() {
    assert_eq!(error_kind("MI 0x400, 1\n"), ErrorKind::OperandRange);
    assert_eq!(
        assemble("MI 0x3FF, 1\n").unwrap(),
        vec![Instruction::Arith { op: op("MI"), reg: 0x3FF, imm: 1 }]
    );
}

#[test]
fn rep_is_repeated_items() {
    let a = assemble("DATA REP 4, 7\n").unwrap();
    let b = assemble("DATA 7, 7, 7, 7\n").unwrap();
    assert_eq!(a, vec![Instruction::Data(vec![7, 7, 7, 7])]);
    assert_eq!(a, b);
}

#[test]
fn rep_among_other_items() {
    assert_eq!(
        assemble("DATA 1, REP 2, 3, 4\n").unwrap(),
        vec![Instruction::Data(vec![1, 3, 3, 4])]
    );
    assert_eq!(assemble("DATA REP 0, 9\n").unwrap(), vec![Instruction::Data(vec![])]);
}

#[test]
fn forward_reference_uses_cumulative_sizes() {
    // JMP is one jump (3 words), MI one arithmetic op (2 words).
    let src = "JMP END\nMI SC, 1\nEND: DATA $\n";
    assert_eq!(symbol(src, "END"), Some(CODE_START + 5));
    let prog = assemble(src).unwrap();
    assert_eq!(
        prog[0],
        Instruction::Jump { op: op("JQ"), reg: SC, imm: SC, label: CODE_START + 5 }
    );
    assert_eq!(prog[2], Instruction::Data(vec![CODE_START + 5]));
}

#[test]
fn duplicate_label_fails() {
    assert_eq!(error_kind("A: MI SC, 1\nA: MI SC, 2\n"), ErrorKind::DuplicateDefinition);
}

#[test]
fn duplicate_constant_fails() {
    assert_eq!(error_kind("EQU A 1\nEQU A 2\n"), ErrorKind::DuplicateDefinition);
}

#[test]
fn label_and_constant_share_a_name() {
    assert_eq!(error_kind("A: DATA 1\nEQU A 2\n"), ErrorKind::DuplicateDefinition);
}

#[test]
fn register_name_cannot_be_redefined() {
    assert_eq!(error_kind("SP: DATA 1\n"), ErrorKind::DuplicateDefinition);
    assert_eq!(error_kind("EQU SC 3\n"), ErrorKind::DuplicateDefinition);
}

#[test]
fn opcode_sizes() {
    assert_eq!(op("AD").size(), 2);
    assert!(op("AD").is_arith());
    assert_eq!(op("JQ").size(), 3);
    assert!(!op("JQ").is_arith());
    assert_eq!(op("SA").size(), 2);
    assert_eq!(op("JL").size(), 3);
}

#[test]
fn encoded_sizes_match_opcode_sizes() {
    let arith = vec![Instruction::Arith { op: op("SB"), reg: 2, imm: 9 }];
    let jump = vec![Instruction::Jump { op: op("JG"), reg: 2, imm: 9, label: 0x400 }];
    assert_eq!(encode_program(&arith).unwrap().len(), 2 * 2);
    assert_eq!(encode_program(&jump).unwrap().len(), 2 * 3);
}

#[test]
fn encoding_refuses_out_of_range_register() {
    let bad = vec![Instruction::Arith { op: op("SB"), reg: 0x400, imm: 9 }];
    assert_eq!(encode_program(&bad), None);
}

#[test]
fn opcode_codes_and_suffixes() {
    assert_eq!(op("AD").to_u16(), 8 + 16);
    assert_eq!(op("ADB").to_u16(), 8);
    assert_eq!(op("ADI").to_u16(), 8 + 16 + 32);
    assert_eq!(op("ADBI").to_u16(), 8 + 32);
    assert_eq!(op("MI").to_u16(), 16);
    assert_eq!(op("JQ").to_u16(), 15 + 16);
    assert_eq!(op("ST").base, BaseOp::St);
    assert_eq!(Opcode::from_str(b"ADX"), None);
    assert_eq!(Opcode::from_str(b"ADIB"), None);
    assert_eq!(Opcode::from_str(b"A"), None);
    assert_eq!(Opcode::from_str(b"INC"), None);
}

#[test]
fn builtin_macro_sizes() {
    let size = |n: &str| {
        let e = lookup_mnemonic(n.as_bytes()).unwrap();
        (e.arity, e.ops.iter().map(|o| o.op.size()).sum::<u16>())
    };
    assert_eq!(size("JMP"), (1, 3));
    assert_eq!(size("INC"), (1, 2));
    assert_eq!(size("NEG"), (1, 4));
    assert_eq!(size("PUSH"), (1, 4));
    assert_eq!(size("POP"), (1, 4));
    assert_eq!(size("CALL"), (1, 7));
    assert_eq!(size("RET"), (0, 6));
    assert!(lookup_mnemonic(b"NOPE").is_none());
}

#[test]
fn call_pushes_return_address() {
    let src = "CALL F\nF: RET\n";
    assert_eq!(symbol(src, "F"), Some(CODE_START + 7));
    let prog = assemble(src).unwrap();
    assert_eq!(
        prog,
        vec![
            Instruction::Arith { op: op("SBI"), reg: SP, imm: 2 },
            Instruction::Arith { op: op("STI"), reg: SP, imm: CODE_START + 2 + 5 },
            Instruction::Jump { op: op("JQ"), reg: SC, imm: SC, label: CODE_START + 7 },
            Instruction::Arith { op: op("LD"), reg: SC, imm: SP },
            Instruction::Arith { op: op("ADI"), reg: SP, imm: 2 },
            Instruction::Arith { op: op("MV"), reg: 0, imm: SC },
        ]
    );
}

#[test]
fn neg_expands_to_two_operations() {
    assert_eq!(
        assemble("NEG SC\n").unwrap(),
        vec![
            Instruction::Arith { op: op("XRI"), reg: SC, imm: 0xFFFF },
            Instruction::Arith { op: op("ADI"), reg: SC, imm: 1 },
        ]
    );
}

fn unit(src: &str, imports: &[usize]) -> Vec<Entry> {
    let mut v: Vec<Entry> = parse(src).unwrap().into_iter().map(Entry::Plain).collect();
    for &i in imports {
        v.push(Entry::Include(i));
    }
    v
}

fn label_names(ds: &[Directive]) -> Vec<String> {
    ds.iter()
        .map(|d| match &d.variant {
            DirectiveVar::Label(n) => String::from_utf8(n.clone()).unwrap(),
            _ => String::new(),
        })
        .collect()
}

#[test]
fn diamond_import_merges_shared_file_once() {
    // A imports B and C; B and C both import D.
    let units = vec![
        unit("A:\n", &[1, 2]),
        unit("B:\n", &[3]),
        unit("C:\n", &[3]),
        unit("D:\n", &[]),
    ];
    let merged = merge_imports(&units, 0);
    assert_eq!(label_names(&merged.directives), vec!["A", "B", "D", "C"]);
    assert_eq!(merged.order, vec![0, 1, 3, 2]);
    let prog = Program::new(merged.directives);
    assert!(prog.is_ok());
}

#[test]
fn import_cycle_ends() {
    let units = vec![unit("A:\n", &[1]), unit("B:\n", &[0])];
    let merged = merge_imports(&units, 0);
    assert_eq!(label_names(&merged.directives), vec!["A", "B"]);
    assert_eq!(merged.origins, vec![(0, 0), (1, 0)]);
}

#[test]
fn import_in_the_middle_is_inlined() {
    let mut a = unit("X:\n", &[1]);
    a.extend(unit("Y:\n", &[]));
    let units = vec![a, unit("Z:\n", &[])];
    let merged = merge_imports(&units, 0);
    assert_eq!(label_names(&merged.directives), vec!["X", "Z", "Y"]);
}

#[test]
fn same_file_in_two_paths_defines_labels_once_only() {
    let units = vec![unit("A:\n", &[1, 1]), unit("B:\n", &[])];
    let merged = merge_imports(&units, 0);
    assert_eq!(label_names(&merged.directives), vec!["A", "B"]);
    assert!(Program::new(merged.directives).is_ok());
}

#[test]
fn duplicate_across_files_fails() {
    let units = vec![unit("A:\n", &[1]), unit("A:\n", &[])];
    let merged = merge_imports(&units, 0);
    match Program::new(merged.directives) {
        Err(e) => assert_eq!(e.kind, ErrorKind::DuplicateDefinition),
        Ok(_) => panic!("expected a duplicate definition"),
    }
}

#[test]
fn numeric_bases() {
    assert_eq!(
        assemble("DATA 0x1F, 0b101, 0o17, 0d9, 0, 42, 0XfF\n").unwrap(),
        vec![Instruction::Data(vec![31, 5, 15, 9, 0, 42, 255])]
    );
}

#[test]
fn numeric_overflow_is_lexical() {
    assert_eq!(error_kind("DATA 65536\n"), ErrorKind::Lexical);
    assert_eq!(assemble("DATA 65535\n").unwrap(), vec![Instruction::Data(vec![65535])]);
}

#[test]
fn bad_digit_is_lexical() {
    assert_eq!(error_kind("DATA 12A\n"), ErrorKind::Lexical);
    assert_eq!(error_kind("DATA 0xG\n"), ErrorKind::Lexical);
    assert_eq!(error_kind("DATA 0q1\n"), ErrorKind::Lexical);
}

#[test]
fn strings_and_escapes() {
    assert_eq!(
        assemble("DATA \"a\\\"b\\n\", 'c'\n").unwrap(),
        vec![Instruction::Data(vec![97, 34, 98, 10, 99])]
    );
    assert_eq!(
        assemble("DATA \"x\\\n    y\"\n").unwrap(),
        vec![Instruction::Data(vec![120, 121])]
    );
}

#[test]
fn single_character_literal_as_operand() {
    assert_eq!(
        assemble("MI SC, 'A'\n").unwrap(),
        vec![Instruction::Arith { op: op("MI"), reg: SC, imm: 65 }]
    );
    assert_eq!(error_kind("MI SC, 'AB'\n"), ErrorKind::Syntax);
    assert_eq!(error_kind("MI SC, ''\n"), ErrorKind::Syntax);
}

#[test]
fn unterminated_string_is_lexical() {
    assert_eq!(error_kind("DATA \"abc\n"), ErrorKind::Lexical);
    assert_eq!(error_kind("DATA \"a\\q\"\n"), ErrorKind::Lexical);
}

#[test]
fn comments_blank_lines_and_continuations() {
    let src = "; header\n\n# more\nMI SC, \\\n 3 ; trailing\n\n";
    assert_eq!(
        assemble(src).unwrap(),
        vec![Instruction::Arith { op: op("MI"), reg: SC, imm: 3 }]
    );
}

#[test]
fn identifiers_are_case_folded() {
    let src = "loop: mi sc, loop\n";
    assert_eq!(symbol(src, "LOOP"), Some(CODE_START));
    assert_eq!(
        assemble(src).unwrap(),
        vec![Instruction::Arith { op: op("MI"), reg: SC, imm: CODE_START }]
    );
}

#[test]
fn unexpected_character_is_lexical() {
    assert_eq!(error_kind("MI SC, @\n"), ErrorKind::Lexical);
    assert_eq!(error_kind("\\x\n"), ErrorKind::Lexical);
}

#[test]
fn syntax_errors() {
    assert_eq!(error_kind("5\n"), ErrorKind::Syntax);
    assert_eq!(error_kind(", MI\n"), ErrorKind::Syntax);
    assert_eq!(error_kind("MI SC 5\n"), ErrorKind::Syntax);
    assert_eq!(error_kind("MI SC,\n"), ErrorKind::Syntax);
    assert_eq!(error_kind("DATA REP X, 1\n"), ErrorKind::Syntax);
    assert_eq!(error_kind("EQU 5 5\n"), ErrorKind::Syntax);
    assert_eq!(error_kind("MI %1, 2\n"), ErrorKind::Syntax);
}

#[test]
fn unknown_opcode() {
    assert_eq!(error_kind("FROB SC, 1\n"), ErrorKind::UnknownOpcode);
}

#[test]
fn undefined_label() {
    assert_eq!(error_kind("MI SC, NOWHERE\n"), ErrorKind::UndefinedLabel);
}

#[test]
fn user_macros_are_unimplemented() {
    assert_eq!(error_kind("MACRO FOO 1\n"), ErrorKind::UnimplementedFeature);
    assert_eq!(error_kind("ENDMACRO\n"), ErrorKind::UnimplementedFeature);
}

#[test]
fn program_too_large() {
    let src = "DATA REP 65535, 0\n";
    assert_eq!(error_kind(src), ErrorKind::ProgramTooLarge);
}

#[test]
fn byte_data_is_padded() {
    assert_eq!(
        assemble("BYTES 1, 2, 3\nL: DATA L\n").unwrap(),
        vec![Instruction::ByteData(vec![1, 2, 3, 0]), Instruction::Data(vec![CODE_START + 2])]
    );
    assert_eq!(error_kind("BYTES 256\n"), ErrorKind::OperandRange);
}

#[test]
fn public_and_import_directives_parse() {
    let dirs = parse("PUBLIC MAIN\nIMPORT lib.io.print\n").unwrap();
    assert_eq!(dirs.len(), 2);
    match &dirs[0].variant {
        DirectiveVar::Public(n) => assert_eq!(n, b"MAIN"),
        _ => panic!("expected PUBLIC"),
    }
    match &dirs[1].variant {
        DirectiveVar::Import(p) => {
            assert_eq!(p, &vec![b"LIB".to_vec(), b"IO".to_vec(), b"PRINT".to_vec()])
        }
        _ => panic!("expected IMPORT"),
    }
    assert_eq!(parse("IMPORT a.\n").unwrap_err().kind, ErrorKind::Syntax);
}

#[test]
fn directive_positions() {
    let dirs = parse("\n  MI SC, 1\n").unwrap();
    assert_eq!(dirs[0].pos, Position { file: 0, line: 2, offset: 2 });
}

#[test]
fn evaluate_operands() {
    let table = SymbolTable::with_registers();
    let pos = Position::builtin();
    let num = |n| OpArg::number(n, pos);
    let sum = OpArg {
        variant: OpArgVar::ArithOp(ArithOp::Add, Box::new(OpArg { variant: OpArgVar::Here, pos }), Box::new(num(3))),
        pos,
    };
    assert_eq!(sum.evaluate(&table, &[], 0x500).unwrap(), 0x503);
    let reg = OpArg { variant: OpArgVar::Label(b"SP".to_vec()), pos };
    assert_eq!(reg.evaluate(&table, &[], 0).unwrap(), 2);
    let arg = OpArg::macro_arg(0);
    assert_eq!(arg.evaluate(&table, &[num(9)], 0).unwrap(), 9);
    assert_eq!(arg.evaluate(&table, &[], 0).unwrap_err().kind, ErrorKind::MacroArityMismatch);
    let div = OpArg {
        variant: OpArgVar::ArithOp(ArithOp::Div, Box::new(num(7)), Box::new(num(0))),
        pos,
    };
    assert_eq!(div.evaluate(&table, &[], 0).unwrap_err().kind, ErrorKind::DivisionByZero);
}

#[test]
fn arithmetic_wraps() {
    assert_eq!(ArithOp::Add.op(0xFFFF, 2), 1);
    assert_eq!(ArithOp::Sub.op(1, 2), 0xFFFF);
    assert_eq!(ArithOp::Mul.op(0x100, 0x100), 0);
    assert_eq!(ArithOp::Div.op(7, 2), 3);
}

#[test]
fn symbol_table_refuses_rebinding() {
    let mut t = SymbolTable::empty();
    assert!(t.insert(b"A".to_vec(), 1));
    assert!(!t.insert(b"A".to_vec(), 2));
    assert_eq!(t.get(b"A"), Some(1));
    assert_eq!(t.len(), 1);
    assert_eq!(t.entry(0), (&b"A"[..], 1));
    assert_eq!(SymbolTable::with_registers().len(), 4);
}

#[test]
fn parser_streams_instructions() {
    let mut p = Parser::new(parse("INC SC\nDATA 1\n").unwrap()).unwrap();
    assert_eq!(p.next().unwrap(), Some(Instruction::Arith { op: op("ADI"), reg: SC, imm: 1 }));
    assert_eq!(p.next().unwrap(), Some(Instruction::Data(vec![1])));
    assert_eq!(p.next().unwrap(), None);
}
