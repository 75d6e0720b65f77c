use corewar::assembler::{
    assemble, assemble_full, eval_expr, Config, DIV_ZERO, MAX_SOURCE_BYTES, OK_EXPR, OVERFLOW,
};
use corewar::redcode::{Instruction, Mode, Modifier, Opcode};

fn ev(s: &str) -> (i32, i64) {
    let mut r = [0i64; 26];
    let mut so = 0u8;
    eval_expr(s, &mut r, &mut so)
}

#[test]
fn evaluator_basics() {
    assert_eq!(ev("1+2*3"), (OK_EXPR, 7));
    assert_eq!(ev("(1+2)*3"), (OK_EXPR, 9));
    assert_eq!(ev("3--2"), (OK_EXPR, 5));
    assert_eq!(ev("7/0").0, DIV_ZERO);
    assert_eq!(ev("2<3&&3>2"), (OK_EXPR, 1));
    assert_eq!(ev("a=5"), (OK_EXPR, 5));
}

#[test]
fn evaluator_wraps_and_reports_overflow() {
    assert_eq!(ev("9223372036854775807+1"), (OVERFLOW, i64::MIN));
    assert_eq!(ev("-7/2"), (OK_EXPR, -3));
    assert_eq!(ev("-7%2"), (OK_EXPR, -1));
    assert_eq!(ev("99999999999999999999").0, -1);
}

#[test]
fn registers_keep_their_values() {
    let mut r = [0i64; 26];
    let mut so = 0u8;
    assert_eq!(eval_expr("x=3*4", &mut r, &mut so), (OK_EXPR, 12));
    assert_eq!(eval_expr("x+1", &mut r, &mut so), (OK_EXPR, 13));
}

#[test]
fn warrior_basics() {
    let w = assemble(
        ";redcode\n;assert 1\nstart mov 0, 1\n end start\n",
        &Config::default(),
    )
    .unwrap();
    assert_eq!(w.code.len(), 1);
    assert_eq!(w.code[0].op, Opcode::Mov);
    assert_eq!(w.code[0].modifier, Modifier::I);
}

pub const DWARF: &str = ";redcode-94\n;name Dwarf\n;author A. K. Dewdney\n;assert CORESIZE % 4 == 0\n        ORG     loop\nbomb    DAT.F   #0,     #0\nloop    ADD.AB  #4,     bomb\n        MOV.AB  #0,     @bomb\n        JMP.A   loop\n        END\n";

#[test]
fn dwarf_assembles_like_pmars() {
    let w = assemble(DWARF, &Config::default()).unwrap();
    assert_eq!(w.name, "Dwarf");
    assert_eq!(w.author, "A. K. Dewdney");
    assert_eq!(w.start, 1);
    assert_eq!(w.code.len(), 4);
    assert_eq!((w.code[1].op, w.code[1].modifier, w.code[1].a_mode, w.code[1].a, w.code[1].b), (Opcode::Add, Modifier::AB, Mode::Immediate, 4, 7999));
    assert_eq!((w.code[2].b_mode, w.code[2].b), (Mode::BIndirect, 7998));
    assert_eq!((w.code[3].op, w.code[3].a), (Opcode::Jmp, 7998));
}

#[test]
fn for_blocks_and_equs_expand() {
    let src = ";assert 1\nn EQU 3\nFOR n\nDAT.F #i, 0\nROF\n";
    let w = assemble(src, &Config::default()).unwrap();
    assert_eq!(w.code.len(), 3);
    let src = ";assert 1\ni FOR 3\nDAT.F #i, 0\nROF\n";
    let w = assemble(src, &Config::default()).unwrap();
    assert_eq!(w.code.iter().map(|c| c.a).collect::<Vec<_>>(), vec![1, 2, 3]);
}

#[test]
fn unknown_opcodes_are_errors() {
    let e = assemble("MOV 0, 1\nFOO 1\n", &Config::default()).unwrap_err();
    assert!(!e.warning);
}

#[test]
fn missing_assert_is_only_a_warning() {
    let a = assemble_full("MOV 0, 1\n", &Config::default()).unwrap();
    assert_eq!(a.warrior.code.len(), 1);
    assert!(a.warnings.iter().any(|w| w.msg == "missing ;assert"));
}

#[test]
fn a_source_over_the_size_limit_is_rejected() {
    // Comment lines of 64 bytes (pMARS reads a line 255 bytes at a time,
    // so one long comment would continue as code).
    let comment = ";".to_string() + &"x".repeat(62) + "\n";
    let code = "DAT 0,0\n";
    let fits = (MAX_SOURCE_BYTES - code.len()) / comment.len();
    let small = comment.repeat(fits) + code;
    assert!(small.len() <= MAX_SOURCE_BYTES);
    assert!(assemble(&small, &Config::default()).is_ok());
    let big = comment.repeat(fits + 1) + code;
    assert!(big.len() > MAX_SOURCE_BYTES);
    assert_eq!(assemble(&big, &Config::default()).unwrap_err().msg, "source too large");
}

#[test]
fn non_ascii_text_is_rejected_like_pmars_without_a_panic() {
    let cases = [
        (";name Воин\n;author Автор\nDAT 0, 0 ; комментарий\n".to_string(), true),
        (";assert ж\nDAT 0,0\n".to_string(), true),
        (";redcodeж\nDAT 0,0\n".to_string(), true),
        ("метка DAT 0, 0\nJMP метка\n".to_string(), false),
        ("DAT ж, 0\n".to_string(), false),
        ("x EQU ж+1\nDAT x, 0\n".to_string(), false),
        ("FOR ж\nDAT 0,0\nROF\n".to_string(), false),
        ("DAT 0,0\nEND ж\n".to_string(), false),
        ("ORG ж\nDAT 0,0\n".to_string(), false),
        ("MOV ж0, 1\n".to_string(), false),
        ("MOV.ж 0, 1\n".to_string(), false),
        ("😀 DAT 😀, 😀\n".to_string(), false),
        (format!(";{}жжж\nDAT 0,0\n", "a".repeat(253)), false),
        (format!(";{}жжж\nDAT 0,0\n", "a".repeat(254)), false),
    ];
    for (src, accepted) in cases {
        let got = assemble(&src, &Config::default());
        assert_eq!(got.is_ok(), accepted, "{:?}: {:?}", src, got.err());
    }
}

#[test]
fn empty_nested_for_loops_are_bounded() {
    let src = "FOR 65535\nFOR 65535\nROF\nROF\nDAT 0,0\n";
    assert_eq!(assemble(src, &Config::default()).unwrap_err().msg, "too much FOR expansion");
    let src = "FOR 65535\nFOR 65535\nFOR 65535\n;x\nROF\nROF\nROF\nDAT 0,0\n";
    assert_eq!(assemble(src, &Config::default()).unwrap_err().msg, "too much FOR expansion");
}

#[test]
fn many_labels_are_too_many_instructions() {
    let n = 2000;
    let labels: String = (0..n).map(|k| format!("l{} DAT {}, 0\n", k, k)).collect();
    assert_eq!(assemble(&labels, &Config::default()).unwrap_err().msg, "program too long");
    let equs: String = (0..n).map(|k| format!("l{} EQU {}\n", k, k)).collect::<String>() + &format!("DAT l{}, 0\n", n - 1);
    let w = assemble(&equs, &Config::default()).unwrap();
    assert_eq!(w.code.len(), 1);
    assert_eq!(w.code[0].a, n - 1);
}

#[test]
fn the_start_is_folded_into_the_core() {
    let w = assemble(";assert 1\nORG -1\nDAT 0,0\n", &Config::default()).unwrap();
    assert_eq!(w.start, 7999);
}

#[test]
fn messages_read_like_the_program_prints_them() {
    let e = corewar::assembler::AsmError { line: 12, msg: "unknown symbol".to_owned(), warning: false };
    assert_eq!(e.describe(), "line 12: error: unknown symbol");
    let w = corewar::assembler::AsmError { line: 0, msg: "missing ;assert".to_owned(), warning: true };
    assert_eq!(w.describe(), "warning: missing ;assert");
}

fn equs(n: usize) -> String {
    let equs: String = (0..n).map(|k| format!("l{} EQU {}\n", k, k)).collect();
    equs + &format!("DAT l{}, 0\n", n - 1)
}

#[test]
fn as_many_labels_and_equs_as_fit_in_a_source() {
    let n = 45_000;
    let labels: String = (0..n).map(|k| format!("l{} DAT {}, 0\n", k, k)).collect();
    assert_eq!(assemble(&labels, &Config::default()).unwrap_err().msg, "program too long");
    let w = assemble(&equs(n), &Config::default()).unwrap();
    assert_eq!(w.code.len(), 1);
    assert_eq!(w.code[0].a, ((n - 1) % 8000) as u32);
}

fn ins(op: Opcode, modifier: Modifier, a: u32, b: u32) -> Instruction {
    Instruction { op, modifier, a_mode: Mode::Direct, a, b_mode: Mode::Direct, b }
}

#[test]
fn redcode_framing_names_and_continuations_are_read() {
    let src = "junk\n;redcode-94\n;name Foo\n;author Bar\nMOV 0,\\\n 1\n;redcode\nDAT 1, 1\n";
    let w = assemble(src, &Config::default()).unwrap();
    assert_eq!(w.name, "Foo");
    assert_eq!(w.author, "Bar");
    assert_eq!(w.start, 0);
    assert_eq!(w.code, vec![ins(Opcode::Mov, Modifier::I, 0, 1)]);
}

#[test]
fn a_for_block_is_unrolled_with_its_counter() {
    let w = assemble("i FOR 2\nl&i DAT i, 0\nROF\n", &Config::default()).unwrap();
    assert_eq!(w.start, 0);
    assert_eq!(w.code, vec![ins(Opcode::Dat, Modifier::F, 1, 0), ins(Opcode::Dat, Modifier::F, 2, 0)]);
}

#[test]
fn defaults_and_the_first_error_line() {
    let a = assemble_full("DAT 0, 0\n", &Config::default()).unwrap();
    assert_eq!(a.warrior.code, vec![Instruction::empty()]);
    assert_eq!(a.warrior.name, "Unknown");
    assert_eq!(a.warrior.author, "Anonymous");
    assert_eq!(a.warnings.len(), 1);
    assert_eq!((a.warnings[0].line, a.warnings[0].msg.as_str(), a.warnings[0].warning), (0, "missing ;assert", true));
    let es = assemble_full("MOV 0, 1\nFOO 1\n", &Config::default()).unwrap_err();
    assert_eq!(es.len(), 1);
    assert_eq!((es[0].line, es[0].msg.as_str(), es[0].warning), (2, "unexpected token", false));
}
