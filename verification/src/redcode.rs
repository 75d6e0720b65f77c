//! Redcode as ICWS'94 defines it, with pMARS's extensions: opcodes,
//! modifiers, addressing modes and the instruction. Field values are kept
//! normalized to `0..core_size`.
use vstd::prelude::*;
use vstd::string::{StringExecFns, StringSliceAdditionalSpecFns};

verus! {

#[derive(Clone, Copy, Debug, PartialEq, Eq, Structural, Hash)]
pub enum Opcode {
    Dat,
    Mov,
    Add,
    Sub,
    Mul,
    Div,
    Mod,
    Jmp,
    Jmz,
    Jmn,
    Djn,
    Spl,
    Slt,
    /// The '88 comparison; the same as SEQ except that SEQ.I and CMP.I are
    /// told apart when comparing opcodes.
    Cmp,
    SeqOp,
    Sne,
    Nop,
    Ldp,
    Stp,
}

/// ASCII upper case of one byte.
pub open spec fn upper_byte(b: u8) -> u8 {
    if 97 <= b && b <= 122 { (b - 32) as u8 } else { b }
}

/// ASCII upper case of a byte string; other bytes are kept.
pub open spec fn upper(s: Seq<u8>) -> Seq<u8> {
    s.map_values(|b: u8| upper_byte(b))
}

fn up(b: u8) -> (r: u8)
    ensures r == upper_byte(b),
{
    if 97 <= b && b <= 122 { b - 32 } else { b }
}

/// Whether `s`, upper-cased, is the word `w` (given in upper case).
fn is_word_ci(s: &[u8], w: &[u8]) -> (r: bool)
    ensures r == (upper(s@) =~= w@),
{
    if s.len() != w.len() {
        return false;
    }
    let mut i: usize = 0;
    while i < s.len()
        invariant
            s@.len() == w@.len(),
            i <= s@.len(),
            forall|k: int| 0 <= k < i ==> upper_byte(s@[k]) == w@[k],
        decreases s@.len() - i,
    {
        if up(s[i]) != w[i] {
            assert(upper(s@)[i as int] != w@[i as int]);
            return false;
        }
        i += 1;
    }
    assert(upper(s@) =~= w@);
    true
}

/// The mnemonic of an opcode, in upper case.
pub open spec fn opcode_text(o: Opcode) -> Seq<u8> {
    match o {
        Opcode::Dat => seq![68u8, 65, 84],
        Opcode::Mov => seq![77u8, 79, 86],
        Opcode::Add => seq![65u8, 68, 68],
        Opcode::Sub => seq![83u8, 85, 66],
        Opcode::Mul => seq![77u8, 85, 76],
        Opcode::Div => seq![68u8, 73, 86],
        Opcode::Mod => seq![77u8, 79, 68],
        Opcode::Jmp => seq![74u8, 77, 80],
        Opcode::Jmz => seq![74u8, 77, 90],
        Opcode::Jmn => seq![74u8, 77, 78],
        Opcode::Djn => seq![68u8, 74, 78],
        Opcode::Spl => seq![83u8, 80, 76],
        Opcode::Slt => seq![83u8, 76, 84],
        Opcode::Cmp => seq![67u8, 77, 80],
        Opcode::SeqOp => seq![83u8, 69, 81],
        Opcode::Sne => seq![83u8, 78, 69],
        Opcode::Nop => seq![78u8, 79, 80],
        Opcode::Ldp => seq![76u8, 68, 80],
        Opcode::Stp => seq![83u8, 84, 80],
    }
}

/// The opcode whose mnemonic is `u` (already upper-cased), if any.
pub open spec fn opcode_named(u: Seq<u8>) -> Option<Opcode> {
    if exists|o: Opcode| opcode_text(o) == u {
        Some(choose|o: Opcode| opcode_text(o) == u)
    } else {
        None
    }
}

/// The name of an opcode as a string literal.
pub open spec fn opcode_name(o: Opcode) -> &'static str {
    match o {
        Opcode::Dat => "DAT",
        Opcode::Mov => "MOV",
        Opcode::Add => "ADD",
        Opcode::Sub => "SUB",
        Opcode::Mul => "MUL",
        Opcode::Div => "DIV",
        Opcode::Mod => "MOD",
        Opcode::Jmp => "JMP",
        Opcode::Jmz => "JMZ",
        Opcode::Jmn => "JMN",
        Opcode::Djn => "DJN",
        Opcode::Spl => "SPL",
        Opcode::Slt => "SLT",
        Opcode::Cmp => "CMP",
        Opcode::SeqOp => "SEQ",
        Opcode::Sne => "SNE",
        Opcode::Nop => "NOP",
        Opcode::Ldp => "LDP",
        Opcode::Stp => "STP",
    }
}

/// Two opcodes with the same mnemonic are the same opcode.
pub proof fn lemma_opcode_text_injective(o: Opcode, p: Opcode)
    ensures
        opcode_text(o) == opcode_text(p) ==> o == p,
{
    if opcode_text(o) == opcode_text(p) {
        let t = opcode_text(o);
        assert(t[0] == opcode_text(p)[0] && t[1] == opcode_text(p)[1] && t[2] == opcode_text(p)[2]);
    }
}

impl Opcode {
    /// Every opcode, in the order of the fast engine's encoding.
    pub const ALL: [Opcode; 19] = [
        Opcode::Dat,
        Opcode::Mov,
        Opcode::Add,
        Opcode::Sub,
        Opcode::Mul,
        Opcode::Div,
        Opcode::Mod,
        Opcode::Jmp,
        Opcode::Jmz,
        Opcode::Jmn,
        Opcode::Djn,
        Opcode::Spl,
        Opcode::Slt,
        Opcode::Cmp,
        Opcode::SeqOp,
        Opcode::Sne,
        Opcode::Nop,
        Opcode::Ldp,
        Opcode::Stp,
    ];

    /// The opcode named by `s`, in any case.
    pub fn parse(s: &str) -> (r: Option<Opcode>)
        ensures
            r == opcode_named(upper(s.spec_bytes())),
    {
        let b = s.as_bytes();
        let u = Ghost(upper(s.spec_bytes()));
        let r = if is_word_ci(b, &[68u8, 65, 84]) {
            Some(Opcode::Dat)
        } else if is_word_ci(b, &[77u8, 79, 86]) {
            Some(Opcode::Mov)
        } else if is_word_ci(b, &[65u8, 68, 68]) {
            Some(Opcode::Add)
        } else if is_word_ci(b, &[83u8, 85, 66]) {
            Some(Opcode::Sub)
        } else if is_word_ci(b, &[77u8, 85, 76]) {
            Some(Opcode::Mul)
        } else if is_word_ci(b, &[68u8, 73, 86]) {
            Some(Opcode::Div)
        } else if is_word_ci(b, &[77u8, 79, 68]) {
            Some(Opcode::Mod)
        } else if is_word_ci(b, &[74u8, 77, 80]) {
            Some(Opcode::Jmp)
        } else if is_word_ci(b, &[74u8, 77, 90]) {
            Some(Opcode::Jmz)
        } else if is_word_ci(b, &[74u8, 77, 78]) {
            Some(Opcode::Jmn)
        } else if is_word_ci(b, &[68u8, 74, 78]) {
            Some(Opcode::Djn)
        } else if is_word_ci(b, &[83u8, 80, 76]) {
            Some(Opcode::Spl)
        } else if is_word_ci(b, &[83u8, 76, 84]) {
            Some(Opcode::Slt)
        } else if is_word_ci(b, &[67u8, 77, 80]) {
            Some(Opcode::Cmp)
        } else if is_word_ci(b, &[83u8, 69, 81]) {
            Some(Opcode::SeqOp)
        } else if is_word_ci(b, &[83u8, 78, 69]) {
            Some(Opcode::Sne)
        } else if is_word_ci(b, &[78u8, 79, 80]) {
            Some(Opcode::Nop)
        } else if is_word_ci(b, &[76u8, 68, 80]) {
            Some(Opcode::Ldp)
        } else if is_word_ci(b, &[83u8, 84, 80]) {
            Some(Opcode::Stp)
        } else {
            None
        };
        proof {
            match r {
                Some(o) => {
                    assert(opcode_text(o) =~= u@);
                    let c = choose|p: Opcode| opcode_text(p) == u@;
                    lemma_opcode_text_injective(o, c);
                }
                None => {
                    assert forall|o: Opcode| opcode_text(o) != u@ by {
                        if opcode_text(o) == u@ {
                            assert(opcode_text(o) =~= u@);
                        }
                    }
                }
            }
        }
        r
    }

    /// The mnemonic, in upper case.
    pub fn name(self) -> (r: &'static str)
        ensures
            r == opcode_name(self),
    {
        match self {
            Opcode::Dat => "DAT",
            Opcode::Mov => "MOV",
            Opcode::Add => "ADD",
            Opcode::Sub => "SUB",
            Opcode::Mul => "MUL",
            Opcode::Div => "DIV",
            Opcode::Mod => "MOD",
            Opcode::Jmp => "JMP",
            Opcode::Jmz => "JMZ",
            Opcode::Jmn => "JMN",
            Opcode::Djn => "DJN",
            Opcode::Spl => "SPL",
            Opcode::Slt => "SLT",
            Opcode::Cmp => "CMP",
            Opcode::SeqOp => "SEQ",
            Opcode::Sne => "SNE",
            Opcode::Nop => "NOP",
            Opcode::Ldp => "LDP",
            Opcode::Stp => "STP",
        }
    }
}


#[derive(Clone, Copy, Debug, PartialEq, Eq, Structural, Hash)]
pub enum Modifier {
    A,
    B,
    AB,
    BA,
    F,
    X,
    I,
}

/// The name of a modifier, in upper case.
pub open spec fn modifier_text(m: Modifier) -> Seq<u8> {
    match m {
        Modifier::A => seq![65u8],
        Modifier::B => seq![66u8],
        Modifier::AB => seq![65u8, 66],
        Modifier::BA => seq![66u8, 65],
        Modifier::F => seq![70u8],
        Modifier::X => seq![88u8],
        Modifier::I => seq![73u8],
    }
}

/// The modifier whose name is `u` (already upper-cased), if any.
pub open spec fn modifier_named(u: Seq<u8>) -> Option<Modifier> {
    if exists|m: Modifier| modifier_text(m) == u {
        Some(choose|m: Modifier| modifier_text(m) == u)
    } else {
        None
    }
}

pub open spec fn modifier_name(m: Modifier) -> &'static str {
    match m {
        Modifier::A => "A",
        Modifier::B => "B",
        Modifier::AB => "AB",
        Modifier::BA => "BA",
        Modifier::F => "F",
        Modifier::X => "X",
        Modifier::I => "I",
    }
}

/// Two modifiers with the same name are the same modifier.
pub proof fn lemma_modifier_text_injective(m: Modifier, n: Modifier)
    ensures
        modifier_text(m) == modifier_text(n) ==> m == n,
{
    if modifier_text(m) == modifier_text(n) {
        let t = modifier_text(m);
        assert(t.len() == modifier_text(n).len());
        assert(t[0] == modifier_text(n)[0]);
        if t.len() == 2 {
            assert(t[1] == modifier_text(n)[1]);
        }
    }
}

impl Modifier {
    pub const ALL: [Modifier; 7] = [
        Modifier::A,
        Modifier::B,
        Modifier::AB,
        Modifier::BA,
        Modifier::F,
        Modifier::X,
        Modifier::I,
    ];

    /// The modifier named by `s`, in any case.
    pub fn parse(s: &str) -> (r: Option<Modifier>)
        ensures
            r == modifier_named(upper(s.spec_bytes())),
    {
        let b = s.as_bytes();
        let u = Ghost(upper(s.spec_bytes()));
        let r = if is_word_ci(b, &[65u8]) {
            Some(Modifier::A)
        } else if is_word_ci(b, &[66u8]) {
            Some(Modifier::B)
        } else if is_word_ci(b, &[65u8, 66]) {
            Some(Modifier::AB)
        } else if is_word_ci(b, &[66u8, 65]) {
            Some(Modifier::BA)
        } else if is_word_ci(b, &[70u8]) {
            Some(Modifier::F)
        } else if is_word_ci(b, &[88u8]) {
            Some(Modifier::X)
        } else if is_word_ci(b, &[73u8]) {
            Some(Modifier::I)
        } else {
            None
        };
        proof {
            match r {
                Some(m) => {
                    assert(modifier_text(m) =~= u@);
                    let c = choose|n: Modifier| modifier_text(n) == u@;
                    lemma_modifier_text_injective(m, c);
                }
                None => {
                    assert forall|m: Modifier| modifier_text(m) != u@ by {
                        if modifier_text(m) == u@ {
                            assert(modifier_text(m) =~= u@);
                        }
                    }
                }
            }
        }
        r
    }

    pub fn name(self) -> (r: &'static str)
        ensures
            r == modifier_name(self),
    {
        match self {
            Modifier::A => "A",
            Modifier::B => "B",
            Modifier::AB => "AB",
            Modifier::BA => "BA",
            Modifier::F => "F",
            Modifier::X => "X",
            Modifier::I => "I",
        }
    }
}

#[derive(Clone, Copy, Debug, PartialEq, Eq, Structural, Hash)]
pub enum Mode {
    /// `#`
    Immediate,
    /// `$`
    Direct,
    /// `*`
    AIndirect,
    /// `@`
    BIndirect,
    /// `{`
    APredec,
    /// `<`
    BPredec,
    /// `}`
    APostinc,
    /// `>`
    BPostinc,
}

/// The symbol that writes a mode.
pub open spec fn mode_symbol(m: Mode) -> char {
    match m {
        Mode::Immediate => '#',
        Mode::Direct => '$',
        Mode::AIndirect => '*',
        Mode::BIndirect => '@',
        Mode::APredec => '{',
        Mode::BPredec => '<',
        Mode::APostinc => '}',
        Mode::BPostinc => '>',
    }
}

impl Mode {
    pub const ALL: [Mode; 8] = [
        Mode::Immediate,
        Mode::Direct,
        Mode::AIndirect,
        Mode::BIndirect,
        Mode::APredec,
        Mode::BPredec,
        Mode::APostinc,
        Mode::BPostinc,
    ];

    /// The mode written with `c`, if any.
    pub fn from_char(c: char) -> (r: Option<Mode>)
        ensures
            r matches Some(m) ==> mode_symbol(m) == c,
            r is None ==> forall|m: Mode| mode_symbol(m) != c,
    {
        match c {
            '#' => Some(Mode::Immediate),
            '$' => Some(Mode::Direct),
            '*' => Some(Mode::AIndirect),
            '@' => Some(Mode::BIndirect),
            '{' => Some(Mode::APredec),
            '<' => Some(Mode::BPredec),
            '}' => Some(Mode::APostinc),
            '>' => Some(Mode::BPostinc),
            _ => None,
        }
    }

    pub fn symbol(self) -> (r: char)
        ensures
            r == mode_symbol(self),
    {
        match self {
            Mode::Immediate => '#',
            Mode::Direct => '$',
            Mode::AIndirect => '*',
            Mode::BIndirect => '@',
            Mode::APredec => '{',
            Mode::BPredec => '<',
            Mode::APostinc => '}',
            Mode::BPostinc => '>',
        }
    }
}

/// Each mode is read back from its own symbol.
pub proof fn lemma_mode_symbol_roundtrip(m: Mode, n: Mode)
    ensures
        mode_symbol(m) == mode_symbol(n) ==> m == n,
{
}

#[derive(Clone, Copy, Debug, PartialEq, Eq, Structural, Hash)]
pub struct Instruction {
    pub op: Opcode,
    pub modifier: Modifier,
    pub a_mode: Mode,
    pub a: u32,
    pub b_mode: Mode,
    pub b: u32,
}

/// The empty core cell: `DAT.F $0, $0`.
pub open spec fn empty_cell() -> Instruction {
    Instruction { op: Opcode::Dat, modifier: Modifier::F, a_mode: Mode::Direct, a: 0, b_mode: Mode::Direct, b: 0 }
}

impl Instruction {
    /// The empty core cell: `DAT.F $0, $0`.
    pub fn empty() -> (r: Instruction)
        ensures
            r == empty_cell(),
    {
        Instruction { op: Opcode::Dat, modifier: Modifier::F, a_mode: Mode::Direct, a: 0, b_mode: Mode::Direct, b: 0 }
    }
}

/// ICWS'94's default modifier for an instruction written without one.
pub open spec fn spec_default_modifier(op: Opcode, a_mode: Mode, b_mode: Mode) -> Modifier {
    match op {
        Opcode::Dat | Opcode::Nop => Modifier::F,
        Opcode::Mov | Opcode::Cmp | Opcode::SeqOp | Opcode::Sne => {
            if a_mode == Mode::Immediate {
                Modifier::AB
            } else if b_mode == Mode::Immediate {
                Modifier::B
            } else {
                Modifier::I
            }
        },
        Opcode::Add | Opcode::Sub | Opcode::Mul | Opcode::Div | Opcode::Mod => {
            if a_mode == Mode::Immediate {
                Modifier::AB
            } else if b_mode == Mode::Immediate {
                Modifier::B
            } else {
                Modifier::F
            }
        },
        Opcode::Slt | Opcode::Ldp | Opcode::Stp => {
            if a_mode == Mode::Immediate {
                Modifier::AB
            } else {
                Modifier::B
            }
        },
        Opcode::Jmp | Opcode::Jmz | Opcode::Jmn | Opcode::Djn | Opcode::Spl => Modifier::B,
    }
}

/// The ICWS'94 table of default modifiers, by operand:
/// DAT and NOP take the whole instruction's numbers (.F); the jumps and SPL
/// use the B-number of their target (.B). The others, with an immediate
/// A operand, use its A-number on the target's B-number (.AB); with only an
/// immediate B operand, B-number on B-number (.B); with neither, MOV and the
/// comparisons take the whole instruction (.I), arithmetic both numbers
/// (.F), and SLT, LDP and STP the B-numbers (.B).
pub proof fn lemma_default_modifier_table(op: Opcode, a_mode: Mode, b_mode: Mode)
    ensures
        (op == Opcode::Dat || op == Opcode::Nop) ==> spec_default_modifier(op, a_mode, b_mode) == Modifier::F,
        (op == Opcode::Jmp || op == Opcode::Jmz || op == Opcode::Jmn || op == Opcode::Djn || op == Opcode::Spl)
            ==> spec_default_modifier(op, a_mode, b_mode) == Modifier::B,
        (op == Opcode::Mov || op == Opcode::Cmp || op == Opcode::SeqOp || op == Opcode::Sne || op == Opcode::Add
            || op == Opcode::Sub || op == Opcode::Mul || op == Opcode::Div || op == Opcode::Mod || op == Opcode::Slt
            || op == Opcode::Ldp || op == Opcode::Stp) && a_mode == Mode::Immediate
            ==> spec_default_modifier(op, a_mode, b_mode) == Modifier::AB,
        (op == Opcode::Mov || op == Opcode::Cmp || op == Opcode::SeqOp || op == Opcode::Sne || op == Opcode::Add
            || op == Opcode::Sub || op == Opcode::Mul || op == Opcode::Div || op == Opcode::Mod || op == Opcode::Slt
            || op == Opcode::Ldp || op == Opcode::Stp) && a_mode != Mode::Immediate && b_mode == Mode::Immediate
            ==> spec_default_modifier(op, a_mode, b_mode) == Modifier::B,
        (op == Opcode::Mov || op == Opcode::Cmp || op == Opcode::SeqOp || op == Opcode::Sne) && a_mode != Mode::Immediate
            && b_mode != Mode::Immediate ==> spec_default_modifier(op, a_mode, b_mode) == Modifier::I,
        (op == Opcode::Add || op == Opcode::Sub || op == Opcode::Mul || op == Opcode::Div || op == Opcode::Mod)
            && a_mode != Mode::Immediate && b_mode != Mode::Immediate ==> spec_default_modifier(op, a_mode, b_mode) == Modifier::F,
        (op == Opcode::Slt || op == Opcode::Ldp || op == Opcode::Stp) && a_mode != Mode::Immediate
            ==> spec_default_modifier(op, a_mode, b_mode) == Modifier::B,
{
}

/// ICWS'94's default modifier for an instruction written without one.
pub fn default_modifier(op: Opcode, a_mode: Mode, b_mode: Mode) -> (r: Modifier)
    ensures
        r == spec_default_modifier(op, a_mode, b_mode),
{
    let a_imm = match a_mode {
        Mode::Immediate => true,
        _ => false,
    };
    let b_imm = match b_mode {
        Mode::Immediate => true,
        _ => false,
    };
    match op {
        Opcode::Dat | Opcode::Nop => Modifier::F,
        Opcode::Mov | Opcode::Cmp | Opcode::SeqOp | Opcode::Sne => {
            if a_imm {
                Modifier::AB
            } else if b_imm {
                Modifier::B
            } else {
                Modifier::I
            }
        },
        Opcode::Add | Opcode::Sub | Opcode::Mul | Opcode::Div | Opcode::Mod => {
            if a_imm {
                Modifier::AB
            } else if b_imm {
                Modifier::B
            } else {
                Modifier::F
            }
        },
        Opcode::Slt | Opcode::Ldp | Opcode::Stp => {
            if a_imm {
                Modifier::AB
            } else {
                Modifier::B
            }
        },
        Opcode::Jmp | Opcode::Jmz | Opcode::Jmn | Opcode::Djn | Opcode::Spl => Modifier::B,
    }
}

#[derive(Clone, Debug, PartialEq, Eq)]
pub struct Warrior {
    pub name: String,
    pub author: String,
    pub code: Vec<Instruction>,
    /// Offset of the first instruction to execute, relative to the load address.
    pub start: u32,
    /// The P-space number of `PIN`, if any: warriors with the same one share
    /// their P-space.
    pub pin: Option<i64>,
}

/// The signed rendering of a normalized field, the way pMARS prints
/// listings: values above half the core are negative offsets.
pub open spec fn spec_signed(v: u32, core_size: u32) -> int {
    if v as int > core_size as int / 2 { v as int - core_size as int } else { v as int }
}

/// The signed rendering of a normalized field, the way pMARS prints
/// listings: values above half the core are shown as negative offsets.
pub fn signed(v: u32, core_size: u32) -> (r: i64)
    ensures
        r as int == spec_signed(v, core_size),
{
    let v = v as i64;
    if v > core_size as i64 / 2 {
        v - core_size as i64
    } else {
        v
    }
}


/// The decimal digits of `n`.
pub open spec fn digits(n: nat) -> Seq<char>
    decreases n,
{
    if n < 10 {
        seq![(48 + n) as char]
    } else {
        digits(n / 10).push((48 + n % 10) as char)
    }
}

/// `v` in decimal, with a minus sign if negative.
pub open spec fn number(v: int) -> Seq<char> {
    if v < 0 { seq!['-'] + digits((-v) as nat) } else { digits(v as nat) }
}

/// One instruction as pMARS lists it: `MOV.I $0, $1`.
pub open spec fn listing_line(i: Instruction, core_size: u32) -> Seq<char> {
    opcode_name(i.op)@ + seq!['.'] + modifier_name(i.modifier)@ + seq![' ', mode_symbol(i.a_mode)]
        + number(spec_signed(i.a, core_size)) + seq![',', ' ', mode_symbol(i.b_mode)] + number(spec_signed(i.b, core_size))
}

/// `ORG start` and the first `code.len()` lines.
pub open spec fn listing_lines(code: Seq<Instruction>, core_size: u32, start: u32) -> Seq<char>
    decreases code.len(),
{
    if code.len() == 0 {
        seq!['O', 'R', 'G', ' '] + digits(start as nat) + seq!['\n']
    } else {
        listing_lines(code.drop_last(), core_size, start) + listing_line(code.last(), core_size) + seq!['\n']
    }
}

/// One decimal digit as text.
fn digit_text(d: u64) -> (s: &'static str)
    requires
        d < 10,
    ensures
        s@ == seq![(48 + d) as char],
{
    match d {
        0 => { proof { reveal_strlit("0"); } "0" },
        1 => { proof { reveal_strlit("1"); } "1" },
        2 => { proof { reveal_strlit("2"); } "2" },
        3 => { proof { reveal_strlit("3"); } "3" },
        4 => { proof { reveal_strlit("4"); } "4" },
        5 => { proof { reveal_strlit("5"); } "5" },
        6 => { proof { reveal_strlit("6"); } "6" },
        7 => { proof { reveal_strlit("7"); } "7" },
        8 => { proof { reveal_strlit("8"); } "8" },
        _ => { proof { reveal_strlit("9"); } "9" },
    }
}

/// Append the decimal digits of `n`.
pub(crate) fn append_digits(s: &mut String, n: u64)
    ensures
        final(s)@ == old(s)@ + digits(n as nat),
    decreases n,
{
    if n >= 10 {
        append_digits(s, n / 10);
    }
    s.append(digit_text(n % 10));
    proof {
        if n >= 10 {
            assert(digits(n as nat) == digits((n / 10) as nat).push((48 + n % 10) as char));
        }
    }
}

/// Append `v` in decimal.
fn append_number(s: &mut String, v: i64)
    requires
        v > i64::MIN,
    ensures
        final(s)@ == old(s)@ + number(v as int),
{
    if v < 0 {
        proof {
            reveal_strlit("-");
        }
        s.append("-");
        append_digits(s, (-v) as u64);
    } else {
        append_digits(s, v as u64);
    }
}

/// A mode's symbol as text.
fn mode_text(m: Mode) -> (s: &'static str)
    ensures
        s@ == seq![mode_symbol(m)],
{
    match m {
        Mode::Immediate => { proof { reveal_strlit("#"); } "#" },
        Mode::Direct => { proof { reveal_strlit("$"); } "$" },
        Mode::AIndirect => { proof { reveal_strlit("*"); } "*" },
        Mode::BIndirect => { proof { reveal_strlit("@"); } "@" },
        Mode::APredec => { proof { reveal_strlit("{"); } "{" },
        Mode::BPredec => { proof { reveal_strlit("<"); } "<" },
        Mode::APostinc => { proof { reveal_strlit("}"); } "}" },
        Mode::BPostinc => { proof { reveal_strlit(">"); } ">" },
    }
}

/// A warrior listed the way pMARS lists it.
pub struct Listing<'a> {
    pub warrior: &'a Warrior,
    pub core_size: u32,
}

impl<'a> Listing<'a> {
    /// One instruction as a line, without the line break.
    pub fn line(&self, i: &Instruction) -> (s: String)
        ensures
            s@ == listing_line(*i, self.core_size),
    {
        let mut s = String::new();
        proof {
            reveal_strlit(".");
            reveal_strlit(" ");
            reveal_strlit(", ");
        }
        s.append(i.op.name());
        s.append(".");
        s.append(i.modifier.name());
        s.append(" ");
        s.append(mode_text(i.a_mode));
        append_number(&mut s, signed(i.a, self.core_size));
        s.append(", ");
        s.append(mode_text(i.b_mode));
        append_number(&mut s, signed(i.b, self.core_size));
        assert(s@ =~= listing_line(*i, self.core_size));
        s
    }

    /// The whole listing: `ORG start`, then one instruction a line.
    pub fn text(&self) -> (s: String)
        ensures
            s@ == listing_lines(self.warrior.code@, self.core_size, self.warrior.start),
    {
        let mut s = String::new();
        proof {
            reveal_strlit("ORG ");
            reveal_strlit("\n");
        }
        s.append("ORG ");
        append_digits(&mut s, self.warrior.start as u64);
        s.append("\n");
        let code = &self.warrior.code;
        let mut k: usize = 0;
        assert(code@.take(0) =~= Seq::<Instruction>::empty());
        while k < code.len()
            invariant
                k <= code@.len(),
                s@ == listing_lines(code@.take(k as int), self.core_size, self.warrior.start),
            decreases code@.len() - k,
        {
            let line = self.line(&code[k]);
            proof {
                reveal_strlit("\n");
            }
            s.append(line.as_str());
            s.append("\n");
            assert(code@.take(k + 1).drop_last() =~= code@.take(k as int));
            assert(code@.take(k + 1).last() == code@[k as int]);
            assert(listing_lines(code@.take(k + 1), self.core_size, self.warrior.start)
                == listing_lines(code@.take(k as int), self.core_size, self.warrior.start) + listing_line(code@[k as int], self.core_size) + seq!['\n']);
            k += 1;
        }
        assert(code@.take(code@.len() as int) =~= code@);
        s
    }

    /// The instructions as lines, without line breaks.
    pub fn lines(&self) -> (v: Vec<String>)
        ensures
            v@.len() == self.warrior.code@.len(),
            forall|k: int| 0 <= k < v@.len() ==> (#[trigger] v@[k])@ == listing_line(self.warrior.code@[k], self.core_size),
    {
        let code = &self.warrior.code;
        let mut v: Vec<String> = Vec::new();
        let mut k: usize = 0;
        while k < code.len()
            invariant
                k <= code@.len(),
                v@.len() == k,
                forall|k2: int| 0 <= k2 < k ==> (#[trigger] v@[k2])@ == listing_line(code@[k2], self.core_size),
            decreases code@.len() - k,
        {
            v.push(self.line(&code[k]));
            k += 1;
        }
        v
    }
}
} // verus!
