//! The fast engine: the same semantics as [`crate::mars::Mars`] (the one
//! stated in `crate::model`), laid out for speed:
//! * a cell is two u16 fields, one byte `opcode * 8 + modifier` and one
//!   byte per mode;
//! * the empty cell `DAT.F $0, $0` is all zeroes, so clearing the core
//!   between rounds is a fill with one value;
//! * process queues are fixed ring buffers, nothing is allocated while
//!   running;
//! * addresses are always folded into the core before use.
//!
//! Core sizes up to 65535 (u16 fields).
use crate::assembler::{match_config, engine_config, lemma_pspace_size_positive, spec_pspace_size, Config};
use crate::mars::{
    divide, initial_state, lemma_match_depends_on_rules, match_result, match_steps, codes_of, starts_of, pins_of, lemma_ready, lemma_step_parts, op_done, op_ready, pins_match, pmars_rng,
    zero_score, OpArgs, Outcome, Score,
};
use crate::model::{self, MarsState};
use crate::redcode::{Instruction, Mode, Modifier, Opcode, Warrior};
use vstd::prelude::*;

verus! {

/// One core cell in eight bytes.
#[derive(Clone, Copy, Debug, PartialEq, Eq, Structural)]
pub struct Cell {
    pub a: u16,
    pub b: u16,
    /// opcode * 8 + modifier, see O_* and M_*
    pub opm: u8,
    pub am: u8,
    pub bm: u8,
}

// Encodings chosen so that DAT.F $0, $0 is all zeroes.
pub const O_DAT: u8 = 0;
pub const O_MOV: u8 = 1;
pub const O_ADD: u8 = 2;
pub const O_SUB: u8 = 3;
pub const O_MUL: u8 = 4;
pub const O_DIV: u8 = 5;
pub const O_MOD: u8 = 6;
pub const O_JMP: u8 = 7;
pub const O_JMZ: u8 = 8;
pub const O_JMN: u8 = 9;
pub const O_DJN: u8 = 10;
pub const O_SPL: u8 = 11;
pub const O_SLT: u8 = 12;
pub const O_CMP: u8 = 13;
pub const O_SEQ: u8 = 14;
pub const O_SNE: u8 = 15;
pub const O_NOP: u8 = 16;
pub const O_LDP: u8 = 17;
pub const O_STP: u8 = 18;

pub const M_F: u8 = 0;
pub const M_A: u8 = 1;
pub const M_B: u8 = 2;
pub const M_AB: u8 = 3;
pub const M_BA: u8 = 4;
pub const M_X: u8 = 5;
pub const M_I: u8 = 6;

pub const DIRECT: u8 = 0;
pub const IMMEDIATE: u8 = 1;
pub const A_IND: u8 = 2;
pub const B_IND: u8 = 3;
pub const A_PRE: u8 = 4;
pub const B_PRE: u8 = 5;
pub const A_POST: u8 = 6;
pub const B_POST: u8 = 7;

/// The number of an opcode.
pub open spec fn op_number(o: Opcode) -> u8 {
    match o {
        Opcode::Dat => O_DAT,
        Opcode::Mov => O_MOV,
        Opcode::Add => O_ADD,
        Opcode::Sub => O_SUB,
        Opcode::Mul => O_MUL,
        Opcode::Div => O_DIV,
        Opcode::Mod => O_MOD,
        Opcode::Jmp => O_JMP,
        Opcode::Jmz => O_JMZ,
        Opcode::Jmn => O_JMN,
        Opcode::Djn => O_DJN,
        Opcode::Spl => O_SPL,
        Opcode::Slt => O_SLT,
        Opcode::Cmp => O_CMP,
        Opcode::SeqOp => O_SEQ,
        Opcode::Sne => O_SNE,
        Opcode::Nop => O_NOP,
        Opcode::Ldp => O_LDP,
        Opcode::Stp => O_STP,
    }
}

/// The number of a modifier.
pub open spec fn mod_number(m: Modifier) -> u8 {
    match m {
        Modifier::F => M_F,
        Modifier::A => M_A,
        Modifier::B => M_B,
        Modifier::AB => M_AB,
        Modifier::BA => M_BA,
        Modifier::X => M_X,
        Modifier::I => M_I,
    }
}

/// The number of an addressing mode.
pub open spec fn mode_number(m: Mode) -> u8 {
    match m {
        Mode::Direct => DIRECT,
        Mode::Immediate => IMMEDIATE,
        Mode::AIndirect => A_IND,
        Mode::BIndirect => B_IND,
        Mode::APredec => A_PRE,
        Mode::BPredec => B_PRE,
        Mode::APostinc => A_POST,
        Mode::BPostinc => B_POST,
    }
}

/// The opcode of a number below 19.
pub open spec fn op_of_number(n: u8) -> Opcode {
    if n == O_DAT { Opcode::Dat }
    else if n == O_MOV { Opcode::Mov }
    else if n == O_ADD { Opcode::Add }
    else if n == O_SUB { Opcode::Sub }
    else if n == O_MUL { Opcode::Mul }
    else if n == O_DIV { Opcode::Div }
    else if n == O_MOD { Opcode::Mod }
    else if n == O_JMP { Opcode::Jmp }
    else if n == O_JMZ { Opcode::Jmz }
    else if n == O_JMN { Opcode::Jmn }
    else if n == O_DJN { Opcode::Djn }
    else if n == O_SPL { Opcode::Spl }
    else if n == O_SLT { Opcode::Slt }
    else if n == O_CMP { Opcode::Cmp }
    else if n == O_SEQ { Opcode::SeqOp }
    else if n == O_SNE { Opcode::Sne }
    else if n == O_NOP { Opcode::Nop }
    else if n == O_LDP { Opcode::Ldp }
    else { Opcode::Stp }
}

/// The modifier of a number below 7.
pub open spec fn mod_of_number(n: u8) -> Modifier {
    if n == M_F { Modifier::F }
    else if n == M_A { Modifier::A }
    else if n == M_B { Modifier::B }
    else if n == M_AB { Modifier::AB }
    else if n == M_BA { Modifier::BA }
    else if n == M_X { Modifier::X }
    else { Modifier::I }
}

/// The addressing mode of a number below 8.
pub open spec fn mode_of_number(n: u8) -> Mode {
    if n == DIRECT { Mode::Direct }
    else if n == IMMEDIATE { Mode::Immediate }
    else if n == A_IND { Mode::AIndirect }
    else if n == B_IND { Mode::BIndirect }
    else if n == A_PRE { Mode::APredec }
    else if n == B_PRE { Mode::BPredec }
    else if n == A_POST { Mode::APostinc }
    else { Mode::BPostinc }
}

/// A cell that is the encoding of some instruction.
pub open spec fn cell_ok(c: Cell) -> bool {
    c.opm / 8 < 19 && c.opm % 8 < 7 && c.am < 8 && c.bm < 8
}

/// The cell of an instruction; fields keep their low 16 bits.
pub open spec fn spec_encode(i: Instruction) -> Cell {
    Cell {
        a: i.a as u16,
        b: i.b as u16,
        opm: (op_number(i.op) * 8 + mod_number(i.modifier)) as u8,
        am: mode_number(i.a_mode),
        bm: mode_number(i.b_mode),
    }
}

/// The instruction of a cell.
pub open spec fn spec_decode(c: Cell) -> Instruction {
    Instruction {
        op: op_of_number(c.opm / 8),
        modifier: mod_of_number(c.opm % 8),
        a_mode: mode_of_number(c.am),
        a: c.a as u32,
        b_mode: mode_of_number(c.bm),
        b: c.b as u32,
    }
}

/// The empty cell, all zeroes, is `DAT.F $0, $0`.
pub open spec fn zero_cell() -> Cell {
    Cell { a: 0, b: 0, opm: 0, am: 0, bm: 0 }
}

/// Decoding an encoded instruction gives it back, when its fields fit in
/// 16 bits; encoding a decoded cell gives the cell back.
pub proof fn lemma_cell_roundtrip(i: Instruction, c: Cell)
    ensures
        cell_ok(spec_encode(i)),
        i.a < 0x10000 && i.b < 0x10000 ==> spec_decode(spec_encode(i)) == i,
        cell_ok(c) ==> spec_encode(spec_decode(c)) == c,
        spec_decode(zero_cell()) == crate::redcode::empty_cell(),
{
    let e = spec_encode(i);
    assert(e.opm / 8 == op_number(i.op) && e.opm % 8 == mod_number(i.modifier)) by {
        let o = op_number(i.op);
        let m = mod_number(i.modifier);
        assert(o < 19 && m < 7);
        assert((o * 8 + m) / 8 == o && (o * 8 + m) % 8 == m) by (nonlinear_arith)
            requires 0 <= o < 19, 0 <= m < 7;
    }
    if cell_ok(c) {
        let d = spec_decode(c);
        let o = c.opm / 8;
        let m = c.opm % 8;
        assert(op_number(op_of_number(o)) == o);
        assert(mod_number(mod_of_number(m)) == m);
        assert(o * 8 + m == c.opm) by (nonlinear_arith)
            requires o == c.opm / 8, m == c.opm % 8;
    }
}

/// The number of an opcode, as the engine stores it.
fn enc_op(o: Opcode) -> (r: u8)
    ensures
        r == op_number(o),
{
    match o {
        Opcode::Dat => O_DAT,
        Opcode::Mov => O_MOV,
        Opcode::Add => O_ADD,
        Opcode::Sub => O_SUB,
        Opcode::Mul => O_MUL,
        Opcode::Div => O_DIV,
        Opcode::Mod => O_MOD,
        Opcode::Jmp => O_JMP,
        Opcode::Jmz => O_JMZ,
        Opcode::Jmn => O_JMN,
        Opcode::Djn => O_DJN,
        Opcode::Spl => O_SPL,
        Opcode::Slt => O_SLT,
        Opcode::Cmp => O_CMP,
        Opcode::SeqOp => O_SEQ,
        Opcode::Sne => O_SNE,
        Opcode::Nop => O_NOP,
        Opcode::Ldp => O_LDP,
        Opcode::Stp => O_STP,
    }
}

/// The number of a modifier, as the engine stores it.
fn enc_mod(m: Modifier) -> (r: u8)
    ensures
        r == mod_number(m),
{
    match m {
        Modifier::F => M_F,
        Modifier::A => M_A,
        Modifier::B => M_B,
        Modifier::AB => M_AB,
        Modifier::BA => M_BA,
        Modifier::X => M_X,
        Modifier::I => M_I,
    }
}

/// The number of an addressing mode, as the engine stores it.
fn enc_mode(m: Mode) -> (r: u8)
    ensures
        r == mode_number(m),
{
    match m {
        Mode::Direct => DIRECT,
        Mode::Immediate => IMMEDIATE,
        Mode::AIndirect => A_IND,
        Mode::BIndirect => B_IND,
        Mode::APredec => A_PRE,
        Mode::BPredec => B_PRE,
        Mode::APostinc => A_POST,
        Mode::BPostinc => B_POST,
    }
}

fn dec_op(n: u8) -> (r: Opcode)
    ensures
        r == op_of_number(n),
{
    match n {
        0 => Opcode::Dat,
        1 => Opcode::Mov,
        2 => Opcode::Add,
        3 => Opcode::Sub,
        4 => Opcode::Mul,
        5 => Opcode::Div,
        6 => Opcode::Mod,
        7 => Opcode::Jmp,
        8 => Opcode::Jmz,
        9 => Opcode::Jmn,
        10 => Opcode::Djn,
        11 => Opcode::Spl,
        12 => Opcode::Slt,
        13 => Opcode::Cmp,
        14 => Opcode::SeqOp,
        15 => Opcode::Sne,
        16 => Opcode::Nop,
        17 => Opcode::Ldp,
        _ => Opcode::Stp,
    }
}

fn dec_mod(n: u8) -> (r: Modifier)
    ensures
        r == mod_of_number(n),
{
    match n {
        0 => Modifier::F,
        1 => Modifier::A,
        2 => Modifier::B,
        3 => Modifier::AB,
        4 => Modifier::BA,
        5 => Modifier::X,
        _ => Modifier::I,
    }
}

fn dec_mode(n: u8) -> (r: Mode)
    ensures
        r == mode_of_number(n),
{
    match n {
        0 => Mode::Direct,
        1 => Mode::Immediate,
        2 => Mode::AIndirect,
        3 => Mode::BIndirect,
        4 => Mode::APredec,
        5 => Mode::BPredec,
        6 => Mode::APostinc,
        _ => Mode::BPostinc,
    }
}

impl Cell {
    /// The cell of an instruction; fields keep their low 16 bits.
    pub fn encode(i: &Instruction) -> (c: Cell)
        ensures
            c == spec_encode(*i),
            cell_ok(c),
    {
        proof {
            lemma_cell_roundtrip(*i, zero_cell());
        }
        let o = enc_op(i.op);
        let m = enc_mod(i.modifier);
        Cell {
            a: i.a as u16,
            b: i.b as u16,
            opm: o * 8 + m,
            am: enc_mode(i.a_mode),
            bm: enc_mode(i.b_mode),
        }
    }

    /// The instruction of an encoded cell.
    pub fn decode(&self) -> (i: Instruction)
        requires
            cell_ok(*self),
        ensures
            i == spec_decode(*self),
    {
        Instruction {
            op: dec_op(self.opm / 8),
            modifier: dec_mod(self.opm % 8),
            a_mode: dec_mode(self.am),
            a: self.a as u32,
            b_mode: dec_mode(self.bm),
            b: self.b as u32,
        }
    }

    /// The empty cell `DAT.F $0, $0`, all zeroes.
    pub fn zero() -> (c: Cell)
        ensures
            c == zero_cell(),
    {
        Cell { a: 0, b: 0, opm: 0, am: 0, bm: 0 }
    }
}

/// A warrior prepared for the fast engine.
#[derive(Clone, Debug)]
pub struct Compiled {
    pub code: Vec<Cell>,
    pub start: u16,
    pub pin: Option<i64>,
}

/// The code of a prepared warrior, as instructions.
pub open spec fn compiled_code(c: Compiled) -> Seq<Instruction> {
    c.code@.map_values(|x: Cell| spec_decode(x))
}

/// A prepared warrior that can be loaded into a core of `cs` cells.
pub open spec fn compiled_loadable(c: Compiled, cs: nat) -> bool {
    &&& (c.start as nat) < cs
    &&& forall|i: int| 0 <= i < c.code@.len() ==> cell_ok(#[trigger] c.code@[i]) && c.code@[i].a < cs && c.code@[i].b < cs
}

impl Compiled {
    /// Encode a warrior's code for the fast engine.
    pub fn new(w: &Warrior) -> (c: Compiled)
        ensures
            c.code@ == w.code@.map_values(|i: Instruction| spec_encode(i)),
            c.start == w.start as u16,
            c.pin == w.pin,
    {
        let mut code: Vec<Cell> = Vec::new();
        let mut k: usize = 0;
        while k < w.code.len()
            invariant
                k <= w.code@.len(),
                code@ == w.code@.take(k as int).map_values(|i: Instruction| spec_encode(i)),
            decreases w.code@.len() - k,
        {
            code.push(Cell::encode(&w.code[k]));
            assert(w.code@.take(k + 1) =~= w.code@.take(k as int).push(w.code@[k as int]));
            k += 1;
        }
        assert(w.code@.take(w.code@.len() as int) =~= w.code@);
        Compiled { code, start: w.start as u16, pin: w.pin }
    }

    /// Whether the warrior can be loaded into a core of `core_size` cells.
    pub fn fits(&self, core_size: u32) -> (r: bool)
        ensures
            r == compiled_loadable(*self, core_size as nat),
    {
        if self.start as u32 >= core_size {
            return false;
        }
        let mut k: usize = 0;
        while k < self.code.len()
            invariant
                k <= self.code@.len(),
                forall|i: int| 0 <= i < k ==> cell_ok(#[trigger] self.code@[i]) && self.code@[i].a < core_size && self.code@[i].b < core_size,
            decreases self.code@.len() - k,
        {
            let c = self.code[k];
            if !(c.opm / 8 < 19 && c.opm % 8 < 7 && c.am < 8 && c.bm < 8) || c.a as u32 >= core_size || c.b as u32 >= core_size {
                return false;
            }
            k += 1;
        }
        true
    }
}

/// A prepared warrior is its warrior again, and loads where it does, when
/// the warrior's numbers fit in 16 bits.
pub proof fn lemma_compiled_is_the_warrior(w: Warrior, c: Compiled, cs: nat)
    requires
        c.code@ == w.code@.map_values(|i: Instruction| spec_encode(i)),
        c.start == w.start as u16,
        cs <= 0x10000,
        crate::mars::warrior_loadable(w, cs),
    ensures
        compiled_code(c) == w.code@,
        c.start as u32 == w.start,
        compiled_loadable(c, cs),
{
    assert forall|i: int| 0 <= i < w.code@.len() implies #[trigger] compiled_code(c)[i] == w.code@[i] by {
        lemma_cell_roundtrip(w.code@[i], zero_cell());
    }
    assert(compiled_code(c) =~= w.code@);
    assert forall|i: int| 0 <= i < c.code@.len() implies cell_ok(#[trigger] c.code@[i]) && c.code@[i].a < cs && c.code@[i].b < cs by {
        lemma_cell_roundtrip(w.code@[i], zero_cell());
    }
}

/// The index `i` places after `h` in a ring of `cap` entries (`h`, `i`
/// below `cap`).
pub open spec fn ring_index(h: int, i: int, cap: int) -> int {
    if h + i >= cap { h + i - cap } else { h + i }
}

/// The `n` entries of a ring buffer from `h` on, as addresses.
pub open spec fn ring(buf: Seq<u16>, h: int, n: int, cap: int) -> Seq<u32> {
    Seq::new(n as nat, |i: int| buf[ring_index(h, i, cap)] as u32)
}

/// Taking the first entry off a ring moves its head one on.
proof fn lemma_ring_pop(buf: Seq<u16>, h: int, n: int, cap: int)
    requires
        0 <= h < cap,
        1 <= n <= cap,
        buf.len() == cap,
    ensures
        ring(buf, ring_index(h, 1, cap), n - 1, cap) =~= ring(buf, h, n, cap).drop_first(),
{
}

/// Writing past the last entry of a ring that has room adds an entry.
proof fn lemma_ring_push(buf: Seq<u16>, h: int, n: int, cap: int, v: u16)
    requires
        0 <= h < cap,
        0 <= n < cap,
        buf.len() == cap,
    ensures
        ring(buf.update(ring_index(h, n, cap), v), h, n + 1, cap) =~= ring(buf, h, n, cap).push(v as u32),
{
    let nb = buf.update(ring_index(h, n, cap), v);
    assert forall|i: int| 0 <= i < n implies ring_index(h, i, cap) != ring_index(h, n, cap) by {}
}

/// The fast engine. Two warriors; its state is a [`MarsState`] too.
pub struct Engine {
    cs: u32,
    max_processes: usize,
    core: Vec<Cell>,
    /// The two process queues: ring buffers of `cap` entries.
    qbuf: Vec<Vec<u16>>,
    cap: usize,
    head: Vec<usize>,
    len: Vec<usize>,
    pspace: Vec<Vec<u16>>,
    bank: Vec<usize>,
    last_result: Vec<u16>,
    pspace_size: u32,
    /// Instructions executed since creation, counted per round.
    pub steps: u64,
}

impl View for Engine {
    type V = MarsState;

    closed spec fn view(&self) -> MarsState {
        MarsState {
            cs: self.cs as nat,
            max_processes: self.max_processes as nat,
            core: self.core@.map_values(|c: Cell| spec_decode(c)),
            queues: Seq::new(
                2,
                |w: int| ring(self.qbuf@[w]@, self.head@[w] as int, self.len@[w] as int, self.cap as int),
            ),
            pspace: self.pspace@.map_values(|b: Vec<u16>| b@.map_values(|x: u16| x as u32)),
            bank: self.bank@.map_values(|b: usize| b as nat),
            last_result: self.last_result@.map_values(|x: u16| x as u32),
            pspace_size: self.pspace_size as nat,
        }
    }
}

impl Engine {
    /// The invariant of the engine.
    pub closed spec fn wf(&self) -> bool {
        &&& model::wf(self@)
        &&& self.pspace_size as nat == spec_pspace_size(self.cs as nat)
        &&& forall|i: int| 0 <= i < self.core@.len() ==> cell_ok(#[trigger] self.core@[i])
        &&& self.qbuf@.len() == 2
        &&& self.head@.len() == 2
        &&& self.len@.len() == 2
        &&& self.cap == self.max_processes + 1
        &&& forall|w: int| 0 <= w < 2 ==> (#[trigger] self.qbuf@[w])@.len() == self.cap
        &&& forall|w: int| 0 <= w < 2 ==> #[trigger] self.head@[w] < self.cap
        &&& forall|w: int| 0 <= w < 2 ==> #[trigger] self.len@[w] <= self.max_processes
        &&& forall|k: int, i: int| 0 <= k < self.pspace@.len() && 0 <= i < self.pspace@[k]@.len() ==> #[trigger] self.pspace@[k]@[i] < 0x10000
    }

    /// The instructions counted so far.
    pub fn total_steps(&self) -> (n: u64)
        ensures
            n == self.step_count(),
    {
        self.steps
    }

    /// The instructions counted so far; the count starts again at zero.
    pub fn take_steps(&mut self) -> (n: u64)
        ensures
            n == old(self).step_count(),
            final(self).step_count() == 0,
            final(self)@ == old(self)@,
            old(self).wf() ==> final(self).wf(),
    {
        let n = self.steps;
        self.steps = 0;
        n
    }

    /// A well-formed engine holds a well-formed state of two warriors.
    pub proof fn lemma_wf(&self)
        requires
            self.wf(),
        ensures
            model::wf(self@),
            self@.queues.len() == 2,
            self@.pspace_size == spec_pspace_size(self@.cs),
    {
    }

    /// Instructions executed since creation.
    pub closed spec fn step_count(&self) -> u64 {
        self.steps
    }

    /// An engine for two warriors under `cfg`: an empty core, no
    /// processes, zero P-space.
    pub fn new(cfg: &Config) -> (e: Engine)
        requires
            engine_config(*cfg),
            (cfg.max_processes as int) < usize::MAX,
        ensures
            e@ == initial_state(*cfg, 2),
            e.wf(),
            e.step_count() == 0,
    {
        let ps = cfg.pspace_size();
        proof {
            lemma_pspace_size_positive(cfg.core_size as nat);
            lemma_cell_roundtrip(crate::redcode::empty_cell(), zero_cell());
        }
        let cap: usize = cfg.max_processes as usize + 1;
        let core: Vec<Cell> = vec![Cell::zero(); cfg.core_size as usize];
        let mut qbuf: Vec<Vec<u16>> = Vec::new();
        qbuf.push(vec![0u16; cap]);
        qbuf.push(vec![0u16; cap]);
        let mut head: Vec<usize> = Vec::new();
        head.push(0);
        head.push(0);
        let mut len: Vec<usize> = Vec::new();
        len.push(0);
        len.push(0);
        let mut pspace: Vec<Vec<u16>> = Vec::new();
        pspace.push(vec![0u16; ps as usize]);
        pspace.push(vec![0u16; ps as usize]);
        let mut bank: Vec<usize> = Vec::new();
        bank.push(0);
        bank.push(1);
        let cs1 = (cfg.core_size - 1) as u16;
        let mut last_result: Vec<u16> = Vec::new();
        last_result.push(cs1);
        last_result.push(cs1);
        let e = Engine {
            cs: cfg.core_size,
            max_processes: cfg.max_processes as usize,
            core,
            qbuf,
            cap,
            head,
            len,
            pspace,
            bank,
            last_result,
            pspace_size: ps,
            steps: 0,
        };
        proof {
            let i = initial_state(*cfg, 2);
            assert(e@.core =~= i.core);
            assert(e@.queues =~= i.queues) by {
                assert forall|w: int| 0 <= w < 2 implies #[trigger] e@.queues[w] =~= i.queues[w] by {}
            }
            assert(e@.pspace =~= i.pspace) by {
                assert forall|k: int| 0 <= k < 2 implies #[trigger] e@.pspace[k] =~= i.pspace[k] by {}
            }
            assert(e@.bank =~= i.bank);
            assert(e@.last_result =~= i.last_result);
            assert(e@ =~= i);
        }
        e
    }

    /// The core, as instructions.
    pub fn core_instructions(&self) -> (c: Vec<Instruction>)
        requires
            self.wf(),
        ensures
            c@ == self@.core,
    {
        let mut c: Vec<Instruction> = Vec::new();
        let mut i: usize = 0;
        while i < self.core.len()
            invariant
                self.wf(),
                i <= self.core@.len(),
                c@ == self@.core.take(i as int),
            decreases self.core@.len() - i,
        {
            c.push(self.core[i].decode());
            assert(self@.core.take(i + 1) =~= self@.core.take(i as int).push(self@.core[i as int]));
            i += 1;
        }
        assert(self@.core.take(self.core@.len() as int) =~= self@.core);
        c
    }

    /// The instruction in cell `i`.
    fn cell(&self, i: u32) -> (c: Instruction)
        requires
            self.wf(),
            i < self.cs,
        ensures
            c == self@.core[i as int],
    {
        self.core[i as usize].decode()
    }

    /// Put an instruction whose numbers are in the core into cell `i`.
    fn set_cell(&mut self, i: u32, c: Instruction)
        requires
            old(self).wf(),
            i < old(self).cs,
            c.a < old(self).cs,
            c.b < old(self).cs,
        ensures
            final(self)@ == (MarsState { core: old(self)@.core.update(i as int, c), ..old(self)@ }),
            final(self).wf(),
            final(self).cs == old(self).cs,
            final(self).max_processes == old(self).max_processes,
            final(self).pspace_size == old(self).pspace_size,
            final(self).steps == old(self).steps,
    {
        let ghost before = self@;
        let e = Cell::encode(&c);
        proof {
            lemma_cell_roundtrip(c, e);
        }
        self.core.set(i as usize, e);
        proof {
            assert(self@.core =~= before.core.update(i as int, c));
            model::lemma_cells_update(before.core, before.cs, i as int, c);
            model::lemma_wf_with_core(before, self@.core);
            assert(self@ =~= (MarsState { core: before.core.update(i as int, c), ..before }));
        }
    }

    /// The number of processes of warrior `w`.
    fn queue_len(&self, w: usize) -> (n: usize)
        requires
            self.wf(),
            w < 2,
        ensures
            n == self@.queues[w as int].len(),
    {
        self.len[w]
    }

    /// The number of processes warrior `w` has.
    pub fn processes(&self, w: usize) -> (n: usize)
        requires
            self.wf(),
            w < 2,
        ensures
            n == self@.queues[w as int].len(),
    {
        self.len[w]
    }

    fn get_pspace(&self, w: usize, idx: u32) -> (r: u32)
        requires
            self.wf(),
            w < self@.queues.len(),
        ensures
            r == model::pspace_get(self@, w as int, idx as int),
            r < self.cs,
    {
        let i = (idx % self.pspace_size) as usize;
        if i == 0 {
            assert(self@.last_result[w as int] < self@.cs);
            self.last_result[w] as u32
        } else {
            let b = self.bank[w];
            assert(self@.bank[w as int] == b as nat);
            assert(self@.pspace[b as int] == self.pspace@[b as int]@.map_values(|x: u16| x as u32));
            assert(self@.pspace[b as int].len() == self.pspace_size);
            assert(self@.pspace[b as int][i as int] < self@.cs);
            self.pspace[b][i] as u32
        }
    }

    fn set_pspace(&mut self, w: usize, idx: u32, v: u32)
        requires
            old(self).wf(),
            w < old(self)@.queues.len(),
            v < old(self).cs,
        ensures
            final(self)@ == model::pspace_set(old(self)@, w as int, idx as int, v),
            final(self).wf(),
            final(self).cs == old(self).cs,
            final(self).pspace_size == old(self).pspace_size,
            final(self).steps == old(self).steps,
    {
        let i = (idx % self.pspace_size) as usize;
        if i == 0 {
            self.last_result.set(w, v as u16);
            assert(self@.last_result =~= old(self)@.last_result.update(w as int, v));
            assert(self@ =~= model::pspace_set(old(self)@, w as int, idx as int, v));
        } else {
            let b = self.bank[w];
            assert(self@.bank[w as int] == b as nat);
            assert(self@.pspace[b as int].len() == self.pspace_size);
            let mut bank: Vec<u16> = Vec::new();
            self.pspace.set_and_swap(b, &mut bank);
            bank.set(i, v as u16);
            self.pspace.set_and_swap(b, &mut bank);
            assert(self@.pspace[b as int] =~= old(self)@.pspace[b as int].update(i as int, v));
            assert(self@.pspace =~= old(self)@.pspace.update(b as int, old(self)@.pspace[b as int].update(i as int, v)));
            assert(self@ =~= model::pspace_set(old(self)@, w as int, idx as int, v));
        }
        proof {
            let s = old(self)@;
            let n = self@;
            assert(model::wf(n)) by {
                let ii = (idx as int) % (s.pspace_size as int);
                if ii != 0 {
                    let bb = s.bank[w as int] as int;
                    assert forall|k: int, j: int| 0 <= k < n.pspace.len() && 0 <= j < n.pspace_size implies #[trigger] n.pspace[k][j] < n.cs by {
                        if k == bb && j == ii {
                        } else {
                            assert(s.pspace[k][j] < s.cs);
                        }
                    }
                    assert forall|k: int| 0 <= k < n.pspace.len() implies #[trigger] n.pspace[k].len() == n.pspace_size by {
                        assert(s.pspace[k].len() == s.pspace_size);
                    }
                } else {
                    assert forall|u: int| 0 <= u < n.queues.len() implies #[trigger] n.last_result[u] < n.cs by {
                        if u != w {
                            assert(s.last_result[u] < s.cs);
                        }
                    }
                }
            }
            assert forall|k: int, j: int| 0 <= k < self.pspace@.len() && 0 <= j < self.pspace@[k]@.len() implies #[trigger] self.pspace@[k]@[j] < 0x10000 by {}
        }
    }

    /// Queue `v` for warrior `w`.
    fn push(&mut self, w: usize, v: u32)
        requires
            old(self).wf(),
            w < old(self)@.queues.len(),
            old(self)@.queues[w as int].len() < old(self)@.max_processes,
            v < old(self).cs,
        ensures
            final(self)@ == (MarsState { queues: old(self)@.queues.update(w as int, old(self)@.queues[w as int].push(v)), ..old(self)@ }),
            final(self).wf(),
            final(self).cs == old(self).cs,
            final(self).max_processes == old(self).max_processes,
            final(self).pspace_size == old(self).pspace_size,
            final(self).steps == old(self).steps,
    {
        let ghost s = self@;
        let h = self.head[w];
        let n = self.len[w];
        let room = self.cap - h;
        let at = if n >= room { n - room } else { h + n };
        assert(at as int == ring_index(h as int, n as int, self.cap as int));
        let mut q: Vec<u16> = Vec::new();
        self.qbuf.set_and_swap(w, &mut q);
        let ghost qb = q@;
        q.set(at, v as u16);
        self.qbuf.set_and_swap(w, &mut q);
        self.len.set(w, n + 1);
        proof {
            lemma_ring_push(qb, h as int, n as int, self.cap as int, v as u16);
            assert(self@.queues =~= s.queues.update(w as int, s.queues[w as int].push(v))) by {
                assert forall|u: int| 0 <= u < 2 implies #[trigger] self@.queues[u] =~= s.queues.update(w as int, s.queues[w as int].push(v))[u] by {
                    if u != w as int {
                        assert(self.qbuf@[u] == old(self).qbuf@[u]);
                    }
                }
            }
            model::lemma_wf_with_queue(s, w as int, s.queues[w as int].push(v));
            assert(self@ =~= (MarsState { queues: s.queues.update(w as int, s.queues[w as int].push(v)), ..s }));
        }
    }

    /// Take the next process of warrior `w` off its queue.
    fn pop(&mut self, w: usize) -> (pc: Option<u32>)
        requires
            old(self).wf(),
            w < old(self)@.queues.len(),
        ensures
            final(self).wf(),
            match pc {
                Some(p) => {
                    &&& old(self)@.queues[w as int].len() > 0
                    &&& p == old(self)@.queues[w as int][0]
                    &&& final(self)@ == (MarsState {
                        queues: old(self)@.queues.update(w as int, old(self)@.queues[w as int].drop_first()),
                        ..old(self)@
                    })
                },
                None => old(self)@.queues[w as int].len() == 0 && final(self)@ == old(self)@,
            },
            final(self).cs == old(self).cs,
            final(self).pspace_size == old(self).pspace_size,
            final(self).steps == old(self).steps,
    {
        let ghost s = self@;
        let n = self.len[w];
        if n == 0 {
            return None;
        }
        let h = self.head[w];
        let v = self.qbuf[w][h];
        let nh = if h + 1 == self.cap { 0 } else { h + 1 };
        self.head.set(w, nh);
        self.len.set(w, n - 1);
        proof {
            lemma_ring_pop(self.qbuf@[w as int]@, h as int, n as int, self.cap as int);
            assert(self@.queues =~= s.queues.update(w as int, s.queues[w as int].drop_first())) by {
                assert forall|u: int| 0 <= u < 2 implies #[trigger] self@.queues[u] =~= s.queues.update(w as int, s.queues[w as int].drop_first())[u] by {}
            }
            let dq = s.queues[w as int].drop_first();
            assert forall|i: int| 0 <= i < dq.len() implies #[trigger] dq[i] < s.cs by {
                assert(dq[i] == s.queues[w as int][i + 1]);
            }
            model::lemma_wf_with_queue(s, w as int, dq);
            assert(self@ =~= (MarsState { queues: s.queues.update(w as int, dq), ..s }));
        }
        Some(v as u32)
    }

    /// One instruction of warrior `w`; false if it has no processes after.
    #[verifier::spinoff_prover]
    pub(crate) fn step(&mut self, w: usize) -> (alive: bool)
        requires
            old(self).wf(),
            w < 2,
        ensures
            ({
                let r = model::step(old(self)@, w as int);
                &&& final(self)@ == r.state
                &&& alive == r.alive
            }),
            final(self).wf(),
            final(self).step_count() == old(self).step_count(),
    {
        let ghost s = self@;
        let pc = match self.pop(w) {
            Some(pc) => pc,
            None => {
                return false;
            },
        };
        let ir = self.cell(pc);
        assert(s.core[pc as int].a < s.cs && s.core[pc as int].b < s.cs);
        let ghost ra_s = model::operand(s.core, s.cs as int, pc as int, ir, ir.a_mode, ir.a);
        let ghost rb_s = model::operand(ra_s.core, s.cs as int, pc as int, ir, ir.b_mode, ir.b);
        let args = self.operands(pc, ir);
        proof {
            lemma_ready(self@, s, w as int, args, ra_s, rb_s);
        }
        self.dispatch(w, args, Ghost(s), Ghost(ra_s), Ghost(rb_s));
        let r = self.len[w] != 0;
        proof {
            lemma_step_parts(s, w as int, args, ra_s, rb_s);
            assert(self@.queues[w as int].len() == self.len@[w as int]);
        }
        r
    }
}

impl Engine {
    #[inline]
    fn add(&self, x: u32, y: u32) -> (r: u32)
        requires
            3 <= self.cs <= 65535,
            x < self.cs,
            y < self.cs,
        ensures
            r as int == model::fold_add(x as int, y as int, self.cs as int),
            r < self.cs,
    {
        let s = x + y;
        if s >= self.cs {
            s - self.cs
        } else {
            s
        }
    }

    #[inline]
    fn dec(&self, x: u32) -> (r: u32)
        requires
            3 <= self.cs <= 65535,
            x < self.cs,
        ensures
            r as int == model::fold_dec(x as int, self.cs as int),
            r < self.cs,
    {
        if x == 0 {
            self.cs - 1
        } else {
            x - 1
        }
    }

    /// Evaluate one operand: the pointer offset, the address of the cell it
    /// points to, that cell's A and B numbers at evaluation time, and the
    /// cell incremented or decremented.
    fn operand(&mut self, pc: u32, ir: Instruction, mode: Mode, field: u32) -> (r: (u32, u32, u32, u32, Option<u32>))
        requires
            old(self).wf(),
            pc < old(self).cs,
            ir.a < old(self).cs,
            ir.b < old(self).cs,
            field < old(self).cs,
        ensures
            ({
                let o = model::operand(old(self)@.core, old(self).cs as int, pc as int, ir, mode, field);
                &&& final(self)@ == (MarsState { core: o.core, ..old(self)@ })
                &&& r.0 as int == o.ptr
                &&& r.1 as int == o.at
                &&& r.2 == o.a
                &&& r.3 == o.b
                &&& match r.4 { Some(p) => o.touched == Some(p as int), None => o.touched is None }
            }),
            final(self).wf(),
            final(self).cs == old(self).cs,
            final(self).pspace_size == old(self).pspace_size,
            final(self).steps == old(self).steps,
    {
        reveal(model::operand);
        proof {
            model::lemma_operand(old(self)@.core, self.cs as int, pc as int, ir, mode, field);
        }
        let ghost cs = self.cs as int;
        match mode {
            Mode::Immediate => {
                return (0, pc, ir.a, ir.b, None);
            },
            Mode::Direct => {
                let at = self.add(pc, field);
                let c = self.cell(at);
                return (field, at, c.a, c.b, None);
            },
            _ => {},
        }
        let p = self.add(pc, field);
        let ghost c0 = self@.core;
        match mode {
            Mode::APredec => {
                let mut c = self.cell(p);
                c.a = self.dec(c.a);
                self.set_cell(p, c);
            },
            Mode::BPredec => {
                let mut c = self.cell(p);
                c.b = self.dec(c.b);
                self.set_cell(p, c);
            },
            _ => {},
        }
        let ghost c1 = self@.core;
        assert(model::cells_ok(c1, self.cs as nat)) by {
            assert forall|i: int| 0 <= i < self.cs implies (#[trigger] c1[i]).a < self.cs && c1[i].b < self.cs by {
                if i == p as int {
                } else {
                    assert(c0[i] == c1[i]);
                }
            }
        }
        let cp = self.cell(p);
        let ind = match mode {
            Mode::AIndirect | Mode::APredec | Mode::APostinc => cp.a,
            _ => cp.b,
        };
        let ptr = self.add(field, ind);
        let at = self.add(pc, ptr);
        let cell = self.cell(at);
        match mode {
            Mode::APostinc => {
                let mut c = self.cell(p);
                c.a = self.add(c.a, 1);
                self.set_cell(p, c);
            },
            Mode::BPostinc => {
                let mut c = self.cell(p);
                c.b = self.add(c.b, 1);
                self.set_cell(p, c);
            },
            _ => {},
        }
        let touched = match mode {
            Mode::AIndirect | Mode::BIndirect => None,
            _ => Some(p),
        };
        assert(self@ =~= MarsState { core: model::operand(old(self)@.core, cs, pc as int, ir, mode, field).core, ..old(self)@ });
        (ptr, at, cell.a, cell.b, touched)
    }

    /// ADD, SUB or MUL of two numbers of the core.
    fn arith(&self, op: Opcode, x: u32, y: u32) -> (r: u32)
        requires
            3 <= self.cs <= 65535,
            x < self.cs,
            y < self.cs,
        ensures
            r as int == model::arith(op, x as int, y as int, self.cs as int),
            r < self.cs,
            op == Opcode::Add ==> model::is_sum(r as int, x as int, y as int, self.cs as int),
            op == Opcode::Sub ==> model::is_difference(r as int, x as int, y as int, self.cs as int),
    {
        proof {
            model::lemma_arith_laws(x as int, y as int, self.cs as int);
        }
        match op {
            Opcode::Add => (x + y) % self.cs,
            Opcode::Sub => (x + self.cs - y) % self.cs,
            _ => {
                assert(x as int * y as int <= 65535 * 65535) by (nonlinear_arith)
                    requires x < 65536, y < 65536;
                ((x as u64 * y as u64) % self.cs as u64) as u32
            },
        }
    }
}

impl Engine {
    /// Evaluate both operands of the instruction `ir` at `pc`.
    fn operands(&mut self, pc: u32, ir: Instruction) -> (r: OpArgs)
        requires
            old(self).wf(),
            pc < old(self).cs,
            ir.a < old(self).cs,
            ir.b < old(self).cs,
        ensures
            ({
                let cs = old(self).cs as int;
                let ra = model::operand(old(self)@.core, cs, pc as int, ir, ir.a_mode, ir.a);
                let rb = model::operand(ra.core, cs, pc as int, ir, ir.b_mode, ir.b);
                &&& final(self)@ == (MarsState { core: rb.core, ..old(self)@ })
                &&& r.pc == pc && r.ir == ir
                &&& r.rpa as int == ra.ptr && r.a_at as int == ra.at && r.aa == ra.a && r.ab == ra.b
                &&& r.wpb as int == rb.ptr && r.ba == rb.a && r.bb == rb.b
            }),
            final(self).wf(),
            final(self).cs == old(self).cs,
            final(self).pspace_size == old(self).pspace_size,
            final(self).steps == old(self).steps,
    {
        let (rpa, a_at, aa, ab, _ta) = self.operand(pc, ir, ir.a_mode, ir.a);
        let (wpb, _b_at, ba, bb, _tb) = self.operand(pc, ir, ir.b_mode, ir.b);
        OpArgs { pc, ir, rpa, a_at, aa, ab, wpb, ba, bb }
    }

    /// Run the opcode of a decoded instruction whose operands are evaluated.
    fn dispatch(&mut self, w: usize, x: OpArgs, Ghost(s): Ghost<MarsState>, Ghost(ra): Ghost<model::Operand>, Ghost(rb): Ghost<model::Operand>)
        requires
            old(self).wf(),
            w < old(self)@.queues.len(),
            op_ready(old(self)@, w as int, x, s, ra, rb),
        ensures
            final(self).wf(),
            op_done(final(self)@, w as int, x, s, ra, rb),
            final(self).steps == old(self).steps,
            final(self).pspace_size == old(self).pspace_size,
    {
        match x.ir.op {
            Opcode::Mov | Opcode::Add | Opcode::Sub | Opcode::Mul | Opcode::Djn | Opcode::Ldp => {
                self.exec_write(w, x, Ghost(s), Ghost(ra), Ghost(rb))
            },
            Opcode::Div | Opcode::Mod => self.exec_div(w, x, Ghost(s), Ghost(ra), Ghost(rb)),
            Opcode::Stp => {
                self.exec_stp(w, x, Ghost(s), Ghost(ra), Ghost(rb));
            },
            _ => {
                self.exec_flow(w, x, Ghost(s), Ghost(ra), Ghost(rb));
            },
        }
    }

    /// Instructions that write the target cell: MOV, ADD, SUB, MUL, DJN, LDP.
    fn exec_write(&mut self, w: usize, x: OpArgs, Ghost(s): Ghost<MarsState>, Ghost(ra): Ghost<model::Operand>, Ghost(rb): Ghost<model::Operand>)
        requires
            old(self).wf(),
            w < old(self)@.queues.len(),
            op_ready(old(self)@, w as int, x, s, ra, rb),
            x.ir.op == Opcode::Mov || x.ir.op == Opcode::Add || x.ir.op == Opcode::Sub || x.ir.op == Opcode::Mul
                || x.ir.op == Opcode::Djn || x.ir.op == Opcode::Ldp,
        ensures
            final(self).wf(),
            op_done(final(self)@, w as int, x, s, ra, rb),
            final(self).steps == old(self).steps,
            final(self).pspace_size == old(self).pspace_size,
    {
        reveal(model::execute);
        let (pc, ir, aa, ab, ba, bb) = (x.pc, x.ir, x.aa, x.ab, x.ba, x.bb);
        let t = self.add(pc, x.wpb);
        let next = self.add(pc, 1);
        let jump = self.add(pc, x.rpa);
        let m = ir.modifier;
        let ct = self.cell(t);
        let mut target = t;
        match ir.op {
            Opcode::Mov => {
                let nc = match m {
                    Modifier::A => Instruction { a: aa, ..ct },
                    Modifier::B => Instruction { b: ab, ..ct },
                    Modifier::AB => Instruction { b: aa, ..ct },
                    Modifier::BA => Instruction { a: ab, ..ct },
                    Modifier::F => Instruction { a: aa, b: ab, ..ct },
                    Modifier::X => Instruction { a: ab, b: aa, ..ct },
                    Modifier::I => {
                        let src = self.cell(x.a_at);
                        Instruction { a: aa, b: ab, ..src }
                    },
                };
                self.set_cell(t, nc);
                target = next;
            },
            Opcode::Add | Opcode::Sub | Opcode::Mul => {
                let op = ir.op;
                let nc = match m {
                    Modifier::A => Instruction { a: self.arith(op, ba, aa), ..ct },
                    Modifier::B => Instruction { b: self.arith(op, bb, ab), ..ct },
                    Modifier::AB => Instruction { b: self.arith(op, bb, aa), ..ct },
                    Modifier::BA => Instruction { a: self.arith(op, ba, ab), ..ct },
                    Modifier::X => Instruction { a: self.arith(op, ba, ab), b: self.arith(op, bb, aa), ..ct },
                    _ => Instruction { a: self.arith(op, ba, aa), b: self.arith(op, bb, ab), ..ct },
                };
                self.set_cell(t, nc);
                target = next;
            },
            Opcode::Djn => {
                let (nc, nz) = match m {
                    Modifier::A | Modifier::BA => {
                        let da = self.dec(ba);
                        (Instruction { a: self.dec(ct.a), ..ct }, da != 0)
                    },
                    Modifier::B | Modifier::AB => {
                        let db = self.dec(bb);
                        (Instruction { b: self.dec(ct.b), ..ct }, db != 0)
                    },
                    _ => {
                        let da = self.dec(ba);
                        let db = self.dec(bb);
                        (Instruction { a: self.dec(ct.a), b: self.dec(ct.b), ..ct }, da != 0 || db != 0)
                    },
                };
                self.set_cell(t, nc);
                target = if nz { jump } else { next };
            },
            _ => {
                let v = match m {
                    Modifier::A | Modifier::AB => self.get_pspace(w, aa),
                    _ => self.get_pspace(w, ab),
                };
                let nc = match m {
                    Modifier::A | Modifier::BA => Instruction { a: v, ..ct },
                    _ => Instruction { b: v, ..ct },
                };
                self.set_cell(t, nc);
                target = next;
            },
        }
        let ghost mid = self@;
        assert(model::wf(mid)) by {
            let ex = model::execute(s, w as int, rb.core, pc as int, ir, ra, rb);
            assert(mid.core =~= ex.0.core);
            assert(model::cells_ok(ex.0.core, s.cs));
        }
        self.push(w, target);
        let ghost ex = model::execute(s, w as int, rb.core, pc as int, ir, ra, rb);
        assert(ex.1 =~= seq![target]);
        assert(self@.queues[w as int] =~= s.queues[w as int].drop_first() + ex.1);
        assert(self@.queues =~= s.queues.update(w as int, s.queues[w as int].drop_first() + ex.1));
        assert(self@ =~= (MarsState { queues: s.queues.update(w as int, s.queues[w as int].drop_first() + ex.1), ..ex.0 }));
    }

    /// DIV and MOD.
    fn exec_div(&mut self, w: usize, x: OpArgs, Ghost(s): Ghost<MarsState>, Ghost(ra): Ghost<model::Operand>, Ghost(rb): Ghost<model::Operand>)
        requires
            old(self).wf(),
            w < old(self)@.queues.len(),
            op_ready(old(self)@, w as int, x, s, ra, rb),
            x.ir.op == Opcode::Div || x.ir.op == Opcode::Mod,
        ensures
            final(self).wf(),
            op_done(final(self)@, w as int, x, s, ra, rb),
            final(self).steps == old(self).steps,
            final(self).pspace_size == old(self).pspace_size,
    {
        reveal(model::execute);
        let (pc, ir, aa, ab, ba, bb) = (x.pc, x.ir, x.aa, x.ab, x.ba, x.bb);
        let t = self.add(pc, x.wpb);
        let next = self.add(pc, 1);
        let m = ir.modifier;
        let op = ir.op;
        let ct = self.cell(t);
        let (xa, xb) = match m {
            Modifier::A => (divide(op, ba, aa), Some(ct.b)),
            Modifier::B => (Some(ct.a), divide(op, bb, ab)),
            Modifier::AB => (Some(ct.a), divide(op, bb, aa)),
            Modifier::BA => (divide(op, ba, ab), Some(ct.b)),
            Modifier::X => (divide(op, ba, ab), divide(op, bb, aa)),
            _ => (divide(op, ba, aa), divide(op, bb, ab)),
        };
        let na = match xa {
            Some(v) => v,
            None => ct.a,
        };
        let nb = match xb {
            Some(v) => v,
            None => ct.b,
        };
        self.set_cell(t, Instruction { a: na, b: nb, ..ct });
        let ghost ex = model::execute(s, w as int, rb.core, pc as int, ir, ra, rb);
        assert(self@.core =~= ex.0.core);
        if xa.is_some() && xb.is_some() {
            self.push(w, next);
            assert(ex.1 =~= seq![next]);
        } else {
            assert(ex.1 =~= Seq::<u32>::empty());
        }
        assert(self@.queues[w as int] =~= s.queues[w as int].drop_first() + ex.1);
        assert(self@.queues =~= s.queues.update(w as int, s.queues[w as int].drop_first() + ex.1));
        assert(self@ =~= (MarsState { queues: s.queues.update(w as int, s.queues[w as int].drop_first() + ex.1), ..ex.0 }));
    }

    /// STP.
    fn exec_stp(&mut self, w: usize, x: OpArgs, Ghost(s): Ghost<MarsState>, Ghost(ra): Ghost<model::Operand>, Ghost(rb): Ghost<model::Operand>)
        requires
            old(self).wf(),
            w < old(self)@.queues.len(),
            op_ready(old(self)@, w as int, x, s, ra, rb),
            x.ir.op == Opcode::Stp,
        ensures
            final(self).wf(),
            op_done(final(self)@, w as int, x, s, ra, rb),
            model::execute(s, w as int, rb.core, x.pc as int, x.ir, ra, rb).2 == Seq::<int>::empty(),
            final(self).steps == old(self).steps,
            final(self).pspace_size == old(self).pspace_size,
    {
        reveal(model::execute);
        let (pc, ir, aa, ab, ba, bb) = (x.pc, x.ir, x.aa, x.ab, x.ba, x.bb);
        let next = self.add(pc, 1);
        match ir.modifier {
            Modifier::A => self.set_pspace(w, ba, aa),
            Modifier::AB => self.set_pspace(w, bb, aa),
            Modifier::BA => self.set_pspace(w, ba, ab),
            _ => self.set_pspace(w, bb, ab),
        }
        let ghost ex = model::execute(s, w as int, rb.core, pc as int, ir, ra, rb);
        assert(self@.pspace =~= ex.0.pspace);
        assert(self@.last_result =~= ex.0.last_result);
        self.push(w, next);
        assert(self@.queues[w as int] =~= s.queues[w as int].drop_first() + ex.1);
        assert(self@.queues =~= s.queues.update(w as int, s.queues[w as int].drop_first() + ex.1));
        assert(self@ =~= (MarsState { queues: s.queues.update(w as int, s.queues[w as int].drop_first() + ex.1), ..ex.0 }));
    }

    /// Instructions that only decide what to queue.
    fn exec_flow(&mut self, w: usize, x: OpArgs, Ghost(s): Ghost<MarsState>, Ghost(ra): Ghost<model::Operand>, Ghost(rb): Ghost<model::Operand>)
        requires
            old(self).wf(),
            w < old(self)@.queues.len(),
            op_ready(old(self)@, w as int, x, s, ra, rb),
            x.ir.op == Opcode::Dat || x.ir.op == Opcode::Nop || x.ir.op == Opcode::Jmp || x.ir.op == Opcode::Jmz
                || x.ir.op == Opcode::Jmn || x.ir.op == Opcode::Spl || x.ir.op == Opcode::Slt || x.ir.op == Opcode::Cmp
                || x.ir.op == Opcode::SeqOp || x.ir.op == Opcode::Sne,
        ensures
            final(self).wf(),
            op_done(final(self)@, w as int, x, s, ra, rb),
            model::execute(s, w as int, rb.core, x.pc as int, x.ir, ra, rb).2 == Seq::<int>::empty(),
            final(self).steps == old(self).steps,
            final(self).pspace_size == old(self).pspace_size,
    {
        reveal(model::execute);
        let (pc, ir, aa, ab, ba, bb) = (x.pc, x.ir, x.aa, x.ab, x.ba, x.bb);
        let t = self.add(pc, x.wpb);
        let next = self.add(pc, 1);
        let jump = self.add(pc, x.rpa);
        let skip = self.add(pc, 2);
        let m = ir.modifier;
        let ghost ex = model::execute(s, w as int, rb.core, pc as int, ir, ra, rb);
        match ir.op {
            Opcode::Dat => {
                assert(ex.1 =~= Seq::<u32>::empty());
            },
            Opcode::Nop => {
                self.push(w, next);
                assert(ex.1 =~= seq![next]);
            },
            Opcode::Jmp => {
                self.push(w, jump);
                assert(ex.1 =~= seq![jump]);
            },
            Opcode::Jmz => {
                let z = match m {
                    Modifier::A | Modifier::BA => ba == 0,
                    Modifier::B | Modifier::AB => bb == 0,
                    _ => ba == 0 && bb == 0,
                };
                let to = if z { jump } else { next };
                self.push(w, to);
                assert(ex.1 =~= seq![to]);
            },
            Opcode::Jmn => {
                let nz = match m {
                    Modifier::A | Modifier::BA => ba != 0,
                    Modifier::B | Modifier::AB => bb != 0,
                    _ => ba != 0 || bb != 0,
                };
                let to = if nz { jump } else { next };
                self.push(w, to);
                assert(ex.1 =~= seq![to]);
            },
            Opcode::Spl => {
                self.push(w, next);
                if self.queue_len(w) < self.max_processes {
                    self.push(w, jump);
                    assert(ex.1 =~= seq![next, jump]);
                } else {
                    assert(ex.1 =~= seq![next]);
                }
            },
            Opcode::Slt => {
                let lt = match m {
                    Modifier::A => aa < ba,
                    Modifier::B => ab < bb,
                    Modifier::AB => aa < bb,
                    Modifier::BA => ab < ba,
                    Modifier::X => aa < bb && ab < ba,
                    _ => aa < ba && ab < bb,
                };
                let to = if lt { skip } else { next };
                self.push(w, to);
                assert(ex.1 =~= seq![to]);
            },
            _ => {
                let xc = self.cell(x.a_at);
                let ct = self.cell(t);
                let eq = match m {
                    Modifier::A => aa == ba,
                    Modifier::B => ab == bb,
                    Modifier::AB => aa == bb,
                    Modifier::BA => ab == ba,
                    Modifier::F => aa == ba && ab == bb,
                    Modifier::X => aa == bb && ab == ba,
                    Modifier::I => xc.op == ct.op && xc.modifier == ct.modifier && xc.a_mode == ct.a_mode
                        && xc.b_mode == ct.b_mode && aa == ba && ab == bb,
                };
                let take = match ir.op {
                    Opcode::Sne => !eq,
                    _ => eq,
                };
                let to = if take { skip } else { next };
                self.push(w, to);
                assert(ex.1 =~= seq![to]);
            },
        }
        assert(self@.queues[w as int] =~= s.queues[w as int].drop_first() + ex.1);
        assert(self@.queues =~= s.queues.update(w as int, s.queues[w as int].drop_first() + ex.1));
        assert(self@ =~= (MarsState { queues: s.queues.update(w as int, s.queues[w as int].drop_first() + ex.1), ..ex.0 }));
    }
}

/// The code of each prepared warrior, as instructions.
pub open spec fn compiled_codes(ws: Seq<&Compiled>) -> Seq<Seq<Instruction>> {
    ws.map_values(|c: &Compiled| compiled_code(*c))
}

/// The start of each prepared warrior.
pub open spec fn compiled_starts(ws: Seq<&Compiled>) -> Seq<u32> {
    ws.map_values(|c: &Compiled| c.start as u32)
}

/// The PIN of each prepared warrior.
pub open spec fn compiled_pins(ws: Seq<&Compiled>) -> Seq<Option<i64>> {
    ws.map_values(|c: &Compiled| c.pin)
}

impl Engine {
    /// Put an encoded cell whose numbers are in the core into cell `i`.
    fn put_cell(&mut self, i: u32, c: Cell)
        requires
            old(self).wf(),
            i < old(self).cs,
            cell_ok(c),
            c.a < old(self).cs,
            c.b < old(self).cs,
        ensures
            final(self)@ == (MarsState { core: old(self)@.core.update(i as int, spec_decode(c)), ..old(self)@ }),
            final(self).wf(),
            final(self).cs == old(self).cs,
            final(self).max_processes == old(self).max_processes,
            final(self).pspace_size == old(self).pspace_size,
            final(self).steps == old(self).steps,
    {
        let ghost before = self@;
        self.core.set(i as usize, c);
        proof {
            assert(self@.core =~= before.core.update(i as int, spec_decode(c)));
            model::lemma_cells_update(before.core, before.cs, i as int, spec_decode(c));
            model::lemma_wf_with_core(before, self@.core);
            assert(self@ =~= (MarsState { core: before.core.update(i as int, spec_decode(c)), ..before }));
        }
    }

    /// Load a round: the core cleared, the warriors placed, one process
    /// each at its start.
    pub(crate) fn start_round(&mut self, w: [&Compiled; 2], pos: [u32; 2])
        requires
            old(self).wf(),
            compiled_loadable(*w@[0], old(self)@.cs),
            compiled_loadable(*w@[1], old(self)@.cs),
            pos@[0] < old(self)@.cs,
            pos@[1] < old(self)@.cs,
        ensures
            final(self)@ == model::loaded(old(self)@, compiled_codes(w@), compiled_starts(w@), pos@),
            final(self).wf(),
            final(self).step_count() == old(self).step_count(),
    {
        let ghost s = self@;
        let ghost codes = compiled_codes(w@);
        proof {
            lemma_cell_roundtrip(crate::redcode::empty_cell(), zero_cell());
        }
        let n = self.core.len();
        let mut i: usize = 0;
        while i < n
            invariant
                self.wf(),
                self@ == (MarsState { core: self@.core, ..s }),
                self.steps == old(self).steps,
                n == self.core@.len(),
                n == s.cs,
                self.cs == s.cs,
                i <= n,
                spec_decode(zero_cell()) == crate::redcode::empty_cell(),
                forall|k: int| 0 <= k < i ==> #[trigger] self@.core[k] == crate::redcode::empty_cell(),
            decreases n - i,
        {
            self.put_cell(i as u32, Cell::zero());
            i += 1;
        }
        assert(self@.core =~= model::empty_core(s.cs));
        let mut k: usize = 0;
        while k < 2
            invariant
                self.wf(),
                self@ == (MarsState { core: self@.core, ..s }),
                self.steps == old(self).steps,
                self.cs == s.cs,
                k <= 2,
                codes == compiled_codes(w@),
                compiled_loadable(*w@[0], s.cs),
                compiled_loadable(*w@[1], s.cs),
                pos@[0] < s.cs,
                pos@[1] < s.cs,
                self@.core == model::load_core(s.cs, codes, pos@, k as nat),
            decreases 2 - k,
        {
            let war = w[k];
            let p = pos[k];
            let ghost base = self@.core;
            assert(codes[k as int] == compiled_code(*war));
            assert(compiled_loadable(*war, s.cs));
            let mut at: u32 = p;
            let mut j: usize = 0;
            proof {
                vstd::arithmetic::div_mod::lemma_small_mod(p as nat, s.cs as nat);
            }
            while j < war.code.len()
                invariant
                    self.wf(),
                    self@ == (MarsState { core: self@.core, ..s }),
                    self.steps == old(self).steps,
                    self.cs == s.cs,
                    j <= war.code@.len(),
                    p < s.cs,
                    compiled_loadable(*war, s.cs),
                    at as int == (p + j) % (s.cs as int),
                    self@.core == model::place(base, compiled_code(*war).take(j as int), p as int, s.cs as int),
                decreases war.code@.len() - j,
            {
                proof {
                    assert(compiled_code(*war).take(j + 1).drop_last() =~= compiled_code(*war).take(j as int));
                    model::lemma_mod_succ(p + j, s.cs as int);
                }
                self.put_cell(at, war.code[j]);
                at = if at + 1 == self.cs { 0 } else { at + 1 };
                j += 1;
            }
            assert(compiled_code(*war).take(war.code@.len() as int) =~= compiled_code(*war));
            k += 1;
        }
        assert(codes.len() == 2);
        assert(s.queues.len() == 2);
        let ghost loaded_core = self@.core;
        let mut k: usize = 0;
        while k < 2
            invariant
                self.wf(),
                self@.core == loaded_core,
                self.steps == old(self).steps,
                self.cs == s.cs,
                k <= 2,
                compiled_loadable(*w@[0], s.cs),
                compiled_loadable(*w@[1], s.cs),
                pos@[0] < s.cs,
                pos@[1] < s.cs,
                self@ == (MarsState { queues: self@.queues, core: loaded_core, ..s }),
                forall|u: int| 0 <= u < k ==> #[trigger] self@.queues[u] == model::loaded(s, codes, compiled_starts(w@), pos@).queues[u],
                codes == compiled_codes(w@),
                s.queues.len() == 2,
            decreases 2 - k,
        {
            let ghost before = self@;
            assert(compiled_loadable(*w@[k as int], s.cs));
            let start = pos[k] + w[k].start as u32;
            let start = if start >= self.cs { start - self.cs } else { start };
            let mut q: Vec<u16> = Vec::new();
            self.qbuf.set_and_swap(k, &mut q);
            q.set(0, start as u16);
            self.qbuf.set_and_swap(k, &mut q);
            self.head.set(k, 0);
            self.len.set(k, 1);
            proof {
                let nq = seq![start];
                assert(self@.queues =~= before.queues.update(k as int, nq)) by {
                    assert forall|u: int| 0 <= u < 2 implies #[trigger] self@.queues[u] =~= before.queues.update(k as int, nq)[u] by {
                        if u != k as int {
                        }
                    }
                }
                model::lemma_wf_with_queue(before, k as int, nq);
                assert(self@ =~= (MarsState { queues: before.queues.update(k as int, nq), ..before }));
                assert(compiled_starts(w@)[k as int] == w@[k as int].start as u32);
                assert(s.queues.len() == 2);
                assert(codes.len() == 2);
                assert(start as int == model::fold_add(pos@[k as int] as int, compiled_starts(w@)[k as int] as int, s.cs as int));
                assert(self@.queues[k as int] =~= seq![start]);
                assert(self@.queues[k as int] =~= model::loaded(s, codes, compiled_starts(w@), pos@).queues[k as int]);
            }
            k += 1;
        }
        proof {
            let l = model::loaded(s, codes, compiled_starts(w@), pos@);
            assert(self@.queues =~= l.queues);
            assert(self@ =~= l);
        }
    }

    /// Play until one warrior has no processes or `budget` instructions have
    /// run, `first` moving first; the outcome and the number of
    /// instructions executed.
    pub(crate) fn run(&mut self, budget: u64, first: usize) -> (r: (Outcome, u64))
        requires
            old(self).wf(),
            first < 2,
            old(self)@.queues[0].len() > 0,
            old(self)@.queues[1].len() > 0,
        ensures
            model::run(old(self)@, budget as nat, first as int) == (final(self)@, r.0, r.1 as nat),
            r.0 matches Outcome::Win(x) ==> x < 2,
            final(self).wf(),
            final(self).step_count() == old(self).step_count(),
            final(self)@.cs == old(self)@.cs,
    {
        let ghost total = model::run(self@, budget as nat, first as int);
        let mut left: u64 = budget;
        let mut w: usize = first;
        let mut executed: u64 = 0;
        let mut outcome = Outcome::Tie;
        loop
            invariant_except_break
                self.wf(),
                w < 2,
                self@.queues[0].len() > 0,
                self@.queues[1].len() > 0,
                executed + left == budget,
                model::run(self@, left as nat, w as int).0 == total.0,
                model::run(self@, left as nat, w as int).1 == total.1,
                model::run(self@, left as nat, w as int).2 + executed == total.2,
                self.step_count() == old(self).step_count(),
                self@.cs == old(self)@.cs,
            ensures
                self.wf(),
                self@.cs == old(self)@.cs,
                self@ == total.0,
                outcome == total.1,
                executed == total.2,
                outcome matches Outcome::Win(x) ==> x < 2,
                self.step_count() == old(self).step_count(),
            decreases left,
        {
            if left == 0 {
                outcome = Outcome::Tie;
                break;
            }
            let ghost before = self@;
            proof {
                model::lemma_step(before, w as int);
            }
            let alive = self.step(w);
            executed = executed + 1;
            if !alive {
                outcome = Outcome::Win(1 - w);
                break;
            }
            w = 1 - w;
            left = left - 1;
        }
        (outcome, executed)
    }

    /// Record a round's result for P-space cell 0 of the next round, and
    /// count its instructions.
    pub(crate) fn finish_round(&mut self, outcome: Outcome, executed: u64)
        requires
            old(self).wf(),
            outcome matches Outcome::Win(x) ==> x < 2,
        ensures
            final(self)@ == model::record_result(old(self)@, outcome),
            final(self).wf(),
            final(self).step_count() == model::plus_steps(old(self).step_count(), executed as nat),
    {
        self.steps = if executed <= u64::MAX - self.steps { self.steps + executed } else { u64::MAX };
        match outcome {
            Outcome::Win(x) => {
                self.last_result.set(x, 1);
                self.last_result.set(1 - x, 0);
            },
            Outcome::Tie => {
                self.last_result.set(0, 2);
                self.last_result.set(1, 2);
            },
        }
        proof {
            let rr = model::record_result(old(self)@, outcome);
            assert(self@.last_result =~= rr.last_result);
            assert(self@ =~= rr);
        }
    }

    /// One round of a match: P-space carries over, cell 0 gets the result.
    pub fn round(&mut self, cfg: &Config, w: [&Compiled; 2], pos: [u32; 2], first: usize) -> (o: Outcome)
        requires
            old(self).wf(),
            first < 2,
            compiled_loadable(*w@[0], old(self)@.cs),
            compiled_loadable(*w@[1], old(self)@.cs),
            pos@[0] < old(self)@.cs,
            pos@[1] < old(self)@.cs,
        ensures
            ({
                let (s, out, n) = model::round(old(self)@, compiled_codes(w@), compiled_starts(w@), pos@, first as int, cfg.max_cycles as nat);
                &&& final(self)@ == s
                &&& o == out
                &&& final(self).step_count() == model::plus_steps(old(self).step_count(), n)
            }),
            final(self).wf(),
            final(self)@.cs == old(self)@.cs,
    {
        self.start_round(w, pos);
        let (outcome, executed) = self.run(cfg.max_cycles as u64 * 2, first);
        self.finish_round(outcome, executed);
        outcome
    }

    /// Fresh P-space for a match of `a` against `b`: one bank shared if
    /// they have the same PIN.
    pub fn begin_match(&mut self, a: &Compiled, b: &Compiled)
        requires
            old(self).wf(),
        ensures
            final(self)@ == model::fresh_pspace(old(self)@, seq![a.pin, b.pin]),
            final(self).wf(),
            final(self).step_count() == old(self).step_count(),
    {
        let ghost pins = seq![a.pin, b.pin];
        let shared = pins_match(a.pin, b.pin);
        proof {
            assert(model::first_sharer(pins, 0, 0) == 0);
            assert(model::banks_opened(pins, 0) == 0);
            assert(model::banks_opened(pins, 1) == 1);
            assert(model::bank_of(pins, 0) == 0);
            if shared {
                assert(model::same_pin(pins, 0, 1));
                assert(model::first_sharer(pins, 1, 0) == 0);
            } else {
                assert(!model::same_pin(pins, 0, 1));
                assert(model::first_sharer(pins, 1, 1) == 1);
                assert(model::first_sharer(pins, 1, 0) == 1);
            }
            assert(model::banks_opened(pins, 2) == if shared { 1nat } else { 2nat });
            assert(model::bank_of(pins, 1) == if shared { 0nat } else { 1nat });
        }
        let nb: usize = if shared { 1 } else { 2 };
        let mut bank: Vec<usize> = Vec::new();
        bank.push(0);
        bank.push(if shared { 0 } else { 1 });
        let mut pspace: Vec<Vec<u16>> = Vec::new();
        let mut k: usize = 0;
        while k < nb
            invariant
                k <= nb,
                pspace@.len() == k,
                forall|x: int| 0 <= x < k ==> (#[trigger] pspace@[x])@ == Seq::new(self.pspace_size as nat, |y: int| 0u16),
            decreases nb - k,
        {
            let z: Vec<u16> = vec![0u16; self.pspace_size as usize];
            assert(z@ =~= Seq::new(self.pspace_size as nat, |y: int| 0u16));
            pspace.push(z);
            k += 1;
        }
        let c = (self.cs - 1) as u16;
        let mut last: Vec<u16> = Vec::new();
        last.push(c);
        last.push(c);
        self.bank = bank;
        self.pspace = pspace;
        self.last_result = last;
        proof {
            let f = model::fresh_pspace(old(self)@, pins);
            assert(self@.bank =~= f.bank);
            assert(self@.pspace =~= f.pspace) by {
                assert forall|x: int| 0 <= x < nb implies #[trigger] self@.pspace[x] =~= f.pspace[x] by {}
            }
            assert(self@.last_result =~= f.last_result);
            assert(self@ =~= f);
        }
    }

    /// One battle as a match of one round: fresh P-space.
    pub fn battle(&mut self, cfg: &Config, w: [&Compiled; 2], pos: [u32; 2], first: usize) -> (o: Outcome)
        requires
            old(self).wf(),
            first < 2,
            compiled_loadable(*w@[0], old(self)@.cs),
            compiled_loadable(*w@[1], old(self)@.cs),
            pos@[0] < old(self)@.cs,
            pos@[1] < old(self)@.cs,
        ensures
            ({
                let (s, out, n) = model::round(
                    model::fresh_pspace(old(self)@, compiled_pins(w@)),
                    compiled_codes(w@),
                    compiled_starts(w@),
                    pos@,
                    first as int,
                    cfg.max_cycles as nat,
                );
                &&& final(self)@ == s
                &&& o == out
                &&& final(self).step_count() == model::plus_steps(old(self).step_count(), n)
            }),
            final(self).wf(),
    {
        self.begin_match(w[0], w[1]);
        assert(compiled_pins(w@) =~= seq![w@[0].pin, w@[1].pin]);
        self.round(cfg, w, pos, first)
    }

    /// A match like `pmars -r rounds -F seed+distance` (see `Mars::play`).
    pub fn play(&mut self, cfg: &Config, a: &Compiled, b: &Compiled, rounds: u32, seed: i32) -> (r: Score)
        requires
            old(self).wf(),
            match_config(*cfg),
            old(self)@.cs == cfg.core_size,
            compiled_loadable(*a, old(self)@.cs),
            compiled_loadable(*b, old(self)@.cs),
        ensures
            r.w1 + r.w2 + r.ties == rounds,
            ({
                let ws = seq![a, b];
                let m = model::play_rounds(
                    model::fresh_pspace(old(self)@, compiled_pins(ws)),
                    compiled_codes(ws),
                    compiled_starts(ws),
                    cfg.core_size,
                    cfg.min_distance,
                    cfg.max_cycles as nat,
                    0,
                    rounds as nat,
                    seed,
                    zero_score(),
                );
                &&& r == m.0
                &&& final(self)@ == m.1
                &&& final(self).step_count() == model::plus_steps(old(self).step_count(), m.2)
            }),
            old(self)@.max_processes == cfg.max_processes
                ==> final(self).step_count() == model::plus_steps(old(self).step_count(), match_steps(*cfg, compiled_codes(seq![a, b]), compiled_starts(seq![a, b]), compiled_pins(seq![a, b]), rounds as nat, seed)),
            old(self)@.max_processes == cfg.max_processes
                ==> r == match_result(*cfg, compiled_codes(seq![a, b]), compiled_starts(seq![a, b]), compiled_pins(seq![a, b]), rounds as nat, seed),
            final(self).wf(),
    {
        let ghost ws = seq![a, b];
        proof {
            lemma_pspace_size_positive(cfg.core_size as nat);
            if old(self)@.max_processes == cfg.max_processes {
                lemma_match_depends_on_rules(
                    old(self)@,
                    initial_state(*cfg, 2),
                    compiled_pins(ws),
                    compiled_codes(ws),
                    compiled_starts(ws),
                    cfg.core_size,
                    cfg.min_distance,
                    cfg.max_cycles as nat,
                    rounds as nat,
                    seed,
                );
            }
        }
        let sep = cfg.min_distance;
        let positions = cfg.core_size + 1 - 2 * sep;
        let mut seed = seed;
        let mut score = Score::default();
        self.begin_match(a, b);
        assert(compiled_pins(ws) =~= seq![a.pin, b.pin]);
        let pair: [&Compiled; 2] = [a, b];
        assert(pair@ =~= ws);
        let ghost total = model::play_rounds(
            self@,
            compiled_codes(ws),
            compiled_starts(ws),
            cfg.core_size,
            cfg.min_distance,
            cfg.max_cycles as nat,
            0,
            rounds as nat,
            seed,
            score,
        );
        let mut r: u32 = 0;
        while r < rounds
            invariant
                self.wf(),
                self@.cs == cfg.core_size,
                match_config(*cfg),
                positions == cfg.core_size + 1 - 2 * cfg.min_distance,
                sep == cfg.min_distance,
                r <= rounds,
                pair@ == ws,
                ws == seq![a, b],
                compiled_loadable(*a, self@.cs),
                compiled_loadable(*b, self@.cs),
                score.w1 + score.w2 + score.ties == r,
                model::play_rounds(self@, compiled_codes(ws), compiled_starts(ws), cfg.core_size, cfg.min_distance, cfg.max_cycles as nat, r as nat, rounds as nat, seed, score).0 == total.0,
                model::play_rounds(self@, compiled_codes(ws), compiled_starts(ws), cfg.core_size, cfg.min_distance, cfg.max_cycles as nat, r as nat, rounds as nat, seed, score).1 == total.1,
                model::plus_steps(self.step_count(), model::play_rounds(self@, compiled_codes(ws), compiled_starts(ws), cfg.core_size, cfg.min_distance, cfg.max_cycles as nat, r as nat, rounds as nat, seed, score).2)
                    == model::plus_steps(old(self).step_count(), total.2),
            decreases rounds - r,
        {
            let ghost before = self@;
            let ghost sc = self.step_count();
            let m = seed.checked_rem_euclid(positions as i32).unwrap();
            let pos = sep + m as u32;
            assert(pos == model::spec_position(seed, cfg.core_size, cfg.min_distance));
            seed = pmars_rng(seed);
            let o = self.round(cfg, pair, [0, pos], (r % 2) as usize);
            match o {
                Outcome::Win(0) => score.w1 = score.w1 + 1,
                Outcome::Win(_) => score.w2 = score.w2 + 1,
                Outcome::Tie => score.ties = score.ties + 1,
            }
            proof {
                let n = model::round(before, compiled_codes(ws), compiled_starts(ws), seq![0u32, pos], (r % 2) as int, cfg.max_cycles as nat).2;
                model::lemma_plus_steps(
                    sc,
                    n,
                    model::play_rounds(self@, compiled_codes(ws), compiled_starts(ws), cfg.core_size, cfg.min_distance, cfg.max_cycles as nat, (r + 1) as nat, rounds as nat, seed, score).2,
                );
            }
            r += 1;
        }
        proof {
            model::lemma_plus_steps(self.step_count(), 0, 0);
        }
        score
    }
}

/// The fast engine plays a match of the prepared warriors to the score the
/// plain engine plays the warriors to, under the same configuration.
pub proof fn lemma_engines_agree(
    cfg: Config,
    a: Warrior,
    b: Warrior,
    ca: Compiled,
    cb: Compiled,
    rounds: nat,
    seed: i32,
)
    requires
        match_config(cfg),
        crate::mars::warrior_loadable(a, cfg.core_size as nat),
        crate::mars::warrior_loadable(b, cfg.core_size as nat),
        ca.code@ == a.code@.map_values(|i: Instruction| spec_encode(i)),
        ca.start == a.start as u16,
        ca.pin == a.pin,
        cb.code@ == b.code@.map_values(|i: Instruction| spec_encode(i)),
        cb.start == b.start as u16,
        cb.pin == b.pin,
    ensures
        match_result(cfg, compiled_codes(seq![&ca, &cb]), compiled_starts(seq![&ca, &cb]), compiled_pins(seq![&ca, &cb]), rounds, seed)
            == match_result(cfg, codes_of(seq![&a, &b]), starts_of(seq![&a, &b]), pins_of(seq![&a, &b]), rounds, seed),
{
    lemma_compiled_is_the_warrior(a, ca, cfg.core_size as nat);
    lemma_compiled_is_the_warrior(b, cb, cfg.core_size as nat);
    assert(compiled_codes(seq![&ca, &cb]) =~= codes_of(seq![&a, &b]));
    assert(compiled_starts(seq![&ca, &cb]) =~= starts_of(seq![&a, &b]));
    assert(compiled_pins(seq![&ca, &cb]) =~= pins_of(seq![&a, &b]));
}

} // verus!
