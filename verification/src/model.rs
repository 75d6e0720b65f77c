//! The meaning of a battle, stated once for both engines: the state of a
//! MARS (core, process queues, P-space), one instruction of one warrior,
//! a round played to its end, and a match of several rounds.
//!
//! This follows pMARS where pMARS and the ICWS'94 draft disagree:
//! * an immediate operand's numbers are those of the instruction as
//!   fetched, before the other operand's increments touched it;
//! * MOV.I copies the cell the A operand points to as it is at execution
//!   (opcode, modifier, modes) and then puts the A snapshot's numbers in it;
//! * SEQ.I / SNE.I / CMP.I compare opcode, modifier and modes of the two
//!   cells as they are at execution, and the numbers from the snapshots.
use crate::mars::{Outcome, Score};
use crate::redcode::{empty_cell, Instruction, Mode, Modifier, Opcode};
use vstd::prelude::*;

verus! {

/// The state of a MARS, as both engines see it.
pub struct MarsState {
    pub cs: nat,
    pub max_processes: nat,
    pub core: Seq<Instruction>,
    /// Process queue of each warrior, next to run first.
    pub queues: Seq<Seq<u32>>,
    /// P-space banks.
    pub pspace: Seq<Seq<u32>>,
    /// The bank each warrior uses.
    pub bank: Seq<nat>,
    /// P-space cell 0 of each warrior: the result of its previous round.
    pub last_result: Seq<u32>,
    pub pspace_size: nat,
}

/// `x + y` folded once into the core.
pub open spec fn fold_add(x: int, y: int, cs: int) -> int {
    if x + y >= cs { x + y - cs } else { x + y }
}

pub open spec fn fold_dec(x: int, cs: int) -> int {
    if x == 0 { cs - 1 } else { x - 1 }
}

/// Every number of the core's cells is inside the core.
pub open spec fn cells_ok(c: Seq<Instruction>, cs: nat) -> bool {
    forall|i: int| 0 <= i < cs ==> (#[trigger] c[i]).a < cs && c[i].b < cs
}

/// A well-formed state: sizes agree, numbers are inside the core,
/// addresses in the queues are cells, no queue is over the limit.
pub open spec fn wf(s: MarsState) -> bool {
    &&& 3 <= s.cs <= 65535
    &&& s.max_processes >= 1
    &&& s.core.len() == s.cs
    &&& cells_ok(s.core, s.cs)
    &&& s.bank.len() == s.queues.len()
    &&& s.last_result.len() == s.queues.len()
    &&& forall|w: int, i: int|
        0 <= w < s.queues.len() && 0 <= i < s.queues[w].len() ==> #[trigger] s.queues[w][i] < s.cs
    &&& forall|w: int| 0 <= w < s.queues.len() ==> #[trigger] s.queues[w].len() <= s.max_processes
    &&& forall|w: int| 0 <= w < s.queues.len() ==> #[trigger] s.bank[w] < s.pspace.len()
    &&& forall|w: int| 0 <= w < s.queues.len() ==> #[trigger] s.last_result[w] < s.cs
    &&& s.pspace_size >= 1
    &&& forall|k: int| 0 <= k < s.pspace.len() ==> #[trigger] s.pspace[k].len() == s.pspace_size
    &&& forall|k: int, i: int|
        0 <= k < s.pspace.len() && 0 <= i < s.pspace_size ==> #[trigger] s.pspace[k][i] < s.cs
}

/// The A field replaced.
pub open spec fn with_a(c: Instruction, a: u32) -> Instruction {
    Instruction { a, ..c }
}

/// The B field replaced.
pub open spec fn with_b(c: Instruction, b: u32) -> Instruction {
    Instruction { b, ..c }
}

pub open spec fn via_a(mode: Mode) -> bool {
    mode == Mode::AIndirect || mode == Mode::APredec || mode == Mode::APostinc
}

/// What evaluating one operand gives: the core after its increments, the
/// pointer offset, the address it points to, and the A and B numbers of
/// that cell when it was read.
pub struct Operand {
    pub core: Seq<Instruction>,
    pub ptr: int,
    pub at: int,
    pub a: u32,
    pub b: u32,
    /// The cell an increment or decrement wrote, if any.
    pub touched: Option<int>,
}

/// One operand: predecrement, read the pointed-to cell, postincrement.
#[verifier::opaque]
pub open spec fn operand(
    core: Seq<Instruction>,
    cs: int,
    pc: int,
    ir: Instruction,
    mode: Mode,
    field: u32,
) -> Operand {
    if mode == Mode::Immediate {
        Operand { core, ptr: 0, at: pc, a: ir.a, b: ir.b, touched: None }
    } else if mode == Mode::Direct {
        let at = fold_add(pc, field as int, cs);
        Operand { core, ptr: field as int, at, a: core[at].a, b: core[at].b, touched: None }
    } else {
        let p = fold_add(pc, field as int, cs);
        let c1 = if mode == Mode::APredec {
            core.update(p, with_a(core[p], fold_dec(core[p].a as int, cs) as u32))
        } else if mode == Mode::BPredec {
            core.update(p, with_b(core[p], fold_dec(core[p].b as int, cs) as u32))
        } else {
            core
        };
        let ind = if via_a(mode) { c1[p].a } else { c1[p].b };
        let ptr = fold_add(field as int, ind as int, cs);
        let at = fold_add(pc, ptr, cs);
        let cell = c1[at];
        let c2 = if mode == Mode::APostinc {
            c1.update(p, with_a(c1[p], fold_add(c1[p].a as int, 1, cs) as u32))
        } else if mode == Mode::BPostinc {
            c1.update(p, with_b(c1[p], fold_add(c1[p].b as int, 1, cs) as u32))
        } else {
            c1
        };
        let touched = if mode == Mode::AIndirect || mode == Mode::BIndirect { None } else { Some(p) };
        Operand { core: c2, ptr, at, a: cell.a, b: cell.b, touched }
    }
}

/// Arithmetic of ADD, SUB and MUL on two numbers of the core.
pub open spec fn arith(op: Opcode, x: int, y: int, cs: int) -> int {
    if op == Opcode::Add {
        (x + y) % cs
    } else if op == Opcode::Sub {
        (x + cs - y) % cs
    } else {
        (x * y) % cs
    }
}

/// `r` is `x + y` brought back into a core of `cs` cells.
pub open spec fn is_sum(r: int, x: int, y: int, cs: int) -> bool {
    r == x + y || r == x + y - cs
}

/// `r` is `x - y` brought back into a core of `cs` cells.
pub open spec fn is_difference(r: int, x: int, y: int, cs: int) -> bool {
    r == x - y || r == x - y + cs
}

/// ADD, SUB and MUL on numbers of a core: each result is a number of the
/// core; ADD adds, SUB takes the second number (the source) from the
/// first (the target), MUL multiplies, all modulo the core size; and SUB
/// undoes ADD.
pub proof fn lemma_arith_laws(x: int, y: int, cs: int)
    requires
        1 <= cs,
        0 <= x < cs,
        0 <= y < cs,
    ensures
        0 <= arith(Opcode::Add, x, y, cs) < cs,
        0 <= arith(Opcode::Sub, x, y, cs) < cs,
        0 <= arith(Opcode::Mul, x, y, cs) < cs,
        is_sum(arith(Opcode::Add, x, y, cs), x, y, cs),
        is_difference(arith(Opcode::Sub, x, y, cs), x, y, cs),
        (arith(Opcode::Sub, x, y, cs) + y) % cs == x,
        arith(Opcode::Sub, arith(Opcode::Add, x, y, cs), y, cs) == x,
        (x * y - arith(Opcode::Mul, x, y, cs)) % cs == 0,
{
    let a = x + y;
    if a < cs {
        vstd::arithmetic::div_mod::lemma_fundamental_div_mod_converse_mod(a, cs, 0, a);
    } else {
        vstd::arithmetic::div_mod::lemma_fundamental_div_mod_converse_mod(a, cs, 1, a - cs);
    }
    let b = x + cs - y;
    if b < cs {
        vstd::arithmetic::div_mod::lemma_fundamental_div_mod_converse_mod(b, cs, 0, b);
    } else {
        vstd::arithmetic::div_mod::lemma_fundamental_div_mod_converse_mod(b, cs, 1, b - cs);
    }
    let d = arith(Opcode::Sub, x, y, cs) + y;
    if d < cs {
        vstd::arithmetic::div_mod::lemma_fundamental_div_mod_converse_mod(d, cs, 0, d);
    } else {
        vstd::arithmetic::div_mod::lemma_fundamental_div_mod_converse_mod(d, cs, 1, d - cs);
    }
    let r = arith(Opcode::Add, x, y, cs);
    let e = r + cs - y;
    if e < cs {
        vstd::arithmetic::div_mod::lemma_fundamental_div_mod_converse_mod(e, cs, 0, e);
    } else {
        vstd::arithmetic::div_mod::lemma_fundamental_div_mod_converse_mod(e, cs, 1, e - cs);
    }
    let m = x * y;
    assert(m >= 0) by (nonlinear_arith) requires x >= 0, y >= 0, m == x * y;
    vstd::arithmetic::div_mod::lemma_fundamental_div_mod(m, cs);
    vstd::arithmetic::div_mod::lemma_mod_pos_bound(m, cs);
    let k = -(m / cs);
    vstd::arithmetic::div_mod::lemma_mod_multiples_basic(k, cs);
    assert(m - m % cs == -(k * cs)) by (nonlinear_arith) requires m == cs * (m / cs) + m % cs, k == -(m / cs);
    vstd::arithmetic::div_mod::lemma_mod_multiples_basic(-k, cs);
    assert(m - m % cs == (-k) * cs) by (nonlinear_arith) requires m - m % cs == -(k * cs);
}

/// DIV and MOD: `None` for a division by zero.
pub open spec fn divide(op: Opcode, x: int, y: int) -> Option<int> {
    if y == 0 {
        None
    } else if op == Opcode::Div {
        Some(x / y)
    } else {
        Some(x % y)
    }
}

/// DIV and MOD on numbers of a core: a division by zero gives nothing;
/// otherwise DIV gives the quotient and MOD the remainder, the first number
/// being the divisor times the quotient plus the remainder, and the
/// remainder below the divisor.
pub proof fn lemma_divide_laws(x: int, y: int)
    requires
        0 <= x,
        0 <= y,
    ensures
        divide(Opcode::Div, x, 0) is None,
        divide(Opcode::Mod, x, 0) is None,
        y > 0 ==> divide(Opcode::Div, x, y) is Some && divide(Opcode::Mod, x, y) is Some,
        y > 0 ==> 0 <= divide(Opcode::Mod, x, y)->0 < y,
        y > 0 ==> 0 <= divide(Opcode::Div, x, y)->0 <= x,
        y > 0 ==> x == y * divide(Opcode::Div, x, y)->0 + divide(Opcode::Mod, x, y)->0,
{
    if y > 0 {
        vstd::arithmetic::div_mod::lemma_fundamental_div_mod(x, y);
        vstd::arithmetic::div_mod::lemma_mod_pos_bound(x, y);
        vstd::arithmetic::div_mod::lemma_div_pos_is_pos(x, y);
        vstd::arithmetic::div_mod::lemma_div_is_ordered_by_denominator(x, 1, y);
    }
}

/// P-space cell `idx` of warrior `w`.
pub open spec fn pspace_get(s: MarsState, w: int, idx: int) -> u32 {
    let i = idx % (s.pspace_size as int);
    if i == 0 { s.last_result[w] } else { s.pspace[s.bank[w] as int][i] }
}

pub open spec fn pspace_set(s: MarsState, w: int, idx: int, v: u32) -> MarsState {
    let i = idx % (s.pspace_size as int);
    if i == 0 {
        MarsState { last_result: s.last_result.update(w, v), ..s }
    } else {
        let b = s.bank[w] as int;
        MarsState { pspace: s.pspace.update(b, s.pspace[b].update(i, v)), ..s }
    }
}

/// What one instruction did: the state after it, whether the warrior has a
/// process left, and the cells it wrote, in order.
pub struct Stepped {
    pub state: MarsState,
    pub alive: bool,
    pub written: Seq<int>,
}

pub open spec fn touched_cells(x: Option<int>, y: Option<int>) -> Seq<int> {
    let s = match x {
        Some(p) => seq![p],
        None => Seq::empty(),
    };
    match y {
        Some(p) => s.push(p),
        None => s,
    }
}

#[verifier::opaque]
/// The effect of the opcode, once both operands are evaluated. `c` is the
/// core after the operands, `q` the queue of `w` without the executing
/// process. Returns the state (without the queue), the addresses to queue,
/// and the cells written.
pub open spec fn execute(
    s: MarsState,
    w: int,
    c: Seq<Instruction>,
    pc: int,
    ir: Instruction,
    ra: Operand,
    rb: Operand,
) -> (MarsState, Seq<u32>, Seq<int>) {
    let cs = s.cs as int;
    let t = fold_add(pc, rb.ptr, cs);
    let next = fold_add(pc, 1, cs) as u32;
    let jump = fold_add(pc, ra.ptr, cs) as u32;
    let skip = fold_add(pc, 2, cs) as u32;
    let m = ir.modifier;
    let st = MarsState { core: c, ..s };
    let ct = c[t];
    match ir.op {
        Opcode::Dat => (st, Seq::empty(), Seq::empty()),
        Opcode::Nop => (st, seq![next], Seq::empty()),
        Opcode::Mov => {
            let nc = match m {
                Modifier::A => with_a(ct, ra.a),
                Modifier::B => with_b(ct, ra.b),
                Modifier::AB => with_b(ct, ra.a),
                Modifier::BA => with_a(ct, ra.b),
                Modifier::F => Instruction { a: ra.a, b: ra.b, ..ct },
                Modifier::X => Instruction { a: ra.b, b: ra.a, ..ct },
                Modifier::I => Instruction { a: ra.a, b: ra.b, ..c[ra.at] },
            };
            (MarsState { core: c.update(t, nc), ..s }, seq![next], seq![t])
        },
        Opcode::Add | Opcode::Sub | Opcode::Mul => {
            let f = |x: u32, y: u32| arith(ir.op, x as int, y as int, cs) as u32;
            let nc = match m {
                Modifier::A => with_a(ct, f(rb.a, ra.a)),
                Modifier::B => with_b(ct, f(rb.b, ra.b)),
                Modifier::AB => with_b(ct, f(rb.b, ra.a)),
                Modifier::BA => with_a(ct, f(rb.a, ra.b)),
                Modifier::X => Instruction { a: f(rb.a, ra.b), b: f(rb.b, ra.a), ..ct },
                _ => Instruction { a: f(rb.a, ra.a), b: f(rb.b, ra.b), ..ct },
            };
            (MarsState { core: c.update(t, nc), ..s }, seq![next], seq![t])
        },
        Opcode::Div | Opcode::Mod => {
            // (new A, new B) where each is None for a division by zero
            let (xa, xb): (Option<int>, Option<int>) = match m {
                Modifier::A => (divide(ir.op, rb.a as int, ra.a as int), Some(ct.b as int)),
                Modifier::B => (Some(ct.a as int), divide(ir.op, rb.b as int, ra.b as int)),
                Modifier::AB => (Some(ct.a as int), divide(ir.op, rb.b as int, ra.a as int)),
                Modifier::BA => (divide(ir.op, rb.a as int, ra.b as int), Some(ct.b as int)),
                Modifier::X => (divide(ir.op, rb.a as int, ra.b as int), divide(ir.op, rb.b as int, ra.a as int)),
                _ => (divide(ir.op, rb.a as int, ra.a as int), divide(ir.op, rb.b as int, ra.b as int)),
            };
            let na = match xa { Some(v) => v as u32, None => ct.a };
            let nb = match xb { Some(v) => v as u32, None => ct.b };
            let wrote = xa is Some && !(m == Modifier::B || m == Modifier::AB)
                || xb is Some && !(m == Modifier::A || m == Modifier::BA);
            let alive = xa is Some && xb is Some;
            (
                MarsState { core: c.update(t, Instruction { a: na, b: nb, ..ct }), ..s },
                if alive { seq![next] } else { Seq::empty() },
                if wrote { seq![t] } else { Seq::empty() },
            )
        },
        Opcode::Jmp => (st, seq![jump], Seq::empty()),
        Opcode::Jmz => {
            let z = match m {
                Modifier::A | Modifier::BA => rb.a == 0,
                Modifier::B | Modifier::AB => rb.b == 0,
                _ => rb.a == 0 && rb.b == 0,
            };
            (st, seq![if z { jump } else { next }], Seq::empty())
        },
        Opcode::Jmn => {
            let nz = match m {
                Modifier::A | Modifier::BA => rb.a != 0,
                Modifier::B | Modifier::AB => rb.b != 0,
                _ => rb.a != 0 || rb.b != 0,
            };
            (st, seq![if nz { jump } else { next }], Seq::empty())
        },
        Opcode::Djn => {
            let da = fold_dec(ct.a as int, cs) as u32;
            let db = fold_dec(ct.b as int, cs) as u32;
            let ba = fold_dec(rb.a as int, cs);
            let bb = fold_dec(rb.b as int, cs);
            let (nc, nz) = match m {
                Modifier::A | Modifier::BA => (with_a(ct, da), ba != 0),
                Modifier::B | Modifier::AB => (with_b(ct, db), bb != 0),
                _ => (Instruction { a: da, b: db, ..ct }, ba != 0 || bb != 0),
            };
            (MarsState { core: c.update(t, nc), ..s }, seq![if nz { jump } else { next }], seq![t])
        },
        Opcode::Spl => {
            // the queue already lost the executing process
            if s.queues[w].len() - 1 + 1 < s.max_processes {
                (st, seq![next, jump], Seq::empty())
            } else {
                (st, seq![next], Seq::empty())
            }
        },
        Opcode::Slt => {
            let lt = match m {
                Modifier::A => ra.a < rb.a,
                Modifier::B => ra.b < rb.b,
                Modifier::AB => ra.a < rb.b,
                Modifier::BA => ra.b < rb.a,
                Modifier::X => ra.a < rb.b && ra.b < rb.a,
                _ => ra.a < rb.a && ra.b < rb.b,
            };
            (st, seq![if lt { skip } else { next }], Seq::empty())
        },
        Opcode::Cmp | Opcode::SeqOp | Opcode::Sne => {
            let x = c[ra.at];
            let eq = match m {
                Modifier::A => ra.a == rb.a,
                Modifier::B => ra.b == rb.b,
                Modifier::AB => ra.a == rb.b,
                Modifier::BA => ra.b == rb.a,
                Modifier::F => ra.a == rb.a && ra.b == rb.b,
                Modifier::X => ra.a == rb.b && ra.b == rb.a,
                Modifier::I => x.op == ct.op && x.modifier == ct.modifier && x.a_mode == ct.a_mode
                    && x.b_mode == ct.b_mode && ra.a == rb.a && ra.b == rb.b,
            };
            let take = if ir.op == Opcode::Sne { !eq } else { eq };
            (st, seq![if take { skip } else { next }], Seq::empty())
        },
        Opcode::Ldp => {
            let v = match m {
                Modifier::A | Modifier::AB => pspace_get(s, w, ra.a as int),
                _ => pspace_get(s, w, ra.b as int),
            };
            let nc = match m {
                Modifier::A | Modifier::BA => with_a(ct, v),
                _ => with_b(ct, v),
            };
            (MarsState { core: c.update(t, nc), ..s }, seq![next], seq![t])
        },
        Opcode::Stp => {
            let s2 = match m {
                Modifier::A => pspace_set(st, w, rb.a as int, ra.a),
                Modifier::AB => pspace_set(st, w, rb.b as int, ra.a),
                Modifier::BA => pspace_set(st, w, rb.a as int, ra.b),
                _ => pspace_set(st, w, rb.b as int, ra.b),
            };
            (s2, seq![next], Seq::empty())
        },
    }
}

/// `r` is what ADD (`x + y`) or SUB (`x - y`) makes of target number `x`
/// and source number `y`, in a core of `cs` cells.
pub open spec fn combined(op: Opcode, r: int, x: int, y: int, cs: int) -> bool {
    if op == Opcode::Add { is_sum(r, x, y, cs) } else { is_difference(r, x, y, cs) }
}

/// What ADD and SUB write into their target cell: each number the modifier
/// names is the target's number plus (ADD) or less (SUB) the source's number
/// it is paired with; the other number, the opcode and the modes are kept.
pub proof fn lemma_execute_add_sub(
    s: MarsState,
    w: int,
    c: Seq<Instruction>,
    pc: int,
    ir: Instruction,
    ra: Operand,
    rb: Operand,
)
    requires
        ir.op == Opcode::Add || ir.op == Opcode::Sub,
        1 <= s.cs <= u32::MAX,
        0 <= fold_add(pc, rb.ptr, s.cs as int) < c.len(),
        ra.a < s.cs,
        ra.b < s.cs,
        rb.a < s.cs,
        rb.b < s.cs,
    ensures
        ({
            let cs = s.cs as int;
            let t = fold_add(pc, rb.ptr, cs);
            let nc = execute(s, w, c, pc, ir, ra, rb).0.core[t];
            let ct = c[t];
            &&& nc.op == ct.op && nc.modifier == ct.modifier && nc.a_mode == ct.a_mode && nc.b_mode == ct.b_mode
            &&& (ir.modifier == Modifier::A ==> combined(ir.op, nc.a as int, rb.a as int, ra.a as int, cs) && nc.b == ct.b)
            &&& (ir.modifier == Modifier::B ==> combined(ir.op, nc.b as int, rb.b as int, ra.b as int, cs) && nc.a == ct.a)
            &&& (ir.modifier == Modifier::AB ==> combined(ir.op, nc.b as int, rb.b as int, ra.a as int, cs) && nc.a == ct.a)
            &&& (ir.modifier == Modifier::BA ==> combined(ir.op, nc.a as int, rb.a as int, ra.b as int, cs) && nc.b == ct.b)
            &&& (ir.modifier == Modifier::X ==> combined(ir.op, nc.a as int, rb.a as int, ra.b as int, cs)
                && combined(ir.op, nc.b as int, rb.b as int, ra.a as int, cs))
            &&& (ir.modifier == Modifier::F || ir.modifier == Modifier::I ==> combined(ir.op, nc.a as int, rb.a as int, ra.a as int, cs)
                && combined(ir.op, nc.b as int, rb.b as int, ra.b as int, cs))
        }),
{
    reveal(execute);
    let cs = s.cs as int;
    lemma_arith_laws(rb.a as int, ra.a as int, cs);
    lemma_arith_laws(rb.b as int, ra.b as int, cs);
    lemma_arith_laws(rb.b as int, ra.a as int, cs);
    lemma_arith_laws(rb.a as int, ra.b as int, cs);
    let t = fold_add(pc, rb.ptr, cs);
    let ct = c[t];
    let f = |x: u32, y: u32| arith(ir.op, x as int, y as int, cs) as u32;
    assert(f(rb.a, ra.a) as int == arith(ir.op, rb.a as int, ra.a as int, cs));
    assert(f(rb.b, ra.b) as int == arith(ir.op, rb.b as int, ra.b as int, cs));
    assert(f(rb.b, ra.a) as int == arith(ir.op, rb.b as int, ra.a as int, cs));
    assert(f(rb.a, ra.b) as int == arith(ir.op, rb.a as int, ra.b as int, cs));
    let e = execute(s, w, c, pc, ir, ra, rb).0.core;
    match ir.modifier {
        Modifier::A => {
            assert(e == c.update(t, with_a(ct, f(rb.a, ra.a))));
        },
        Modifier::B => {
            assert(e == c.update(t, with_b(ct, f(rb.b, ra.b))));
        },
        Modifier::AB => {
            assert(e == c.update(t, with_b(ct, f(rb.b, ra.a))));
        },
        Modifier::BA => {
            assert(e == c.update(t, with_a(ct, f(rb.a, ra.b))));
        },
        Modifier::X => {
            assert(e == c.update(t, Instruction { a: f(rb.a, ra.b), b: f(rb.b, ra.a), ..ct }));
        },
        _ => {
            assert(e == c.update(t, Instruction { a: f(rb.a, ra.a), b: f(rb.b, ra.b), ..ct }));
        },
    }
}

/// One instruction of warrior `w`.
pub open spec fn step(s: MarsState, w: int) -> Stepped {
    let q = s.queues[w];
    if q.len() == 0 {
        Stepped { state: s, alive: false, written: Seq::empty() }
    } else {
        let cs = s.cs as int;
        let pc = q[0] as int;
        let ir = s.core[pc];
        let ra = operand(s.core, cs, pc, ir, ir.a_mode, ir.a);
        let rb = operand(ra.core, cs, pc, ir, ir.b_mode, ir.b);
        let (s2, pushed, wrote) = execute(s, w, rb.core, pc, ir, ra, rb);
        let nq = q.drop_first() + pushed;
        Stepped {
            state: MarsState { queues: s2.queues.update(w, nq), ..s2 },
            alive: nq.len() > 0,
            written: touched_cells(ra.touched, rb.touched) + wrote,
        }
    }
}


/// Numbers and addresses of the core stay in the core through one operand,
/// and only the cell it increments or decrements changes.
pub proof fn lemma_operand(core: Seq<Instruction>, cs: int, pc: int, ir: Instruction, mode: Mode, field: u32)
    requires
        3 <= cs,
        core.len() == cs,
        cells_ok(core, cs as nat),
        0 <= pc < cs,
        ir.a < cs,
        ir.b < cs,
        field < cs,
    ensures
        ({
            let o = operand(core, cs, pc, ir, mode, field);
            &&& o.core.len() == cs
            &&& cells_ok(o.core, cs as nat)
            &&& 0 <= o.ptr < cs
            &&& 0 <= o.at < cs
            &&& o.a < cs
            &&& o.b < cs
            &&& o.touched matches Some(p) ==> 0 <= p < cs
            &&& forall|i: int| 0 <= i < cs && o.touched != Some(i) ==> #[trigger] o.core[i] == core[i]
        }),
{
    reveal(operand);
    let o = operand(core, cs, pc, ir, mode, field);
    if mode != Mode::Immediate && mode != Mode::Direct {
        let p = fold_add(pc, field as int, cs);
        assert(0 <= p < cs);
        let c1 = if mode == Mode::APredec {
            core.update(p, with_a(core[p], fold_dec(core[p].a as int, cs) as u32))
        } else if mode == Mode::BPredec {
            core.update(p, with_b(core[p], fold_dec(core[p].b as int, cs) as u32))
        } else {
            core
        };
        assert(0 <= fold_dec(core[p].a as int, cs) < cs);
        assert(0 <= fold_dec(core[p].b as int, cs) < cs);
        assert forall|i: int| 0 <= i < cs implies (#[trigger] c1[i]).a < cs && c1[i].b < cs by {
            if i == p {
                assert(core[p].a < cs && core[p].b < cs);
            } else {
                assert(core[i].a < cs && core[i].b < cs);
            }
        }
        let ind = if via_a(mode) { c1[p].a } else { c1[p].b };
        assert(c1[p].a < cs && c1[p].b < cs);
        let ptr = fold_add(field as int, ind as int, cs);
        let at = fold_add(pc, ptr, cs);
        assert(0 <= at < cs);
        assert(c1[at].a < cs && c1[at].b < cs);
        assert(0 <= fold_add(c1[p].a as int, 1, cs) < cs);
        assert(0 <= fold_add(c1[p].b as int, 1, cs) < cs);
        assert(o.core.len() == cs);
        assert forall|i: int| 0 <= i < cs implies (#[trigger] o.core[i]).a < cs && o.core[i].b < cs by {
            assert(c1[i].a < cs && c1[i].b < cs);
        }
    } else if mode == Mode::Direct {
        let at = fold_add(pc, field as int, cs);
        assert(core[at].a < cs && core[at].b < cs);
    }
}

/// One instruction keeps a state well formed; the core changes only in the
/// cells the step reports as written, and those are cells of the core.
#[verifier::spinoff_prover]
#[verifier::rlimit(40)]
pub proof fn lemma_step(s: MarsState, w: int)
    requires
        wf(s),
        0 <= w < s.queues.len(),
    ensures
        ({
            let r = step(s, w);
            &&& wf(r.state)
            &&& r.state.queues.len() == s.queues.len()
            &&& r.state.pspace.len() == s.pspace.len()
            &&& r.state.bank == s.bank
            &&& r.state.cs == s.cs
            &&& r.state.max_processes == s.max_processes
            &&& r.state.pspace_size == s.pspace_size
            &&& forall|v: int| 0 <= v < s.queues.len() && v != w ==> r.state.queues[v] == s.queues[v]
            &&& r.alive == (r.state.queues[w].len() > 0)
            &&& forall|i: int| 0 <= i < r.written.len() ==> 0 <= #[trigger] r.written[i] < s.cs
            &&& forall|i: int| 0 <= i < s.cs && r.state.core[i] != s.core[i] ==> r.written.contains(i)
        }),
{
    let q = s.queues[w];
    if q.len() > 0 {
        let cs = s.cs as int;
        let pc = q[0] as int;
        let ir = s.core[pc];
        let ra = operand(s.core, cs, pc, ir, ir.a_mode, ir.a);
        lemma_operand(s.core, cs, pc, ir, ir.a_mode, ir.a);
        let rb = operand(ra.core, cs, pc, ir, ir.b_mode, ir.b);
        lemma_operand(ra.core, cs, pc, ir, ir.b_mode, ir.b);
        let (s2, pushed, wrote) = execute(s, w, rb.core, pc, ir, ra, rb);
        let t = fold_add(pc, rb.ptr, cs);
        let ct = rb.core[t];
        assert(0 <= t < cs);
        lemma_execute(s, w, rb.core, pc, ir, ra, rb);
        let r = step(s, w);
        let nq = q.drop_first() + pushed;
        assert(r.state.queues[w] == nq);
        assert forall|i: int| 0 <= i < s.cs && r.state.core[i] != s.core[i] implies r.written.contains(i) by {
            let tc = touched_cells(ra.touched, rb.touched);
            if rb.core[i] != s.core[i] {
                if ra.touched == Some(i) {
                    assert(tc[0] == i);
                    assert(r.written[0] == i);
                } else {
                    assert(rb.touched == Some(i));
                    assert(r.written[tc.len() - 1] == i);
                }
            } else {
                assert(wrote.contains(i));
                let k = choose|k: int| 0 <= k < wrote.len() && wrote[k] == i;
                assert(r.written[tc.len() + k] == i);
            }
        }
    }
}

/// What `execute` may assume of its arguments.
pub open spec fn execute_pre(s: MarsState, w: int, c: Seq<Instruction>, pc: int, ra: Operand, rb: Operand) -> bool {
    &&& wf(s)
    &&& 0 <= w < s.queues.len()
    &&& s.queues[w].len() > 0
    &&& c.len() == s.cs
    &&& cells_ok(c, s.cs)
    &&& 0 <= pc < s.cs
    &&& 0 <= ra.ptr < s.cs
    &&& 0 <= ra.at < s.cs
    &&& 0 <= rb.ptr < s.cs
    &&& ra.a < s.cs
    &&& ra.b < s.cs
    &&& rb.a < s.cs
    &&& rb.b < s.cs
}

/// What `execute` gives: a well-formed state, queues untouched (the caller
/// queues what it returns), addresses to queue inside the core and within
/// the process limit, and at most the target cell written.
pub open spec fn execute_post(s: MarsState, w: int, c: Seq<Instruction>, pc: int, ir: Instruction, ra: Operand, rb: Operand) -> bool {
    let (s2, pushed, wrote) = execute(s, w, c, pc, ir, ra, rb);
    let t = fold_add(pc, rb.ptr, s.cs as int);
    &&& wf(s2)
    &&& s2.queues == s.queues
    &&& s2.bank == s.bank
    &&& s2.cs == s.cs
    &&& s2.max_processes == s.max_processes
    &&& s2.pspace_size == s.pspace_size
    &&& s2.pspace.len() == s.pspace.len()
    &&& forall|i: int| 0 <= i < pushed.len() ==> #[trigger] pushed[i] < s.cs
    &&& s.queues[w].len() - 1 + pushed.len() <= s.max_processes
    &&& forall|i: int| 0 <= i < wrote.len() ==> #[trigger] wrote[i] == t
    &&& forall|i: int| 0 <= i < s.cs && i != t ==> #[trigger] s2.core[i] == c[i]
    &&& (s2.core[t] != c[t] ==> wrote.contains(t))
}

/// A core with one cell replaced by a cell whose numbers are in the core.
proof fn lemma_write_target(s: MarsState, c: Seq<Instruction>, t: int, nc: Instruction)
    requires
        wf(s),
        c.len() == s.cs,
        cells_ok(c, s.cs),
        0 <= t < s.cs,
        nc.a < s.cs,
        nc.b < s.cs,
    ensures
        wf(MarsState { core: c.update(t, nc), ..s }),
{
    let n = MarsState { core: c.update(t, nc), ..s };
    assert forall|i: int| 0 <= i < n.cs implies (#[trigger] n.core[i]).a < n.cs && n.core[i].b < n.cs by {
        if i == t {
        } else {
            assert(c[i].a < s.cs && c[i].b < s.cs);
        }
    }
}

proof fn lemma_execute_plain(s: MarsState, w: int, c: Seq<Instruction>, pc: int, ir: Instruction, ra: Operand, rb: Operand)
    requires
        execute_pre(s, w, c, pc, ra, rb),
        ir.op == Opcode::Dat || ir.op == Opcode::Nop || ir.op == Opcode::Jmp || ir.op == Opcode::Jmz
            || ir.op == Opcode::Jmn || ir.op == Opcode::Spl || ir.op == Opcode::Slt || ir.op == Opcode::Cmp
            || ir.op == Opcode::SeqOp || ir.op == Opcode::Sne,
    ensures
        execute_post(s, w, c, pc, ir, ra, rb),
{
    reveal(execute);
    let st = MarsState { core: c, ..s };
    assert forall|i: int| 0 <= i < st.cs implies (#[trigger] st.core[i]).a < st.cs && st.core[i].b < st.cs by {
        assert(c[i].a < s.cs && c[i].b < s.cs);
    }
    assert(wf(st));
}

proof fn lemma_execute_write(s: MarsState, w: int, c: Seq<Instruction>, pc: int, ir: Instruction, ra: Operand, rb: Operand)
    requires
        execute_pre(s, w, c, pc, ra, rb),
        ir.op == Opcode::Mov || ir.op == Opcode::Add || ir.op == Opcode::Sub || ir.op == Opcode::Mul
            || ir.op == Opcode::Djn || ir.op == Opcode::Ldp,
    ensures
        execute_post(s, w, c, pc, ir, ra, rb),
{
    reveal(execute);
    let cs = s.cs as int;
    let t = fold_add(pc, rb.ptr, cs);
    assert(0 <= t < cs);
    let ct = c[t];
    assert(ct.a < cs && ct.b < cs);
    let (s2, pushed, wrote) = execute(s, w, c, pc, ir, ra, rb);
    if ir.op == Opcode::Mov {
        assert(c[ra.at].a < cs);
        lemma_write_target(s, c, t, s2.core[t]);
    } else if ir.op == Opcode::Add || ir.op == Opcode::Sub || ir.op == Opcode::Mul {
        assert forall|x: int, y: int| 0 <= x < cs && 0 <= y < cs implies 0 <= #[trigger] arith(ir.op, x, y, cs) < cs by {
            assert(x * y >= 0) by (nonlinear_arith) requires x >= 0, y >= 0;
        }
        lemma_write_target(s, c, t, s2.core[t]);
    } else if ir.op == Opcode::Djn {
        lemma_write_target(s, c, t, s2.core[t]);
    } else {
        assert(pspace_get(s, w, ra.a as int) < cs);
        assert(pspace_get(s, w, ra.b as int) < cs);
        lemma_write_target(s, c, t, s2.core[t]);
    }
    assert(s2.core == c.update(t, s2.core[t]));
    assert(wrote == seq![t]);
    assert(wrote[0] == t);
}

proof fn lemma_execute_div(s: MarsState, w: int, c: Seq<Instruction>, pc: int, ir: Instruction, ra: Operand, rb: Operand)
    requires
        execute_pre(s, w, c, pc, ra, rb),
        ir.op == Opcode::Div || ir.op == Opcode::Mod,
    ensures
        execute_post(s, w, c, pc, ir, ra, rb),
{
    reveal(execute);
    let cs = s.cs as int;
    let t = fold_add(pc, rb.ptr, cs);
    assert(0 <= t < cs);
    let ct = c[t];
    assert(ct.a < cs && ct.b < cs);
    let (s2, pushed, wrote) = execute(s, w, c, pc, ir, ra, rb);
    assert forall|x: int, y: int| 0 <= x < cs && 0 <= y < cs && y != 0 implies 0 <= #[trigger] divide(ir.op, x, y).unwrap() < cs by {
        if ir.op == Opcode::Div {
            vstd::arithmetic::div_mod::lemma_div_is_ordered_by_denominator(x, 1, y);
        }
    }
    lemma_write_target(s, c, t, s2.core[t]);
    assert(s2.core == c.update(t, s2.core[t]));
    if s2.core[t] != c[t] {
        assert(wrote.len() > 0);
        assert(wrote[0] == t);
    }
}

proof fn lemma_execute_stp(s: MarsState, w: int, c: Seq<Instruction>, pc: int, ir: Instruction, ra: Operand, rb: Operand)
    requires
        execute_pre(s, w, c, pc, ra, rb),
        ir.op == Opcode::Stp,
    ensures
        execute_post(s, w, c, pc, ir, ra, rb),
{
    reveal(execute);
    let cs = s.cs as int;
    let st = MarsState { core: c, ..s };
    assert forall|i: int| 0 <= i < st.cs implies (#[trigger] st.core[i]).a < st.cs && st.core[i].b < st.cs by {
        assert(c[i].a < s.cs && c[i].b < s.cs);
    }
    assert(wf(st));
    assert forall|idx: int, v: u32| idx >= 0 && v < cs implies wf(#[trigger] pspace_set(st, w, idx, v)) by {
        let i = idx % (st.pspace_size as int);
        let n = pspace_set(st, w, idx, v);
        if i != 0 {
            let b = st.bank[w] as int;
            assert forall|k: int, j: int| 0 <= k < n.pspace.len() && 0 <= j < n.pspace_size implies #[trigger] n.pspace[k][j] < n.cs by {
                if k == b && j == i {
                } else {
                    assert(st.pspace[k][j] < st.cs);
                }
            }
            assert forall|k: int| 0 <= k < n.pspace.len() implies #[trigger] n.pspace[k].len() == n.pspace_size by {
                assert(st.pspace[k].len() == st.pspace_size);
            }
        } else {
            assert forall|u: int| 0 <= u < n.queues.len() implies #[trigger] n.last_result[u] < n.cs by {
                if u != w {
                    assert(st.last_result[u] < st.cs);
                }
            }
        }
    }
}

/// The opcode's effect keeps the state well formed, queues at most two
/// cells, a second only below the process limit, and writes only the
/// target.
pub proof fn lemma_execute(s: MarsState, w: int, c: Seq<Instruction>, pc: int, ir: Instruction, ra: Operand, rb: Operand)
    requires
        execute_pre(s, w, c, pc, ra, rb),
    ensures
        execute_post(s, w, c, pc, ir, ra, rb),
{
    match ir.op {
        Opcode::Mov | Opcode::Add | Opcode::Sub | Opcode::Mul | Opcode::Djn | Opcode::Ldp => {
            lemma_execute_write(s, w, c, pc, ir, ra, rb)
        },
        Opcode::Div | Opcode::Mod => lemma_execute_div(s, w, c, pc, ir, ra, rb),
        Opcode::Stp => lemma_execute_stp(s, w, c, pc, ir, ra, rb),
        _ => lemma_execute_plain(s, w, c, pc, ir, ra, rb),
    }
}


/// Play until a warrior has no process left or `budget` instructions have
/// run, `w` moving next: the state, the outcome and the number of
/// instructions executed.
pub open spec fn run(s: MarsState, budget: nat, w: int) -> (MarsState, Outcome, nat)
    decreases budget,
{
    if budget == 0 {
        (s, Outcome::Tie, 0)
    } else {
        let r = step(s, w);
        if !r.alive {
            (r.state, Outcome::Win((1 - w) as usize), 1)
        } else {
            let (s2, o, n) = run(r.state, (budget - 1) as nat, 1 - w);
            (s2, o, n + 1)
        }
    }
}

/// `code` written into the core from `pos` on; later instructions win.
pub open spec fn place(core: Seq<Instruction>, code: Seq<Instruction>, pos: int, cs: int) -> Seq<Instruction>
    decreases code.len(),
{
    if code.len() == 0 {
        core
    } else {
        place(core, code.drop_last(), pos, cs).update((pos + code.len() - 1) % cs, code.last())
    }
}

/// An empty core.
pub open spec fn empty_core(cs: nat) -> Seq<Instruction> {
    Seq::new(cs, |i: int| empty_cell())
}

/// The core with the first `n` warriors loaded, in order.
pub open spec fn load_core(cs: nat, codes: Seq<Seq<Instruction>>, positions: Seq<u32>, n: nat) -> Seq<Instruction>
    decreases n,
{
    if n == 0 {
        empty_core(cs)
    } else {
        place(load_core(cs, codes, positions, (n - 1) as nat), codes[n - 1], positions[n - 1] as int, cs as int)
    }
}

/// A state with the warriors loaded: the core cleared and each warrior
/// written at its position, one process each at its start.
pub open spec fn loaded(s: MarsState, codes: Seq<Seq<Instruction>>, starts: Seq<u32>, positions: Seq<u32>) -> MarsState {
    MarsState {
        core: load_core(s.cs, codes, positions, codes.len()),
        queues: Seq::new(
            s.queues.len(),
            |w: int|
                if w < codes.len() {
                    seq![fold_add(positions[w] as int, starts[w] as int, s.cs as int) as u32]
                } else {
                    Seq::<u32>::empty()
                },
        ),
        ..s
    }
}

/// P-space cell 0 of both warriors after a round: 1 for the survivor, 0
/// for the dead, 2 each for a tie.
pub open spec fn record_result(s: MarsState, o: Outcome) -> MarsState {
    MarsState {
        last_result: match o {
            Outcome::Win(x) => s.last_result.update(x as int, 1).update(1 - x, 0),
            Outcome::Tie => s.last_result.update(0, 2).update(1, 2),
        },
        ..s
    }
}

/// One round of two warriors: loaded at `positions`, `first` moving first,
/// up to `cycles` instructions each; the state after it, the outcome and
/// the number of instructions executed.
pub open spec fn round(
    s: MarsState,
    codes: Seq<Seq<Instruction>>,
    starts: Seq<u32>,
    positions: Seq<u32>,
    first: int,
    cycles: nat,
) -> (MarsState, Outcome, nat) {
    let (s2, o, n) = run(loaded(s, codes, starts, positions), 2 * cycles, first);
    (record_result(s2, o), o, n)
}

/// An instruction leaves the process queues to the step that runs it.
proof fn lemma_execute_queues(s: MarsState, w: int, c: Seq<Instruction>, pc: int, ir: Instruction, ra: Operand, rb: Operand)
    ensures
        execute(s, w, c, pc, ir, ra, rb).0.queues == s.queues,
{
    reveal(execute);
}

/// A step leaves the number of warriors as it is; a warrior it leaves
/// without a live process has an empty queue.
proof fn lemma_step_queues(s: MarsState, w: int)
    requires
        0 <= w < s.queues.len(),
    ensures
        step(s, w).state.queues.len() == s.queues.len(),
        !step(s, w).alive ==> step(s, w).state.queues[w].len() == 0,
{
    let q = s.queues[w];
    if q.len() > 0 {
        let cs = s.cs as int;
        let pc = q[0] as int;
        let ir = s.core[pc];
        let ra = operand(s.core, cs, pc, ir, ir.a_mode, ir.a);
        let rb = operand(ra.core, cs, pc, ir, ir.b_mode, ir.b);
        lemma_execute_queues(s, w, rb.core, pc, ir, ra, rb);
    }
}

/// When a warrior wins, the other has no process left.
pub proof fn lemma_run_loser(s: MarsState, budget: nat, w: int)
    requires
        s.queues.len() == 2,
        0 <= w < 2,
    ensures
        run(s, budget, w).0.queues.len() == 2,
        run(s, budget, w).1 matches Outcome::Win(x) ==> x < 2 && run(s, budget, w).0.queues[1 - x].len() == 0,
    decreases budget,
{
    if budget > 0 {
        lemma_step_queues(s, w);
        let r = step(s, w);
        if r.alive {
            lemma_run_loser(r.state, (budget - 1) as nat, 1 - w);
        }
    }
}

/// The loser of a won round ends it with no process left.
pub proof fn lemma_round_loser(
    s: MarsState,
    codes: Seq<Seq<Instruction>>,
    starts: Seq<u32>,
    positions: Seq<u32>,
    first: int,
    cycles: nat,
)
    requires
        s.queues.len() == 2,
        0 <= first < 2,
    ensures
        round(s, codes, starts, positions, first, cycles).0.queues.len() == 2,
        round(s, codes, starts, positions, first, cycles).1 matches Outcome::Win(x)
            ==> x < 2 && round(s, codes, starts, positions, first, cycles).0.queues[1 - x].len() == 0,
{
    lemma_run_loser(loaded(s, codes, starts, positions), 2 * cycles, first);
}

/// Whether warrior `j` shares its P-space with warrior `i` through the same
/// PIN.
pub open spec fn same_pin(pins: Seq<Option<i64>>, j: int, i: int) -> bool {
    pins[j] is Some && pins[j] == pins[i]
}

/// The first of `j..=i` that shares warrior `i`'s P-space (`i` itself if
/// none before it does).
pub open spec fn first_sharer(pins: Seq<Option<i64>>, i: int, j: int) -> int
    decreases i - j,
{
    if j >= i {
        i
    } else if same_pin(pins, j, i) {
        j
    } else {
        first_sharer(pins, i, j + 1)
    }
}

/// The warrior whose bank warrior `i` uses.
pub open spec fn bank_owner(pins: Seq<Option<i64>>, i: int) -> int {
    first_sharer(pins, i, 0)
}

/// How many banks the first `n` warriors open.
pub open spec fn banks_opened(pins: Seq<Option<i64>>, n: int) -> nat
    decreases n,
{
    if n <= 0 {
        0
    } else {
        banks_opened(pins, n - 1) + if bank_owner(pins, n - 1) == n - 1 { 1nat } else { 0nat }
    }
}

/// The bank of warrior `i`: banks are numbered in the order their first
/// warrior appears (pspace_init() in pMARS).
pub open spec fn bank_of(pins: Seq<Option<i64>>, i: int) -> nat {
    banks_opened(pins, bank_owner(pins, i))
}

/// Fresh P-space for a match: zero everywhere, shared between warriors of
/// the same PIN; cell 0 of each warrior starts at CORESIZE-1.
pub open spec fn fresh_pspace(s: MarsState, pins: Seq<Option<i64>>) -> MarsState {
    MarsState {
        bank: Seq::new(pins.len(), |i: int| bank_of(pins, i)),
        pspace: Seq::new(banks_opened(pins, pins.len() as int), |k: int| Seq::new(s.pspace_size, |i: int| 0u32)),
        last_result: Seq::new(pins.len(), |i: int| (s.cs - 1) as u32),
        ..s
    }
}

/// The score after one more round.
pub open spec fn count(score: Score, o: Outcome) -> Score {
    match o {
        Outcome::Win(0) => Score { w1: (score.w1 + 1) as u32, ..score },
        Outcome::Win(_) => Score { w2: (score.w2 + 1) as u32, ..score },
        Outcome::Tie => Score { ties: (score.ties + 1) as u32, ..score },
    }
}

/// Rust's `/` on integers: rounds toward zero.
pub open spec fn div_trunc(a: int, b: int) -> int {
    if a >= 0 { a / b } else { -((-a) / b) }
}

/// pMARS's position generator (sim.c `rng`): Park and Miller's "minimal
/// standard" generator, in Schrage's form.
pub open spec fn spec_rng(seed: i32) -> i32 {
    let t = seed as int;
    let q = div_trunc(t, 127773);
    let r = t - 127773 * q;
    let v = 16807 * r - 2836 * q;
    (if v < 0 { v + 2147483647 } else { v }) as i32
}

/// The generator is Park and Miller's: on a seed in `0..2^31-1` it gives
/// `16807 * seed mod (2^31 - 1)`.
pub proof fn lemma_rng_is_minimal_standard(seed: i32)
    requires
        0 <= seed < 2147483647,
    ensures
        spec_rng(seed) as int == (16807 * seed as int) % 2147483647,
{
    let t = seed as int;
    let q = t / 127773;
    let r = t % 127773;
    vstd::arithmetic::div_mod::lemma_fundamental_div_mod(t, 127773);
    assert(0 <= r < 127773);
    assert(0 <= q <= 16807) by (nonlinear_arith)
        requires 0 <= t < 2147483647, t == 127773 * q + r, 0 <= r < 127773;
    assert(div_trunc(t, 127773) == q);
    let v = 16807 * r - 2836 * q;
    assert(16807 * t == 2147483647 * q + v) by (nonlinear_arith)
        requires t == 127773 * q + r, v == 16807 * r - 2836 * q;
    assert(-2147483647 < v < 2147483647) by (nonlinear_arith)
        requires 0 <= r < 127773, 0 <= q <= 16807, v == 16807 * r - 2836 * q;
    if v >= 0 {
        assert((16807 * t) % 2147483647 == v) by (nonlinear_arith)
            requires 16807 * t == 2147483647 * q + v, 0 <= v < 2147483647;
    } else {
        assert((16807 * t) % 2147483647 == v + 2147483647) by (nonlinear_arith)
            requires 16807 * t == 2147483647 * (q - 1) + (v + 2147483647), 0 <= v + 2147483647 < 2147483647;
    }
}

/// Where the second warrior goes in a round of a match: at least the
/// distance from the first, `seed` picking among the places left.
pub open spec fn spec_position(seed: i32, core_size: u32, distance: u32) -> u32 {
    let positions = core_size as int + 1 - 2 * distance as int;
    (distance as int + (seed as int) % positions) as u32
}

/// The rounds `r..rounds` of a match from state `s`, with the score so far.
pub open spec fn play_rounds(
    s: MarsState,
    codes: Seq<Seq<Instruction>>,
    starts: Seq<u32>,
    core_size: u32,
    distance: u32,
    cycles: nat,
    r: nat,
    rounds: nat,
    seed: i32,
    score: Score,
) -> (Score, MarsState, nat)
    decreases rounds - r,
{
    if r >= rounds {
        (score, s, 0)
    } else {
        let pos = spec_position(seed, core_size, distance);
        let (s2, o, n) = round(s, codes, starts, seq![0u32, pos], (r % 2) as int, cycles);
        let (sc, s3, m) = play_rounds(
            s2,
            codes,
            starts,
            core_size,
            distance,
            cycles,
            r + 1,
            rounds,
            spec_rng(seed),
            count(score, o),
        );
        (sc, s3, n + m)
    }
}


/// Writing an instruction at `pos + k` is writing at `(pos + k) % cs`.
pub proof fn lemma_fold_mod(pos: int, k: int, cs: int)
    requires
        0 <= pos < cs,
        0 <= k,
    ensures
        fold_add(pos, k % cs, cs) == (pos + k) % cs,
{
    let r = k % cs;
    vstd::arithmetic::div_mod::lemma_add_mod_noop_right(pos, k, cs);
    if pos + r >= cs {
        vstd::arithmetic::div_mod::lemma_mod_sub_multiples_vanish(pos + r, cs);
        vstd::arithmetic::div_mod::lemma_small_mod((pos + r - cs) as nat, cs as nat);
    } else {
        vstd::arithmetic::div_mod::lemma_small_mod((pos + r) as nat, cs as nat);
    }
}

/// Placing code whose numbers are in the core keeps every number of the
/// core in it, and the core's size.
pub proof fn lemma_place_ok(core: Seq<Instruction>, code: Seq<Instruction>, pos: int, cs: int)
    requires
        cs >= 1,
        core.len() == cs,
        cells_ok(core, cs as nat),
        0 <= pos,
        forall|i: int| 0 <= i < code.len() ==> (#[trigger] code[i]).a < cs && code[i].b < cs,
    ensures
        place(core, code, pos, cs).len() == cs,
        cells_ok(place(core, code, pos, cs), cs as nat),
    decreases code.len(),
{
    if code.len() > 0 {
        let prev = code.drop_last();
        assert forall|i: int| 0 <= i < prev.len() implies (#[trigger] prev[i]).a < cs && prev[i].b < cs by {
            assert(prev[i] == code[i]);
        }
        lemma_place_ok(core, prev, pos, cs);
        let p = place(core, prev, pos, cs);
        let at = (pos + code.len() - 1) % cs;
        let r = p.update(at, code.last());
        assert(code.last() == code[code.len() - 1]);
        assert forall|i: int| 0 <= i < cs implies (#[trigger] r[i]).a < cs && r[i].b < cs by {
            if i != at {
                assert(r[i] == p[i]);
            }
        }
    }
}

/// The loaded core is a core: its size, and numbers inside it.
pub proof fn lemma_load_core_ok(cs: nat, codes: Seq<Seq<Instruction>>, positions: Seq<u32>, n: nat)
    requires
        cs >= 1,
        n <= codes.len(),
        n <= positions.len(),
        forall|w: int, i: int| 0 <= w < codes.len() && 0 <= i < codes[w].len() ==> (#[trigger] codes[w][i]).a < cs && codes[w][i].b < cs,
    ensures
        load_core(cs, codes, positions, n).len() == cs,
        cells_ok(load_core(cs, codes, positions, n), cs),
    decreases n,
{
    if n == 0 {
        let e = empty_core(cs);
        assert forall|i: int| 0 <= i < cs implies (#[trigger] e[i]).a < cs && e[i].b < cs by {}
    } else {
        lemma_load_core_ok(cs, codes, positions, (n - 1) as nat);
        let code = codes[n - 1];
        assert forall|i: int| 0 <= i < code.len() implies (#[trigger] code[i]).a < cs && code[i].b < cs by {
            assert(codes[n - 1][i] == code[i]);
        }
        lemma_place_ok(load_core(cs, codes, positions, (n - 1) as nat), code, positions[n - 1] as int, cs as int);
    }
}

/// A cell replaced by one whose numbers are in the core keeps the numbers
/// of the core in it.
pub proof fn lemma_cells_update(c: Seq<Instruction>, cs: nat, i: int, x: Instruction)
    requires
        cells_ok(c, cs),
        c.len() == cs,
        0 <= i < cs,
        x.a < cs,
        x.b < cs,
    ensures
        cells_ok(c.update(i, x), cs),
{
    assert forall|k: int| 0 <= k < cs implies (#[trigger] c.update(i, x)[k]).a < cs && c.update(i, x)[k].b < cs by {
        if k != i {
            assert(c.update(i, x)[k] == c[k]);
        }
    }
}

/// A well-formed state with another core of the same size, whose numbers
/// are in the core, is well formed.
pub proof fn lemma_wf_with_core(s: MarsState, c: Seq<Instruction>)
    requires
        wf(s),
        c.len() == s.cs,
        cells_ok(c, s.cs),
    ensures
        wf(MarsState { core: c, ..s }),
{
}

/// A well-formed state with one queue replaced by a queue of cells within
/// the process limit is well formed.
pub proof fn lemma_wf_with_queue(s: MarsState, w: int, q: Seq<u32>)
    requires
        wf(s),
        0 <= w < s.queues.len(),
        q.len() <= s.max_processes,
        forall|i: int| 0 <= i < q.len() ==> #[trigger] q[i] < s.cs,
    ensures
        wf(MarsState { queues: s.queues.update(w, q), ..s }),
{
    let n = MarsState { queues: s.queues.update(w, q), ..s };
    assert forall|u: int, i: int| 0 <= u < n.queues.len() && 0 <= i < n.queues[u].len() implies #[trigger] n.queues[u][i] < n.cs by {
        if u != w {
            assert(n.queues[u] == s.queues[u]);
        }
    }
    assert forall|u: int| 0 <= u < n.queues.len() implies #[trigger] n.queues[u].len() <= n.max_processes by {
        if u != w {
            assert(n.queues[u] == s.queues[u]);
        }
    }
}

/// The first sharer found from `j` on is between `j` and `i`, shares `i`'s
/// P-space if it is not `i`, and none before it from `j` on does.
pub proof fn lemma_first_sharer(pins: Seq<Option<i64>>, i: int, j: int)
    requires
        0 <= j <= i,
    ensures
        j <= first_sharer(pins, i, j) <= i,
        first_sharer(pins, i, j) < i ==> same_pin(pins, first_sharer(pins, i, j), i),
        forall|k: int| j <= k < first_sharer(pins, i, j) ==> !same_pin(pins, k, i),
    decreases i - j,
{
    if j < i && !same_pin(pins, j, i) {
        lemma_first_sharer(pins, i, j + 1);
    }
}

/// With no sharer from `j` up to `i`, the first is `i` itself.
pub proof fn lemma_first_sharer_none(pins: Seq<Option<i64>>, i: int, j: int)
    requires
        0 <= j <= i,
        forall|k: int| j <= k < i ==> !same_pin(pins, k, i),
    ensures
        first_sharer(pins, i, j) == i,
    decreases i - j,
{
    if j < i {
        lemma_first_sharer_none(pins, i, j + 1);
    }
}

/// The warrior whose bank another warrior uses owns that bank.
pub proof fn lemma_owner_owns(pins: Seq<Option<i64>>, i: int)
    requires
        0 <= i,
    ensures
        0 <= bank_owner(pins, i) <= i,
        bank_owner(pins, bank_owner(pins, i)) == bank_owner(pins, i),
{
    lemma_first_sharer(pins, i, 0);
    let o = bank_owner(pins, i);
    if o < i {
        assert forall|k: int| 0 <= k < o implies !same_pin(pins, k, o) by {
            assert(!same_pin(pins, k, i));
        }
        lemma_first_sharer_none(pins, o, 0);
    } else {
        assert forall|k: int| 0 <= k < o implies !same_pin(pins, k, o) by {
            assert(!same_pin(pins, k, i));
        }
        lemma_first_sharer_none(pins, o, 0);
    }
}

/// An instruction counter that stops at its largest value.
pub open spec fn plus_steps(a: u64, n: nat) -> u64 {
    if a + n > u64::MAX { u64::MAX } else { (a + n) as u64 }
}

/// Counting `n` then `m` is counting `n + m`.
pub proof fn lemma_plus_steps(a: u64, n: nat, m: nat)
    ensures
        plus_steps(plus_steps(a, n), m) == plus_steps(a, n + m),
        plus_steps(a, 0) == a,
{
}

/// One more from `x`, folded into a ring of `cs`.
pub proof fn lemma_mod_succ(x: int, cs: int)
    requires
        x >= 0,
        cs > 0,
    ensures
        (x + 1) % cs == if x % cs + 1 == cs { 0 } else { x % cs + 1 },
{
    vstd::arithmetic::div_mod::lemma_fundamental_div_mod(x, cs);
    let q = x / cs;
    let r = x % cs;
    vstd::arithmetic::div_mod::lemma_mod_pos_bound(x, cs);
    assert(q * cs == cs * q) by (nonlinear_arith);
    assert((q + 1) * cs == q * cs + cs) by (nonlinear_arith);
    if r + 1 == cs {
        vstd::arithmetic::div_mod::lemma_fundamental_div_mod_converse_mod(x + 1, cs, q + 1, 0);
    } else {
        vstd::arithmetic::div_mod::lemma_fundamental_div_mod_converse_mod(x + 1, cs, q, r + 1);
    }
}

/// A run executes at most its budget.
pub proof fn lemma_run_count(s: MarsState, budget: nat, w: int)
    ensures
        run(s, budget, w).2 <= budget,
    decreases budget,
{
    if budget > 0 {
        let r = step(s, w);
        if r.alive {
            lemma_run_count(r.state, (budget - 1) as nat, 1 - w);
        }
    }
}

} // verus!
