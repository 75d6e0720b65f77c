//! The core is a ring: a battle played with both warriors moved by the same
//! distance is the same battle. Every address is folded into the core, and
//! numbers in cells are offsets, so nothing depends on where the warriors
//! are, only on where they are from each other.
use crate::model::{cells_ok, execute, fold_add, fold_dec, load_core, loaded, operand, place, run, step, wf, MarsState, Operand};
use crate::redcode::{Instruction, Mode};
use vstd::prelude::*;

verus! {

/// Address `i` moved by `d` around a ring of `cs` cells.
pub open spec fn moved(i: int, d: int, cs: int) -> int {
    fold_add(i, d, cs)
}

/// The address that `moved` takes to `j`.
pub open spec fn unmoved(j: int, d: int, cs: int) -> int {
    if j >= d { j - d } else { j - d + cs }
}

/// A core with every cell moved by `d`.
pub open spec fn moved_core(c: Seq<Instruction>, d: int, cs: int) -> Seq<Instruction> {
    Seq::new(c.len(), |j: int| c[unmoved(j, d, cs)])
}

/// A queue of addresses moved by `d`.
pub open spec fn moved_queue(q: Seq<u32>, d: int, cs: int) -> Seq<u32> {
    q.map_values(|a: u32| moved(a as int, d, cs) as u32)
}

/// A state with its core and process queues moved by `d`.
pub open spec fn moved_state(s: MarsState, d: int) -> MarsState {
    MarsState {
        core: moved_core(s.core, d, s.cs as int),
        queues: s.queues.map_values(|q: Seq<u32>| moved_queue(q, d, s.cs as int)),
        ..s
    }
}

/// A cell touched by an operand, moved.
pub open spec fn moved_touch(t: Option<int>, d: int, cs: int) -> Option<int> {
    match t {
        Some(p) => Some(moved(p, d, cs)),
        None => None,
    }
}

/// Addresses moved by `d`.
pub open spec fn moved_cells(w: Seq<int>, d: int, cs: int) -> Seq<int> {
    w.map_values(|p: int| moved(p, d, cs))
}

proof fn lemma_moved_basics(c: Seq<Instruction>, d: int, cs: int)
    requires
        c.len() == cs,
        0 <= d < cs,
    ensures
        forall|i: int| 0 <= i < cs ==> 0 <= #[trigger] moved(i, d, cs) < cs && unmoved(moved(i, d, cs), d, cs) == i,
        forall|j: int| 0 <= j < cs ==> 0 <= #[trigger] unmoved(j, d, cs) < cs && moved(unmoved(j, d, cs), d, cs) == j,
        forall|i: int| 0 <= i < cs ==> #[trigger] moved_core(c, d, cs)[moved(i, d, cs)] == c[i],
        moved_core(c, d, cs).len() == cs,
{
    assert forall|i: int| 0 <= i < cs implies #[trigger] moved_core(c, d, cs)[moved(i, d, cs)] == c[i] by {
        assert(unmoved(moved(i, d, cs), d, cs) == i);
    }
}

/// Folding after moving is moving after folding.
proof fn lemma_fold_moved(x: int, y: int, d: int, cs: int)
    requires
        0 <= x < cs,
        0 <= y < cs,
        0 <= d < cs,
    ensures
        fold_add(moved(x, d, cs), y, cs) == moved(fold_add(x, y, cs), d, cs),
{
}

/// Writing a cell of a moved core is moving the core with the cell written.
proof fn lemma_moved_update(c: Seq<Instruction>, p: int, v: Instruction, d: int, cs: int)
    requires
        c.len() == cs,
        0 <= d < cs,
        0 <= p < cs,
    ensures
        moved_core(c.update(p, v), d, cs) == moved_core(c, d, cs).update(moved(p, d, cs), v),
{
    lemma_moved_basics(c, d, cs);
    assert forall|j: int| 0 <= j < cs implies #[trigger] moved_core(c.update(p, v), d, cs)[j] == moved_core(c, d, cs).update(moved(p, d, cs), v)[j] by {
        if j == moved(p, d, cs) {
            assert(unmoved(j, d, cs) == p);
        } else {
            assert(unmoved(j, d, cs) != p);
        }
    }
    assert(moved_core(c.update(p, v), d, cs) =~= moved_core(c, d, cs).update(moved(p, d, cs), v));
}

/// An operand on a moved core, from a moved address, is the operand moved.
proof fn lemma_operand_moved(core: Seq<Instruction>, cs: int, pc: int, ir: Instruction, mode: Mode, field: u32, d: int)
    requires
        core.len() == cs,
        cs >= 1,
        cells_ok(core, cs as nat),
        0 <= pc < cs,
        field < cs,
        0 <= d < cs,
    ensures
        ({
            let r = operand(core, cs, pc, ir, mode, field);
            let m = operand(moved_core(core, d, cs), cs, moved(pc, d, cs), ir, mode, field);
            &&& m.core == moved_core(r.core, d, cs)
            &&& m.ptr == r.ptr
            &&& m.at == moved(r.at, d, cs)
            &&& m.a == r.a
            &&& m.b == r.b
            &&& m.touched == moved_touch(r.touched, d, cs)
        }),
{
    reveal(operand);
    lemma_moved_basics(core, d, cs);
    let mc = moved_core(core, d, cs);
    let mpc = moved(pc, d, cs);
    let p = fold_add(pc, field as int, cs);
    lemma_fold_moved(pc, field as int, d, cs);
    assert(fold_add(mpc, field as int, cs) == moved(p, d, cs));
    if mode != Mode::Immediate && mode != Mode::Direct {
        let c1 = if mode == Mode::APredec {
            core.update(p, crate::model::with_a(core[p], fold_dec(core[p].a as int, cs) as u32))
        } else if mode == Mode::BPredec {
            core.update(p, crate::model::with_b(core[p], fold_dec(core[p].b as int, cs) as u32))
        } else {
            core
        };
        if mode == Mode::APredec {
            lemma_moved_update(core, p, crate::model::with_a(core[p], fold_dec(core[p].a as int, cs) as u32), d, cs);
        } else if mode == Mode::BPredec {
            lemma_moved_update(core, p, crate::model::with_b(core[p], fold_dec(core[p].b as int, cs) as u32), d, cs);
        }
        assert(c1.len() == cs);
        lemma_moved_basics(c1, d, cs);
        let ind = if crate::model::via_a(mode) { c1[p].a } else { c1[p].b };
        assert(ind < cs) by {
            assert(core[p].a < cs && core[p].b < cs);
        }
        let ptr = fold_add(field as int, ind as int, cs);
        let at = fold_add(pc, ptr, cs);
        lemma_fold_moved(pc, ptr, d, cs);
        if mode == Mode::APostinc {
            lemma_moved_update(c1, p, crate::model::with_a(c1[p], fold_add(c1[p].a as int, 1, cs) as u32), d, cs);
        } else if mode == Mode::BPostinc {
            lemma_moved_update(c1, p, crate::model::with_b(c1[p], fold_add(c1[p].b as int, 1, cs) as u32), d, cs);
        }
    }
}

/// An operand's result moved by `d`.
pub open spec fn moved_operand(r: Operand, d: int, cs: int) -> Operand {
    Operand { core: moved_core(r.core, d, cs), ptr: r.ptr, at: moved(r.at, d, cs), a: r.a, b: r.b, touched: moved_touch(r.touched, d, cs) }
}

/// Executing on a moved state, from a moved address, with moved operands,
/// is executing and moving the result.
#[verifier::rlimit(60)]
proof fn lemma_execute_moved(s: MarsState, w: int, c: Seq<Instruction>, pc: int, ir: Instruction, ra: Operand, rb: Operand, d: int)
    requires
        wf(s),
        0 <= w < s.queues.len(),
        c.len() == s.cs,
        0 <= pc < s.cs,
        0 <= ra.ptr < s.cs,
        0 <= rb.ptr < s.cs,
        0 <= ra.at < s.cs,
        0 <= d < s.cs,
    ensures
        ({
            let cs = s.cs as int;
            let (s2, pushed, wrote) = execute(s, w, c, pc, ir, ra, rb);
            let (m2, mpushed, mwrote) = execute(
                moved_state(s, d),
                w,
                moved_core(c, d, cs),
                moved(pc, d, cs),
                ir,
                moved_operand(ra, d, cs),
                moved_operand(rb, d, cs),
            );
            &&& m2 == moved_state(s2, d)
            &&& s2.queues == s.queues
            &&& s2.cs == s.cs
            &&& mpushed == moved_queue(pushed, d, cs)
            &&& mwrote == moved_cells(wrote, d, cs)
        }),
{
    reveal(execute);
    let cs = s.cs as int;
    lemma_moved_basics(c, d, cs);
    let mpc = moved(pc, d, cs);
    let t = fold_add(pc, rb.ptr, cs);
    lemma_fold_moved(pc, rb.ptr, d, cs);
    lemma_fold_moved(pc, ra.ptr, d, cs);
    lemma_fold_moved(pc, 1, d, cs);
    lemma_fold_moved(pc, 2, d, cs);
    assert(0 <= t < cs);
    assert forall|v: Instruction| #[trigger] moved_core(c.update(t, v), d, cs) == moved_core(c, d, cs).update(moved(t, d, cs), v) by {
        lemma_moved_update(c, t, v, d, cs);
    }
    let ms = moved_state(s, d);
    assert(ms.queues[w].len() == s.queues[w].len());
    let (s2, pushed, wrote) = execute(s, w, c, pc, ir, ra, rb);
    assert(s2.queues == s.queues);
    let (m2, mpushed, mwrote) = execute(ms, w, moved_core(c, d, cs), mpc, ir, moved_operand(ra, d, cs), moved_operand(rb, d, cs));
    assert(mpushed =~= moved_queue(pushed, d, cs));
    assert(mwrote =~= moved_cells(wrote, d, cs));
    assert(m2 =~= moved_state(s2, d));
}

/// One instruction on a moved state is the instruction moved: the same
/// warrior lives or dies, and the cells written are the moved ones.
pub proof fn lemma_step_moved(s: MarsState, w: int, d: int)
    requires
        wf(s),
        0 <= w < s.queues.len(),
        0 <= d < s.cs,
    ensures
        ({
            let r = step(s, w);
            let m = step(moved_state(s, d), w);
            &&& m.state == moved_state(r.state, d)
            &&& m.alive == r.alive
            &&& m.written == moved_cells(r.written, d, s.cs as int)
        }),
{
    let cs = s.cs as int;
    let q = s.queues[w];
    let ms = moved_state(s, d);
    assert(ms.queues[w] == moved_queue(q, d, cs));
    if q.len() > 0 {
        lemma_moved_basics(s.core, d, cs);
        let pc = q[0] as int;
        assert(0 <= pc < cs);
        assert(ms.queues[w][0] as int == moved(pc, d, cs));
        let ir = s.core[pc];
        assert(ms.core[moved(pc, d, cs)] == ir);
        let ra = operand(s.core, cs, pc, ir, ir.a_mode, ir.a);
        crate::model::lemma_operand(s.core, cs, pc, ir, ir.a_mode, ir.a);
        lemma_operand_moved(s.core, cs, pc, ir, ir.a_mode, ir.a, d);
        let rb = operand(ra.core, cs, pc, ir, ir.b_mode, ir.b);
        crate::model::lemma_operand(ra.core, cs, pc, ir, ir.b_mode, ir.b);
        lemma_operand_moved(ra.core, cs, pc, ir, ir.b_mode, ir.b, d);
        let mra = operand(ms.core, cs, moved(pc, d, cs), ir, ir.a_mode, ir.a);
        assert(mra == moved_operand(ra, d, cs));
        let mrb = operand(mra.core, cs, moved(pc, d, cs), ir, ir.b_mode, ir.b);
        assert(mrb == moved_operand(rb, d, cs));
        lemma_execute_moved(s, w, rb.core, pc, ir, ra, rb, d);
        let (s2, pushed, wrote) = execute(s, w, rb.core, pc, ir, ra, rb);
        let nq = q.drop_first() + pushed;
        let mnq = ms.queues[w].drop_first() + moved_queue(pushed, d, cs);
        assert(mnq =~= moved_queue(nq, d, cs));
        let r = step(s, w);
        let m = step(ms, w);
        assert(m.state.queues =~= moved_state(r.state, d).queues);
        assert(m.state =~= moved_state(r.state, d));
        assert(m.written =~= moved_cells(r.written, d, cs));
    } else {
        assert(step(ms, w).state =~= moved_state(step(s, w).state, d));
    }
}

/// Playing on from a moved state is playing on and moving the result: the
/// same outcome after the same number of instructions.
pub proof fn lemma_run_moved(s: MarsState, budget: nat, w: int, d: int)
    requires
        wf(s),
        s.queues.len() == 2,
        0 <= w < 2,
        0 <= d < s.cs,
    ensures
        ({
            let r = run(s, budget, w);
            run(moved_state(s, d), budget, w) == (moved_state(r.0, d), r.1, r.2)
        }),
    decreases budget,
{
    if budget > 0 {
        crate::model::lemma_step(s, w);
        lemma_step_moved(s, w, d);
        let r = step(s, w);
        if r.alive {
            lemma_run_moved(r.state, (budget - 1) as nat, 1 - w, d);
        }
    }
}

/// The core with every cell the same.
proof fn lemma_moved_uniform(c: Seq<Instruction>, d: int, cs: int)
    requires
        c.len() == cs,
        0 <= d < cs,
        forall|i: int, j: int| 0 <= i < cs && 0 <= j < cs ==> #[trigger] c[i] == #[trigger] c[j],
    ensures
        moved_core(c, d, cs) == c,
{
    lemma_moved_basics(c, d, cs);
    assert forall|j: int| 0 <= j < cs implies #[trigger] moved_core(c, d, cs)[j] == c[j] by {
        assert(c[unmoved(j, d, cs)] == c[j]);
    }
    assert(moved_core(c, d, cs) =~= c);
}

/// `(x + k) % cs` moved is `(moved(x) + k) % cs`.
proof fn lemma_mod_moved(x: int, k: int, d: int, cs: int)
    requires
        0 <= x < cs,
        0 <= k,
        0 <= d < cs,
    ensures
        (moved(x, d, cs) + k) % cs == moved((x + k) % cs, d, cs),
        0 <= (x + k) % cs < cs,
{
    vstd::arithmetic::div_mod::lemma_small_mod(d as nat, cs as nat);
    crate::model::lemma_fold_mod(x, d, cs);
    vstd::arithmetic::div_mod::lemma_mod_bound(x + k, cs);
    crate::model::lemma_fold_mod((x + k) % cs, d, cs);
    vstd::arithmetic::div_mod::lemma_add_mod_noop_right((x + d) % cs, k, cs);
    vstd::arithmetic::div_mod::lemma_add_mod_noop(x + d, k, cs);
    vstd::arithmetic::div_mod::lemma_add_mod_noop(x + k, d, cs);
    vstd::arithmetic::div_mod::lemma_add_mod_noop_right((x + k) % cs, d, cs);
    assert(x + d + k == x + k + d);
}

/// Code placed from a moved address into a moved core is the placed core
/// moved.
proof fn lemma_place_moved(core: Seq<Instruction>, code: Seq<Instruction>, pos: int, d: int, cs: int)
    requires
        core.len() == cs,
        0 <= pos < cs,
        0 <= d < cs,
    ensures
        place(moved_core(core, d, cs), code, moved(pos, d, cs), cs) == moved_core(place(core, code, pos, cs), d, cs),
        place(core, code, pos, cs).len() == cs,
    decreases code.len(),
{
    if code.len() > 0 {
        lemma_place_moved(core, code.drop_last(), pos, d, cs);
        let k = code.len() - 1;
        lemma_mod_moved(pos, k, d, cs);
        lemma_moved_update(place(core, code.drop_last(), pos, cs), (pos + k) % cs, code.last(), d, cs);
    }
}

/// Warriors loaded at moved positions are the loaded core moved.
proof fn lemma_load_core_moved(cs: nat, codes: Seq<Seq<Instruction>>, positions: Seq<u32>, d: int, n: nat)
    requires
        1 <= cs <= 65535,
        0 <= d < cs,
        n <= codes.len(),
        n <= positions.len(),
        forall|w: int| 0 <= w < positions.len() ==> #[trigger] positions[w] < cs,
    ensures
        load_core(cs, codes, positions.map_values(|p: u32| moved(p as int, d, cs as int) as u32), n)
            == moved_core(load_core(cs, codes, positions, n), d, cs as int),
        load_core(cs, codes, positions, n).len() == cs,
    decreases n,
{
    let mp = positions.map_values(|p: u32| moved(p as int, d, cs as int) as u32);
    if n == 0 {
        let e = crate::model::empty_core(cs);
        lemma_moved_uniform(e, d, cs as int);
    } else {
        lemma_load_core_moved(cs, codes, positions, d, (n - 1) as nat);
        let prev = load_core(cs, codes, positions, (n - 1) as nat);
        let p = positions[n - 1] as int;
        assert(mp[n - 1] as int == moved(p, d, cs as int));
        lemma_place_moved(prev, codes[n - 1], p, d, cs as int);
    }
}

/// Warriors loaded at positions all moved by `d` are the loaded state
/// moved by `d`.
pub proof fn lemma_loaded_moved(s: MarsState, codes: Seq<Seq<Instruction>>, starts: Seq<u32>, positions: Seq<u32>, d: int)
    requires
        1 <= s.cs <= 65535,
        0 <= d < s.cs,
        codes.len() == 2,
        starts.len() == 2,
        positions.len() == 2,
        s.queues.len() == 2,
        forall|w: int| 0 <= w < 2 ==> #[trigger] positions[w] < s.cs && starts[w] < s.cs,
    ensures
        loaded(s, codes, starts, positions.map_values(|p: u32| moved(p as int, d, s.cs as int) as u32))
            == moved_state(loaded(s, codes, starts, positions), d),
{
    let cs = s.cs as int;
    let mp = positions.map_values(|p: u32| moved(p as int, d, cs) as u32);
    lemma_load_core_moved(s.cs, codes, positions, d, 2);
    let l = loaded(s, codes, starts, positions);
    let ml = loaded(s, codes, starts, mp);
    assert forall|w: int| 0 <= w < 2 implies #[trigger] ml.queues[w] =~= moved_state(l, d).queues[w] by {
        lemma_fold_moved(positions[w] as int, starts[w] as int, d, cs);
        assert(mp[w] as int == moved(positions[w] as int, d, cs));
    }
    assert(ml.queues =~= moved_state(l, d).queues);
    assert(ml =~= moved_state(l, d));
}

/// Two warriors loaded into a well-formed state make a well-formed state.
proof fn lemma_loaded_wf(s: MarsState, codes: Seq<Seq<Instruction>>, starts: Seq<u32>, positions: Seq<u32>)
    requires
        wf(s),
        s.queues.len() == 2,
        codes.len() == 2,
        starts.len() == 2,
        positions.len() == 2,
        forall|w: int| 0 <= w < 2 ==> #[trigger] positions[w] < s.cs && starts[w] < s.cs,
        forall|w: int, i: int| 0 <= w < 2 && 0 <= i < codes[w].len() ==> (#[trigger] codes[w][i]).a < s.cs && codes[w][i].b < s.cs,
    ensures
        wf(loaded(s, codes, starts, positions)),
        loaded(s, codes, starts, positions).queues.len() == 2,
        loaded(s, codes, starts, positions).cs == s.cs,
{
    crate::model::lemma_load_core_ok(s.cs, codes, positions, 2);
    let l = loaded(s, codes, starts, positions);
    assert forall|w: int, i: int| 0 <= w < l.queues.len() && 0 <= i < l.queues[w].len() implies #[trigger] l.queues[w][i] < l.cs by {
        assert(l.queues[w] == seq![fold_add(positions[w] as int, starts[w] as int, s.cs as int) as u32]);
    }
}

/// Battles do not depend on absolute addresses: loading both warriors `d`
/// cells further round the core gives the same outcome after the same
/// number of instructions.
pub proof fn lemma_battles_do_not_depend_on_absolute_addresses(
    s: MarsState,
    codes: Seq<Seq<Instruction>>,
    starts: Seq<u32>,
    positions: Seq<u32>,
    first: int,
    cycles: nat,
    d: int,
)
    requires
        wf(s),
        s.queues.len() == 2,
        codes.len() == 2,
        starts.len() == 2,
        positions.len() == 2,
        0 <= first < 2,
        0 <= d < s.cs,
        forall|w: int| 0 <= w < 2 ==> #[trigger] positions[w] < s.cs && starts[w] < s.cs,
        forall|w: int, i: int| 0 <= w < 2 && 0 <= i < codes[w].len() ==> (#[trigger] codes[w][i]).a < s.cs && codes[w][i].b < s.cs,
    ensures
        ({
            let here = crate::model::round(s, codes, starts, positions, first, cycles);
            let there = crate::model::round(
                s,
                codes,
                starts,
                positions.map_values(|p: u32| moved(p as int, d, s.cs as int) as u32),
                first,
                cycles,
            );
            &&& there.1 == here.1
            &&& there.2 == here.2
        }),
{
    lemma_loaded_wf(s, codes, starts, positions);
    lemma_loaded_moved(s, codes, starts, positions, d);
    lemma_run_moved(loaded(s, codes, starts, positions), 2 * cycles, first, d);
}

} // verus!
