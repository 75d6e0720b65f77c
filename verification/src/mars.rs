//! MARS: the Memory Array Redcode Simulator, the plain reference engine.
//! It follows the semantics in `crate::model` (pMARS's) step by step,
//! written for being checked, not for speed.
use crate::assembler::{match_config, engine_config, spec_pspace_size, lemma_pspace_size_positive, Config};
use crate::model::{self, empty_core, MarsState};
use crate::redcode::{Instruction, Mode, Modifier, Opcode, Warrior};
use std::collections::VecDeque;
use vstd::prelude::*;

verus! {

#[derive(Clone, Copy, Debug, PartialEq, Eq, Structural)]
pub enum Outcome {
    /// Index of the surviving warrior.
    Win(usize),
    Tie,
}

/// Score of a match: wins of the first warrior, wins of the second, ties.
#[derive(Clone, Copy, Debug, PartialEq, Eq, Structural)]
pub struct Score {
    pub w1: u32,
    pub w2: u32,
    pub ties: u32,
}

pub open spec fn zero_score() -> Score {
    Score { w1: 0, w2: 0, ties: 0 }
}

impl Default for Score {
    fn default() -> (r: Score)
        ensures
            r == zero_score(),
    {
        Score { w1: 0, w2: 0, ties: 0 }
    }
}

pub struct Mars {
    cs: u32,
    max_processes: usize,
    pub core: Vec<Instruction>,
    queues: Vec<VecDeque<u32>>,
    /// P-space banks; `bank[w]` is the bank warrior w uses (PIN shares one).
    pspace: Vec<Vec<u32>>,
    bank: Vec<usize>,
    /// P-space cell 0 of each warrior: the result of its previous round.
    last_result: Vec<u32>,
    pspace_size: u32,
    /// Instructions executed since creation; for benchmarks.
    pub steps: u64,
    /// Instructions executed in the last round played.
    pub last_round_steps: u64,
    /// The cells the last instruction wrote, in order.
    written: Vec<u32>,
}

impl View for Mars {
    type V = MarsState;

    closed spec fn view(&self) -> MarsState {
        MarsState {
            cs: self.cs as nat,
            max_processes: self.max_processes as nat,
            core: self.core@,
            queues: self.queues@.map_values(|q: VecDeque<u32>| q@),
            pspace: self.pspace@.map_values(|b: Vec<u32>| b@),
            bank: self.bank@.map_values(|b: usize| b as nat),
            last_result: self.last_result@,
            pspace_size: self.pspace_size as nat,
        }
    }
}

/// The state of a MARS that `Mars::new` makes for a configuration.
pub open spec fn initial_state(cfg: Config, warriors: nat) -> MarsState {
    MarsState {
        cs: cfg.core_size as nat,
        max_processes: cfg.max_processes as nat,
        core: empty_core(cfg.core_size as nat),
        queues: Seq::new(warriors, |w: int| Seq::<u32>::empty()),
        pspace: Seq::new(warriors, |k: int| Seq::new(spec_pspace_size(cfg.core_size as nat), |i: int| 0u32)),
        bank: Seq::new(warriors, |w: int| w as nat),
        last_result: Seq::new(warriors, |w: int| (cfg.core_size - 1) as u32),
        pspace_size: spec_pspace_size(cfg.core_size as nat),
    }
}

/// The cells of a warrior's code hold numbers of the core, and its start
/// is an offset into the core.
pub open spec fn loadable(code: Seq<Instruction>, start: u32, cs: nat) -> bool {
    &&& start < cs
    &&& forall|i: int| 0 <= i < code.len() ==> (#[trigger] code[i]).a < cs && code[i].b < cs
}

pub open spec fn warrior_loadable(w: Warrior, cs: nat) -> bool {
    loadable(w.code@, w.start, cs)
}

impl Mars {
    /// The invariant of a MARS.
    pub closed spec fn wf(&self) -> bool {
        &&& model::wf(self@)
        &&& self.pspace_size as nat == spec_pspace_size(self.cs as nat)
    }

    /// Instructions executed since creation.
    pub closed spec fn step_count(&self) -> u64 {
        self.steps
    }

    /// Instructions executed in the last round.
    pub closed spec fn round_step_count(&self) -> u64 {
        self.last_round_steps
    }

    /// The cells the last instruction wrote, in order.
    pub closed spec fn spec_written(&self) -> Seq<u32> {
        self.written@
    }

    /// A MARS for `warriors` warriors under `cfg`: an empty core, no
    /// processes, zero P-space.
    pub fn new(cfg: &Config, warriors: usize) -> (m: Mars)
        requires
            engine_config(*cfg),
        ensures
            m@ == initial_state(*cfg, warriors as nat),
            m.wf(),
            m.step_count() == 0,
            m.round_step_count() == 0,
    {
        let ps = cfg.pspace_size();
        proof {
            lemma_pspace_size_positive(cfg.core_size as nat);
        }
        let mut queues: Vec<VecDeque<u32>> = Vec::new();
        let mut pspace: Vec<Vec<u32>> = Vec::new();
        let mut bank: Vec<usize> = Vec::new();
        let mut last_result: Vec<u32> = Vec::new();
        let mut w: usize = 0;
        while w < warriors
            invariant
                w <= warriors,
                cfg.core_size >= 3,
                queues@.len() == w,
                pspace@.len() == w,
                bank@.len() == w,
                last_result@.len() == w,
                forall|k: int| 0 <= k < w ==> (#[trigger] queues@[k])@ == Seq::<u32>::empty(),
                forall|k: int| 0 <= k < w ==> (#[trigger] pspace@[k])@ == Seq::new(ps as nat, |i: int| 0u32),
                forall|k: int| 0 <= k < w ==> #[trigger] bank@[k] == k,
                forall|k: int| 0 <= k < w ==> #[trigger] last_result@[k] == cfg.core_size - 1,
            decreases warriors - w,
        {
            queues.push(VecDeque::new());
            let z: Vec<u32> = vec![0u32; ps as usize];
            assert(z@ =~= Seq::new(ps as nat, |i: int| 0u32));
            pspace.push(z);
            bank.push(w);
            last_result.push(cfg.core_size - 1);
            w += 1;
        }
        let core: Vec<Instruction> = vec![Instruction::empty(); cfg.core_size as usize];
        let m = Mars {
            cs: cfg.core_size,
            max_processes: cfg.max_processes as usize,
            core,
            queues,
            pspace,
            bank,
            last_result,
            pspace_size: ps,
            steps: 0,
            last_round_steps: 0,
            written: Vec::new(),
        };
        assert(m@.core =~= empty_core(cfg.core_size as nat));
        assert(m@.queues =~= initial_state(*cfg, warriors as nat).queues);
        assert(m@.pspace =~= initial_state(*cfg, warriors as nat).pspace);
        assert(m@.bank =~= initial_state(*cfg, warriors as nat).bank);
        assert(m@.last_result =~= initial_state(*cfg, warriors as nat).last_result);
        m
    }
}


impl Mars {
    #[inline]
    fn add(&self, x: u32, y: u32) -> (r: u32)
        requires
            3 <= self.cs <= 65535,
            x < self.cs,
            y < self.cs,
        ensures
            r as int == model::fold_add(x as int, y as int, self.cs as int),
            r < self.cs,
    {
        let s = x + y;
        if s >= self.cs {
            s - self.cs
        } else {
            s
        }
    }

    #[inline]
    fn dec(&self, x: u32) -> (r: u32)
        requires
            3 <= self.cs <= 65535,
            x < self.cs,
        ensures
            r as int == model::fold_dec(x as int, self.cs as int),
            r < self.cs,
    {
        if x == 0 {
            self.cs - 1
        } else {
            x - 1
        }
    }

    fn get_pspace(&self, w: usize, idx: u32) -> (r: u32)
        requires
            self.wf(),
            w < self@.queues.len(),
        ensures
            r == model::pspace_get(self@, w as int, idx as int),
    {
        let i = (idx % self.pspace_size) as usize;
        if i == 0 {
            self.last_result[w]
        } else {
            let b = self.bank[w];
            assert(self@.bank[w as int] == b as nat);
            assert(self@.pspace.len() == self.pspace@.len());
            assert(self@.pspace[b as int] == self.pspace@[b as int]@);
            assert(self@.pspace[b as int].len() == self.pspace_size);
            self.pspace[b][i]
        }
    }

    fn set_pspace(&mut self, w: usize, idx: u32, v: u32)
        requires
            old(self).wf(),
            w < old(self)@.queues.len(),
        ensures
            final(self)@ == model::pspace_set(old(self)@, w as int, idx as int, v),
            final(self).cs == old(self).cs,
            final(self).pspace_size == old(self).pspace_size,
            final(self).steps == old(self).steps,
            final(self).last_round_steps == old(self).last_round_steps,
            final(self).written == old(self).written,
    {
        let i = (idx % self.pspace_size) as usize;
        if i == 0 {
            self.last_result.set(w, v);
            assert(self@.last_result =~= old(self)@.last_result.update(w as int, v));
            assert(self@ =~= model::pspace_set(old(self)@, w as int, idx as int, v));
        } else {
            let b = self.bank[w];
            assert(self@.bank[w as int] == b as nat);
            assert(self@.pspace.len() == self.pspace@.len());
            assert(self@.pspace[b as int] == self.pspace@[b as int]@);
            assert(self@.pspace[b as int].len() == self.pspace_size);
            let mut bank: Vec<u32> = Vec::new();
            self.pspace.set_and_swap(b, &mut bank);
            assert(bank@ == old(self)@.pspace[b as int]);
            bank.set(i, v);
            self.pspace.set_and_swap(b, &mut bank);
            assert(self@.pspace =~= old(self)@.pspace.update(b as int, old(self)@.pspace[b as int].update(i as int, v)));
            assert(self@ =~= model::pspace_set(old(self)@, w as int, idx as int, v));
        }
    }

    /// Evaluate one operand: the pointer offset, the address of the cell it
    /// points to, that cell's A and B numbers at evaluation time, and the
    /// cell incremented or decremented.
    fn operand(&mut self, pc: u32, ir: Instruction, mode: Mode, field: u32) -> (r: (u32, u32, u32, u32, Option<u32>))
        requires
            old(self).wf(),
            pc < old(self).cs,
            ir.a < old(self).cs,
            ir.b < old(self).cs,
            field < old(self).cs,
        ensures
            ({
                let o = model::operand(old(self)@.core, old(self).cs as int, pc as int, ir, mode, field);
                &&& final(self)@ == (MarsState { core: o.core, ..old(self)@ })
                &&& r.0 as int == o.ptr
                &&& r.1 as int == o.at
                &&& r.2 == o.a
                &&& r.3 == o.b
                &&& match r.4 { Some(p) => o.touched == Some(p as int), None => o.touched is None }
            }),
            final(self).wf(),
            final(self).cs == old(self).cs,
            final(self).pspace_size == old(self).pspace_size,
            final(self).steps == old(self).steps,
            final(self).last_round_steps == old(self).last_round_steps,
            final(self).written == old(self).written,
    {
        reveal(model::operand);
        proof {
            model::lemma_operand(old(self)@.core, self.cs as int, pc as int, ir, mode, field);
        }
        let ghost cs = self.cs as int;
        match mode {
            Mode::Immediate => {
                return (0, pc, ir.a, ir.b, None);
            },
            Mode::Direct => {
                let at = self.add(pc, field);
                assert(self@.core[at as int] == self.core@[at as int]);
                let c = self.core[at as usize];
                return (field, at, c.a, c.b, None);
            },
            _ => {},
        }
        let p = self.add(pc, field);
        let ghost c0 = self@.core;
        match mode {
            Mode::APredec => {
                let mut c = self.core[p as usize];
                c.a = self.dec(c.a);
                self.core.set(p as usize, c);
            },
            Mode::BPredec => {
                let mut c = self.core[p as usize];
                c.b = self.dec(c.b);
                self.core.set(p as usize, c);
            },
            _ => {},
        }
        let ghost c1 = self@.core;
        assert(model::cells_ok(c1, self.cs as nat)) by {
            assert forall|i: int| 0 <= i < self.cs implies (#[trigger] c1[i]).a < self.cs && c1[i].b < self.cs by {
                if i == p as int {
                } else {
                    assert(c0[i] == c1[i]);
                }
            }
        }
        let cp = self.core[p as usize];
        let ind = match mode {
            Mode::AIndirect | Mode::APredec | Mode::APostinc => cp.a,
            _ => cp.b,
        };
        let ptr = self.add(field, ind);
        let at = self.add(pc, ptr);
        let cell = self.core[at as usize];
        match mode {
            Mode::APostinc => {
                let mut c = self.core[p as usize];
                c.a = self.add(c.a, 1);
                self.core.set(p as usize, c);
            },
            Mode::BPostinc => {
                let mut c = self.core[p as usize];
                c.b = self.add(c.b, 1);
                self.core.set(p as usize, c);
            },
            _ => {},
        }
        let touched = match mode {
            Mode::AIndirect | Mode::BIndirect => None,
            _ => Some(p),
        };
        assert(self@ =~= MarsState { core: model::operand(old(self)@.core, cs, pc as int, ir, mode, field).core, ..old(self)@ });
        (ptr, at, cell.a, cell.b, touched)
    }
}


impl Mars {
    /// Queue `v` for warrior `w`.
    fn push(&mut self, w: usize, v: u32)
        requires
            old(self).wf(),
            w < old(self)@.queues.len(),
            old(self)@.queues[w as int].len() < old(self)@.max_processes,
            v < old(self).cs,
        ensures
            final(self)@ == (MarsState { queues: old(self)@.queues.update(w as int, old(self)@.queues[w as int].push(v)), ..old(self)@ }),
            final(self).wf(),
            final(self).cs == old(self).cs,
            final(self).max_processes == old(self).max_processes,
            final(self).pspace_size == old(self).pspace_size,
            final(self).steps == old(self).steps,
            final(self).last_round_steps == old(self).last_round_steps,
            final(self).written == old(self).written,
    {
        let mut q: VecDeque<u32> = VecDeque::new();
        self.queues.set_and_swap(w, &mut q);
        assert(q@ == old(self)@.queues[w as int]);
        q.push_back(v);
        self.queues.set_and_swap(w, &mut q);
        assert(self@.queues =~= old(self)@.queues.update(w as int, old(self)@.queues[w as int].push(v)));
        assert(self@ =~= MarsState { queues: old(self)@.queues.update(w as int, old(self)@.queues[w as int].push(v)), ..old(self)@ });
        proof {
            let s = self@;
            assert forall|u: int, i: int| 0 <= u < s.queues.len() && 0 <= i < s.queues[u].len() implies #[trigger] s.queues[u][i] < s.cs by {
                if u != w as int {
                    assert(s.queues[u] == old(self)@.queues[u]);
                } else if i < old(self)@.queues[u].len() {
                }
            }
            assert forall|u: int| 0 <= u < s.queues.len() implies #[trigger] s.queues[u].len() <= s.max_processes by {
                if u != w as int {
                    assert(s.queues[u] == old(self)@.queues[u]);
                }
            }
        }
    }

    /// Clear the core and load each warrior at its position, one process
    /// each at its start; warriors without a position get no process.
    pub fn load(&mut self, warriors: &[&Warrior], positions: &[u32])
        requires
            old(self).wf(),
            warriors@.len() == positions@.len(),
            warriors@.len() <= old(self)@.queues.len(),
            forall|i: int| 0 <= i < warriors@.len() ==> warrior_loadable(*#[trigger] warriors@[i], old(self)@.cs),
            forall|i: int| 0 <= i < positions@.len() ==> #[trigger] positions@[i] < old(self)@.cs,
        ensures
            final(self)@ == model::loaded(old(self)@, codes_of(warriors@), starts_of(warriors@), positions@),
            final(self).wf(),
            final(self).step_count() == old(self).step_count(),
            final(self).round_step_count() == old(self).round_step_count(),
    {
        let ghost s = self@;
        let ghost codes = codes_of(warriors@);
        let n = self.core.len();
        let mut i: usize = 0;
        while i < n
            invariant
                self.wf(),
                self@ == (MarsState { core: self@.core, ..s }),
                self.steps == old(self).steps,
                self.last_round_steps == old(self).last_round_steps,
                n == self.core@.len(),
                i <= n,
                forall|k: int| 0 <= k < i ==> #[trigger] self.core@[k] == crate::redcode::empty_cell(),
            decreases n - i,
        {
            let ghost before = self@;
            self.core.set(i, Instruction::empty());
            proof {
                model::lemma_cells_update(before.core, s.cs, i as int, crate::redcode::empty_cell());
                model::lemma_wf_with_core(before, self@.core);
                assert(self@ =~= (MarsState { core: self@.core, ..before }));
            }
            i += 1;
        }
        assert(self@.core =~= empty_core(s.cs));
        proof {
            assert forall|v: int, k: int| 0 <= v < codes.len() && 0 <= k < codes[v].len() implies (#[trigger] codes[v][k]).a < s.cs && codes[v][k].b < s.cs by {
                assert(warrior_loadable(*warriors@[v], s.cs));
                assert(codes[v] == warriors@[v].code@);
            }
        }
        let mut w: usize = 0;
        while w < warriors.len()
            invariant
                self.wf(),
                self@ == (MarsState { core: self@.core, ..s }),
                self.steps == old(self).steps,
                self.last_round_steps == old(self).last_round_steps,
                codes == codes_of(warriors@),
                warriors@.len() == positions@.len(),
                w <= warriors@.len(),
                forall|v: int, k: int| 0 <= v < codes.len() && 0 <= k < codes[v].len() ==> (#[trigger] codes[v][k]).a < s.cs && codes[v][k].b < s.cs,
                forall|i: int| 0 <= i < positions@.len() ==> #[trigger] positions@[i] < s.cs,
                self@.core == model::load_core(s.cs, codes, positions@, w as nat),
            decreases warriors@.len() - w,
        {
            let war = warriors[w];
            let pos = positions[w];
            assert(codes[w as int] == war.code@);
            let mut k: usize = 0;
            let ghost base = self@.core;
            proof {
                model::lemma_load_core_ok(s.cs, codes, positions@, w as nat);
            }
            while k < war.code.len()
                invariant
                    self.wf(),
                    self@ == (MarsState { core: self@.core, ..s }),
                    self.steps == old(self).steps,
                    self.last_round_steps == old(self).last_round_steps,
                    k <= war.code@.len(),
                    pos < s.cs,
                    s.cs == self.cs,
                    forall|j: int| 0 <= j < war.code@.len() ==> (#[trigger] war.code@[j]).a < s.cs && war.code@[j].b < s.cs,
                    model::cells_ok(base, s.cs),
                    base.len() == s.cs,
                    self@.core == model::place(base, war.code@.take(k as int), pos as int, s.cs as int),
                decreases war.code@.len() - k,
            {
                let at = self.add(pos, (k % (self.cs as usize)) as u32);
                proof {
                    model::lemma_fold_mod(pos as int, k as int, s.cs as int);
                    assert(war.code@.take(k + 1).drop_last() =~= war.code@.take(k as int));
                }
                let ghost before = self@;
                self.core.set(at as usize, war.code[k]);
                proof {
                    model::lemma_cells_update(before.core, s.cs, at as int, war.code@[k as int]);
                    model::lemma_wf_with_core(before, self@.core);
                    assert(self@ =~= (MarsState { core: self@.core, ..before }));
                }
                k += 1;
            }
            assert(war.code@.take(war.code@.len() as int) =~= war.code@);
            w += 1;
        }
        assert(self@.core == model::load_core(s.cs, codes, positions@, codes.len()));
        let ghost loaded_core = self@.core;
        let nq = self.queues.len();
        let mut v: usize = 0;
        while v < nq
            invariant
                self.wf(),
                self@.core == loaded_core,
                nq == self@.queues.len(),
                v <= nq,
                self@ == (MarsState { queues: self@.queues, core: loaded_core, ..s }),
                self.steps == old(self).steps,
                self.last_round_steps == old(self).last_round_steps,
                warriors@.len() == positions@.len(),
                warriors@.len() <= nq,
                forall|i: int| 0 <= i < positions@.len() ==> #[trigger] positions@[i] < s.cs,
                forall|u: int| 0 <= u < v ==> #[trigger] self@.queues[u] == model::loaded(s, codes, starts_of(warriors@), positions@).queues[u],
                forall|u: int| v <= u < nq ==> #[trigger] self@.queues[u] == s.queues[u],
                forall|i: int| 0 <= i < warriors@.len() ==> warrior_loadable(*#[trigger] warriors@[i], s.cs),
                codes == codes_of(warriors@),
                nq == s.queues.len(),
            decreases nq - v,
        {
            let ghost before = self@;
            let mut q: VecDeque<u32> = VecDeque::new();
            self.queues.set_and_swap(v, &mut q);
            assert(self@.queues =~= before.queues.update(v as int, Seq::<u32>::empty()));
            proof {
                model::lemma_wf_with_queue(before, v as int, Seq::<u32>::empty());
                assert(self@ =~= (MarsState { queues: before.queues.update(v as int, Seq::<u32>::empty()), ..before }));
            }
            if v < warriors.len() {
                let war = warriors[v];
                assert(warrior_loadable(*warriors@[v as int], s.cs));
                let start = self.add(positions[v], war.start);
                self.push(v, start);
                assert(self@.queues[v as int] =~= seq![start]);
                assert(starts_of(warriors@)[v as int] == war.start);
                assert(self@.queues[v as int] =~= model::loaded(s, codes, starts_of(warriors@), positions@).queues[v as int]);
            } else {
                assert(codes.len() == warriors@.len());
                assert(self@.queues[v as int] =~= model::loaded(s, codes, starts_of(warriors@), positions@).queues[v as int]);
            }
            v += 1;
            proof {
                let l = model::loaded(s, codes, starts_of(warriors@), positions@);
                assert forall|u: int| 0 <= u < v implies #[trigger] self@.queues[u] == l.queues[u] by {
                    if u < v - 1 {
                        assert(self@.queues[u] == before.queues[u]);
                    }
                }
                assert forall|u: int| v <= u < nq implies #[trigger] self@.queues[u] == s.queues[u] by {
                    assert(self@.queues[u] == before.queues[u]);
                }
            }
        }
        proof {
            let l = model::loaded(s, codes, starts_of(warriors@), positions@);
            assert(self@.queues =~= l.queues);
            assert(self@ =~= l);
        }
    }

    /// The core, cell by cell.
    pub fn cells(&self) -> (c: &[Instruction])
        ensures
            c@ == self@.core,
    {
        self.core.as_slice()
    }

    /// Instructions executed since creation.
    pub fn total_steps(&self) -> (n: u64)
        ensures
            n == self.step_count(),
    {
        self.steps
    }

    /// Instructions executed in the last round played.
    pub fn round_steps(&self) -> (n: u64)
        ensures
            n == self.round_step_count(),
    {
        self.last_round_steps
    }

    /// The number of processes warrior `w` has.
    pub fn processes(&self, w: usize) -> (n: usize)
        requires
            w < self@.queues.len(),
        ensures
            n == self@.queues[w as int].len(),
    {
        self.queues[w].len()
    }

    /// Take the next process of warrior `w` off its queue.
    fn pop(&mut self, w: usize) -> (pc: Option<u32>)
        requires
            old(self).wf(),
            w < old(self)@.queues.len(),
        ensures
            final(self).wf(),
            match pc {
                Some(p) => {
                    &&& old(self)@.queues[w as int].len() > 0
                    &&& p == old(self)@.queues[w as int][0]
                    &&& final(self)@ == (MarsState {
                        queues: old(self)@.queues.update(w as int, old(self)@.queues[w as int].drop_first()),
                        ..old(self)@
                    })
                },
                None => old(self)@.queues[w as int].len() == 0 && final(self)@ == old(self)@,
            },
            final(self).cs == old(self).cs,
            final(self).pspace_size == old(self).pspace_size,
            final(self).steps == old(self).steps,
            final(self).last_round_steps == old(self).last_round_steps,
            final(self).written == old(self).written,
    {
        let ghost s = self@;
        let mut q: VecDeque<u32> = VecDeque::new();
        self.queues.set_and_swap(w, &mut q);
        assert(q@ == s.queues[w as int]);
        let popped = q.pop_front();
        self.queues.set_and_swap(w, &mut q);
        let ghost s1 = self@;
        if popped.is_none() {
            assert(s1.queues =~= s.queues);
            assert(s1 =~= s);
        } else {
            assert(s1.queues =~= s.queues.update(w as int, s.queues[w as int].drop_first()));
            assert(model::wf(s1)) by {
                assert forall|u: int, i: int| 0 <= u < s1.queues.len() && 0 <= i < s1.queues[u].len() implies #[trigger] s1.queues[u][i] < s1.cs by {
                    if u != w as int {
                        assert(s1.queues[u] == s.queues[u]);
                    } else {
                        assert(s1.queues[u][i] == s.queues[u][i + 1]);
                    }
                }
                assert forall|u: int| 0 <= u < s1.queues.len() implies #[trigger] s1.queues[u].len() <= s1.max_processes by {
                    if u != w as int {
                        assert(s1.queues[u] == s.queues[u]);
                    }
                }
            }
            assert(s1 =~= (MarsState { queues: s.queues.update(w as int, s.queues[w as int].drop_first()), ..s }));
        }
        popped
    }

    /// Execute one instruction of warrior `w`. Returns false if the warrior
    /// has no processes left afterwards.
    #[verifier::spinoff_prover]
    pub fn step(&mut self, w: usize) -> (alive: bool)
        requires
            old(self).wf(),
            w < old(self)@.queues.len(),
        ensures
            ({
                let r = model::step(old(self)@, w as int);
                &&& final(self)@ == r.state
                &&& alive == r.alive
                &&& final(self).spec_written() == as_cells(r.written)
            }),
            final(self).wf(),
            final(self).step_count() == (if old(self)@.queues[w as int].len() > 0 && old(self).step_count() < u64::MAX {
                (old(self).step_count() + 1) as u64
            } else {
                old(self).step_count()
            }),
            final(self).round_step_count() == old(self).round_step_count(),
    {
        let ghost s = self@;
        let pc = match self.pop(w) {
            Some(pc) => pc,
            None => {
                self.written = Vec::new();
                assert(self.written@ =~= as_cells(Seq::<int>::empty()));
                return false;
            },
        };
        if self.steps < u64::MAX {
            self.steps = self.steps + 1;
        }
        let ghost popped = self@;
        assert(self@.core[pc as int] == self.core@[pc as int]);
        let ir = self.core[pc as usize];
        assert(s.core[pc as int].a < s.cs && s.core[pc as int].b < s.cs);
        let ghost ra_s = model::operand(s.core, s.cs as int, pc as int, ir, ir.a_mode, ir.a);
        let ghost rb_s = model::operand(ra_s.core, s.cs as int, pc as int, ir, ir.b_mode, ir.b);
        let (args, mut written) = self.operands(pc, ir);
        proof {
            lemma_ready(self@, s, w as int, args, ra_s, rb_s);
        }
        self.dispatch(w, args, Ghost(s), Ghost(ra_s), Ghost(rb_s), &mut written);
        self.written = written;
        let r = self.queues[w].len() != 0;
        proof {
            lemma_step_parts(s, w as int, args, ra_s, rb_s);
            assert(self@.queues[w as int] == self.queues@[w as int]@);
            let rr = model::step(s, w as int);
            let ex = model::execute(s, w as int, rb_s.core, pc as int, ir, ra_s, rb_s);
            let tc = model::touched_cells(ra_s.touched, rb_s.touched);
            assert(self@ == rr.state);
            assert(as_cells(tc + ex.2) =~= as_cells(tc) + as_cells(ex.2));
            assert(self.written@ == as_cells(rr.written));
        }
        r
    }

    /// ADD, SUB or MUL of two numbers of the core.
    fn arith(&self, op: Opcode, x: u32, y: u32) -> (r: u32)
        requires
            3 <= self.cs <= 65535,
            x < self.cs,
            y < self.cs,
        ensures
            r as int == model::arith(op, x as int, y as int, self.cs as int),
            r < self.cs,
            op == Opcode::Add ==> model::is_sum(r as int, x as int, y as int, self.cs as int),
            op == Opcode::Sub ==> model::is_difference(r as int, x as int, y as int, self.cs as int),
    {
        proof {
            model::lemma_arith_laws(x as int, y as int, self.cs as int);
        }
        match op {
            Opcode::Add => (x + y) % self.cs,
            Opcode::Sub => (x + self.cs - y) % self.cs,
            _ => {
                assert(x as int * y as int <= 65535 * 65535) by (nonlinear_arith)
                    requires x < 65536, y < 65536;
                ((x as u64 * y as u64) % self.cs as u64) as u32
            },
        }
    }
}


/// What an observer of a round is shown: the MARS right after the
/// warriors are loaded, and after each instruction the warrior that moved,
/// the cells that instruction wrote, in order, and the number of
/// instructions the round has executed so far (from 1). It sees the MARS
/// and cannot change it.
pub trait Observer {
    /// The observer's settings, which watching a round leaves as they are.
    open spec fn settings(&self) -> Seq<int> {
        Seq::empty()
    }

    /// The instructions of the round the observer has been shown; an
    /// observer keeps count of them to meet `after_step`'s contract.
    open spec fn steps_seen(&self) -> int {
        0
    }

    /// What the observer has been shown of the round: for each instruction,
    /// the warrior that ran it and the cells it wrote.
    open spec fn log(&self) -> Seq<(usize, Seq<u32>)> {
        Seq::empty()
    }

    /// The observer's own invariant, which watching a round keeps.
    open spec fn ok(&self) -> bool {
        true
    }

    /// What the observer has been shown of the processes: after each
    /// instruction, the number of processes of each warrior.
    open spec fn counts(&self) -> Seq<(nat, nat)> {
        Seq::empty()
    }

    fn loaded(&mut self, mars: &Mars)
        requires
            mars.wf(),
            mars@.queues.len() == 2,
        ensures
            final(self).settings() == old(self).settings(),
            final(self).steps_seen() == 0,
            final(self).log() == Seq::<(usize, Seq<u32>)>::empty(),
            final(self).counts() == Seq::<(nat, nat)>::empty(),
            final(self).ok(),
    ;

    /// The round's instruction number `step` (from 1, one by one) was run
    /// by warrior `w` and wrote the cells `written`.
    fn after_step(&mut self, mars: &Mars, w: usize, written: &[u32], step: u64)
        requires
            mars.wf(),
            mars@.queues.len() == 2,
            w < 2,
            forall|i: int| 0 <= i < written@.len() ==> #[trigger] written@[i] < mars@.cs,
            1 <= step <= 2 * 0xffff_ffffu64,
            step == old(self).steps_seen() + 1,
            old(self).ok(),
        ensures
            final(self).ok(),
            final(self).settings() == old(self).settings(),
            final(self).steps_seen() == step,
            final(self).log() == old(self).log().push((w, written@)),
            final(self).counts() == old(self).counts().push((mars@.queues[0].len(), mars@.queues[1].len())),
    ;
}

/// The instructions of a run, as `model::run` runs them: for each, the
/// warrior that ran it and the cells it wrote.
pub open spec fn run_log(s: MarsState, budget: nat, w: int) -> Seq<(usize, Seq<u32>)>
    decreases budget,
{
    if budget == 0 {
        Seq::empty()
    } else {
        let r = model::step(s, w);
        if !r.alive {
            seq![(w as usize, as_cells(r.written))]
        } else {
            seq![(w as usize, as_cells(r.written))] + run_log(r.state, (budget - 1) as nat, 1 - w)
        }
    }
}

/// The processes of each warrior after each instruction of a run, as
/// `model::run` runs them.
pub open spec fn run_counts(s: MarsState, budget: nat, w: int) -> Seq<(nat, nat)>
    decreases budget,
{
    if budget == 0 {
        Seq::empty()
    } else {
        let r = model::step(s, w);
        let c = (r.state.queues[0].len(), r.state.queues[1].len());
        if !r.alive {
            seq![c]
        } else {
            seq![c] + run_counts(r.state, (budget - 1) as nat, 1 - w)
        }
    }
}

/// An observer that looks at nothing.
struct Unobserved {
    seen: Ghost<int>,
    shown: Ghost<Seq<(usize, Seq<u32>)>>,
    counted: Ghost<Seq<(nat, nat)>>,
}

impl Observer for Unobserved {
    open spec fn settings(&self) -> Seq<int> {
        Seq::empty()
    }

    closed spec fn steps_seen(&self) -> int {
        self.seen@
    }

    closed spec fn log(&self) -> Seq<(usize, Seq<u32>)> {
        self.shown@
    }

    closed spec fn counts(&self) -> Seq<(nat, nat)> {
        self.counted@
    }

    fn loaded(&mut self, mars: &Mars) {
        self.seen = Ghost(0);
        self.shown = Ghost(Seq::empty());
        self.counted = Ghost(Seq::empty());
    }

    fn after_step(&mut self, mars: &Mars, w: usize, written: &[u32], step: u64) {
        self.seen = Ghost(step as int);
        self.shown = Ghost(self.shown@.push((w, written@)));
        self.counted = Ghost(self.counted@.push((mars@.queues[0].len(), mars@.queues[1].len())));
    }
}

/// `same_pin` on two PINs: both set and equal.
pub(crate) fn pins_match(x: Option<i64>, y: Option<i64>) -> (r: bool)
    ensures
        r == (x is Some && x == y),
{
    match (x, y) {
        (Some(a), Some(b)) => a == b,
        _ => false,
    }
}

impl Mars {
    /// Fresh P-space for a match, shared between warriors with the same
    /// PIN (pspace_init() in pMARS): banks numbered in the order their first
    /// warrior comes, zero everywhere; cell 0 starts at CORESIZE-1.
    pub fn begin_match(&mut self, warriors: &[&Warrior])
        requires
            old(self).wf(),
            warriors@.len() == old(self)@.queues.len(),
        ensures
            final(self)@ == model::fresh_pspace(old(self)@, pins_of(warriors@)),
            final(self).wf(),
            final(self).step_count() == old(self).step_count(),
            final(self).round_step_count() == old(self).round_step_count(),
    {
        let ghost pins = pins_of(warriors@);
        let n = warriors.len();
        let mut bank: Vec<usize> = Vec::new();
        let mut next: usize = 0;
        let mut i: usize = 0;
        while i < n
            invariant
                i <= n,
                n == warriors@.len(),
                pins == pins_of(warriors@),
                bank@.len() == i,
                next <= i,
                next as nat == model::banks_opened(pins, i as int),
                forall|k: int| 0 <= k < i ==> (#[trigger] bank@[k]) as nat == model::bank_of(pins, k),
                forall|k: int| 0 <= k < i ==> #[trigger] bank@[k] < next,
            decreases n - i,
        {
            let mut j: usize = 0;
            while j < i && !pins_match(warriors[j].pin, warriors[i].pin)
                invariant
                    j <= i,
                    i < n,
                    n == warriors@.len(),
                    pins == pins_of(warriors@),
                    model::first_sharer(pins, i as int, 0) == model::first_sharer(pins, i as int, j as int),
                decreases i - j,
            {
                assert(!model::same_pin(pins, j as int, i as int));
                j += 1;
            }
            proof {
                model::lemma_owner_owns(pins, i as int);
            }
            if j == i {
                assert(model::bank_owner(pins, i as int) == i);
                bank.push(next);
                next += 1;
            } else {
                assert(model::same_pin(pins, j as int, i as int));
                assert(model::bank_owner(pins, i as int) == j);
                let b = bank[j];
                bank.push(b);
            }
            i += 1;
        }
        let mut pspace: Vec<Vec<u32>> = Vec::new();
        let mut k: usize = 0;
        while k < next
            invariant
                k <= next,
                pspace@.len() == k,
                forall|x: int| 0 <= x < k ==> (#[trigger] pspace@[x])@ == Seq::new(self.pspace_size as nat, |y: int| 0u32),
            decreases next - k,
        {
            let z: Vec<u32> = vec![0u32; self.pspace_size as usize];
            assert(z@ =~= Seq::new(self.pspace_size as nat, |y: int| 0u32));
            pspace.push(z);
            k += 1;
        }
        let last: Vec<u32> = vec![self.cs - 1; n];
        self.bank = bank;
        self.pspace = pspace;
        self.last_result = last;
        proof {
            let f = model::fresh_pspace(old(self)@, pins);
            assert(self@.bank =~= f.bank);
            assert(self@.pspace =~= f.pspace);
            assert(self@.last_result =~= f.last_result);
            assert(self@ =~= f);
        }
    }

    /// One round of a match. P-space carries over from earlier rounds, and
    /// each warrior's cell 0 gets this round's result for the next one (0 if
    /// it died, 1 if it survived alone, 2 each for a tie). `first` moves
    /// first; each warrior gets up to `max_cycles` instructions, as in
    /// pMARS.
    pub fn round(&mut self, cfg: &Config, warriors: [&Warrior; 2], positions: [u32; 2], first: usize) -> (o: Outcome)
        requires
            old(self).wf(),
            old(self)@.queues.len() == 2,
            first < 2,
            warrior_loadable(*warriors@[0], old(self)@.cs),
            warrior_loadable(*warriors@[1], old(self)@.cs),
            positions@[0] < old(self)@.cs,
            positions@[1] < old(self)@.cs,
        ensures
            model::round(old(self)@, codes_of(warriors@), starts_of(warriors@), positions@, first as int, cfg.max_cycles as nat)
                == (final(self)@, o, final(self).round_step_count() as nat),
            final(self).wf(),
            final(self).step_count() == model::plus_steps(old(self).step_count(), final(self).round_step_count() as nat),
            final(self)@.queues.len() == 2,
            final(self)@.cs == old(self)@.cs,
    {
        let mut quiet = Unobserved { seen: Ghost(0), shown: Ghost(Seq::empty()), counted: Ghost(Seq::empty()) };
        self.round_observed(cfg, warriors, positions, first, &mut quiet)
    }

    /// `round`, with `obs` shown the loaded core and every instruction. The
    /// round is the same whatever the observer does.
    pub fn round_observed<O: Observer>(
        &mut self,
        cfg: &Config,
        warriors: [&Warrior; 2],
        positions: [u32; 2],
        first: usize,
        obs: &mut O,
    ) -> (o: Outcome)
        requires
            old(self).wf(),
            old(self)@.queues.len() == 2,
            first < 2,
            warrior_loadable(*warriors@[0], old(self)@.cs),
            warrior_loadable(*warriors@[1], old(self)@.cs),
            positions@[0] < old(self)@.cs,
            positions@[1] < old(self)@.cs,
        ensures
            model::round(old(self)@, codes_of(warriors@), starts_of(warriors@), positions@, first as int, cfg.max_cycles as nat)
                == (final(self)@, o, final(self).round_step_count() as nat),
            final(self).wf(),
            final(self).step_count() == model::plus_steps(old(self).step_count(), final(self).round_step_count() as nat),
            final(self)@.queues.len() == 2,
            final(self)@.cs == old(self)@.cs,
            final(obs).settings() == old(obs).settings(),
            final(obs).steps_seen() == final(self).round_step_count(),
            final(obs).ok(),
            final(obs).log() == run_log(
                model::loaded(old(self)@, codes_of(warriors@), starts_of(warriors@), positions@),
                2 * (cfg.max_cycles as nat),
                first as int,
            ),
            final(obs).counts() == run_counts(
                model::loaded(old(self)@, codes_of(warriors@), starts_of(warriors@), positions@),
                2 * (cfg.max_cycles as nat),
                first as int,
            ),
    {
        let ws = warriors.as_slice();
        let ps = positions.as_slice();
        proof {
            assert forall|i: int| 0 <= i < ws@.len() implies warrior_loadable(*#[trigger] ws@[i], old(self)@.cs) by {
                assert(ws@[i] == warriors@[i]);
            }
            assert forall|i: int| 0 <= i < ps@.len() implies #[trigger] ps@[i] < old(self)@.cs by {
                assert(ps@[i] == positions@[i]);
            }
        }
        self.load(ws, ps);
        let ghost s0 = self@;
        let ghost total = model::run(s0, 2 * (cfg.max_cycles as nat), first as int);
        let ghost start_steps = self.step_count();
        proof {
            assert(s0.queues[0].len() == 1 && s0.queues[1].len() == 1);
        }
        obs.loaded(&*self);
        let mut left: u64 = cfg.max_cycles as u64 * 2;
        let mut w: usize = first;
        let mut executed: u64 = 0;
        let mut outcome = Outcome::Tie;
        loop
            invariant_except_break
                self.wf(),
                self@.queues.len() == 2,
                w < 2,
                self@.queues[0].len() > 0,
                self@.queues[1].len() > 0,
                executed + left == 2 * cfg.max_cycles,
                model::run(self@, left as nat, w as int).0 == total.0,
                model::run(self@, left as nat, w as int).1 == total.1,
                model::run(self@, left as nat, w as int).2 + executed == total.2,
                self.step_count() == model::plus_steps(start_steps, executed as nat),
                self@.cs == s0.cs,
                obs.settings() == old(obs).settings(),
                obs.steps_seen() == executed,
                obs.ok(),
                obs.log() + run_log(self@, left as nat, w as int) == run_log(s0, 2 * (cfg.max_cycles as nat), first as int),
                obs.counts() + run_counts(self@, left as nat, w as int) == run_counts(s0, 2 * (cfg.max_cycles as nat), first as int),
            ensures
                self.wf(),
                self@.queues.len() == 2,
                self@ == total.0,
                outcome == total.1,
                executed == total.2,
                outcome matches Outcome::Win(x) ==> x < 2,
                self.step_count() == model::plus_steps(start_steps, executed as nat),
                self@.cs == s0.cs,
                obs.settings() == old(obs).settings(),
                obs.steps_seen() == executed,
                obs.ok(),
                obs.log() == run_log(s0, 2 * (cfg.max_cycles as nat), first as int),
                obs.counts() == run_counts(s0, 2 * (cfg.max_cycles as nat), first as int),
            decreases left,
        {
            if left == 0 {
                outcome = Outcome::Tie;
                assert(obs.log() =~= obs.log() + run_log(self@, 0, w as int));
                assert(obs.counts() =~= obs.counts() + run_counts(self@, 0, w as int));
                break;
            }
            let ghost before = self@;
            let ghost log_before = obs.log();
            let ghost counts_before = obs.counts();
            proof {
                model::lemma_step(before, w as int);
            }
            let alive = self.step(w);
            executed = executed + 1;
            proof {
                let r = model::step(before, w as int);
                assert forall|i: int| 0 <= i < self.written@.len() implies #[trigger] self.written@[i] < self@.cs by {
                    assert(self.written@[i] == r.written[i] as u32);
                    assert(0 <= r.written[i] < before.cs);
                }
            }
            obs.after_step(&*self, w, self.written.as_slice(), executed);
            proof {
                let r = model::step(before, w as int);
                assert(self.written@ == as_cells(r.written));
                let c = (r.state.queues[0].len(), r.state.queues[1].len());
                if !alive {
                    assert(run_log(before, left as nat, w as int) =~= seq![(w, as_cells(r.written))]);
                    assert(obs.log() =~= log_before + run_log(before, left as nat, w as int));
                    assert(run_counts(before, left as nat, w as int) =~= seq![c]);
                    assert(obs.counts() =~= counts_before + run_counts(before, left as nat, w as int));
                } else {
                    assert(run_counts(before, left as nat, w as int) =~= seq![c] + run_counts(self@, (left - 1) as nat, 1 - w));
                    assert(obs.counts() + run_counts(self@, (left - 1) as nat, (1 - w) as int)
                        =~= counts_before + run_counts(before, left as nat, w as int));
                    assert(run_log(before, left as nat, w as int)
                        =~= seq![(w, as_cells(r.written))] + run_log(self@, (left - 1) as nat, 1 - w));
                    assert(obs.log() + run_log(self@, (left - 1) as nat, (1 - w) as int)
                        =~= log_before + run_log(before, left as nat, w as int));
                }
            }
            if !alive {
                outcome = Outcome::Win(1 - w);
                break;
            }
            w = 1 - w;
            left = left - 1;
        }
        match outcome {
            Outcome::Win(x) => {
                self.last_result.set(x, 1);
                self.last_result.set(1 - x, 0);
            },
            Outcome::Tie => {
                self.last_result.set(0, 2);
                self.last_result.set(1, 2);
            },
        }
        self.last_round_steps = executed;
        proof {
            let rr = model::record_result(total.0, outcome);
            assert(self@.last_result =~= rr.last_result);
            assert(self@ =~= rr);
            assert(model::loaded(old(self)@, codes_of(warriors@), starts_of(warriors@), positions@) == s0) by {
                assert(ws@ == warriors@);
                assert(ps@ == positions@);
            }
        }
        outcome
    }

    /// One battle of two warriors as a match of one round: fresh P-space.
    pub fn battle(&mut self, cfg: &Config, warriors: [&Warrior; 2], positions: [u32; 2], first: usize) -> (o: Outcome)
        requires
            old(self).wf(),
            old(self)@.queues.len() == 2,
            first < 2,
            warrior_loadable(*warriors@[0], old(self)@.cs),
            warrior_loadable(*warriors@[1], old(self)@.cs),
            positions@[0] < old(self)@.cs,
            positions@[1] < old(self)@.cs,
        ensures
            model::round(
                model::fresh_pspace(old(self)@, pins_of(warriors@)),
                codes_of(warriors@),
                starts_of(warriors@),
                positions@,
                first as int,
                cfg.max_cycles as nat,
            ) == (final(self)@, o, final(self).round_step_count() as nat),
            final(self).wf(),
    {
        self.begin_match(warriors.as_slice());
        self.round(cfg, warriors, positions, first)
    }
}

/// pMARS's position generator (sim.c `rng`): a Park–Miller "minimal
/// standard" generator, used so that a match of N rounds places the
/// second warrior the way `pmars -r N` does for the same seed.
pub fn pmars_rng(seed: i32) -> (r: i32)
    ensures
        r == model::spec_rng(seed),
{
    let t: i64 = seed as i64;
    let q: i64 = if t >= 0 {
        t / 127773
    } else {
        -((-t) / 127773)
    };
    let rem: i64 = t - 127773 * q;
    let v: i64 = 16807 * rem - 2836 * q;
    let v: i64 = if v < 0 {
        v + 2147483647
    } else {
        v
    };
    v as i32
}

impl Mars {
    /// A match of `rounds` battles, like `pmars -r rounds`: the second
    /// warrior's position is `distance + seed % positions` for a seed that
    /// advances each round, and the warrior that moves first alternates.
    pub fn play(&mut self, cfg: &Config, a: &Warrior, b: &Warrior, rounds: u32, seed: i32) -> (r: Score)
        requires
            old(self).wf(),
            old(self)@.queues.len() == 2,
            match_config(*cfg),
            old(self)@.cs == cfg.core_size,
            warrior_loadable(*a, old(self)@.cs),
            warrior_loadable(*b, old(self)@.cs),
        ensures
            r.w1 + r.w2 + r.ties == rounds,
            ({
                let ws = seq![a, b];
                let m = model::play_rounds(
                    model::fresh_pspace(old(self)@, pins_of(ws)),
                    codes_of(ws),
                    starts_of(ws),
                    cfg.core_size,
                    cfg.min_distance,
                    cfg.max_cycles as nat,
                    0,
                    rounds as nat,
                    seed,
                    zero_score(),
                );
                &&& r == m.0
                &&& final(self)@ == m.1
                &&& final(self).step_count() == model::plus_steps(old(self).step_count(), m.2)
            }),
            old(self)@.max_processes == cfg.max_processes
                ==> final(self).step_count() == model::plus_steps(old(self).step_count(), match_steps(*cfg, codes_of(seq![a, b]), starts_of(seq![a, b]), pins_of(seq![a, b]), rounds as nat, seed)),
            old(self)@.max_processes == cfg.max_processes
                ==> r == match_result(*cfg, codes_of(seq![a, b]), starts_of(seq![a, b]), pins_of(seq![a, b]), rounds as nat, seed),
            final(self).wf(),
    {
        let ghost ws = seq![a, b];
        proof {
            lemma_pspace_size_positive(cfg.core_size as nat);
            if old(self)@.max_processes == cfg.max_processes {
                lemma_match_depends_on_rules(
                    old(self)@,
                    initial_state(*cfg, 2),
                    pins_of(ws),
                    codes_of(ws),
                    starts_of(ws),
                    cfg.core_size,
                    cfg.min_distance,
                    cfg.max_cycles as nat,
                    rounds as nat,
                    seed,
                );
            }
        }
        let sep = cfg.min_distance;
        let positions = cfg.core_size + 1 - 2 * sep;
        let mut seed = seed;
        let mut score = Score::default();
        let pair: [&Warrior; 2] = [a, b];
        assert(pair@ =~= ws);
        self.begin_match(pair.as_slice());
        let ghost total = model::play_rounds(
            self@,
            codes_of(ws),
            starts_of(ws),
            cfg.core_size,
            cfg.min_distance,
            cfg.max_cycles as nat,
            0,
            rounds as nat,
            seed,
            score,
        );
        let mut r: u32 = 0;
        while r < rounds
            invariant
                self.wf(),
                self@.queues.len() == 2,
                self@.cs == cfg.core_size,
                match_config(*cfg),
                positions == cfg.core_size + 1 - 2 * cfg.min_distance,
                sep == cfg.min_distance,
                r <= rounds,
                pair@ == ws,
                ws == seq![a, b],
                warrior_loadable(*a, self@.cs),
                warrior_loadable(*b, self@.cs),
                score.w1 + score.w2 + score.ties == r,
                model::play_rounds(self@, codes_of(ws), starts_of(ws), cfg.core_size, cfg.min_distance, cfg.max_cycles as nat, r as nat, rounds as nat, seed, score).0 == total.0,
                model::play_rounds(self@, codes_of(ws), starts_of(ws), cfg.core_size, cfg.min_distance, cfg.max_cycles as nat, r as nat, rounds as nat, seed, score).1 == total.1,
                model::plus_steps(self.step_count(), model::play_rounds(self@, codes_of(ws), starts_of(ws), cfg.core_size, cfg.min_distance, cfg.max_cycles as nat, r as nat, rounds as nat, seed, score).2)
                    == model::plus_steps(old(self).step_count(), total.2),
            decreases rounds - r,
        {
            let ghost before = self@;
            let ghost sc = self.step_count();
            let m = seed.checked_rem_euclid(positions as i32).unwrap();
            let pos = sep + m as u32;
            assert(pos == model::spec_position(seed, cfg.core_size, cfg.min_distance));
            seed = pmars_rng(seed);
            let o = self.round(cfg, pair, [0, pos], (r % 2) as usize);
            match o {
                Outcome::Win(0) => score.w1 = score.w1 + 1,
                Outcome::Win(_) => score.w2 = score.w2 + 1,
                Outcome::Tie => score.ties = score.ties + 1,
            }
            proof {
                let n = model::round(before, codes_of(ws), starts_of(ws), seq![0u32, pos], (r % 2) as int, cfg.max_cycles as nat).2;
                model::lemma_plus_steps(
                    sc,
                    n,
                    model::play_rounds(self@, codes_of(ws), starts_of(ws), cfg.core_size, cfg.min_distance, cfg.max_cycles as nat, (r + 1) as nat, rounds as nat, seed, score).2,
                );
            }
            r += 1;
        }
        proof {
            model::lemma_plus_steps(self.step_count(), 0, 0);
        }
        score
    }
}

/// The decoded instruction and its evaluated operands.
#[derive(Clone, Copy)]
pub(crate) struct OpArgs {
    pub(crate) pc: u32,
    pub(crate) ir: Instruction,
    /// A pointer offset, address and numbers.
    pub(crate) rpa: u32,
    pub(crate) a_at: u32,
    pub(crate) aa: u32,
    pub(crate) ab: u32,
    /// B pointer offset and numbers.
    pub(crate) wpb: u32,
    pub(crate) ba: u32,
    pub(crate) bb: u32,
}

/// The arguments agree with the model's operands of the state `s`, and the
/// MARS is `s` after both operands, with the process taken off the queue.
pub(crate) open spec fn op_ready(
    m: MarsState,
    w: int,
    x: OpArgs,
    s: MarsState,
    ra: model::Operand,
    rb: model::Operand,
) -> bool {
    &&& model::execute_pre(s, w, rb.core, x.pc as int, ra, rb)
    &&& model::execute_post(s, w, rb.core, x.pc as int, x.ir, ra, rb)
    &&& m == (MarsState { core: rb.core, queues: s.queues.update(w, s.queues[w].drop_first()), ..s })
    &&& x.rpa as int == ra.ptr && x.a_at as int == ra.at && x.aa == ra.a && x.ab == ra.b
    &&& x.wpb as int == rb.ptr && x.ba == rb.a && x.bb == rb.b
}

/// The MARS after the opcode's effect, as the model has it.
pub(crate) open spec fn op_done(m: MarsState, w: int, x: OpArgs, s: MarsState, ra: model::Operand, rb: model::Operand) -> bool {
    let (s2, pushed, wrote) = model::execute(s, w, rb.core, x.pc as int, x.ir, ra, rb);
    m == (MarsState { queues: s.queues.update(w, s.queues[w].drop_first() + pushed), ..s2 })
}

spec fn op_wrote(old_w: Seq<u32>, new_w: Seq<u32>, w: int, x: OpArgs, s: MarsState, ra: model::Operand, rb: model::Operand) -> bool {
    let (s2, pushed, wrote) = model::execute(s, w, rb.core, x.pc as int, x.ir, ra, rb);
    new_w == old_w + as_cells(wrote)
}

impl Mars {
    /// Evaluate both operands of the instruction `ir` at `pc`; the cells
    /// their increments and decrements wrote.
    fn operands(&mut self, pc: u32, ir: Instruction) -> (r: (OpArgs, Vec<u32>))
        requires
            old(self).wf(),
            pc < old(self).cs,
            ir.a < old(self).cs,
            ir.b < old(self).cs,
        ensures
            ({
                let cs = old(self).cs as int;
                let ra = model::operand(old(self)@.core, cs, pc as int, ir, ir.a_mode, ir.a);
                let rb = model::operand(ra.core, cs, pc as int, ir, ir.b_mode, ir.b);
                &&& final(self)@ == (MarsState { core: rb.core, ..old(self)@ })
                &&& r.0.pc == pc && r.0.ir == ir
                &&& r.0.rpa as int == ra.ptr && r.0.a_at as int == ra.at && r.0.aa == ra.a && r.0.ab == ra.b
                &&& r.0.wpb as int == rb.ptr && r.0.ba == rb.a && r.0.bb == rb.b
                &&& r.1@ == as_cells(model::touched_cells(ra.touched, rb.touched))
            }),
            final(self).wf(),
            final(self).cs == old(self).cs,
            final(self).pspace_size == old(self).pspace_size,
            final(self).steps == old(self).steps,
            final(self).last_round_steps == old(self).last_round_steps,
            final(self).written == old(self).written,
    {
        let ghost cs = self.cs as int;
        let ghost ra_s = model::operand(self@.core, cs, pc as int, ir, ir.a_mode, ir.a);
        let (rpa, a_at, aa, ab, ta) = self.operand(pc, ir, ir.a_mode, ir.a);
        let ghost rb_s = model::operand(ra_s.core, cs, pc as int, ir, ir.b_mode, ir.b);
        let (wpb, _b_at, ba, bb, tb) = self.operand(pc, ir, ir.b_mode, ir.b);
        let mut written: Vec<u32> = Vec::new();
        match ta {
            Some(p) => written.push(p),
            None => {},
        }
        match tb {
            Some(p) => written.push(p),
            None => {},
        }
        assert(written@ =~= as_cells(model::touched_cells(ra_s.touched, rb_s.touched)));
        (OpArgs { pc, ir, rpa, a_at, aa, ab, wpb, ba, bb }, written)
    }

    /// Run the opcode of a decoded instruction whose operands are evaluated.
    fn dispatch(&mut self, w: usize, x: OpArgs, Ghost(s): Ghost<MarsState>, Ghost(ra): Ghost<model::Operand>, Ghost(rb): Ghost<model::Operand>, written: &mut Vec<u32>)
        requires
            old(self).wf(),
            w < old(self)@.queues.len(),
            op_ready(old(self)@, w as int, x, s, ra, rb),
        ensures
            final(self).wf(),
            op_done(final(self)@, w as int, x, s, ra, rb),
            op_wrote(old(written)@, final(written)@, w as int, x, s, ra, rb),
            final(self).steps == old(self).steps,
            final(self).last_round_steps == old(self).last_round_steps,
            final(self).pspace_size == old(self).pspace_size,
    {
        match x.ir.op {
            Opcode::Mov | Opcode::Add | Opcode::Sub | Opcode::Mul | Opcode::Djn | Opcode::Ldp => {
                self.exec_write(w, x, Ghost(s), Ghost(ra), Ghost(rb), written)
            },
            Opcode::Div | Opcode::Mod => self.exec_div(w, x, Ghost(s), Ghost(ra), Ghost(rb), written),
            Opcode::Stp => {
                self.exec_stp(w, x, Ghost(s), Ghost(ra), Ghost(rb));
                assert(written@ =~= old(written)@ + as_cells(Seq::<int>::empty()));
            },
            _ => {
                self.exec_flow(w, x, Ghost(s), Ghost(ra), Ghost(rb));
                assert(written@ =~= old(written)@ + as_cells(Seq::<int>::empty()));
            },
        }
    }

    /// Instructions that write the target cell: MOV, ADD, SUB, MUL, DJN, LDP.
    fn exec_write(&mut self, w: usize, x: OpArgs, Ghost(s): Ghost<MarsState>, Ghost(ra): Ghost<model::Operand>, Ghost(rb): Ghost<model::Operand>, written: &mut Vec<u32>)
        requires
            old(self).wf(),
            w < old(self)@.queues.len(),
            op_ready(old(self)@, w as int, x, s, ra, rb),
            x.ir.op == Opcode::Mov || x.ir.op == Opcode::Add || x.ir.op == Opcode::Sub || x.ir.op == Opcode::Mul
                || x.ir.op == Opcode::Djn || x.ir.op == Opcode::Ldp,
        ensures
            final(self).wf(),
            op_done(final(self)@, w as int, x, s, ra, rb),
            op_wrote(old(written)@, final(written)@, w as int, x, s, ra, rb),
            final(self).steps == old(self).steps,
            final(self).last_round_steps == old(self).last_round_steps,
            final(self).pspace_size == old(self).pspace_size,
    {
        reveal(model::execute);
        let (pc, ir, aa, ab, ba, bb) = (x.pc, x.ir, x.aa, x.ab, x.ba, x.bb);
        let t = self.add(pc, x.wpb);
        let next = self.add(pc, 1);
        let jump = self.add(pc, x.rpa);
        let m = ir.modifier;
        assert(self@.core[t as int] == self.core@[t as int]);
        let ct = self.core[t as usize];
        let mut target = t;
        match ir.op {
            Opcode::Mov => {
                let nc = match m {
                    Modifier::A => Instruction { a: aa, ..ct },
                    Modifier::B => Instruction { b: ab, ..ct },
                    Modifier::AB => Instruction { b: aa, ..ct },
                    Modifier::BA => Instruction { a: ab, ..ct },
                    Modifier::F => Instruction { a: aa, b: ab, ..ct },
                    Modifier::X => Instruction { a: ab, b: aa, ..ct },
                    Modifier::I => {
                        assert(self@.core[x.a_at as int] == self.core@[x.a_at as int]);
                        let src = self.core[x.a_at as usize];
                        Instruction { a: aa, b: ab, ..src }
                    },
                };
                self.core.set(t as usize, nc);
                target = next;
            },
            Opcode::Add | Opcode::Sub | Opcode::Mul => {
                let op = ir.op;
                let nc = match m {
                    Modifier::A => Instruction { a: self.arith(op, ba, aa), ..ct },
                    Modifier::B => Instruction { b: self.arith(op, bb, ab), ..ct },
                    Modifier::AB => Instruction { b: self.arith(op, bb, aa), ..ct },
                    Modifier::BA => Instruction { a: self.arith(op, ba, ab), ..ct },
                    Modifier::X => Instruction { a: self.arith(op, ba, ab), b: self.arith(op, bb, aa), ..ct },
                    _ => Instruction { a: self.arith(op, ba, aa), b: self.arith(op, bb, ab), ..ct },
                };
                self.core.set(t as usize, nc);
                target = next;
            },
            Opcode::Djn => {
                let (nc, nz) = match m {
                    Modifier::A | Modifier::BA => {
                        let da = self.dec(ba);
                        (Instruction { a: self.dec(ct.a), ..ct }, da != 0)
                    },
                    Modifier::B | Modifier::AB => {
                        let db = self.dec(bb);
                        (Instruction { b: self.dec(ct.b), ..ct }, db != 0)
                    },
                    _ => {
                        let da = self.dec(ba);
                        let db = self.dec(bb);
                        (Instruction { a: self.dec(ct.a), b: self.dec(ct.b), ..ct }, da != 0 || db != 0)
                    },
                };
                self.core.set(t as usize, nc);
                target = if nz { jump } else { next };
            },
            _ => {
                let v = match m {
                    Modifier::A | Modifier::AB => self.get_pspace(w, aa),
                    _ => self.get_pspace(w, ab),
                };
                let nc = match m {
                    Modifier::A | Modifier::BA => Instruction { a: v, ..ct },
                    _ => Instruction { b: v, ..ct },
                };
                self.core.set(t as usize, nc);
                target = next;
            },
        }
        written.push(t);
        let ghost mid = self@;
        assert(model::wf(mid)) by {
            let ex = model::execute(s, w as int, rb.core, pc as int, ir, ra, rb);
            assert(mid.core =~= ex.0.core);
            assert(model::cells_ok(ex.0.core, s.cs));
        }
        self.push(w, target);
        let ghost ex = model::execute(s, w as int, rb.core, pc as int, ir, ra, rb);
        assert(ex.1 =~= seq![target]);
        assert(self@.queues[w as int] =~= s.queues[w as int].drop_first() + ex.1);
        assert(self@.queues =~= s.queues.update(w as int, s.queues[w as int].drop_first() + ex.1));
        assert(self@ =~= (MarsState { queues: s.queues.update(w as int, s.queues[w as int].drop_first() + ex.1), ..ex.0 }));
        assert(written@ =~= old(written)@ + as_cells(ex.2));
    }

    /// DIV and MOD.
    fn exec_div(&mut self, w: usize, x: OpArgs, Ghost(s): Ghost<MarsState>, Ghost(ra): Ghost<model::Operand>, Ghost(rb): Ghost<model::Operand>, written: &mut Vec<u32>)
        requires
            old(self).wf(),
            w < old(self)@.queues.len(),
            op_ready(old(self)@, w as int, x, s, ra, rb),
            x.ir.op == Opcode::Div || x.ir.op == Opcode::Mod,
        ensures
            final(self).wf(),
            op_done(final(self)@, w as int, x, s, ra, rb),
            op_wrote(old(written)@, final(written)@, w as int, x, s, ra, rb),
            final(self).steps == old(self).steps,
            final(self).last_round_steps == old(self).last_round_steps,
            final(self).pspace_size == old(self).pspace_size,
    {
        reveal(model::execute);
        let (pc, ir, aa, ab, ba, bb) = (x.pc, x.ir, x.aa, x.ab, x.ba, x.bb);
        let t = self.add(pc, x.wpb);
        let next = self.add(pc, 1);
        let m = ir.modifier;
        let op = ir.op;
        assert(self@.core[t as int] == self.core@[t as int]);
        let ct = self.core[t as usize];
        let (xa, xb) = match m {
            Modifier::A => (divide(op, ba, aa), Some(ct.b)),
            Modifier::B => (Some(ct.a), divide(op, bb, ab)),
            Modifier::AB => (Some(ct.a), divide(op, bb, aa)),
            Modifier::BA => (divide(op, ba, ab), Some(ct.b)),
            Modifier::X => (divide(op, ba, ab), divide(op, bb, aa)),
            _ => (divide(op, ba, aa), divide(op, bb, ab)),
        };
        let na = match xa {
            Some(v) => v,
            None => ct.a,
        };
        let nb = match xb {
            Some(v) => v,
            None => ct.b,
        };
        let wrote = xa.is_some() && !matches!(m, Modifier::B | Modifier::AB)
            || xb.is_some() && !matches!(m, Modifier::A | Modifier::BA);
        self.core.set(t as usize, Instruction { a: na, b: nb, ..ct });
        if wrote {
            written.push(t);
        }
        let ghost ex = model::execute(s, w as int, rb.core, pc as int, ir, ra, rb);
        assert(self@.core =~= ex.0.core);
        if xa.is_some() && xb.is_some() {
            self.push(w, next);
            assert(ex.1 =~= seq![next]);
        } else {
            assert(ex.1 =~= Seq::<u32>::empty());
        }
        assert(self@.queues[w as int] =~= s.queues[w as int].drop_first() + ex.1);
        assert(self@.queues =~= s.queues.update(w as int, s.queues[w as int].drop_first() + ex.1));
        assert(self@ =~= (MarsState { queues: s.queues.update(w as int, s.queues[w as int].drop_first() + ex.1), ..ex.0 }));
        assert(written@ =~= old(written)@ + as_cells(ex.2));
    }

    /// STP.
    fn exec_stp(&mut self, w: usize, x: OpArgs, Ghost(s): Ghost<MarsState>, Ghost(ra): Ghost<model::Operand>, Ghost(rb): Ghost<model::Operand>)
        requires
            old(self).wf(),
            w < old(self)@.queues.len(),
            op_ready(old(self)@, w as int, x, s, ra, rb),
            x.ir.op == Opcode::Stp,
        ensures
            final(self).wf(),
            op_done(final(self)@, w as int, x, s, ra, rb),
            model::execute(s, w as int, rb.core, x.pc as int, x.ir, ra, rb).2 == Seq::<int>::empty(),
            final(self).steps == old(self).steps,
            final(self).last_round_steps == old(self).last_round_steps,
            final(self).pspace_size == old(self).pspace_size,
    {
        reveal(model::execute);
        let (pc, ir, aa, ab, ba, bb) = (x.pc, x.ir, x.aa, x.ab, x.ba, x.bb);
        let next = self.add(pc, 1);
        match ir.modifier {
            Modifier::A => self.set_pspace(w, ba, aa),
            Modifier::AB => self.set_pspace(w, bb, aa),
            Modifier::BA => self.set_pspace(w, ba, ab),
            _ => self.set_pspace(w, bb, ab),
        }
        let ghost ex = model::execute(s, w as int, rb.core, pc as int, ir, ra, rb);
        assert(self@.pspace =~= ex.0.pspace);
        assert(self@.last_result =~= ex.0.last_result);
        self.push(w, next);
        assert(self@.queues[w as int] =~= s.queues[w as int].drop_first() + ex.1);
        assert(self@.queues =~= s.queues.update(w as int, s.queues[w as int].drop_first() + ex.1));
        assert(self@ =~= (MarsState { queues: s.queues.update(w as int, s.queues[w as int].drop_first() + ex.1), ..ex.0 }));
    }

    /// Instructions that only decide what to queue.
    fn exec_flow(&mut self, w: usize, x: OpArgs, Ghost(s): Ghost<MarsState>, Ghost(ra): Ghost<model::Operand>, Ghost(rb): Ghost<model::Operand>)
        requires
            old(self).wf(),
            w < old(self)@.queues.len(),
            op_ready(old(self)@, w as int, x, s, ra, rb),
            x.ir.op == Opcode::Dat || x.ir.op == Opcode::Nop || x.ir.op == Opcode::Jmp || x.ir.op == Opcode::Jmz
                || x.ir.op == Opcode::Jmn || x.ir.op == Opcode::Spl || x.ir.op == Opcode::Slt || x.ir.op == Opcode::Cmp
                || x.ir.op == Opcode::SeqOp || x.ir.op == Opcode::Sne,
        ensures
            final(self).wf(),
            op_done(final(self)@, w as int, x, s, ra, rb),
            model::execute(s, w as int, rb.core, x.pc as int, x.ir, ra, rb).2 == Seq::<int>::empty(),
            final(self).steps == old(self).steps,
            final(self).last_round_steps == old(self).last_round_steps,
            final(self).pspace_size == old(self).pspace_size,
    {
        reveal(model::execute);
        let (pc, ir, aa, ab, ba, bb) = (x.pc, x.ir, x.aa, x.ab, x.ba, x.bb);
        let t = self.add(pc, x.wpb);
        let next = self.add(pc, 1);
        let jump = self.add(pc, x.rpa);
        let skip = self.add(pc, 2);
        let m = ir.modifier;
        let ghost ex = model::execute(s, w as int, rb.core, pc as int, ir, ra, rb);
        match ir.op {
            Opcode::Dat => {
                assert(ex.1 =~= Seq::<u32>::empty());
            },
            Opcode::Nop => {
                self.push(w, next);
                assert(ex.1 =~= seq![next]);
            },
            Opcode::Jmp => {
                self.push(w, jump);
                assert(ex.1 =~= seq![jump]);
            },
            Opcode::Jmz => {
                let z = match m {
                    Modifier::A | Modifier::BA => ba == 0,
                    Modifier::B | Modifier::AB => bb == 0,
                    _ => ba == 0 && bb == 0,
                };
                let to = if z { jump } else { next };
                self.push(w, to);
                assert(ex.1 =~= seq![to]);
            },
            Opcode::Jmn => {
                let nz = match m {
                    Modifier::A | Modifier::BA => ba != 0,
                    Modifier::B | Modifier::AB => bb != 0,
                    _ => ba != 0 || bb != 0,
                };
                let to = if nz { jump } else { next };
                self.push(w, to);
                assert(ex.1 =~= seq![to]);
            },
            Opcode::Spl => {
                self.push(w, next);
                assert(self@.queues[w as int] == self.queues@[w as int]@);
                if self.queues[w].len() < self.max_processes {
                    self.push(w, jump);
                    assert(ex.1 =~= seq![next, jump]);
                } else {
                    assert(ex.1 =~= seq![next]);
                }
            },
            Opcode::Slt => {
                let lt = match m {
                    Modifier::A => aa < ba,
                    Modifier::B => ab < bb,
                    Modifier::AB => aa < bb,
                    Modifier::BA => ab < ba,
                    Modifier::X => aa < bb && ab < ba,
                    _ => aa < ba && ab < bb,
                };
                let to = if lt { skip } else { next };
                self.push(w, to);
                assert(ex.1 =~= seq![to]);
            },
            _ => {
                assert(self@.core[x.a_at as int] == self.core@[x.a_at as int]);
                assert(self@.core[t as int] == self.core@[t as int]);
                let xc = self.core[x.a_at as usize];
                let ct = self.core[t as usize];
                let eq = match m {
                    Modifier::A => aa == ba,
                    Modifier::B => ab == bb,
                    Modifier::AB => aa == bb,
                    Modifier::BA => ab == ba,
                    Modifier::F => aa == ba && ab == bb,
                    Modifier::X => aa == bb && ab == ba,
                    Modifier::I => xc.op == ct.op && xc.modifier == ct.modifier && xc.a_mode == ct.a_mode
                        && xc.b_mode == ct.b_mode && aa == ba && ab == bb,
                };
                let take = match ir.op {
                    Opcode::Sne => !eq,
                    _ => eq,
                };
                let to = if take { skip } else { next };
                self.push(w, to);
                assert(ex.1 =~= seq![to]);
            },
        }
        assert(self@.queues[w as int] =~= s.queues[w as int].drop_first() + ex.1);
        assert(self@.queues =~= s.queues.update(w as int, s.queues[w as int].drop_first() + ex.1));
        assert(self@ =~= (MarsState { queues: s.queues.update(w as int, s.queues[w as int].drop_first() + ex.1), ..ex.0 }));
    }
}

/// The operands of `model::step`, evaluated, make the opcode ready to run.
pub(crate) proof fn lemma_ready(m: MarsState, s: MarsState, w: int, x: OpArgs, ra: model::Operand, rb: model::Operand)
    requires
        model::wf(s),
        0 <= w < s.queues.len(),
        s.queues[w].len() > 0,
        x.pc == s.queues[w][0],
        x.ir == s.core[x.pc as int],
        ra == model::operand(s.core, s.cs as int, x.pc as int, x.ir, x.ir.a_mode, x.ir.a),
        rb == model::operand(ra.core, s.cs as int, x.pc as int, x.ir, x.ir.b_mode, x.ir.b),
        m == (MarsState { core: rb.core, queues: s.queues.update(w, s.queues[w].drop_first()), ..s }),
        x.rpa as int == ra.ptr && x.a_at as int == ra.at && x.aa == ra.a && x.ab == ra.b,
        x.wpb as int == rb.ptr && x.ba == rb.a && x.bb == rb.b,
    ensures
        op_ready(m, w, x, s, ra, rb),
{
    let cs = s.cs as int;
    assert(s.queues[w][0] < s.cs);
    assert(s.core[x.pc as int].a < s.cs && s.core[x.pc as int].b < s.cs);
    model::lemma_operand(s.core, cs, x.pc as int, x.ir, x.ir.a_mode, x.ir.a);
    model::lemma_operand(ra.core, cs, x.pc as int, x.ir, x.ir.b_mode, x.ir.b);
    model::lemma_execute(s, w, rb.core, x.pc as int, x.ir, ra, rb);
}

/// The code of each warrior.
pub open spec fn codes_of(ws: Seq<&Warrior>) -> Seq<Seq<Instruction>> {
    ws.map_values(|w: &Warrior| w.code@)
}

/// The start of each warrior.
pub open spec fn starts_of(ws: Seq<&Warrior>) -> Seq<u32> {
    ws.map_values(|w: &Warrior| w.start)
}

/// The PIN of each warrior.
pub open spec fn pins_of(ws: Seq<&Warrior>) -> Seq<Option<i64>> {
    ws.map_values(|w: &Warrior| w.pin)
}

/// `model::step` taken apart: the process taken off, the two operands, the
/// opcode's effect.
pub(crate) proof fn lemma_step_parts(s: MarsState, w: int, x: OpArgs, ra: model::Operand, rb: model::Operand)
    requires
        0 <= w < s.queues.len(),
        s.queues[w].len() > 0,
        x.pc == s.queues[w][0],
        x.ir == s.core[x.pc as int],
        ra == model::operand(s.core, s.cs as int, x.pc as int, x.ir, x.ir.a_mode, x.ir.a),
        rb == model::operand(ra.core, s.cs as int, x.pc as int, x.ir, x.ir.b_mode, x.ir.b),
        model::execute_post(s, w, rb.core, x.pc as int, x.ir, ra, rb),
    ensures
        ({
            let r = model::step(s, w);
            let (s2, pushed, wrote) = model::execute(s, w, rb.core, x.pc as int, x.ir, ra, rb);
            &&& r.state == (MarsState { queues: s.queues.update(w, s.queues[w].drop_first() + pushed), ..s2 })
            &&& r.written == model::touched_cells(ra.touched, rb.touched) + wrote
            &&& r.alive == ((s.queues[w].drop_first() + pushed).len() > 0)
        }),
{
}

/// Cell numbers as the engine stores them.
pub open spec fn as_cells(s: Seq<int>) -> Seq<u32> {
    s.map_values(|i: int| i as u32)
}

/// DIV or MOD; `None` for a division by zero.
pub(crate) fn divide(op: Opcode, x: u32, y: u32) -> (r: Option<u32>)
    ensures
        match model::divide(op, x as int, y as int) {
            Some(v) => r == Some(v as u32) && v == r.unwrap() as int,
            None => r is None,
        },
        r matches Some(v) ==> v <= x,
{
    if y == 0 {
        None
    } else {
        match op {
            Opcode::Div => {
                proof {
                    vstd::arithmetic::div_mod::lemma_div_is_ordered_by_denominator(x as int, 1, y as int);
                }
                Some(x / y)
            },
            _ => {
                proof {
                    vstd::arithmetic::div_mod::lemma_mod_decreases(x as nat, y as nat);
                }
                Some(x % y)
            },
        }
    }
}

/// The score of a match of `rounds` rounds under `cfg` between warriors
/// with these codes, starts and PINs, the first position seed `seed`: what
/// every engine made for `cfg` plays.
pub open spec fn match_result(
    cfg: Config,
    codes: Seq<Seq<Instruction>>,
    starts: Seq<u32>,
    pins: Seq<Option<i64>>,
    rounds: nat,
    seed: i32,
) -> Score {
    model::play_rounds(
        model::fresh_pspace(initial_state(cfg, 2), pins),
        codes,
        starts,
        cfg.core_size,
        cfg.min_distance,
        cfg.max_cycles as nat,
        0,
        rounds,
        seed,
        zero_score(),
    ).0
}

/// The instructions a match of `rounds` rounds under `cfg` executes, the
/// warriors with these codes, starts and PINs: what every engine made for
/// `cfg` counts.
pub open spec fn match_steps(
    cfg: Config,
    codes: Seq<Seq<Instruction>>,
    starts: Seq<u32>,
    pins: Seq<Option<i64>>,
    rounds: nat,
    seed: i32,
) -> nat {
    model::play_rounds(
        model::fresh_pspace(initial_state(cfg, 2), pins),
        codes,
        starts,
        cfg.core_size,
        cfg.min_distance,
        cfg.max_cycles as nat,
        0,
        rounds,
        seed,
        zero_score(),
    ).2
}

/// A battle depends on the engine's state only through its rules: two
/// engines with the same core size, process limit and P-space size play
/// the same battle to the same end, whatever they held before it.
pub proof fn lemma_battles_are_deterministic(
    s1: MarsState,
    s2: MarsState,
    pins: Seq<Option<i64>>,
    codes: Seq<Seq<Instruction>>,
    starts: Seq<u32>,
    positions: Seq<u32>,
    first: int,
    cycles: nat,
)
    requires
        s1.cs == s2.cs,
        s1.max_processes == s2.max_processes,
        s1.pspace_size == s2.pspace_size,
        s1.queues.len() == s2.queues.len(),
    ensures
        model::round(model::fresh_pspace(s1, pins), codes, starts, positions, first, cycles)
            == model::round(model::fresh_pspace(s2, pins), codes, starts, positions, first, cycles),
{
    let f1 = model::fresh_pspace(s1, pins);
    let f2 = model::fresh_pspace(s2, pins);
    let l1 = model::loaded(f1, codes, starts, positions);
    let l2 = model::loaded(f2, codes, starts, positions);
    assert(l1.queues =~= l2.queues);
    assert(l1.pspace =~= l2.pspace);
    assert(l1.bank =~= l2.bank);
    assert(l1.last_result =~= l2.last_result);
    assert(l1 == l2);
}

/// A match depends on the engine's state only through its rules: the core
/// size, the process limit and the P-space size. Its core, queues and
/// P-space before the match do not matter.
pub proof fn lemma_match_depends_on_rules(
    s1: MarsState,
    s2: MarsState,
    pins: Seq<Option<i64>>,
    codes: Seq<Seq<Instruction>>,
    starts: Seq<u32>,
    core_size: u32,
    distance: u32,
    cycles: nat,
    rounds: nat,
    seed: i32,
)
    requires
        s1.cs == s2.cs,
        s1.max_processes == s2.max_processes,
        s1.pspace_size == s2.pspace_size,
        s1.queues.len() == s2.queues.len(),
    ensures
        model::play_rounds(model::fresh_pspace(s1, pins), codes, starts, core_size, distance, cycles, 0, rounds, seed, zero_score()).0
            == model::play_rounds(model::fresh_pspace(s2, pins), codes, starts, core_size, distance, cycles, 0, rounds, seed, zero_score()).0,
        model::play_rounds(model::fresh_pspace(s1, pins), codes, starts, core_size, distance, cycles, 0, rounds, seed, zero_score()).2
            == model::play_rounds(model::fresh_pspace(s2, pins), codes, starts, core_size, distance, cycles, 0, rounds, seed, zero_score()).2,
{
    if rounds > 0 {
        let pos = model::spec_position(seed, core_size, distance);
        let positions = seq![0u32, pos];
        let f1 = model::fresh_pspace(s1, pins);
        let f2 = model::fresh_pspace(s2, pins);
        let l1 = model::loaded(f1, codes, starts, positions);
        let l2 = model::loaded(f2, codes, starts, positions);
        assert(l1.queues =~= l2.queues);
        assert(l1.pspace =~= l2.pspace);
        assert(l1.bank =~= l2.bank);
        assert(l1.last_result =~= l2.last_result);
        assert(l1 == l2);
    }
}

} // verus!
