//! A match on the plain engine with the core's writes recorded: the data
//! behind replays. Rounds are played exactly as `Mars::play` plays them
//! (positions from pMARS's generator, the first mover alternating, P-space
//! carried over); only the rounds asked for are recorded, every round is
//! summarised. Warriors are numbered in argument order: 0 is `a`.
use crate::assembler::{match_config, engine_config, Config};
use crate::mars::{
    codes_of, initial_state, match_result, pins_of, pmars_rng, run_counts, run_log, starts_of, warrior_loadable,
    zero_score, Mars, Observer, Outcome, Score,
};
use crate::model::{self, MarsState};
use crate::redcode::{Instruction, Warrior};
use vstd::prelude::*;

verus! {

#[derive(Clone, Debug, PartialEq, Eq)]
pub struct RoundSummary {
    /// From 1.
    pub round: u32,
    /// The warrior that moved first.
    pub first: usize,
    /// Where the second warrior was loaded; the first is at 0.
    pub position: u32,
    /// `None` for a tie.
    pub winner: Option<usize>,
    /// The cycle the round ended on; `cycles` for a tie. A cycle is one
    /// instruction of each warrior.
    pub end_cycle: u32,
}

#[derive(Clone, Debug)]
pub struct Frame {
    pub cycle: u32,
    /// Processes of each warrior at this cycle.
    pub processes: [usize; 2],
    /// Cells written since the previous frame, each once, by cell, with the
    /// warrior whose instruction wrote it last.
    pub writes: Vec<(u32, usize)>,
}

#[derive(Clone, Debug)]
pub struct End {
    pub cycle: u32,
    pub winner: Option<usize>,
    pub processes: [usize; 2],
}

#[derive(Clone, Debug)]
pub struct Recording {
    pub round: u32,
    /// Cycles between frames.
    pub every: u32,
    /// (warrior, load address, length) of each warrior.
    pub start: [(usize, u32, usize); 2],
    pub frames: Vec<Frame>,
    pub end: End,
}

#[derive(Clone, Debug)]
pub struct Trace {
    pub score: Score,
    pub rounds: Vec<RoundSummary>,
    pub recorded: Vec<Recording>,
}

/// Writes listed by cell, each cell once, every cell in the core and every
/// writer one of the two warriors.
pub open spec fn writes_ok(s: Seq<(u32, usize)>, cs: nat) -> bool {
    &&& forall|i: int, j: int| 0 <= i < j < s.len() ==> (#[trigger] s[i]).0 < (#[trigger] s[j]).0
    &&& forall|i: int| 0 <= i < s.len() ==> (#[trigger] s[i]).0 < cs && s[i].1 < 2
}

/// A frame taken every `every` cycles, or at the end of the round.
pub open spec fn frame_ok(f: Frame, every: u32, cs: nat, end: u32) -> bool {
    &&& writes_ok(f.writes@, cs)
    &&& (f.cycle % every == 0 || f.cycle == end)
}

/// The frames of a recorded round: each well formed, the last at the end
/// of the round.
pub open spec fn frames_ok(frames: Seq<Frame>, every: u32, cs: nat, end: u32) -> bool {
    &&& frames.len() > 0
    &&& frames.last().cycle == end
    &&& forall|i: int| 0 <= i < frames.len() ==> frame_ok(#[trigger] frames[i], every, cs, end)
    &&& forall|i: int, j: int| 0 <= i < j < frames.len() ==> (#[trigger] frames[i]).cycle < (#[trigger] frames[j]).cycle
}

/// The winner an outcome names.
pub open spec fn winner_of(o: Outcome) -> Option<usize> {
    match o {
        Outcome::Win(x) => Some(x),
        Outcome::Tie => None,
    }
}

/// The summaries of rounds `r..rounds` of a match from state `s`.
pub open spec fn summaries(
    s: MarsState,
    codes: Seq<Seq<Instruction>>,
    starts: Seq<u32>,
    cfg: Config,
    r: nat,
    rounds: nat,
    seed: i32,
) -> Seq<RoundSummary>
    decreases rounds - r,
{
    if r >= rounds {
        Seq::empty()
    } else {
        let pos = model::spec_position(seed, cfg.core_size, cfg.min_distance);
        let (s2, o, n) = model::round(s, codes, starts, seq![0u32, pos], (r % 2) as int, cfg.max_cycles as nat);
        seq![RoundSummary {
            round: (r + 1) as u32,
            first: (r % 2) as usize,
            position: pos,
            winner: winner_of(o),
            end_cycle: ((n + 1) / 2) as u32,
        }] + summaries(s2, codes, starts, cfg, r + 1, rounds, model::spec_rng(seed))
    }
}

/// The round numbers (from 1) of rounds `r..rounds` that `record` lists.
pub open spec fn recorded_rounds(record: Seq<u32>, r: nat, rounds: nat) -> Seq<u32>
    decreases rounds - r,
{
    if r >= rounds {
        Seq::empty()
    } else if record.contains((r + 1) as u32) {
        seq![(r + 1) as u32] + recorded_rounds(record, r + 1, rounds)
    } else {
        recorded_rounds(record, r + 1, rounds)
    }
}

/// What the instructions of rounds `r..rounds` of a match from state `s`
/// ran and wrote, round by round.
pub open spec fn round_logs(
    s: MarsState,
    codes: Seq<Seq<Instruction>>,
    starts: Seq<u32>,
    cfg: Config,
    r: nat,
    rounds: nat,
    seed: i32,
) -> Seq<Seq<(usize, Seq<u32>)>>
    decreases rounds - r,
{
    if r >= rounds {
        Seq::empty()
    } else {
        let pos = model::spec_position(seed, cfg.core_size, cfg.min_distance);
        let (s2, o, n) = model::round(s, codes, starts, seq![0u32, pos], (r % 2) as int, cfg.max_cycles as nat);
        seq![run_log(model::loaded(s, codes, starts, seq![0u32, pos]), 2 * (cfg.max_cycles as nat), (r % 2) as int)]
            + round_logs(s2, codes, starts, cfg, r + 1, rounds, model::spec_rng(seed))
    }
}

/// The state each of rounds `r..rounds` of a match from state `s` ends in.
pub open spec fn round_states(
    s: MarsState,
    codes: Seq<Seq<Instruction>>,
    starts: Seq<u32>,
    cfg: Config,
    r: nat,
    rounds: nat,
    seed: i32,
) -> Seq<MarsState>
    decreases rounds - r,
{
    if r >= rounds {
        Seq::empty()
    } else {
        let pos = model::spec_position(seed, cfg.core_size, cfg.min_distance);
        let (s2, o, n) = model::round(s, codes, starts, seq![0u32, pos], (r % 2) as int, cfg.max_cycles as nat);
        seq![s2] + round_states(s2, codes, starts, cfg, r + 1, rounds, model::spec_rng(seed))
    }
}

/// The processes of each warrior after each instruction of rounds
/// `r..rounds` of a match from state `s`, round by round.
pub open spec fn round_counts(
    s: MarsState,
    codes: Seq<Seq<Instruction>>,
    starts: Seq<u32>,
    cfg: Config,
    r: nat,
    rounds: nat,
    seed: i32,
) -> Seq<Seq<(nat, nat)>>
    decreases rounds - r,
{
    if r >= rounds {
        Seq::empty()
    } else {
        let pos = model::spec_position(seed, cfg.core_size, cfg.min_distance);
        let (s2, o, n) = model::round(s, codes, starts, seq![0u32, pos], (r % 2) as int, cfg.max_cycles as nat);
        seq![run_counts(model::loaded(s, codes, starts, seq![0u32, pos]), 2 * (cfg.max_cycles as nat), (r % 2) as int)]
            + round_counts(s2, codes, starts, cfg, r + 1, rounds, model::spec_rng(seed))
    }
}

/// The end of a recording gives each warrior's processes in the state its
/// round ended in.
pub open spec fn end_ok(rec: Recording, st: MarsState) -> bool {
    &&& rec.end.processes@[0] == st.queues[0].len()
    &&& rec.end.processes@[1] == st.queues[1].len()
}

/// A recording agrees with the summary of its round, and its frames with
/// what the round's instructions wrote.
pub open spec fn recording_ok(
    rec: Recording,
    sm: RoundSummary,
    log: Seq<(usize, Seq<u32>)>,
    every: u32,
    cs: nat,
    la: nat,
    lb: nat,
) -> bool {
    &&& frames_follow(rec.frames@, log, every, cs)
    &&& rec.every == every
    &&& rec.end.cycle == sm.end_cycle
    &&& rec.end.winner == sm.winner
    &&& rec.start == [(0usize, 0u32, la as usize), (1usize, sm.position, lb as usize)]
    &&& frames_ok(rec.frames@, every, cs, sm.end_cycle)
}

/// Each recording is of a summarised round and agrees with its summary
/// and with what that round's instructions wrote.
pub open spec fn recordings_ok(
    recs: Seq<Recording>,
    sums: Seq<RoundSummary>,
    logs: Seq<Seq<(usize, Seq<u32>)>>,
    every: u32,
    cs: nat,
    la: nat,
    lb: nat,
) -> bool {
    forall|i: int| 0 <= i < recs.len() ==> {
        &&& 1 <= (#[trigger] recs[i]).round <= sums.len()
        &&& recs[i].round <= logs.len()
        &&& recording_ok(recs[i], sums[recs[i].round - 1], logs[recs[i].round - 1], every, cs, la, lb)
    }
}

/// `m` with each of `cells` inside a core of `cs` cells written by
/// warrior `w`, in order.
pub open spec fn with_writes(m: Map<u32, usize>, cells: Seq<u32>, w: usize, cs: nat) -> Map<u32, usize>
    decreases cells.len(),
{
    if cells.len() == 0 {
        m
    } else if cells.last() < cs {
        with_writes(m, cells.drop_last(), w, cs).insert(cells.last(), w)
    } else {
        with_writes(m, cells.drop_last(), w, cs)
    }
}

/// The last writer of each cell of a core of `cs` cells written by the
/// instructions of `log`.
pub open spec fn writers(log: Seq<(usize, Seq<u32>)>, cs: nat) -> Map<u32, usize>
    decreases log.len(),
{
    if log.len() == 0 {
        Map::empty()
    } else {
        with_writes(writers(log.drop_last(), cs), log.last().1, log.last().0, cs)
    }
}

/// `s` lists exactly the cells of `m`, each with its writer.
pub open spec fn lists_writers(s: Seq<(u32, usize)>, m: Map<u32, usize>) -> bool {
    &&& forall|k: int| 0 <= k < s.len() ==> m.dom().contains((#[trigger] s[k]).0) && m[s[k].0] == s[k].1
    &&& forall|c: u32| #[trigger] m.dom().contains(c) ==> exists|k: int| 0 <= k < s.len() && #[trigger] s[k] == (c, m[c])
}

/// The frames of a round whose instructions were `log`, a frame every
/// `every` cycles: frame `i` at cycle `every * (i + 1)` with the cells
/// written by the instructions of its `2 * every` steps, each with its last
/// writer; then, if the round ran on past the last full frame, one frame
/// with the writes of the rest.
pub open spec fn frames_follow(frames: Seq<Frame>, log: Seq<(usize, Seq<u32>)>, every: u32, cs: nat) -> bool {
    let e2 = 2 * every;
    let n = log.len() as int;
    let full = n / e2;
    &&& full <= frames.len() <= full + 1
    &&& forall|i: int| 0 <= i < full ==> (#[trigger] frames[i]).cycle == every * (i + 1)
        && lists_writers(frames[i].writes@, writers(log.subrange(e2 * i, e2 * (i + 1)), cs))
    &&& frames.len() == full + 1 ==> lists_writers(frames[full].writes@, writers(log.subrange(e2 * full, n), cs))
    &&& frames.len() == full ==> n == e2 * full
}

/// The processes the frames of a round give: a full frame those after its
/// last instruction (`counts` gives them after each instruction), a last
/// frame past the full ones those the round ended with (`end`).
pub open spec fn frames_counted(frames: Seq<Frame>, counts: Seq<(nat, nat)>, every: u32, end: MarsState) -> bool {
    let e2 = 2 * every;
    let full = counts.len() as int / e2;
    &&& forall|i: int| 0 <= i < full && i < frames.len() ==> counted_at(#[trigger] frames[i], counts, e2 * (i + 1) - 1)
    &&& frames.len() == full + 1 ==> frames[full].processes@[0] == end.queues[0].len()
        && frames[full].processes@[1] == end.queues[1].len()
}

/// The observer that records a round: the writes since the last frame,
/// and a frame every `every_steps` instructions.
struct Recorder {
    /// Instructions per frame: two per cycle.
    every_steps: u64,
    /// Cycles per frame.
    every: u32,
    /// The core's size.
    cs: u32,
    pending: Vec<(u32, usize)>,
    frames: Vec<Frame>,
    /// The instructions of the round seen so far.
    seen: Ghost<int>,
    /// What each of them ran and wrote.
    shown: Ghost<Seq<(usize, Seq<u32>)>>,
    /// The processes of each warrior after each of them.
    counted: Ghost<Seq<(nat, nat)>>,
}

/// The frames and pending writes of a recorder are the round's writes so
/// far, frame by frame.
spec fn recorder_ok(r: Recorder) -> bool {
    let e = r.every_steps as int;
    &&& r.seen@ == r.shown@.len()
    &&& r.frames@.len() == r.seen@ / e
    &&& forall|i: int| 0 <= i < r.frames@.len() ==> (#[trigger] r.frames@[i]).cycle == r.every * (i + 1)
    &&& forall|i: int| 0 <= i < r.frames@.len() ==> lists_writers(
        (#[trigger] r.frames@[i]).writes@,
        writers(r.shown@.subrange(e * i, e * (i + 1)), r.cs as nat),
    )
    &&& lists_writers(r.pending@, writers(r.shown@.subrange(e * r.frames@.len(), r.seen@), r.cs as nat))
    &&& r.counted@.len() == r.seen@
    &&& forall|i: int| 0 <= i < r.frames@.len() ==> counted_at(#[trigger] r.frames@[i], r.counted@, e * (i + 1) - 1)
}

/// A frame gives the processes of each warrior after instruction `k`.
pub open spec fn counted_at(f: Frame, counts: Seq<(nat, nat)>, k: int) -> bool {
    f.processes@[0] == counts[k].0 && f.processes@[1] == counts[k].1
}

/// One more write noted keeps the pending writes listing their writers.
proof fn lemma_noted(p0: Seq<(u32, usize)>, p: Seq<(u32, usize)>, m: Map<u32, usize>, cell: u32, w: usize, cs: nat)
    requires
        lists_writers(p0, m),
        writes_ok(p, cs),
        exists|k: int| 0 <= k < p.len() && #[trigger] p[k] == (cell, w),
        forall|k: int| 0 <= k < p.len() && (#[trigger] p[k]).0 != cell
            ==> exists|j: int| 0 <= j < p0.len() && #[trigger] p0[j] == p[k],
        forall|j: int| 0 <= j < p0.len() && (#[trigger] p0[j]).0 != cell
            ==> exists|k: int| 0 <= k < p.len() && #[trigger] p[k] == p0[j],
    ensures
        lists_writers(p, m.insert(cell, w)),
{
    let k0 = choose|k: int| 0 <= k < p.len() && #[trigger] p[k] == (cell, w);
    let m2 = m.insert(cell, w);
    assert forall|k: int| 0 <= k < p.len() implies m2.dom().contains((#[trigger] p[k]).0) && m2[p[k].0] == p[k].1 by {
        if p[k].0 == cell {
            if k < k0 {
                assert(p[k].0 < p[k0].0);
            } else if k > k0 {
                assert(p[k0].0 < p[k].0);
            }
        } else {
            let j = choose|j: int| 0 <= j < p0.len() && #[trigger] p0[j] == p[k];
            assert(m.dom().contains(p0[j].0) && m[p0[j].0] == p0[j].1);
        }
    }
    assert forall|c: u32| #[trigger] m2.dom().contains(c) implies exists|k: int| 0 <= k < p.len() && #[trigger] p[k] == (c, m2[c]) by {
        if c == cell {
            assert(p[k0] == (c, m2[c]));
        } else {
            assert(m.dom().contains(c));
            let j = choose|j: int| 0 <= j < p0.len() && #[trigger] p0[j] == (c, m[c]);
            assert(p0[j].0 != cell);
            let k = choose|k: int| 0 <= k < p.len() && #[trigger] p[k] == p0[j];
            assert(p[k] == (c, m2[c]));
        }
    }
}

impl Recorder {
    #[verifier::type_invariant]
    spec fn inv(self) -> bool {
        &&& self.every >= 1
        &&& self.every_steps == 2 * self.every
        &&& writes_ok(self.pending@, self.cs as nat)
        &&& forall|i: int| 0 <= i < self.frames@.len() ==> {
            &&& writes_ok((#[trigger] self.frames@[i]).writes@, self.cs as nat)
            &&& self.frames@[i].cycle % self.every == 0
        }
        &&& forall|i: int, j: int| 0 <= i < j < self.frames@.len() ==> (#[trigger] self.frames@[i]).cycle < (#[trigger] self.frames@[j]).cycle
        &&& self.seen@ >= 0
        &&& self.frames@.len() > 0 ==> 2 * self.frames@.last().cycle <= self.seen@
        &&& self.frames@.len() > 0 && self.pending@.len() > 0 ==> 2 * self.frames@.last().cycle < self.seen@
    }

    fn new(every: u32, cs: u32) -> (r: Recorder)
        requires
            every >= 1,
        ensures
            r.every == every,
            r.cs == cs,
            r.frames@.len() == 0,
            r.pending@.len() == 0,
    {
        Recorder {
            every_steps: every as u64 * 2,
            every,
            cs,
            pending: Vec::new(),
            frames: Vec::new(),
            seen: Ghost(0),
            shown: Ghost(Seq::empty()),
            counted: Ghost(Seq::empty()),
        }
    }

    /// Note that warrior `w` wrote `cell`.
    #[verifier::rlimit(40)]
    fn note(&mut self, cell: u32, w: usize)
        requires
            cell < old(self).cs,
            w < 2,
            old(self).frames@.len() > 0 ==> 2 * old(self).frames@.last().cycle < old(self).seen@,
        ensures
            final(self).cs == old(self).cs,
            final(self).every == old(self).every,
            final(self).frames == old(self).frames,
            final(self).seen == old(self).seen,
            final(self).shown == old(self).shown,
            final(self).counted == old(self).counted,
            final(self).every_steps == old(self).every_steps,
            writes_ok(final(self).pending@, old(self).cs as nat),
            exists|k: int| 0 <= k < final(self).pending@.len() && #[trigger] final(self).pending@[k] == (cell, w),
            forall|k: int| 0 <= k < final(self).pending@.len() && (#[trigger] final(self).pending@[k]).0 != cell
                ==> exists|j: int| 0 <= j < old(self).pending@.len() && #[trigger] old(self).pending@[j] == final(self).pending@[k],
            forall|j: int| 0 <= j < old(self).pending@.len() && (#[trigger] old(self).pending@[j]).0 != cell
                ==> exists|k: int| 0 <= k < final(self).pending@.len() && #[trigger] final(self).pending@[k] == old(self).pending@[j],
    {
        proof {
            use_type_invariant(&*self);
        }
        let mut p: Vec<(u32, usize)> = Vec::new();
        std::mem::swap(&mut p, &mut self.pending);
        let ghost cs = self.cs as nat;
        let mut i: usize = 0;
        while i < p.len() && p[i].0 < cell
            invariant
                i <= p@.len(),
                writes_ok(p@, cs),
                forall|k: int| 0 <= k < i ==> (#[trigger] p@[k]).0 < cell,
            decreases p@.len() - i,
        {
            i += 1;
        }
        let ghost p0 = p@;
        if i < p.len() && p[i].0 == cell {
            let ghost before = p@;
            p.set(i, (cell, w));
            assert(writes_ok(p@, cs)) by {
                assert forall|a: int, b: int| 0 <= a < b < p@.len() implies (#[trigger] p@[a]).0 < (#[trigger] p@[b]).0 by {
                    assert(before[a].0 < before[b].0);
                }
            }
            assert(p@[i as int] == (cell, w));
            assert forall|k: int| 0 <= k < p@.len() && (#[trigger] p@[k]).0 != cell
                implies exists|j: int| 0 <= j < p0.len() && #[trigger] p0[j] == p@[k] by {
                assert(p0[k] == p@[k]);
            }
            assert forall|j: int| 0 <= j < p0.len() && (#[trigger] p0[j]).0 != cell
                implies exists|k: int| 0 <= k < p@.len() && #[trigger] p@[k] == p0[j] by {
                assert(p@[j] == p0[j]);
            }
        } else {
            let ghost before = p@;
            p.insert(i, (cell, w));
            assert(writes_ok(p@, cs)) by {
                assert forall|a: int, b: int| 0 <= a < b < p@.len() implies (#[trigger] p@[a]).0 < (#[trigger] p@[b]).0 by {
                    if b < i {
                        assert(before[a].0 < before[b].0);
                    } else if b == i {
                        assert(before[a].0 < cell);
                    } else if a < i {
                        assert(before[a].0 < cell);
                        assert(before[b - 1].0 >= cell);
                        if b - 1 > i {
                            assert(before[i as int].0 < before[b - 1].0);
                        }
                    } else if a == i {
                        assert(before[b - 1].0 >= cell);
                        if b - 1 > i {
                            assert(before[i as int].0 < before[b - 1].0);
                        }
                        assert(before[i as int].0 != cell);
                    } else {
                        assert(before[a - 1].0 < before[b - 1].0);
                    }
                }
                assert forall|a: int| 0 <= a < p@.len() implies (#[trigger] p@[a]).0 < cs && p@[a].1 < 2 by {
                    if a < i {
                        assert(p@[a] == before[a]);
                    } else if a > i {
                        assert(p@[a] == before[a - 1]);
                    }
                }
            }
            assert(p@[i as int] == (cell, w));
            assert forall|k: int| 0 <= k < p@.len() && (#[trigger] p@[k]).0 != cell
                implies exists|j: int| 0 <= j < p0.len() && #[trigger] p0[j] == p@[k] by {
                if k < i {
                    assert(p0[k] == p@[k]);
                } else {
                    assert(p0[k - 1] == p@[k]);
                }
            }
            assert forall|j: int| 0 <= j < p0.len() && (#[trigger] p0[j]).0 != cell
                implies exists|k: int| 0 <= k < p@.len() && #[trigger] p@[k] == p0[j] by {
                if j < i {
                    assert(p@[j] == p0[j]);
                } else {
                    assert(p@[j + 1] == p0[j]);
                }
            }
        }
        self.pending = p;
    }

    /// A frame at `cycle` with the writes noted since the last one.
    fn flush(&mut self, mars: &Mars, cycle: u32)
        requires
            mars.wf(),
            mars@.queues.len() == 2,
            cycle % old(self).every == 0,
            2 * cycle == old(self).seen@,
            old(self).frames@.len() > 0 ==> old(self).frames@.last().cycle < cycle,
        ensures
            final(self).cs == old(self).cs,
            final(self).every == old(self).every,
            final(self).seen == old(self).seen,
            final(self).frames@.len() == old(self).frames@.len() + 1,
            final(self).frames@.last().cycle == cycle,
            final(self).pending@.len() == 0,
            final(self).shown == old(self).shown,
            final(self).every_steps == old(self).every_steps,
            final(self).frames@.drop_last() == old(self).frames@,
            final(self).frames@.last().writes == old(self).pending,
            final(self).frames@.last().processes@[0] == mars@.queues[0].len(),
            final(self).frames@.last().processes@[1] == mars@.queues[1].len(),
            final(self).counted == old(self).counted,
    {
        proof {
            use_type_invariant(&*self);
        }
        let mut writes: Vec<(u32, usize)> = Vec::new();
        std::mem::swap(&mut writes, &mut self.pending);
        let f = Frame { cycle, processes: [mars.processes(0), mars.processes(1)], writes };
        let mut frames: Vec<Frame> = Vec::new();
        std::mem::swap(&mut frames, &mut self.frames);
        let ghost f0 = frames@;
        frames.push(f);
        assert(frames@.drop_last() =~= f0);
        self.frames = frames;
    }

    /// The last frame, at the end of the round: the writes still pending.
    fn finish(self, mars: &Mars, end: u32) -> (frames: Vec<Frame>)
        requires
            mars.wf(),
            mars@.queues.len() == 2,
            2 * end == self.seen@ || 2 * end == self.seen@ + 1,
            recorder_ok(self),
        ensures
            frames_ok(frames@, self.every, self.cs as nat, end),
            frames_follow(frames@, self.shown@, self.every, self.cs as nat),
            frames_counted(frames@, self.counted@, self.every, mars@),
    {
        proof {
            use_type_invariant(&self);
            let e2 = self.every_steps as int;
            let n = self.seen@;
            vstd::arithmetic::div_mod::lemma_fundamental_div_mod(n, e2);
            assert(e2 * (n / e2) <= n) by (nonlinear_arith)
                requires
                    e2 > 0,
                    n >= 0,
                    n == e2 * (n / e2) + n % e2,
                    0 <= n % e2 < e2,
            ;
            if self.frames@.len() > 0 {
                assert(self.frames@.last() == self.frames@[self.frames@.len() - 1]);
                assert(self.every * self.frames@.len() == e2 * (n / e2) / 2) by (nonlinear_arith)
                    requires
                        e2 == 2 * self.every,
                        self.frames@.len() == n / e2,
                ;
            }
        }
        let ghost shown = self.shown@;
        let ghost old_frames = self.frames@;
        let ghost counts = self.counted@;
        let Recorder { every_steps, every, cs, pending, frames, seen, shown: _, counted: _ } = self;
        let mut frames = frames;
        let ended = frames.len() > 0 && frames[frames.len() - 1].cycle == end;
        if pending.len() > 0 || !ended {
            let f = Frame { cycle: end, processes: [mars.processes(0), mars.processes(1)], writes: pending };
            frames.push(f);
            proof {
                assert forall|i: int| 0 <= i < old_frames.len() implies #[trigger] frames@[i] == old_frames[i] by {}
                assert(frames@.last().processes@[0] == mars@.queues[0].len());
            }
        } else {
            proof {
                let e2 = every_steps as int;
                let n = seen@;
                assert(pending@.len() == 0);
                assert(writers(shown.subrange(e2 * old_frames.len(), n), cs as nat).dom() =~= Set::empty()) by {
                    assert forall|c: u32| !(#[trigger] writers(shown.subrange(e2 * old_frames.len(), n), cs as nat).dom().contains(c)) by {
                        if writers(shown.subrange(e2 * old_frames.len(), n), cs as nat).dom().contains(c) {
                            let k = choose|k: int| 0 <= k < pending@.len()
                                && #[trigger] pending@[k] == (c, writers(shown.subrange(e2 * old_frames.len(), n), cs as nat)[c]);
                        }
                    }
                }
            }
        }
        frames
    }
}

impl Observer for Recorder {
    closed spec fn settings(&self) -> Seq<int> {
        seq![self.every as int, self.cs as int]
    }

    closed spec fn steps_seen(&self) -> int {
        self.seen@
    }

    closed spec fn log(&self) -> Seq<(usize, Seq<u32>)> {
        self.shown@
    }

    closed spec fn ok(&self) -> bool {
        recorder_ok(*self)
    }

    closed spec fn counts(&self) -> Seq<(nat, nat)> {
        self.counted@
    }

    /// A round starts: nothing recorded yet.
    fn loaded(&mut self, mars: &Mars) {
        proof {
            use_type_invariant(&*self);
        }
        self.pending = Vec::new();
        self.frames = Vec::new();
        self.seen = Ghost(0);
        self.shown = Ghost(Seq::empty());
        self.counted = Ghost(Seq::empty());
        proof {
            assert(writers(self.shown@.subrange(0, 0), self.cs as nat) =~= Map::empty()) by {
                assert(self.shown@.subrange(0, 0).len() == 0);
            }
        }
    }

    fn after_step(&mut self, mars: &Mars, w: usize, written: &[u32], step: u64) {
        proof {
            use_type_invariant(&*self);
        }
        let ghost e = self.every_steps as int;
        let ghost len0 = self.frames@.len() as int;
        let ghost cs = self.cs as nat;
        let ghost seg = self.shown@.subrange(e * len0, self.seen@);
        let ghost m0 = writers(seg, cs);
        proof {
            vstd::arithmetic::div_mod::lemma_fundamental_div_mod(self.seen@, e);
            assert(e * len0 <= self.seen@) by (nonlinear_arith)
                requires
                    e > 0,
                    self.seen@ >= 0,
                    len0 == self.seen@ / e,
                    self.seen@ == e * (self.seen@ / e) + self.seen@ % e,
                    0 <= self.seen@ % e < e,
            ;
            assert(with_writes(m0, written@.take(0), w, cs) == m0);
        }
        self.seen = Ghost(step as int);
        let mut i: usize = 0;
        while i < written.len()
            invariant
                i <= written@.len(),
                w < 2,
                forall|k: int| 0 <= k < written@.len() ==> #[trigger] written@[k] < mars@.cs,
                self.every == old(self).every,
                self.cs == old(self).cs,
                cs == self.cs as nat,
                self.seen@ == step,
                self.frames == old(self).frames,
                self.shown == old(self).shown,
                self.counted == old(self).counted,
                old(self).frames@.len() > 0 ==> 2 * old(self).frames@.last().cycle <= old(self).seen@,
                step == old(self).seen@ + 1,
                lists_writers(self.pending@, with_writes(m0, written@.take(i as int), w, cs)),
            decreases written@.len() - i,
        {
            let ghost p0 = self.pending@;
            assert(written@.take(i + 1).drop_last() =~= written@.take(i as int));
            assert(written@.take(i + 1).last() == written@[i as int]);
            if written[i] < self.cs {
                self.note(written[i], w);
                proof {
                    lemma_noted(p0, self.pending@, with_writes(m0, written@.take(i as int), w, cs), written@[i as int], w, cs);
                }
            }
            i += 1;
        }
        proof {
            use_type_invariant(&*self);
            assert(written@.take(written@.len() as int) =~= written@);
        }
        let ghost shown1 = self.shown@.push((w, written@));
        self.shown = Ghost(shown1);
        let ghost counted1 = self.counted@.push((mars@.queues[0].len(), mars@.queues[1].len()));
        self.counted = Ghost(counted1);
        proof {
            assert forall|k: int| 0 <= k < len0 implies counted_at(#[trigger] self.frames@[k], counted1, e * (k + 1) - 1) by {
                assert(e * (k + 1) <= e * len0) by (nonlinear_arith)
                    requires
                        0 <= k < len0,
                        e > 0,
                ;
                assert(1 <= e * (k + 1)) by (nonlinear_arith)
                    requires
                        0 <= k,
                        e > 0,
                ;
                assert(counted1[e * (k + 1) - 1] == old(self).counted@[e * (k + 1) - 1]);
                assert(counted_at(old(self).frames@[k], old(self).counted@, e * (k + 1) - 1));
            }
        }
        proof {
            assert(old(self).shown@.len() == old(self).seen@);
            assert(e * len0 <= old(self).seen@);
            assert(shown1.subrange(e * len0, step as int).drop_last() =~= seg);
            assert(writers(shown1.subrange(e * len0, step as int), cs)
                == with_writes(writers(seg, cs), written@, w, cs));
            assert(shown1.subrange(e * len0, step as int).last() == (w, written@));
            assert forall|k: int| 0 <= k < len0 implies #[trigger] shown1.subrange(e * k, e * (k + 1))
                == old(self).shown@.subrange(e * k, e * (k + 1)) by {
                assert(e * (k + 1) <= e * len0) by (nonlinear_arith)
                    requires
                        0 <= k < len0,
                        e > 0,
                ;
                assert(0 <= e * k && e * k + e == e * (k + 1)) by (nonlinear_arith)
                    requires
                        0 <= k,
                        e > 0,
                ;
                assert forall|x: int| 0 <= x < e * (k + 1) - e * k implies #[trigger] shown1.subrange(e * k, e * (k + 1))[x]
                    == old(self).shown@.subrange(e * k, e * (k + 1))[x] by {
                    assert(shown1[e * k + x] == old(self).shown@[e * k + x]);
                }
                assert(e * (k + 1) <= old(self).shown@.len());
                assert(shown1.subrange(e * k, e * (k + 1)).len() == old(self).shown@.subrange(e * k, e * (k + 1)).len());
                assert(shown1.subrange(e * k, e * (k + 1)) =~= old(self).shown@.subrange(e * k, e * (k + 1)));
            }
        }
        if step % self.every_steps == 0 {
            let cycle = (step / 2) as u32;
            proof {
                let e = self.every as int;
                let k = step as int / (2 * e);
                vstd::arithmetic::div_mod::lemma_fundamental_div_mod(step as int, 2 * e);
                assert(step as int == (2 * e) * k);
                assert(step as int == 2 * (e * k)) by (nonlinear_arith)
                    requires step as int == (2 * e) * k;
                assert(step as int / 2 == e * k);
                assert(e * k <= 0xffff_ffff);
                vstd::arithmetic::div_mod::lemma_mod_multiples_basic(k, e);
                assert((k * e) % e == 0);
                assert(k * e == e * k) by (nonlinear_arith);
            }
            let ghost before_flush = self.frames@;
            let ghost pend = self.pending@;
            self.flush(mars, cycle);
            proof {
                lemma_step_frames(step as int, e, len0, true);
                assert(cycle == self.every * (len0 + 1));
                assert forall|k: int| 0 <= k < self.frames@.len() implies (#[trigger] self.frames@[k]).cycle == self.every * (k + 1)
                    && lists_writers(self.frames@[k].writes@, writers(shown1.subrange(e * k, e * (k + 1)), cs)) by {
                    if k < len0 {
                        assert(self.frames@[k] == self.frames@.drop_last()[k]);
                    } else {
                        assert(self.frames@[k] == self.frames@.last());
                        assert(shown1.subrange(e * k, e * (k + 1)) == shown1.subrange(e * len0, step as int));
                    }
                }
                assert forall|k: int| 0 <= k < self.frames@.len() implies counted_at(#[trigger] self.frames@[k], self.counted@, e * (k + 1) - 1) by {
                    if k < len0 {
                        assert(self.frames@[k] == self.frames@.drop_last()[k]);
                    } else {
                        assert(self.frames@[k] == self.frames@.last());
                        assert(counted1[step - 1] == (mars@.queues[0].len(), mars@.queues[1].len()));
                    }
                }
                assert(writers(shown1.subrange(e * (len0 + 1), step as int), cs) =~= Map::empty()) by {
                    assert(shown1.subrange(e * (len0 + 1), step as int).len() == 0);
                }
                assert(self.seen@ == self.shown@.len());
                assert(self.frames@.len() == self.seen@ / e);
                assert(self.pending@.len() == 0);
                assert(e * self.frames@.len() == e * (len0 + 1));
                assert(lists_writers(self.pending@, writers(self.shown@.subrange(e * self.frames@.len(), self.seen@), cs)));
                assert(forall|i: int| 0 <= i < self.frames@.len() ==> (#[trigger] self.frames@[i]).cycle == self.every * (i + 1));
                assert(forall|i: int| 0 <= i < self.frames@.len() ==> lists_writers(
                    (#[trigger] self.frames@[i]).writes@,
                    writers(self.shown@.subrange(e * i, e * (i + 1)), self.cs as nat),
                ));
                assert(recorder_ok(*self));
            }
        } else {
            proof {
                lemma_step_frames(step as int, e, len0, false);
                assert(recorder_ok(*self));
            }
        }
    }
}

/// Where the step count stands against the frames: `len0` full frames
/// before step `step`, one more exactly when the step ends one.
proof fn lemma_step_frames(step: int, e: int, len0: int, ends: bool)
    requires
        e > 0,
        step >= 1,
        len0 == (step - 1) / e,
        ends == (step % e == 0),
    ensures
        ends ==> step == e * (len0 + 1) && step / e == len0 + 1,
        !ends ==> step / e == len0 && e * len0 < step,
{
    vstd::arithmetic::div_mod::lemma_fundamental_div_mod(step, e);
    vstd::arithmetic::div_mod::lemma_fundamental_div_mod(step - 1, e);
    let q = step / e;
    let r = step % e;
    let q1 = (step - 1) / e;
    let r1 = (step - 1) % e;
    if r == 0 {
        assert(q1 == q - 1 && r1 == e - 1) by (nonlinear_arith)
            requires
                step == e * q,
                step - 1 == e * q1 + r1,
                0 <= r1 < e,
                e > 0,
        ;
        assert(step == e * (q1 + 1)) by (nonlinear_arith)
            requires
                step == e * q,
                q1 == q - 1,
        ;
    } else {
        assert(q1 == q && r1 == r - 1) by (nonlinear_arith)
            requires
                step == e * q + r,
                step - 1 == e * q1 + r1,
                0 <= r1 < e,
                0 < r < e,
                e > 0,
        ;
    }
}

/// Whether `record` lists round `n`.
fn listed(record: &[u32], n: u32) -> (r: bool)
    ensures
        r == record@.contains(n),
{
    let mut i: usize = 0;
    while i < record.len()
        invariant
            i <= record@.len(),
            forall|k: int| 0 <= k < i ==> record@[k] != n,
        decreases record@.len() - i,
    {
        if record[i] == n {
            return true;
        }
        i += 1;
    }
    false
}

/// A match of `rounds` rounds, like `Mars::play`, recording the rounds whose
/// numbers (from 1) are in `record` with a frame every `every` cycles.
/// `a` is assembled as the first warrior, `b` as the second (see
/// `Config::first_warrior`).
#[verifier::rlimit(40)]
pub fn trace(cfg: &Config, a: &Warrior, b: &Warrior, rounds: u32, seed: i32, record: &[u32], every: u32) -> (t: Trace)
    requires
        every > 0,
        match_config(*cfg),
        warrior_loadable(*a, cfg.core_size as nat),
        warrior_loadable(*b, cfg.core_size as nat),
    ensures
        t.score == match_result(*cfg, codes_of(seq![a, b]), starts_of(seq![a, b]), pins_of(seq![a, b]), rounds as nat, seed),
        t.rounds@ == summaries(
            model::fresh_pspace(initial_state(*cfg, 2), pins_of(seq![a, b])),
            codes_of(seq![a, b]),
            starts_of(seq![a, b]),
            *cfg,
            0,
            rounds as nat,
            seed,
        ),
        t.recorded@.map_values(|r: Recording| r.round) == recorded_rounds(record@, 0, rounds as nat),
        recordings_ok(
            t.recorded@,
            t.rounds@,
            round_logs(
                model::fresh_pspace(initial_state(*cfg, 2), pins_of(seq![a, b])),
                codes_of(seq![a, b]),
                starts_of(seq![a, b]),
                *cfg,
                0,
                rounds as nat,
                seed,
            ),
            every,
            cfg.core_size as nat,
            a.code@.len(),
            b.code@.len(),
        ),
        forall|i: int| 0 <= i < t.recorded@.len() ==> end_ok(
            #[trigger] t.recorded@[i],
            round_states(
                model::fresh_pspace(initial_state(*cfg, 2), pins_of(seq![a, b])),
                codes_of(seq![a, b]),
                starts_of(seq![a, b]),
                *cfg,
                0,
                rounds as nat,
                seed,
            )[t.recorded@[i].round - 1],
        ),
        forall|i: int| 0 <= i < t.recorded@.len() ==> frames_counted(
            (#[trigger] t.recorded@[i]).frames@,
            round_counts(
                model::fresh_pspace(initial_state(*cfg, 2), pins_of(seq![a, b])),
                codes_of(seq![a, b]),
                starts_of(seq![a, b]),
                *cfg,
                0,
                rounds as nat,
                seed,
            )[t.recorded@[i].round - 1],
            every,
            round_states(
                model::fresh_pspace(initial_state(*cfg, 2), pins_of(seq![a, b])),
                codes_of(seq![a, b]),
                starts_of(seq![a, b]),
                *cfg,
                0,
                rounds as nat,
                seed,
            )[t.recorded@[i].round - 1],
        ),
        forall|i: int| 0 <= i < t.recorded@.len() ==> ((#[trigger] t.recorded@[i]).end.winner matches Some(x)
            ==> x < 2 && t.recorded@[i].end.processes@[1 - x] == 0),
{
    let ghost ws = seq![a, b];
    let ghost codes = codes_of(ws);
    let ghost starts = starts_of(ws);
    let sep = cfg.min_distance;
    let positions = cfg.core_size + 1 - 2 * sep;
    let mut seed = seed;
    let mut mars = Mars::new(cfg, 2);
    let pair: [&Warrior; 2] = [a, b];
    assert(pair@ =~= ws);
    mars.begin_match(pair.as_slice());
    let ghost s0 = mars@;
    let ghost total = model::play_rounds(s0, codes, starts, cfg.core_size, cfg.min_distance, cfg.max_cycles as nat, 0, rounds as nat, seed, zero_score());
    let ghost all = summaries(s0, codes, starts, *cfg, 0, rounds as nat, seed);
    let ghost wanted = recorded_rounds(record@, 0, rounds as nat);
    let ghost all_logs = round_logs(s0, codes, starts, *cfg, 0, rounds as nat, seed);
    let ghost mut logs_done: Seq<Seq<(usize, Seq<u32>)>> = Seq::empty();
    let ghost all_states = round_states(s0, codes, starts, *cfg, 0, rounds as nat, seed);
    let ghost mut states_done: Seq<MarsState> = Seq::empty();
    let ghost all_counts = round_counts(s0, codes, starts, *cfg, 0, rounds as nat, seed);
    let ghost mut counts_done: Seq<Seq<(nat, nat)>> = Seq::empty();
    let mut score = Score::default();
    let mut summary: Vec<RoundSummary> = Vec::new();
    let mut recorded: Vec<Recording> = Vec::new();
    let mut r: u32 = 0;
    while r < rounds
        invariant
            mars.wf(),
            mars@.queues.len() == 2,
            mars@.cs == cfg.core_size,
            match_config(*cfg),
            every > 0,
            positions == cfg.core_size + 1 - 2 * cfg.min_distance,
            sep == cfg.min_distance,
            r <= rounds,
            pair@ == ws,
            ws == seq![a, b],
            codes == codes_of(ws),
            starts == starts_of(ws),
            warrior_loadable(*a, mars@.cs),
            warrior_loadable(*b, mars@.cs),
            score.w1 + score.w2 + score.ties == r,
            model::play_rounds(mars@, codes, starts, cfg.core_size, cfg.min_distance, cfg.max_cycles as nat, r as nat, rounds as nat, seed, score).0 == total.0,
            summary@ + summaries(mars@, codes, starts, *cfg, r as nat, rounds as nat, seed) == all,
            recorded@.map_values(|x: Recording| x.round) + recorded_rounds(record@, r as nat, rounds as nat) == wanted,
            summary@.len() == r,
            logs_done + round_logs(mars@, codes, starts, *cfg, r as nat, rounds as nat, seed) == all_logs,
            logs_done.len() == r,
            recordings_ok(recorded@, summary@, logs_done, every, cfg.core_size as nat, a.code@.len(), b.code@.len()),
            states_done + round_states(mars@, codes, starts, *cfg, r as nat, rounds as nat, seed) == all_states,
            states_done.len() == r,
            counts_done + round_counts(mars@, codes, starts, *cfg, r as nat, rounds as nat, seed) == all_counts,
            counts_done.len() == r,
            forall|i: int| 0 <= i < recorded@.len() ==> frames_counted(
                (#[trigger] recorded@[i]).frames@, counts_done[recorded@[i].round - 1], every, states_done[recorded@[i].round - 1]),
            forall|i: int| 0 <= i < recorded@.len() ==> end_ok(#[trigger] recorded@[i], states_done[recorded@[i].round - 1]),
            forall|i: int| 0 <= i < recorded@.len() ==> ((#[trigger] recorded@[i]).end.winner matches Some(x)
                ==> x < 2 && recorded@[i].end.processes@[1 - x] == 0),
        decreases rounds - r,
    {
        let m = seed.checked_rem_euclid(positions as i32).unwrap();
        let pos = sep + m as u32;
        assert(pos == model::spec_position(seed, cfg.core_size, cfg.min_distance));
        let ghost old_seed = seed;
        let ghost before = mars@;
        seed = pmars_rng(seed);
        let first = (r % 2) as usize;
        let number = r + 1;
        let wanted_now = listed(record, number);
        let ghost this_log = run_log(
            model::loaded(before, codes, starts, seq![0u32, pos]),
            2 * (cfg.max_cycles as nat),
            (r % 2) as int,
        );
        let ghost this_counts = run_counts(
            model::loaded(before, codes, starts, seq![0u32, pos]),
            2 * (cfg.max_cycles as nat),
            (r % 2) as int,
        );
        let (outcome, rec) = if wanted_now {
            let mut o = Recorder::new(every, cfg.core_size);
            let outcome = mars.round_observed(cfg, pair, [0, pos], first, &mut o);
            assert(o.settings() == seq![every as int, cfg.core_size as int]);
            assert(o.every == every && o.cs == cfg.core_size);
            assert(seq![0u32, pos] =~= [0u32, pos]@);
            assert(o.shown@ == this_log);
            assert(o.counted@ == this_counts);
            assert(recorder_ok(o));
            (outcome, Some(o))
        } else {
            (mars.round(cfg, pair, [0, pos], first), None)
        };
        assert(rec matches Some(x) ==> x.every == every && x.cs == cfg.core_size && x.shown@ == this_log && recorder_ok(x)
            && x.counted@ == this_counts);
        let winner = match outcome {
            Outcome::Win(x) => Some(x),
            Outcome::Tie => None,
        };
        match winner {
            Some(0) => score.w1 = score.w1 + 1,
            Some(_) => score.w2 = score.w2 + 1,
            None => score.ties = score.ties + 1,
        }
        let n = mars.round_steps();
        proof {
            model::lemma_run_count(
                model::loaded(before, codes, starts, seq![0u32, pos]),
                2 * (cfg.max_cycles as nat),
                (r % 2) as int,
            );
            assert(seq![0u32, pos] =~= [0u32, pos]@);
        }
        let end_cycle = (n / 2 + n % 2) as u32;
        let sm = RoundSummary { round: number, first, position: pos, winner, end_cycle };
        summary.push(sm);
        proof {
            let (s2, o, k) = model::round(before, codes, starts, seq![0u32, pos], (r % 2) as int, cfg.max_cycles as nat);
            assert(seq![0u32, pos] =~= [0u32, pos]@);
            assert(n == k);
            assert((n + 1) / 2 == n / 2 + n % 2);
            assert(summaries(before, codes, starts, *cfg, r as nat, rounds as nat, old_seed)
                == seq![sm] + summaries(mars@, codes, starts, *cfg, (r + 1) as nat, rounds as nat, seed));
            assert(summary@ =~= summary@.drop_last() + seq![sm]);
            assert(round_logs(before, codes, starts, *cfg, r as nat, rounds as nat, old_seed)
                == seq![this_log] + round_logs(mars@, codes, starts, *cfg, (r + 1) as nat, rounds as nat, seed));
        }
        let ghost states_before = states_done;
        let ghost counts_before = counts_done;
        proof {
            assert(round_counts(before, codes, starts, *cfg, r as nat, rounds as nat, old_seed)
                == seq![this_counts] + round_counts(mars@, codes, starts, *cfg, (r + 1) as nat, rounds as nat, seed));
            counts_done = counts_done.push(this_counts);
            assert(counts_done + round_counts(mars@, codes, starts, *cfg, (r + 1) as nat, rounds as nat, seed) =~= all_counts) by {
                assert(counts_before + round_counts(before, codes, starts, *cfg, r as nat, rounds as nat, old_seed) == all_counts);
                assert(counts_done + round_counts(mars@, codes, starts, *cfg, (r + 1) as nat, rounds as nat, seed)
                    =~= counts_before + (seq![this_counts] + round_counts(mars@, codes, starts, *cfg, (r + 1) as nat, rounds as nat, seed)));
            }
        }
        proof {
            model::lemma_round_loser(before, codes, starts, seq![0u32, pos], (r % 2) as int, cfg.max_cycles as nat);
            let (s2, o, k) = model::round(before, codes, starts, seq![0u32, pos], (r % 2) as int, cfg.max_cycles as nat);
            assert(round_states(before, codes, starts, *cfg, r as nat, rounds as nat, old_seed)
                == seq![mars@] + round_states(mars@, codes, starts, *cfg, (r + 1) as nat, rounds as nat, seed));
            states_done = states_done.push(mars@);
            assert(states_done + round_states(mars@, codes, starts, *cfg, (r + 1) as nat, rounds as nat, seed) =~= all_states) by {
                assert(states_before + round_states(before, codes, starts, *cfg, r as nat, rounds as nat, old_seed) == all_states);
                assert(states_done + round_states(mars@, codes, starts, *cfg, (r + 1) as nat, rounds as nat, seed)
                    =~= states_before + (seq![mars@] + round_states(mars@, codes, starts, *cfg, (r + 1) as nat, rounds as nat, seed)));
            }
        }
        let ghost logs_before = logs_done;
        proof {
            logs_done = logs_done.push(this_log);
            assert(logs_done + round_logs(mars@, codes, starts, *cfg, (r + 1) as nat, rounds as nat, seed) =~= all_logs) by {
                assert(logs_before + round_logs(before, codes, starts, *cfg, r as nat, rounds as nat, old_seed) == all_logs);
                assert(logs_done + round_logs(mars@, codes, starts, *cfg, (r + 1) as nat, rounds as nat, seed)
                    =~= logs_before + (seq![this_log] + round_logs(mars@, codes, starts, *cfg, (r + 1) as nat, rounds as nat, seed)));
            }
        }
        match rec {
            Some(o) => {
                let frames = o.finish(&mars, end_cycle);
                let ghost prev = recorded@;
                recorded.push(Recording {
                    round: number,
                    every,
                    start: [(0, 0, a.code.len()), (1, pos, b.code.len())],
                    frames,
                    end: End { cycle: end_cycle, winner, processes: [mars.processes(0), mars.processes(1)] },
                });
                proof {
                    assert(recorded@.map_values(|x: Recording| x.round) =~= prev.map_values(|x: Recording| x.round).push(number));
                    assert(recorded@.last().end.processes@[0] == mars@.queues[0].len());
                    assert(recorded@.last().end.processes@[1] == mars@.queues[1].len());
                }
            },
            None => {},
        }
        proof {
            let la = a.code@.len();
            let lb = b.code@.len();
            let cs = cfg.core_size as nat;
            assert forall|i: int| 0 <= i < recorded@.len() implies {
                &&& 1 <= (#[trigger] recorded@[i]).round <= summary@.len()
                &&& recorded@[i].round <= logs_done.len()
                &&& recording_ok(recorded@[i], summary@[recorded@[i].round - 1], logs_done[recorded@[i].round - 1], every, cs, la, lb)
            } by {
                let rec = recorded@[i];
                if rec.round <= r {
                    assert(summary@[rec.round - 1] == summary@.drop_last()[rec.round - 1]);
                    assert(logs_done[rec.round - 1] == logs_before[rec.round - 1]);
                } else {
                    assert(logs_done[rec.round - 1] == this_log);
                }
            }
            assert forall|i: int| 0 <= i < recorded@.len() implies end_ok(#[trigger] recorded@[i], states_done[recorded@[i].round - 1]) by {
                let rec = recorded@[i];
                if rec.round <= r {
                    assert(states_done[rec.round - 1] == states_before[rec.round - 1]);
                } else {
                    assert(states_done[rec.round - 1] == mars@);
                }
            }
            assert forall|i: int| 0 <= i < recorded@.len() implies frames_counted(
                (#[trigger] recorded@[i]).frames@, counts_done[recorded@[i].round - 1], every, states_done[recorded@[i].round - 1]) by {
                let rec = recorded@[i];
                if rec.round <= r {
                    assert(states_done[rec.round - 1] == states_before[rec.round - 1]);
                    assert(counts_done[rec.round - 1] == counts_before[rec.round - 1]);
                } else {
                    assert(states_done[rec.round - 1] == mars@);
                    assert(counts_done[rec.round - 1] == this_counts);
                }
            }
        }
        r += 1;
    }
    proof {
        assert(summary@ =~= all);
        assert(recorded@.map_values(|x: Recording| x.round) =~= wanted);
        assert(states_done =~= all_states);
        assert(counts_done =~= all_counts);
    }
    Trace { score, rounds: summary, recorded }
}

} // verus!
