//! Several matches at once, interleaved in one loop.
//!
//! A single battle is a chain of dependent steps: fetch the program counter,
//! then the instruction, then dispatch on it, then the operands. While one
//! chain waits, the processor has nothing else to do. Two independent
//! battles interleaved step by step give it a second chain to work on.
//!
//! Rounds of one match depend on each other through P-space (cell 0 holds
//! the previous result), so the lanes run different matches of a round
//! robin. Each lane's own sequence of steps is exactly the sequential one:
//! the result of every match equals `Engine::play` with the same seed.
use crate::assembler::{match_config, engine_config, Config};
use crate::fast::{compiled_codes, compiled_loadable, compiled_pins, compiled_starts, Compiled, Engine};
use crate::mars::{initial_state, lemma_match_depends_on_rules, match_result, match_steps, pmars_rng, zero_score, Outcome, Score};
use crate::model::{self, MarsState};
use vstd::prelude::*;

verus! {

/// One match to play: the two warriors and the position seed.
#[derive(Clone, Copy)]
pub struct Job<'a> {
    pub a: &'a Compiled,
    pub b: &'a Compiled,
    pub seed: i32,
}

/// The warriors of a job, in order.
pub open spec fn job_warriors<'a>(job: Job<'a>) -> Seq<&'a Compiled> {
    seq![job.a, job.b]
}

/// The score a job comes to in `rounds` rounds under `cfg`: the score of
/// `Engine::play` for its warriors and seed.
pub open spec fn job_result(cfg: Config, job: Job, rounds: nat) -> Score {
    let ws = job_warriors(job);
    match_result(cfg, compiled_codes(ws), compiled_starts(ws), compiled_pins(ws), rounds, job.seed)
}

/// Both warriors of a job fit a core of `cfg`.
pub open spec fn job_loadable(cfg: Config, job: Job) -> bool {
    &&& compiled_loadable(*job.a, cfg.core_size as nat)
    &&& compiled_loadable(*job.b, cfg.core_size as nat)
}

/// One engine and the match it is playing.
struct Lane {
    engine: Engine,
    job: Option<usize>,
    round: u32,
    seed: i32,
    score: Score,
    /// Instructions left before the round is a tie.
    budget: u64,
    /// Instructions this round has executed.
    executed: u64,
    /// The warrior that moves next.
    turn: usize,
    /// Instructions of the match's rounds played out so far.
    done: Ghost<nat>,
}

/// The rounds of a lane's match from round `l.round` on, the lane between
/// rounds: what the match comes to from here.
spec fn ahead(l: Lane, cfg: Config, job: Job, rounds: nat) -> Score {
    let ws = job_warriors(job);
    model::play_rounds(
        l.engine@,
        compiled_codes(ws),
        compiled_starts(ws),
        cfg.core_size,
        cfg.min_distance,
        cfg.max_cycles as nat,
        l.round as nat,
        rounds,
        l.seed,
        l.score,
    ).0
}

/// The rounds after a round that left the engine in `s` and ended with
/// `o`, the lane at round `round`, with `seed` and `score`.
spec fn after_round(s: MarsState, round: u32, seed: i32, score: Score, o: Outcome, cfg: Config, job: Job, rounds: nat) -> Score {
    let ws = job_warriors(job);
    model::play_rounds(
        model::record_result(s, o),
        compiled_codes(ws),
        compiled_starts(ws),
        cfg.core_size,
        cfg.min_distance,
        cfg.max_cycles as nat,
        (round + 1) as nat,
        rounds,
        seed,
        model::count(score, o),
    ).0
}

/// The rounds after the round in progress, once it ended with `o`.
spec fn after(l: Lane, o: Outcome, cfg: Config, job: Job, rounds: nat) -> Score {
    after_round(l.engine@, l.round, l.seed, l.score, o, cfg, job, rounds)
}

/// The round in progress played out, then the rounds after it.
spec fn rest(l: Lane, cfg: Config, job: Job, rounds: nat) -> Score {
    let (s2, o, n) = model::run(l.engine@, l.budget as nat, l.turn as int);
    after_round(s2, l.round, l.seed, l.score, o, cfg, job, rounds)
}

/// The instructions a job takes in `rounds` rounds under `cfg`: what
/// `Engine::play` counts for it.
pub open spec fn job_steps(cfg: Config, job: Job, rounds: nat) -> nat {
    let ws = job_warriors(job);
    match_steps(cfg, compiled_codes(ws), compiled_starts(ws), compiled_pins(ws), rounds, job.seed)
}

/// The instructions of the rounds of a lane's match from `l.round` on.
spec fn ahead_steps(l: Lane, cfg: Config, job: Job, rounds: nat) -> nat {
    let ws = job_warriors(job);
    model::play_rounds(
        l.engine@,
        compiled_codes(ws),
        compiled_starts(ws),
        cfg.core_size,
        cfg.min_distance,
        cfg.max_cycles as nat,
        l.round as nat,
        rounds,
        l.seed,
        l.score,
    ).2
}

/// The instructions of the rounds after a round that left the engine in
/// `s` and ended with `o`.
spec fn after_round_steps(s: MarsState, round: u32, seed: i32, score: Score, o: Outcome, cfg: Config, job: Job, rounds: nat) -> nat {
    let ws = job_warriors(job);
    model::play_rounds(
        model::record_result(s, o),
        compiled_codes(ws),
        compiled_starts(ws),
        cfg.core_size,
        cfg.min_distance,
        cfg.max_cycles as nat,
        (round + 1) as nat,
        rounds,
        seed,
        model::count(score, o),
    ).2
}

/// The instructions of the rest of the round in progress and of the rounds
/// after it.
spec fn rest_steps(l: Lane, cfg: Config, job: Job, rounds: nat) -> nat {
    let (s2, o, n) = model::run(l.engine@, l.budget as nat, l.turn as int);
    n + after_round_steps(s2, l.round, l.seed, l.score, o, cfg, job, rounds)
}

/// The engine is made for `cfg` and ready.
spec fn engine_ok(l: Lane, cfg: Config) -> bool {
    &&& l.engine.wf()
    &&& l.engine@.cs == cfg.core_size
    &&& l.engine@.max_processes == cfg.max_processes
}

/// A lane in the middle of a round of job `j`.
spec fn playing(l: Lane, cfg: Config, jobs: Seq<Job>, rounds: nat, j: int) -> bool {
    &&& engine_ok(l, cfg)
    &&& l.job == Some(j as usize)
    &&& 0 <= j < jobs.len()
    &&& l.round < rounds
    &&& l.turn < 2
    &&& l.executed + l.budget == 2 * cfg.max_cycles
    &&& l.score.w1 + l.score.w2 + l.score.ties == l.round
}

/// Idle, or in a round of a job on its way to the job's result.
spec fn lane_ok(l: Lane, cfg: Config, jobs: Seq<Job>, rounds: nat) -> bool {
    &&& engine_ok(l, cfg)
    &&& match l.job {
        None => true,
        Some(j) => {
            &&& playing(l, cfg, jobs, rounds, j as int)
            &&& rest(l, cfg, jobs[j as int], rounds) == job_result(cfg, jobs[j as int], rounds)
            &&& l.done@ + l.executed + rest_steps(l, cfg, jobs[j as int], rounds) == job_steps(cfg, jobs[j as int], rounds)
        },
    }
}

/// A lane whose round just ended with `o`.
spec fn ended(l: Lane, o: Outcome, cfg: Config, jobs: Seq<Job>, rounds: nat) -> bool {
    &&& l.job is Some
    &&& playing(l, cfg, jobs, rounds, l.job->0 as int)
    &&& (o matches Outcome::Win(x) ==> x < 2)
    &&& after(l, o, cfg, jobs[l.job->0 as int], rounds) == job_result(cfg, jobs[l.job->0 as int], rounds)
    &&& l.done@ + l.executed + after_round_steps(l.engine@, l.round, l.seed, l.score, o, cfg, jobs[l.job->0 as int], rounds)
        == job_steps(cfg, jobs[l.job->0 as int], rounds)
}

impl Lane {
    fn idle(cfg: &Config) -> (l: Lane)
        requires
            engine_config(*cfg),
            (cfg.max_processes as int) < usize::MAX,
        ensures
            engine_ok(l, *cfg),
            l.job is None,
            l.engine.step_count() == 0,
    {
        Lane {
            engine: Engine::new(cfg),
            job: None,
            round: 0,
            seed: 0,
            score: Score::default(),
            budget: 0,
            executed: 0,
            turn: 0,
            done: Ghost(0),
        }
    }

    /// One instruction of the round in progress; its outcome if the round
    /// ended.
    fn tick(&mut self, Ghost(cfg): Ghost<Config>, Ghost(jobs): Ghost<Seq<Job>>, Ghost(rounds): Ghost<nat>) -> (r: Option<Outcome>)
        requires
            lane_ok(*old(self), cfg, jobs, rounds),
            old(self).job is Some,
        ensures
            final(self).job == old(self).job,
            final(self).round == old(self).round,
            final(self).done == old(self).done,
            final(self).engine.step_count() == old(self).engine.step_count(),
            match r {
                None => lane_ok(*final(self), cfg, jobs, rounds) && final(self).budget < old(self).budget,
                Some(o) => ended(*final(self), o, cfg, jobs, rounds),
            },
    {
        let ghost s = self.engine@;
        let ghost run = model::run(s, self.budget as nat, self.turn as int);
        if self.budget == 0 {
            return Some(Outcome::Tie);
        }
        proof {
            self.engine.lemma_wf();
            model::lemma_step(s, self.turn as int);
        }
        self.budget = self.budget - 1;
        self.executed = self.executed + 1;
        let alive = self.engine.step(self.turn);
        if !alive {
            return Some(Outcome::Win(1 - self.turn));
        }
        self.turn = 1 - self.turn;
        None
    }
}


impl Lane {
    /// Count the round that ended with `o`.
    fn finish(&mut self, o: Outcome, Ghost(cfg): Ghost<Config>, Ghost(jobs): Ghost<Seq<Job>>, Ghost(rounds): Ghost<nat>)
        requires
            ended(*old(self), o, cfg, jobs, rounds),
            rounds <= u32::MAX,
        ensures
            engine_ok(*final(self), cfg),
            final(self).job == old(self).job,
            final(self).round == old(self).round + 1,
            final(self).score.w1 + final(self).score.w2 + final(self).score.ties == final(self).round,
            final(self).round <= rounds,
            ahead(*final(self), cfg, jobs[old(self).job->0 as int], rounds) == job_result(cfg, jobs[old(self).job->0 as int], rounds),
            final(self).engine.step_count() == model::plus_steps(old(self).engine.step_count(), old(self).executed as nat),
            final(self).done@ == old(self).done@ + old(self).executed,
            final(self).done@ + ahead_steps(*final(self), cfg, jobs[old(self).job->0 as int], rounds)
                == job_steps(cfg, jobs[old(self).job->0 as int], rounds),
    {
        self.done = Ghost(self.done@ + self.executed as nat);
        self.engine.finish_round(o, self.executed);
        match o {
            Outcome::Win(0) => self.score.w1 = self.score.w1 + 1,
            Outcome::Win(_) => self.score.w2 = self.score.w2 + 1,
            Outcome::Tie => self.score.ties = self.score.ties + 1,
        }
        self.round = self.round + 1;
    }

    /// Load the next round of the lane's match.
    fn start_round(&mut self, cfg: &Config, job: Job, Ghost(jobs): Ghost<Seq<Job>>, Ghost(rounds): Ghost<nat>)
        requires
            match_config(*cfg),
            job_loadable(*cfg, job),
            engine_ok(*old(self), *cfg),
            old(self).job is Some,
            0 <= old(self).job->0 < jobs.len(),
            jobs[old(self).job->0 as int] == job,
            old(self).round < rounds,
            old(self).score.w1 + old(self).score.w2 + old(self).score.ties == old(self).round,
            ahead(*old(self), *cfg, job, rounds) == job_result(*cfg, job, rounds),
            old(self).done@ + ahead_steps(*old(self), *cfg, job, rounds) == job_steps(*cfg, job, rounds),
        ensures
            lane_ok(*final(self), *cfg, jobs, rounds),
            final(self).job == old(self).job,
            final(self).round == old(self).round,
            final(self).engine.step_count() == old(self).engine.step_count(),
            final(self).done == old(self).done,
    {
        let ghost s = self.engine@;
        let ghost ws = job_warriors(job);
        let ghost seed0 = self.seed;
        let sep = cfg.min_distance;
        let positions = cfg.core_size + 1 - 2 * sep;
        let m = self.seed.checked_rem_euclid(positions as i32).unwrap();
        let pos = sep + m as u32;
        assert(pos == model::spec_position(seed0, cfg.core_size, cfg.min_distance));
        self.seed = pmars_rng(self.seed);
        let pair: [&Compiled; 2] = [job.a, job.b];
        assert(pair@ =~= ws);
        let at: [u32; 2] = [0, pos];
        assert(at@ =~= seq![0u32, pos]);
        self.engine.start_round(pair, at);
        self.budget = cfg.max_cycles as u64 * 2;
        self.executed = 0;
        self.turn = (self.round % 2) as usize;
        proof {
            assert(self.engine@ == model::loaded(s, compiled_codes(ws), compiled_starts(ws), seq![0u32, pos]));
            assert(rest(*self, *cfg, job, rounds) == ahead(*old(self), *cfg, job, rounds));
            assert(rest_steps(*self, *cfg, job, rounds) == ahead_steps(*old(self), *cfg, job, rounds));
        }
    }

    /// Take the next job, if there is one and rounds to play: a fresh
    /// P-space, then its first round.
    fn take_job(&mut self, cfg: &Config, jobs: &[Job], rounds: u32, next: &mut usize)
        requires
            match_config(*cfg),
            forall|j: int| 0 <= j < jobs@.len() ==> job_loadable(*cfg, #[trigger] jobs@[j]),
            engine_ok(*old(self), *cfg),
            *old(next) <= jobs@.len(),
        ensures
            lane_ok(*final(self), *cfg, jobs@, rounds as nat),
            final(self).engine.step_count() == old(self).engine.step_count(),
            if *old(next) < jobs@.len() && rounds > 0 {
                &&& final(self).job == Some(*old(next))
                &&& *final(next) == *old(next) + 1
                &&& final(self).done@ == 0
            } else {
                &&& final(self).job is None
                &&& *final(next) == *old(next)
            },
    {
        if *next >= jobs.len() || rounds == 0 {
            self.job = None;
            return;
        }
        let j = *next;
        *next = j + 1;
        let job = jobs[j];
        let ghost ws = job_warriors(job);
        let ghost s = self.engine@;
        proof {
            self.engine.lemma_wf();
            lemma_match_depends_on_rules(
                s,
                initial_state(*cfg, 2),
                compiled_pins(ws),
                compiled_codes(ws),
                compiled_starts(ws),
                cfg.core_size,
                cfg.min_distance,
                cfg.max_cycles as nat,
                rounds as nat,
                job.seed,
            );
        }
        self.engine.begin_match(job.a, job.b);
        assert(compiled_pins(ws) =~= seq![job.a.pin, job.b.pin]);
        self.job = Some(j);
        self.round = 0;
        self.seed = job.seed;
        self.score = Score::default();
        self.done = Ghost(0);
        assert(ahead(*self, *cfg, job, rounds as nat) == job_result(*cfg, job, rounds as nat));
        assert(ahead_steps(*self, *cfg, job, rounds as nat) == job_steps(*cfg, job, rounds as nat));
        self.start_round(cfg, job, Ghost(jobs@), Ghost(rounds as nat));
    }
}

impl Lane {
    /// Play the round in progress to its end, alone.
    fn play_out(&mut self, Ghost(cfg): Ghost<Config>, Ghost(jobs): Ghost<Seq<Job>>, Ghost(rounds): Ghost<nat>) -> (o: Outcome)
        requires
            lane_ok(*old(self), cfg, jobs, rounds),
            old(self).job is Some,
        ensures
            final(self).job == old(self).job,
            final(self).round == old(self).round,
            final(self).done == old(self).done,
            final(self).engine.step_count() == old(self).engine.step_count(),
            ended(*final(self), o, cfg, jobs, rounds),
    {
        loop
            invariant
                lane_ok(*self, cfg, jobs, rounds),
                self.job == old(self).job,
                self.job is Some,
                self.round == old(self).round,
                self.done == old(self).done,
                self.engine.step_count() == old(self).engine.step_count(),
            decreases self.budget,
        {
            if let Some(o) = self.tick(Ghost(cfg), Ghost(jobs), Ghost(rounds)) {
                return o;
            }
        }
    }

    /// The round in progress ended with `o`: count it, then load the next
    /// round, or, the match over, record its score and take the next job.
    fn advance(
        &mut self,
        cfg: &Config,
        jobs: &[Job],
        rounds: u32,
        o: Outcome,
        next: &mut usize,
        results: &mut Vec<Score>,
    )
        requires
            match_config(*cfg),
            forall|j: int| 0 <= j < jobs@.len() ==> job_loadable(*cfg, #[trigger] jobs@[j]),
            ended(*old(self), o, *cfg, jobs@, rounds as nat),
            *old(next) <= jobs@.len(),
            old(results)@.len() == jobs@.len(),
        ensures
            lane_ok(*final(self), *cfg, jobs@, rounds as nat),
            final(results)@.len() == jobs@.len(),
            ({
                let j = old(self).job->0 as int;
                if old(self).round + 1 == rounds {
                    &&& final(results)@ == old(results)@.update(j, job_result(*cfg, jobs@[j], rounds as nat))
                    &&& old(self).done@ + old(self).executed == job_steps(*cfg, jobs@[j], rounds as nat)
                    &&& if *old(next) < jobs@.len() {
                        &&& final(self).job == Some(*old(next))
                        &&& *final(next) == *old(next) + 1
                        &&& final(self).done@ == 0
                    } else {
                        &&& final(self).job is None
                        &&& *final(next) == *old(next)
                    }
                } else {
                    &&& final(results)@ == old(results)@
                    &&& final(self).job == old(self).job
                    &&& final(self).round == old(self).round + 1
                    &&& *final(next) == *old(next)
                    &&& final(self).done@ == old(self).done@ + old(self).executed
                }
            }),
            final(self).engine.step_count() == model::plus_steps(old(self).engine.step_count(), old(self).executed as nat),
    {
        let j = self.job.unwrap();
        let job = jobs[j];
        self.finish(o, Ghost(*cfg), Ghost(jobs@), Ghost(rounds as nat));
        if self.round == rounds {
            results.set(j, self.score);
            self.take_job(cfg, jobs, rounds, next);
        } else {
            self.start_round(cfg, job, Ghost(jobs@), Ghost(rounds as nat));
        }
    }
}

/// The rounds a lane has left of its match, the one in progress included.
spec fn rounds_left(l: Lane, rounds: nat) -> int {
    if l.job is Some { rounds - l.round } else { 0 }
}

/// Matches played two at a time, interleaved step by step.
pub struct Multi {
    lane0: Lane,
    lane1: Lane,
    /// Instructions executed by the matches played so far.
    pub steps: u64,
}

impl Multi {
    /// Both lanes idle and made for `cfg`.
    pub closed spec fn made_for(&self, cfg: Config) -> bool {
        &&& engine_ok(self.lane0, cfg)
        &&& engine_ok(self.lane1, cfg)
        &&& self.lane0.job is None
        &&& self.lane1.job is None
        &&& self.lane0.engine.step_count() == 0
        &&& self.lane1.engine.step_count() == 0
    }

    /// The instructions counted in `steps`.
    pub closed spec fn step_count(&self) -> u64 {
        self.steps
    }

    /// Two idle lanes for matches under `cfg`.
    pub fn new(cfg: &Config) -> (m: Multi)
        requires
            engine_config(*cfg),
            (cfg.max_processes as int) < usize::MAX,
        ensures
            m.made_for(*cfg),
            m.step_count() == 0,
    {
        Multi { lane0: Lane::idle(cfg), lane1: Lane::idle(cfg), steps: 0 }
    }

    /// Both lanes busy: step them in turn until one lane's round ends; that
    /// lane and its outcome.
    fn both(&mut self, Ghost(cfg): Ghost<Config>, Ghost(jobs): Ghost<Seq<Job>>, Ghost(rounds): Ghost<nat>) -> (r: (usize, Outcome))
        requires
            lane_ok(old(self).lane0, cfg, jobs, rounds),
            lane_ok(old(self).lane1, cfg, jobs, rounds),
            old(self).lane0.job is Some,
            old(self).lane1.job is Some,
        ensures
            r.0 < 2,
            final(self).lane0.job == old(self).lane0.job,
            final(self).lane1.job == old(self).lane1.job,
            final(self).steps == old(self).steps,
            final(self).lane0.engine.step_count() == old(self).lane0.engine.step_count(),
            final(self).lane1.engine.step_count() == old(self).lane1.engine.step_count(),
            final(self).lane0.done == old(self).lane0.done,
            final(self).lane1.done == old(self).lane1.done,
            r.0 == 0 ==> ended(final(self).lane0, r.1, cfg, jobs, rounds) && lane_ok(final(self).lane1, cfg, jobs, rounds),
            r.0 == 1 ==> ended(final(self).lane1, r.1, cfg, jobs, rounds) && lane_ok(final(self).lane0, cfg, jobs, rounds),
            final(self).lane0.round == old(self).lane0.round,
            final(self).lane1.round == old(self).lane1.round,
    {
        loop
            invariant
                lane_ok(self.lane0, cfg, jobs, rounds),
                lane_ok(self.lane1, cfg, jobs, rounds),
                self.lane0.job == old(self).lane0.job,
                self.lane1.job == old(self).lane1.job,
                self.lane0.job is Some,
                self.lane1.job is Some,
                self.lane0.round == old(self).lane0.round,
                self.lane1.round == old(self).lane1.round,
                self.steps == old(self).steps,
                self.lane0.engine.step_count() == old(self).lane0.engine.step_count(),
                self.lane1.engine.step_count() == old(self).lane1.engine.step_count(),
                self.lane0.done == old(self).lane0.done,
                self.lane1.done == old(self).lane1.done,
            decreases self.lane0.budget + self.lane1.budget,
        {
            if let Some(o) = self.lane0.tick(Ghost(cfg), Ghost(jobs), Ghost(rounds)) {
                return (0, o);
            }
            if let Some(o) = self.lane1.tick(Ghost(cfg), Ghost(jobs), Ghost(rounds)) {
                return (1, o);
            }
        }
    }
}

/// The state of `play_all` between two rounds: lanes `a` and `b` on their
/// way, jobs before `next` taken, each job that is neither taken by a lane
/// nor waiting already scored, the waiting ones still at zero.
spec fn track(a: Lane, b: Lane, cfg: Config, js: Seq<Job>, rn: nat, next: int, res: Seq<Score>) -> bool {
    &&& lane_ok(a, cfg, js, rn)
    &&& lane_ok(b, cfg, js, rn)
    &&& 0 <= next <= js.len() <= usize::MAX
    &&& rn == 0 ==> next == 0
    &&& a.job is Some ==> a.job->0 < next
    &&& b.job is Some ==> b.job->0 < next
    &&& a.job is Some && b.job is Some ==> a.job->0 != b.job->0
    &&& a.job is None ==> next == js.len() || rn == 0
    &&& b.job is None ==> next == js.len() || rn == 0
    &&& res.len() == js.len()
    &&& forall|j: int|
        0 <= j < next && a.job != Some(j as usize) && b.job != Some(j as usize) ==> #[trigger] res[j] == job_result(cfg, js[j], rn)
    &&& forall|j: int| next <= j < js.len() ==> #[trigger] res[j] == zero_score()
}

/// What is left to play: the rounds of the jobs not taken yet and of the
/// matches in progress.
spec fn work_left(a: Lane, b: Lane, jobs: nat, next: int, rounds: nat) -> int {
    (jobs - next) * rounds + rounds_left(a, rounds) + rounds_left(b, rounds)
}

proof fn lemma_track_sym(a: Lane, b: Lane, cfg: Config, js: Seq<Job>, rn: nat, next: int, res: Seq<Score>)
    ensures
        track(a, b, cfg, js, rn, next, res) == track(b, a, cfg, js, rn, next, res),
        work_left(a, b, js.len(), next, rn) == work_left(b, a, js.len(), next, rn),
{
}

/// A lane's round ended and the lane went on (`advance`): the state is on
/// track again, with less left to play.
proof fn lemma_advanced(
    a_prev: Lane,
    a_end: Lane,
    a: Lane,
    b_prev: Lane,
    b: Lane,
    o: Outcome,
    cfg: Config,
    js: Seq<Job>,
    rn: nat,
    next0: int,
    next: int,
    res0: Seq<Score>,
    res: Seq<Score>,
)
    requires
        track(a_prev, b_prev, cfg, js, rn, next0, res0),
        a_prev.job is Some,
        a_end.job == a_prev.job,
        a_end.round == a_prev.round,
        ended(a_end, o, cfg, js, rn),
        b.job == b_prev.job,
        b.round == b_prev.round,
        lane_ok(b, cfg, js, rn),
        lane_ok(a, cfg, js, rn),
        res.len() == js.len(),
        ({
            let j = a_end.job->0 as int;
            if a_end.round + 1 == rn {
                &&& res == res0.update(j, job_result(cfg, js[j], rn))
                &&& if next0 < js.len() {
                    &&& a.job == Some(next0 as usize)
                    &&& next == next0 + 1
                } else {
                    &&& a.job is None
                    &&& next == next0
                }
            } else {
                &&& res == res0
                &&& a.job == a_end.job
                &&& a.round == a_end.round + 1
                &&& next == next0
            }
        }),
    ensures
        track(a, b, cfg, js, rn, next, res),
        work_left(a, b, js.len(), next, rn) < work_left(a_prev, b_prev, js.len(), next0, rn),
{
    let j = a_end.job->0 as int;
    if a_end.round + 1 == rn && next0 < js.len() {
        lemma_one_job_less(js.len() as int, next0, rn as int);
    }
    assert forall|i: int|
        0 <= i < next && a.job != Some(i as usize) && b.job != Some(i as usize) implies #[trigger] res[i] == job_result(cfg, js[i], rn) by {
        if i == j {
            if a_end.round + 1 == rn {
                assert(res[i] == job_result(cfg, js[i], rn));
            } else {
                assert(a.job == Some(i as usize));
            }
        } else {
            assert(res[i] == res0[i]);
            if i >= next0 {
                assert(a.job == Some(i as usize));
            }
        }
    }
}

proof fn lemma_one_job_less(jobs: int, next: int, rounds: int)
    requires
        0 <= next < jobs,
        0 <= rounds,
    ensures
        (jobs - next) * rounds == (jobs - (next + 1)) * rounds + rounds,
{
    assert((jobs - next) * rounds == (jobs - (next + 1)) * rounds + rounds) by (nonlinear_arith);
}

/// The instructions of the first `n` jobs.
pub open spec fn jobs_steps(cfg: Config, js: Seq<Job>, rounds: nat, n: int) -> nat
    decreases n,
{
    if n <= 0 { 0 } else { jobs_steps(cfg, js, rounds, n - 1) + job_steps(cfg, js[n - 1], rounds) }
}

/// The instructions of the jobs before `n` other than `x` and `y`.
spec fn done_sum(cfg: Config, js: Seq<Job>, rounds: nat, n: int, x: Option<usize>, y: Option<usize>) -> nat
    decreases n,
{
    if n <= 0 {
        0
    } else {
        done_sum(cfg, js, rounds, n - 1, x, y) + (if x == Some((n - 1) as usize) || y == Some((n - 1) as usize) {
            0
        } else {
            job_steps(cfg, js[n - 1], rounds)
        })
    }
}

/// The instructions a lane has counted of the match it is playing.
spec fn lane_done(l: Lane) -> nat {
    if l.job is Some { l.done@ } else { 0 }
}

proof fn lemma_done_sum_sym(cfg: Config, js: Seq<Job>, rounds: nat, n: int, x: Option<usize>, y: Option<usize>)
    ensures
        done_sum(cfg, js, rounds, n, x, y) == done_sum(cfg, js, rounds, n, y, x),
    decreases n,
{
    if n > 0 {
        lemma_done_sum_sym(cfg, js, rounds, n - 1, x, y);
    }
}

/// Leaving out a job at or past `n` leaves out nothing.
proof fn lemma_done_sum_past(cfg: Config, js: Seq<Job>, rounds: nat, n: int, k: int, y: Option<usize>)
    requires
        n <= k <= usize::MAX,
    ensures
        done_sum(cfg, js, rounds, n, Some(k as usize), y) == done_sum(cfg, js, rounds, n, None, y),
    decreases n,
{
    if n > 0 {
        lemma_done_sum_past(cfg, js, rounds, n - 1, k, y);
    }
}

/// Counting job `j` too.
proof fn lemma_done_sum_count(cfg: Config, js: Seq<Job>, rounds: nat, n: int, j: int, y: Option<usize>)
    requires
        0 <= j < n <= usize::MAX,
        y != Some(j as usize),
    ensures
        done_sum(cfg, js, rounds, n, None, y) == done_sum(cfg, js, rounds, n, Some(j as usize), y) + job_steps(cfg, js[j], rounds),
    decreases n,
{
    if n - 1 > j {
        lemma_done_sum_count(cfg, js, rounds, n - 1, j, y);
    } else {
        lemma_done_sum_past(cfg, js, rounds, n - 1, j, y);
    }
}

proof fn lemma_done_sum_all(cfg: Config, js: Seq<Job>, rounds: nat, n: int)
    ensures
        done_sum(cfg, js, rounds, n, None, None) == jobs_steps(cfg, js, rounds, n),
        rounds == 0 ==> jobs_steps(cfg, js, rounds, n) == 0,
    decreases n,
{
    if n > 0 {
        lemma_done_sum_all(cfg, js, rounds, n - 1);
    }
}

/// The lane `a` went on after its round ended: the instructions counted so
/// far are still those of the jobs scored and of the matches in progress.
proof fn lemma_steps_advanced(
    a_end: Lane,
    a: Lane,
    b: Lane,
    cfg: Config,
    js: Seq<Job>,
    rn: nat,
    next0: int,
    next: int,
    g_a: nat,
    g_b: nat,
)
    requires
        a_end.job is Some,
        0 <= a_end.job->0 < next0 <= js.len() <= usize::MAX,
        b.job is Some ==> b.job->0 < next0 && b.job->0 != a_end.job->0,
        g_a + g_b == done_sum(cfg, js, rn, next0, a_end.job, b.job) + a_end.done@ + lane_done(b),
        ({
            let j = a_end.job->0 as int;
            if a_end.round + 1 == rn {
                &&& a_end.done@ + a_end.executed == job_steps(cfg, js[j], rn)
                &&& if next0 < js.len() {
                    &&& a.job == Some(next0 as usize)
                    &&& next == next0 + 1
                    &&& a.done@ == 0
                } else {
                    &&& a.job is None
                    &&& next == next0
                }
            } else {
                &&& a.job == a_end.job
                &&& next == next0
                &&& a.done@ == a_end.done@ + a_end.executed
            }
        }),
    ensures
        g_a + a_end.executed + g_b == done_sum(cfg, js, rn, next, a.job, b.job) + lane_done(a) + lane_done(b),
{
    let j = a_end.job->0 as int;
    if a_end.round + 1 == rn {
        lemma_done_sum_count(cfg, js, rn, next0, j, b.job);
        if next0 < js.len() {
            lemma_done_sum_past(cfg, js, rn, next0, next0, b.job);
            assert(done_sum(cfg, js, rn, next0 + 1, a.job, b.job) == done_sum(cfg, js, rn, next0, a.job, b.job));
        }
    }
}

/// Interleaving changes nothing: a job played in a lane scores what
/// `Engine::play` scores for its warriors and seed under the same rules,
/// and takes as many instructions.
pub proof fn lemma_lanes_play_like_an_engine(cfg: Config, job: Job, rounds: nat)
    ensures
        job_result(cfg, job, rounds) == match_result(
            cfg,
            compiled_codes(seq![job.a, job.b]),
            compiled_starts(seq![job.a, job.b]),
            compiled_pins(seq![job.a, job.b]),
            rounds,
            job.seed,
        ),
        job_steps(cfg, job, rounds) == match_steps(
            cfg,
            compiled_codes(seq![job.a, job.b]),
            compiled_starts(seq![job.a, job.b]),
            compiled_pins(seq![job.a, job.b]),
            rounds,
            job.seed,
        ),
{
}

/// Counting a saturated count on top of another is counting both.
proof fn lemma_counts_add(a: u64, x: nat, y: nat)
    ensures
        model::plus_steps(model::plus_steps(a, model::plus_steps(0, x) as nat), model::plus_steps(0, y) as nat)
            == model::plus_steps(a, x + y),
{
}

impl Multi {
    /// Play every job for `rounds` rounds; the scores in job order, each
    /// the score `Engine::play` gives the job.
    pub fn play_all(&mut self, cfg: &Config, jobs: &[Job], rounds: u32) -> (results: Vec<Score>)
        requires
            old(self).made_for(*cfg),
            match_config(*cfg),
            forall|j: int| 0 <= j < jobs@.len() ==> job_loadable(*cfg, #[trigger] jobs@[j]),
        ensures
            final(self).made_for(*cfg),
            results@.len() == jobs@.len(),
            forall|j: int| 0 <= j < jobs@.len() ==> #[trigger] results@[j] == job_result(*cfg, jobs@[j], rounds as nat),
            final(self).step_count() == model::plus_steps(old(self).step_count(), jobs_steps(*cfg, jobs@, rounds as nat, jobs@.len() as int)),
    {
        let ghost js = jobs@;
        let ghost rn = rounds as nat;
        let mut results: Vec<Score> = Vec::new();
        let mut k: usize = 0;
        while k < jobs.len()
            invariant
                k <= jobs@.len(),
                results@.len() == k,
                forall|j: int| 0 <= j < k ==> #[trigger] results@[j] == zero_score(),
            decreases jobs@.len() - k,
        {
            results.push(Score::default());
            k += 1;
        }
        let mut next: usize = 0;
        self.lane0.take_job(cfg, jobs, rounds, &mut next);
        self.lane1.take_job(cfg, jobs, rounds, &mut next);
        let ghost mut g0: nat = 0;
        let ghost mut g1: nat = 0;
        proof {
            reveal_with_fuel(done_sum, 3);
        }
        loop
            invariant
                match_config(*cfg),
                js == jobs@,
                rn == rounds as nat,
                forall|j: int| 0 <= j < js.len() ==> job_loadable(*cfg, #[trigger] js[j]),
                track(self.lane0, self.lane1, *cfg, js, rn, next as int, results@),
                self.steps == old(self).steps,
                self.lane0.engine.step_count() == model::plus_steps(0, g0),
                self.lane1.engine.step_count() == model::plus_steps(0, g1),
                g0 + g1 == done_sum(*cfg, js, rn, next as int, self.lane0.job, self.lane1.job) + lane_done(self.lane0) + lane_done(self.lane1),
            ensures
                track(self.lane0, self.lane1, *cfg, js, rn, next as int, results@),
                self.lane0.job is None,
                self.lane1.job is None,
                self.steps == old(self).steps,
                self.lane0.engine.step_count() == model::plus_steps(0, g0),
                self.lane1.engine.step_count() == model::plus_steps(0, g1),
                g0 + g1 == done_sum(*cfg, js, rn, next as int, None, None),
            decreases work_left(self.lane0, self.lane1, js.len(), next as int, rn),
        {
            let busy0 = self.lane0.job.is_some();
            let busy1 = self.lane1.job.is_some();
            if !busy0 && !busy1 {
                break;
            }
            let ghost p0 = self.lane0;
            let ghost p1 = self.lane1;
            let ghost next0 = next as int;
            let ghost res0 = results@;
            if busy0 && busy1 {
                let (l, o) = self.both(Ghost(*cfg), Ghost(js), Ghost(rn));
                if l == 0 {
                    let ghost e = self.lane0;
                    self.lane0.advance(cfg, jobs, rounds, o, &mut next, &mut results);
                    proof {
                        lemma_advanced(p0, e, self.lane0, p1, self.lane1, o, *cfg, js, rn, next0, next as int, res0, results@);
                        lemma_steps_advanced(e, self.lane0, self.lane1, *cfg, js, rn, next0, next as int, g0, g1);
                        model::lemma_plus_steps(0, g0, e.executed as nat);
                        g0 = g0 + e.executed as nat;
                    }
                } else {
                    let ghost e = self.lane1;
                    self.lane1.advance(cfg, jobs, rounds, o, &mut next, &mut results);
                    proof {
                        lemma_track_sym(p0, p1, *cfg, js, rn, next0, res0);
                        lemma_advanced(p1, e, self.lane1, p0, self.lane0, o, *cfg, js, rn, next0, next as int, res0, results@);
                        lemma_track_sym(self.lane0, self.lane1, *cfg, js, rn, next as int, results@);
                        lemma_done_sum_sym(*cfg, js, rn, next0, p0.job, p1.job);
                        lemma_steps_advanced(e, self.lane1, self.lane0, *cfg, js, rn, next0, next as int, g1, g0);
                        lemma_done_sum_sym(*cfg, js, rn, next as int, self.lane1.job, self.lane0.job);
                        model::lemma_plus_steps(0, g1, e.executed as nat);
                        g1 = g1 + e.executed as nat;
                    }
                }
            } else if busy0 {
                let o = self.lane0.play_out(Ghost(*cfg), Ghost(js), Ghost(rn));
                let ghost e = self.lane0;
                self.lane0.advance(cfg, jobs, rounds, o, &mut next, &mut results);
                proof {
                    lemma_advanced(p0, e, self.lane0, p1, self.lane1, o, *cfg, js, rn, next0, next as int, res0, results@);
                    lemma_steps_advanced(e, self.lane0, self.lane1, *cfg, js, rn, next0, next as int, g0, g1);
                    model::lemma_plus_steps(0, g0, e.executed as nat);
                    g0 = g0 + e.executed as nat;
                }
            } else {
                let o = self.lane1.play_out(Ghost(*cfg), Ghost(js), Ghost(rn));
                let ghost e = self.lane1;
                self.lane1.advance(cfg, jobs, rounds, o, &mut next, &mut results);
                proof {
                    lemma_track_sym(p0, p1, *cfg, js, rn, next0, res0);
                    lemma_advanced(p1, e, self.lane1, p0, self.lane0, o, *cfg, js, rn, next0, next as int, res0, results@);
                    lemma_track_sym(self.lane0, self.lane1, *cfg, js, rn, next as int, results@);
                    lemma_done_sum_sym(*cfg, js, rn, next0, p0.job, p1.job);
                    lemma_steps_advanced(e, self.lane1, self.lane0, *cfg, js, rn, next0, next as int, g1, g0);
                    lemma_done_sum_sym(*cfg, js, rn, next as int, self.lane1.job, self.lane0.job);
                    model::lemma_plus_steps(0, g1, e.executed as nat);
                    g1 = g1 + e.executed as nat;
                }
            }
        }
        proof {
            assert forall|j: int| 0 <= j < js.len() implies #[trigger] results@[j] == job_result(*cfg, js[j], rn) by {
                if rounds == 0 {
                    assert(results@[j] == zero_score());
                }
            }
        }
        proof {
            lemma_done_sum_all(*cfg, js, rn, next as int);
            lemma_done_sum_all(*cfg, js, rn, js.len() as int);
            lemma_counts_add(self.steps, g0, g1);
        }
        let n0 = self.lane0.engine.take_steps();
        let n1 = self.lane1.engine.take_steps();
        self.steps = self.steps.saturating_add(n0);
        self.steps = self.steps.saturating_add(n1);
        results
    }
}

} // verus!
