use corewar::assembler::{assemble, Config};
use corewar::mars::Mars;
use corewar::redcode::Warrior;
use corewar::trace::trace;

const DWARF: &str = ";redcode-94\n;name Dwarf\n;author A. K. Dewdney\n;assert CORESIZE % 4 == 0\n        ORG     loop\nbomb    DAT.F   #0,     #0\nloop    ADD.AB  #4,     bomb\n        MOV.AB  #0,     @bomb\n        JMP.A   loop\n        END\n";
const IMP: &str = ";redcode-94\n;name Imp\n;author A. K. Dewdney\n;assert 1\n        MOV.I   0, 1\n        END\n";

fn cfg() -> Config {
    Config::default()
}
fn dwarf() -> Warrior {
    assemble(DWARF, &cfg()).unwrap()
}
fn imp() -> Warrior {
    assemble(IMP, &cfg()).unwrap()
}

#[test]
fn scores_like_play() {
    let c = cfg();
    for (a, b, seed) in [(dwarf(), imp(), 7), (imp(), dwarf(), 1234)] {
        let t = trace(&c, &a, &b, 30, seed, &[], 50);
        let s = Mars::new(&c, 2).play(&c, &a, &b, 30, seed);
        assert_eq!(t.score, s);
        assert_eq!(t.rounds.len(), 30);
        let wins = |x| t.rounds.iter().filter(|r| r.winner == Some(x)).count() as u32;
        assert_eq!((wins(0), wins(1)), (s.w1, s.w2));
        assert!(t.recorded.is_empty());
        for (i, r) in t.rounds.iter().enumerate() {
            assert_eq!(r.round, i as u32 + 1);
            assert_eq!(r.first, i % 2);
            assert!(r.end_cycle >= 1 && r.end_cycle <= c.max_cycles);
        }
    }
}

#[test]
fn frames_end_with_the_round() {
    let c = cfg();
    let t = trace(&c, &dwarf(), &imp(), 4, 7, &[1, 2], 10);
    assert_eq!(t.recorded.len(), 2);
    for rec in &t.recorded {
        let summary = &t.rounds[rec.round as usize - 1];
        assert_eq!(rec.end.cycle, summary.end_cycle);
        assert_eq!(rec.end.winner, summary.winner);
        assert_eq!(rec.start[1].1, summary.position);
        let cycles: Vec<u32> = rec.frames.iter().map(|f| f.cycle).collect();
        assert!(
            cycles.windows(2).all(|w| w[0] < w[1]),
            "strictly increasing"
        );
        assert!(cycles.iter().all(|&x| x <= rec.end.cycle));
        for f in &rec.frames {
            assert!(f.cycle % 10 == 0 || f.cycle == rec.end.cycle);
            assert!(
                f.writes.windows(2).all(|w| w[0].0 < w[1].0),
                "by cell, once"
            );
            assert!(f
                .writes
                .iter()
                .all(|&(cell, w)| cell < c.core_size && w < 2));
        }
    }
}

#[test]
fn a_tie_runs_to_the_cycle_limit() {
    let c = Config {
        max_cycles: 2000,
        ..cfg()
    };
    let t = trace(&c, &imp(), &imp(), 2, 7, &[1], 100);
    assert_eq!(t.score.ties, 2);
    let rec = &t.recorded[0];
    assert_eq!(rec.end.cycle, 2000);
    assert_eq!(rec.end.winner, None);
    let cycles: Vec<u32> = rec.frames.iter().map(|f| f.cycle).collect();
    assert_eq!(cycles, (1..=20).map(|k| k * 100).collect::<Vec<_>>());
    assert_eq!(rec.end.processes, [1, 1]);
}

#[test]
fn one_frame_when_every_is_longer_than_the_round() {
    let c = Config {
        max_cycles: 2000,
        ..cfg()
    };
    let t = trace(&c, &imp(), &imp(), 1, 7, &[1], 1_000_000);
    let rec = &t.recorded[0];
    assert_eq!(rec.frames.len(), 1);
    assert_eq!(rec.frames[0].cycle, 2000);
}

#[test]
fn only_the_rounds_asked_for_are_recorded() {
    let c = cfg();
    let t = trace(&c, &dwarf(), &imp(), 5, 3, &[4, 2, 9], 100);
    let rounds: Vec<u32> = t.recorded.iter().map(|r| r.round).collect();
    assert_eq!(rounds, vec![2, 4]);
}

#[test]
fn each_frame_lists_the_cells_written_since_the_last() {
    let c = cfg();
    let dat = assemble(";assert 1\nDAT 0, 0\n", &c).unwrap();
    let t = trace(&c, &imp(), &dat, 1, 7, &[1], 1);
    assert_eq!(t.recorded.len(), 1);
    let frames = &t.recorded[0].frames;
    assert_eq!(frames.len(), 1);
    assert_eq!(frames[0].cycle, 1);
    assert_eq!(frames[0].writes, vec![(1, 0)]);
    // The imp against itself for three cycles, a frame every cycle: one
    // write each, by whichever warrior ran last there.
    let t = trace(&c, &imp(), &imp(), 1, 7, &[1], 1);
    let f = &t.recorded[0].frames;
    assert!(f.len() >= 3);
    assert_eq!(f[0].cycle, 1);
    assert_eq!(f[1].cycle, 2);
    assert_eq!(f[2].cycle, 3);
    assert_eq!(f[1].writes.len(), 2);
}
