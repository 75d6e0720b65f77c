use corewar::assembler::{assemble, Config};
use corewar::fast::{Compiled, Engine};
use corewar::mars::Score;
use corewar::multi::{Job, Multi};
use corewar::redcode::Warrior;

const DWARF: &str = ";redcode-94\n;name Dwarf\n;author A. K. Dewdney\n;assert CORESIZE % 4 == 0\n        ORG     loop\nbomb    DAT.F   #0,     #0\nloop    ADD.AB  #4,     bomb\n        MOV.AB  #0,     @bomb\n        JMP.A   loop\n        END\n";
const IMP: &str = ";redcode-94\n;name Imp\n;author A. K. Dewdney\n;assert 1\n        MOV.I   0, 1\n        END\n";
const SPLITTER: &str = ";assert 1\nstart SPL 0, <-10\n MOV.I -1, <-20\n DJN.F -2, <-30\n END start\n";

fn w(src: &str) -> Warrior {
    assemble(src, &Config::default()).unwrap()
}

#[test]
fn interleaved_matches_score_like_play() {
    let c = Config::default();
    let cs: Vec<Compiled> = [DWARF, IMP, SPLITTER].iter().map(|s| Compiled::new(&w(s))).collect();
    let mut jobs = Vec::new();
    for a in &cs {
        for b in &cs {
            jobs.push(Job { a, b, seed: jobs.len() as i32 * 97 + 3 });
        }
    }
    let mut m = Multi::new(&c);
    let got = m.play_all(&c, &jobs, 9);
    assert_eq!(got.len(), jobs.len());
    let mut e = Engine::new(&c);
    for (j, s) in jobs.iter().zip(&got) {
        assert_eq!(*s, e.play(&c, j.a, j.b, 9, j.seed));
        assert_eq!(s.w1 + s.w2 + s.ties, 9);
    }
    assert!(m.steps > 0);
    assert_eq!(m.steps, e.steps);
    // The lanes are idle again and play the next batch the same way.
    let again = m.play_all(&c, &jobs, 9);
    assert_eq!(again, got);
}

#[test]
fn a_single_job_and_no_rounds() {
    let c = Config::default();
    let (a, b) = (Compiled::new(&w(DWARF)), Compiled::new(&w(IMP)));
    let jobs = [Job { a: &a, b: &b, seed: 11 }];
    let mut m = Multi::new(&c);
    let one = m.play_all(&c, &jobs, 5);
    assert_eq!(one, vec![Engine::new(&c).play(&c, &a, &b, 5, 11)]);
    let none = m.play_all(&c, &jobs, 0);
    assert_eq!(none, vec![Score { w1: 0, w2: 0, ties: 0 }]);
    assert_eq!(m.play_all(&c, &[], 5), Vec::<Score>::new());
}
