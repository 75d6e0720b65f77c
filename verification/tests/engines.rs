use corewar::assembler::{assemble, Config};
use corewar::fast::{Cell, Compiled, Engine};
use corewar::mars::{pmars_rng, Mars, Outcome, Score};
use corewar::redcode::{Instruction, Mode, Modifier, Opcode, Warrior};

const DWARF: &str = ";redcode-94\n;name Dwarf\n;author A. K. Dewdney\n;assert CORESIZE % 4 == 0\n        ORG     loop\nbomb    DAT.F   #0,     #0\nloop    ADD.AB  #4,     bomb\n        MOV.AB  #0,     @bomb\n        JMP.A   loop\n        END\n";
const IMP: &str = ";redcode-94\n;name Imp\n;author A. K. Dewdney\n;assert 1\n        MOV.I   0, 1\n        END\n";
const SPLITTER: &str = ";assert 1\nstart SPL 0, <-10\n MOV.I -1, <-20\n DJN.F -2, <-30\n END start\n";

fn w(src: &str) -> Warrior {
    assemble(src, &Config::default()).unwrap()
}

#[test]
fn pmars_rng_follows_park_miller() {
    assert_eq!(pmars_rng(1), 16807);
    assert_eq!(pmars_rng(16807), 282475249);
    assert_eq!(pmars_rng(-5), 2147399612);
}

#[test]
fn pmars_rng_is_16807_times_the_seed_modulo_the_mersenne_prime() {
    for seed in [0i32, 1, 2, 127772, 127773, 127774, 16807, 1_000_000, 1_234_567_890, 2_147_483_646] {
        let expected = (16807i64 * seed as i64) % 2_147_483_647;
        assert_eq!(pmars_rng(seed) as i64, expected, "seed {}", seed);
    }
}

#[test]
fn every_round_of_a_match_is_scored_once() {
    let c = Config::default();
    let (a, b) = (w(DWARF), w(SPLITTER));
    let s = Mars::new(&c, 2).play(&c, &a, &b, 7, 3);
    assert_eq!(s.w1 + s.w2 + s.ties, 7);
    let s = Engine::new(&c).play(&c, &Compiled::new(&a), &Compiled::new(&b), 9, 11);
    assert_eq!(s.w1 + s.w2 + s.ties, 9);
}

#[test]
fn cells_decode_what_they_encode() {
    for op in Opcode::ALL {
        for m in Modifier::ALL {
            for am in Mode::ALL {
                let i = Instruction { op, modifier: m, a_mode: am, a: 7, b_mode: Mode::BPostinc, b: 65535 };
                assert_eq!(Cell::encode(&i).decode(), i);
            }
        }
    }
    let empty = Instruction { op: Opcode::Dat, modifier: Modifier::F, a_mode: Mode::Direct, a: 0, b_mode: Mode::Direct, b: 0 };
    assert_eq!(Cell::encode(&empty), Cell::zero());
}

#[test]
fn the_fast_engine_plays_like_the_plain_one() {
    let c = Config::default();
    let ws = [w(DWARF), w(IMP), w(SPLITTER)];
    for a in &ws {
        for b in &ws {
            for seed in [0, 7, 1234, -99] {
                let plain = Mars::new(&c, 2).play(&c, a, b, 12, seed);
                let fast = Engine::new(&c).play(&c, &Compiled::new(a), &Compiled::new(b), 12, seed);
                assert_eq!(plain, fast, "{} vs {} seed {}", a.name, b.name, seed);
                assert_eq!(plain.w1 + plain.w2 + plain.ties, 12);
            }
        }
    }
}

#[test]
fn an_engine_plays_the_same_match_twice() {
    let c = Config::default();
    let (a, b) = (Compiled::new(&w(DWARF)), Compiled::new(&w(SPLITTER)));
    let mut e = Engine::new(&c);
    let first = e.play(&c, &a, &b, 20, 5);
    let second = e.play(&c, &a, &b, 20, 5);
    assert_eq!(first, second);
}

#[test]
fn battles_do_not_depend_on_absolute_addresses() {
    let c = Config::default();
    let (a, b) = (w(DWARF), w(SPLITTER));
    for (pos, shift) in [(100u32, 0u32), (4000, 123), (7800, 7999), (250, 4000)] {
        let mut m = Mars::new(&c, 2);
        let here = m.battle(&c, [&a, &b], [0, pos], 0);
        let there = m.battle(&c, [&a, &b], [shift, (shift + pos) % c.core_size], 0);
        assert_eq!(here, there);
    }
}

#[test]
fn invariants_hold_at_every_step() {
    let mut c = Config::default();
    c.max_processes = 16;
    let (a, b) = (w(SPLITTER), w(DWARF));
    let mut m = Mars::new(&c, 2);
    m.load(&[&a, &b], &[0, 3000]);
    for step in 0..4000 {
        let w = step % 2;
        let alive = m.step(w);
        assert!(m.processes(w) <= 16);
        if !alive {
            break;
        }
    }
    assert!(m.core.iter().all(|i| i.a < c.core_size && i.b < c.core_size));
}

#[test]
fn battles_are_deterministic() {
    let c = Config::default();
    let (a, b) = (w(DWARF), w(IMP));
    let r1 = Mars::new(&c, 2).battle(&c, [&a, &b], [0, 500], 0);
    let r2 = Mars::new(&c, 2).battle(&c, [&a, &b], [0, 500], 0);
    assert_eq!(r1, r2);
}

#[test]
fn an_imp_never_dies_against_an_imp() {
    let c = Config { max_cycles: 500, ..Config::default() };
    let imp = w(IMP);
    let s = Mars::new(&c, 2).play(&c, &imp, &imp, 3, 1);
    assert_eq!(s, Score { w1: 0, w2: 0, ties: 3 });
    let o = Mars::new(&c, 2).battle(&c, [&imp, &imp], [0, 4000], 1);
    assert_eq!(o, Outcome::Tie);
}

#[test]
fn the_core_reads_back_as_instructions() {
    let c = Config::default();
    let e = Engine::new(&c);
    let core = e.core_instructions();
    assert_eq!(core.len(), 8000);
    assert!(core.iter().all(|i| i.op == Opcode::Dat && i.a == 0 && i.b == 0));
}
