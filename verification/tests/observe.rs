use corewar::assembler::{assemble, Config};
use corewar::mars::{Mars, Observer};

fn cfg() -> Config {
    Config {
        core_size: 800,
        max_cycles: 8000,
        max_processes: 64,
        max_length: 20,
        min_distance: 20,
        ..Config::default()
    }
}

const IMP: &str = ";redcode-94\n;name Imp\n;author A. K. Dewdney\n;assert 1\n        MOV.I   0, 1\n        END\n";

/// DIV and MOD by zero kill the process and write nothing: no cell is
/// reported, or a replay would show a write that never happened.
#[test]
fn a_division_by_zero_writes_nothing() {
    let c = cfg();
    let div = assemble(";redcode-94\n;name div\n;author t\n DIV.AB #0, 3\n", &c).unwrap();
    let imp = assemble(IMP, &c).unwrap();
    let mut m = Mars::new(&c, 2);
    m.begin_match(&[&div, &imp]);
    struct FirstStep(Option<Vec<u32>>);
    impl Observer for FirstStep {
        fn loaded(&mut self, _mars: &Mars) {}
        fn after_step(&mut self, _mars: &Mars, _w: usize, written: &[u32], _step: u64) {
            if self.0.is_none() {
                self.0 = Some(written.to_vec());
            }
        }
    }
    let mut obs = FirstStep(None);
    m.round_observed(&c, [&div, &imp], [0, 400], 0, &mut obs);
    assert_eq!(obs.0, Some(vec![]), "DIV.AB #0 wrote nothing");
}

#[derive(Default)]
struct Collect {
    before: Vec<corewar::redcode::Instruction>,
    written: std::collections::HashSet<u32>,
    last_step: u64,
    movers: Vec<usize>,
}

impl Observer for Collect {
    fn loaded(&mut self, mars: &Mars) {
        self.before = mars.core.clone();
        self.written.clear();
        self.movers.clear();
    }
    fn after_step(&mut self, _mars: &Mars, w: usize, written: &[u32], step: u64) {
        assert_eq!(step, self.last_step + 1, "steps are numbered one by one");
        self.last_step = step;
        self.movers.push(w);
        self.written.extend(written.iter().copied());
    }
}

#[test]
fn observing_changes_nothing() {
    let c = cfg();
    let a = assemble(";assert 1\nstart SPL 0, <-10\n MOV.I -1, <-20\n DJN.F -2, <-30\n END start\n", &c).unwrap();
    let b = assemble(";assert 1\nADD #4, 3\nMOV 2, @2\nJMP -2\nDAT #0, #0\n", &c).unwrap();
    let mut plain = Mars::new(&c, 2);
    let mut seen = Mars::new(&c, 2);
    plain.begin_match(&[&a, &b]);
    seen.begin_match(&[&a, &b]);
    for r in 0..3usize {
        let o1 = plain.round(&c, [&a, &b], [0, 300], r % 2);
        let mut obs = Collect::default();
        let o2 = seen.round_observed(&c, [&a, &b], [0, 300], r % 2, &mut obs);
        assert_eq!(o1, o2);
        assert_eq!(plain.last_round_steps, seen.last_round_steps);
        assert_eq!(obs.last_step, seen.last_round_steps);
        assert!(plain.core == seen.core);
        for i in 0..c.core_size {
            if seen.core[i as usize] != obs.before[i as usize] {
                assert!(obs.written.contains(&i), "cell {} changed unreported", i);
            }
        }
        assert_eq!(obs.movers.first().copied(), Some(r % 2));
    }
}
