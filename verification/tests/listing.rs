use corewar::assembler::{assemble, Config};
use corewar::redcode::Listing;
use corewar::report::{Checked, Params, WarriorInfo};

const DWARF: &str = ";redcode-94\n;name Dwarf\n;author A. K. Dewdney\n;assert CORESIZE % 4 == 0\n        ORG     loop\nbomb    DAT.F   #0,     #0\nloop    ADD.AB  #4,     bomb\n        MOV.AB  #0,     @bomb\n        JMP.A   loop\n        END\n";

#[test]
fn a_listing_is_what_pmars_prints() {
    let c = Config::default();
    let w = assemble(DWARF, &c).unwrap();
    let l = Listing { warrior: &w, core_size: c.core_size };
    assert_eq!(
        l.text(),
        "ORG 1\nDAT.F #0, #0\nADD.AB #4, $-1\nMOV.AB #0, @-2\nJMP.A $-2, $0\n"
    );
    assert_eq!(l.lines()[1], "ADD.AB #4, $-1");
}

#[test]
fn a_listing_reads_back() {
    let c = Config::default();
    let w = assemble(DWARF, &c).unwrap();
    let text = Listing { warrior: &w, core_size: c.core_size }.text();
    let again = assemble(&format!(";assert 1\n{}", text), &c).unwrap();
    assert_eq!(again.code, w.code);
    assert_eq!(again.start, w.start);
}

#[test]
fn reports_carry_the_facts() {
    let c = Config::default();
    let w = assemble(DWARF, &c).unwrap();
    let i = WarriorInfo::new("dwarf.red", &w);
    assert_eq!((i.file.as_str(), i.name.as_str(), i.length), ("dwarf.red", "Dwarf", 4));
    let ok = Checked::new("dwarf.red", Ok(w));
    assert!(ok.ok && ok.error.is_none() && ok.length == Some(4));
    let bad = Checked::new("bad.red", Err("bad.red: line 1: unknown".to_owned()));
    assert!(!bad.ok && bad.name.is_none() && bad.error.as_deref() == Some("bad.red: line 1: unknown"));
    let p = Params::from(&c);
    assert_eq!((p.core_size, p.cycles, p.processes, p.length, p.distance, p.rounds), (8000, 80000, 8000, 100, 100, 1));
}
