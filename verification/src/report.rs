//! What the program reports in machine-readable form: one document per
//! command, the same facts as the text output. Warriors are referred to by
//! their index in `warriors`.
use crate::assembler::Config;
use crate::mars::Score;
use crate::redcode::Warrior;
use crate::trace::{Recording, RoundSummary};
use vstd::prelude::*;

verus! {

/// The match parameters, named after pMARS's flags' meaning.
#[derive(Clone, Copy, Debug, PartialEq, Eq, Structural)]
pub struct Params {
    pub core_size: u32,
    pub cycles: u32,
    pub processes: u32,
    pub length: usize,
    pub distance: u32,
    pub rounds: u32,
}

/// The parameters of a match configuration.
pub open spec fn params_of(c: Config) -> Params {
    Params {
        core_size: c.core_size,
        cycles: c.max_cycles,
        processes: c.max_processes,
        length: c.max_length,
        distance: c.min_distance,
        rounds: c.rounds,
    }
}

impl<'a> From<&'a Config> for Params {
    fn from(c: &'a Config) -> (p: Params) {
        Params {
            core_size: c.core_size,
            cycles: c.max_cycles,
            processes: c.max_processes,
            length: c.max_length,
            distance: c.min_distance,
            rounds: c.rounds,
        }
    }
}

impl<'a> vstd::std_specs::convert::FromSpecImpl<&'a Config> for Params {
    open spec fn obeys_from_spec() -> bool {
        true
    }

    open spec fn from_spec(c: &'a Config) -> Params {
        params_of(*c)
    }
}

/// A warrior as reports show it.
pub struct WarriorInfo {
    pub file: String,
    pub name: String,
    pub author: String,
    /// Instructions.
    pub length: usize,
}

impl WarriorInfo {
    pub fn new(file: &str, w: &Warrior) -> (i: WarriorInfo)
        ensures
            i.file@ == file@,
            i.name == w.name,
            i.author == w.author,
            i.length == w.code@.len(),
    {
        WarriorInfo { file: file.to_owned(), name: w.name.clone(), author: w.author.clone(), length: w.code.len() }
    }
}

/// One file checked: name, author and length when it assembles, `error`
/// when it does not.
pub struct Checked {
    pub file: String,
    pub ok: bool,
    pub name: Option<String>,
    pub author: Option<String>,
    pub length: Option<usize>,
    pub error: Option<String>,
}

impl Checked {
    pub fn new(file: &str, r: Result<Warrior, String>) -> (c: Checked)
        ensures
            c.file@ == file@,
            c.ok == r is Ok,
            match r {
                Ok(w) => c.name == Some(w.name) && c.author == Some(w.author) && c.length == Some(w.code@.len() as usize)
                    && c.error is None,
                Err(e) => c.name is None && c.author is None && c.length is None && c.error == Some(e),
            },
    {
        match r {
            Ok(w) => Checked {
                file: file.to_owned(),
                ok: true,
                length: Some(w.code.len()),
                name: Some(w.name),
                author: Some(w.author),
                error: None,
            },
            Err(e) => Checked { file: file.to_owned(), ok: false, name: None, author: None, length: None, error: Some(e) },
        }
    }
}

/// A program as pMARS lists it, one instruction a line, and the offset
/// execution starts at.
pub struct Listed {
    pub warrior: WarriorInfo,
    pub start: u32,
    pub code: Vec<String>,
}

/// One battle.
pub struct Battle {
    pub params: Params,
    pub warriors: [WarriorInfo; 2],
    pub pos: u32,
    pub first: u8,
    pub result: Score,
}

/// One match of a round robin: `a` was pMARS's first warrior.
#[derive(Clone, Copy, Debug, PartialEq, Eq, Structural)]
pub struct Match {
    pub a: usize,
    pub b: usize,
    pub seed: u32,
    pub result: Score,
}

/// A place in a round robin's table.
#[derive(Clone, Copy, Debug, PartialEq, Eq, Structural)]
pub struct Standing {
    pub place: usize,
    pub warrior: usize,
    /// 3 a win, 1 a tie.
    pub score: u64,
}

/// A traced match: the match, a summary of every round and the recorded
/// rounds' frames.
pub struct Traced {
    pub params: Params,
    pub warriors: [WarriorInfo; 2],
    pub seed: u32,
    pub score: Score,
    pub rounds: Vec<RoundSummary>,
    pub recorded: Vec<Recording>,
}

} // verus!
