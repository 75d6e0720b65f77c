//! A Core War engine: the Redcode data model, an assembler that reads
//! Redcode the way pMARS 0.9.2 does, a plain reference simulator, a fast
//! simulator with the same semantics, interleaved matches, match traces and
//! the ranking rules of a hill and of a round robin.
pub mod assembler;
pub mod fast;
pub mod hill;
pub mod mars;
pub mod model;
pub mod multi;
pub mod redcode;
pub mod report;
pub mod ring;
pub mod tournament;
pub mod trace;
