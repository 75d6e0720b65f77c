use corewar::assembler::Config;
use corewar::hill::{
    hex_of, seed_from_digest, seed_positions, join, keep_members, knows, missing_matches, note_joined, pairing, rank, record_played, records, seed, show, trim,
    warrior_id, Challenger, Member, Points, Results, Rules, State, Status, TableError, TieBreak,
};
use corewar::mars::Score;

fn member(id: &str, arrived: u64) -> Member {
    Member {
        id: id.to_owned(),
        name: format!("n{}", id),
        author: "a".to_owned(),
        file: format!("{}.red", id),
        arrived,
        age: 0,
    }
}

fn results(entries: &[(&str, Score)]) -> Results {
    Results {
        fingerprint: String::new(),
        matches: entries.iter().map(|(k, s)| (k.to_string(), *s)).collect(),
    }
}

fn sc(w1: u32, w2: u32, ties: u32) -> Score {
    Score { w1, w2, ties }
}

#[test]
fn ids_and_fingerprints_are_sha256() {
    assert_eq!(warrior_id(""), "e3b0c44298fc1c14");
    assert_eq!(warrior_id(";redcode\nMOV 0, 1\n"), "21d0546d51c049dd");
    let mut c = Config::default();
    c.rounds = 250;
    let r = Rules::new(&c, 10);
    assert_eq!(r.fingerprint(), "e1f0470044c2a9f075260559bc27a32a08c6bb0377ae3ebab4a85a945df12f31");
    assert_eq!((r.points.win, r.points.tie, r.points.loss, r.tie_break), (3, 1, 0, TieBreak::Older));
    assert_eq!(r.config().rounds, 250);
    assert_eq!(r.config().max_length, 100);
}

#[test]
fn rules_are_checked_like_pmars() {
    let mut c = Config::default();
    c.rounds = 0;
    assert_eq!(Rules::new(&c, 5).check(), Err("rounds: at least 1".to_owned()));
    c.rounds = 3;
    assert_eq!(Rules::new(&c, 5).check(), Ok(()));
    let mut r = Rules::new(&c, 5);
    r.params.distance = 50;
    assert_eq!(r.check(), Err("-d: distance cannot be smaller than warrior length".to_owned()));
}

#[test]
fn a_match_is_the_same_in_either_order() {
    let (a, b, key) = pairing("bbb", "aaa");
    assert_eq!((a, b, key.as_str()), ("aaa", "bbb", "aaa:bbb"));
    let (a2, b2, key2) = pairing("aaa", "bbb");
    assert_eq!((a2, b2, key2), (a, b, key));
    assert_eq!(pairing("ab", "a").2, "a:ab");
    assert_eq!(seed("aaa", "bbb", 7801), 7607);
    assert_eq!(seed("aaa", "bbb", 1), 0);
}

#[test]
fn records_count_points_per_round() {
    let ms = vec![member("aa", 0), member("bb", 1), member("cc", 2)];
    let res = results(&[("aa:bb", sc(3, 1, 1)), ("aa:cc", sc(0, 4, 1)), ("bb:cc", sc(2, 2, 1))]);
    let p = Points { win: 3, tie: 1, loss: 0 };
    let st = records(&ms, &res, p).unwrap();
    let got: Vec<(usize, i64, u32, u32, u32)> = st.iter().map(|s| (s.place, s.score, s.wins, s.ties, s.losses)).collect();
    assert_eq!(got, vec![(1, 3 * 3 + 1 + 0 + 1, 3, 2, 5), (2, 3 + 1 + 6 + 1, 3, 2, 5), (3, 12 + 1 + 6 + 1, 6, 2, 2)]);
    let missing = results(&[("aa:bb", sc(3, 1, 1)), ("bb:cc", sc(2, 2, 1))]);
    assert_eq!(records(&ms, &missing, p).unwrap_err(), TableError::NoResult(0, 2));
    let huge = Points { win: i64::MAX, tie: 0, loss: 0 };
    assert_eq!(records(&ms, &res, huge).unwrap_err(), TableError::TooLarge(0));
    let shown = show(&Rules::new(&Config::default(), 3), &ms, &res).unwrap();
    assert_eq!(shown.standings.len(), 3);
}

#[test]
fn the_hill_ranks_by_score_then_the_tie_rule() {
    let mut c = Config::default();
    c.rounds = 5;
    let mut rules = Rules::new(&c, 2);
    // aa and bb tie on points; cc loses everything.
    let res = results(&[("aa:bb", sc(2, 2, 1)), ("aa:cc", sc(5, 0, 0)), ("bb:cc", sc(5, 0, 0))]);
    let mut ms = vec![member("cc", 0), member("bb", 2), member("aa", 1)];
    rank(&mut ms, &res, &rules).unwrap();
    let ids: Vec<&str> = ms.iter().map(|m| m.id.as_str()).collect();
    assert_eq!(ids, vec!["aa", "bb", "cc"]);
    rules.tie_break = TieBreak::Newer;
    rank(&mut ms, &res, &rules).unwrap();
    let ids: Vec<&str> = ms.iter().map(|m| m.id.as_str()).collect();
    assert_eq!(ids, vec!["bb", "aa", "cc"]);
    let gone = trim(&mut ms, 2);
    assert_eq!(ms.len(), 2);
    assert_eq!(gone.len(), 1);
    assert_eq!((gone[0].id.as_str(), gone[0].reason.as_str()), ("cc", "pushed off"));
    assert!(trim(&mut ms, 0).is_empty());
    assert!(trim(&mut ms, 5).is_empty());
}

#[test]
fn a_challenger_joins_plays_and_may_fall_off() {
    let mut c = Config::default();
    c.rounds = 5;
    let rules = Rules::new(&c, 2);
    let mut res = results(&[("aa:bb", sc(2, 2, 1))]);
    let ids = vec!["aa".to_owned(), "bb".to_owned(), "00".to_owned()];
    let missing = missing_matches(&ids, &res, 7801);
    let pairs: Vec<(usize, usize, &str)> = missing.iter().map(|m| (m.i, m.j, m.key.as_str())).collect();
    assert_eq!(pairs, vec![(0, 2, "00:aa"), (1, 2, "00:bb")]);
    assert_eq!(missing[0].seed, seed("00", "aa", 7801));
    let played = record_played(&mut res, &missing, &[sc(0, 5, 0), sc(0, 5, 0)]);
    assert_eq!(played.len(), 2);
    assert_eq!(res.matches.len(), 3);
    let mut state = State { next: 7, members: vec![member("aa", 1), member("bb", 2)] };
    assert!(knows(&state.members, &"bb".to_owned()));
    assert!(!knows(&state.members, &"00".to_owned()));
    let mut gone = Vec::new();
    let j = join(&mut state, member("00", 0), &res, &rules, &mut gone).unwrap();
    assert_eq!(state.next, 8);
    assert_eq!(j.place, Some(2));
    assert!(!j.stayed);
    assert_eq!(gone.len(), 1);
    assert_eq!(gone[0].id, "00");
    assert_eq!(state.members.iter().map(|m| m.age).collect::<Vec<_>>(), vec![1, 1]);
    let mut ch = Challenger { file: "x.red".into(), status: Status::Entered, id: None, name: None, place: None, error: None };
    note_joined(&mut ch, j);
    assert_eq!((ch.place, ch.status), (Some(3), Status::PushedOff));
    keep_members(&mut res, &state.members);
    let keys: Vec<&str> = res.matches.iter().map(|(k, _)| k.as_str()).collect();
    assert_eq!(keys, vec!["aa:bb"]);
}

#[test]
fn digests_read_as_hex_and_as_seeds() {
    assert_eq!(hex_of(&[0xde, 0xad, 0x01, 0xff], 4), "dead01ff");
    assert_eq!(hex_of(&[0xde, 0xad, 0x01, 0xff], 2), "dead");
    let d = [0u8, 0, 0, 0, 0, 0, 1, 0, 9, 9];
    assert_eq!(seed_from_digest(&d, 7), 256 % 7);
    let big = [0xffu8; 8];
    assert_eq!(seed_from_digest(&big, 7801), (u64::MAX % 7801) as u32);
    let mut c = Config::default();
    c.rounds = 250;
    let text = Rules::new(&c, 10).fingerprint_source();
    assert_eq!(String::from_utf8(text).unwrap(), "cw-hill 1 s8000 c80000 p8000 l100 d100 r250");
}

#[test]
fn ranking_rules_do_not_change_the_fingerprint() {
    let c = Config::default();
    let a = Rules::new(&c, 10);
    let mut b = a;
    b.size = 3;
    b.points = Points { win: 5, tie: 2, loss: -1 };
    b.tie_break = TieBreak::Newer;
    assert_eq!(a.fingerprint(), b.fingerprint());
    b.rounds = 7;
    assert_ne!(a.fingerprint(), b.fingerprint());
}

#[test]
fn every_round_won_is_a_round_lost() {
    let ms = vec![member("aa", 0), member("bb", 1), member("cc", 2), member("dd", 3)];
    let res = results(&[
        ("aa:bb", sc(3, 1, 1)),
        ("aa:cc", sc(0, 4, 1)),
        ("aa:dd", sc(5, 0, 0)),
        ("bb:cc", sc(2, 2, 1)),
        ("bb:dd", sc(1, 1, 3)),
        ("cc:dd", sc(0, 0, 5)),
    ]);
    let st = records(&ms, &res, Points { win: 3, tie: 1, loss: 0 }).unwrap();
    let wins: u32 = st.iter().map(|s| s.wins).sum();
    let losses: u32 = st.iter().map(|s| s.losses).sum();
    assert_eq!(wins, 19);
    assert_eq!(wins, losses);
}

#[test]
fn seeds_range_over_the_positions_the_second_warrior_can_take() {
    let c = Config::default();
    assert_eq!(seed_positions(&c), 7801);
    let mut small = Config::default();
    small.core_size = 200;
    small.min_distance = 100;
    assert_eq!(seed_positions(&small), 1);
}
