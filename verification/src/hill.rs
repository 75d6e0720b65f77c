//! The rules of a hill: warriors ranked by their matches against each
//! other; a challenger plays every member, and past `size` the lowest fall
//! off.
//!
//! A match depends only on its two warriors and the rules: the one whose id
//! sorts first moves first (pMARS's first warrior), and the position seed is
//! derived from both ids. So a result is the same whenever and in whatever
//! order warriors arrive, and it is kept until the rules that decide it
//! (parameters and rounds) change. Points, size and the tie rule only rank.
//!
//! The directory that holds a hill, and the files in it, are the program's
//! business; this module is what it decides.
use crate::assembler::{config_fault, default_config, Config};
use crate::mars::Score;
use sha2::Digest;
use vstd::prelude::*;
use vstd::string::{StringExecFns, StringSliceAdditionalSpecFns};

verus! {

/// Which of two warriors with equal scores ranks higher.
#[derive(Clone, Copy, Debug, PartialEq, Eq, Structural)]
pub enum TieBreak {
    /// The one on the hill longer: a challenger must beat, not match.
    Older,
    Newer,
}

/// pMARS's -s -c -p -l -d.
#[derive(Clone, Copy, Debug, PartialEq, Eq, Structural)]
pub struct MatchParams {
    pub core_size: u32,
    pub cycles: u32,
    pub processes: u32,
    pub length: u32,
    pub distance: u32,
}

/// Per round won, tied and lost.
#[derive(Clone, Copy, Debug, PartialEq, Eq, Structural)]
pub struct Points {
    pub win: i64,
    pub tie: i64,
    pub loss: i64,
}

#[derive(Clone, Copy, Debug, PartialEq, Eq, Structural)]
pub struct Rules {
    /// Members kept; 0 keeps everyone (a ladder).
    pub size: usize,
    /// Rounds per match.
    pub rounds: u32,
    pub tie_break: TieBreak,
    pub params: MatchParams,
    pub points: Points,
}

/// The match configuration of a hill's rules.
pub open spec fn rules_config(r: Rules) -> Config {
    Config {
        core_size: r.params.core_size,
        max_cycles: r.params.cycles,
        max_processes: r.params.processes,
        max_length: r.params.length as usize,
        min_distance: r.params.distance,
        rounds: r.rounds,
        ..default_config()
    }
}

impl Rules {
    /// The '94 rules for a match configuration: 3 points a win, 1 a tie,
    /// and on equal scores the older warrior stays.
    pub fn new(cfg: &Config, size: usize) -> (r: Rules)
        ensures
            r == (Rules {
                size,
                rounds: cfg.rounds,
                tie_break: TieBreak::Older,
                params: MatchParams {
                    core_size: cfg.core_size,
                    cycles: cfg.max_cycles,
                    processes: cfg.max_processes,
                    length: cfg.max_length as u32,
                    distance: cfg.min_distance,
                },
                points: Points { win: 3, tie: 1, loss: 0 },
            }),
    {
        Rules {
            size,
            rounds: cfg.rounds,
            tie_break: TieBreak::Older,
            params: MatchParams {
                core_size: cfg.core_size,
                cycles: cfg.max_cycles,
                processes: cfg.max_processes,
                length: cfg.max_length as u32,
                distance: cfg.min_distance,
            },
            points: Points { win: 3, tie: 1, loss: 0 },
        }
    }

    /// The match configuration: the parameters and rounds, the rest as
    /// pMARS has them by default.
    pub fn config(&self) -> (c: Config)
        ensures
            c == rules_config(*self),
    {
        let d = Config::default();
        Config {
            core_size: self.params.core_size,
            max_length: self.params.length as usize,
            max_processes: self.params.processes,
            max_cycles: self.params.cycles,
            min_distance: self.params.distance,
            warriors: d.warriors,
            rounds: self.rounds,
            first_warrior: d.first_warrior,
        }
    }

    /// pMARS's checks on the parameters, and at least one round.
    pub fn check(&self) -> (r: Result<(), String>)
        ensures
            r is Ok <==> self.rounds > 0 && config_fault(rules_config(*self), 2) is None,
            self.rounds == 0 ==> (r matches Err(e) && e@ == "rounds: at least 1"@),
            self.rounds > 0 ==> (r matches Err(e) ==> config_fault(rules_config(*self), 2) matches Some(m) && e@ == m@),
    {
        if self.rounds == 0 {
            return Err("rounds: at least 1".to_owned());
        }
        self.config().check(2)
    }

    /// What decides a match, the parameters and the rounds, as a hash.
    pub fn fingerprint(&self) -> (f: String)
        ensures
            f@ == hex_text(sha256_of(fingerprint_text(*self))),
    {
        let t = self.fingerprint_source();
        hash(t.as_slice())
    }

    /// The text the fingerprint is the hash of.
    pub fn fingerprint_source(&self) -> (t: Vec<u8>)
        ensures
            t@ == fingerprint_text(*self),
    {
        let p = &self.params;
        let mut t: Vec<u8> = Vec::new();
        push_text(&mut t, "cw-hill 1 s");
        push_decimal(&mut t, p.core_size as u64);
        push_text(&mut t, " c");
        push_decimal(&mut t, p.cycles as u64);
        push_text(&mut t, " p");
        push_decimal(&mut t, p.processes as u64);
        push_text(&mut t, " l");
        push_decimal(&mut t, p.length as u64);
        push_text(&mut t, " d");
        push_decimal(&mut t, p.distance as u64);
        push_text(&mut t, " r");
        push_decimal(&mut t, self.rounds as u64);
        t
    }
}

/// The text a hill's rules are hashed from for their fingerprint.
pub open spec fn fingerprint_text(r: Rules) -> Seq<u8> {
    "cw-hill 1 s".spec_bytes() + decimal(r.params.core_size as nat) + " c".spec_bytes() + decimal(r.params.cycles as nat)
        + " p".spec_bytes() + decimal(r.params.processes as nat) + " l".spec_bytes() + decimal(r.params.length as nat)
        + " d".spec_bytes() + decimal(r.params.distance as nat) + " r".spec_bytes() + decimal(r.rounds as nat)
}

/// A result is kept until the rules that decide it change: two sets of
/// rules with the same parameters and rounds have the same fingerprint,
/// whatever their size, points and tie rule.
pub proof fn lemma_fingerprint_ignores_ranking(r1: Rules, r2: Rules)
    requires
        r1.params == r2.params,
        r1.rounds == r2.rounds,
    ensures
        fingerprint_text(r1) == fingerprint_text(r2),
        hex_text(sha256_of(fingerprint_text(r1))) == hex_text(sha256_of(fingerprint_text(r2))),
{
}

/// The decimal digits of `n`, as ASCII.
pub open spec fn decimal(n: nat) -> Seq<u8>
    decreases n,
{
    if n < 10 {
        seq![(48 + n) as u8]
    } else {
        decimal(n / 10).push((48 + n % 10) as u8)
    }
}

/// A lowercase hex digit.
pub open spec fn hex_char(d: nat) -> char {
    if d < 10 { (48 + d) as char } else { (87 + d) as char }
}

/// Bytes as lowercase hex, two digits each.
pub open spec fn hex_text(b: Seq<u8>) -> Seq<char>
    decreases b.len(),
{
    if b.len() == 0 {
        Seq::empty()
    } else {
        hex_text(b.drop_last()) + seq![hex_char(b.last() as nat / 16), hex_char(b.last() as nat % 16)]
    }
}

/// The bytes as a big-endian number.
pub open spec fn big_endian(b: Seq<u8>) -> nat
    decreases b.len(),
{
    if b.len() == 0 {
        0
    } else {
        big_endian(b.drop_last()) * 256 + b.last() as nat
    }
}

/// The SHA-256 digest of `bytes`.
pub uninterp spec fn sha256_of(bytes: Seq<u8>) -> Seq<u8>;

/// `sha2::Sha256::digest`: the 32-byte SHA-256 digest of the bytes, a
/// function of the bytes alone. What the digest is, is not stated.
#[verifier::external_body]
fn sha256(bytes: &[u8]) -> (d: [u8; 32])
    ensures
        d@ == sha256_of(bytes@),
{
    sha2::Sha256::digest(bytes).into()
}

/// Append the bytes of `s`.
fn push_text(v: &mut Vec<u8>, s: &str)
    ensures
        final(v)@ == old(v)@ + s.spec_bytes(),
{
    let b = s.as_bytes();
    let mut i: usize = 0;
    while i < b.len()
        invariant
            i <= b@.len(),
            b@ == s.spec_bytes(),
            v@ == old(v)@ + b@.take(i as int),
        decreases b@.len() - i,
    {
        v.push(b[i]);
        i += 1;
        assert(b@.take(i as int) =~= b@.take(i - 1).push(b@[i - 1]));
    }
    assert(b@.take(b@.len() as int) =~= b@);
}

/// Append the decimal digits of `n`.
fn push_decimal(v: &mut Vec<u8>, n: u64)
    ensures
        final(v)@ == old(v)@ + decimal(n as nat),
    decreases n,
{
    if n >= 10 {
        push_decimal(v, n / 10);
    }
    v.push(48 + (n % 10) as u8);
    proof {
        if n >= 10 {
            assert(decimal(n as nat) == decimal((n / 10) as nat).push((48 + n % 10) as u8));
        }
    }
}

/// One lowercase hex digit as text.
fn hex_digit(d: u8) -> (s: &'static str)
    requires
        d < 16,
    ensures
        s@ == seq![hex_char(d as nat)],
{
    match d {
        0 => { proof { reveal_strlit("0"); } "0" },
        1 => { proof { reveal_strlit("1"); } "1" },
        2 => { proof { reveal_strlit("2"); } "2" },
        3 => { proof { reveal_strlit("3"); } "3" },
        4 => { proof { reveal_strlit("4"); } "4" },
        5 => { proof { reveal_strlit("5"); } "5" },
        6 => { proof { reveal_strlit("6"); } "6" },
        7 => { proof { reveal_strlit("7"); } "7" },
        8 => { proof { reveal_strlit("8"); } "8" },
        9 => { proof { reveal_strlit("9"); } "9" },
        10 => { proof { reveal_strlit("a"); } "a" },
        11 => { proof { reveal_strlit("b"); } "b" },
        12 => { proof { reveal_strlit("c"); } "c" },
        13 => { proof { reveal_strlit("d"); } "d" },
        14 => { proof { reveal_strlit("e"); } "e" },
        _ => { proof { reveal_strlit("f"); } "f" },
    }
}

/// The first `n` bytes as lowercase hex.
pub fn hex_of(b: &[u8], n: usize) -> (s: String)
    requires
        n <= b@.len(),
    ensures
        s@ == hex_text(b@.take(n as int)),
{
    let mut s = String::new();
    let mut i: usize = 0;
    while i < n
        invariant
            i <= n <= b@.len(),
            s@ == hex_text(b@.take(i as int)),
        decreases n - i,
    {
        let x = b[i];
        s.append(hex_digit(x / 16));
        s.append(hex_digit(x % 16));
        i += 1;
        assert(b@.take(i as int).drop_last() =~= b@.take(i - 1));
    }
    s
}

/// The SHA-256 of the bytes, in lowercase hex.
fn hash(bytes: &[u8]) -> (h: String)
    ensures
        h@ == hex_text(sha256_of(bytes@)),
{
    let d = sha256(bytes);
    let h = hex_of(&d, 32);
    assert(d@.take(32) =~= d@);
    h
}

/// A warrior's id: the SHA-256 of its source, first 16 hex digits.
pub fn warrior_id(source: &str) -> (id: String)
    ensures
        id@ == hex_text(sha256_of(source.spec_bytes()).take(8)),
{
    let d = sha256(source.as_bytes());
    hex_of(&d, 8)
}

/// `a` sorts strictly before `b`, byte by byte (the order of `str`).
pub open spec fn bytes_before(a: Seq<u8>, b: Seq<u8>) -> bool
    decreases a.len(),
{
    if a.len() == 0 {
        b.len() > 0
    } else if b.len() == 0 {
        false
    } else if a[0] != b[0] {
        a[0] < b[0]
    } else {
        bytes_before(a.drop_first(), b.drop_first())
    }
}

/// Whether `x` sorts before `y`.
fn str_before(x: &str, y: &str) -> (r: bool)
    ensures
        r == bytes_before(x.spec_bytes(), y.spec_bytes()),
{
    let a = x.as_bytes();
    let b = y.as_bytes();
    let mut i: usize = 0;
    assert(a@.skip(0) =~= a@);
    assert(b@.skip(0) =~= b@);
    while i < a.len() && i < b.len() && a[i] == b[i]
        invariant
            i <= a@.len(),
            i <= b@.len(),
            a@ == x.spec_bytes(),
            b@ == y.spec_bytes(),
            bytes_before(a@, b@) == bytes_before(a@.skip(i as int), b@.skip(i as int)),
        decreases a@.len() - i,
    {
        assert(a@.skip(i as int).drop_first() =~= a@.skip(i + 1));
        assert(b@.skip(i as int).drop_first() =~= b@.skip(i + 1));
        i += 1;
    }
    if i < a.len() && i < b.len() {
        a[i] < b[i]
    } else {
        i == a.len() && i < b.len()
    }
}

/// The two ids of a match in playing order, and its key for the table of
/// results: the first moves first.
pub fn pairing<'a>(x: &'a str, y: &'a str) -> (r: (&'a str, &'a str, String))
    ensures
        if bytes_before(x.spec_bytes(), y.spec_bytes()) {
            r.0 == x && r.1 == y
        } else {
            r.0 == y && r.1 == x
        },
        r.2@ == r.0@ + seq![':'] + r.1@,
{
    let (a, b) = if str_before(x, y) { (x, y) } else { (y, x) };
    let mut key = a.to_owned();
    proof {
        reveal_strlit(":");
    }
    key.append(":");
    key.append(b);
    (a, b, key)
}

/// 256 to the `k`.
pub open spec fn byte_power(k: nat) -> nat
    decreases k,
{
    if k == 0 { 1 } else { byte_power((k - 1) as nat) * 256 }
}

proof fn lemma_big_endian_bound(b: Seq<u8>)
    ensures
        big_endian(b) < byte_power(b.len()),
    decreases b.len(),
{
    if b.len() > 0 {
        lemma_big_endian_bound(b.drop_last());
        let x = big_endian(b.drop_last());
        let p = byte_power(b.drop_last().len());
        let l = b.last() as nat;
        assert(x * 256 + l < p * 256) by (nonlinear_arith)
            requires x < p, l < 256;
    }
}

/// The position seed of a match from the digest of its key: the first
/// eight bytes as a big-endian number, modulo `positions`.
pub fn seed_from_digest(d: &[u8], positions: u32) -> (s: u32)
    requires
        positions > 0,
        d@.len() >= 8,
    ensures
        s == big_endian(d@.take(8)) % (positions as nat),
{
    let mut n: u64 = 0;
    let mut i: usize = 0;
    proof {
        reveal_with_fuel(byte_power, 9);
    }
    while i < 8
        invariant
            i <= 8,
            d@.len() >= 8,
            n as nat == big_endian(d@.take(i as int)),
            byte_power(8) == 0x1_0000_0000_0000_0000,
        decreases 8 - i,
    {
        proof {
            lemma_big_endian_bound(d@.take(i as int));
            assert(byte_power(i as nat) <= byte_power(7)) by {
                reveal_with_fuel(byte_power, 9);
            }
            assert(d@.take(i + 1).drop_last() =~= d@.take(i as int));
            assert(n * 256 + 255 < 0x1_0000_0000_0000_0000) by (nonlinear_arith)
                requires n < 0x100_0000_0000_0000;
        }
        n = n * 256 + d[i] as u64;
        i += 1;
    }
    (n % positions as u64) as u32
}

/// The position seed of a match, from both ids: the first eight bytes of
/// the SHA-256 of `a:b`, as a big-endian number, modulo `positions`.
pub fn seed(a: &str, b: &str, positions: u32) -> (s: u32)
    requires
        positions > 0,
    ensures
        s == big_endian(sha256_of(a.spec_bytes() + seq![58u8] + b.spec_bytes()).take(8)) % (positions as nat),
{
    let mut t: Vec<u8> = Vec::new();
    push_text(&mut t, a);
    t.push(58);
    push_text(&mut t, b);
    let d = sha256(t.as_slice());
    assert(t@ =~= a.spec_bytes() + seq![58u8] + b.spec_bytes());
    seed_from_digest(&d, positions)
}

/// One strictly before the other, or the same bytes.
pub proof fn lemma_before_total(a: Seq<u8>, b: Seq<u8>)
    ensures
        bytes_before(a, b) ==> !bytes_before(b, a),
        !bytes_before(a, b) && !bytes_before(b, a) ==> a == b,
    decreases a.len(),
{
    if a.len() > 0 && b.len() > 0 && a[0] == b[0] {
        lemma_before_total(a.drop_first(), b.drop_first());
        if !bytes_before(a, b) && !bytes_before(b, a) {
            assert(a =~= seq![a[0]] + a.drop_first());
            assert(b =~= seq![b[0]] + b.drop_first());
        }
    }
    if a.len() == 0 && b.len() == 0 {
        assert(a =~= b);
    }
}

/// A member of a hill.
#[derive(Clone, Debug)]
pub struct Member {
    pub id: String,
    pub name: String,
    pub author: String,
    /// The file name it was submitted as.
    pub file: String,
    /// Challenge number it arrived with; smaller is older.
    pub arrived: u64,
    /// Challenges survived since.
    pub age: u32,
}

/// A member's place, score and record against the others.
#[derive(Clone, Debug)]
pub struct Standing {
    pub place: usize,
    pub id: String,
    pub name: String,
    pub author: String,
    pub score: i64,
    pub wins: u32,
    pub ties: u32,
    pub losses: u32,
    pub age: u32,
}

/// The results of the matches played under one set of rules: their
/// fingerprint, and for each key `a:b` (`a` moved first) the score from
/// `a`'s side.
pub struct Results {
    pub fingerprint: String,
    pub matches: Vec<(String, Score)>,
}

/// Why a table cannot be drawn up.
#[derive(Clone, Copy, Debug, PartialEq, Eq, Structural)]
pub enum TableError {
    /// No result for the members at these places: the rules changed, and
    /// the next challenge replays it.
    NoResult(usize, usize),
    /// The record of the member at this place leaves the range of its
    /// numbers.
    TooLarge(usize),
}

/// A text's UTF-8 bytes.
pub open spec fn text_bytes(t: Seq<char>) -> Seq<u8> {
    vstd::utf8::encode_utf8(t)
}

/// Of two ids, the one that moves first.
pub open spec fn first_of(x: Seq<char>, y: Seq<char>) -> Seq<char> {
    if bytes_before(text_bytes(x), text_bytes(y)) { x } else { y }
}

/// Of two ids, the one that moves second.
pub open spec fn second_of(x: Seq<char>, y: Seq<char>) -> Seq<char> {
    if bytes_before(text_bytes(x), text_bytes(y)) { y } else { x }
}

/// The key of the match between `x` and `y`.
pub open spec fn match_key(x: Seq<char>, y: Seq<char>) -> Seq<char> {
    if bytes_before(text_bytes(x), text_bytes(y)) {
        x + seq![':'] + y
    } else {
        y + seq![':'] + x
    }
}

/// The first result kept under `key`.
pub open spec fn lookup(m: Seq<(String, Score)>, key: Seq<char>) -> Option<Score>
    decreases m.len(),
{
    if m.len() == 0 {
        None
    } else if m[0].0@ == key {
        Some(m[0].1)
    } else {
        lookup(m.drop_first(), key)
    }
}

/// The rounds member `i` won, tied and lost against member `j`, if their
/// match has a result.
pub open spec fn versus(ms: Seq<Member>, m: Seq<(String, Score)>, i: int, j: int) -> Option<(u32, u32, u32)> {
    let x = ms[i].id@;
    let y = ms[j].id@;
    match lookup(m, match_key(x, y)) {
        None => None,
        Some(s) => Some(if first_of(x, y) == x { (s.w1, s.ties, s.w2) } else { (s.w2, s.ties, s.w1) }),
    }
}

/// A score and a record.
#[derive(Clone, Copy, Debug, PartialEq, Eq, Structural)]
pub struct Tally {
    pub score: i64,
    pub wins: u32,
    pub ties: u32,
    pub losses: u32,
}

pub open spec fn fits_i64(x: int) -> bool {
    i64::MIN <= x <= i64::MAX
}

/// A tally with one more match counted, `None` where a number leaves its
/// range.
pub open spec fn counted(t: Option<Tally>, o: (u32, u32, u32), p: Points) -> Option<Tally> {
    match t {
        None => None,
        Some(t) => {
            let a = p.win * o.0;
            let b = p.tie * o.1;
            let c = p.loss * o.2;
            if fits_i64(a) && fits_i64(b) && fits_i64(a + b) && fits_i64(c) && fits_i64(a + b + c)
                && fits_i64(t.score + a + b + c) && t.wins + o.0 <= u32::MAX && t.ties + o.1 <= u32::MAX
                && t.losses + o.2 <= u32::MAX {
                Some(Tally {
                    score: (t.score + a + b + c) as i64,
                    wins: (t.wins + o.0) as u32,
                    ties: (t.ties + o.1) as u32,
                    losses: (t.losses + o.2) as u32,
                })
            } else {
                None
            }
        },
    }
}

/// Member `i`'s tally against the members before `upto`.
pub open spec fn tally(ms: Seq<Member>, m: Seq<(String, Score)>, p: Points, i: int, upto: int) -> Option<Tally>
    decreases upto,
{
    if upto <= 0 {
        Some(Tally { score: 0, wins: 0, ties: 0, losses: 0 })
    } else if upto - 1 == i {
        tally(ms, m, p, i, upto - 1)
    } else {
        match versus(ms, m, i, upto - 1) {
            None => None,
            Some(o) => counted(tally(ms, m, p, i, upto - 1), o, p),
        }
    }
}

/// Every two members have a result.
pub open spec fn all_played(ms: Seq<Member>, m: Seq<(String, Score)>) -> bool {
    forall|i: int, j: int| 0 <= i < j < ms.len() ==> #[trigger] versus(ms, m, i, j) is Some
}

/// `(i, j)` is the first pair of members, in table order, without a result.
pub open spec fn first_missing(ms: Seq<Member>, m: Seq<(String, Score)>, i: int, j: int) -> bool {
    &&& 0 <= i < j < ms.len()
    &&& versus(ms, m, i, j) is None
    &&& forall|i2: int, j2: int|
        0 <= i2 < j2 < ms.len() && (i2 < i || (i2 == i && j2 < j)) ==> #[trigger] versus(ms, m, i2, j2) is Some
}

/// Every two members have a result and every record fits its numbers.
pub open spec fn table_ok(ms: Seq<Member>, m: Seq<(String, Score)>, p: Points) -> bool {
    &&& all_played(ms, m)
    &&& forall|k: int| 0 <= k < ms.len() ==> #[trigger] tally(ms, m, p, k, ms.len() as int) is Some
}

/// The error a table is refused with: the first pair without a result,
/// else the first member whose record does not fit.
pub open spec fn table_error(ms: Seq<Member>, m: Seq<(String, Score)>, p: Points, e: TableError) -> bool {
    match e {
        TableError::NoResult(i, j) => first_missing(ms, m, i as int, j as int),
        TableError::TooLarge(k) => {
            &&& all_played(ms, m)
            &&& k < ms.len()
            &&& tally(ms, m, p, k as int, ms.len() as int) is None
            &&& forall|k2: int| 0 <= k2 < k ==> #[trigger] tally(ms, m, p, k2, ms.len() as int) is Some
        },
    }
}

/// Member `k`'s standing from its tally.
pub open spec fn standing_from(st: Standing, mb: Member, k: int, t: Tally) -> bool {
    &&& st.place == k + 1
    &&& st.id == mb.id
    &&& st.name == mb.name
    &&& st.author == mb.author
    &&& st.score == t.score
    &&& st.wins == t.wins
    &&& st.ties == t.ties
    &&& st.losses == t.losses
    &&& st.age == mb.age
}

/// A match depends on its two warriors, not on the order they are named
/// in (nor the order they arrived in): the same warrior moves first, and
/// the key of its result and its position seed are the same.
pub proof fn lemma_pairing_symmetric(x: Seq<char>, y: Seq<char>)
    ensures
        match_key(x, y) == match_key(y, x),
        first_of(x, y) == first_of(y, x),
        second_of(x, y) == second_of(y, x),
        forall|positions: u32| #[trigger] seed_of(first_of(x, y), second_of(x, y), positions)
            == seed_of(first_of(y, x), second_of(y, x), positions),
{
    lemma_before_total(text_bytes(x), text_bytes(y));
    if !bytes_before(text_bytes(x), text_bytes(y)) && !bytes_before(text_bytes(y), text_bytes(x)) {
        vstd::utf8::encode_utf8_decode_utf8(x);
        vstd::utf8::encode_utf8_decode_utf8(y);
    }
}

proof fn lemma_versus_symmetric(ms: Seq<Member>, m: Seq<(String, Score)>, i: int, j: int)
    ensures
        versus(ms, m, i, j) is Some <==> versus(ms, m, j, i) is Some,
{
    lemma_pairing_symmetric(ms[i].id@, ms[j].id@);
}

/// The result kept under `key`.
fn find(m: &Vec<(String, Score)>, key: &String) -> (r: Option<Score>)
    ensures
        r == lookup(m@, key@),
{
    let mut i: usize = 0;
    assert(m@.skip(0) =~= m@);
    while i < m.len()
        invariant
            i <= m@.len(),
            lookup(m@, key@) == lookup(m@.skip(i as int), key@),
        decreases m@.len() - i,
    {
        if m[i].0 == *key {
            return Some(m[i].1);
        }
        assert(m@.skip(i as int).drop_first() =~= m@.skip(i + 1));
        i += 1;
    }
    None
}

/// The rounds member `i` won, tied and lost against member `j`.
fn versus_of(ms: &[Member], results: &Results, i: usize, j: usize) -> (r: Option<(u32, u32, u32)>)
    requires
        i < ms@.len(),
        j < ms@.len(),
    ensures
        r == versus(ms@, results.matches@, i as int, j as int),
{
    let x = ms[i].id.as_str();
    let y = ms[j].id.as_str();
    let (_, _, key) = pairing(x, y);
    let mine = str_before(x, y) || ms[i].id == ms[j].id;
    match find(&results.matches, &key) {
        None => None,
        Some(s) => Some(if mine { (s.w1, s.ties, s.w2) } else { (s.w2, s.ties, s.w1) }),
    }
}

/// One more match counted, `None` where a number leaves its range.
fn count_match(t: Tally, o: (u32, u32, u32), p: Points) -> (r: Option<Tally>)
    ensures
        r == counted(Some(t), o, p),
        r matches Some(u) ==> {
            &&& u.score == t.score + p.win * o.0 + p.tie * o.1 + p.loss * o.2
            &&& u.wins == t.wins + o.0
            &&& u.ties == t.ties + o.1
            &&& u.losses == t.losses + o.2
        },
{
    let a = p.win.checked_mul(o.0 as i64)?;
    let b = p.tie.checked_mul(o.1 as i64)?;
    let ab = a.checked_add(b)?;
    let c = p.loss.checked_mul(o.2 as i64)?;
    let add = ab.checked_add(c)?;
    let score = t.score.checked_add(add)?;
    let wins = t.wins.checked_add(o.0)?;
    let ties = t.ties.checked_add(o.1)?;
    let losses = t.losses.checked_add(o.2)?;
    Some(Tally { score, wins, ties, losses })
}

/// Each member's score and record against the others, in member order:
/// per round won, tied and lost, the points of the rules.
pub fn records(members: &[Member], results: &Results, points: Points) -> (r: Result<Vec<Standing>, TableError>)
    ensures
        r is Ok <==> table_ok(members@, results.matches@, points),
        r matches Ok(st) ==> st@.len() == members@.len()
            && forall|k: int| 0 <= k < members@.len() ==> standing_from(#[trigger] st@[k], members@[k], k,
                tally(members@, results.matches@, points, k, members@.len() as int)->0),
        r matches Ok(st) ==> forall|k: int| 0 <= k < st@.len() ==> #[trigger] st@[k].score == points.win * st@[k].wins
            + points.tie * st@[k].ties + points.loss * st@[k].losses,
        r matches Err(e) ==> table_error(members@, results.matches@, points, e),
{
    let ghost ms = members@;
    let ghost m = results.matches@;
    let n = members.len();
    let mut i: usize = 0;
    while i < n
        invariant
            n == ms.len(),
            ms == members@,
            m == results.matches@,
            i <= n,
            forall|i2: int, j2: int| 0 <= i2 < i && i2 < j2 < n ==> #[trigger] versus(ms, m, i2, j2) is Some,
        decreases n - i,
    {
        let mut j: usize = i + 1;
        while j < n
            invariant
                n == ms.len(),
                ms == members@,
                m == results.matches@,
                i < n,
                i < j <= n,
                forall|i2: int, j2: int| 0 <= i2 < i && i2 < j2 < n ==> #[trigger] versus(ms, m, i2, j2) is Some,
                forall|j2: int| i < j2 < j ==> #[trigger] versus(ms, m, i as int, j2) is Some,
            decreases n - j,
        {
            if versus_of(members, results, i, j).is_none() {
                return Err(TableError::NoResult(i, j));
            }
            j += 1;
        }
        i += 1;
    }
    let mut out: Vec<Standing> = Vec::new();
    let mut k: usize = 0;
    while k < n
        invariant
            n == ms.len(),
            ms == members@,
            m == results.matches@,
            all_played(ms, m),
            k <= n,
            out@.len() == k,
            forall|k2: int| 0 <= k2 < k ==> #[trigger] tally(ms, m, points, k2, n as int) is Some,
            forall|k2: int| 0 <= k2 < k ==> standing_from(#[trigger] out@[k2], ms[k2], k2, tally(ms, m, points, k2, n as int)->0),
        decreases n - k,
    {
        let mut t = Tally { score: 0, wins: 0, ties: 0, losses: 0 };
        let mut j: usize = 0;
        while j < n
            invariant
                n == ms.len(),
                ms == members@,
                m == results.matches@,
                all_played(ms, m),
                k < n,
                j <= n,
                tally(ms, m, points, k as int, j as int) == Some(t),
                forall|k2: int| 0 <= k2 < k ==> #[trigger] tally(ms, m, points, k2, n as int) is Some,
            decreases n - j,
        {
            if j != k {
                proof {
                    if j < k {
                        lemma_versus_symmetric(ms, m, j as int, k as int);
                        assert(versus(ms, m, j as int, k as int) is Some);
                    } else {
                        assert(versus(ms, m, k as int, j as int) is Some);
                    }
                }
                let o = versus_of(members, results, k, j).unwrap();
                match count_match(t, o, points) {
                    Some(t2) => t = t2,
                    None => {
                        proof {
                            lemma_tally_stays_none(ms, m, points, k as int, j + 1, n as int);
                        }
                        return Err(TableError::TooLarge(k));
                    },
                }
            }
            j += 1;
        }
        out.push(Standing {
            place: k + 1,
            id: members[k].id.clone(),
            name: members[k].name.clone(),
            author: members[k].author.clone(),
            score: t.score,
            wins: t.wins,
            ties: t.ties,
            losses: t.losses,
            age: members[k].age,
        });
        k += 1;
    }
    proof {
        assert forall|k2: int| 0 <= k2 < n implies #[trigger] out@[k2].score == points.win * out@[k2].wins
            + points.tie * out@[k2].ties + points.loss * out@[k2].losses by {
            lemma_tally_scores_its_record(ms, m, points, k2, n as int);
        }
    }
    Ok(out)
}

/// A member's score is the points of its record: the rules' points for a
/// round won times its wins, plus those for a tie times its ties, plus
/// those for a loss times its losses.
pub proof fn lemma_tally_scores_its_record(ms: Seq<Member>, m: Seq<(String, Score)>, p: Points, i: int, upto: int)
    ensures
        tally(ms, m, p, i, upto) matches Some(t) ==> t.score == p.win * t.wins + p.tie * t.ties + p.loss * t.losses,
    decreases upto,
{
    if upto > 0 {
        lemma_tally_scores_its_record(ms, m, p, i, upto - 1);
        if upto - 1 != i {
            if let (Some(o), Some(t)) = (versus(ms, m, i, upto - 1), tally(ms, m, p, i, upto - 1)) {
                if let Some(u) = counted(Some(t), o, p) {
                    assert(p.win * (t.wins + o.0) == p.win * t.wins + p.win * o.0) by (nonlinear_arith);
                    assert(p.tie * (t.ties + o.1) == p.tie * t.ties + p.tie * o.1) by (nonlinear_arith);
                    assert(p.loss * (t.losses + o.2) == p.loss * t.losses + p.loss * o.2) by (nonlinear_arith);
                }
            }
        }
    }
}

/// Once a tally leaves its range it stays out.
proof fn lemma_tally_stays_none(ms: Seq<Member>, m: Seq<(String, Score)>, p: Points, i: int, from: int, upto: int)
    requires
        tally(ms, m, p, i, from) is None,
        from <= upto,
    ensures
        tally(ms, m, p, i, upto) is None,
    decreases upto - from,
{
    if from < upto {
        lemma_tally_stays_none(ms, m, p, i, from, upto - 1);
    }
}

/// Member `i` ranks above member `j`: a higher score; on equal scores the
/// tie rule (the earlier arrival, or with `newer` the later one); then the
/// order they were in.
pub open spec fn ranks_above(score: Seq<i64>, arrived: Seq<u64>, newer: bool, i: int, j: int) -> bool {
    ||| score[i] > score[j]
    ||| score[i] == score[j] && (if newer { arrived[i] > arrived[j] } else { arrived[i] < arrived[j] })
    ||| score[i] == score[j] && arrived[i] == arrived[j] && i < j
}

/// `p` lists the places `0..n`, each once, best first.
pub open spec fn is_rank_order(p: Seq<int>, n: int, score: Seq<i64>, arrived: Seq<u64>, newer: bool) -> bool {
    &&& p.len() == n
    &&& forall|k: int| 0 <= k < n ==> 0 <= #[trigger] p[k] < n
    &&& forall|k: int, l: int| 0 <= k < l < n ==> #[trigger] p[k] != #[trigger] p[l]
    &&& forall|k: int, l: int| 0 <= k < l < n ==> ranks_above(score, arrived, newer, #[trigger] p[k], #[trigger] p[l])
}

proof fn lemma_ranks_above_order(score: Seq<i64>, arrived: Seq<u64>, newer: bool, i: int, j: int, k: int)
    ensures
        ranks_above(score, arrived, newer, i, j) && ranks_above(score, arrived, newer, j, k) ==> ranks_above(score, arrived, newer, i, k),
        i != j ==> (ranks_above(score, arrived, newer, i, j) || ranks_above(score, arrived, newer, j, i)),
        !(ranks_above(score, arrived, newer, i, j) && ranks_above(score, arrived, newer, j, i)),
{
}

/// Whether the member at place `x` ranks above the one at `y`.
fn above(score: &Vec<i64>, arrived: &Vec<u64>, newer: bool, x: usize, y: usize) -> (r: bool)
    requires
        x < score@.len(),
        y < score@.len(),
        score@.len() == arrived@.len(),
    ensures
        r == ranks_above(score@, arrived@, newer, x as int, y as int),
{
    if score[x] != score[y] {
        score[x] > score[y]
    } else if arrived[x] != arrived[y] {
        if newer { arrived[x] > arrived[y] } else { arrived[x] < arrived[y] }
    } else {
        x < y
    }
}

/// The places of the members, best first.
fn rank_order(score: &Vec<i64>, arrived: &Vec<u64>, newer: bool) -> (p: Vec<usize>)
    requires
        score@.len() == arrived@.len(),
    ensures
        is_rank_order(p@.map_values(|x: usize| x as int), score@.len() as int, score@, arrived@, newer),
{
    let n = score.len();
    let mut p: Vec<usize> = Vec::new();
    let mut i: usize = 0;
    while i < n
        invariant
            n == score@.len(),
            n == arrived@.len(),
            i <= n,
            p@.len() == i,
            forall|k: int| 0 <= k < i ==> #[trigger] p@[k] < i,
            forall|k: int, l: int| 0 <= k < l < i ==> #[trigger] p@[k] != #[trigger] p@[l],
            forall|k: int, l: int| 0 <= k < l < i ==> ranks_above(score@, arrived@, newer, #[trigger] p@[k] as int, #[trigger] p@[l] as int),
        decreases n - i,
    {
        let mut q: usize = 0;
        while q < i && above(score, arrived, newer, p[q], i)
            invariant
                n == score@.len(),
                n == arrived@.len(),
                i < n,
                q <= i,
                p@.len() == i,
                forall|k: int| 0 <= k < i ==> #[trigger] p@[k] < i,
                forall|k: int| 0 <= k < q ==> ranks_above(score@, arrived@, newer, #[trigger] p@[k] as int, i as int),
            decreases i - q,
        {
            q += 1;
        }
        let ghost old_p = p@;
        proof {
            assert forall|k: int| q <= k < i implies ranks_above(score@, arrived@, newer, i as int, #[trigger] old_p[k] as int) by {
                lemma_ranks_above_order(score@, arrived@, newer, i as int, old_p[q as int] as int, old_p[k] as int);
                lemma_ranks_above_order(score@, arrived@, newer, old_p[q as int] as int, i as int, old_p[k] as int);
                if k > q {
                    assert(ranks_above(score@, arrived@, newer, old_p[q as int] as int, old_p[k] as int));
                }
            }
        }
        p.insert(q, i);
        proof {
            assert forall|k: int, l: int| 0 <= k < l < i + 1 implies ranks_above(score@, arrived@, newer, #[trigger] p@[k] as int, #[trigger] p@[l] as int) by {
                if k < q && l > q {
                    lemma_ranks_above_order(score@, arrived@, newer, p@[k] as int, i as int, p@[l] as int);
                }
            }
        }
        i += 1;
    }
    p
}

impl Member {
    /// The same member.
    pub fn duplicate(&self) -> (m: Member)
        ensures
            m == *self,
    {
        Member {
            id: self.id.clone(),
            name: self.name.clone(),
            author: self.author.clone(),
            file: self.file.clone(),
            arrived: self.arrived,
            age: self.age,
        }
    }
}

/// The members' scores, in member order.
pub open spec fn scores_of(ms: Seq<Member>, m: Seq<(String, Score)>, p: Points) -> Seq<i64> {
    Seq::new(ms.len(), |k: int| (tally(ms, m, p, k, ms.len() as int)->0).score)
}

/// The members' arrival numbers, in member order.
pub open spec fn arrivals_of(ms: Seq<Member>) -> Seq<u64> {
    Seq::new(ms.len(), |k: int| ms[k].arrived)
}

/// `after` is `before` ranked: score first, then the tie rule.
pub open spec fn ranked(before: Seq<Member>, after: Seq<Member>, m: Seq<(String, Score)>, rules: Rules) -> bool {
    let newer = rules.tie_break == TieBreak::Newer;
    exists|p: Seq<int>| {
        &&& #[trigger] is_rank_order(p, before.len() as int, scores_of(before, m, rules.points), arrivals_of(before), newer)
        &&& after.len() == before.len()
        &&& forall|k: int| 0 <= k < after.len() ==> #[trigger] after[k] == before[p[k]]
    }
}

/// Order the members: score, then the tie rule.
pub fn rank(members: &mut Vec<Member>, results: &Results, rules: &Rules) -> (r: Result<(), TableError>)
    ensures
        r is Ok <==> table_ok(old(members)@, results.matches@, rules.points),
        r matches Err(e) ==> table_error(old(members)@, results.matches@, rules.points, e) && final(members)@ == old(members)@,
        r is Ok ==> ranked(old(members)@, final(members)@, results.matches@, *rules),
{
    let ghost ms = members@;
    let ghost m = results.matches@;
    let recs = match records(members.as_slice(), results, rules.points) {
        Ok(recs) => recs,
        Err(e) => {
            return Err(e);
        },
    };
    let n = members.len();
    let mut score: Vec<i64> = Vec::new();
    let mut arrived: Vec<u64> = Vec::new();
    let mut k: usize = 0;
    while k < n
        invariant
            n == ms.len(),
            ms == members@,
            recs@.len() == n,
            k <= n,
            score@.len() == k,
            arrived@.len() == k,
            forall|k2: int| 0 <= k2 < n ==> standing_from(#[trigger] recs@[k2], ms[k2], k2, tally(ms, m, rules.points, k2, n as int)->0),
            forall|k2: int| 0 <= k2 < k ==> #[trigger] score@[k2] == scores_of(ms, m, rules.points)[k2],
            forall|k2: int| 0 <= k2 < k ==> #[trigger] arrived@[k2] == arrivals_of(ms)[k2],
        decreases n - k,
    {
        score.push(recs[k].score);
        arrived.push(members[k].arrived);
        k += 1;
    }
    assert(score@ =~= scores_of(ms, m, rules.points));
    assert(arrived@ =~= arrivals_of(ms));
    let order = rank_order(&score, &arrived, rules.tie_break == TieBreak::Newer);
    let ghost p = order@.map_values(|x: usize| x as int);
    let mut out: Vec<Member> = Vec::new();
    let mut k: usize = 0;
    while k < n
        invariant
            n == ms.len(),
            ms == members@,
            order@.len() == n,
            p == order@.map_values(|x: usize| x as int),
            forall|k2: int| 0 <= k2 < n ==> 0 <= #[trigger] p[k2] < n,
            k <= n,
            out@.len() == k,
            forall|k2: int| 0 <= k2 < k ==> #[trigger] out@[k2] == ms[p[k2]],
        decreases n - k,
    {
        assert(0 <= p[k as int] < n);
        out.push(members[order[k]].duplicate());
        k += 1;
    }
    *members = out;
    assert(is_rank_order(p, ms.len() as int, scores_of(ms, m, rules.points), arrivals_of(ms), rules.tie_break == TieBreak::Newer));
    Ok(())
}

/// A member that left the hill, and why.
pub struct Gone {
    pub id: String,
    pub name: String,
    pub author: String,
    pub reason: String,
}

/// The members past `size` leave, pushed off; a size of 0 keeps everyone.
pub fn trim(members: &mut Vec<Member>, size: usize) -> (gone: Vec<Gone>)
    ensures
        if size == 0 || old(members)@.len() <= size {
            final(members)@ == old(members)@ && gone@.len() == 0
        } else {
            &&& final(members)@ == old(members)@.take(size as int)
            &&& gone@.len() == old(members)@.len() - size
            &&& forall|k: int| 0 <= k < gone@.len() ==> {
                let mb = #[trigger] old(members)@[size + k];
                &&& gone@[k].id == mb.id
                &&& gone@[k].name == mb.name
                &&& gone@[k].author == mb.author
                &&& gone@[k].reason@ == "pushed off"@
            }
        },
{
    let mut gone: Vec<Gone> = Vec::new();
    if size == 0 || members.len() <= size {
        return gone;
    }
    let rest = members.split_off(size);
    let mut k: usize = 0;
    while k < rest.len()
        invariant
            k <= rest@.len(),
            gone@.len() == k,
            rest@ == old(members)@.subrange(size as int, old(members)@.len() as int),
            members@ == old(members)@.subrange(0, size as int),
            size < old(members)@.len(),
            forall|k2: int| 0 <= k2 < k ==> {
                let mb = #[trigger] rest@[k2];
                &&& gone@[k2].id == mb.id
                &&& gone@[k2].name == mb.name
                &&& gone@[k2].author == mb.author
                &&& gone@[k2].reason@ == "pushed off"@
            },
        decreases rest@.len() - k,
    {
        let m = &rest[k];
        gone.push(Gone {
            id: m.id.clone(),
            name: m.name.clone(),
            author: m.author.clone(),
            reason: "pushed off".to_owned(),
        });
        k += 1;
    }
    assert(members@ =~= old(members)@.take(size as int));
    assert forall|k2: int| 0 <= k2 < gone@.len() implies #[trigger] old(members)@[size + k2] == rest@[k2] by {}
    gone
}

/// What became of a challenger.
#[derive(Clone, Copy, Debug, PartialEq, Eq, Structural)]
pub enum Status {
    /// On the hill after its challenge.
    Entered,
    /// Played, and ranked below the hill's size.
    PushedOff,
    /// Unreadable, or refused by the assembler under the hill's rules.
    Rejected,
    /// The same source is on the hill already, or earlier in the list.
    Duplicate,
}

/// A challenger and what became of it.
pub struct Challenger {
    pub file: String,
    pub status: Status,
    pub id: Option<String>,
    pub name: Option<String>,
    /// Its place right after its challenge.
    pub place: Option<usize>,
    pub error: Option<String>,
}

/// A match played in a challenge.
pub struct Played {
    /// Moved first.
    pub a: String,
    pub b: String,
    pub seed: u32,
    pub result: Score,
}

/// The table of a hill as it stands.
pub struct ShowReport {
    pub rules: Rules,
    pub standings: Vec<Standing>,
}

/// The table as it stands; no match is played.
pub fn show(rules: &Rules, members: &[Member], results: &Results) -> (r: Result<ShowReport, TableError>)
    ensures
        r is Ok <==> table_ok(members@, results.matches@, rules.points),
        r matches Ok(t) ==> t.rules == *rules && t.standings@.len() == members@.len()
            && forall|k: int| 0 <= k < members@.len() ==> standing_from(#[trigger] t.standings@[k], members@[k], k,
                tally(members@, results.matches@, rules.points, k, members@.len() as int)->0),
        r matches Err(e) ==> table_error(members@, results.matches@, rules.points, e),
{
    let standings = records(members, results, rules.points)?;
    Ok(ShowReport { rules: *rules, standings })
}

/// Whether one of the members has this id.
pub fn knows(members: &[Member], id: &String) -> (r: bool)
    ensures
        r <==> exists|k: int| 0 <= k < members@.len() && (#[trigger] members@[k]).id@ == id@,
{
    let mut k: usize = 0;
    while k < members.len()
        invariant
            k <= members@.len(),
            forall|k2: int| 0 <= k2 < k ==> (#[trigger] members@[k2]).id@ != id@,
        decreases members@.len() - k,
    {
        if members[k].id == *id {
            return true;
        }
        k += 1;
    }
    false
}

/// A match with no result yet: the places of its two warriors in the list
/// of ids, their ids in playing order, its key and its position seed.
pub struct Missing {
    pub i: usize,
    pub j: usize,
    pub a: String,
    pub b: String,
    pub key: String,
    pub seed: u32,
}

/// The position seed of the match of `a` (first) and `b`.
pub open spec fn seed_of(a: Seq<char>, b: Seq<char>, positions: u32) -> u32 {
    (big_endian(sha256_of(text_bytes(a) + seq![58u8] + text_bytes(b)).take(8)) % (positions as nat)) as u32
}

/// `x` is the match of the ids at places `i` and `j`, `i` before `j`.
pub open spec fn missing_entry(ids: Seq<String>, positions: u32, x: Missing) -> bool {
    let (p, q) = (ids[x.i as int]@, ids[x.j as int]@);
    &&& x.i < x.j < ids.len()
    &&& x.a@ == first_of(p, q)
    &&& x.b@ == second_of(p, q)
    &&& x.key@ == match_key(p, q)
    &&& x.seed == seed_of(x.a@, x.b@, positions)
}

/// Place pair `(i, j)` comes before `(k, l)`.
pub open spec fn pair_before(i: int, j: int, k: int, l: int) -> bool {
    i < k || (i == k && j < l)
}

/// The positions the second warrior of a hill match can take: its seed is
/// taken modulo this number.
pub fn seed_positions(cfg: &Config) -> (p: u32)
    requires
        2 * cfg.min_distance <= cfg.core_size < u32::MAX,
    ensures
        p == cfg.core_size + 1 - 2 * cfg.min_distance,
        p >= 1,
{
    cfg.core_size + 1 - 2 * cfg.min_distance
}

/// Every match among `ids` that has no result, in order of the places of
/// its warriors.
pub fn missing_matches(ids: &[String], results: &Results, positions: u32) -> (out: Vec<Missing>)
    requires
        positions > 0,
    ensures
        forall|k: int| 0 <= k < out@.len() ==> missing_entry(ids@, positions, #[trigger] out@[k])
            && lookup(results.matches@, out@[k].key@) is None,
        forall|k: int, l: int| 0 <= k < l < out@.len() ==> pair_before(
            (#[trigger] out@[k]).i as int,
            out@[k].j as int,
            (#[trigger] out@[l]).i as int,
            out@[l].j as int,
        ),
        forall|i: int, j: int| 0 <= i < j < ids@.len() && lookup(results.matches@, match_key(ids@[i]@, ids@[j]@)) is None
            ==> exists|k: int| 0 <= k < out@.len() && (#[trigger] out@[k]).i == i && out@[k].j == j,
{
    let n = ids.len();
    let mut out: Vec<Missing> = Vec::new();
    let mut i: usize = 0;
    while i < n
        invariant
            n == ids@.len(),
            positions > 0,
            i <= n,
            forall|k: int| 0 <= k < out@.len() ==> missing_entry(ids@, positions, #[trigger] out@[k])
                && lookup(results.matches@, out@[k].key@) is None && out@[k].i < i,
            forall|k: int, l: int| 0 <= k < l < out@.len() ==> pair_before(
                (#[trigger] out@[k]).i as int,
                out@[k].j as int,
                (#[trigger] out@[l]).i as int,
                out@[l].j as int,
            ),
            forall|i2: int, j2: int| 0 <= i2 < i && i2 < j2 < n && lookup(results.matches@, match_key(ids@[i2]@, ids@[j2]@)) is None
                ==> exists|k: int| 0 <= k < out@.len() && (#[trigger] out@[k]).i == i2 && out@[k].j == j2,
        decreases n - i,
    {
        let mut j: usize = i + 1;
        while j < n
            invariant
                n == ids@.len(),
                positions > 0,
                i < n,
                i < j <= n,
                forall|k: int| 0 <= k < out@.len() ==> missing_entry(ids@, positions, #[trigger] out@[k])
                    && lookup(results.matches@, out@[k].key@) is None
                    && (out@[k].i < i || (out@[k].i == i && out@[k].j < j)),
                forall|k: int, l: int| 0 <= k < l < out@.len() ==> pair_before(
                    (#[trigger] out@[k]).i as int,
                    out@[k].j as int,
                    (#[trigger] out@[l]).i as int,
                    out@[l].j as int,
                ),
                forall|i2: int, j2: int| 0 <= i2 < j2 < n && (i2 < i || (i2 == i && j2 < j))
                    && lookup(results.matches@, match_key(ids@[i2]@, ids@[j2]@)) is None
                    ==> exists|k: int| 0 <= k < out@.len() && (#[trigger] out@[k]).i == i2 && out@[k].j == j2,
            decreases n - j,
        {
            let x = ids[i].as_str();
            let y = ids[j].as_str();
            let (a, b, key) = pairing(x, y);
            let ghost before = out@;
            assert(key@ == match_key(ids@[i as int]@, ids@[j as int]@));
            if find(&results.matches, &key).is_none() {
                let sd = seed(a, b, positions);
                out.push(Missing { i, j, a: a.to_owned(), b: b.to_owned(), key, seed: sd });
            }
            proof {
                assert forall|i2: int, j2: int| 0 <= i2 < j2 < n && (i2 < i || (i2 == i && j2 < j + 1))
                    && lookup(results.matches@, match_key(ids@[i2]@, ids@[j2]@)) is None
                    implies exists|k: int| 0 <= k < out@.len() && (#[trigger] out@[k]).i == i2 && out@[k].j == j2 by {
                    if i2 == i && j2 == j {
                        assert(out@[before.len() as int].i == i2 && out@[before.len() as int].j == j2);
                    } else {
                        let k = choose|k: int| 0 <= k < before.len() && (#[trigger] before[k]).i == i2 && before[k].j == j2;
                        assert(out@[k] == before[k]);
                    }
                }
            }
            j += 1;
        }
        i += 1;
    }
    out
}

/// No key is kept twice.
pub open spec fn unique_keys(m: Seq<(String, Score)>) -> bool {
    forall|k: int, l: int| 0 <= k < l < m.len() ==> (#[trigger] m[k]).0@ != (#[trigger] m[l]).0@
}

proof fn lemma_lookup_push(m: Seq<(String, Score)>, e: (String, Score), key: Seq<char>)
    ensures
        lookup(m.push(e), key) == (if lookup(m, key) is Some { lookup(m, key) } else if e.0@ == key { Some(e.1) } else { None }),
    decreases m.len(),
{
    assert(m.push(e)[0] == if m.len() > 0 { m[0] } else { e });
    if m.len() > 0 {
        assert(m.push(e).drop_first() =~= m.drop_first().push(e));
        lemma_lookup_push(m.drop_first(), e, key);
    } else {
        assert(m.push(e).drop_first() =~= Seq::<(String, Score)>::empty());
        assert(lookup(m.push(e).drop_first(), key) is None);
    }
}

proof fn lemma_lookup_found(m: Seq<(String, Score)>, key: Seq<char>)
    ensures
        lookup(m, key) is Some <==> exists|k: int| 0 <= k < m.len() && (#[trigger] m[k]).0@ == key,
        lookup(m, key) matches Some(s) ==> exists|k: int| 0 <= k < m.len() && (#[trigger] m[k]).0@ == key && m[k].1 == s,
    decreases m.len(),
{
    if m.len() > 0 {
        lemma_lookup_found(m.drop_first(), key);
        if m[0].0@ != key {
            assert forall|k: int| 0 <= k < m.len() && (#[trigger] m[k]).0@ == key implies 0 <= k - 1 < m.drop_first().len() && m.drop_first()[k - 1].0@ == key by {}
            if lookup(m, key) is Some {
                let k = choose|k: int| 0 <= k < m.drop_first().len() && (#[trigger] m.drop_first()[k]).0@ == key && m.drop_first()[k].1 == lookup(m, key)->0;
                assert(m[k + 1] == m.drop_first()[k]);
            }
        } else {
            assert(m[0].0@ == key);
        }
    }
}

proof fn lemma_lookup_set(m: Seq<(String, Score)>, p: int, e: (String, Score), key: Seq<char>)
    requires
        unique_keys(m),
        0 <= p < m.len(),
        m[p].0@ == e.0@,
    ensures
        lookup(m.update(p, e), key) == (if key == e.0@ { Some(e.1) } else { lookup(m, key) }),
    decreases m.len(),
{
    assert(m.update(p, e)[0] == if p == 0 { e } else { m[0] });
    if p == 0 {
        assert(m.update(p, e).drop_first() =~= m.drop_first());
    }
    if p > 0 {
        assert(m.update(p, e).drop_first() =~= m.drop_first().update(p - 1, e));
        assert(unique_keys(m.drop_first())) by {
            assert forall|k: int, l: int| 0 <= k < l < m.drop_first().len() implies (#[trigger] m.drop_first()[k]).0@ != (#[trigger] m.drop_first()[l]).0@ by {
                assert(m.drop_first()[k] == m[k + 1]);
                assert(m.drop_first()[l] == m[l + 1]);
            }
        }
        lemma_lookup_set(m.drop_first(), p - 1, e, key);
        assert(m[0].0@ != m[p].0@);
    }
}

/// Keep `s` as the result under `key`, in place of any result there.
fn put_result(m: &mut Vec<(String, Score)>, key: String, s: Score)
    requires
        unique_keys(old(m)@),
    ensures
        unique_keys(final(m)@),
        forall|k: Seq<char>| #[trigger] lookup(final(m)@, k) == (if k == key@ { Some(s) } else { lookup(old(m)@, k) }),
{
    let mut p: usize = 0;
    while p < m.len()
        invariant
            p <= m@.len(),
            m@ == old(m)@,
            unique_keys(m@),
            forall|k2: int| 0 <= k2 < p ==> (#[trigger] m@[k2]).0@ != key@,
        decreases m@.len() - p,
    {
        if m[p].0 == key {
            let ghost old_m = m@;
            let ghost kv = key@;
            m.set(p, (key, s));
            proof {
                assert forall|k: Seq<char>| #[trigger] lookup(m@, k) == (if k == kv { Some(s) } else { lookup(old_m, k) }) by {
                    lemma_lookup_set(old_m, p as int, (m@[p as int].0, s), k);
                }
                assert forall|k: int, l: int| 0 <= k < l < m@.len() implies (#[trigger] m@[k]).0@ != (#[trigger] m@[l]).0@ by {
                    if k != p && l != p {
                        assert(m@[k] == old_m[k] && m@[l] == old_m[l]);
                    } else if k == p {
                        assert(m@[l] == old_m[l]);
                        assert(old_m[k].0@ != old_m[l].0@);
                    } else {
                        assert(m@[k] == old_m[k]);
                        assert(old_m[k].0@ != old_m[l].0@);
                    }
                }
            }
            return;
        }
        p += 1;
    }
    let ghost old_m = m@;
    let ghost kv = key@;
    proof {
        assert forall|k: Seq<char>| lookup(old_m, k) is Some ==> k != kv by {
            lemma_lookup_found(old_m, k);
        }
    }
    m.push((key, s));
    proof {
        assert forall|k: Seq<char>| #[trigger] lookup(m@, k) == (if k == kv { Some(s) } else { lookup(old_m, k) }) by {
            lemma_lookup_push(old_m, m@.last(), k);
            lemma_lookup_found(old_m, k);
        }
    }
}

/// The result of `missing[k]`, the last one wins.
pub open spec fn played_result(missing: Seq<Missing>, scores: Seq<Score>, key: Seq<char>, n: int) -> Option<Score>
    decreases n,
{
    if n <= 0 {
        None
    } else if missing[n - 1].key@ == key {
        Some(scores[n - 1])
    } else {
        played_result(missing, scores, key, n - 1)
    }
}

/// Keep the results of the matches just played; the list of them.
pub fn record_played(results: &mut Results, missing: &[Missing], scores: &[Score]) -> (played: Vec<Played>)
    requires
        unique_keys(old(results).matches@),
    ensures
        ({
            let n = if missing@.len() <= scores@.len() { missing@.len() } else { scores@.len() };
            &&& played@.len() == n
            &&& forall|k: int| 0 <= k < n ==> {
                &&& (#[trigger] played@[k]).a@ == missing@[k].a@
                &&& played@[k].b@ == missing@[k].b@
                &&& played@[k].seed == missing@[k].seed
                &&& played@[k].result == scores@[k]
            }
            &&& forall|key: Seq<char>| #[trigger] lookup(final(results).matches@, key) == (match played_result(missing@, scores@, key, n as int) {
                Some(s) => Some(s),
                None => lookup(old(results).matches@, key),
            })
        }),
        unique_keys(final(results).matches@),
        final(results).fingerprint == old(results).fingerprint,
{
    let n = if missing.len() <= scores.len() { missing.len() } else { scores.len() };
    let mut played: Vec<Played> = Vec::new();
    let mut k: usize = 0;
    while k < n
        invariant
            n <= missing@.len(),
            n <= scores@.len(),
            k <= n,
            played@.len() == k,
            unique_keys(results.matches@),
            results.fingerprint == old(results).fingerprint,
            forall|k2: int| 0 <= k2 < k ==> {
                &&& (#[trigger] played@[k2]).a@ == missing@[k2].a@
                &&& played@[k2].b@ == missing@[k2].b@
                &&& played@[k2].seed == missing@[k2].seed
                &&& played@[k2].result == scores@[k2]
            },
            forall|key: Seq<char>| #[trigger] lookup(results.matches@, key) == (match played_result(missing@, scores@, key, k as int) {
                Some(s) => Some(s),
                None => lookup(old(results).matches@, key),
            }),
        decreases n - k,
    {
        let x = &missing[k];
        put_result(&mut results.matches, x.key.clone(), scores[k]);
        played.push(Played { a: x.a.clone(), b: x.b.clone(), seed: x.seed, result: scores[k] });
        k += 1;
    }
    played
}

/// The position of the first `:` in `b`.
pub open spec fn first_colon(b: Seq<u8>) -> Option<int>
    decreases b.len(),
{
    if b.len() == 0 {
        None
    } else if b.last() == 58 && first_colon(b.drop_last()) is None {
        Some(b.len() - 1)
    } else {
        first_colon(b.drop_last())
    }
}

/// Some member's id has these bytes.
pub open spec fn member_bytes(ms: Seq<Member>, b: Seq<u8>) -> bool {
    exists|k: int| 0 <= k < ms.len() && text_bytes((#[trigger] ms[k]).id@) == b
}

/// A key both of whose ids, split at the first `:`, are members.
pub open spec fn between_members(key: Seq<char>, ms: Seq<Member>) -> bool {
    let b = text_bytes(key);
    match first_colon(b) {
        None => false,
        Some(p) => member_bytes(ms, b.take(p)) && member_bytes(ms, b.skip(p + 1)),
    }
}

/// The position of the first `:` in `b`.
fn find_colon(b: &[u8]) -> (r: Option<usize>)
    ensures
        r matches Some(p) ==> (first_colon(b@) == Some(p as int) && p < b@.len()),
        r is None ==> first_colon(b@) is None,
{
    let mut i: usize = 0;
    while i < b.len()
        invariant
            i <= b@.len(),
            first_colon(b@.take(i as int)) is None,
        decreases b@.len() - i,
    {
        assert(b@.take(i + 1).drop_last() =~= b@.take(i as int));
        if b[i] == 58 {
            proof {
                lemma_first_colon_prefix(b@, i + 1);
            }
            return Some(i);
        }
        i += 1;
    }
    assert(b@.take(b@.len() as int) =~= b@);
    None
}

proof fn lemma_first_colon_prefix(b: Seq<u8>, n: int)
    requires
        0 <= n <= b.len(),
        first_colon(b.take(n)) is Some,
    ensures
        first_colon(b) == first_colon(b.take(n)),
    decreases b.len() - n,
{
    if n < b.len() {
        assert(b.take(n + 1).drop_last() =~= b.take(n));
        lemma_first_colon_prefix(b, n + 1);
    } else {
        assert(b.take(n) =~= b);
    }
}

/// Whether `b[from..to]` are the bytes of `id`.
fn bytes_are(b: &[u8], from: usize, to: usize, id: &str) -> (r: bool)
    requires
        from <= to <= b@.len(),
    ensures
        r == (b@.subrange(from as int, to as int) == id.spec_bytes()),
{
    let c = id.as_bytes();
    if c.len() != to - from {
        return false;
    }
    let mut i: usize = 0;
    while i < c.len()
        invariant
            c@ == id.spec_bytes(),
            c@.len() == to - from,
            from <= to <= b@.len(),
            i <= c@.len(),
            forall|k: int| 0 <= k < i ==> #[trigger] c@[k] == b@[from + k],
        decreases c@.len() - i,
    {
        if c[i] != b[from + i] {
            assert(b@.subrange(from as int, to as int)[i as int] != c@[i as int]);
            return false;
        }
        i += 1;
    }
    assert(b@.subrange(from as int, to as int) =~= c@);
    true
}

/// Whether some member's id is `b[from..to]`.
fn bytes_of_member(members: &[Member], b: &[u8], from: usize, to: usize) -> (r: bool)
    requires
        from <= to <= b@.len(),
    ensures
        r == member_bytes(members@, b@.subrange(from as int, to as int)),
{
    let mut k: usize = 0;
    while k < members.len()
        invariant
            from <= to <= b@.len(),
            k <= members@.len(),
            forall|k2: int| 0 <= k2 < k ==> text_bytes((#[trigger] members@[k2]).id@) != b@.subrange(from as int, to as int),
        decreases members@.len() - k,
    {
        if bytes_are(b, from, to, members[k].id.as_str()) {
            return true;
        }
        k += 1;
    }
    false
}

/// Drop the results of matches of anyone no longer a member.
pub fn keep_members(results: &mut Results, members: &[Member])
    requires
        unique_keys(old(results).matches@),
    ensures
        unique_keys(final(results).matches@),
        final(results).fingerprint == old(results).fingerprint,
        forall|key: Seq<char>| #[trigger] lookup(final(results).matches@, key)
            == (if between_members(key, members@) { lookup(old(results).matches@, key) } else { None }),
{
    let ghost old_m = results.matches@;
    let mut kept: Vec<(String, Score)> = Vec::new();
    let mut i: usize = 0;
    while i < results.matches.len()
        invariant
            old_m == results.matches@,
            i <= old_m.len(),
            unique_keys(old_m),
            forall|k2: int| 0 <= k2 < kept@.len() ==> exists|j: int| 0 <= j < i && (#[trigger] kept@[k2]).0@ == (#[trigger] old_m[j]).0@,
            unique_keys(kept@),
            forall|key: Seq<char>| #[trigger] lookup(kept@, key)
                == (if between_members(key, members@) { lookup(old_m.take(i as int), key) } else { None }),
        decreases old_m.len() - i,
    {
        let e = &results.matches[i];
        let b = e.0.as_str().as_bytes();
        let keep = match find_colon(b) {
            None => false,
            Some(p) => {
                let n = b.len();
                bytes_of_member(members, b, 0, p) && bytes_of_member(members, b, p + 1, n)
            },
        };
        proof {
            assert(b@ == text_bytes(e.0@));
            if let Some(p) = first_colon(b@) {
                assert(b@.subrange(0, p) =~= b@.take(p));
                assert(b@.subrange(p + 1, b@.len() as int) =~= b@.skip(p + 1));
            }
            assert(old_m.take(i + 1) =~= old_m.take(i as int).push(old_m[i as int]));
        }
        let ghost before = kept@;
        if keep {
            proof {
                assert forall|k2: int| 0 <= k2 < before.len() implies (#[trigger] before[k2]).0@ != e.0@ by {
                    let j = choose|j: int| 0 <= j < i && (#[trigger] before[k2]).0@ == (#[trigger] old_m[j]).0@;
                    assert(old_m[j].0@ != old_m[i as int].0@);
                }
            }
            kept.push((e.0.clone(), e.1));
            proof {
                assert forall|key: Seq<char>| #[trigger] lookup(kept@, key)
                    == (if between_members(key, members@) { lookup(old_m.take(i + 1), key) } else { None }) by {
                    lemma_lookup_push(before, kept@.last(), key);
                    lemma_lookup_push(old_m.take(i as int), old_m[i as int], key);
                }
                assert forall|k2: int| 0 <= k2 < kept@.len() implies exists|j: int| 0 <= j < i + 1 && (#[trigger] kept@[k2]).0@ == (#[trigger] old_m[j]).0@ by {
                    if k2 < before.len() {
                        let j = choose|j: int| 0 <= j < i && (#[trigger] before[k2]).0@ == (#[trigger] old_m[j]).0@;
                        assert(kept@[k2] == before[k2]);
                    } else {
                        assert(kept@[k2].0@ == old_m[i as int].0@);
                    }
                }
            }
        } else {
            proof {
                assert forall|key: Seq<char>| #[trigger] lookup(kept@, key)
                    == (if between_members(key, members@) { lookup(old_m.take(i + 1), key) } else { None }) by {
                    lemma_lookup_push(old_m.take(i as int), old_m[i as int], key);
                    if between_members(key, members@) && lookup(old_m.take(i as int), key) is None {
                        assert(old_m[i as int].0@ != key);
                    }
                }
            }
        }
        i += 1;
    }
    assert(old_m.take(old_m.len() as int) =~= old_m);
    results.matches = kept;
}

/// A hill's members, best first, and the arrival number of the next
/// challenger.
pub struct State {
    pub next: u64,
    pub members: Vec<Member>,
}

/// The members a hill of `size` keeps of a ranked list.
pub open spec fn kept(ranked: Seq<Member>, size: usize) -> Seq<Member> {
    if size == 0 || ranked.len() <= size { ranked } else { ranked.take(size as int) }
}

/// Every member but the one with `id` one challenge older.
pub open spec fn aged(ms: Seq<Member>, id: Seq<char>) -> Seq<Member> {
    Seq::new(
        ms.len(),
        |k: int| if ms[k].id@ == id { ms[k] } else { Member { age: (ms[k].age + 1) as u32, ..ms[k] } },
    )
}

/// The place of the first member with `id`.
pub open spec fn place_of(ms: Seq<Member>, id: Seq<char>) -> Option<int>
    decreases ms.len(),
{
    if ms.len() == 0 {
        None
    } else if ms.last().id@ == id && place_of(ms.drop_last(), id) is None {
        Some(ms.len() - 1)
    } else {
        place_of(ms.drop_last(), id)
    }
}

/// `gone` holds the members of `ranked` past `size`, pushed off.
pub open spec fn pushed_off_of(gone: Seq<Gone>, ranked: Seq<Member>, size: usize) -> bool {
    if size == 0 || ranked.len() <= size {
        gone.len() == 0
    } else {
        &&& gone.len() == ranked.len() - size
        &&& forall|k: int| 0 <= k < gone.len() ==> {
            let mb = #[trigger] ranked[size + k];
            &&& gone[k].id == mb.id
            &&& gone[k].name == mb.name
            &&& gone[k].author == mb.author
            &&& gone[k].reason@ == "pushed off"@
        }
    }
}

/// How a challenger fared: its place right after it joined (before the
/// hill was cut to size), and whether it is still on the hill.
#[derive(Clone, Copy, Debug, PartialEq, Eq, Structural)]
pub struct Joined {
    pub place: Option<usize>,
    pub stayed: bool,
}

/// The place of the first member with `id`.
fn find_place(ms: &Vec<Member>, id: &String) -> (r: Option<usize>)
    ensures
        r matches Some(p) ==> place_of(ms@, id@) == Some(p as int),
        r is None ==> place_of(ms@, id@) is None,
{
    let mut k: usize = 0;
    while k < ms.len()
        invariant
            k <= ms@.len(),
            place_of(ms@.take(k as int), id@) is None,
        decreases ms@.len() - k,
    {
        assert(ms@.take(k + 1).drop_last() =~= ms@.take(k as int));
        if ms[k].id == *id {
            proof {
                lemma_place_prefix(ms@, id@, k + 1);
            }
            return Some(k);
        }
        k += 1;
    }
    assert(ms@.take(ms@.len() as int) =~= ms@);
    None
}

proof fn lemma_place_prefix(ms: Seq<Member>, id: Seq<char>, n: int)
    requires
        0 <= n <= ms.len(),
        place_of(ms.take(n), id) is Some,
    ensures
        place_of(ms, id) == place_of(ms.take(n), id),
    decreases ms.len() - n,
{
    if n < ms.len() {
        assert(ms.take(n + 1).drop_last() =~= ms.take(n));
        lemma_place_prefix(ms, id, n + 1);
    } else {
        assert(ms.take(n) =~= ms);
    }
}

proof fn lemma_place_found(ms: Seq<Member>, id: Seq<char>)
    ensures
        place_of(ms, id) is Some <==> exists|k: int| 0 <= k < ms.len() && (#[trigger] ms[k]).id@ == id,
    decreases ms.len(),
{
    if ms.len() > 0 {
        lemma_place_found(ms.drop_last(), id);
        if place_of(ms.drop_last(), id) is Some {
            let k = choose|k: int| 0 <= k < ms.drop_last().len() && (#[trigger] ms.drop_last()[k]).id@ == id;
            assert(ms[k] == ms.drop_last()[k]);
        }
        assert forall|k: int| 0 <= k < ms.len() - 1 && (#[trigger] ms[k]).id@ == id implies ms.drop_last()[k].id@ == id by {}
    }
}

/// A challenger joins the hill: it gets the next arrival number, the
/// members are ranked, those past the size fall off, and everyone else on
/// the hill is one challenge older.
pub fn join(state: &mut State, m: Member, results: &Results, rules: &Rules, pushed_off: &mut Vec<Gone>) -> (r: Result<Joined, TableError>)
    requires
        old(state).next < u64::MAX,
        forall|k: int| 0 <= k < old(state).members@.len() ==> (#[trigger] old(state).members@[k]).age < u32::MAX,
    ensures
        ({
            let grown = old(state).members@.push(Member { arrived: old(state).next, ..m });
            &&& r is Ok <==> table_ok(grown, results.matches@, rules.points)
            &&& r matches Err(e) ==> table_error(grown, results.matches@, rules.points, e)
            &&& r matches Ok(j) ==> exists|order: Seq<Member>| {
                &&& #[trigger] ranked(grown, order, results.matches@, *rules)
                &&& final(state).members@ == aged(kept(order, rules.size), m.id@)
                &&& (match j.place { Some(p) => place_of(order, m.id@) == Some(p as int), None => place_of(order, m.id@) is None })
                &&& j.stayed == (place_of(kept(order, rules.size), m.id@) is Some)
                &&& pushed_off_of(final(pushed_off)@.skip(old(pushed_off)@.len() as int), order, rules.size)
                &&& final(pushed_off)@.take(old(pushed_off)@.len() as int) == old(pushed_off)@
            }
            &&& final(state).next == old(state).next + 1
        }),
{
    let ghost grown = state.members@.push(Member { arrived: state.next, ..m });
    let id = m.id.clone();
    let mut m = m;
    m.arrived = state.next;
    state.next = state.next + 1;
    state.members.push(m);
    assert(state.members@ =~= grown);
    rank(&mut state.members, results, rules)?;
    let ghost order = state.members@;
    let place = find_place(&state.members, &id);
    let ghost before_gone = pushed_off@;
    let gone = trim(&mut state.members, rules.size);
    let mut g: usize = 0;
    while g < gone.len()
        invariant
            g <= gone@.len(),
            state.next == old(state).next + 1,
            pushed_off@.len() == before_gone.len() + g,
            pushed_off@.take(before_gone.len() as int) == before_gone,
            forall|k: int| 0 <= k < g ==> #[trigger] pushed_off@[before_gone.len() + k] == gone@[k],
        decreases gone@.len() - g,
    {
        let x = &gone[g];
        pushed_off.push(Gone { id: x.id.clone(), name: x.name.clone(), author: x.author.clone(), reason: x.reason.clone() });
        assert(pushed_off@.take(before_gone.len() as int) =~= before_gone);
        g += 1;
    }
    assert forall|k: int| 0 <= k < gone@.len() implies #[trigger] pushed_off@.skip(before_gone.len() as int)[k] == gone@[k] by {
        assert(pushed_off@.skip(before_gone.len() as int)[k] == pushed_off@[before_gone.len() + k]);
    }
    assert(pushed_off@.skip(before_gone.len() as int) =~= gone@);
    let ghost cut = state.members@;
    assert(cut == kept(order, rules.size));
    proof {
        // every member of the ranked list came from the grown one
        let newer = rules.tie_break == TieBreak::Newer;
        let p = choose|p: Seq<int>| #[trigger] is_rank_order(p, grown.len() as int, scores_of(grown, results.matches@, rules.points), arrivals_of(grown), newer)
            && order.len() == grown.len() && forall|k: int| 0 <= k < order.len() ==> #[trigger] order[k] == grown[p[k]];
        assert forall|k: int| 0 <= k < cut.len() && cut[k].id@ != id@ implies (#[trigger] cut[k]).age < u32::MAX by {
            assert(cut[k] == order[k]);
            assert(order[k] == grown[p[k]]);
            if p[k] < grown.len() - 1 {
                assert(grown[p[k]] == old(state).members@[p[k]]);
            }
        }
    }
    let stayed = knows(state.members.as_slice(), &id);
    let mut k: usize = 0;
    while k < state.members.len()
        invariant
            k <= cut.len(),
            state.next == old(state).next + 1,
            state.members@.len() == cut.len(),
            forall|k2: int| 0 <= k2 < cut.len() && cut[k2].id@ != id@ ==> (#[trigger] cut[k2]).age < u32::MAX,
            forall|k2: int| 0 <= k2 < k ==> #[trigger] state.members@[k2] == aged(cut, id@)[k2],
            forall|k2: int| k <= k2 < cut.len() ==> #[trigger] state.members@[k2] == cut[k2],
        decreases cut.len() - k,
    {
        if state.members[k].id != id {
            let mut x = state.members[k].duplicate();
            x.age = x.age + 1;
            state.members.set(k, x);
        }
        k += 1;
    }
    proof {
        assert(state.members@ =~= aged(cut, id@));
        lemma_place_found(cut, id@);
        assert(m.id@ == id@);
        assert(ranked(grown, order, results.matches@, *rules));
        assert(state.members@ == aged(kept(order, rules.size), id@));
        assert(stayed == (place_of(kept(order, rules.size), id@) is Some));
        assert(pushed_off_of(pushed_off@.skip(old(pushed_off)@.len() as int), order, rules.size));
        assert(pushed_off@.take(old(pushed_off)@.len() as int) == old(pushed_off)@);
    }
    Ok(Joined { place, stayed })
}

/// Note how a challenger fared: its place counted from 1, and pushed off
/// if it did not stay.
pub fn note_joined(c: &mut Challenger, j: Joined)
    ensures
        final(c).place == (match j.place { Some(p) => if p < usize::MAX { Some((p + 1) as usize) } else { None }, None => None }),
        final(c).status == (if j.stayed { old(c).status } else { Status::PushedOff }),
        final(c).file == old(c).file,
        final(c).id == old(c).id,
        final(c).name == old(c).name,
        final(c).error == old(c).error,
{
    c.place = match j.place {
        Some(p) => if p < usize::MAX { Some(p + 1) } else { None },
        None => None,
    };
    if !j.stayed {
        c.status = Status::PushedOff;
    }
}

/// Rounds member `k` won against member `j` (0 against itself).
pub open spec fn won(ms: Seq<Member>, m: Seq<(String, Score)>, k: int, j: int) -> int {
    if k == j { 0 } else { match versus(ms, m, k, j) { Some(o) => o.0 as int, None => 0 } }
}

/// Rounds member `k` lost against member `j` (0 against itself).
pub open spec fn lost(ms: Seq<Member>, m: Seq<(String, Score)>, k: int, j: int) -> int {
    if k == j { 0 } else { match versus(ms, m, k, j) { Some(o) => o.2 as int, None => 0 } }
}

/// Row `k` of a table of numbers, summed over the columns before `n`.
pub open spec fn row_sum(f: spec_fn(int, int) -> int, k: int, n: int) -> int
    decreases n,
{
    if n <= 0 { 0 } else { row_sum(f, k, n - 1) + f(k, n - 1) }
}

/// The rows before `r` of a table of numbers, each summed over the
/// columns before `n`.
pub open spec fn table_sum(f: spec_fn(int, int) -> int, r: int, n: int) -> int
    decreases r,
{
    if r <= 0 { 0 } else { table_sum(f, r - 1, n) + row_sum(f, r - 1, n) }
}

/// The same table read by columns.
proof fn lemma_table_transposed(f: spec_fn(int, int) -> int, n: int)
    requires
        n >= 0,
    ensures
        table_sum(f, n, n) == table_sum(|k: int, j: int| f(j, k), n, n),
    decreases n,
{
    let g = |k: int, j: int| f(j, k);
    if n > 0 {
        lemma_table_transposed(f, n - 1);
        lemma_table_grow(f, n - 1);
        lemma_table_grow(g, n - 1);
        lemma_col_is_row(f, n - 1, n - 1);
        lemma_col_is_row(g, n - 1, n - 1);
        assert((|k: int, i: int| g(i, k)) =~= f);
    }
}

/// A column of the table summed: the sum over the rows of one entry each.
pub open spec fn col_sum(f: spec_fn(int, int) -> int, j: int, r: int) -> int
    decreases r,
{
    if r <= 0 { 0 } else { col_sum(f, j, r - 1) + f(r - 1, j) }
}

/// Growing a square table by a row and a column.
proof fn lemma_table_grow(f: spec_fn(int, int) -> int, n: int)
    requires
        n >= 0,
    ensures
        table_sum(f, n + 1, n + 1) == table_sum(f, n, n) + col_sum(f, n, n) + row_sum(f, n, n + 1),
{
    lemma_table_extend_cols(f, n, n);
}

/// One more column adds that column's sum.
proof fn lemma_table_extend_cols(f: spec_fn(int, int) -> int, r: int, n: int)
    requires
        r >= 0,
        n >= 0,
    ensures
        table_sum(f, r, n + 1) == table_sum(f, r, n) + col_sum(f, n, r),
    decreases r,
{
    if r > 0 {
        lemma_table_extend_cols(f, r - 1, n);
    }
}

/// A column of `f` is a row of `f` transposed.
proof fn lemma_col_is_row(f: spec_fn(int, int) -> int, j: int, r: int)
    requires
        r >= 0,
    ensures
        col_sum(f, j, r) == row_sum(|k: int, i: int| f(i, k), j, r),
    decreases r,
{
    if r > 0 {
        lemma_col_is_row(f, j, r - 1);
    }
}

/// The wins of the members before `r`, each counted against the whole table.
pub open spec fn total_wins(ms: Seq<Member>, m: Seq<(String, Score)>, p: Points, r: int) -> int
    decreases r,
{
    if r <= 0 { 0 } else { total_wins(ms, m, p, r - 1) + tally(ms, m, p, r - 1, ms.len() as int)->0.wins }
}

/// The losses of the members before `r`, each counted against the whole table.
pub open spec fn total_losses(ms: Seq<Member>, m: Seq<(String, Score)>, p: Points, r: int) -> int
    decreases r,
{
    if r <= 0 { 0 } else { total_losses(ms, m, p, r - 1) + tally(ms, m, p, r - 1, ms.len() as int)->0.losses }
}

/// No two members share an id.
pub open spec fn ids_distinct(ms: Seq<Member>) -> bool {
    forall|i: int, j: int| 0 <= i < j < ms.len() ==> #[trigger] ms[i].id@ != #[trigger] ms[j].id@
}

/// A tally that fits counts the rounds won and lost against each member.
proof fn lemma_tally_sums(ms: Seq<Member>, m: Seq<(String, Score)>, p: Points, k: int, u: int)
    requires
        tally(ms, m, p, k, u) is Some,
    ensures
        tally(ms, m, p, k, u)->0.wins == row_sum(|a: int, b: int| won(ms, m, a, b), k, u),
        tally(ms, m, p, k, u)->0.losses == row_sum(|a: int, b: int| lost(ms, m, a, b), k, u),
    decreases u,
{
    if u > 0 {
        if u - 1 != k {
            assert(tally(ms, m, p, k, u - 1) is Some);
        }
        lemma_tally_sums(ms, m, p, k, u - 1);
    }
}

/// The wins and losses of the first `r` members are the first `r` rows of
/// the tables of rounds won and lost.
proof fn lemma_totals_are_tables(ms: Seq<Member>, m: Seq<(String, Score)>, p: Points, r: int)
    requires
        0 <= r <= ms.len(),
        forall|k: int| 0 <= k < ms.len() ==> #[trigger] tally(ms, m, p, k, ms.len() as int) is Some,
    ensures
        total_wins(ms, m, p, r) == table_sum(|a: int, b: int| won(ms, m, a, b), r, ms.len() as int),
        total_losses(ms, m, p, r) == table_sum(|a: int, b: int| lost(ms, m, a, b), r, ms.len() as int),
    decreases r,
{
    if r > 0 {
        lemma_totals_are_tables(ms, m, p, r - 1);
        lemma_tally_sums(ms, m, p, r - 1, ms.len() as int);
    }
}

/// Every round a member won is a round its opponent lost: over a table in
/// which every two members have a result and every record fits, the wins
/// of all members add up to their losses.
pub proof fn lemma_wins_match_losses(ms: Seq<Member>, m: Seq<(String, Score)>, p: Points)
    requires
        ids_distinct(ms),
        table_ok(ms, m, p),
    ensures
        total_wins(ms, m, p, ms.len() as int) == total_losses(ms, m, p, ms.len() as int),
{
    let n = ms.len() as int;
    let w = |a: int, b: int| won(ms, m, a, b);
    let l = |a: int, b: int| lost(ms, m, a, b);
    lemma_totals_are_tables(ms, m, p, n);
    assert forall|a: int, b: int| 0 <= a < n && 0 <= b < n implies #[trigger] l(a, b) == w(b, a) by {
        if a != b {
            lemma_pairing_symmetric(ms[a].id@, ms[b].id@);
            if a < b {
                assert(ms[a].id@ != ms[b].id@);
            } else {
                assert(ms[b].id@ != ms[a].id@);
            }
        }
    }
    lemma_table_transposed(w, n);
    lemma_table_same(l, |a: int, b: int| w(b, a), n, n);
}

/// Two tables that agree on the square before `n` have the same sum there.
proof fn lemma_table_same(f: spec_fn(int, int) -> int, g: spec_fn(int, int) -> int, r: int, n: int)
    requires
        0 <= r <= n,
        forall|a: int, b: int| 0 <= a < n && 0 <= b < n ==> #[trigger] f(a, b) == g(a, b),
    ensures
        table_sum(f, r, n) == table_sum(g, r, n),
    decreases r,
{
    if r > 0 {
        lemma_table_same(f, g, r - 1, n);
        lemma_row_same(f, g, r - 1, n, n);
    }
}

/// Two tables that agree on a row agree on its sum.
proof fn lemma_row_same(f: spec_fn(int, int) -> int, g: spec_fn(int, int) -> int, k: int, c: int, n: int)
    requires
        0 <= k < n,
        0 <= c <= n,
        forall|a: int, b: int| 0 <= a < n && 0 <= b < n ==> #[trigger] f(a, b) == g(a, b),
    ensures
        row_sum(f, k, c) == row_sum(g, k, c),
    decreases c,
{
    if c > 0 {
        lemma_row_same(f, g, k, c - 1, n);
        assert(f(k, c - 1) == g(k, c - 1));
    }
}

} // verus!
