//! Match parameters and the Redcode assembler.
use crate::redcode::{append_digits, digits, Instruction, Mode, Modifier, Opcode, Warrior};
use vstd::prelude::*;
use vstd::string::{StringExecFns, StringSliceAdditionalSpecFns};

verus! {

/// The match parameters, pMARS's -s -l -p -c -d, and what the assembler
/// shows warriors of them.
#[derive(Clone, Copy, Debug)]
pub struct Config {
    pub core_size: u32,
    pub max_length: usize,
    pub max_processes: u32,
    pub max_cycles: u32,
    pub min_distance: u32,
    pub warriors: u32,
    pub rounds: u32,
    /// pMARS checks its score formula `(W*W-1)/S` before assembling, which
    /// leaves registers W and S holding the number of warriors for the
    /// *first* warrior it assembles; later ones start with all registers 0.
    /// A warrior that reads W or S without assigning them therefore
    /// assembles differently in pMARS depending on its place on the command
    /// line. `true` assembles like the first (the default), `false` like
    /// the others.
    pub first_warrior: bool,
}

/// The standard '94 hill: the numbers pMARS uses when given no options.
pub open spec fn default_config() -> Config {
    Config {
        core_size: 8000,
        max_length: 100,
        max_processes: 8000,
        max_cycles: 80000,
        min_distance: 100,
        warriors: 2,
        rounds: 1,
        first_warrior: true,
    }
}

impl Default for Config {
    /// The standard '94 hill: the numbers pMARS uses when given no options.
    fn default() -> (r: Config)
        ensures
            r == default_config(),
    {
        Config {
            core_size: 8000,
            max_length: 100,
            max_processes: 8000,
            max_cycles: 80000,
            min_distance: 100,
            warriors: 2,
            rounds: 1,
            first_warrior: true,
        }
    }
}

/// The largest divisor of `cs` that is at most `i` (1 when there is none
/// above 1).
pub open spec fn largest_divisor_upto(cs: nat, i: nat) -> nat
    decreases i,
{
    if i <= 1 {
        1
    } else if cs % i == 0 {
        i
    } else {
        largest_divisor_upto(cs, (i - 1) as nat)
    }
}

/// pMARS's default P-space size: the core divided by its largest divisor
/// not above 16.
pub open spec fn spec_pspace_size(cs: nat) -> nat {
    cs / largest_divisor_upto(cs, 16)
}

pub proof fn lemma_largest_divisor_bounds(cs: nat, i: nat)
    ensures
        1 <= largest_divisor_upto(cs, i) <= if i >= 1 { i } else { 1 },
        largest_divisor_upto(cs, i) > 1 ==> cs % largest_divisor_upto(cs, i) == 0,
    decreases i,
{
    if i > 1 && cs % i != 0 {
        lemma_largest_divisor_bounds(cs, (i - 1) as nat);
    }
}

/// A P-space size is at least one for a core of at least one cell.
pub proof fn lemma_pspace_size_positive(cs: nat)
    requires
        cs >= 1,
    ensures
        1 <= spec_pspace_size(cs) <= cs,
{
    lemma_largest_divisor_bounds(cs, 16);
    let d = largest_divisor_upto(cs, 16);
    if d > 1 {
        assert(cs % d == 0);
        vstd::arithmetic::div_mod::lemma_fundamental_div_mod(cs as int, d as int);
        assert(cs / d >= 1) by (nonlinear_arith)
            requires cs >= 1, d > 1, cs % d == 0, cs == d * (cs / d) + cs % d;
    }
    assert(cs / d <= cs) by (nonlinear_arith)
        requires cs >= 1, d >= 1;
}

/// Why pMARS would refuse a set of parameters, if it would.
pub open spec fn config_fault(c: Config, warriors: u32) -> Option<&'static str> {
    if c.core_size == 0 || c.core_size > 65535 {
        Some("-s: the core size must be 1 to 65535")
    } else if c.max_cycles == 0 {
        Some("-c: at least one cycle")
    } else if c.max_processes == 0 {
        Some("-p: at least one process")
    } else if c.max_length == 0 || c.max_length > 1000 {
        Some("-l: the warrior length must be 1 to 1000")
    } else if (c.min_distance as int) < c.max_length as int {
        Some("-d: distance cannot be smaller than warrior length")
    } else if warriors == 0 {
        Some("the number of warriors must be at least 1")
    } else if (c.core_size as int) < warriors as int * c.min_distance as int || c.core_size < 3 {
        Some("-s: core size is too small for the distance")
    } else {
        None
    }
}

/// Parameters an engine can be built with: a core of 3 to 65535 cells and
/// room for at least one process.
pub open spec fn engine_config(c: Config) -> bool {
    &&& 3 <= c.core_size <= 65535
    &&& c.max_processes >= 1
}

/// Parameters a match can be played with: an engine's, and a distance
/// that leaves the second warrior somewhere to go.
pub open spec fn match_config(c: Config) -> bool {
    &&& engine_config(c)
    &&& 1 <= c.min_distance
    &&& 2 * c.min_distance <= c.core_size
}

/// Parameters a match can be played with: pMARS accepts them.
pub open spec fn config_ok(c: Config) -> bool {
    config_fault(c, 2) is None
}

impl Config {
    /// pMARS's default P-space size: the core divided by its largest divisor
    /// not above 16 (500 for the standard core of 8000).
    pub fn pspace_size(&self) -> (r: u32)
        ensures
            r as nat == spec_pspace_size(self.core_size as nat),
    {
        let mut i: u32 = 16;
        while i > 1 && self.core_size % i != 0
            invariant
                1 <= i <= 16,
                largest_divisor_upto(self.core_size as nat, i as nat) == largest_divisor_upto(
                    self.core_size as nat,
                    16,
                ),
            decreases i,
        {
            i -= 1;
        }
        self.core_size / i
    }

    /// pMARS's checks on the parameters for a battle of `warriors` warriors.
    pub fn check(&self, warriors: u32) -> (r: Result<(), String>)
        ensures
            r is Ok <==> config_fault(*self, warriors) is None,
            r matches Err(e) ==> config_fault(*self, warriors) matches Some(m) && e@ == m@,
    {
        proof {
            let (x, y) = (warriors as int, self.min_distance as int);
            assert(x * y <= 0xffff_ffff * 0xffff_ffff) by (nonlinear_arith)
                requires 0 <= x <= 0xffff_ffff, 0 <= y <= 0xffff_ffff;
        }
        let m = if self.core_size == 0 || self.core_size > 65535 {
            Some("-s: the core size must be 1 to 65535")
        } else if self.max_cycles == 0 {
            Some("-c: at least one cycle")
        } else if self.max_processes == 0 {
            Some("-p: at least one process")
        } else if self.max_length == 0 || self.max_length > 1000 {
            Some("-l: the warrior length must be 1 to 1000")
        } else if (self.min_distance as u64) < self.max_length as u64 {
            Some("-d: distance cannot be smaller than warrior length")
        } else if warriors == 0 {
            Some("the number of warriors must be at least 1")
        } else if (self.core_size as u64) < warriors as u64 * self.min_distance as u64
            || self.core_size < 3 {
            Some("-s: core size is too small for the distance")
        } else {
            None
        };
        match m {
            Some(s) => Err(s.to_owned()),
            None => Ok(()),
        }
    }
}


// ---------------------------------------------------------------------------
// The tokenizer (pMARS token.c).

/// The longest line pMARS holds, and the longest text it builds.
pub const MAXALLCHAR: usize = 256;
/// Labels one line may carry.
pub const GRPMAX: usize = 7;
/// Instructions a warrior may have at all.
pub const MAXINSTR: u32 = 1000;
/// The largest source the assembler reads.
pub const MAX_SOURCE_BYTES: usize = 1048576;
/// Nesting of FOR blocks and EQU substitutions the assembler follows.
pub const MAX_NESTING: u32 = 10000;
/// FOR rounds the assembler runs in all, counting those that produce
/// nothing.
pub const MAX_FOR_ROUNDS: u64 = 1000000;

/// Token classes.
#[derive(Clone, Copy, Debug, PartialEq, Eq, Structural)]
pub enum Tt {
    Blank,
    Numb,
    Char,
    Expr,
    Addr,
    Apnd,
    Comm,
    Fsep,
    Modf,
    Misc,
}

pub open spec fn spec_is_space(c: u8) -> bool {
    c == 32 || c == 9 || c == 10 || c == 11 || c == 12 || c == 13
}

pub open spec fn spec_is_digit(c: u8) -> bool {
    48 <= c <= 57
}

pub open spec fn spec_is_alpha(c: u8) -> bool {
    (65 <= c <= 90) || (97 <= c <= 122)
}

/// The byte at `i`, 0 past the end (C's terminating NUL).
pub open spec fn spec_at(b: Seq<u8>, i: int) -> u8 {
    if 0 <= i < b.len() { b[i] } else { 0 }
}

/// Whether `c` is white space as C's isspace() has it.
pub fn is_space(c: u8) -> (r: bool)
    ensures
        r == spec_is_space(c),
{
    c == 32 || c == 9 || c == 10 || c == 11 || c == 12 || c == 13
}

fn is_digit(c: u8) -> (r: bool)
    ensures
        r == spec_is_digit(c),
{
    48 <= c && c <= 57
}

fn is_alpha(c: u8) -> (r: bool)
    ensures
        r == spec_is_alpha(c),
{
    (65 <= c && c <= 90) || (97 <= c && c <= 122)
}

/// The byte at `i`, 0 past the end.
pub fn byte_at(b: &[u8], i: usize) -> (r: u8)
    ensures
        r == spec_at(b@, i as int),
{
    if i < b.len() {
        b[i]
    } else {
        0
    }
}

/// The first position from `i` on that is not white space.
pub open spec fn skip_spaces(b: Seq<u8>, i: int) -> int
    decreases b.len() - i,
{
    if i < b.len() && spec_is_space(b[i]) {
        skip_spaces(b, i + 1)
    } else {
        i
    }
}

/// The class of a token that starts with `c`, followed by `d`.
pub open spec fn token_class(c: u8, d: u8) -> Tt {
    if c == 0 {
        Tt::Blank
    } else if spec_is_digit(c) {
        Tt::Numb
    } else if spec_is_alpha(c) || c == 95 {
        Tt::Char
    } else if c == 40 || c == 41 || c == 47 || c == 43 || c == 45 || c == 37 || c == 33 || c == 61 {
        Tt::Expr
    } else if c == 35 || c == 36 || c == 64 || c == 60 || c == 62 || c == 42 || c == 123 || c == 125 {
        Tt::Addr
    } else if c == 38 {
        if d == 38 { Tt::Expr } else { Tt::Apnd }
    } else if c == 59 {
        Tt::Comm
    } else if c == 44 {
        Tt::Fsep
    } else if c == 46 {
        Tt::Modf
    } else if c == 124 && d == 124 {
        Tt::Expr
    } else {
        Tt::Misc
    }
}

/// The end of the run of digits from `k` on.
pub open spec fn digits_end(b: Seq<u8>, k: int) -> int
    decreases b.len() - k,
{
    if 0 <= k < b.len() && spec_is_digit(b[k]) { digits_end(b, k + 1) } else { k }
}

/// The end of the run of letters, digits and `_` from `k` on.
pub open spec fn word_end(b: Seq<u8>, k: int) -> int
    decreases b.len() - k,
{
    if 0 <= k < b.len() && b[k] != 0 && (spec_is_alpha(b[k]) || spec_is_digit(b[k]) || b[k] == 95) {
        word_end(b, k + 1)
    } else {
        k
    }
}

/// Where the token that starts at `s` ends: a number or a word runs on,
/// `&&` and `||` take two bytes, any other byte one.
pub open spec fn token_end(b: Seq<u8>, s: int) -> int {
    let c = spec_at(b, s);
    let d = spec_at(b, s + 1);
    if c == 0 {
        s
    } else if spec_is_digit(c) {
        digits_end(b, s)
    } else if spec_is_alpha(c) || c == 95 {
        word_end(b, s)
    } else if (c == 38 && d == 38) || (c == 124 && d == 124) {
        s + 2
    } else {
        s + 1
    }
}

/// Where the first `;` from `k` on is, or the end.
pub open spec fn semi_end(b: Seq<u8>, k: int) -> int
    decreases b.len() - k,
{
    if 0 <= k < b.len() && b[k] != 59 { semi_end(b, k + 1) } else { k }
}

/// get_token(): the next token from `i` on, after white space; its class,
/// its text and the position after it.
pub fn get_token(b: &[u8], i: usize) -> (r: (Tt, Vec<u8>, usize))
    requires
        i <= b@.len(),
    ensures
        ({
            let (tt, tok, j) = r;
            let s = skip_spaces(b@, i as int);
            &&& tt == token_class(spec_at(b@, s), spec_at(b@, s + 1))
            &&& tt == Tt::Blank ==> tok@.len() == 0 && j == s
            &&& tt != Tt::Blank ==> s < j <= b@.len() && tok@ == b@.subrange(s, j as int)
            &&& i <= j <= b@.len()
            &&& tok@.len() <= b@.len()
            &&& tt != Tt::Blank ==> i < j
            &&& j == token_end(b@, s)
        }),
{
    let mut src = i;
    while src < b.len() && is_space(b[src])
        invariant
            i <= src <= b@.len(),
            skip_spaces(b@, i as int) == skip_spaces(b@, src as int),
        decreases b@.len() - src,
    {
        src += 1;
    }
    let start = src;
    let mut tok: Vec<u8> = Vec::new();
    let ch = byte_at(b, src);
    let tt;
    if ch == 0 {
        tt = Tt::Blank;
    } else if is_digit(ch) {
        while src < b.len() && is_digit(b[src])
            invariant
                start <= src <= b@.len(),
                start < b@.len(),
                tok@ == b@.subrange(start as int, src as int),
                digits_end(b@, start as int) == digits_end(b@, src as int),
            decreases b@.len() - src,
        {
            tok.push(b[src]);
            src += 1;
        }
        tt = Tt::Numb;
    } else if is_alpha(ch) || ch == 95 {
        while src < b.len() && b[src] != 0 && (is_alpha(b[src]) || is_digit(b[src]) || b[src] == 95)
            invariant
                start <= src <= b@.len(),
                start < b@.len(),
                tok@ == b@.subrange(start as int, src as int),
                word_end(b@, start as int) == word_end(b@, src as int),
            decreases b@.len() - src,
        {
            tok.push(b[src]);
            src += 1;
        }
        tt = Tt::Char;
    } else {
        let d = byte_at(b, src + 1);
        if ch == 40 || ch == 41 || ch == 47 || ch == 43 || ch == 45 || ch == 37 || ch == 33 || ch == 61 {
            tt = Tt::Expr;
        } else if ch == 35 || ch == 36 || ch == 64 || ch == 60 || ch == 62 || ch == 42 || ch == 123 || ch == 125 {
            tt = Tt::Addr;
        } else if ch == 38 {
            if d == 38 {
                tok.push(b[src]);
                src += 1;
                tt = Tt::Expr;
            } else {
                tt = Tt::Apnd;
            }
        } else if ch == 59 {
            tt = Tt::Comm;
        } else if ch == 44 {
            tt = Tt::Fsep;
        } else if ch == 46 {
            tt = Tt::Modf;
        } else if ch == 124 && d == 124 {
            tok.push(b[src]);
            src += 1;
            tt = Tt::Expr;
        } else {
            tt = Tt::Misc;
        }
        tok.push(b[src]);
        src += 1;
        assert(tok@ =~= b@.subrange(start as int, src as int));
    }
    (tt, tok, src)
}

// ---------------------------------------------------------------------------
// The expression evaluator (pMARS eval.c), quirks included: operators are
// encoded as in C (EQUAL is 0, the same value as "no saved operator"),
// unary minus binds to the next value only, and a..z are registers that
// `=` assigns.

pub const EQUAL: u8 = 0;
pub const NEQU: u8 = 1;
pub const GTE: u8 = 2;
pub const LTE: u8 = 3;
pub const AND: u8 = 4;
pub const OR: u8 = 5;
pub const IDENT: u8 = 6;

pub const OK_EXPR: i32 = 0;
pub const OVERFLOW: i32 = 1;
pub const BAD_EXPR: i32 = -1;
pub const DIV_ZERO: i32 = -2;

/// The precedence of an operator.
pub open spec fn spec_precedence(op: u8) -> i32 {
    if op == 42 || op == 47 || op == 37 {
        5
    } else if op == 43 || op == 45 {
        4
    } else if op == 62 || op == 60 || op == EQUAL || op == NEQU || op == GTE || op == LTE {
        3
    } else if op == AND {
        2
    } else if op == OR {
        1
    } else {
        0
    }
}

pub fn precedence(op: u8) -> (r: i32)
    ensures
        r == spec_precedence(op),
{
    if op == 42 || op == 47 || op == 37 {
        5
    } else if op == 43 || op == 45 {
        4
    } else if op == 62 || op == 60 || op == EQUAL || op == NEQU || op == GTE || op == LTE {
        3
    } else if op == AND {
        2
    } else if op == OR {
        1
    } else {
        0
    }
}

/// A number as C's long keeps it: the integer folded into 64 bits.
pub open spec fn wrap64(v: int) -> i64 {
    v as i64
}

/// Whether a result falls outside a 64-bit signed number.
pub open spec fn out_of_i64(v: int) -> bool {
    v < i64::MIN || v > i64::MAX
}

pub open spec fn abs_int(x: int) -> int {
    if x < 0 { -x } else { x }
}

/// Division rounding toward zero, as C's and Rust's `/`.
pub open spec fn tdiv(x: int, y: int) -> int {
    let q = abs_int(x) / abs_int(y);
    if (x < 0) != (y < 0) { -q } else { q }
}

/// The remainder of `tdiv`: the sign of `x`.
pub open spec fn trem(x: int, y: int) -> int {
    let r = abs_int(x) % abs_int(y);
    if x < 0 { -r } else { r }
}

/// Whether pMARS reports `x op y` as an overflow: exactly for `+`; for
/// `-` it misses `0 - MIN`; for `*` it does not look when a factor is 0
/// or -1.
pub open spec fn overflows(x: int, y: int, op: u8) -> bool {
    if op == 43 {
        out_of_i64(x + y)
    } else if op == 45 {
        (x > 0 && y < 0 && x - y > i64::MAX) || (x <= 0 && y > 0 && x - y < i64::MIN)
    } else if op == 42 {
        x != 0 && y != 0 && x != -1 && y != -1 && out_of_i64(x * y)
    } else {
        false
    }
}

/// The value of `x op y` and the status it leaves, from the status
/// before: arithmetic wraps at 64 bits and an overflow is reported if no
/// error came before; division by zero gives 0; an unknown operator is a
/// bad expression.
pub open spec fn spec_calc(x: i64, y: i64, op: u8, err: i32) -> (i64, i32) {
    let e = if err == OK_EXPR && overflows(x as int, y as int, op) { OVERFLOW } else { err };
    if op == 43 {
        (wrap64(x + y), e)
    } else if op == 45 {
        (wrap64(x - y), e)
    } else if op == 47 {
        if y == 0 { (0, DIV_ZERO) } else { (wrap64(tdiv(x as int, y as int)), err) }
    } else if op == 42 {
        (wrap64(x * y), e)
    } else if op == 37 {
        if y == 0 { (0, DIV_ZERO) } else { (wrap64(trem(x as int, y as int)), err) }
    } else if op == AND {
        (if x != 0 && y != 0 { 1 } else { 0 }, err)
    } else if op == OR {
        (if x != 0 || y != 0 { 1 } else { 0 }, err)
    } else if op == EQUAL {
        (if x == y { 1 } else { 0 }, err)
    } else if op == NEQU {
        (if x != y { 1 } else { 0 }, err)
    } else if op == 60 {
        (if x < y { 1 } else { 0 }, err)
    } else if op == 62 {
        (if x > y { 1 } else { 0 }, err)
    } else if op == LTE {
        (if x <= y { 1 } else { 0 }, err)
    } else if op == GTE {
        (if x >= y { 1 } else { 0 }, err)
    } else if op == IDENT {
        (y, err)
    } else {
        (0, BAD_EXPR)
    }
}

/// The comparisons and logical operators give 1 for true and 0 for false,
/// as integer order and truth say, and leave the status as it was: `x<y`,
/// `x>y`, `x<=y`, `x>=y`, `x==y`, `x!=y`, `x&&y`, `x||y`; `>=` is the
/// negation of `<` and `<=` that of `>`, `>` is `<` with its operands
/// swapped, and `!=` is the negation of `==`.
pub proof fn lemma_comparisons(x: i64, y: i64, err: i32)
    ensures
        spec_calc(x, y, 60, err) == (if x < y { 1i64 } else { 0i64 }, err),
        spec_calc(x, y, 62, err) == (if x > y { 1i64 } else { 0i64 }, err),
        spec_calc(x, y, LTE, err) == (if x <= y { 1i64 } else { 0i64 }, err),
        spec_calc(x, y, GTE, err) == (if x >= y { 1i64 } else { 0i64 }, err),
        spec_calc(x, y, EQUAL, err) == (if x == y { 1i64 } else { 0i64 }, err),
        spec_calc(x, y, NEQU, err) == (if x != y { 1i64 } else { 0i64 }, err),
        spec_calc(x, y, AND, err) == (if x != 0 && y != 0 { 1i64 } else { 0i64 }, err),
        spec_calc(x, y, OR, err) == (if x != 0 || y != 0 { 1i64 } else { 0i64 }, err),
        spec_calc(x, y, GTE, err).0 == 1 - spec_calc(x, y, 60, err).0,
        spec_calc(x, y, LTE, err).0 == 1 - spec_calc(x, y, 62, err).0,
        spec_calc(x, y, 62, err).0 == spec_calc(y, x, 60, err).0,
        spec_calc(x, y, NEQU, err).0 == 1 - spec_calc(x, y, EQUAL, err).0,
{
}

/// Addition, subtraction and multiplication give the 64-bit wrapped result
/// of the integer operation, and report an overflow (when no error came
/// before) exactly when that result leaves the 64-bit range, but for the
/// cases pMARS does not look at: `0 - MIN`, and a factor of 0 or -1.
pub proof fn lemma_arithmetic_operators(x: i64, y: i64)
    ensures
        spec_calc(x, y, 43, OK_EXPR).0 as int == (x + y) as i64 as int,
        spec_calc(x, y, 45, OK_EXPR).0 as int == (x - y) as i64 as int,
        spec_calc(x, y, 42, OK_EXPR).0 as int == (x * y) as i64 as int,
        (spec_calc(x, y, 43, OK_EXPR).1 == OVERFLOW) == (x + y < i64::MIN || x + y > i64::MAX),
        !(x == 0 && y == i64::MIN) ==> (spec_calc(x, y, 45, OK_EXPR).1 == OVERFLOW) == (x - y < i64::MIN || x - y > i64::MAX),
        x != 0 && x != -1 && y != 0 && y != -1 ==> (spec_calc(x, y, 42, OK_EXPR).1 == OVERFLOW) == (x * y < i64::MIN || x * y > i64::MAX),
        y != 0 ==> spec_calc(x, y, 47, OK_EXPR).1 == OK_EXPR && spec_calc(x, y, 37, OK_EXPR).1 == OK_EXPR,
        spec_calc(x, 0, 47, OK_EXPR) == (0i64, DIV_ZERO) && spec_calc(x, 0, 37, OK_EXPR) == (0i64, DIV_ZERO),
{
}

/// Division and remainder: a zero divisor is an error; otherwise `/`
/// rounds toward zero and `%` keeps the sign of the dividend, so that the
/// divisor times the quotient plus the remainder is the dividend and the
/// remainder is smaller than the divisor, in size (the one quotient that
/// leaves 64 bits, `MIN / -1`, aside).
pub proof fn lemma_division_operators(x: i64, y: i64, err: i32)
    requires
        y != 0,
        !(x == i64::MIN && y == -1),
    ensures
        spec_calc(x, y, 47, err).1 == err,
        spec_calc(x, y, 37, err).1 == err,
        y * spec_calc(x, y, 47, err).0 + spec_calc(x, y, 37, err).0 == x,
        abs_int(spec_calc(x, y, 37, err).0 as int) < abs_int(y as int),
        spec_calc(x, y, 37, err).0 == 0 || (spec_calc(x, y, 37, err).0 < 0) == (x < 0),
        abs_int(y * spec_calc(x, y, 47, err).0) <= abs_int(x as int),
{
    let ax = abs_int(x as int);
    let ay = abs_int(y as int);
    vstd::arithmetic::div_mod::lemma_fundamental_div_mod(ax, ay);
    vstd::arithmetic::div_mod::lemma_mod_pos_bound(ax, ay);
    vstd::arithmetic::div_mod::lemma_div_pos_is_pos(ax, ay);
    let q = ax / ay;
    let r = ax % ay;
    assert(ay * q <= ax) by (nonlinear_arith) requires ax == ay * q + r, 0 <= r;
    assert(q <= ax) by (nonlinear_arith) requires ay * q <= ax, ay >= 1, q >= 0;
    if ax == 0x8000_0000_0000_0000 && q == ax {
        assert(ay == 1) by (nonlinear_arith) requires ay * q <= ax, q == ax, ax > 0, ay >= 1;
    }
    let tq = tdiv(x as int, y as int);
    let tr = trem(x as int, y as int);
    assert(i64::MIN <= tq <= i64::MAX);
    assert(i64::MIN <= tr <= i64::MAX);
    assert(y * tq + tr == x) by (nonlinear_arith)
        requires
            ax == ay * q + r,
            ax == abs_int(x as int),
            ay == abs_int(y as int),
            tq == (if (x < 0) != (y < 0) { -q } else { q }),
            tr == (if x < 0 { -r } else { r }),
    ;
    assert(abs_int(y * tq) <= ax) by (nonlinear_arith)
        requires
            ay * q <= ax,
            q >= 0,
            ay == abs_int(y as int),
            tq == (if (x < 0) != (y < 0) { -q } else { q }),
    ;
}

/// A status the evaluator reports.
pub open spec fn status_ok(e: i32) -> bool {
    e == OK_EXPR || e == OVERFLOW || e == BAD_EXPR || e == DIV_ZERO
}

/// The value of a string of decimal digits.
pub open spec fn digits_value(d: Seq<u8>) -> int
    decreases d.len(),
{
    if d.len() == 0 {
        0
    } else {
        digits_value(d.drop_last()) * 10 + (d.last() - 48)
    }
}

/// What an evaluation carries from one step to the next: the registers
/// `a`..`z`, an operator left over for the caller, and the status.
pub struct EvalState {
    pub regs: Seq<i64>,
    pub save_oper: u8,
    pub err: i32,
}

/// The operator at `i` and the position after it; `None` where pMARS
/// leaves the operator unset (`&`, `|`, `=`, `!` alone).
pub open spec fn op_at(s: Seq<u8>, i: int) -> (int, Option<u8>) {
    let ch = spec_at(s, i);
    let i1 = i + 1;
    let n = spec_at(s, i1);
    let two = if i1 < s.len() { i1 + 1 } else { i1 };
    if ch == 38 {
        (two, if n == 38 { Some(AND) } else { None })
    } else if ch == 124 {
        (two, if n == 124 { Some(OR) } else { None })
    } else if ch == 61 {
        (two, if n == 61 { Some(EQUAL) } else { None })
    } else if ch == 33 {
        (two, if n == 61 { Some(NEQU) } else { None })
    } else if ch == 60 {
        if n == 61 { (two, Some(LTE)) } else { (i1, Some(60u8)) }
    } else if ch == 62 {
        if n == 61 { (two, Some(GTE)) } else { (i1, Some(62u8)) }
    } else {
        (i1, Some(ch))
    }
}

/// Where the run of decimal digits from `i` ends.
pub open spec fn digit_end(s: Seq<u8>, i: int) -> int
    decreases s.len() - i,
{
    if 0 <= i < s.len() && spec_is_digit(s[i]) { digit_end(s, i + 1) } else { i }
}

/// The state with another status.
pub open spec fn with_err(st: EvalState, err: i32) -> EvalState {
    EvalState { err, ..st }
}

/// A value at `i`: a parenthesized expression, a unary `-`, `!` or `+`, a
/// register (assigned with `=`), or a number; the position after it, the
/// value and the state after.
pub open spec fn value_at(s: Seq<u8>, i0: int, st: EvalState) -> (int, i64, EvalState)
    decreases s.len() - i0, 0nat,
{
    let i = skip_spaces(s, i0);
    if !(0 <= i0 <= i <= s.len()) {
        (i0, 0, st)
    } else {
        let c = spec_at(s, i);
        if i < s.len() && c == 40 {
            let (j, v, st1) = eval_at(s, -1i32, 0, IDENT, i + 1, st);
            (if j < s.len() { j + 1 } else { j }, v, if spec_at(s, j) != 41 { with_err(st1, BAD_EXPR) } else { st1 })
        } else if i < s.len() && c == 45 {
            let (j, v, st1) = value_at(s, i + 1, st);
            (j, wrap64(-v), st1)
        } else if i < s.len() && c == 33 {
            let (j, v, st1) = value_at(s, i + 1, st);
            (j, if v == 0 { 1 } else { 0 }, st1)
        } else if i < s.len() && c == 43 {
            value_at(s, i + 1, st)
        } else {
            let up = if 97 <= c <= 122 { (c - 32) as u8 } else { c };
            if i < s.len() && 65 <= up <= 90 {
                register_at(s, i + 1, up - 65, st)
            } else {
                let j = digit_end(s, i);
                let d = digits_value(s.subrange(i, j));
                if j == i {
                    (i, 0, with_err(st, BAD_EXPR))
                } else if d > i64::MAX {
                    (j, 0, with_err(st, BAD_EXPR))
                } else {
                    (j, d as i64, st)
                }
            }
        }
    }
}

/// A register at `i0`, and its assignment with `=` (not `==`).
pub open spec fn register_at(s: Seq<u8>, i0: int, reg: int, st: EvalState) -> (int, i64, EvalState)
    decreases s.len() - i0, 0nat,
{
    let i = skip_spaces(s, i0);
    if !(0 <= i0 <= i <= s.len()) {
        (i0, 0, st)
    } else if i < s.len() && spec_at(s, i) == 61 && spec_at(s, i + 1) != 61 {
        let (j, v, st1) = eval_at(s, -1i32, 0, IDENT, i + 1, st);
        (j, v, EvalState { regs: st1.regs.update(reg, v), ..st1 })
    } else {
        (i, st.regs[reg], st)
    }
}

/// The rest of an expression from `i0`, `val1 oper1` before it, inside
/// an operator of precedence `prev`: pMARS's eval().
pub open spec fn eval_at(s: Seq<u8>, prev: i32, val1: i64, oper1: u8, i0: int, st: EvalState) -> (int, i64, EvalState)
    decreases s.len() - i0, 1nat,
{
    if !(0 <= i0 <= s.len()) {
        (i0, 0, st)
    } else {
        let (i1, val2, st1) = value_at(s, i0, st);
        let i2 = skip_spaces(s, i1);
        if !(i0 <= i1 <= i2 <= s.len()) {
            (i1, 0, st1)
        } else {
            let c = spec_at(s, i2);
            if c == 41 || c == 0 {
                let (v, e) = spec_calc(val1, val2, oper1, st1.err);
                (i2, v, with_err(st1, e))
            } else {
                let (i3, op) = op_at(s, i2);
                match op {
                    None => (s.len() as int, 0, with_err(st1, BAD_EXPR)),
                    Some(oper2) => {
                        let st2 = EvalState { save_oper: 0, ..st1 };
                        let prec1 = spec_precedence(oper1);
                        let prec2 = spec_precedence(oper2);
                        if prec1 >= prec2 {
                            let (v, e) = spec_calc(val1, val2, oper1, st2.err);
                            if prec2 >= prev || prec1 <= prev {
                                eval_at(s, prec1, v, oper2, i3, with_err(st2, e))
                            } else {
                                (i3, v, EvalState { save_oper: oper2, err: e, ..st2 })
                            }
                        } else {
                            let (i4, r2, st3) = eval_at(s, prec1, val2, oper2, i3, st2);
                            let (r, e) = spec_calc(val1, r2, oper1, st3.err);
                            let st4 = with_err(st3, e);
                            let so = st4.save_oper;
                            if so != 0 && spec_precedence(so) >= prev && i3 <= i4 <= s.len() {
                                let (j, v, st5) = eval_at(s, prec2, r, so, i4, st4);
                                (j, v, EvalState { save_oper: 0, ..st5 })
                            } else {
                                (i4, r, st4)
                            }
                        }
                    },
                }
            }
        }
    }
}

/// What eval_expr() gives for `expr` from these registers: the status,
/// the value, the registers and the leftover operator after.
pub open spec fn expr_result(expr: Seq<u8>, regs: Seq<i64>, save_oper: u8) -> (i32, i64, Seq<i64>, u8) {
    let (i, v, st) = eval_at(expr, -1i32, 0, IDENT, 0, EvalState { regs, save_oper, err: OK_EXPR });
    (if spec_at(expr, i) != 0 { BAD_EXPR } else { st.err }, v, st.regs, st.save_oper)
}

/// The registers and state of one evaluation (eval.c's globals).
struct Eval {
    regs: [i64; 26],
    save_oper: u8,
    err: i32,
}

/// What an evaluation carries, of the evaluator's globals.
spec fn state_of(e: Eval) -> EvalState {
    EvalState { regs: e.regs@, save_oper: e.save_oper, err: e.err }
}

impl Eval {
    fn c(s: &[u8], i: usize) -> (r: u8)
        ensures
            r == spec_at(s@, i as int),
    {
        byte_at(s, i)
    }

    fn skip(s: &[u8], i: usize) -> (r: usize)
        requires
            i <= s@.len(),
        ensures
            i <= r <= s@.len(),
            r == skip_spaces(s@, i as int),
    {
        let i0 = i;
        let mut i = i;
        while i < s.len() && is_space(s[i])
            invariant
                i0 <= i <= s@.len(),
                forall|k: int| i0 <= k < i ==> spec_is_space(#[trigger] s@[k]),
            decreases s@.len() - i,
        {
            i += 1;
        }
        proof {
            lemma_skip_spaces_from(s@, i0 as int, i as int);
        }
        i
    }

    /// `x op y`, as pMARS computes it.
    fn calc(&mut self, x: i64, y: i64, op: u8) -> (r: i64)
        requires
            status_ok(old(self).err),
        ensures
            (r, final(self).err) == spec_calc(x, y, op, old(self).err),
            final(self).regs == old(self).regs,
            final(self).save_oper == old(self).save_oper,
            status_ok(final(self).err),
    {
        let xi = x as i128;
        let yi = y as i128;
        if op == 43 || op == 45 || op == 42 {
            let v: i128 = if op == 43 {
                xi + yi
            } else if op == 45 {
                xi - yi
            } else {
                assert(-0x8000_0000_0000_0000 * 0x8000_0000_0000_0000 <= xi * yi <= 0x8000_0000_0000_0000 * 0x8000_0000_0000_0000)
                    by (nonlinear_arith)
                    requires -0x8000_0000_0000_0000 <= xi <= 0x7fff_ffff_ffff_ffff, -0x8000_0000_0000_0000 <= yi <= 0x7fff_ffff_ffff_ffff;
                xi * yi
            };
            let out = v < -0x8000_0000_0000_0000i128 || v > 0x7fff_ffff_ffff_ffffi128;
            let flagged = if op == 43 {
                out
            } else if op == 45 {
                (x > 0 && y < 0 && out) || (x <= 0 && y > 0 && out)
            } else {
                x != 0 && y != 0 && x != -1 && y != -1 && out
            };
            if self.err == OK_EXPR && flagged {
                self.err = OVERFLOW;
            }
            v as i64
        } else if op == 47 || op == 37 {
            if y == 0 {
                self.err = DIV_ZERO;
                0
            } else {
                let ax: i128 = if xi < 0 { -xi } else { xi };
                let ay: i128 = if yi < 0 { -yi } else { yi };
                if op == 47 {
                    let q = ax / ay;
                    let v: i128 = if (xi < 0) != (yi < 0) { -q } else { q };
                    v as i64
                } else {
                    let m = ax % ay;
                    let v: i128 = if xi < 0 { -m } else { m };
                    v as i64
                }
            }
        } else if op == AND {
            if x != 0 && y != 0 { 1 } else { 0 }
        } else if op == OR {
            if x != 0 || y != 0 { 1 } else { 0 }
        } else if op == EQUAL {
            if x == y { 1 } else { 0 }
        } else if op == NEQU {
            if x != y { 1 } else { 0 }
        } else if op == 60 {
            if x < y { 1 } else { 0 }
        } else if op == 62 {
            if x > y { 1 } else { 0 }
        } else if op == LTE {
            if x <= y { 1 } else { 0 }
        } else if op == GTE {
            if x >= y { 1 } else { 0 }
        } else if op == IDENT {
            y
        } else {
            self.err = BAD_EXPR;
            0
        }
    }

    /// getop(): the operator at `i` and the position after it; `None`
    /// where pMARS leaves the operator unset (`&`, `|`, `=`, `!` alone).
    fn getop(s: &[u8], i: usize) -> (r: (usize, Option<u8>))
        requires
            i < s@.len(),
        ensures
            i < r.0 <= s@.len(),
            (r.0 as int, r.1) == op_at(s@, i as int),
    {
        let len = s.len();
        let ch = Self::c(s, i);
        let i = i + 1;
        let n = Self::c(s, i);
        let two = if i < s.len() { i + 1 } else { i };
        if ch == 38 {
            (two, if n == 38 { Some(AND) } else { None })
        } else if ch == 124 {
            (two, if n == 124 { Some(OR) } else { None })
        } else if ch == 61 {
            (two, if n == 61 { Some(EQUAL) } else { None })
        } else if ch == 33 {
            (two, if n == 61 { Some(NEQU) } else { None })
        } else if ch == 60 {
            if n == 61 { (two, Some(LTE)) } else { (i, Some(60u8)) }
        } else if ch == 62 {
            if n == 61 { (two, Some(GTE)) } else { (i, Some(62u8)) }
        } else {
            (i, Some(ch))
        }
    }

    /// A register, and its assignment with `=` (not `==`).
    fn getreg(&mut self, s: &[u8], i: usize, reg: usize) -> (r: (usize, i64))
        requires
            i <= s@.len(),
            reg < 26,
            status_ok(old(self).err),
        ensures
            i <= r.0 <= s@.len(),
            status_ok(final(self).err),
            (r.0 as int, r.1, state_of(*final(self))) == register_at(s@, i as int, reg as int, state_of(*old(self))),
        decreases s@.len() - i, 0nat,
    {
        let len = s.len();
        let i = Self::skip(s, i);
        if i < len && Self::c(s, i) == 61 && Self::c(s, i + 1) != 61 {
            let (j, v) = self.eval(s, -1, 0, IDENT, i + 1);
            self.regs[reg] = v;
            (j, v)
        } else {
            (i, self.regs[reg])
        }
    }

    /// A value: a parenthesized expression, a unary `-`, `!` or `+`, a
    /// register, or a number.
    fn getval(&mut self, s: &[u8], i: usize) -> (r: (usize, i64))
        requires
            i <= s@.len(),
            status_ok(old(self).err),
        ensures
            i <= r.0 <= s@.len(),
            status_ok(final(self).err),
            (r.0 as int, r.1, state_of(*final(self))) == value_at(s@, i as int, state_of(*old(self))),
        decreases s@.len() - i, 0nat,
    {
        let len = s.len();
        let i = Self::skip(s, i);
        let c = Self::c(s, i);
        if i < len && c == 40 {
            let (j, v) = self.eval(s, -1, 0, IDENT, i + 1);
            if Self::c(s, j) != 41 {
                self.err = BAD_EXPR;
            }
            return (if j < s.len() { j + 1 } else { j }, v);
        }
        if i < len && c == 45 {
            let (j, v) = self.getval(s, i + 1);
            return (j, #[verifier::truncate] ((0i128 - v as i128) as i64));
        }
        if i < len && c == 33 {
            let (j, v) = self.getval(s, i + 1);
            return (j, if v == 0 { 1 } else { 0 });
        }
        if i < len && c == 43 {
            return self.getval(s, i + 1);
        }
        let up = if 97 <= c && c <= 122 { c - 32 } else { c };
        if i < len && 65 <= up && up <= 90 {
            return self.getreg(s, i + 1, (up - 65) as usize);
        }
        let st = i;
        let mut i = i;
        let mut v: i64 = 0;
        let mut fits = true;
        while i < s.len() && is_digit(s[i])
            invariant
                st <= i <= s@.len(),
                forall|k: int| st <= k < i ==> spec_is_digit(#[trigger] s@[k]),
                fits ==> v as int == digits_value(s@.subrange(st as int, i as int)),
                fits ==> v >= 0,
                !fits ==> digits_value(s@.subrange(st as int, i as int)) > i64::MAX,
                digit_end(s@, st as int) == digit_end(s@, i as int),
            decreases s@.len() - i,
        {
            let d = (s[i] - 48) as i64;
            proof {
                let nd = s@.subrange(st as int, i + 1);
                assert(nd.drop_last() =~= s@.subrange(st as int, i as int));
                assert forall|k: int| 0 <= k < nd.len() implies spec_is_digit(#[trigger] nd[k]) by {
                    assert(nd[k] == s@[st + k]);
                }
                lemma_digits_value_grows(nd);
            }
            if fits && v <= (0x7fff_ffff_ffff_ffffi64 - d) / 10 {
                v = v * 10 + d;
            } else {
                fits = false;
            }
            i += 1;
        }
        if i == st {
            self.err = BAD_EXPR;
            return (i, 0);
        }
        if !fits {
            self.err = BAD_EXPR;
            v = 0;
        }
        (i, v)
    }

    /// eval(): the value of the expression from `i` on, pMARS's way.
    fn eval(&mut self, s: &[u8], prev_prec: i32, val1: i64, oper1: u8, i: usize) -> (r: (usize, i64))
        requires
            i <= s@.len(),
            status_ok(old(self).err),
        ensures
            i <= r.0 <= s@.len(),
            status_ok(final(self).err),
            (r.0 as int, r.1, state_of(*final(self))) == eval_at(s@, prev_prec, val1, oper1, i as int, state_of(*old(self))),
        decreases s@.len() - i, 1nat,
    {
        let (i, val2) = self.getval(s, i);
        let i = Self::skip(s, i);
        let c = Self::c(s, i);
        if c == 41 || c == 0 {
            let v = self.calc(val1, val2, oper1);
            return (i, v);
        }
        let (i, oper2) = Self::getop(s, i);
        let oper2 = match oper2 {
            Some(o) => o,
            None => {
                self.err = BAD_EXPR;
                return (s.len(), 0);
            },
        };
        self.save_oper = 0;
        let prec1 = precedence(oper1);
        let prec2 = precedence(oper2);
        if prec1 >= prec2 {
            if prec2 >= prev_prec || prec1 <= prev_prec {
                let v = self.calc(val1, val2, oper1);
                self.eval(s, prec1, v, oper2, i)
            } else {
                let r = self.calc(val1, val2, oper1);
                self.save_oper = oper2;
                (i, r)
            }
        } else {
            let (i, r2) = self.eval(s, prec1, val2, oper2, i);
            let mut r = self.calc(val1, r2, oper1);
            let mut i = i;
            let so = self.save_oper;
            if so != 0 && precedence(so) >= prev_prec {
                let (j, v) = self.eval(s, prec2, r, so, i);
                i = j;
                r = v;
                self.save_oper = 0;
            }
            (i, r)
        }
    }
}

/// Skipping white space from a later position of the same run reaches the
/// same place.
proof fn lemma_skip_spaces_from(b: Seq<u8>, i: int, j: int)
    requires
        0 <= i <= j <= b.len(),
        forall|k: int| i <= k < j ==> spec_is_space(#[trigger] b[k]),
    ensures
        skip_spaces(b, i) == skip_spaces(b, j),
    decreases j - i,
{
    if i < j {
        lemma_skip_spaces_from(b, i + 1, j);
    }
}

/// A longer string of digits is worth at least as much.
proof fn lemma_digits_value_grows(d: Seq<u8>)
    requires
        d.len() > 0,
        forall|k: int| 0 <= k < d.len() ==> spec_is_digit(#[trigger] d[k]),
    ensures
        digits_value(d) >= digits_value(d.drop_last()),
        digits_value(d.drop_last()) >= 0,
    decreases d.len(),
{
    if d.len() > 1 {
        let p = d.drop_last();
        assert forall|k: int| 0 <= k < p.len() implies spec_is_digit(#[trigger] p[k]) by {
            assert(p[k] == d[k]);
        }
        lemma_digits_value_grows(p);
    }
}

/// eval_expr(): the status (OK_EXPR, OVERFLOW, a warning, BAD_EXPR or
/// DIV_ZERO) and the value of an expression, with pMARS's registers
/// `a`..`z`, which `=` assigns.
fn eval_bytes(expr: &[u8], regs: &mut [i64; 26], save_oper: &mut u8) -> (r: (i32, i64))
    ensures
        status_ok(r.0),
        ({
            let x = expr_result(expr@, old(regs)@, *old(save_oper));
            &&& r == (x.0, x.1)
            &&& final(regs)@ == x.2
            &&& *final(save_oper) == x.3
        }),
{
    let mut e = Eval { regs: *regs, save_oper: *save_oper, err: OK_EXPR };
    let (i, v) = e.eval(expr, -1, 0, IDENT, 0);
    if byte_at(expr, i) != 0 {
        e.err = BAD_EXPR;
    }
    *regs = e.regs;
    *save_oper = e.save_oper;
    (e.err, v)
}

/// eval_expr() on an expression's text: its status and value, the
/// registers it leaves.
pub fn eval_expr(expr: &str, regs: &mut [i64; 26], save_oper: &mut u8) -> (r: (i32, i64))
    ensures
        status_ok(r.0),
        ({
            let x = expr_result(expr.spec_bytes(), old(regs)@, *old(save_oper));
            &&& r == (x.0, x.1)
            &&& final(regs)@ == x.2
            &&& *final(save_oper) == x.3
        }),
{
    eval_bytes(expr.as_bytes(), regs, save_oper)
}


// ---------------------------------------------------------------------------
// The assembler proper (pMARS asm.c).

/// One message from the assembler. `line` is the source line (1-based),
/// 0 when the message is about the whole warrior.
#[derive(Debug, Clone, PartialEq, Eq)]
pub struct AsmError {
    pub line: usize,
    pub msg: String,
    pub warning: bool,
}

/// How a message from the assembler reads: `error: ...` or
/// `line N: warning: ...`.
pub open spec fn message_text(e: AsmError) -> Seq<char> {
    let kind = if e.warning { "warning"@ } else { "error"@ };
    if e.line == 0 {
        kind + ": "@ + e.msg@
    } else {
        "line "@ + digits(e.line as nat) + ": "@ + kind + ": "@ + e.msg@
    }
}

impl AsmError {
    /// The message as the program prints it.
    pub fn describe(&self) -> (s: String)
        ensures
            s@ == message_text(*self),
    {
        let mut s = String::new();
        if self.line != 0 {
            s.append("line ");
            append_digits(&mut s, self.line as u64);
            s.append(": ");
        }
        s.append(if self.warning { "warning" } else { "error" });
        s.append(": ");
        s.append(self.msg.as_str());
        proof {
            if self.line == 0 {
                assert(s@ =~= message_text(*self));
            } else {
                assert(s@ =~= message_text(*self));
            }
        }
        s
    }
}

/// A successful assembly and the warnings it produced.
#[derive(Debug, Clone)]
pub struct Assembly {
    pub warrior: Warrior,
    pub warnings: Vec<AsmError>,
}

/// The kinds of message, each an error or a warning as pMARS has it.
#[derive(Clone, Copy, Debug, PartialEq, Eq, Structural)]
pub enum E {
    Buf,
    Tok,
    Syn,
    Snf,
    Nop,
    Evl,
    Exp,
    Rec,
    Ann,
    Lin,
    App,
    Zln,
    Idn,
    Rof,
    For,
    Grp,
    Chk,
    Nas,
    Bas,
    Exx,
    Cat,
    Dlb,
    Ofs,
    Doe,
    Div,
    Ofl,
    Misc,
    Deep,
    Big,
    Src,
}

/// Whether a kind of message is only a warning.
pub open spec fn is_warning(e: E) -> bool {
    e == E::Ann || e == E::Rof || e == E::Zln || e == E::Dlb || e == E::Ofl || e == E::Nas
        || e == E::Ofs || e == E::Doe || e == E::Bas || e == E::Idn
}

/// The text of a kind of message.
pub open spec fn error_text(e: E) -> &'static str {
    match e {
        E::Buf => "line too long",
        E::Tok => "unexpected token",
        E::Syn => "missing operand",
        E::Snf => "unknown symbol",
        E::Nop => "this instruction needs two operands",
        E::Evl => "bad expression",
        E::Exp => "expected an opcode or modifier",
        E::Rec => "recursive EQU",
        E::Ann => "EQU without a name",
        E::Lin => "too many instructions",
        E::App => "not allowed here",
        E::Zln => "no instructions",
        E::Idn => "label defined twice; the line is dropped",
        E::Rof => "FOR without ROF",
        E::For => "ROF without FOR",
        E::Grp => "too many labels on one line",
        E::Chk => "assertion failed",
        E::Nas => "missing ;assert",
        E::Bas => "bad ;assert expression",
        E::Exx => "program too long",
        E::Cat => "& needs a FOR counter",
        E::Dlb => "labels with no instruction after them are dropped",
        E::Ofs => "start is outside the program",
        E::Doe => "END start ignored: ORG already set it",
        E::Div => "division by zero",
        E::Ofl => "arithmetic overflow",
        E::Misc => "CURLINE cannot be a label",
        E::Deep => "nesting too deep",
        E::Big => "too much FOR expansion",
        E::Src => "source too large",
    }
}

impl E {
    pub fn warning(self) -> (r: bool)
        ensures
            r == is_warning(self),
    {
        match self {
            E::Ann | E::Rof | E::Zln | E::Dlb | E::Ofl | E::Nas | E::Ofs | E::Doe | E::Bas | E::Idn => true,
            _ => false,
        }
    }

    pub fn text(self) -> (r: &'static str)
        ensures
            r == error_text(self),
    {
        match self {
            E::Buf => "line too long",
            E::Tok => "unexpected token",
            E::Syn => "missing operand",
            E::Snf => "unknown symbol",
            E::Nop => "this instruction needs two operands",
            E::Evl => "bad expression",
            E::Exp => "expected an opcode or modifier",
            E::Rec => "recursive EQU",
            E::Ann => "EQU without a name",
            E::Lin => "too many instructions",
            E::App => "not allowed here",
            E::Zln => "no instructions",
            E::Idn => "label defined twice; the line is dropped",
            E::Rof => "FOR without ROF",
            E::For => "ROF without FOR",
            E::Grp => "too many labels on one line",
            E::Chk => "assertion failed",
            E::Nas => "missing ;assert",
            E::Bas => "bad ;assert expression",
            E::Exx => "program too long",
            E::Cat => "& needs a FOR counter",
            E::Dlb => "labels with no instruction after them are dropped",
            E::Ofs => "start is outside the program",
            E::Doe => "END start ignored: ORG already set it",
            E::Div => "division by zero",
            E::Ofl => "arithmetic overflow",
            E::Misc => "CURLINE cannot be a label",
            E::Deep => "nesting too deep",
            E::Big => "too much FOR expansion",
            E::Src => "source too large",
        }
    }
}

/// opname[]: the order matters, pseudo-opcodes follow the real ones.
pub open spec fn opname(i: int) -> Seq<u8> {
    if i == 0 { seq![77u8, 79, 86] }
    else if i == 1 { seq![65u8, 68, 68] }
    else if i == 2 { seq![83u8, 85, 66] }
    else if i == 3 { seq![77u8, 85, 76] }
    else if i == 4 { seq![68u8, 73, 86] }
    else if i == 5 { seq![77u8, 79, 68] }
    else if i == 6 { seq![74u8, 77, 90] }
    else if i == 7 { seq![74u8, 77, 78] }
    else if i == 8 { seq![68u8, 74, 78] }
    else if i == 9 { seq![67u8, 77, 80] }
    else if i == 10 { seq![83u8, 76, 84] }
    else if i == 11 { seq![83u8, 80, 76] }
    else if i == 12 { seq![68u8, 65, 84] }
    else if i == 13 { seq![74u8, 77, 80] }
    else if i == 14 { seq![83u8, 69, 81] }
    else if i == 15 { seq![83u8, 78, 69] }
    else if i == 16 { seq![78u8, 79, 80] }
    else if i == 17 { seq![76u8, 68, 80] }
    else if i == 18 { seq![83u8, 84, 80] }
    else if i == 19 { seq![79u8, 82, 71] }
    else if i == 20 { seq![69u8, 78, 68] }
    else { seq![80u8, 73, 78] }
}

pub const OPNUM: usize = 19;
pub const ORGOP: usize = 19;
pub const ENDOP: usize = 20;
pub const PINOP: usize = 21;
pub const EQUOP: usize = 22;

/// The index of an upper-case mnemonic in `opname`, or EQUOP.
pub open spec fn spec_opname_index(up: Seq<u8>) -> int {
    if exists|i: int| 0 <= i < 22 && opname(i) == up {
        choose|i: int| 0 <= i < 22 && opname(i) == up
    } else {
        EQUOP as int
    }
}

/// Whether two byte strings are equal.
fn same_bytes(x: &[u8], y: &[u8]) -> (r: bool)
    ensures
        r == (x@ == y@),
{
    if x.len() != y.len() {
        return false;
    }
    let mut i: usize = 0;
    while i < x.len()
        invariant
            x@.len() == y@.len(),
            i <= x@.len(),
            forall|k: int| 0 <= k < i ==> x@[k] == y@[k],
        decreases x@.len() - i,
    {
        if x[i] != y[i] {
            return false;
        }
        i += 1;
    }
    assert(x@ =~= y@);
    true
}

/// ASCII upper case of a byte string.
fn upper_bytes(x: &[u8]) -> (r: Vec<u8>)
    ensures
        r@ == crate::redcode::upper(x@),
{
    let mut r: Vec<u8> = Vec::new();
    let mut i: usize = 0;
    while i < x.len()
        invariant
            i <= x@.len(),
            r@ == crate::redcode::upper(x@.subrange(0, i as int)),
        decreases x@.len() - i,
    {
        let c = x[i];
        r.push(if 97 <= c && c <= 122 { c - 32 } else { c });
        assert(crate::redcode::upper(x@.subrange(0, i + 1)) =~= crate::redcode::upper(x@.subrange(0, i as int)).push(crate::redcode::upper_byte(c)));
        i += 1;
    }
    assert(x@.subrange(0, x@.len() as int) =~= x@);
    r
}

/// A copy of a byte string.
fn copy_bytes(x: &[u8]) -> (r: Vec<u8>)
    ensures
        r@ == x@,
{
    let mut r: Vec<u8> = Vec::new();
    let mut i: usize = 0;
    while i < x.len()
        invariant
            i <= x@.len(),
            r@ == x@.subrange(0, i as int),
        decreases x@.len() - i,
    {
        r.push(x[i]);
        assert(x@.subrange(0, i + 1) =~= x@.subrange(0, i as int).push(x@[i as int]));
        i += 1;
    }
    assert(x@.subrange(0, x@.len() as int) =~= x@);
    r
}

/// The bytes of `x` from `from` on.
fn tail_bytes(x: &[u8], from: usize) -> (r: Vec<u8>)
    ensures
        from <= x@.len() ==> r@ == x@.subrange(from as int, x@.len() as int),
        from > x@.len() ==> r@.len() == 0,
{
    let mut r: Vec<u8> = Vec::new();
    if from >= x.len() {
        proof {
            if from == x@.len() {
                assert(x@.subrange(from as int, x@.len() as int) =~= Seq::<u8>::empty());
            }
        }
        return r;
    }
    let mut i: usize = from;
    while i < x.len()
        invariant
            from <= i <= x@.len(),
            r@ == x@.subrange(from as int, i as int),
        decreases x@.len() - i,
    {
        r.push(x[i]);
        assert(x@.subrange(from as int, i + 1) =~= x@.subrange(from as int, i as int).push(x@[i as int]));
        i += 1;
    }
    r
}

/// The bytes of `x` before `to`.
fn head_bytes(x: &[u8], to: usize) -> (r: Vec<u8>)
    requires
        to <= x@.len(),
    ensures
        r@ == x@.subrange(0, to as int),
{
    let mut r: Vec<u8> = Vec::new();
    let mut i: usize = 0;
    while i < to
        invariant
            i <= to <= x@.len(),
            r@ == x@.subrange(0, i as int),
        decreases to - i,
    {
        r.push(x[i]);
        assert(x@.subrange(0, i + 1) =~= x@.subrange(0, i as int).push(x@[i as int]));
        i += 1;
    }
    r
}

/// The index of an upper-case mnemonic in opname[], EQUOP if none.
fn opname_index(up: &[u8]) -> (r: usize)
    ensures
        r as int == spec_opname_index(up@),
        r <= EQUOP,
{
    let names: [[u8; 3]; 22] = [
        [77, 79, 86], [65, 68, 68], [83, 85, 66], [77, 85, 76], [68, 73, 86], [77, 79, 68],
        [74, 77, 90], [74, 77, 78], [68, 74, 78], [67, 77, 80], [83, 76, 84], [83, 80, 76],
        [68, 65, 84], [74, 77, 80], [83, 69, 81], [83, 78, 69], [78, 79, 80], [76, 68, 80],
        [83, 84, 80], [79, 82, 71], [69, 78, 68], [80, 73, 78],
    ];
    let mut i: usize = 0;
    while i < 22
        invariant
            i <= 22,
            forall|k: int| 0 <= k < 22 ==> (#[trigger] names@[k])@ == opname(k),
            forall|k: int| 0 <= k < i ==> opname(k) != up@,
        decreases 22 - i,
    {
        if same_bytes(&names[i], up) {
            proof {
                assert(opname(i as int) == up@);
                let c = choose|j: int| 0 <= j < 22 && opname(j) == up@;
                if c != i {
                    lemma_opnames_distinct(c, i as int);
                }
            }
            return i;
        }
        i += 1;
    }
    EQUOP
}

/// No two mnemonics are alike.
proof fn lemma_opnames_distinct(i: int, j: int)
    requires
        0 <= i < 22,
        0 <= j < 22,
        i != j,
    ensures
        opname(i) != opname(j),
{
    if opname(i) == opname(j) {
        assert(opname(i)[0] == opname(j)[0]);
        assert(opname(i)[1] == opname(j)[1]);
        assert(opname(i)[2] == opname(j)[2]);
    }
}

/// The opcode of a real mnemonic's index.
fn opcode_of(i: usize) -> (r: Opcode)
    requires
        i < OPNUM,
    ensures
        crate::redcode::opcode_text(r) == opname(i as int),
        r == opcode_at(i as int),
{
    match i {
        0 => Opcode::Mov,
        1 => Opcode::Add,
        2 => Opcode::Sub,
        3 => Opcode::Mul,
        4 => Opcode::Div,
        5 => Opcode::Mod,
        6 => Opcode::Jmz,
        7 => Opcode::Jmn,
        8 => Opcode::Djn,
        9 => Opcode::Cmp,
        10 => Opcode::Slt,
        11 => Opcode::Spl,
        12 => Opcode::Dat,
        13 => Opcode::Jmp,
        14 => Opcode::SeqOp,
        15 => Opcode::Sne,
        16 => Opcode::Nop,
        17 => Opcode::Ldp,
        _ => Opcode::Stp,
    }
}

/// The addressing mode a mode character stands for; `$` for others.
pub open spec fn mode_of_byte(c: u8) -> Mode {
    if c == 35 { Mode::Immediate }
    else if c == 42 { Mode::AIndirect }
    else if c == 64 { Mode::BIndirect }
    else if c == 123 { Mode::APredec }
    else if c == 60 { Mode::BPredec }
    else if c == 125 { Mode::APostinc }
    else if c == 62 { Mode::BPostinc }
    else { Mode::Direct }
}

fn mode_of(c: u8) -> (r: Mode)
    ensures
        r == mode_of_byte(c),
{
    match c {
        35 => Mode::Immediate,
        42 => Mode::AIndirect,
        64 => Mode::BIndirect,
        123 => Mode::APredec,
        60 => Mode::BPredec,
        125 => Mode::APostinc,
        62 => Mode::BPostinc,
        _ => Mode::Direct,
    }
}

/// The modifier at index `m` of MODNAME: A, B, AB, BA, F, X, I.
spec fn modifier_at(m: int) -> Modifier {
    if m == 0 { Modifier::A }
    else if m == 1 { Modifier::B }
    else if m == 2 { Modifier::AB }
    else if m == 3 { Modifier::BA }
    else if m == 4 { Modifier::F }
    else if m == 5 { Modifier::X }
    else { Modifier::I }
}

/// The modifier named by an upper-case word, if any.
fn modifier_index(up: &[u8]) -> (r: Option<usize>)
    ensures
        r matches Some(m) ==> m < 7 && crate::redcode::modifier_named(up@) == Some(modifier_at(m as int)),
        r is None ==> crate::redcode::modifier_named(up@) is None,
        r == mod_from(up@, 0),
{
    let r = modifier_index_of(up);
    proof {
        match r {
            Some(m) => {
                let o = modifier_at(m as int);
                assert(crate::redcode::modifier_text(o) =~= up@);
                let c = choose|p: Modifier| crate::redcode::modifier_text(p) == up@;
                crate::redcode::lemma_modifier_text_injective(o, c);
            },
            None => {
                assert forall|o: Modifier| crate::redcode::modifier_text(o) != up@ by {
                    let k: int = match o {
                        Modifier::A => 0,
                        Modifier::B => 1,
                        Modifier::AB => 2,
                        Modifier::BA => 3,
                        Modifier::F => 4,
                        Modifier::X => 5,
                        Modifier::I => 6,
                    };
                    assert(modifier_at(k) == o);
                }
            },
        }
    }
    r
}

/// MODNAME's index of an upper-case word.
fn modifier_index_of(up: &[u8]) -> (r: Option<usize>)
    ensures
        r matches Some(m) ==> m < 7 && crate::redcode::modifier_text(modifier_at(m as int)) == up@,
        r is None ==> forall|m: int| 0 <= m < 7 ==> crate::redcode::modifier_text(#[trigger] modifier_at(m)) != up@,
        r == mod_from(up@, 0),
{
    let mut m: usize = 0;
    while m < 7
        invariant
            m <= 7,
            forall|k: int| 0 <= k < m ==> crate::redcode::modifier_text(#[trigger] modifier_at(k)) != up@,
            mod_from(up@, 0) == mod_from(up@, m as int),
        decreases 7 - m,
    {
        let name = modifier_bytes(m);
        if same_bytes(up, &name) {
            return Some(m);
        }
        m += 1;
    }
    None
}

/// The name at MODNAME's index `m`.
fn modifier_bytes(m: usize) -> (r: Vec<u8>)
    requires
        m < 7,
    ensures
        r@ == crate::redcode::modifier_text(modifier_at(m as int)),
{
    let mut r: Vec<u8> = Vec::new();
    if m == 0 {
        r.push(65);
    } else if m == 1 {
        r.push(66);
    } else if m == 2 {
        r.push(65);
        r.push(66);
    } else if m == 3 {
        r.push(66);
        r.push(65);
    } else if m == 4 {
        r.push(70);
    } else if m == 5 {
        r.push(88);
    } else {
        r.push(73);
    }
    assert(r@ =~= crate::redcode::modifier_text(modifier_at(m as int)));
    r
}

/// The modifier of MODNAME's index.
fn modifier_of(m: usize) -> (r: Modifier)
    requires
        m < 7,
    ensures
        r == modifier_at(m as int),
{
    match m {
        0 => Modifier::A,
        1 => Modifier::B,
        2 => Modifier::AB,
        3 => Modifier::BA,
        4 => Modifier::F,
        5 => Modifier::X,
        _ => Modifier::I,
    }
}

/// Append `s` to `dest` if the result stays below MAXALLCHAR bytes.
fn concat(dest: &mut Vec<u8>, s: &[u8]) -> (r: bool)
    ensures
        r == (old(dest)@.len() + s@.len() < MAXALLCHAR),
        r ==> final(dest)@ == old(dest)@ + s@,
        !r ==> final(dest)@ == old(dest)@,
{
    if dest.len() < MAXALLCHAR && s.len() < MAXALLCHAR - dest.len() {
        let mut i: usize = 0;
        let ghost d0 = dest@;
        while i < s.len()
            invariant
                i <= s@.len(),
                dest@ == d0 + s@.subrange(0, i as int),
            decreases s@.len() - i,
        {
            dest.push(s[i]);
            assert(s@.subrange(0, i + 1) =~= s@.subrange(0, i as int).push(s@[i as int]));
            i += 1;
        }
        assert(s@.subrange(0, s@.len() as int) =~= s@);
        true
    } else {
        false
    }
}

/// The decimal digits of `n`, most significant first.
pub open spec fn digit_bytes(n: nat) -> Seq<u8>
    decreases n,
{
    if n < 10 {
        seq![(48 + n) as u8]
    } else {
        digit_bytes(n / 10).push((48 + n % 10) as u8)
    }
}

/// `v` in decimal, with a minus sign if negative; when `pad` is set, a
/// single digit has a 0 before it (printf's `%02d`).
pub open spec fn number_bytes(v: int, pad: bool) -> Seq<u8> {
    let m: nat = if v < 0 { (-v) as nat } else { v as nat };
    (if v < 0 { seq![45u8] } else { Seq::empty() }) + (if pad && m < 10 { seq![48u8] } else { Seq::empty() })
        + digit_bytes(m)
}

/// Ten to the `k`.
spec fn ten_to(k: nat) -> nat
    decreases k,
{
    if k == 0 { 1 } else { 10 * ten_to((k - 1) as nat) }
}

/// No more digits than the power of ten above the number allows.
proof fn lemma_digit_bytes_len(n: nat, k: nat)
    requires
        k >= 1,
        n < ten_to(k),
    ensures
        digit_bytes(n).len() <= k,
    decreases k,
{
    assert(ten_to(k) == 10 * ten_to((k - 1) as nat));
    if k == 1 {
        assert(ten_to(0) == 1);
    }
    if n >= 10 && k > 1 {
        assert(n / 10 < ten_to((k - 1) as nat));
        lemma_digit_bytes_len(n / 10, (k - 1) as nat);
    }
}

/// Append the decimal digits of `n`.
fn push_digits(out: &mut Vec<u8>, n: u64)
    ensures
        final(out)@ == old(out)@ + digit_bytes(n as nat),
    decreases n,
{
    if n >= 10 {
        push_digits(out, n / 10);
    }
    out.push((48 + n % 10) as u8);
    proof {
        if n >= 10 {
            assert(digit_bytes(n as nat) == digit_bytes((n / 10) as nat).push((48 + n % 10) as u8));
        }
    }
}

/// The decimal digits of a number; two at least when `pad` is set
/// (printf's `%02d`).
fn number_text(v: i64, pad: bool) -> (r: Vec<u8>)
    ensures
        r@ == number_bytes(v as int, pad),
        r@.len() <= 21,
{
    let neg = v < 0;
    let m: u64 = if neg { (0i128 - v as i128) as u64 } else { v as u64 };
    let mut r: Vec<u8> = Vec::new();
    if neg {
        r.push(45);
    }
    if pad && m < 10 {
        r.push(48);
    }
    push_digits(&mut r, m);
    proof {
        reveal_with_fuel(ten_to, 21);
        assert(ten_to(20) == 100000000000000000000);
        lemma_digit_bytes_len(m as nat, 20);
        if neg {
            if pad && m < 10 {
                assert(r@ =~= seq![45u8] + seq![48u8] + digit_bytes(m as nat));
            } else {
                assert(r@ =~= seq![45u8] + Seq::<u8>::empty() + digit_bytes(m as nat));
            }
        } else {
            if pad && m < 10 {
                assert(r@ =~= Seq::<u8>::empty() + seq![48u8] + digit_bytes(m as nat));
            } else {
                assert(r@ =~= Seq::<u8>::empty() + Seq::<u8>::empty() + digit_bytes(m as nat));
            }
        }
        assert(digit_bytes(m as nat).len() >= 1);
    }
    r
}

// trav2() states
pub const SNIL: i32 = 0;
pub const SLBL: i32 = 1;
pub const SVAL: i32 = 2;
pub const SCOM: i32 = 3;
pub const SPSE: i32 = 4;
pub const SFOR: i32 = 5;
pub const SROF: i32 = 6;
pub const SERR: i32 = -1;

/// The line automaton's states (pass 2).
#[derive(Clone, Copy, Debug, PartialEq, Eq, Structural)]
enum St {
    Op,
    ModAddrExp,
    Modf,
    AddrExpA,
    ExpFs,
    AddrExpB,
    Expr,
}

/// States that come before an operand's expression, ranked above those
/// that collect it: the automaton moves from one to the other on the same
/// text.
spec fn rank(s: St) -> nat {
    if s == St::ModAddrExp || s == St::AddrExpA || s == St::AddrExpB { 1 } else { 0 }
}

/// A line of text and the source line it came from.
struct Line {
    text: Vec<u8>,
    loc: usize,
}

#[derive(Clone, Copy, Debug)]
enum RefKind {
    /// EQU text: an index into `lists`.
    Text(usize),
    /// A FOR counter.
    Stack(u32),
    /// A label: the instruction number it names.
    Label(u32),
}

/// A symbol: the names it goes by, what it stands for, whether it is
/// being substituted now, and whether it is still defined (a FOR counter
/// is undefined at its ROF).
struct Ref {
    names: Vec<Vec<u8>>,
    kind: RefKind,
    visit: bool,
    live: bool,
}

/// Buckets of the symbol index.
pub const BUCKETS: usize = 4093;

/// The bucket of a name.
pub open spec fn name_hash(s: Seq<u8>) -> nat
    decreases s.len(),
{
    if s.len() == 0 {
        0
    } else {
        ((name_hash(s.drop_last()) * 31 + s.last() as nat) % (BUCKETS as nat)) as nat
    }
}

fn hash_name(s: &[u8]) -> (h: usize)
    ensures
        h as nat == name_hash(s@),
        h < BUCKETS,
{
    let mut h: usize = 0;
    let mut i: usize = 0;
    while i < s.len()
        invariant
            i <= s@.len(),
            h < BUCKETS,
            h as nat == name_hash(s@.subrange(0, i as int)),
        decreases s@.len() - i,
    {
        assert(s@.subrange(0, i + 1).drop_last() =~= s@.subrange(0, i as int));
        h = (h * 31 + s[i] as usize) % BUCKETS;
        i += 1;
    }
    assert(s@.subrange(0, s@.len() as int) =~= s@);
    h
}

/// Whether a symbol goes by `name`.
spec fn has_name(r: Ref, name: Seq<u8>) -> bool {
    exists|n: int| 0 <= n < r.names@.len() && r.names@[n]@ == name
}

/// A live symbol named `name`.
spec fn names(r: Ref, name: Seq<u8>) -> bool {
    r.live && has_name(r, name)
}

/// Whether a bucket lists symbol `r`.
spec fn listed_in(b: Seq<usize>, r: int) -> bool {
    exists|p: int| 0 <= p < b.len() && b[p] as int == r
}

/// The symbol index, for symbols below `bound`: each bucket lists, in
/// increasing order, symbols with a name in the bucket, and every symbol
/// is listed under each of its names.
spec fn index_ok_upto(refs: Seq<Ref>, index: Seq<Vec<usize>>, bound: int) -> bool {
    &&& index.len() == BUCKETS
    &&& forall|b: int, j: int| 0 <= b < BUCKETS && 0 <= j < index[b]@.len() ==> #[trigger] index[b]@[j] < bound
    &&& forall|b: int, j: int, k: int| 0 <= b < BUCKETS && 0 <= j < k < index[b]@.len() ==> #[trigger] index[b]@[j] < #[trigger] index[b]@[k]
    &&& forall|r: int, n: int| 0 <= r < refs.len() && 0 <= n < refs[r].names@.len()
        ==> listed_in(index[name_hash(#[trigger] refs[r].names@[n]@) as int]@, r)
}

spec fn index_ok(refs: Seq<Ref>, index: Seq<Vec<usize>>) -> bool {
    index_ok_upto(refs, index, refs.len() as int)
}

/// The assembler's state (asm.c's globals).
struct Asm {
    cfg: Config,
    lists: Vec<Vec<Line>>,
    refs: Vec<Ref>,
    index: Vec<Vec<usize>>,
    symtbl: Vec<Vec<u8>>,
    statefine: u32,
    line: u32,
    vcont: bool,
    aline: Option<(usize, usize)>,
    out: Vec<Line>,
    diags: Vec<AsmError>,
    errnum: usize,
    noassert: bool,
    regs: [i64; 26],
    save_oper: u8,
    for_rounds: u64,
    // pass 2
    opcode: usize,
    modifier: Option<usize>,
    filled: bool,
    laststate: St,
    a_expr: Vec<u8>,
    b_expr: Vec<u8>,
    a_mode: Mode,
    b_mode: Mode,
    line_err: bool,
    name: Vec<u8>,
    author: Vec<u8>,
    offset: i64,
    pin: Option<i64>,
}

/// A kind of symbol whose EQU text, if any, is a list that exists.
spec fn kind_ok(k: RefKind, lists: Seq<Vec<Line>>) -> bool {
    match k {
        RefKind::Text(l) => 1 <= l < lists.len() && lists[l as int]@.len() >= 1,
        _ => true,
    }
}

/// The number of errors (not warnings) among messages.
spec fn error_count(d: Seq<AsmError>) -> nat
    decreases d.len(),
{
    if d.len() == 0 {
        0
    } else {
        error_count(d.drop_last()) + if d.last().warning { 0nat } else { 1nat }
    }
}

proof fn lemma_error_count(d: Seq<AsmError>)
    ensures
        error_count(d) <= d.len(),
    decreases d.len(),
{
    if d.len() > 0 {
        lemma_error_count(d.drop_last());
    }
}

/// Whether symbol `r` goes by `name`.
fn goes_by(r: &Ref, name: &[u8]) -> (b: bool)
    ensures
        b == has_name(*r, name@),
{
    let mut n: usize = 0;
    while n < r.names.len()
        invariant
            n <= r.names@.len(),
            forall|q: int| 0 <= q < n ==> r.names@[q]@ != name@,
        decreases r.names@.len() - n,
    {
        if same_bytes(&r.names[n], name) {
            return true;
        }
        n += 1;
    }
    false
}

impl Asm {
    spec fn wf(&self) -> bool {
        &&& self.lists@.len() >= 1
        &&& forall|k: int| 0 <= k < self.refs@.len() ==> kind_ok((#[trigger] self.refs@[k]).kind, self.lists@)
        &&& (self.aline matches Some((l, i)) ==> l < self.lists@.len() && i < self.lists@[l as int]@.len())
        &&& index_ok(self.refs@, self.index@)
        &&& self.errnum == error_count(self.diags@)
        &&& self.opcode <= EQUOP
        &&& (self.modifier matches Some(m) ==> m < 7)
    }

    /// What every step of the assembler keeps: messages are only added,
    /// lists and symbols only added, existing lists unchanged.
    spec fn grew(&self, old: Asm) -> bool {
        &&& old.diags@.len() <= self.diags@.len()
        &&& forall|i: int| 0 <= i < old.diags@.len() ==> #[trigger] self.diags@[i] == old.diags@[i]
        &&& old.lists@.len() <= self.lists@.len()
        &&& forall|l: int| 0 <= l < old.lists@.len() ==> #[trigger] self.lists@[l]@.len() == old.lists@[l]@.len()
        &&& old.refs@.len() <= self.refs@.len()
        &&& forall|j: int| 0 <= j < old.refs@.len() ==> #[trigger] self.refs@[j].names@ == old.refs@[j].names@
        &&& self.cfg == old.cfg
        &&& self.name == old.name
        &&& self.author == old.author
    }

    /// `grew`, but for the source's own list, which reading fills.
    spec fn grew_read(&self, old: Asm) -> bool {
        &&& old.diags@.len() <= self.diags@.len()
        &&& forall|i: int| 0 <= i < old.diags@.len() ==> #[trigger] self.diags@[i] == old.diags@[i]
        &&& old.lists@.len() <= self.lists@.len()
        &&& forall|l: int| 1 <= l < old.lists@.len() ==> #[trigger] self.lists@[l]@.len() == old.lists@[l]@.len()
        &&& old.refs@.len() <= self.refs@.len()
        &&& forall|j: int| 0 <= j < old.refs@.len() ==> #[trigger] self.refs@[j].names@ == old.refs@[j].names@
        &&& self.cfg == old.cfg
    }

    fn new(cfg: &Config) -> (a: Asm)
        ensures
            a.wf(),
            a.cfg == *cfg,
            a.diags@.len() == 0,
            a.aline is None,
            a.lists@[0]@.len() == 0,
            a.name@ == seq![85u8, 110, 107, 110, 111, 119, 110],
            a.author@ == seq![65u8, 110, 111, 110, 121, 109, 111, 117, 115],
    {
        let mut index: Vec<Vec<usize>> = Vec::new();
        let mut b: usize = 0;
        while b < BUCKETS
            invariant
                b <= BUCKETS,
                index@.len() == b,
                forall|k: int| 0 <= k < b ==> (#[trigger] index@[k])@.len() == 0,
            decreases BUCKETS - b,
        {
            index.push(Vec::new());
            b += 1;
        }
        let mut lists: Vec<Vec<Line>> = Vec::new();
        lists.push(Vec::new());
        Asm {
            cfg: *cfg,
            lists,
            refs: Vec::new(),
            index,
            symtbl: Vec::new(),
            statefine: 0,
            line: 0,
            vcont: true,
            aline: None,
            out: Vec::new(),
            diags: Vec::new(),
            errnum: 0,
            noassert: true,
            regs: [0i64; 26],
            save_oper: 0,
            for_rounds: 0,
            opcode: 0,
            modifier: None,
            filled: false,
            laststate: St::Op,
            a_expr: Vec::new(),
            b_expr: Vec::new(),
            a_mode: Mode::Direct,
            b_mode: Mode::Direct,
            line_err: false,
            name: vec![85u8, 110, 107, 110, 111, 119, 110],
            author: vec![65u8, 110, 111, 110, 121, 109, 111, 117, 115],
            offset: 0,
            pin: None,
        }
    }

    /// The source line of the line being read, 0 for none.
    fn cur_loc(&self) -> (r: usize)
        requires
            self.wf(),
        ensures
            r == (match self.aline {
                Some((l, i)) => self.lists@[l as int]@[i as int].loc,
                None => 0,
            }),
    {
        match self.aline {
            Some((l, i)) => self.lists[l][i].loc,
            None => 0,
        }
    }

    /// Report `e` on the line being read.
    fn err(&mut self, e: E)
        requires
            old(self).wf(),
        ensures
            final(self).diags@.last().line == loc_of(*old(self)),
            final(self).filled == old(self).filled,
            final(self).line_err,
            final(self).laststate == old(self).laststate,
            final(self).wf(),
            final(self).grew(*old(self)),
            final(self).offset == old(self).offset,
            final(self).diags@.len() == old(self).diags@.len() + 1,
            final(self).diags@.last().warning == is_warning(e),
            final(self).diags@.last().msg@ == error_text(e)@,
            final(self).lists == old(self).lists,
            final(self).aline == old(self).aline,
            final(self).vcont == old(self).vcont,
            final(self).refs == old(self).refs,
            final(self).statefine == old(self).statefine,
            final(self).line == old(self).line,
            final(self).regs == old(self).regs,
            final(self).save_oper == old(self).save_oper,
            final(self).opcode == old(self).opcode,
            final(self).pin == old(self).pin,
            final(self).a_expr == old(self).a_expr,
            final(self).b_expr == old(self).b_expr,
            final(self).a_mode == old(self).a_mode,
            final(self).b_mode == old(self).b_mode,
            final(self).modifier == old(self).modifier,
            final(self).out == old(self).out,
    {
        let loc = self.cur_loc();
        self.err_at(e, loc);
    }

    /// Report `e` on source line `loc`.
    fn err_at(&mut self, e: E, loc: usize)
        requires
            old(self).wf(),
        ensures
            final(self).laststate == old(self).laststate,
            final(self).wf(),
            final(self).grew(*old(self)),
            final(self).offset == old(self).offset,
            final(self).diags@ == old(self).diags@.push(final(self).diags@.last()),
            final(self).diags@.last().warning == is_warning(e),
            final(self).diags@.last().msg@ == error_text(e)@,
            final(self).diags@.last().line == loc,
            final(self).filled == old(self).filled,
            final(self).line_err,
            final(self).lists == old(self).lists,
            final(self).aline == old(self).aline,
            final(self).vcont == old(self).vcont,
            final(self).refs == old(self).refs,
            final(self).statefine == old(self).statefine,
            final(self).line == old(self).line,
            final(self).regs == old(self).regs,
            final(self).save_oper == old(self).save_oper,
            final(self).opcode == old(self).opcode,
            final(self).pin == old(self).pin,
            final(self).a_expr == old(self).a_expr,
            final(self).b_expr == old(self).b_expr,
            final(self).a_mode == old(self).a_mode,
            final(self).b_mode == old(self).b_mode,
            final(self).modifier == old(self).modifier,
            final(self).out == old(self).out,
    {
        self.line_err = true;
        let warning = e.warning();
        let msg = e.text().to_owned();
        let ghost d0 = self.diags@;
        proof {
            lemma_error_count(d0);
        }
        self.diags.push(AsmError { line: loc, msg, warning });
        assert(self.diags@.drop_last() =~= d0);
        let count = self.diags.len();
        if !warning {
            self.errnum = self.errnum + 1;
        }
    }

    /// The most recent live symbol named `name`.
    fn lookup(&self, name: &[u8]) -> (r: Option<usize>)
        requires
            self.wf(),
        ensures
            match r {
                Some(k) => {
                    &&& k < self.refs@.len()
                    &&& names(self.refs@[k as int], name@)
                    &&& forall|j: int| k < j < self.refs@.len() ==> !names(#[trigger] self.refs@[j], name@)
                },
                None => forall|j: int| 0 <= j < self.refs@.len() ==> !names(#[trigger] self.refs@[j], name@),
            },
    {
        let h = hash_name(name);
        let bucket = &self.index[h];
        let mut j = bucket.len();
        while j > 0
            invariant
                j <= bucket@.len(),
                bucket@ == self.index@[h as int]@,
                self.wf(),
                h as nat == name_hash(name@),
                h < BUCKETS,
                forall|p: int| j <= p < bucket@.len() ==> !names(self.refs@[#[trigger] bucket@[p] as int], name@),
            decreases j,
        {
            j -= 1;
            let k = bucket[j];
            if self.refs[k].live && goes_by(&self.refs[k], name) {
                proof {
                    assert forall|x: int| k < x < self.refs@.len() implies !names(#[trigger] self.refs@[x], name@) by {
                        if names(self.refs@[x], name@) {
                            let m = choose|m: int| 0 <= m < self.refs@[x].names@.len() && self.refs@[x].names@[m]@ == name@;
                            assert(name_hash(self.refs@[x].names@[m]@) == name_hash(name@));
                            assert(listed_in(self.index@[name_hash(self.refs@[x].names@[m]@) as int]@, x));
                            let p = choose|p: int| 0 <= p < bucket@.len() && bucket@[p] as int == x;
                            if p < j {
                                assert(bucket@[p] < bucket@[j as int]);
                            }
                        }
                    }
                }
                return Some(k);
            }
        }
        proof {
            assert forall|x: int| 0 <= x < self.refs@.len() implies !names(#[trigger] self.refs@[x], name@) by {
                if names(self.refs@[x], name@) {
                    let m = choose|m: int| 0 <= m < self.refs@[x].names@.len() && self.refs@[x].names@[m]@ == name@;
                    assert(name_hash(self.refs@[x].names@[m]@) == name_hash(name@));
                    assert(listed_in(self.index@[name_hash(self.refs@[x].names@[m]@) as int]@, x));
                    let p = choose|p: int| 0 <= p < bucket@.len() && bucket@[p] as int == x;
                }
            }
        }
        None
    }

    /// Define a symbol with these names.
    fn add_ref(&mut self, names_: Vec<Vec<u8>>, kind: RefKind, visit: bool)
        requires
            old(self).wf(),
            kind_ok(kind, old(self).lists@),
        ensures
            final(self).symtbl == old(self).symtbl,
            final(self).wf(),
            final(self).grew(*old(self)),
            final(self).offset == old(self).offset,
            final(self).refs@.len() == old(self).refs@.len() + 1,
            final(self).refs@.last().kind == kind,
            final(self).refs@.last().names == names_,
            final(self).refs@.last().visit == visit,
            final(self).refs@.last().live,
            forall|j: int| 0 <= j < old(self).refs@.len() ==> #[trigger] final(self).refs@[j] == old(self).refs@[j],
            final(self).diags == old(self).diags,
            final(self).lists == old(self).lists,
            final(self).aline == old(self).aline,
            final(self).vcont == old(self).vcont,
            final(self).statefine == old(self).statefine,
            final(self).line == old(self).line,
    {
        let k = self.refs.len();
        let mut index: Vec<Vec<usize>> = Vec::new();
        std::mem::swap(&mut index, &mut self.index);
        let mut n: usize = 0;
        while n < names_.len()
            invariant
                n <= names_@.len(),
                k == self.refs@.len(),
                old(self).wf(),
                self.refs == old(self).refs,
                index_ok_upto(self.refs@, index@, k + 1),
                forall|q: int| 0 <= q < n ==> listed_in(index@[name_hash(#[trigger] names_@[q]@) as int]@, k as int),
                forall|b: int| 0 <= b < BUCKETS && index@[b]@.len() > 0 ==> #[trigger] index@[b]@.last() <= k,
            decreases names_@.len() - n,
        {
            let h = hash_name(&names_[n]);
            let mut b: Vec<usize> = Vec::new();
            let ghost before = index@;
            index.set_and_swap(h, &mut b);
            let ghost old_b = b@;
            let last_is_k = b.len() > 0 && b[b.len() - 1] == k;
            if !last_is_k {
                b.push(k);
            }
            index.set_and_swap(h, &mut b);
            proof {
                let ni = index@;
                assert(ni == before.update(h as int, ni[h as int]));
                assert(old_b == before[h as int]@);
                if last_is_k {
                    assert(ni[h as int]@ == old_b);
                } else {
                    assert(ni[h as int]@ == old_b.push(k));
                    if old_b.len() > 0 {
                        assert(old_b.last() <= k);
                        assert(old_b.last() != k);
                    }
                }
                assert(listed_in(ni[h as int]@, k as int)) by {
                    if last_is_k {
                        assert(ni[h as int]@[old_b.len() - 1] == k);
                    } else {
                        assert(ni[h as int]@[old_b.len() as int] == k);
                    }
                }
                assert forall|bb: int, jj: int| 0 <= bb < BUCKETS && 0 <= jj < ni[bb]@.len() implies #[trigger] ni[bb]@[jj] < k + 1 by {
                    if bb != h as int {
                        assert(ni[bb] == before[bb]);
                    } else if jj < old_b.len() {
                        assert(ni[bb]@[jj] == old_b[jj]);
                    }
                }
                assert forall|bb: int, jj: int, kk: int| 0 <= bb < BUCKETS && 0 <= jj < kk < ni[bb]@.len() implies #[trigger] ni[bb]@[jj] < #[trigger] ni[bb]@[kk] by {
                    if bb != h as int {
                        assert(ni[bb] == before[bb]);
                    } else if kk < old_b.len() {
                        assert(ni[bb]@[jj] == old_b[jj] && ni[bb]@[kk] == old_b[kk]);
                    } else {
                        assert(ni[bb]@[jj] == old_b[jj]);
                        assert(old_b[jj] <= old_b.last());
                        if jj < old_b.len() - 1 {
                            assert(old_b[jj] < old_b[old_b.len() - 1]);
                        }
                    }
                }
                assert forall|r: int, m: int| 0 <= r < self.refs@.len() && 0 <= m < self.refs@[r].names@.len()
                    implies listed_in(ni[name_hash(#[trigger] self.refs@[r].names@[m]@) as int]@, r) by {
                    let hh = name_hash(self.refs@[r].names@[m]@) as int;
                    assert(listed_in(before[hh]@, r));
                    if hh == h as int {
                        let p = choose|p: int| 0 <= p < old_b.len() && old_b[p] as int == r;
                        assert(ni[hh]@[p] == old_b[p]);
                    } else {
                        assert(ni[hh] == before[hh]);
                    }
                }
                assert forall|q: int| 0 <= q < n + 1 implies listed_in(ni[name_hash(#[trigger] names_@[q]@) as int]@, k as int) by {
                    let hq = name_hash(names_@[q]@) as int;
                    if q < n {
                        assert(listed_in(before[hq]@, k as int));
                        if hq == h as int {
                            let p = choose|p: int| 0 <= p < old_b.len() && old_b[p] as int == k;
                            assert(ni[hq]@[p] == old_b[p]);
                        } else {
                            assert(ni[hq] == before[hq]);
                        }
                    }
                }
                assert forall|bb: int| 0 <= bb < BUCKETS && ni[bb]@.len() > 0 implies #[trigger] ni[bb]@.last() <= k by {
                    if bb != h as int {
                        assert(ni[bb] == before[bb]);
                    }
                }
            }
            n += 1;
        }
        std::mem::swap(&mut index, &mut self.index);
        self.refs.push(Ref { names: names_, kind, visit, live: true });
        proof {
            let refs = self.refs@;
            assert forall|r: int, m: int| 0 <= r < refs.len() && 0 <= m < refs[r].names@.len()
                implies listed_in(self.index@[name_hash(#[trigger] refs[r].names@[m]@) as int]@, r) by {
                if r < k {
                    assert(refs[r] == old(self).refs@[r]);
                }
            }
            assert forall|x: int| 0 <= x < refs.len() implies kind_ok((#[trigger] refs[x]).kind, self.lists@) by {
                if x < k {
                    assert(refs[x] == old(self).refs@[x]);
                }
            }
        }
    }

    /// Replace symbol `k` with `r`, which has the same names.
    fn put_ref(&mut self, k: usize, r: Ref)
        requires
            old(self).wf(),
            k < old(self).refs@.len(),
            r.names@ == old(self).refs@[k as int].names@,
            kind_ok(r.kind, old(self).lists@),
        ensures
            final(self).wf(),
            final(self).grew(*old(self)),
            final(self).offset == old(self).offset,
            final(self).refs@ == old(self).refs@.update(k as int, r),
            final(self).diags == old(self).diags,
            final(self).lists == old(self).lists,
            final(self).aline == old(self).aline,
            final(self).vcont == old(self).vcont,
            final(self).statefine == old(self).statefine,
            final(self).line == old(self).line,
    {
        let mut r = r;
        self.refs.set_and_swap(k, &mut r);
        proof {
            let refs = self.refs@;
            assert forall|x: int, m: int| 0 <= x < refs.len() && 0 <= m < refs[x].names@.len()
                implies listed_in(self.index@[name_hash(#[trigger] refs[x].names@[m]@) as int]@, x) by {
                assert(refs[x].names@ == old(self).refs@[x].names@);
            }
            assert forall|x: int| 0 <= x < refs.len() implies kind_ok((#[trigger] refs[x]).kind, self.lists@) by {
                if x != k as int {
                    assert(refs[x] == old(self).refs@[x]);
                }
            }
        }
    }

    /// Set whether symbol `k` is being substituted.
    fn set_visit(&mut self, k: usize, v: bool)
        requires
            old(self).wf(),
            k < old(self).refs@.len(),
        ensures
            final(self).laststate == old(self).laststate,
            final(self).regs == old(self).regs,
            final(self).save_oper == old(self).save_oper,
            final(self).pin == old(self).pin,
            final(self).opcode == old(self).opcode,
            final(self).wf(),
            final(self).grew(*old(self)),
            final(self).offset == old(self).offset,
            final(self).refs@.len() == old(self).refs@.len(),
            final(self).diags == old(self).diags,
            final(self).lists == old(self).lists,
            final(self).aline == old(self).aline,
            final(self).vcont == old(self).vcont,
            final(self).statefine == old(self).statefine,
            final(self).line == old(self).line,
            forall|j: int| 0 <= j < final(self).refs@.len() ==> (#[trigger] final(self).refs@[j]).kind == old(self).refs@[j].kind,
            final(self).refs@[k as int].visit == v,
            final(self).refs@[k as int].names == old(self).refs@[k as int].names,
            final(self).refs@[k as int].live == old(self).refs@[k as int].live,
            forall|j: int| 0 <= j < final(self).refs@.len() && j != k ==> #[trigger] final(self).refs@[j] == old(self).refs@[j],
            final(self).modifier == old(self).modifier,
            final(self).filled == old(self).filled,
            final(self).a_mode == old(self).a_mode,
            final(self).b_mode == old(self).b_mode,
            final(self).a_expr == old(self).a_expr,
            final(self).b_expr == old(self).b_expr,
            final(self).line_err == old(self).line_err,
    {
        let mut r = Ref { names: Vec::new(), kind: RefKind::Label(0), visit: false, live: false };
        self.refs.set_and_swap(k, &mut r);
        r.visit = v;
        self.refs.set_and_swap(k, &mut r);
        proof {
            let refs = self.refs@;
            assert forall|x: int, m: int| 0 <= x < refs.len() && 0 <= m < refs[x].names@.len()
                implies listed_in(self.index@[name_hash(#[trigger] refs[x].names@[m]@) as int]@, x) by {
                assert(refs[x].names@ == old(self).refs@[x].names@);
            }
            assert forall|x: int| 0 <= x < refs.len() implies kind_ok((#[trigger] refs[x]).kind, self.lists@) by {
                assert(refs[x].kind == old(self).refs@[x].kind);
            }
        }
    }

    /// The kind of symbol `k`.
    fn kind_of(&self, k: usize) -> (r: RefKind)
        requires
            self.wf(),
            k < self.refs@.len(),
        ensures
            r == self.refs@[k as int].kind,
            kind_ok(r, self.lists@),
    {
        self.refs[k].kind
    }

    /// A copy of the text of line `i` of list `l`.
    fn text_of(&self, l: usize, i: usize) -> (t: Vec<u8>)
        requires
            self.wf(),
            l < self.lists@.len(),
            i < self.lists@[l as int]@.len(),
        ensures
            t@ == self.lists@[l as int]@[i as int].text@,
    {
        copy_bytes(&self.lists[l][i].text)
    }

    /// Add a rewritten line, with the source line being read.
    fn addline(&mut self, text: &[u8])
        requires
            old(self).wf(),
        ensures
            final(self).wf(),
            final(self).grew(*old(self)),
            final(self).offset == old(self).offset,
            final(self).diags == old(self).diags,
            final(self).lists == old(self).lists,
            final(self).aline == old(self).aline,
            final(self).vcont == old(self).vcont,
            final(self).refs == old(self).refs,
            final(self).statefine == old(self).statefine,
            final(self).line == old(self).line,
            final(self).out@.len() == old(self).out@.len() + 1,
    {
        let loc = self.cur_loc();
        self.out.push(Line { text: copy_bytes(text), loc });
    }

    /// Evaluate an expression with the assembler's registers.
    fn eval(&mut self, expr: &[u8]) -> (r: (i32, i64))
        requires
            old(self).wf(),
        ensures
            final(self).wf(),
            final(self).grew(*old(self)),
            final(self).offset == old(self).offset,
            final(self).diags == old(self).diags,
            final(self).lists == old(self).lists,
            final(self).aline == old(self).aline,
            final(self).vcont == old(self).vcont,
            final(self).refs == old(self).refs,
            final(self).statefine == old(self).statefine,
            final(self).line == old(self).line,
            status_ok(r.0),
            final(self).opcode == old(self).opcode,
            final(self).pin == old(self).pin,
            final(self).a_expr == old(self).a_expr,
            final(self).b_expr == old(self).b_expr,
            final(self).a_mode == old(self).a_mode,
            final(self).b_mode == old(self).b_mode,
            final(self).modifier == old(self).modifier,
            final(self).filled == old(self).filled,
            final(self).laststate == old(self).laststate,
            final(self).line_err == old(self).line_err,
            ({
                let x = expr_result(expr@, old(self).regs@, old(self).save_oper);
                &&& r == (x.0, x.1)
                &&& final(self).regs@ == x.2
                &&& final(self).save_oper == x.3
            }),
    {
        eval_bytes(expr, &mut self.regs, &mut self.save_oper)
    }

    /// The predefined constants: text EQUs of the configuration's numbers.
    fn addpredefs(&mut self)
        requires
            old(self).wf(),
        ensures
            final(self).lists@.len() == old(self).lists@.len() + 9,
            final(self).refs@.len() == old(self).refs@.len() + 9,
            forall|l: int| 0 <= l < old(self).lists@.len() ==> #[trigger] final(self).lists@[l] == old(self).lists@[l],
            forall|j: int| 0 <= j < old(self).refs@.len() ==> #[trigger] final(self).refs@[j] == old(self).refs@[j],
            forall|t: int| 0 <= t < 9 ==> predef_defined(
                #[trigger] final(self).refs@[old(self).refs@.len() + t],
                final(self).lists@,
                old(self).lists@.len() + t,
                predef_name(t),
                predef_value(old(self).cfg, t),
            ),
            final(self).aline == old(self).aline,
            final(self).wf(),
            final(self).grew(*old(self)),
            final(self).offset == old(self).offset,
            final(self).diags == old(self).diags,
    {
        let c = self.cfg;
        let ps = c.pspace_size();
        let ghost r0 = self.refs@.len();
        let ghost l0 = self.lists@.len();
        let mut t: usize = 0;
        while t < 9
            invariant
                t <= 9,
                c == old(self).cfg,
                ps as nat == spec_pspace_size(c.core_size as nat),
                r0 == old(self).refs@.len(),
                l0 == old(self).lists@.len(),
                self.aline == old(self).aline,
                self.wf(),
                self.grew(*old(self)),
                self.offset == old(self).offset,
                self.diags == old(self).diags,
                self.lists@.len() == l0 + t,
                self.refs@.len() == r0 + t,
                forall|l: int| 0 <= l < l0 ==> #[trigger] self.lists@[l] == old(self).lists@[l],
                forall|j: int| 0 <= j < r0 ==> #[trigger] self.refs@[j] == old(self).refs@[j],
                forall|u: int| 0 <= u < t ==> predef_defined(
                    #[trigger] self.refs@[r0 + u],
                    self.lists@,
                    l0 + u,
                    predef_name(u),
                    predef_value(c, u),
                ),
            decreases 9 - t,
        {
            let name = predef_name_bytes(t);
            let v: u64 = if t == 0 {
                c.core_size as u64
            } else if t == 1 {
                c.max_processes as u64
            } else if t == 2 {
                c.max_cycles as u64
            } else if t == 3 {
                c.max_length as u64
            } else if t == 4 {
                c.min_distance as u64
            } else if t == 5 {
                92
            } else if t == 6 {
                c.warriors as u64
            } else if t == 7 {
                c.rounds as u64
            } else {
                ps as u64
            };
            let ghost before = *self;
            self.predef(&name, v);
            proof {
                assert forall|u: int| 0 <= u < t + 1 implies predef_defined(
                    #[trigger] self.refs@[r0 + u],
                    self.lists@,
                    l0 + u,
                    predef_name(u),
                    predef_value(c, u),
                ) by {
                    if u < t {
                        assert(self.refs@[r0 + u] == before.refs@[r0 + u]);
                        assert(self.lists@[l0 + u] == before.lists@[l0 + u]);
                    } else {
                        assert(self.refs@[r0 + u] == self.refs@.last());
                    }
                }
            }
            t += 1;
        }
    }

    /// One predefined constant.
    fn predef(&mut self, name: &[u8], v: u64)
        requires
            old(self).wf(),
        ensures
            final(self).lists@.len() == old(self).lists@.len() + 1,
            final(self).refs@.len() == old(self).refs@.len() + 1,
            forall|l: int| 0 <= l < old(self).lists@.len() ==> #[trigger] final(self).lists@[l] == old(self).lists@[l],
            forall|j: int| 0 <= j < old(self).refs@.len() ==> #[trigger] final(self).refs@[j] == old(self).refs@[j],
            predef_defined(
                final(self).refs@.last(),
                final(self).lists@,
                old(self).lists@.len() as int,
                name@,
                if v > 0x7fff_ffff_ffff_ffff { 0x7fff_ffff_ffff_ffff } else { v as int },
            ),
            final(self).aline == old(self).aline,
            final(self).wf(),
            final(self).grew(*old(self)),
            final(self).offset == old(self).offset,
            final(self).diags == old(self).diags,
    {
        let text = number_text(if v > 0x7fff_ffff_ffff_ffff { 0x7fff_ffff_ffff_ffff } else { v as i64 }, false);
        let mut l: Vec<Line> = Vec::new();
        l.push(Line { text, loc: 0 });
        self.lists.push(l);
        let id = self.lists.len() - 1;
        proof {
            assert forall|k: int| 0 <= k < self.refs@.len() implies kind_ok((#[trigger] self.refs@[k]).kind, self.lists@) by {
                assert(kind_ok(self.refs@[k].kind, old(self).lists@));
                if let RefKind::Text(l) = self.refs@[k].kind {
                    assert(self.lists@[l as int] == old(self).lists@[l as int]);
                }
            }
        }
        let mut n: Vec<Vec<u8>> = Vec::new();
        n.push(copy_bytes(name));
        self.add_ref(n, RefKind::Text(id), false);
    }
}


/// Symbol `r` is the predefined constant `name`, whose text, line `l` of
/// `lists`, is `v` in decimal.
spec fn predef_defined(r: Ref, lists: Seq<Vec<Line>>, l: int, name: Seq<u8>, v: int) -> bool {
    &&& r.names@.len() == 1
    &&& r.names@[0]@ == name
    &&& r.kind == RefKind::Text(l as usize)
    &&& !r.visit
    &&& r.live
    &&& 0 <= l < lists.len()
    &&& lists[l]@.len() == 1
    &&& lists[l]@[0].text@ == number_bytes(v, false)
    &&& lists[l]@[0].loc == 0
}

/// The names of the predefined constants, in the order they are defined.
spec fn predef_name(t: int) -> Seq<u8> {
    if t == 0 { seq![67u8, 79, 82, 69, 83, 73, 90, 69] }
    else if t == 1 { seq![77u8, 65, 88, 80, 82, 79, 67, 69, 83, 83, 69, 83] }
    else if t == 2 { seq![77u8, 65, 88, 67, 89, 67, 76, 69, 83] }
    else if t == 3 { seq![77u8, 65, 88, 76, 69, 78, 71, 84, 72] }
    else if t == 4 { seq![77u8, 73, 78, 68, 73, 83, 84, 65, 78, 67, 69] }
    else if t == 5 { seq![86u8, 69, 82, 83, 73, 79, 78] }
    else if t == 6 { seq![87u8, 65, 82, 82, 73, 79, 82, 83] }
    else if t == 7 { seq![82u8, 79, 85, 78, 68, 83] }
    else { seq![80u8, 83, 80, 65, 67, 69, 83, 73, 90, 69] }
}

/// The values of the predefined constants: CORESIZE, MAXPROCESSES,
/// MAXCYCLES, MAXLENGTH, MINDISTANCE, VERSION, WARRIORS, ROUNDS, PSPACESIZE.
spec fn predef_value(c: Config, t: int) -> int {
    if t == 0 { c.core_size as int }
    else if t == 1 { c.max_processes as int }
    else if t == 2 { c.max_cycles as int }
    else if t == 3 { if c.max_length > 0x7fff_ffff_ffff_ffff { 0x7fff_ffff_ffff_ffff } else { c.max_length as int } }
    else if t == 4 { c.min_distance as int }
    else if t == 5 { 92 }
    else if t == 6 { c.warriors as int }
    else if t == 7 { c.rounds as int }
    else { spec_pspace_size(c.core_size as nat) as int }
}

/// `ins` is the instruction the parsed line of `a` encodes, its fields
/// evaluated from registers `regs` on, A before B, and folded into a core
/// of `cs` cells.
spec fn encoded_as(ins: Instruction, a: Asm, regs: Seq<i64>, save_oper: u8, cs: int) -> bool {
    let x = expr_result(a.a_expr@, regs, save_oper);
    let y = expr_result(a.b_expr@, x.2, x.3);
    &&& a.opcode < OPNUM
    &&& crate::redcode::opcode_text(ins.op) == opname(a.opcode as int)
    &&& ins.modifier == (match a.modifier {
        Some(m) => modifier_at(m as int),
        None => crate::redcode::spec_default_modifier(ins.op, a.a_mode, a.b_mode),
    })
    &&& ins.a_mode == a.a_mode
    &&& ins.b_mode == a.b_mode
    &&& x.0 >= OK_EXPR
    &&& y.0 >= OK_EXPR
    &&& ins.a == (x.1 as int) % cs
    &&& ins.b == (y.1 as int) % cs
    &&& a.regs@ == y.2
}

/// The opcode a line names from `at` on: its first token is a word, the
/// index of that word among the mnemonics (EQUOP if none); `prev` if the
/// line does not start with a word.
spec fn line_opcode(b: Seq<u8>, at: int, prev: usize) -> usize {
    let st = skip_spaces(b, at);
    if token_class(spec_at(b, st), spec_at(b, st + 1)) == Tt::Char {
        spec_opname_index(crate::redcode::upper(b.subrange(st, token_end(b, st)))) as usize
    } else {
        prev
    }
}

/// The text and source line of each line of a list.
spec fn lines_of(l: Seq<Line>) -> Seq<(Seq<u8>, usize)> {
    l.map_values(|x: Line| (x.text@, x.loc))
}

/// Where one fgets() of at most `room` bytes from `p` on stops, `k` bytes
/// already taken: at the room's end, the data's end, or after a newline.
pub open spec fn chunk_end(data: Seq<u8>, p: int, k: int, room: int) -> int
    decreases data.len() - p,
{
    if k < room && 0 <= p < data.len() && !(k > 0 && data[p - 1] == 10) {
        chunk_end(data, p + 1, k + 1, room)
    } else {
        p
    }
}

/// Where a line read by fgets() ends: at its first `\n` or `\r`.
pub open spec fn cut_at(c: Seq<u8>, k: int) -> int
    decreases c.len() - k,
{
    if 0 <= k < c.len() && c[k] != 10 && c[k] != 13 { cut_at(c, k + 1) } else { k }
}

/// One line of the source from `pos` on, `buf` read so far: fgets() reads
/// the rest of a 255-byte buffer at most, the line is cut at its newline,
/// and a line that ends in `\` goes on with the next. The line, where
/// reading stops, and whether there is more to read.
pub open spec fn fetch(data: Seq<u8>, pos: int, buf: Seq<u8>) -> (Seq<u8>, int, bool)
    decreases data.len() - pos,
{
    if pos >= data.len() || pos < 0 {
        (buf, pos, false)
    } else if buf.len() >= MAXALLCHAR - 1 {
        (buf, pos, true)
    } else {
        let room = MAXALLCHAR - 1 - buf.len();
        let end = chunk_end(data, pos, 0, room);
        let chunk = data.subrange(pos, end);
        let b = buf + chunk.subrange(0, cut_at(chunk, 0));
        if end > pos && end <= data.len() && b.len() > 0 && b.last() == 92 {
            fetch(data, end, b.drop_last())
        } else {
            (b, end, true)
        }
    }
}

/// A global comment line's effect on the source's list, name and author,
/// and whether it is `;redcode` (see `globalswitch`).
pub open spec fn switch_effect(
    s: Seq<u8>,
    idx: int,
    loc: usize,
    st: (Seq<(Seq<u8>, usize)>, Seq<u8>, Seq<u8>),
) -> ((Seq<(Seq<u8>, usize)>, Seq<u8>, Seq<u8>), bool) {
    let st0 = skip_spaces(s, idx);
    let j = token_end(s, st0);
    let word = crate::redcode::upper(s.subrange(st0, j));
    let i2 = skip_spaces(s, j);
    let rest = s.subrange(i2, s.len() as int);
    let r = word == seq![82u8, 69, 68, 67, 79, 68, 69] && j - idx == 7;
    let name = if !r && word == seq![78u8, 65, 77, 69] {
        if rest.len() == 0 { seq![85u8, 110, 107, 110, 111, 119, 110] } else { rest }
    } else {
        st.1
    };
    let author = if !r && word == seq![65u8, 85, 84, 72, 79, 82] {
        if rest.len() == 0 { seq![65u8, 110, 111, 110, 121, 109, 111, 117, 115] } else { rest }
    } else {
        st.2
    };
    let list = if !r && word == seq![65u8, 83, 83, 69, 82, 84] {
        st.0.push((s.subrange(0, i2) + rest.subrange(0, semi_end(rest, 0)), loc))
    } else {
        st.0
    };
    ((list, name, author), r)
}

/// What reading the source from `pos` on does to the source's list, name
/// and author: line by line, a `;` comment line is a global switch (the
/// first `;redcode` drops what was read, the second ends the source), a
/// blank line is skipped, any other line is kept up to its comment with its
/// line number.
pub open spec fn read_from(
    data: Seq<u8>,
    pos: int,
    lines: int,
    pstart: bool,
    st: (Seq<(Seq<u8>, usize)>, Seq<u8>, Seq<u8>),
) -> (Seq<(Seq<u8>, usize)>, Seq<u8>, Seq<u8>)
    decreases data.len() - pos + 1,
{
    let (buf, next, more) = fetch(data, pos, Seq::empty());
    let lines2 = if lines < usize::MAX { lines + 1 } else { lines };
    let s0 = skip_spaces(buf, 0);
    let tt = token_class(spec_at(buf, s0), spec_at(buf, s0 + 1));
    let (st2, pstart2, stop) = if tt == Tt::Comm {
        let (e, r) = switch_effect(buf, token_end(buf, s0), lines2 as usize, st);
        if r {
            if !pstart { ((Seq::empty(), e.1, e.2), true, false) } else { (e, true, true) }
        } else {
            (e, pstart, false)
        }
    } else if tt == Tt::Blank {
        (st, pstart, false)
    } else {
        ((st.0.push((buf.subrange(0, semi_end(buf, 0)), lines2 as usize)), st.1, st.2), pstart, false)
    };
    if more && !stop && next > pos && pos >= 0 && next <= data.len() {
        read_from(data, next, lines2, pstart2, st2)
    } else {
        st2
    }
}

/// A FOR counter still defined.
spec fn is_counter(r: Ref) -> bool {
    r.live && r.kind is Stack
}

/// The name of the `t`-th predefined constant.
fn predef_name_bytes(t: usize) -> (r: Vec<u8>)
    requires
        t < 9,
    ensures
        r@ == predef_name(t as int),
{
    let a: &[u8] = if t == 0 {
        &[67u8, 79, 82, 69, 83, 73, 90, 69]
    } else if t == 1 {
        &[77u8, 65, 88, 80, 82, 79, 67, 69, 83, 83, 69, 83]
    } else if t == 2 {
        &[77u8, 65, 88, 67, 89, 67, 76, 69, 83]
    } else if t == 3 {
        &[77u8, 65, 88, 76, 69, 78, 71, 84, 72]
    } else if t == 4 {
        &[77u8, 73, 78, 68, 73, 83, 84, 65, 78, 67, 69]
    } else if t == 5 {
        &[86u8, 69, 82, 83, 73, 79, 78]
    } else if t == 6 {
        &[87u8, 65, 82, 82, 73, 79, 82, 83]
    } else if t == 7 {
        &[82u8, 79, 85, 78, 68, 83]
    } else {
        &[80u8, 83, 80, 65, 67, 69, 83, 73, 90, 69]
    };
    let r = copy_bytes(a);
    assert(r@ =~= predef_name(t as int));
    r
}

/// A word that names an instruction or ORG, END or PIN (case aside),
/// rather than FOR, ROF, EQU or CURLINE.
spec fn mnemonic_word(tok: Seq<u8>) -> bool {
    let up = crate::redcode::upper(tok);
    &&& spec_opname_index(up) < EQUOP
    &&& up != seq![82u8, 79, 70]
    &&& up != seq![70u8, 79, 82]
    &&& up != seq![69u8, 81, 85]
    &&& tok != seq![67u8, 85, 82, 76, 73, 78, 69]
}

/// Upper-case words the assembler knows.
fn is_upper_word(tok: &[u8], w: &[u8]) -> (r: bool)
    ensures
        r == (crate::redcode::upper(tok@) == w@),
{
    let up = upper_bytes(tok);
    same_bytes(&up, w)
}

impl Asm {
    /// Set what symbol `k` stands for (a FOR counter's round).
    fn set_count(&mut self, k: usize, n: u32)
        requires
            old(self).wf(),
            k < old(self).refs@.len(),
        ensures
            final(self).refs@[k as int].kind == RefKind::Stack(n),
            final(self).refs@[k as int].names == old(self).refs@[k as int].names,
            final(self).refs@[k as int].visit == old(self).refs@[k as int].visit,
            final(self).refs@[k as int].live == old(self).refs@[k as int].live,
            forall|j: int| 0 <= j < final(self).refs@.len() && j != k ==> #[trigger] final(self).refs@[j] == old(self).refs@[j],
            final(self).wf(),
            final(self).grew(*old(self)),
            final(self).offset == old(self).offset,
            final(self).refs@.len() == old(self).refs@.len(),
            final(self).diags == old(self).diags,
            final(self).lists == old(self).lists,
            final(self).aline == old(self).aline,
            final(self).vcont == old(self).vcont,
            final(self).statefine == old(self).statefine,
            final(self).line == old(self).line,
    {
        let mut r = Ref { names: Vec::new(), kind: RefKind::Label(0), visit: false, live: false };
        self.refs.set_and_swap(k, &mut r);
        r.kind = RefKind::Stack(n);
        self.refs.set_and_swap(k, &mut r);
        proof {
            let refs = self.refs@;
            assert forall|x: int, m: int| 0 <= x < refs.len() && 0 <= m < refs[x].names@.len()
                implies listed_in(self.index@[name_hash(#[trigger] refs[x].names@[m]@) as int]@, x) by {
                assert(refs[x].names@ == old(self).refs@[x].names@);
            }
            assert forall|x: int| 0 <= x < refs.len() implies kind_ok((#[trigger] refs[x]).kind, self.lists@) by {
                if x != k as int {
                    assert(refs[x] == old(self).refs@[x]);
                }
            }
        }
    }

    /// Undefine the most recent FOR counter.
    fn drop_counter(&mut self)
        requires
            old(self).wf(),
        ensures
            final(self).refs@.len() == old(self).refs@.len(),
            (forall|j: int| 0 <= j < old(self).refs@.len() ==> !is_counter(#[trigger] old(self).refs@[j]))
                ==> final(self).refs == old(self).refs,
            forall|k: int| 0 <= k < old(self).refs@.len() && is_counter(#[trigger] old(self).refs@[k])
                && (forall|j: int| k < j < old(self).refs@.len() ==> !is_counter(#[trigger] old(self).refs@[j])) ==> {
                &&& !final(self).refs@[k].live
                &&& final(self).refs@[k].names == old(self).refs@[k].names
                &&& final(self).refs@[k].kind == old(self).refs@[k].kind
                &&& final(self).refs@[k].visit == old(self).refs@[k].visit
                &&& forall|j: int| 0 <= j < old(self).refs@.len() && j != k ==> #[trigger] final(self).refs@[j] == old(self).refs@[j]
            },
            final(self).wf(),
            final(self).grew(*old(self)),
            final(self).offset == old(self).offset,
            final(self).diags == old(self).diags,
            final(self).lists == old(self).lists,
            final(self).aline == old(self).aline,
            final(self).vcont == old(self).vcont,
            final(self).statefine == old(self).statefine,
            final(self).line == old(self).line,
    {
        let mut k = self.refs.len();
        while k > 0
            invariant
                k <= self.refs@.len(),
                self.wf(),
                self == old(self),
                forall|j: int| k <= j < self.refs@.len() ==> !is_counter(#[trigger] self.refs@[j]),
            decreases k,
        {
            k -= 1;
            let found = self.refs[k].live && match self.refs[k].kind {
                RefKind::Stack(_) => true,
                _ => false,
            };
            assert(found == is_counter(self.refs@[k as int]));
            if found {
                let mut r = Ref { names: Vec::new(), kind: RefKind::Label(0), visit: false, live: false };
                self.refs.set_and_swap(k, &mut r);
                r.live = false;
                self.refs.set_and_swap(k, &mut r);
                proof {
                    let refs = self.refs@;
                    assert forall|x: int, m: int| 0 <= x < refs.len() && 0 <= m < refs[x].names@.len()
                        implies listed_in(self.index@[name_hash(#[trigger] refs[x].names@[m]@) as int]@, x) by {
                        assert(refs[x].names@ == old(self).refs@[x].names@);
                    }
                    assert forall|x: int| 0 <= x < refs.len() implies kind_ok((#[trigger] refs[x]).kind, self.lists@) by {
                        assert(refs[x].kind == old(self).refs@[x].kind);
                    }
                }
                return;
            }
        }
    }

    // ---- reading ---------------------------------------------------------

    /// The file-reading loop of assemble(): fgets() in 256-byte buffers,
    /// `\` continuation, `;redcode` framing, global comment switches.
    fn read(&mut self, data: &[u8])
        requires
            old(self).wf(),
            old(self).aline is None,
        ensures
            final(self).wf(),
            final(self).grew_read(*old(self)),
            final(self).offset == old(self).offset,
            final(self).aline is None,
            final(self).diags == old(self).diags,
            final(self).refs == old(self).refs,
            final(self).lists@.len() == old(self).lists@.len(),
            (lines_of(final(self).lists@[0]@), final(self).name@, final(self).author@)
                == read_from(data@, 0, 0, false, (lines_of(old(self).lists@[0]@), old(self).name@, old(self).author@)),
    {
        let mut pos: usize = 0;
        let mut lines: usize = 0;
        let mut pstart: u32 = 0;
        let mut cont = true;
        let ghost target = read_from(data@, 0, 0, false, (lines_of(old(self).lists@[0]@), old(self).name@, old(self).author@));
        while cont
            invariant
                self.wf(),
                self.grew_read(*old(self)),
                self.offset == old(self).offset,
                self.aline is None,
                self.diags == old(self).diags,
                self.refs == old(self).refs,
                self.lists@.len() == old(self).lists@.len(),
                pos <= data@.len(),
                cont ==> read_from(data@, pos as int, lines as int, pstart != 0,
                    (lines_of(self.lists@[0]@), self.name@, self.author@)) == target,
                !cont ==> (lines_of(self.lists@[0]@), self.name@, self.author@) == target,
            decreases data@.len() - pos + (if cont { 1int } else { 0int }),
        {
            let ghost st0 = (lines_of(self.lists@[0]@), self.name@, self.author@);
            let ghost pos_start = pos as int;
            let ghost lines0 = lines as int;
            let ghost pst0 = pstart != 0;
            let mut buf: Vec<u8> = Vec::new();
            let pos0 = pos;
            let mut more = true;
            while more
                invariant
                    buf@.len() < MAXALLCHAR,
                    more ==> buf@.len() < MAXALLCHAR - 1,
                    pos0 <= pos <= data@.len(),
                    more ==> cont,
                    !more ==> (!cont || pos > pos0),
                    more ==> fetch(data@, pos as int, buf@) == fetch(data@, pos0 as int, Seq::empty()),
                    !more ==> fetch(data@, pos0 as int, Seq::empty()) == (buf@, pos as int, cont),
                decreases data@.len() - pos + (if more { 1int } else { 0int }),
            {
                if pos >= data.len() {
                    cont = false;
                    more = false;
                } else {
                    // fgets(buf + i, MAXALLCHAR - i): up to 255 - i bytes, through '\n'.
                    let room = MAXALLCHAR - 1 - buf.len();
                    let mut chunk: Vec<u8> = Vec::new();
                    let mut newline = false;
                    let p1 = pos;
                    while chunk.len() < room && pos < data.len() && !newline
                        invariant
                            chunk@.len() <= room,
                            p1 <= pos <= data@.len(),
                            chunk@.len() == pos - p1,
                            chunk@.len() == 0 ==> !newline,
                            chunk@ == data@.subrange(p1 as int, pos as int),
                            newline == (chunk@.len() > 0 && data@[pos - 1] == 10),
                            chunk_end(data@, p1 as int, 0, room as int) == chunk_end(data@, pos as int, chunk@.len() as int, room as int),
                        decreases data@.len() - pos,
                    {
                        let c = data[pos];
                        pos += 1;
                        chunk.push(c);
                        if c == 10 {
                            newline = true;
                        }
                    }
                    let mut cut: usize = 0;
                    while cut < chunk.len() && chunk[cut] != 10 && chunk[cut] != 13
                        invariant
                            cut <= chunk@.len(),
                            cut_at(chunk@, 0) == cut_at(chunk@, cut as int),
                        decreases chunk@.len() - cut,
                    {
                        cut += 1;
                    }
                    let mut k: usize = 0;
                    let b0 = buf.len();
                    let ghost buf0 = buf@;
                    while k < cut
                        invariant
                            k <= cut <= chunk@.len(),
                            chunk@.len() <= room,
                            room == MAXALLCHAR - 1 - b0,
                            buf@.len() == b0 + k,
                            buf@ == buf0 + chunk@.subrange(0, k as int),
                        decreases cut - k,
                    {
                        buf.push(chunk[k]);
                        k += 1;
                        assert(chunk@.subrange(0, k as int) =~= chunk@.subrange(0, k - 1).push(chunk@[k - 1]));
                    }
                    proof {
                        assert(chunk@.subrange(0, cut as int) == chunk@.subrange(0, cut_at(chunk@, 0)));
                    }
                    if buf.len() > 0 && buf[buf.len() - 1] == 92 {
                        buf.pop();
                    } else {
                        more = false;
                    }
                }
            }
            let ghost more_data = cont;
            let ghost next = pos as int;
            proof {
                assert(fetch(data@, pos_start, Seq::empty()) == (buf@, next, more_data));
            }
            if lines < usize::MAX {
                lines += 1;
            }
            let (tt, _tok, i) = get_token(&buf, 0);
            match tt {
                Tt::Comm => {
                    let ghost lists_before = self.lists@;
                    let ghost eff = switch_effect(buf@, i as int, lines, st0);
                    let sw = self.globalswitch(&buf, i, lines);
                    proof {
                        assert(sw == eff.1);
                        assert(self.name@ == eff.0.1);
                        assert(self.author@ == eff.0.2);
                        assert(lines_of(self.lists@[0]@) =~= eff.0.0) by {
                            if !sw && crate::redcode::upper(buf@.subrange(skip_spaces(buf@, i as int), token_end(buf@, skip_spaces(buf@, i as int))))
                                == seq![65u8, 83, 83, 69, 82, 84] {
                                assert forall|k: int| 0 <= k < lists_before[0]@.len() implies
                                    lines_of(self.lists@[0]@)[k] == st0.0[k] by {
                                    assert(self.lists@[0]@[k] == lists_before[0]@[k]);
                                }
                            } else {
                                assert(self.lists@[0] == lists_before[0]);
                            }
                        }
                    }
                    if sw {
                        if pstart == 0 {
                            let mut first: Vec<Line> = Vec::new();
                            self.lists.set_and_swap(0, &mut first);
                            pstart = 1;
                            proof {
                                assert(lines_of(self.lists@[0]@) =~= Seq::empty());
                            }
                        } else {
                            cont = false;
                        }
                    }
                },
                Tt::Blank => {},
                _ => {
                    let mut semi: usize = 0;
                    while semi < buf.len() && buf[semi] != 59
                        invariant
                            semi <= buf@.len(),
                            semi_end(buf@, 0) == semi_end(buf@, semi as int),
                        decreases buf@.len() - semi,
                    {
                        semi += 1;
                    }
                    let code = head_bytes(&buf, semi);
                    let mut first: Vec<Line> = Vec::new();
                    self.lists.set_and_swap(0, &mut first);
                    let ghost f0 = first@;
                    first.push(Line { text: code, loc: lines });
                    proof {
                        assert(lines_of(first@) =~= lines_of(f0).push((buf@.subrange(0, semi_end(buf@, 0)), lines)));
                    }
                    self.lists.set_and_swap(0, &mut first);
                },
            }
            proof {
                let s0b = skip_spaces(buf@, 0);
                assert(tt == token_class(spec_at(buf@, s0b), spec_at(buf@, s0b + 1)));
                assert(read_from(data@, pos_start, lines0, pst0, st0) == target);
                if cont {
                    assert(read_from(data@, pos_start, lines0, pst0, st0)
                        == read_from(data@, pos as int, lines as int, pstart != 0,
                            (lines_of(self.lists@[0]@), self.name@, self.author@)));
                }
            }
        }
    }
}

impl Asm {
    /// A comment line at the top level: `;name`, `;author` and `;assert`
    /// are read; returns true for `;redcode`.
    fn globalswitch(&mut self, s: &[u8], idx: usize, loc: usize) -> (r: bool)
        requires
            old(self).wf(),
            old(self).aline is None,
            idx <= s@.len(),
        ensures
            final(self).wf(),
            final(self).grew_read(*old(self)),
            final(self).offset == old(self).offset,
            final(self).aline is None,
            final(self).diags == old(self).diags,
            final(self).refs == old(self).refs,
            ({
                let st = skip_spaces(s@, idx as int);
                let j = token_end(s@, st);
                let word = crate::redcode::upper(s@.subrange(st, j));
                let i2 = skip_spaces(s@, j);
                let rest = s@.subrange(i2, s@.len() as int);
                &&& r == (word == seq![82u8, 69, 68, 67, 79, 68, 69] && j - idx == 7)
                &&& final(self).name@ == (if !r && word == seq![78u8, 65, 77, 69] {
                    if rest.len() == 0 { seq![85u8, 110, 107, 110, 111, 119, 110] } else { rest }
                } else {
                    old(self).name@
                })
                &&& final(self).author@ == (if !r && word == seq![65u8, 85, 84, 72, 79, 82] {
                    if rest.len() == 0 { seq![65u8, 110, 111, 110, 121, 109, 111, 117, 115] } else { rest }
                } else {
                    old(self).author@
                })
                &&& final(self).lists@.len() == old(self).lists@.len()
                &&& forall|l: int| 1 <= l < old(self).lists@.len() ==> #[trigger] final(self).lists@[l] == old(self).lists@[l]
                &&& if !r && word == seq![65u8, 83, 83, 69, 82, 84] {
                    &&& final(self).lists@[0]@.len() == old(self).lists@[0]@.len() + 1
                    &&& forall|k: int| 0 <= k < old(self).lists@[0]@.len() ==> #[trigger] final(self).lists@[0]@[k] == old(self).lists@[0]@[k]
                    &&& final(self).lists@[0]@.last().text@ == s@.subrange(0, i2) + rest.subrange(0, semi_end(rest, 0))
                    &&& final(self).lists@[0]@.last().loc == loc
                } else {
                    final(self).lists@[0] == old(self).lists@[0]
                }
            }),
    {
        let ghost st = skip_spaces(s@, idx as int);
        let (_, tok, i) = get_token(s, idx);
        assert(tok@ =~= s@.subrange(st, i as int));
        let up = upper_bytes(&tok);
        if same_bytes(&up, &[82u8, 69, 68, 67, 79, 68, 69]) && i - idx == 7 {
            assert(up@ =~= seq![82u8, 69, 68, 67, 79, 68, 69]);
            return true;
        }
        proof {
            if up@ == seq![82u8, 69, 68, 67, 79, 68, 69] {
                assert([82u8, 69, 68, 67, 79, 68, 69]@ =~= seq![82u8, 69, 68, 67, 79, 68, 69]);
            }
        }
        let ghost j = i as int;
        let mut i = i;
        while i < s.len() && is_space(s[i])
            invariant
                i <= s@.len(),
                skip_spaces(s@, j) == skip_spaces(s@, i as int),
            decreases s@.len() - i,
        {
            i += 1;
        }
        let rest = tail_bytes(s, i);
        let is_name = same_bytes(&up, &[78u8, 65, 77, 69]);
        let is_author = same_bytes(&up, &[65u8, 85, 84, 72, 79, 82]);
        let is_assert = same_bytes(&up, &[65u8, 83, 83, 69, 82, 84]);
        proof {
            assert(is_name == (up@ == seq![78u8, 65, 77, 69])) by {
                assert([78u8, 65, 77, 69]@ =~= seq![78u8, 65, 77, 69]);
            }
            assert(is_author == (up@ == seq![65u8, 85, 84, 72, 79, 82])) by {
                assert([65u8, 85, 84, 72, 79, 82]@ =~= seq![65u8, 85, 84, 72, 79, 82]);
            }
            assert(is_assert == (up@ == seq![65u8, 83, 83, 69, 82, 84])) by {
                assert([65u8, 83, 83, 69, 82, 84]@ =~= seq![65u8, 83, 83, 69, 82, 84]);
            }
        }
        if is_name {
            self.name = if rest.len() == 0 { vec![85u8, 110, 107, 110, 111, 119, 110] } else { rest };
        } else if is_author {
            self.author = if rest.len() == 0 { vec![65u8, 110, 111, 110, 121, 109, 111, 117, 115] } else { rest };
        } else if is_assert {
            // nocmnt(str + i): keep the first ';', drop a second comment.
            let mut semi: usize = 0;
            while semi < rest.len() && rest[semi] != 59
                invariant
                    semi <= rest@.len(),
                    semi_end(rest@, 0) == semi_end(rest@, semi as int),
                decreases rest@.len() - semi,
            {
                semi += 1;
            }
            let mut text = head_bytes(s, i);
            let tail = head_bytes(&rest, semi);
            let ghost t0 = text@;
            let mut k: usize = 0;
            while k < tail.len()
                invariant
                    k <= tail@.len(),
                    text@ == t0 + tail@.subrange(0, k as int),
                decreases tail@.len() - k,
            {
                text.push(tail[k]);
                k += 1;
                assert(tail@.subrange(0, k as int) =~= tail@.subrange(0, k - 1).push(tail@[k - 1]));
            }
            assert(tail@.subrange(0, tail@.len() as int) =~= tail@);
            let mut first: Vec<Line> = Vec::new();
            self.lists.set_and_swap(0, &mut first);
            let ghost f0 = first@;
            first.push(Line { text, loc });
            self.lists.set_and_swap(0, &mut first);
        }
        false
    }

    // ---- pass 1 ----------------------------------------------------------

    /// Pass 1: rewrite every line of the source.
    fn expand(&mut self)
        requires
            old(self).wf(),
        ensures
            final(self).aline is None,
            final(self).wf(),
            final(self).grew(*old(self)),
            final(self).offset == old(self).offset,
    {
        self.vcont = true;
        self.statefine = 0;
        let mut p: usize = 0;
        while p < self.lists[0].len() && self.vcont
            invariant
                self.wf(),
                self.grew(*old(self)),
                self.offset == old(self).offset,
                self.lists@[0]@.len() == old(self).lists@[0]@.len(),
            decreases self.lists@[0]@.len() - p,
        {
            self.aline = Some((0, p));
            let text = self.text_of(0, p);
            let mut d: Vec<u8> = Vec::new();
            let r = self.trav2(&text, 0, &mut d, SNIL, MAX_NESTING);
            if r == SCOM {
                self.addline(&d);
            } else if r == SROF {
                self.err(E::For);
            }
            p = match self.aline {
                Some((l, q)) => if l == 0 && q >= p { q + 1 } else { p + 1 },
                None => p + 1,
            };
        }
        self.aline = None;
    }

    /// A FOR block: its count, then its lines that many times with the
    /// counter set, up to the ROF.
    #[verifier::rlimit(80)]
    fn blkfor(&mut self, buf: &[u8], at: usize, dest: &mut Vec<u8>, depth: u32) -> (r: i32)
        requires
            old(self).wf(),
            at <= buf@.len(),
        ensures
            r == SFOR,
            final(self).diags@.len() > old(self).diags@.len() || final(self).statefine > 0
                || final(self).refs@.len() > old(self).refs@.len(),
            old(self).symtbl@.len() > 1 ==> {
                &&& old(self).refs@.len() < final(self).refs@.len()
                &&& final(self).refs@[old(self).refs@.len() as int].names@.len() == old(self).symtbl@.len() - 1
                &&& forall|k: int| 0 <= k < old(self).symtbl@.len() - 1
                    ==> (#[trigger] final(self).refs@[old(self).refs@.len() as int].names@[k])@ == old(self).symtbl@[k]@
            },
            final(self).wf(),
            final(self).grew(*old(self)),
            final(self).offset == old(self).offset,
        decreases depth, buf@.len() - at, 2nat,
    {
        let mut group: Vec<Vec<u8>> = Vec::new();
        let nsym = self.symtbl.len();
        if nsym > 0 {
            let counter = copy_bytes(&self.symtbl[nsym - 1]);
            if nsym > 1 {
                let mut rest: Vec<Vec<u8>> = Vec::new();
                let mut k: usize = 0;
                while k < nsym - 1
                    invariant
                        k <= nsym - 1,
                        nsym == self.symtbl@.len(),
                        self.symtbl == old(self).symtbl,
                        rest@.len() == k,
                        forall|q: int| 0 <= q < k ==> (#[trigger] rest@[q])@ == old(self).symtbl@[q]@,
                    decreases nsym - 1 - k,
                {
                    rest.push(copy_bytes(&self.symtbl[k]));
                    k += 1;
                }
                let line = self.line;
                self.add_ref(rest, RefKind::Label(line), false);
            }
            self.symtbl.clear();
            group.push(counter);
        }
        dest.clear();
        self.trav2(buf, at, dest, SVAL, depth);
        let (st, result) = self.eval(dest);
        if st < OK_EXPR {
            self.err(if st == DIV_ZERO { E::Div } else { E::Evl });
        } else if result <= 0 {
            if st == OVERFLOW {
                self.err(E::Ofl);
            }
            if self.statefine < u32::MAX {
                self.statefine = self.statefine + 1;
            }
        } else {
            if st == OVERFLOW {
                self.err(E::Ofl);
            }
            self.add_ref(group, RefKind::Stack(1), true);
            let me = self.refs.len() - 1;
            let limit: u32 = (#[verifier::truncate] (result as u16)) as u32;
            let cline = self.aline;
            let ghost mid = *self;
            let ghost old_depth = depth;
            let mut n: u32 = 1;
            while self.vcont && n <= limit && self.aline.is_some()
                invariant
                    self.wf(),
                    self.grew(*old(self)),
                    self.offset == old(self).offset,
                    me < self.refs@.len(),
                    limit <= 0xffff,
                    n >= 1,
                    cline matches Some((l, i)) ==> l < mid.lists@.len() && i < mid.lists@[l as int]@.len(),
                    self.grew(mid),
                    depth == old_depth,
                decreases limit + 1 - n,
            {
                self.set_count(me, n);
                self.aline = cline;
                match cline {
                    Some((l, i)) => {
                        let mut p = i;
                        while self.vcont
                            invariant
                                self.wf(),
                                self.grew(*old(self)),
                                self.offset == old(self).offset,
                                me < self.refs@.len(),
                                l < mid.lists@.len(),
                                self.grew(mid),
                                l < self.lists@.len(),
                                p < self.lists@[l as int]@.len(),
                                cline matches Some((l2, i2)) ==> l2 < mid.lists@.len() && i2 < mid.lists@[l2 as int]@.len(),
                            decreases self.lists@[l as int]@.len() - p,
                        {
                            if p < self.lists[l].len() - 1 {
                                p = p + 1;
                                self.aline = Some((l, p));
                                dest.clear();
                                let text = self.text_of(l, p);
                                if depth == 0 {
                                    self.err(E::Deep);
                                    self.vcont = false;
                                } else {
                                    let r = self.trav2(&text, 0, dest, SNIL, depth - 1);
                                    match self.aline {
                                        Some((l2, p2)) => {
                                            if l2 == l && p2 >= p {
                                                p = p2;
                                            }
                                        },
                                        None => {},
                                    }
                                    if r == SROF {
                                        break;
                                    } else if r == SCOM {
                                        self.addline(dest);
                                    }
                                }
                            } else {
                                self.err(E::Rof);
                                self.vcont = false;
                                break;
                            }
                        }
                    },
                    None => {
                        self.err(E::Rof);
                        self.vcont = false;
                    },
                }
                // Guard against runaway expansion (pMARS would exhaust memory).
                if self.out.len() > 100000 {
                    self.err(E::Exx);
                    self.vcont = false;
                }
                if self.for_rounds < MAX_FOR_ROUNDS {
                    self.for_rounds = self.for_rounds + 1;
                } else {
                    self.err(E::Big);
                    self.vcont = false;
                }
                n += 1;
            }
            self.drop_counter();
        }
        SFOR
    }

    /// A single- or multi-line EQU: the text, and the EQU lines right
    /// after it, become a symbol's text.
    fn equtbl(&mut self, buf: &[u8], at: usize) -> (r: i32)
        requires
            old(self).wf(),
            at <= buf@.len(),
        ensures
            r == SVAL,
            old(self).symtbl@.len() == 0 ==> final(self).refs == old(self).refs
                && final(self).diags@.len() == old(self).diags@.len() + 1 && final(self).diags@.last().msg@ == error_text(E::Ann)@,
            old(self).symtbl@.len() > 0 ==> {
                &&& final(self).diags == old(self).diags
                &&& final(self).refs@.len() == old(self).refs@.len() + 1
                &&& final(self).refs@.last().names == old(self).symtbl
                &&& final(self).refs@.last().kind == RefKind::Text(old(self).lists@.len() as usize)
                &&& final(self).lists@.len() == old(self).lists@.len() + 1
                &&& final(self).lists@.last()@[0].text@ == buf@.subrange(at as int, buf@.len() as int)
                &&& final(self).symtbl@.len() == 0
            },
            final(self).wf(),
            final(self).grew(*old(self)),
            final(self).offset == old(self).offset,
    {
        if self.symtbl.len() > 0 {
            let loc = self.cur_loc();
            let mut body: Vec<Line> = Vec::new();
            body.push(Line { text: tail_bytes(buf, at), loc });
            match self.aline {
                Some((l, i)) => {
                    let mut p = i;
                    while p < self.lists[l].len() - 1
                        invariant
                            self.wf(),
                            self.grew(*old(self)),
                            self.offset == old(self).offset,
                            l < old(self).lists@.len(),
                            l < self.lists@.len(),
                            p < self.lists@[l as int]@.len(),
                            body@.len() >= 1,
                            body@[0].text@ == buf@.subrange(at as int, buf@.len() as int),
                            self.symtbl == old(self).symtbl,
                            self.diags == old(self).diags,
                            self.refs == old(self).refs,
                            self.lists == old(self).lists,
                        decreases self.lists@[l as int]@.len() - p,
                    {
                        let t = self.text_of(l, p + 1);
                        let (_, tok, j) = get_token(&t, 0);
                        if is_upper_word(&tok, &[69u8, 81, 85]) {
                            p = p + 1;
                            self.aline = Some((l, p));
                            let loc2 = self.lists[l][p].loc;
                            body.push(Line { text: tail_bytes(&t, j), loc: loc2 });
                        } else {
                            break;
                        }
                    }
                },
                None => {},
            }
            self.lists.push(body);
            let id = self.lists.len() - 1;
            proof {
                assert forall|k: int| 0 <= k < self.refs@.len() implies kind_ok((#[trigger] self.refs@[k]).kind, self.lists@) by {
                    if let RefKind::Text(l) = self.refs@[k].kind {
                        assert(self.lists@[l as int] == old(self).lists@[l as int] || l < self.lists@.len());
                    }
                }
            }
            let mut names_: Vec<Vec<u8>> = Vec::new();
            std::mem::swap(&mut names_, &mut self.symtbl);
            self.add_ref(names_, RefKind::Text(id), false);
        } else {
            self.err(E::Ann);
        }
        SVAL
    }

    /// An EQU name: its text rewritten in place, then the rest of the line.
    fn equsub(&mut self, buf: &[u8], at: usize, dest: &mut Vec<u8>, wdecl: i32, ri: usize, depth: u32) -> (r: i32)
        requires
            old(self).wf(),
            at <= buf@.len(),
            ri < old(self).refs@.len(),
        ensures
            !(old(self).refs@[ri as int].kind is Text) ==> r == SERR && final(self).diags == old(self).diags,
            old(self).refs@[ri as int].kind is Text && depth == 0 ==> r == SERR && !final(self).vcont
                && final(self).diags@.len() == old(self).diags@.len() + 1 && final(self).diags@.last().msg@ == error_text(E::Deep)@,
            final(self).wf(),
            final(self).grew(*old(self)),
            final(self).offset == old(self).offset,
        decreases depth, buf@.len() - at, 2nat,
    {
        let list = match self.kind_of(ri) {
            RefKind::Text(l) => l,
            _ => {
                return SERR;
            },
        };
        if depth == 0 {
            self.err(E::Deep);
            self.vcont = false;
            return SERR;
        }
        self.set_visit(ri, true);
        let saved = self.aline;
        let mut p: usize = 0;
        self.aline = Some((list, 0));
        let text = self.text_of(list, 0);
        let mut w = self.trav2(&text, 0, dest, wdecl, depth - 1);
        match self.aline {
            Some((l2, p2)) => {
                if l2 == list && p2 >= p {
                    p = p2;
                }
            },
            None => {},
        }
        while p < self.lists[list].len() - 1 && self.vcont
            invariant
                self.wf(),
                self.grew(*old(self)),
                self.offset == old(self).offset,
                ri < self.refs@.len(),
                list < old(self).lists@.len(),
                list < self.lists@.len(),
                p < self.lists@[list as int]@.len(),
                depth > 0,
                saved matches Some((l, i)) ==> l < self.lists@.len() && i < self.lists@[l as int]@.len(),
            decreases self.lists@[list as int]@.len() - p,
        {
            if self.statefine == 0 && w == SCOM {
                self.addline(dest);
            }
            p = p + 1;
            self.aline = Some((list, p));
            dest.clear();
            let text = self.text_of(list, p);
            w = self.trav2(&text, 0, dest, SNIL, depth - 1);
            match self.aline {
                Some((l2, p2)) => {
                    if l2 == list && p2 >= p {
                        p = p2;
                    }
                },
                None => {},
            }
        }
        self.aline = saved;
        if is_space(byte_at(buf, at)) {
            concat(dest, &[32u8]);
        }
        self.set_visit(ri, false);
        self.trav2(buf, at, dest, w, depth)
    }

    /// trav2(): rewrite one line (or the rest of one, from `at`) into
    /// `dest`: labels collected, symbols replaced by their text or value,
    /// FOR and EQU handled. Returns the state it ends in.
    fn trav2(&mut self, buf: &[u8], at: usize, dest: &mut Vec<u8>, wdecl: i32, depth: u32) -> (r: i32)
        requires
            old(self).wf(),
            at <= buf@.len(),
        ensures
            ({
                let st = skip_spaces(buf@, at as int);
                let tt = token_class(spec_at(buf@, st), spec_at(buf@, st + 1));
                &&& tt == Tt::Blank ==> r == wdecl && final(self).diags == old(self).diags && final(self).refs == old(self).refs
                &&& tt == Tt::Comm ==> r == wdecl
                &&& tt != Tt::Blank && tt != Tt::Comm && tt != Tt::Char && old(self).statefine > 0 ==> r == SNIL
                    && final(self).diags == old(self).diags
                &&& tt != Tt::Blank && tt != Tt::Comm && tt != Tt::Char && old(self).statefine == 0 && wdecl <= SLBL
                    ==> r == SERR && final(self).diags@.len() == old(self).diags@.len() + 1
                    && final(self).diags@.last().msg@ == error_text(E::Tok)@
                &&& tt == Tt::Char && mnemonic_word(buf@.subrange(st, token_end(buf@, st))) && old(self).statefine == 0
                    && wdecl <= SLBL ==> r == SCOM || r == SERR
            }),
            final(self).wf(),
            final(self).grew(*old(self)),
            final(self).offset == old(self).offset,
        decreases depth, buf@.len() - at, 1nat,
    {
        let (tt, token, idxp) = get_token(buf, at);
        match tt {
            Tt::Blank => wdecl,
            Tt::Comm => {
                if wdecl == SNIL && self.statefine == 0 {
                    let (_, t2, idx) = get_token(buf, idxp);
                    if is_upper_word(&t2, &[65u8, 83, 83, 69, 82, 84]) {
                        self.trav2(buf, idx, dest, SVAL, depth);
                        let (st, v) = self.eval(dest);
                        if st < OK_EXPR {
                            self.err(E::Bas);
                        } else {
                            if st == OVERFLOW {
                                self.err(E::Ofl);
                            }
                            self.noassert = false;
                            if v == 0 {
                                self.err(E::Chk);
                            }
                        }
                    }
                }
                wdecl
            },
            Tt::Char => self.trav2_word(buf, at, token, idxp, dest, wdecl, depth),
            _ => {
                if self.statefine > 0 {
                    return SNIL;
                } else if wdecl <= SLBL {
                    self.err(E::Tok);
                } else if concat(dest, &token) {
                    return self.trav2(buf, idxp, dest, wdecl, depth);
                } else {
                    self.err(E::Buf);
                }
                SERR
            },
        }
    }

    /// trav2() on a word: ROF, FOR, CURLINE, EQU, an opcode, a symbol or a
    /// new label.
    fn trav2_word(
        &mut self,
        buf: &[u8],
        at: usize,
        token: Vec<u8>,
        idxp: usize,
        dest: &mut Vec<u8>,
        wdecl: i32,
        depth: u32,
    ) -> (r: i32)
        requires
            old(self).wf(),
            at < idxp <= buf@.len(),
        ensures
            crate::redcode::upper(token@) == seq![82u8, 79, 70] && old(self).statefine > 0 ==> r == SERR
                && final(self).statefine == old(self).statefine - 1 && final(self).diags == old(self).diags,
            crate::redcode::upper(token@) == seq![82u8, 79, 70] && old(self).statefine == 0 && wdecl <= SLBL ==> r == SROF
                && final(self).diags == old(self).diags,
            crate::redcode::upper(token@) == seq![82u8, 79, 70] && old(self).statefine == 0 && wdecl > SLBL ==> r == SERR
                && final(self).diags@.len() == old(self).diags@.len() + 1 && final(self).diags@.last().msg@ == error_text(E::App)@,
            crate::redcode::upper(token@) == seq![70u8, 79, 82] && old(self).statefine == 0 && wdecl <= SLBL ==> r == SFOR,
            mnemonic_word(token@) && old(self).statefine == 0 && wdecl <= SLBL ==> r == SCOM || r == SERR,
            crate::redcode::upper(token@) == seq![70u8, 79, 82] && old(self).statefine > 0 ==> r == SERR
                && final(self).diags == old(self).diags
                && final(self).statefine == (if old(self).statefine < u32::MAX { old(self).statefine + 1 } else { old(self).statefine as int }),
            final(self).wf(),
            final(self).grew(*old(self)),
            final(self).offset == old(self).offset,
        decreases depth, buf@.len() - at, 0nat,
    {
        let blen = buf.len();
        let up = upper_bytes(&token);
        let op = opname_index(&up);
        if same_bytes(&up, &[82u8, 79, 70]) {
            if self.statefine > 0 {
                self.statefine = self.statefine - 1;
            } else if wdecl <= SLBL {
                return SROF;
            } else {
                self.err(E::App);
            }
        } else if same_bytes(&up, &[70u8, 79, 82]) {
            if self.statefine > 0 {
                if self.statefine < u32::MAX {
                    self.statefine = self.statefine + 1;
                }
            } else if wdecl <= SLBL {
                return self.blkfor(buf, idxp, dest, depth);
            } else {
                self.err(E::App);
            }
        } else if same_bytes(&token, &[67u8, 85, 82, 76, 73, 78, 69]) {
            if self.statefine > 0 {
                return SNIL;
            } else if wdecl > SLBL {
                let mut s = number_text(self.line as i64, false);
                if is_space(byte_at(buf, idxp)) {
                    s.push(32);
                }
                if concat(dest, &s) {
                    return self.trav2(buf, idxp, dest, wdecl, depth);
                }
                self.err(E::Buf);
            } else {
                self.err(E::Misc);
            }
        } else if same_bytes(&up, &[69u8, 81, 85]) {
            if self.statefine > 0 {
                return SNIL;
            } else if wdecl <= SLBL {
                return self.equtbl(buf, idxp);
            } else {
                self.err(E::App);
            }
        } else if op < EQUOP {
            if self.statefine > 0 {
                return SNIL;
            } else if wdecl <= SLBL {
                let mut s = up;
                let mut j = idxp;
                while j < buf.len() && !is_space(buf[j])
                    invariant
                        idxp <= j <= buf@.len(),
                    decreases buf@.len() - j,
                {
                    s.push(buf[j]);
                    j += 1;
                }
                if is_space(byte_at(buf, j)) {
                    s.push(32);
                }
                if !concat(dest, &s) {
                    self.err(E::Buf);
                } else {
                    let w = self.trav2(buf, j, dest, if op < OPNUM { SVAL } else { SPSE }, depth);
                    if w != SERR {
                        if self.symtbl.len() > 0 {
                            let mut names_: Vec<Vec<u8>> = Vec::new();
                            std::mem::swap(&mut names_, &mut self.symtbl);
                            let line = self.line;
                            self.add_ref(names_, RefKind::Label(line), false);
                        }
                        if op < OPNUM {
                            if self.line < u32::MAX {
                                self.line = self.line + 1;
                            }
                        } else if op == ENDOP {
                            self.vcont = false;
                        }
                        return SCOM;
                    }
                    return SERR;
                }
            } else {
                self.err(E::App);
            }
        } else if self.statefine == 0 {
            let mut token = token;
            let mut ok = true;
            let mut idxp = idxp;
            // name&counter: append a FOR counter as two digits.
            loop
                invariant
                    self.wf(),
                    self.grew(*old(self)),
                    self.offset == old(self).offset,
                    at < idxp <= buf@.len(),
                    blen == buf@.len(),
                decreases buf@.len() - idxp,
            {
                if !(byte_at(buf, idxp) == 38 && is_alpha(byte_at(buf, idxp + 1))) {
                    break;
                }
                let (t, name, j) = get_token(buf, idxp + 1);
                idxp = j;
                if t != Tt::Char || !ok {
                    break;
                }
                let found = self.lookup(&name);
                let counter = match found {
                    Some(k) => match self.refs[k].kind {
                        RefKind::Stack(v) => Some(v),
                        _ => None,
                    },
                    None => None,
                };
                match counter {
                    Some(v) => {
                        let s = number_text(v as i64, true);
                        if !concat(&mut token, &s) {
                            self.err(E::Buf);
                        }
                    },
                    None => {
                        self.err(E::Cat);
                        ok = false;
                    },
                }
            }
            match self.lookup(&token) {
                Some(k) => {
                    let kind = self.kind_of(k);
                    match kind {
                        RefKind::Text(_) => {
                            if self.refs[k].visit {
                                self.err(E::Rec);
                            } else {
                                return self.equsub(buf, idxp, dest, wdecl, k, depth);
                            }
                        },
                        _ => {
                            if wdecl > SLBL {
                                let mut s = match kind {
                                    RefKind::Stack(v) => number_text(v as i64, true),
                                    RefKind::Label(v) => {
                                        if wdecl == SPSE {
                                            number_text(v as i64, false)
                                        } else {
                                            number_text(v as i64 - self.line as i64, false)
                                        }
                                    },
                                    RefKind::Text(_) => Vec::new(),
                                };
                                if is_space(byte_at(buf, idxp)) {
                                    s.push(32);
                                }
                                if concat(dest, &s) {
                                    return self.trav2(buf, idxp, dest, wdecl, depth);
                                }
                                self.err(E::Buf);
                            } else {
                                self.err(E::Idn);
                            }
                        },
                    }
                },
                None => {
                    if wdecl <= SLBL {
                        if self.symtbl.len() < GRPMAX {
                            self.symtbl.push(token);
                        } else {
                            self.err(E::Grp);
                        }
                        let mut j = idxp;
                        if byte_at(buf, j) == 58 {
                            j += 1;
                        }
                        return self.trav2(buf, j, dest, SLBL, depth);
                    } else {
                        if is_space(byte_at(buf, idxp)) {
                            token.push(32);
                        }
                        if concat(dest, &token) {
                            return self.trav2(buf, idxp, dest, wdecl, depth);
                        }
                        self.err(E::Buf);
                    }
                },
            }
        } else {
            return self.trav2(buf, idxp, dest, SNIL, depth);
        }
        SERR
    }
}

/// What the line automaton keeps of a line: the parse so far, the
/// symbols being substituted, and the errors it reported.
struct Parse {
    opcode: usize,
    modifier: Option<usize>,
    filled: bool,
    laststate: St,
    a_expr: Seq<u8>,
    b_expr: Seq<u8>,
    a_mode: Mode,
    b_mode: Mode,
    line_err: bool,
    visit: Seq<bool>,
    errs: Seq<E>,
}

/// What the line automaton reads of the assembler: its symbols, its lists
/// of text and the number of the instruction being encoded.
struct Env {
    refs: Seq<Ref>,
    lists: Seq<Vec<Line>>,
    line: u32,
}

spec fn env_of(a: Asm) -> Env {
    Env { refs: a.refs@, lists: a.lists@, line: a.line }
}

/// `p` with error `e` reported.
spec fn p_err(p: Parse, e: E) -> Parse {
    Parse { errs: p.errs.push(e), line_err: true, ..p }
}

/// `s` appended to the A or the B expression when it fits, and whether it
/// did.
spec fn p_add(p: Parse, b_side: bool, s: Seq<u8>) -> (Parse, bool) {
    let cur = if b_side { p.b_expr } else { p.a_expr };
    if cur.len() + s.len() < MAXALLCHAR {
        (if b_side { Parse { b_expr: cur + s, ..p } } else { Parse { a_expr: cur + s, ..p } }, true)
    } else {
        (p, false)
    }
}

/// The index among the modifiers of an upper-case word, from `m` on.
spec fn mod_from(u: Seq<u8>, m: int) -> Option<usize>
    decreases 7 - m,
{
    if m >= 7 || m < 0 {
        None
    } else if crate::redcode::modifier_text(modifier_at(m)) == u {
        Some(m as usize)
    } else {
        mod_from(u, m + 1)
    }
}

/// The most recent live symbol among the first `k` named `name`.
spec fn look_from(refs: Seq<Ref>, name: Seq<u8>, k: int) -> Option<int>
    decreases k,
{
    if k <= 0 {
        None
    } else if names(refs[k - 1], name) {
        Some(k - 1)
    } else {
        look_from(refs, name, k - 1)
    }
}

/// The text a symbol stands for where an operand starts: its EQU text, or
/// its value relative to the current instruction.
spec fn ref_text(env: Env, k: int) -> Seq<u8> {
    match env.refs[k].kind {
        RefKind::Text(l) => env.lists[l as int]@[0].text@,
        RefKind::Label(v) => number_bytes(v - env.line, false),
        RefKind::Stack(v) => number_bytes(v - env.line, false),
    }
}

/// The text a symbol stands for inside an expression: the same, but a
/// label or counter in the B field of a pseudo-op gives its value itself.
spec fn ref_text_expr(env: Env, k: int, b_side: bool, opcode: usize) -> Seq<u8> {
    match env.refs[k].kind {
        RefKind::Text(l) => env.lists[l as int]@[0].text@,
        RefKind::Label(v) => if !b_side || opcode < OPNUM { number_bytes(v - env.line, false) } else { number_bytes(v as int, false) },
        RefKind::Stack(v) => if !b_side || opcode < OPNUM { number_bytes(v - env.line, false) } else { number_bytes(v as int, false) },
    }
}

/// The line automaton (pass 2) on `buf` from `at` in `state`, with the
/// symbols and lists of `env`: what it parses and reports.
spec fn auto(env: Env, p0: Parse, buf: Seq<u8>, at: int, state: St, depth: nat) -> Parse
    decreases depth, buf.len() - at, rank(state), 1nat,
{
    if at < 0 || at > buf.len() {
        p0
    } else {
        let p = Parse { laststate: state, ..p0 };
        let s = skip_spaces(buf, at);
        let tt = token_class(spec_at(buf, s), spec_at(buf, s + 1));
        let idx = token_end(buf, s);
        let tok = buf.subrange(s, idx);
        let adv = at < idx <= buf.len();
        match state {
            St::Op => {
                let p = Parse { filled: false, ..p };
                if tt == Tt::Char {
                    let op = spec_opname_index(crate::redcode::upper(tok)) as usize;
                    let p = Parse { opcode: op, ..p };
                    if op < OPNUM {
                        if adv { auto(env, p, buf, idx, St::ModAddrExp, depth) } else { p }
                    } else if op < EQUOP {
                        if adv { auto(env, p, buf, idx, St::Expr, depth) } else { p }
                    } else {
                        p_err(p, E::Exp)
                    }
                } else {
                    p_err(p, E::Exp)
                }
            },
            St::ModAddrExp | St::AddrExpA | St::AddrExpB => {
                let p = Parse { filled: false, ..p };
                let next = if state == St::AddrExpB { St::Expr } else { St::ExpFs };
                if tt == Tt::Modf {
                    if state == St::ModAddrExp {
                        if adv { auto(env, p, buf, idx, St::Modf, depth) } else { p }
                    } else {
                        p_err(p, E::Exp)
                    }
                } else if tt == Tt::Addr {
                    let m = mode_of_byte(tok[0]);
                    let p = if state == St::AddrExpB { Parse { b_mode: m, ..p } } else { Parse { a_mode: m, ..p } };
                    if adv { auto(env, p, buf, idx, next, depth) } else { p }
                } else if tt == Tt::Numb || tt == Tt::Expr {
                    auto(env, p, buf, at, next, depth)
                } else if tt == Tt::Char {
                    if adv { char_ref_spec(env, p, buf, at, idx, tok, state, next, depth) } else { p }
                } else if tt == Tt::Blank {
                    p
                } else if state == St::ModAddrExp {
                    p_err(p, E::App)
                } else {
                    p_err(p, E::Exp)
                }
            },
            St::Modf => {
                let p = Parse { filled: false, ..p };
                if tt == Tt::Char {
                    match mod_from(crate::redcode::upper(tok), 0) {
                        Some(m) => {
                            let p = Parse { modifier: Some(m), ..p };
                            if adv { auto(env, p, buf, idx, St::AddrExpA, depth) } else { p }
                        },
                        None => p_err(p, E::Exp),
                    }
                } else if tt == Tt::Blank {
                    p
                } else {
                    p_err(p, E::Exp)
                }
            },
            St::ExpFs | St::Expr => {
                let b_side = state == St::Expr;
                if tt == Tt::Fsep {
                    if !b_side {
                        if adv { auto(env, p, buf, idx, St::AddrExpB, depth) } else { p }
                    } else {
                        p_err(p, E::App)
                    }
                } else if tt == Tt::Addr {
                    let c = tok[0];
                    if !(c == 62 || c == 60 || c == 42) {
                        p_err(p, E::App)
                    } else {
                        let (p1, ok) = p_add(p, b_side, tok);
                        let p2 = if !ok { p_err(p1, E::Buf) } else { p1 };
                        let p3 = Parse { filled: true, ..p2 };
                        if adv { auto(env, p3, buf, idx, state, depth) } else { p3 }
                    }
                } else if tt == Tt::Numb || tt == Tt::Expr {
                    let grown = tt == Tt::Numb && tok.len() + 1 < MAXALLCHAR;
                    let tok2 = if grown { tok.push(32u8) } else { tok };
                    let p1 = if tt == Tt::Numb && !grown { p_err(p, E::Buf) } else { p };
                    let (p2, ok2) = p_add(p1, b_side, tok2);
                    let p3 = if !ok2 { p_err(p2, E::Buf) } else { p2 };
                    let p4 = Parse { filled: true, ..p3 };
                    if adv { auto(env, p4, buf, idx, state, depth) } else { p4 }
                } else if tt == Tt::Char {
                    if adv { char_expr_spec(env, p, buf, at, idx, tok, b_side, depth) } else { p }
                } else if tt == Tt::Blank {
                    p
                } else {
                    p_err(p, E::App)
                }
            },
        }
    }
}

/// A word where an operand starts: a symbol's text parsed in its place, or
/// a one-letter word taken as the operand.
spec fn char_ref_spec(
    env: Env,
    p: Parse,
    buf: Seq<u8>,
    at: int,
    idx: int,
    tok: Seq<u8>,
    state: St,
    single: St,
    depth: nat,
) -> Parse
    decreases depth, buf.len() - at, 1nat, 0nat,
{
    match look_from(env.refs, tok, env.refs.len() as int) {
        Some(k) => {
            if 0 <= k < p.visit.len() && p.visit[k] {
                p_err(p, E::Rec)
            } else if depth == 0 {
                p_err(p, E::Deep)
            } else {
                let p1 = Parse { visit: p.visit.update(k, true), ..p };
                let p2 = auto(env, p1, ref_text(env, k), 0, state, (depth - 1) as nat);
                let p3 = Parse { visit: p2.visit.update(k, false), ..p2 };
                if at < idx && idx <= buf.len() { auto(env, p3, buf, idx, p3.laststate, depth) } else { p3 }
            }
        },
        None => {
            if tok.len() == 1 {
                if rank(single) == 0 { auto(env, p, buf, at, single, depth) } else { p }
            } else {
                p_err(p, E::Snf)
            }
        },
    }
}

/// A word inside an expression: a symbol's text parsed in its place, or a
/// one-letter word (a register) added to the expression.
spec fn char_expr_spec(env: Env, p: Parse, buf: Seq<u8>, at: int, idx: int, tok: Seq<u8>, b_side: bool, depth: nat) -> Parse
    decreases depth, buf.len() - at, 0nat, 0nat,
{
    let state = if b_side { St::Expr } else { St::ExpFs };
    match look_from(env.refs, tok, env.refs.len() as int) {
        Some(k) => {
            if 0 <= k < p.visit.len() && p.visit[k] {
                p_err(p, E::Rec)
            } else if depth == 0 {
                p_err(p, E::Deep)
            } else {
                let p1 = Parse { visit: p.visit.update(k, true), ..p };
                let p2 = auto(env, p1, ref_text_expr(env, k, b_side, p.opcode), 0, state, (depth - 1) as nat);
                let p3 = Parse { visit: p2.visit.update(k, false), ..p2 };
                let next = if b_side { St::Expr } else { p3.laststate };
                if at < idx && idx <= buf.len() { auto(env, p3, buf, idx, next, depth) } else { p3 }
            }
        },
        None => {
            if tok.len() == 1 {
                let (p1, ok) = p_add(p, b_side, tok);
                if ok {
                    let p2 = Parse { filled: true, ..p1 };
                    if at < idx && idx <= buf.len() { auto(env, p2, buf, idx, state, depth) } else { p2 }
                } else {
                    p_err(p1, E::Buf)
                }
            } else {
                p_err(p, E::Snf)
            }
        },
    }
}

/// The source line a message of the line being read carries.
spec fn loc_of(a: Asm) -> usize {
    match a.aline {
        Some((l, i)) => a.lists@[l as int]@[i as int].loc,
        None => 0,
    }
}

/// `a` holds parse `p`, reached from `base`: the parse's fields, the
/// symbols with `p`'s substitution flags, and `base`'s messages followed by
/// `p`'s errors on the line being read.
spec fn parsed(a: Asm, base: Asm, p: Parse) -> bool {
    &&& a.opcode == p.opcode
    &&& a.modifier == p.modifier
    &&& a.filled == p.filled
    &&& a.laststate == p.laststate
    &&& a.a_expr@ == p.a_expr
    &&& a.b_expr@ == p.b_expr
    &&& a.a_mode == p.a_mode
    &&& a.b_mode == p.b_mode
    &&& a.line_err == p.line_err
    &&& a.refs@.len() == base.refs@.len()
    &&& p.visit.len() == base.refs@.len()
    &&& forall|j: int| 0 <= j < a.refs@.len() ==> {
        &&& (#[trigger] a.refs@[j]).names == base.refs@[j].names
        &&& a.refs@[j].kind == base.refs@[j].kind
        &&& a.refs@[j].live == base.refs@[j].live
        &&& a.refs@[j].visit == p.visit[j]
    }
    &&& a.lists == base.lists
    &&& a.line == base.line
    &&& a.aline == base.aline
    &&& a.diags@.len() == base.diags@.len() + p.errs.len()
    &&& forall|i: int| 0 <= i < base.diags@.len() ==> #[trigger] a.diags@[i] == base.diags@[i]
    &&& forall|i: int| 0 <= i < p.errs.len() ==> {
        &&& (#[trigger] a.diags@[base.diags@.len() + i]).msg@ == error_text(p.errs[i])@
        &&& a.diags@[base.diags@.len() + i].warning == is_warning(p.errs[i])
        &&& a.diags@[base.diags@.len() + i].line == loc_of(base)
    }
}

/// What `lookup` finds is `look_from` over all the symbols.
proof fn lemma_look(refs: Seq<Ref>, name: Seq<u8>, r: Option<usize>, k: int)
    requires
        0 <= k <= refs.len(),
        match r {
            Some(x) => {
                &&& x < refs.len()
                &&& names(refs[x as int], name)
                &&& forall|j: int| x < j < refs.len() ==> !names(#[trigger] refs[j], name)
            },
            None => forall|j: int| 0 <= j < refs.len() ==> !names(#[trigger] refs[j], name),
        },
        r matches Some(x) ==> x < k,
    ensures
        look_from(refs, name, k) == (match r { Some(x) => Some(x as int), None => None }),
    decreases k,
{
    if k > 0 {
        if r matches Some(x) && x == k - 1 {
        } else {
            assert(!names(refs[k - 1], name));
            lemma_look(refs, name, r, k - 1);
        }
    }
}

/// An error reported keeps a parse, with the error added.
proof fn lemma_err_parsed(mid: Asm, fin: Asm, base: Asm, p: Parse, e: E)
    requires
        parsed(mid, base, p),
        fin.diags@.len() == mid.diags@.len() + 1,
        forall|i: int| 0 <= i < mid.diags@.len() ==> #[trigger] fin.diags@[i] == mid.diags@[i],
        fin.diags@.last().msg@ == error_text(e)@,
        fin.diags@.last().warning == is_warning(e),
        fin.diags@.last().line == loc_of(mid),
        fin.line_err,
        fin.opcode == mid.opcode,
        fin.modifier == mid.modifier,
        fin.filled == mid.filled,
        fin.laststate == mid.laststate,
        fin.a_expr == mid.a_expr,
        fin.b_expr == mid.b_expr,
        fin.a_mode == mid.a_mode,
        fin.b_mode == mid.b_mode,
        fin.refs == mid.refs,
        fin.lists == mid.lists,
        fin.line == mid.line,
        fin.aline == mid.aline,
    ensures
        parsed(fin, base, p_err(p, e)),
{
    let q = p_err(p, e);
    assert forall|i: int| 0 <= i < q.errs.len() implies {
        &&& (#[trigger] fin.diags@[base.diags@.len() + i]).msg@ == error_text(q.errs[i])@
        &&& fin.diags@[base.diags@.len() + i].warning == is_warning(q.errs[i])
        &&& fin.diags@[base.diags@.len() + i].line == loc_of(base)
    } by {
        if i < p.errs.len() {
            assert(fin.diags@[base.diags@.len() + i] == mid.diags@[base.diags@.len() + i]);
        } else {
            assert(fin.diags@[base.diags@.len() + i] == fin.diags@.last());
        }
    }
    assert forall|i: int| 0 <= i < base.diags@.len() implies #[trigger] fin.diags@[i] == base.diags@[i] by {
        assert(fin.diags@[i] == mid.diags@[i]);
    }
}

/// Symbols with the same names and flags are looked up alike.
proof fn lemma_look_same(a: Seq<Ref>, b: Seq<Ref>, name: Seq<u8>, k: int)
    requires
        0 <= k <= a.len(),
        a.len() == b.len(),
        forall|j: int| 0 <= j < a.len() ==> (#[trigger] a[j]).names == b[j].names && a[j].live == b[j].live,
    ensures
        look_from(a, name, k) == look_from(b, name, k),
    decreases k,
{
    if k > 0 {
        assert(a[k - 1].names == b[k - 1].names && a[k - 1].live == b[k - 1].live);
        assert(names(a[k - 1], name) == names(b[k - 1], name));
        lemma_look_same(a, b, name, k - 1);
    }
}

/// Setting a symbol's substitution flag keeps a parse, with the flag set.
proof fn lemma_visit_parsed(mid: Asm, fin: Asm, base: Asm, p: Parse, k: int, v: bool)
    requires
        parsed(mid, base, p),
        0 <= k < mid.refs@.len(),
        fin.refs@.len() == mid.refs@.len(),
        fin.refs@[k].visit == v,
        fin.refs@[k].names == mid.refs@[k].names,
        fin.refs@[k].live == mid.refs@[k].live,
        forall|j: int| 0 <= j < fin.refs@.len() ==> (#[trigger] fin.refs@[j]).kind == mid.refs@[j].kind,
        forall|j: int| 0 <= j < fin.refs@.len() && j != k ==> #[trigger] fin.refs@[j] == mid.refs@[j],
        fin.opcode == mid.opcode,
        fin.modifier == mid.modifier,
        fin.filled == mid.filled,
        fin.laststate == mid.laststate,
        fin.a_expr == mid.a_expr,
        fin.b_expr == mid.b_expr,
        fin.a_mode == mid.a_mode,
        fin.b_mode == mid.b_mode,
        fin.line_err == mid.line_err,
        fin.diags == mid.diags,
        fin.lists == mid.lists,
        fin.line == mid.line,
        fin.aline == mid.aline,
    ensures
        parsed(fin, base, Parse { visit: p.visit.update(k, v), ..p }),
{
    let q = Parse { visit: p.visit.update(k, v), ..p };
    assert forall|j: int| 0 <= j < fin.refs@.len() implies {
        &&& (#[trigger] fin.refs@[j]).names == base.refs@[j].names
        &&& fin.refs@[j].kind == base.refs@[j].kind
        &&& fin.refs@[j].live == base.refs@[j].live
        &&& fin.refs@[j].visit == q.visit[j]
    } by {
        assert(mid.refs@[j].names == base.refs@[j].names);
    }
}

/// The parse a line starts from: direct modes, no modifier, empty
/// expressions, no error on the line.
spec fn shell_start(p: Parse) -> Parse {
    Parse {
        a_mode: Mode::Direct,
        b_mode: Mode::Direct,
        modifier: None,
        a_expr: Seq::empty(),
        b_expr: Seq::empty(),
        line_err: false,
        ..p
    }
}

/// A parsed instruction completed: one without operands is a syntax
/// error; a missing B operand is supplied for DAT (the A operand moves to B,
/// A becomes #0), SPL, JMP and NOP ($0), and is an error for the others.
spec fn shell_post(p: Parse) -> Parse {
    if p.opcode < OPNUM {
        if !p.filled && !p.line_err {
            p_err(p, E::Syn)
        } else if p.b_expr.len() == 0 {
            if p.opcode == 12 {
                Parse { b_mode: p.a_mode, b_expr: p.a_expr, a_mode: Mode::Immediate, a_expr: seq![48u8], ..p }
            } else if p.opcode == 11 || p.opcode == 13 || p.opcode == 16 {
                Parse { b_mode: Mode::Direct, b_expr: seq![48u8], ..p }
            } else {
                p_err(p, E::Nop)
            }
        } else {
            p
        }
    } else {
        p
    }
}

/// The parse of one rewritten line (dfashell()): the automaton from the
/// opcode on, then the instruction completed.
spec fn shell(env: Env, p: Parse, text: Seq<u8>) -> Parse {
    shell_post(auto(env, shell_start(p), text, 0, St::Op, MAX_NESTING as nat))
}

/// The parse `a` is in, with nothing reported yet.
spec fn parse_of(a: Asm) -> Parse {
    Parse {
        opcode: a.opcode,
        modifier: a.modifier,
        filled: a.filled,
        laststate: a.laststate,
        a_expr: a.a_expr@,
        b_expr: a.b_expr@,
        a_mode: a.a_mode,
        b_mode: a.b_mode,
        line_err: a.line_err,
        visit: a.refs@.map_values(|r: Ref| r.visit),
        errs: Seq::empty(),
    }
}

/// What pass 2 carries from one line to the next, and what it has made:
/// the parse of the last line, the symbols' substitution flags, the
/// instruction count, the evaluator's registers, the start, the PIN, the
/// instructions, and the messages with their source lines.
struct Enc {
    opcode: usize,
    modifier: Option<usize>,
    filled: bool,
    laststate: St,
    a_expr: Seq<u8>,
    b_expr: Seq<u8>,
    a_mode: Mode,
    b_mode: Mode,
    line_err: bool,
    refs: Seq<Ref>,
    line: u32,
    regs: Seq<i64>,
    save_oper: u8,
    offset: int,
    pin: Option<i64>,
    code: Seq<Instruction>,
    msgs: Seq<(E, usize)>,
    errors: nat,
}

/// 1 for an error, 0 for a warning.
spec fn weight(e: E) -> nat {
    if is_warning(e) { 0 } else { 1 }
}

/// The number of errors among reported kinds.
spec fn errs_count(es: Seq<E>) -> nat
    decreases es.len(),
{
    if es.len() == 0 { 0 } else { errs_count(es.drop_last()) + weight(es.last()) }
}

/// `s` with `e` reported on source line `loc`.
spec fn e_err(s: Enc, e: E, loc: usize) -> Enc {
    Enc { msgs: s.msgs.push((e, loc)), errors: s.errors + weight(e), line_err: true, ..s }
}

/// The symbols with their substitution flags replaced.
spec fn with_visits(refs: Seq<Ref>, v: Seq<bool>) -> Seq<Ref> {
    Seq::new(refs.len(), |j: int| Ref { visit: v[j], ..refs[j] })
}

/// The opcode at an index of the mnemonics.
spec fn opcode_at(i: int) -> Opcode {
    if i == 0 { Opcode::Mov } else if i == 1 { Opcode::Add } else if i == 2 { Opcode::Sub }
    else if i == 3 { Opcode::Mul } else if i == 4 { Opcode::Div } else if i == 5 { Opcode::Mod }
    else if i == 6 { Opcode::Jmz } else if i == 7 { Opcode::Jmn } else if i == 8 { Opcode::Djn }
    else if i == 9 { Opcode::Cmp } else if i == 10 { Opcode::Slt } else if i == 11 { Opcode::Spl }
    else if i == 12 { Opcode::Dat } else if i == 13 { Opcode::Jmp } else if i == 14 { Opcode::SeqOp }
    else if i == 15 { Opcode::Sne } else if i == 16 { Opcode::Nop } else if i == 17 { Opcode::Ldp }
    else { Opcode::Stp }
}

/// The parse of one rewritten line, from the state of the line before.
spec fn enc_parse(lists: Seq<Vec<Line>>, s: Enc, text: Seq<u8>, loc: usize) -> Enc {
    let p0 = Parse {
        opcode: s.opcode,
        modifier: s.modifier,
        filled: s.filled,
        laststate: s.laststate,
        a_expr: s.a_expr,
        b_expr: s.b_expr,
        a_mode: s.a_mode,
        b_mode: s.b_mode,
        line_err: s.line_err,
        visit: s.refs.map_values(|r: Ref| r.visit),
        errs: Seq::empty(),
    };
    let q = shell(Env { refs: s.refs, lists, line: s.line }, p0, text);
    Enc {
        opcode: q.opcode,
        modifier: q.modifier,
        filled: q.filled,
        laststate: q.laststate,
        a_expr: q.a_expr,
        b_expr: q.b_expr,
        a_mode: q.a_mode,
        b_mode: q.b_mode,
        line_err: q.line_err,
        refs: with_visits(s.refs, q.visit),
        msgs: s.msgs + q.errs.map_values(|e: E| (e, loc)),
        errors: s.errors + errs_count(q.errs),
        ..s
    }
}

/// An expression evaluated: the registers it leaves, and its overflow flag
/// and value, or the error it gives.
spec fn enc_eval(s: Enc, e: Seq<u8>, loc: usize) -> (Enc, Option<(bool, i64)>) {
    let x = expr_result(e, s.regs, s.save_oper);
    let s1 = Enc { regs: x.2, save_oper: x.3, ..s };
    if x.0 < OK_EXPR {
        (e_err(s1, if x.0 == DIV_ZERO { E::Div } else { E::Evl }, loc), None)
    } else {
        (s1, Some((x.0 == OVERFLOW, x.1)))
    }
}

/// ORG, END or PIN: the start or the PIN from the B expression; a second
/// non-zero start is an error.
spec fn enc_pseudo(s: Enc, cs: int, loc: usize) -> Enc {
    let (s1, v) = enc_eval(s, s.b_expr, loc);
    match v {
        None => s1,
        Some((ofl, v)) => {
            let s2 = if ofl { e_err(s1, E::Ofl, loc) } else { s1 };
            if s2.opcode == ORGOP {
                Enc { offset: (v as int) % cs, ..s2 }
            } else if s2.opcode == PINOP {
                Enc { pin: Some(v), ..s2 }
            } else if v != 0 {
                if s2.offset != 0 { e_err(s2, E::Doe, loc) } else { Enc { offset: (v as int) % cs, ..s2 } }
            } else {
                s2
            }
        },
    }
}

/// The instruction a parsed line encodes, with field values `a` and `b`
/// folded into a core of `cs` cells.
spec fn ins_of(s: Enc, a: i64, b: i64, cs: int) -> Instruction {
    let op = opcode_at(s.opcode as int);
    Instruction {
        op,
        modifier: match s.modifier {
            Some(m) => modifier_at(m as int),
            None => crate::redcode::spec_default_modifier(op, s.a_mode, s.b_mode),
        },
        a_mode: s.a_mode,
        a: ((a as int) % cs) as u32,
        b_mode: s.b_mode,
        b: ((b as int) % cs) as u32,
    }
}

/// An instruction line: its fields evaluated, A then B, and the instruction
/// added while fewer than `count` are made.
spec fn enc_fields(s: Enc, cs: int, count: u32, loc: usize) -> Enc {
    let (s1, va) = enc_eval(s, s.a_expr, loc);
    match va {
        None => s1,
        Some(a) => {
            let (s2, vb) = enc_eval(s1, s1.b_expr, loc);
            match vb {
                None => s2,
                Some(b) => {
                    let s3 = if a.0 || b.0 { e_err(s2, E::Ofl, loc) } else { s2 };
                    if s3.opcode < OPNUM && s3.code.len() < count {
                        Enc {
                            code: s3.code.push(ins_of(s3, a.1, b.1, cs)),
                            line: if s3.line < u32::MAX { (s3.line + 1) as u32 } else { s3.line },
                            ..s3
                        }
                    } else {
                        s3
                    }
                },
            }
        },
    }
}

/// One rewritten line through pass 2: parsed; then, while no error has been
/// reported, an empty field read as 0 and the line encoded.
spec fn enc_line(lists: Seq<Vec<Line>>, s: Enc, text: Seq<u8>, loc: usize, cs: int, count: u32) -> Enc {
    let s1 = enc_parse(lists, s, text, loc);
    if s1.errors != 0 {
        s1
    } else {
        let s2 = Enc {
            a_expr: if s1.a_expr.len() == 0 { seq![48u8] } else { s1.a_expr },
            b_expr: if s1.b_expr.len() == 0 { seq![48u8] } else { s1.b_expr },
            ..s1
        };
        if s2.opcode == ORGOP || s2.opcode == ENDOP || s2.opcode == PINOP {
            enc_pseudo(s2, cs, loc)
        } else {
            enc_fields(s2, cs, count, loc)
        }
    }
}

/// The rewritten lines through pass 2, in order.
spec fn enc_lines(lists: Seq<Vec<Line>>, lines: Seq<(Seq<u8>, usize)>, s: Enc, cs: int, count: u32) -> Enc
    decreases lines.len(),
{
    if lines.len() == 0 {
        s
    } else {
        enc_line(lists, enc_lines(lists, lines.drop_last(), s, cs, count), lines.last().0, lines.last().1, cs, count)
    }
}

/// The state pass 2 starts from.
spec fn enc_start(a: Asm) -> Enc {
    Enc {
        opcode: a.opcode,
        modifier: a.modifier,
        filled: a.filled,
        laststate: a.laststate,
        a_expr: a.a_expr@,
        b_expr: a.b_expr@,
        a_mode: a.a_mode,
        b_mode: a.b_mode,
        line_err: a.line_err,
        refs: a.refs@,
        line: a.line,
        regs: a.regs@,
        save_oper: a.save_oper,
        offset: a.offset as int,
        pin: a.pin,
        code: Seq::empty(),
        msgs: Seq::empty(),
        errors: a.errnum as nat,
    }
}

/// Pass 2 on the lines pass 1 wrote (`a.out`), `a.line` of them
/// instructions: too many, too long and empty programs are errors; then
/// each line encoded, the lines' text read with the symbols of `lists`;
/// then a start outside the program is an error.
spec fn enc_all(a: Asm, lists: Seq<Vec<Line>>) -> Enc {
    let count = a.line;
    let s0 = enc_start(a);
    if count > MAXINSTR {
        e_err(s0, E::Exx, 0)
    } else {
        let s1 = if count as int > a.cfg.max_length as int { e_err(s0, E::Lin, 0) } else { s0 };
        if count == 0 {
            e_err(s1, E::Zln, 0)
        } else {
            let s2 = enc_lines(lists, lines_of(a.out@), Enc { line: 0, ..s1 }, a.cfg.core_size as int, count);
            if s2.offset < 0 || s2.offset >= count { e_err(s2, E::Ofs, 0) } else { s2 }
        }
    }
}

/// `a` is in state `s` of pass 2, its messages those of `base` followed by
/// `s`'s.
spec fn enc_holds(a: Asm, base: Asm, s: Enc) -> bool {
    &&& a.opcode == s.opcode
    &&& a.modifier == s.modifier
    &&& a.filled == s.filled
    &&& a.laststate == s.laststate
    &&& a.a_expr@ == s.a_expr
    &&& a.b_expr@ == s.b_expr
    &&& a.a_mode == s.a_mode
    &&& a.b_mode == s.b_mode
    &&& a.line_err == s.line_err
    &&& a.refs@ == s.refs
    &&& a.line == s.line
    &&& a.regs@ == s.regs
    &&& a.save_oper == s.save_oper
    &&& a.offset as int == s.offset
    &&& a.pin == s.pin
    &&& a.errnum == s.errors
    &&& a.diags@.len() == base.diags@.len() + s.msgs.len()
    &&& forall|i: int| 0 <= i < base.diags@.len() ==> #[trigger] a.diags@[i] == base.diags@[i]
    &&& forall|i: int| 0 <= i < s.msgs.len() ==> {
        &&& (#[trigger] a.diags@[base.diags@.len() + i]).msg@ == error_text(s.msgs[i].0)@
        &&& a.diags@[base.diags@.len() + i].warning == is_warning(s.msgs[i].0)
        &&& a.diags@[base.diags@.len() + i].line == s.msgs[i].1
    }
}

/// Counting the errors of messages that follow others.
proof fn lemma_errs_count(d0: Seq<AsmError>, d: Seq<AsmError>, es: Seq<E>)
    requires
        d.len() == d0.len() + es.len(),
        forall|i: int| 0 <= i < d0.len() ==> #[trigger] d[i] == d0[i],
        forall|i: int| 0 <= i < es.len() ==> (#[trigger] d[d0.len() + i]).warning == is_warning(es[i]),
    ensures
        error_count(d) == error_count(d0) + errs_count(es),
    decreases es.len(),
{
    if es.len() == 0 {
        assert(d =~= d0);
    } else {
        let e2 = es.drop_last();
        assert forall|i: int| 0 <= i < e2.len() implies (#[trigger] d.drop_last()[d0.len() + i]).warning == is_warning(e2[i]) by {
            assert(d[d0.len() + i].warning == is_warning(es[i]));
        }
        assert forall|i: int| 0 <= i < d0.len() implies #[trigger] d.drop_last()[i] == d0[i] by {
            assert(d[i] == d0[i]);
        }
        lemma_errs_count(d0, d.drop_last(), e2);
        assert(d.last().warning == is_warning(es[es.len() - 1]));
    }
}

/// An error reported keeps the state of pass 2, with the error added.
proof fn lemma_enc_err(mid: Asm, fin: Asm, base: Asm, s: Enc, e: E, loc: usize)
    requires
        enc_holds(mid, base, s),
        mid.wf(),
        fin.wf(),
        fin.diags@.len() == mid.diags@.len() + 1,
        forall|i: int| 0 <= i < mid.diags@.len() ==> #[trigger] fin.diags@[i] == mid.diags@[i],
        fin.diags@.last().msg@ == error_text(e)@,
        fin.diags@.last().warning == is_warning(e),
        fin.diags@.last().line == loc,
        fin.line_err,
        fin.opcode == mid.opcode,
        fin.modifier == mid.modifier,
        fin.filled == mid.filled,
        fin.laststate == mid.laststate,
        fin.a_expr == mid.a_expr,
        fin.b_expr == mid.b_expr,
        fin.a_mode == mid.a_mode,
        fin.b_mode == mid.b_mode,
        fin.refs == mid.refs,
        fin.line == mid.line,
        fin.regs == mid.regs,
        fin.save_oper == mid.save_oper,
        fin.offset == mid.offset,
        fin.pin == mid.pin,
    ensures
        enc_holds(fin, base, e_err(s, e, loc)),
{
    let t = e_err(s, e, loc);
    assert(fin.diags@.drop_last() =~= mid.diags@);
    assert forall|i: int| 0 <= i < t.msgs.len() implies {
        &&& (#[trigger] fin.diags@[base.diags@.len() + i]).msg@ == error_text(t.msgs[i].0)@
        &&& fin.diags@[base.diags@.len() + i].warning == is_warning(t.msgs[i].0)
        &&& fin.diags@[base.diags@.len() + i].line == t.msgs[i].1
    } by {
        if i < s.msgs.len() {
            assert(fin.diags@[base.diags@.len() + i] == mid.diags@[base.diags@.len() + i]);
        } else {
            assert(fin.diags@[base.diags@.len() + i] == fin.diags@.last());
        }
    }
    assert forall|i: int| 0 <= i < base.diags@.len() implies #[trigger] fin.diags@[i] == base.diags@[i] by {
        assert(fin.diags@[i] == mid.diags@[i]);
    }
}

/// A line parsed keeps the state of pass 2, with the line's parse.
proof fn lemma_enc_parse(old: Asm, fin: Asm, base: Asm, s: Enc, text: Seq<u8>)
    requires
        enc_holds(old, base, s),
        old.wf(),
        fin.wf(),
        parsed(fin, old, shell(env_of(old), parse_of(old), text)),
        fin.regs == old.regs,
        fin.save_oper == old.save_oper,
        fin.pin == old.pin,
        fin.offset == old.offset,
    ensures
        enc_holds(fin, base, enc_parse(old.lists@, s, text, loc_of(old))),
{
    let p0 = Parse {
        opcode: s.opcode,
        modifier: s.modifier,
        filled: s.filled,
        laststate: s.laststate,
        a_expr: s.a_expr,
        b_expr: s.b_expr,
        a_mode: s.a_mode,
        b_mode: s.b_mode,
        line_err: s.line_err,
        visit: s.refs.map_values(|r: Ref| r.visit),
        errs: Seq::empty(),
    };
    assert(parse_of(old) == p0);
    assert(env_of(old) == Env { refs: s.refs, lists: old.lists@, line: s.line });
    let q = shell(env_of(old), parse_of(old), text);
    let t = enc_parse(old.lists@, s, text, loc_of(old));
    assert(fin.refs@ =~= with_visits(s.refs, q.visit)) by {
        assert forall|j: int| 0 <= j < fin.refs@.len() implies #[trigger] fin.refs@[j] == with_visits(s.refs, q.visit)[j] by {
            assert(fin.refs@[j].names == old.refs@[j].names);
        }
    }
    lemma_errs_count(old.diags@, fin.diags@, q.errs);
    assert forall|i: int| 0 <= i < t.msgs.len() implies {
        &&& (#[trigger] fin.diags@[base.diags@.len() + i]).msg@ == error_text(t.msgs[i].0)@
        &&& fin.diags@[base.diags@.len() + i].warning == is_warning(t.msgs[i].0)
        &&& fin.diags@[base.diags@.len() + i].line == t.msgs[i].1
    } by {
        if i < s.msgs.len() {
            assert(fin.diags@[base.diags@.len() + i] == old.diags@[base.diags@.len() + i]);
        } else {
            let k = i - s.msgs.len();
            assert(fin.diags@[base.diags@.len() + i] == fin.diags@[old.diags@.len() + k]);
        }
    }
    assert forall|i: int| 0 <= i < base.diags@.len() implies #[trigger] fin.diags@[i] == base.diags@[i] by {
        assert(fin.diags@[i] == old.diags@[i]);
    }
}

impl Asm {
    // ---- pass 2 ----------------------------------------------------------

    /// Append to the A or the B expression.
    fn add_expr(&mut self, b_side: bool, s: &[u8]) -> (r: bool)
        requires
            old(self).wf(),
        ensures
            final(self).laststate == old(self).laststate,
            final(self).regs == old(self).regs,
            final(self).save_oper == old(self).save_oper,
            final(self).pin == old(self).pin,
            final(self).opcode == old(self).opcode,
            r == ((if b_side { old(self).b_expr@ } else { old(self).a_expr@ }).len() + s@.len() < MAXALLCHAR),
            b_side ==> final(self).a_expr == old(self).a_expr
                && final(self).b_expr@ == (if r { old(self).b_expr@ + s@ } else { old(self).b_expr@ }),
            !b_side ==> final(self).b_expr == old(self).b_expr
                && final(self).a_expr@ == (if r { old(self).a_expr@ + s@ } else { old(self).a_expr@ }),
            final(self).wf(),
            final(self).grew(*old(self)),
            final(self).offset == old(self).offset,
            final(self).diags == old(self).diags,
            final(self).modifier == old(self).modifier,
            final(self).filled == old(self).filled,
            final(self).a_mode == old(self).a_mode,
            final(self).b_mode == old(self).b_mode,
            final(self).line_err == old(self).line_err,
            final(self).refs == old(self).refs,
            final(self).lists == old(self).lists,
            final(self).line == old(self).line,
            final(self).aline == old(self).aline,
    {
        if b_side {
            concat(&mut self.b_expr, s)
        } else {
            concat(&mut self.a_expr, s)
        }
    }

    /// The CHARTOKEN branch shared by the operand-start states.
    fn char_ref(
        &mut self,
        buf: &[u8],
        at: usize,
        idx: usize,
        tok: &[u8],
        state: St,
        single: St,
        depth: u32,
        Ghost(base): Ghost<Asm>,
        Ghost(p0): Ghost<Parse>,
    )
        requires
            old(self).laststate != St::Op,
            old(self).wf(),
            at < idx <= buf@.len(),
            rank(state) == 1,
            rank(single) == 0,
            single != St::Op,
            parsed(*old(self), base, p0),
        ensures
            (forall|j: int| 0 <= j < old(self).refs@.len() ==> !names(#[trigger] old(self).refs@[j], tok@)) && tok@.len() != 1
                ==> final(self).diags@.len() == old(self).diags@.len() + 1 && final(self).diags@.last().msg@ == error_text(E::Snf)@,
            forall|k: int| 0 <= k < old(self).refs@.len() && names(#[trigger] old(self).refs@[k], tok@) && old(self).refs@[k].visit
                && (forall|j: int| k < j < old(self).refs@.len() ==> !names(#[trigger] old(self).refs@[j], tok@))
                ==> final(self).diags@.len() == old(self).diags@.len() + 1 && final(self).diags@.last().msg@ == error_text(E::Rec)@,
            final(self).laststate != St::Op,
            final(self).regs == old(self).regs,
            final(self).save_oper == old(self).save_oper,
            final(self).pin == old(self).pin,
            final(self).opcode == old(self).opcode,
            final(self).wf(),
            final(self).grew(*old(self)),
            final(self).offset == old(self).offset,
            parsed(*final(self), base, char_ref_spec(env_of(base), p0, buf@, at as int, idx as int, tok@, state, single, depth as nat)),
        decreases depth, buf@.len() - at, 1nat, 0nat,
    {
        let found = self.lookup(tok);
        proof {
            lemma_look(self.refs@, tok@, found, self.refs@.len() as int);
            assert forall|j: int| 0 <= j < self.refs@.len() implies names(#[trigger] self.refs@[j], tok@) == names(base.refs@[j], tok@) by {
                assert(self.refs@[j].names == base.refs@[j].names);
            }
            assert(look_from(self.refs@, tok@, self.refs@.len() as int) == look_from(base.refs@, tok@, base.refs@.len() as int)) by {
                lemma_look_same(self.refs@, base.refs@, tok@, self.refs@.len() as int);
            }
        }
        match found {
            Some(k) => {
                if self.refs[k].visit {
                    let ghost mid = *self;
                    self.err(E::Rec);
                    proof {
                        lemma_err_parsed(mid, *self, base, p0, E::Rec);
                    }
                } else {
                    let text = match self.kind_of(k) {
                        RefKind::Text(list) => self.text_of(list, 0),
                        RefKind::Label(v) => number_text(v as i64 - self.line as i64, false),
                        RefKind::Stack(v) => number_text(v as i64 - self.line as i64, false),
                    };
                    proof {
                        assert(text@ == ref_text(env_of(base), k as int));
                    }
                    if depth == 0 {
                        let ghost mid = *self;
                        self.err(E::Deep);
                        proof {
                            lemma_err_parsed(mid, *self, base, p0, E::Deep);
                        }
                        return;
                    }
                    let ghost p1 = Parse { visit: p0.visit.update(k as int, true), ..p0 };
                    self.set_visit(k, true);
                    proof {
                        lemma_visit_parsed(*old(self), *self, base, p0, k as int, true);
                    }
                    let ghost p2 = auto(env_of(base), p1, text@, 0, state, (depth - 1) as nat);
                    self.automaton(&text, 0, state, depth - 1, Ghost(base), Ghost(p1));
                    let ghost mid2 = *self;
                    self.set_visit(k, false);
                    proof {
                        lemma_visit_parsed(mid2, *self, base, p2, k as int, false);
                    }
                    let ghost p3 = Parse { visit: p2.visit.update(k as int, false), ..p2 };
                    let ls = self.laststate;
                    self.automaton(buf, idx, ls, depth, Ghost(base), Ghost(p3));
                }
            },
            None => {
                if tok.len() == 1 {
                    self.automaton(buf, at, single, depth, Ghost(base), Ghost(p0));
                } else {
                    let ghost mid = *self;
                    self.err(E::Snf);
                    proof {
                        lemma_err_parsed(mid, *self, base, p0, E::Snf);
                    }
                }
            },
        }
    }

    /// The CHARTOKEN branch of the expression-collecting states.
    #[verifier::rlimit(60)]
    #[verifier::spinoff_prover]
    fn char_expr(
        &mut self,
        buf: &[u8],
        at: usize,
        idx: usize,
        tok: &[u8],
        b_side: bool,
        depth: u32,
        Ghost(base): Ghost<Asm>,
        Ghost(p0): Ghost<Parse>,
    )
        requires
            old(self).laststate != St::Op,
            old(self).wf(),
            at < idx <= buf@.len(),
            parsed(*old(self), base, p0),
        ensures
            (forall|j: int| 0 <= j < old(self).refs@.len() ==> !names(#[trigger] old(self).refs@[j], tok@)) && tok@.len() != 1
                ==> final(self).diags@.len() == old(self).diags@.len() + 1 && final(self).diags@.last().msg@ == error_text(E::Snf)@,
            forall|k: int| 0 <= k < old(self).refs@.len() && names(#[trigger] old(self).refs@[k], tok@) && old(self).refs@[k].visit
                && (forall|j: int| k < j < old(self).refs@.len() ==> !names(#[trigger] old(self).refs@[j], tok@))
                ==> final(self).diags@.len() == old(self).diags@.len() + 1 && final(self).diags@.last().msg@ == error_text(E::Rec)@,
            final(self).laststate != St::Op,
            final(self).regs == old(self).regs,
            final(self).save_oper == old(self).save_oper,
            final(self).pin == old(self).pin,
            final(self).opcode == old(self).opcode,
            final(self).wf(),
            final(self).grew(*old(self)),
            final(self).offset == old(self).offset,
            parsed(*final(self), base, char_expr_spec(env_of(base), p0, buf@, at as int, idx as int, tok@, b_side, depth as nat)),
        decreases depth, buf@.len() - at, 0nat, 0nat,
    {
        let state = if b_side { St::Expr } else { St::ExpFs };
        let found = self.lookup(tok);
        proof {
            lemma_look(self.refs@, tok@, found, self.refs@.len() as int);
            lemma_look_same(self.refs@, base.refs@, tok@, self.refs@.len() as int);
        }
        match found {
            Some(k) => {
                if self.refs[k].visit {
                    let ghost mid = *self;
                    self.err(E::Rec);
                    proof {
                        lemma_err_parsed(mid, *self, base, p0, E::Rec);
                    }
                } else {
                    let text = match self.kind_of(k) {
                        RefKind::Text(list) => self.text_of(list, 0),
                        RefKind::Label(v) => {
                            if !b_side || self.opcode < OPNUM {
                                number_text(v as i64 - self.line as i64, false)
                            } else {
                                number_text(v as i64, false)
                            }
                        },
                        RefKind::Stack(v) => {
                            if !b_side || self.opcode < OPNUM {
                                number_text(v as i64 - self.line as i64, false)
                            } else {
                                number_text(v as i64, false)
                            }
                        },
                    };
                    proof {
                        assert(text@ == ref_text_expr(env_of(base), k as int, b_side, p0.opcode));
                    }
                    if depth == 0 {
                        let ghost mid = *self;
                        self.err(E::Deep);
                        proof {
                            lemma_err_parsed(mid, *self, base, p0, E::Deep);
                        }
                        return;
                    }
                    let ghost p1 = Parse { visit: p0.visit.update(k as int, true), ..p0 };
                    self.set_visit(k, true);
                    proof {
                        lemma_visit_parsed(*old(self), *self, base, p0, k as int, true);
                    }
                    let ghost p2 = auto(env_of(base), p1, text@, 0, state, (depth - 1) as nat);
                    self.automaton(&text, 0, state, depth - 1, Ghost(base), Ghost(p1));
                    let ghost mid2 = *self;
                    self.set_visit(k, false);
                    proof {
                        lemma_visit_parsed(mid2, *self, base, p2, k as int, false);
                    }
                    let ghost p3 = Parse { visit: p2.visit.update(k as int, false), ..p2 };
                    let next = if b_side { St::Expr } else { self.laststate };
                    self.automaton(buf, idx, next, depth, Ghost(base), Ghost(p3));
                }
            },
            None => {
                if tok.len() == 1 {
                    let ghost mid = *self;
                    if self.add_expr(b_side, tok) {
                        self.filled = true;
                        let ghost p2 = Parse { filled: true, ..p_add(p0, b_side, tok@).0 };
                        proof {
                            assert(parsed(*self, base, p2));
                        }
                        self.automaton(buf, idx, state, depth, Ghost(base), Ghost(p2));
                    } else {
                        proof {
                            assert(parsed(*self, base, p0));
                        }
                        let ghost mid2 = *self;
                        self.err(E::Buf);
                        proof {
                            lemma_err_parsed(mid2, *self, base, p0, E::Buf);
                        }
                    }
                } else {
                    let ghost mid = *self;
                    self.err(E::Snf);
                    proof {
                        lemma_err_parsed(mid, *self, base, p0, E::Snf);
                    }
                }
            },
        }
    }

    /// The line automaton: opcode, modifier, modes and the two field
    /// expressions of a rewritten line, from `at` on, in `state`.
    #[verifier::rlimit(100)]
    #[verifier::spinoff_prover]
    fn automaton(&mut self, buf: &[u8], at: usize, state: St, depth: u32, Ghost(base): Ghost<Asm>, Ghost(p0): Ghost<Parse>)
        requires
            old(self).wf(),
            at <= buf@.len(),
            parsed(*old(self), base, p0),
        ensures
            state != St::Op ==> final(self).laststate != St::Op,
            final(self).regs == old(self).regs,
            final(self).save_oper == old(self).save_oper,
            final(self).pin == old(self).pin,
            state != St::Op ==> final(self).opcode == old(self).opcode,
            state == St::Op ==> final(self).opcode == line_opcode(buf@, at as int, old(self).opcode),
            final(self).wf(),
            final(self).grew(*old(self)),
            final(self).offset == old(self).offset,
            parsed(*final(self), base, auto(env_of(base), p0, buf@, at as int, state, depth as nat)),
        decreases depth, buf@.len() - at, rank(state), 2nat,
    {
        self.laststate = state;
        let ghost p = Parse { laststate: state, ..p0 };
        let (tt, tok, idx) = get_token(buf, at);
        let ghost s = skip_spaces(buf@, at as int);
        proof {
            assert(tok@ =~= buf@.subrange(s, idx as int));
            assert(parsed(*self, base, p));
        }
        match state {
            St::Op => {
                self.filled = false;
                let ghost p = Parse { filled: false, ..p };
                if tt == Tt::Char {
                    let up = upper_bytes(&tok);
                    self.opcode = opname_index(&up);
                    let ghost p = Parse { opcode: self.opcode, ..p };
                    proof {
                        assert(parsed(*self, base, p));
                    }
                    if self.opcode < OPNUM {
                        self.automaton(buf, idx, St::ModAddrExp, depth, Ghost(base), Ghost(p));
                    } else if self.opcode < EQUOP {
                        self.automaton(buf, idx, St::Expr, depth, Ghost(base), Ghost(p));
                    } else {
                        let ghost mid = *self;
                        self.err(E::Exp);
                        proof {
                            lemma_err_parsed(mid, *self, base, p, E::Exp);
                        }
                    }
                } else {
                    let ghost mid = *self;
                    self.err(E::Exp);
                    proof {
                        lemma_err_parsed(mid, *self, base, p, E::Exp);
                    }
                }
            },
            St::ModAddrExp | St::AddrExpA | St::AddrExpB => {
                self.automaton_operand(buf, at, state, depth, tt, tok, idx, Ghost(base), Ghost(p));
            },
            St::Modf => {
                self.filled = false;
                let ghost p = Parse { filled: false, ..p };
                match tt {
                    Tt::Char => {
                        let up = upper_bytes(&tok);
                        match modifier_index(&up) {
                            Some(m) => {
                                self.modifier = Some(m);
                                let ghost p = Parse { modifier: Some(m), ..p };
                                self.automaton(buf, idx, St::AddrExpA, depth, Ghost(base), Ghost(p));
                            },
                            None => {
                                let ghost mid = *self;
                                self.err(E::Exp);
                                proof {
                                    lemma_err_parsed(mid, *self, base, p, E::Exp);
                                }
                            },
                        }
                    },
                    Tt::Blank => {},
                    _ => {
                        let ghost mid = *self;
                        self.err(E::Exp);
                        proof {
                            lemma_err_parsed(mid, *self, base, p, E::Exp);
                        }
                    },
                }
            },
            St::ExpFs | St::Expr => {
                self.automaton_expr(buf, at, state, depth, tt, tok, idx, Ghost(base), Ghost(p));
            },
        }
    }

    /// The automaton in state `state`, after reading its token (`tt`,
    /// `tok`, ending at `idx`).
    #[verifier::rlimit(100)]
    #[verifier::spinoff_prover]
    fn automaton_operand(
        &mut self,
        buf: &[u8],
        at: usize,
        state: St,
        depth: u32,
        tt: Tt,
        tok: Vec<u8>,
        idx: usize,
        Ghost(base): Ghost<Asm>,
        Ghost(p0): Ghost<Parse>,
    )
        requires
            old(self).wf(),
            at <= buf@.len(),
            state == St::ModAddrExp || state == St::AddrExpA || state == St::AddrExpB,
            old(self).laststate == state,
            tt == token_class(spec_at(buf@, skip_spaces(buf@, at as int)), spec_at(buf@, skip_spaces(buf@, at as int) + 1)),
            tok@ == buf@.subrange(skip_spaces(buf@, at as int), token_end(buf@, skip_spaces(buf@, at as int))),
            idx == token_end(buf@, skip_spaces(buf@, at as int)),
            tt != Tt::Blank ==> at < idx <= buf@.len(),
            parsed(*old(self), base, p0),
            p0.laststate == state,
        ensures
            final(self).laststate != St::Op,
            final(self).regs == old(self).regs,
            final(self).save_oper == old(self).save_oper,
            final(self).pin == old(self).pin,
            final(self).opcode == old(self).opcode,
            final(self).wf(),
            final(self).grew(*old(self)),
            final(self).offset == old(self).offset,
            parsed(*final(self), base, auto(env_of(base), p0, buf@, at as int, state, depth as nat)),
        decreases depth, buf@.len() - at, rank(state), 1nat,
    {
        let ghost p = p0;
        proof {
            reveal_with_fuel(auto, 1);
        }
        self.filled = false;
        let ghost p = Parse { filled: false, ..p };
        let next = if state == St::AddrExpB { St::Expr } else { St::ExpFs };
        match tt {
            Tt::Modf => {
                if state == St::ModAddrExp {
                    self.automaton(buf, idx, St::Modf, depth, Ghost(base), Ghost(p));
                } else {
                    let ghost mid = *self;
                    self.err(E::Exp);
                    proof {
                        lemma_err_parsed(mid, *self, base, p, E::Exp);
                    }
                }
            },
            Tt::Addr => {
                let m = mode_of(tok[0]);
                if state == St::AddrExpB {
                    self.b_mode = m;
                } else {
                    self.a_mode = m;
                }
                let ghost p = if state == St::AddrExpB { Parse { b_mode: m, ..p } } else { Parse { a_mode: m, ..p } };
                self.automaton(buf, idx, next, depth, Ghost(base), Ghost(p));
            },
            Tt::Numb | Tt::Expr => self.automaton(buf, at, next, depth, Ghost(base), Ghost(p)),
            Tt::Char => self.char_ref(buf, at, idx, &tok, state, next, depth, Ghost(base), Ghost(p)),
            Tt::Blank => {},
            _ => {
                let ghost mid = *self;
                if state == St::ModAddrExp {
                    self.err(E::App);
                    proof {
                        lemma_err_parsed(mid, *self, base, p, E::App);
                    }
                } else {
                    self.err(E::Exp);
                    proof {
                        lemma_err_parsed(mid, *self, base, p, E::Exp);
                    }
                }
            },
        }
    }

    /// The automaton in state `state`, after reading its token (`tt`,
    /// `tok`, ending at `idx`).
    #[verifier::rlimit(100)]
    #[verifier::spinoff_prover]
    fn automaton_expr(
        &mut self,
        buf: &[u8],
        at: usize,
        state: St,
        depth: u32,
        tt: Tt,
        tok: Vec<u8>,
        idx: usize,
        Ghost(base): Ghost<Asm>,
        Ghost(p0): Ghost<Parse>,
    )
        requires
            old(self).wf(),
            at <= buf@.len(),
            state == St::ExpFs || state == St::Expr,
            old(self).laststate == state,
            tt == token_class(spec_at(buf@, skip_spaces(buf@, at as int)), spec_at(buf@, skip_spaces(buf@, at as int) + 1)),
            tok@ == buf@.subrange(skip_spaces(buf@, at as int), token_end(buf@, skip_spaces(buf@, at as int))),
            idx == token_end(buf@, skip_spaces(buf@, at as int)),
            tt != Tt::Blank ==> at < idx <= buf@.len(),
            parsed(*old(self), base, p0),
            p0.laststate == state,
        ensures
            final(self).laststate != St::Op,
            final(self).regs == old(self).regs,
            final(self).save_oper == old(self).save_oper,
            final(self).pin == old(self).pin,
            final(self).opcode == old(self).opcode,
            final(self).wf(),
            final(self).grew(*old(self)),
            final(self).offset == old(self).offset,
            parsed(*final(self), base, auto(env_of(base), p0, buf@, at as int, state, depth as nat)),
        decreases depth, buf@.len() - at, rank(state), 1nat,
    {
        let ghost p = p0;
        proof {
            reveal_with_fuel(auto, 1);
        }
        let b_side = state == St::Expr;
        match tt {
            Tt::Fsep => {
                if !b_side {
                    self.automaton(buf, idx, St::AddrExpB, depth, Ghost(base), Ghost(p));
                } else {
                    let ghost mid = *self;
                    self.err(E::App);
                    proof {
                        lemma_err_parsed(mid, *self, base, p, E::App);
                    }
                }
            },
            Tt::Addr => {
                let c = tok[0];
                if !(c == 62 || c == 60 || c == 42) {
                    let ghost mid = *self;
                    self.err(E::App);
                    proof {
                        lemma_err_parsed(mid, *self, base, p, E::App);
                    }
                } else {
                    let ghost p1 = p_add(p, b_side, tok@).0;
                    let ok = self.add_expr(b_side, &tok);
                    proof {
                        assert(parsed(*self, base, p1));
                    }
                    let ghost p2 = if !ok { p_err(p1, E::Buf) } else { p1 };
                    if !ok {
                        let ghost mid = *self;
                        self.err(E::Buf);
                        proof {
                            lemma_err_parsed(mid, *self, base, p1, E::Buf);
                        }
                    }
                    self.filled = true;
                    let ghost p3 = Parse { filled: true, ..p2 };
                    self.automaton(buf, idx, state, depth, Ghost(base), Ghost(p3));
                }
            },
            Tt::Numb | Tt::Expr => {
                let mut tok = tok;
                let ghost tok0 = tok@;
                let grown = tt == Tt::Numb && concat(&mut tok, &[32u8]);
                proof {
                    if tt == Tt::Numb {
                        assert([32u8]@ =~= seq![32u8]);
                        if grown {
                            assert(tok@ =~= tok0.push(32u8));
                        }
                    }
                }
                let ghost p1 = if tt == Tt::Numb && !grown { p_err(p, E::Buf) } else { p };
                if tt == Tt::Numb && !grown {
                    let ghost mid = *self;
                    self.err(E::Buf);
                    proof {
                        lemma_err_parsed(mid, *self, base, p, E::Buf);
                    }
                }
                let ghost p2 = p_add(p1, b_side, tok@).0;
                let ok = self.add_expr(b_side, &tok);
                proof {
                    assert(parsed(*self, base, p2));
                }
                let ghost p3 = if !ok { p_err(p2, E::Buf) } else { p2 };
                if !ok {
                    let ghost mid = *self;
                    self.err(E::Buf);
                    proof {
                        lemma_err_parsed(mid, *self, base, p2, E::Buf);
                    }
                }
                self.filled = true;
                let ghost p4 = Parse { filled: true, ..p3 };
                self.automaton(buf, idx, state, depth, Ghost(base), Ghost(p4));
            },
            Tt::Char => self.char_expr(buf, at, idx, &tok, b_side, depth, Ghost(base), Ghost(p)),
            Tt::Blank => {},
            _ => {
                let ghost mid = *self;
                self.err(E::App);
                proof {
                    lemma_err_parsed(mid, *self, base, p, E::App);
                }
            },
        }
    }

    /// dfashell(): parse one rewritten line into opcode, modifier, modes
    /// and the two field expressions.
    fn dfashell(&mut self, text: &[u8])
        requires
            old(self).wf(),
        ensures
            final(self).regs == old(self).regs,
            final(self).save_oper == old(self).save_oper,
            final(self).pin == old(self).pin,
            final(self).opcode == line_opcode(text@, 0, old(self).opcode),
            final(self).wf(),
            final(self).grew(*old(self)),
            final(self).offset == old(self).offset,
            parsed(*final(self), *old(self), shell(env_of(*old(self)), parse_of(*old(self)), text@)),
    {
        self.a_mode = Mode::Direct;
        self.b_mode = Mode::Direct;
        self.modifier = None;
        self.a_expr.clear();
        self.b_expr.clear();
        self.line_err = false;
        let ghost p0 = parse_of(*self);
        let ghost reset = *self;
        proof {
            assert(parsed(*self, *self, p0));
            assert(p0 == shell_start(parse_of(*old(self)))) by {
                assert(self.refs == old(self).refs);
                assert(self.a_expr@ =~= Seq::<u8>::empty());
                assert(self.b_expr@ =~= Seq::<u8>::empty());
            }
            assert(env_of(*self) == env_of(*old(self)));
        }
        self.automaton(text, 0, St::Op, MAX_NESTING, Ghost(*self), Ghost(p0));
        let ghost q = auto(env_of(reset), p0, text@, 0, St::Op, MAX_NESTING as nat);
        proof {
            assert(parsed(*self, *old(self), q));
        }
        if self.opcode < OPNUM {
            if !self.filled && !self.line_err {
                let ghost mid = *self;
                self.err(E::Syn);
                proof {
                    lemma_err_parsed(mid, *self, *old(self), q, E::Syn);
                }
            } else if self.b_expr.len() == 0 {
                if self.opcode == 12 {
                    self.b_mode = self.a_mode;
                    let mut a: Vec<u8> = Vec::new();
                    std::mem::swap(&mut a, &mut self.a_expr);
                    self.b_expr = a;
                    self.a_mode = Mode::Immediate;
                    self.a_expr = vec![48u8];
                    proof {
                        assert(self.a_expr@ =~= seq![48u8]);
                    }
                } else if self.opcode == 11 || self.opcode == 13 || self.opcode == 16 {
                    self.b_mode = Mode::Direct;
                    self.b_expr = vec![48u8];
                    proof {
                        assert(self.b_expr@ =~= seq![48u8]);
                    }
                } else {
                    let ghost mid = *self;
                    self.err(E::Nop);
                    proof {
                        lemma_err_parsed(mid, *self, *old(self), q, E::Nop);
                    }
                }
            }
        }
    }

    /// The value of an expression, or the error it gives.
    #[verifier::rlimit(40)]
    #[verifier::spinoff_prover]
    fn field_value(&mut self, e: &[u8], Ghost(base): Ghost<Asm>, Ghost(s): Ghost<Enc>) -> (r: Option<(bool, i64)>)
        requires
            old(self).wf(),
            enc_holds(*old(self), base, s),
        ensures
            enc_holds(*final(self), base, enc_eval(s, e@, loc_of(*old(self))).0),
            r == enc_eval(s, e@, loc_of(*old(self))).1,
            final(self).lists == old(self).lists,
            final(self).aline == old(self).aline,
            final(self).wf(),
            final(self).grew(*old(self)),
            final(self).offset == old(self).offset,
            ({
                let x = expr_result(e@, old(self).regs@, old(self).save_oper);
                &&& final(self).regs@ == x.2
                &&& final(self).save_oper == x.3
                &&& final(self).opcode == old(self).opcode
                &&& final(self).line == old(self).line
                &&& final(self).pin == old(self).pin
                &&& final(self).a_expr == old(self).a_expr
                &&& final(self).b_expr == old(self).b_expr
                &&& final(self).a_mode == old(self).a_mode
                &&& final(self).b_mode == old(self).b_mode
                &&& final(self).modifier == old(self).modifier
                &&& x.0 < OK_EXPR ==> {
                    &&& r is None
                    &&& final(self).diags@.len() == old(self).diags@.len() + 1
                    &&& !final(self).diags@.last().warning
                    &&& final(self).diags@.last().msg@ == error_text(if x.0 == DIV_ZERO { E::Div } else { E::Evl })@
                }
            }),
            expr_result(e@, old(self).regs@, old(self).save_oper).0 >= OK_EXPR ==> r == Some((
                expr_result(e@, old(self).regs@, old(self).save_oper).0 == OVERFLOW,
                expr_result(e@, old(self).regs@, old(self).save_oper).1,
            )),
            expr_result(e@, old(self).regs@, old(self).save_oper).0 >= OK_EXPR ==> final(self).diags@ == old(self).diags@,
    {
        let ghost x = expr_result(e@, self.regs@, self.save_oper);
        let (st, v) = self.eval(e);
        assert(st == x.0 && v == x.1);
        let ghost s1 = Enc { regs: x.2, save_oper: x.3, ..s };
        assert(enc_holds(*self, base, s1));
        if st < OK_EXPR {
            let ghost mid = *self;
            let ee = if st == DIV_ZERO { E::Div } else { E::Evl };
            self.err(ee);
            proof {
                lemma_enc_err(mid, *self, base, s1, ee, loc_of(mid));
            }
            None
        } else {
            Some((st == OVERFLOW, v))
        }
    }

    /// Encode one rewritten line: a pseudo-opcode sets the start or the
    /// PIN, an instruction is added to `code`.
    #[verifier::rlimit(100)]
    #[verifier::spinoff_prover]
    fn encode_line(&mut self, text: &[u8], cs: i64, count: u32, code: &mut Vec<Instruction>, Ghost(base): Ghost<Asm>, Ghost(s): Ghost<Enc>)
        requires
            old(self).wf(),
            cs == old(self).cfg.core_size as i64,
            cs >= 1,
            enc_holds(*old(self), base, s),
            old(code)@ == s.code,
            old(code)@.len() <= count,
            forall|i: int| 0 <= i < old(code)@.len() ==> (#[trigger] old(code)@[i]).a < old(self).cfg.core_size && old(code)@[i].b < old(self).cfg.core_size,
        ensures
            enc_holds(*final(self), base, enc_line(old(self).lists@, s, text@, loc_of(*old(self)), cs as int, count)),
            final(code)@ == enc_line(old(self).lists@, s, text@, loc_of(*old(self)), cs as int, count).code,
            final(self).lists == old(self).lists,
            final(self).aline == old(self).aline,
            final(self).wf(),
            final(self).grew(*old(self)),
            final(code)@.len() <= count,
            final(code)@.len() <= old(code)@.len() + 1,
            forall|i: int| 0 <= i < final(code)@.len() ==> (#[trigger] final(code)@[i]).a < old(self).cfg.core_size && final(code)@[i].b < old(self).cfg.core_size,
            0 <= final(self).offset < cs || final(self).offset == old(self).offset,
            final(code)@ == old(code)@ || (final(code)@ == old(code)@.push(final(code)@.last())
                && encoded_as(final(code)@.last(), *final(self), old(self).regs@, old(self).save_oper, cs as int)),
            final(self).pin != old(self).pin ==> final(self).opcode == PINOP
                && final(self).pin == Some(expr_result(final(self).b_expr@, old(self).regs@, old(self).save_oper).1),
            final(self).offset != old(self).offset ==> (final(self).opcode == ORGOP || final(self).opcode == ENDOP)
                && final(self).offset == (expr_result(final(self).b_expr@, old(self).regs@, old(self).save_oper).1 as int) % (cs as int),
            final(self).errnum == 0 && final(self).opcode < OPNUM && old(code)@.len() < count
                ==> final(code)@.len() == old(code)@.len() + 1,
            final(self).errnum == 0 && final(self).opcode == ORGOP ==> final(self).offset
                == (expr_result(final(self).b_expr@, old(self).regs@, old(self).save_oper).1 as int) % (cs as int),
            final(self).errnum == 0 && final(self).opcode == PINOP ==> final(self).pin
                == Some(expr_result(final(self).b_expr@, old(self).regs@, old(self).save_oper).1),
            final(self).errnum == 0 && final(self).opcode == ENDOP && old(self).offset == 0
                && expr_result(final(self).b_expr@, old(self).regs@, old(self).save_oper).1 != 0 ==> final(self).offset
                == (expr_result(final(self).b_expr@, old(self).regs@, old(self).save_oper).1 as int) % (cs as int),
    {
        let ghost loc = loc_of(*self);
        let ghost pre = *self;
        self.dfashell(text);
        let ghost s1 = enc_parse(pre.lists@, s, text@, loc);
        proof {
            lemma_enc_parse(pre, *self, base, s, text@);
        }
        if self.errnum != 0 {
            return;
        }
        if self.a_expr.len() == 0 {
            self.a_expr = vec![48u8];
            assert(self.a_expr@ =~= seq![48u8]);
        }
        if self.b_expr.len() == 0 {
            self.b_expr = vec![48u8];
            assert(self.b_expr@ =~= seq![48u8]);
        }
        let ghost s2 = Enc {
            a_expr: if s1.a_expr.len() == 0 { seq![48u8] } else { s1.a_expr },
            b_expr: if s1.b_expr.len() == 0 { seq![48u8] } else { s1.b_expr },
            ..s1
        };
        assert(enc_holds(*self, base, s2));
        assert(loc_of(*self) == loc);
        if self.opcode == ORGOP || self.opcode == ENDOP || self.opcode == PINOP {
            self.encode_pseudo(cs, Ghost(base), Ghost(s2));
            return;
        }
        self.encode_fields(cs, count, code, Ghost(base), Ghost(s2));
    }

    /// ORG, END or PIN: the start or the PIN from the B expression.
    #[verifier::rlimit(60)]
    #[verifier::spinoff_prover]
    fn encode_pseudo(&mut self, cs: i64, Ghost(base): Ghost<Asm>, Ghost(s): Ghost<Enc>)
        requires
            old(self).wf(),
            cs == old(self).cfg.core_size as i64,
            cs >= 1,
            old(self).opcode == ORGOP || old(self).opcode == ENDOP || old(self).opcode == PINOP,
            enc_holds(*old(self), base, s),
        ensures
            enc_holds(*final(self), base, enc_pseudo(s, cs as int, loc_of(*old(self)))),
            final(self).lists == old(self).lists,
            final(self).aline == old(self).aline,
            final(self).wf(),
            final(self).grew(*old(self)),
            final(self).opcode == old(self).opcode,
            final(self).b_expr == old(self).b_expr,
            0 <= final(self).offset < cs || final(self).offset == old(self).offset,
            final(self).pin != old(self).pin ==> final(self).opcode == PINOP
                && final(self).pin == Some(expr_result(final(self).b_expr@, old(self).regs@, old(self).save_oper).1),
            final(self).offset != old(self).offset ==> (final(self).opcode == ORGOP || final(self).opcode == ENDOP)
                && final(self).offset == (expr_result(final(self).b_expr@, old(self).regs@, old(self).save_oper).1 as int) % (cs as int),
            final(self).errnum == 0 && final(self).opcode == ORGOP ==> final(self).offset
                == (expr_result(final(self).b_expr@, old(self).regs@, old(self).save_oper).1 as int) % (cs as int),
            final(self).errnum == 0 && final(self).opcode == PINOP ==> final(self).pin
                == Some(expr_result(final(self).b_expr@, old(self).regs@, old(self).save_oper).1),
            final(self).errnum == 0 && final(self).opcode == ENDOP && old(self).offset == 0
                && expr_result(final(self).b_expr@, old(self).regs@, old(self).save_oper).1 != 0 ==> final(self).offset
                == (expr_result(final(self).b_expr@, old(self).regs@, old(self).save_oper).1 as int) % (cs as int),
    {
        let e = copy_bytes(&self.b_expr);
        let ghost loc = loc_of(*self);
        let ghost s1 = enc_eval(s, e@, loc).0;
        match self.field_value(&e, Ghost(base), Ghost(s)) {
            None => {
                proof {
                    assert(!self.diags@[self.diags@.len() - 1].warning);
                    lemma_no_error(self.diags@);
                }
            },
            Some((ofl, v)) => {
                let ghost s2 = if ofl { e_err(s1, E::Ofl, loc) } else { s1 };
                if ofl {
                    let ghost mid = *self;
                    self.err(E::Ofl);
                    proof {
                        lemma_enc_err(mid, *self, base, s1, E::Ofl, loc);
                    }
                }
                assert(enc_holds(*self, base, s2));
                if self.opcode == ORGOP {
                    self.offset = v.checked_rem_euclid(cs).unwrap();
                } else if self.opcode == PINOP {
                    self.pin = Some(v);
                } else if v != 0 {
                    if self.offset != 0 {
                        let ghost mid = *self;
                        self.err(E::Doe);
                        proof {
                            lemma_enc_err(mid, *self, base, s2, E::Doe, loc);
                        }
                    } else {
                        self.offset = v.checked_rem_euclid(cs).unwrap();
                    }
                }
            },
        }
    }

    /// An instruction: its fields evaluated, A then B, and folded into the
    /// core, added to `code` while it has room for it.
    #[verifier::rlimit(80)]
    #[verifier::spinoff_prover]
    fn encode_fields(&mut self, cs: i64, count: u32, code: &mut Vec<Instruction>, Ghost(base): Ghost<Asm>, Ghost(s): Ghost<Enc>)
        requires
            old(self).wf(),
            cs == old(self).cfg.core_size as i64,
            cs >= 1,
            old(code)@.len() <= count,
            enc_holds(*old(self), base, s),
            old(code)@ == s.code,
            forall|i: int| 0 <= i < old(code)@.len() ==> (#[trigger] old(code)@[i]).a < old(self).cfg.core_size && old(code)@[i].b < old(self).cfg.core_size,
        ensures
            enc_holds(*final(self), base, enc_fields(s, cs as int, count, loc_of(*old(self)))),
            final(code)@ == enc_fields(s, cs as int, count, loc_of(*old(self))).code,
            final(self).lists == old(self).lists,
            final(self).aline == old(self).aline,
            final(self).wf(),
            final(self).grew(*old(self)),
            final(self).offset == old(self).offset,
            final(self).pin == old(self).pin,
            final(self).opcode == old(self).opcode,
            final(self).a_expr == old(self).a_expr,
            final(self).b_expr == old(self).b_expr,
            final(self).a_mode == old(self).a_mode,
            final(self).b_mode == old(self).b_mode,
            final(self).modifier == old(self).modifier,
            final(code)@.len() <= count,
            forall|i: int| 0 <= i < final(code)@.len() ==> (#[trigger] final(code)@[i]).a < old(self).cfg.core_size && final(code)@[i].b < old(self).cfg.core_size,
            final(code)@ == old(code)@ || (final(code)@ == old(code)@.push(final(code)@.last())
                && encoded_as(final(code)@.last(), *final(self), old(self).regs@, old(self).save_oper, cs as int)),
            final(self).errnum == 0 && old(self).opcode < OPNUM && old(code)@.len() < count
                ==> final(code)@.len() == old(code)@.len() + 1,
    {
        let ea = copy_bytes(&self.a_expr);
        let eb = copy_bytes(&self.b_expr);
        let ghost loc = loc_of(*self);
        let ghost s1 = enc_eval(s, ea@, loc).0;
        let va = match self.field_value(&ea, Ghost(base), Ghost(s)) {
            Some(x) => x,
            None => {
                proof {
                    assert(!self.diags@[self.diags@.len() - 1].warning);
                    lemma_no_error(self.diags@);
                }
                return;
            },
        };
        let ghost s2 = enc_eval(s1, eb@, loc).0;
        let vb = match self.field_value(&eb, Ghost(base), Ghost(s1)) {
            Some(x) => x,
            None => {
                proof {
                    assert(!self.diags@[self.diags@.len() - 1].warning);
                    lemma_no_error(self.diags@);
                }
                return;
            },
        };
        let ghost s3 = if va.0 || vb.0 { e_err(s2, E::Ofl, loc) } else { s2 };
        if va.0 || vb.0 {
            let ghost mid = *self;
            self.err(E::Ofl);
            proof {
                lemma_enc_err(mid, *self, base, s2, E::Ofl, loc);
            }
        }
        assert(enc_holds(*self, base, s3));
        if self.opcode < OPNUM && code.len() < count as usize {
            let op = opcode_of(self.opcode);
            let modifier = match self.modifier {
                Some(m) => modifier_of(m),
                None => crate::redcode::default_modifier(op, self.a_mode, self.b_mode),
            };
            let a = va.1.checked_rem_euclid(cs).unwrap() as u32;
            let b = vb.1.checked_rem_euclid(cs).unwrap() as u32;
            code.push(Instruction { op, modifier, a_mode: self.a_mode, a, b_mode: self.b_mode, b });
            assert(code@.last() == ins_of(s3, va.1, vb.1, cs as int));
            if self.line < u32::MAX {
                self.line = self.line + 1;
            }
        }
    }

    /// Pass 2: encode the rewritten lines.
    #[verifier::rlimit(100)]
    #[verifier::spinoff_prover]
    fn encode(&mut self) -> (code: Vec<Instruction>)
        requires
            old(self).wf(),
            old(self).cfg.core_size >= 1,
        ensures
            code@ == enc_all(*old(self), final(self).lists@).code,
            enc_holds(*final(self), *old(self), enc_all(*old(self), final(self).lists@)),
            final(self).wf(),
            final(self).grew(*old(self)),
            code@.len() <= old(self).line,
            code@.len() <= MAXINSTR,
            forall|i: int| 0 <= i < code@.len() ==> (#[trigger] code@[i]).a < old(self).cfg.core_size && code@[i].b < old(self).cfg.core_size,
            0 <= final(self).offset < old(self).cfg.core_size || final(self).offset == old(self).offset,
            old(self).line as int > old(self).cfg.max_length as int ==> has_error(final(self).diags@),
    {
        let mut code: Vec<Instruction> = Vec::new();
        let count = self.line;
        let ghost s0 = enc_start(*self);
        assert(enc_holds(*self, *old(self), s0));
        if count > MAXINSTR {
            self.err_at(E::Exx, 0);
            proof {
                lemma_enc_err(*old(self), *self, *old(self), s0, E::Exx, 0);
                assert(code@ =~= s0.code);
                assert(!self.diags@.last().warning);
                assert(self.diags@[self.diags@.len() - 1] == self.diags@.last());
            }
            return code;
        }
        let ghost lin_at: int = self.diags@.len() as int;
        let ghost s1 = if count as int > old(self).cfg.max_length as int { e_err(s0, E::Lin, 0) } else { s0 };
        if count as usize > self.cfg.max_length {
            self.err_at(E::Lin, 0);
            proof {
                lemma_enc_err(*old(self), *self, *old(self), s0, E::Lin, 0);
            }
        }
        assert(enc_holds(*self, *old(self), s1));
        if count == 0 {
            let ghost mid = *self;
            self.err_at(E::Zln, 0);
            proof {
                lemma_enc_err(mid, *self, *old(self), s1, E::Zln, 0);
                assert(code@ =~= s0.code);
            }
            return code;
        }
        proof {
            if count as int > old(self).cfg.max_length as int {
                assert(!self.diags@[lin_at].warning);
            }
        }
        self.line = 0;
        let ghost sstart = Enc { line: 0, ..s1 };
        assert(enc_holds(*self, *old(self), sstart));
        let mut out: Vec<Line> = Vec::new();
        std::mem::swap(&mut out, &mut self.out);
        assert(out == old(self).out);
        let n = out.len();
        let mut copy: Vec<Line> = Vec::new();
        let mut k: usize = 0;
        while k < n
            invariant
                k <= n,
                n == out@.len(),
                copy@.len() == k,
                forall|q: int| 0 <= q < k ==> (#[trigger] copy@[q]).loc == out@[q].loc,
            decreases n - k,
        {
            copy.push(Line { text: copy_bytes(&out[k].text), loc: out[k].loc });
            k += 1;
        }
        let ghost before_push = *self;
        self.lists.push(copy);
        let list = self.lists.len() - 1;
        proof {
            assert forall|x: int| 0 <= x < self.refs@.len() implies kind_ok((#[trigger] self.refs@[x]).kind, self.lists@) by {
                assert(kind_ok(before_push.refs@[x].kind, before_push.lists@));
            }
        }
        let cs = self.cfg.core_size as i64;
        let ghost cfg0 = self.cfg;
        let ghost lists0 = self.lists@;
        let ghost lines = lines_of(out@);
        proof {
            assert(lines.take(0) =~= Seq::<(Seq<u8>, usize)>::empty());
            assert(enc_holds(*self, *old(self), sstart));
        }
        let mut k: usize = 0;
        while k < n
            invariant
                self.lists@ == lists0,
                lines == lines_of(out@),
                forall|q: int| 0 <= q < n ==> (#[trigger] lists0[list as int]@[q]).loc == out@[q].loc,
                enc_holds(*self, *old(self), enc_lines(lists0, lines.take(k as int), sstart, cs as int, count)),
                code@ == enc_lines(lists0, lines.take(k as int), sstart, cs as int, count).code,
                self.wf(),
                self.grew(*old(self)),
                self.cfg == old(self).cfg,
                k <= n,
                n == out@.len(),
                list < self.lists@.len(),
                self.lists@[list as int]@.len() == n,
                cs == old(self).cfg.core_size as i64,
                cs >= 1,
                code@.len() <= k,
                code@.len() <= count,
                forall|i: int| 0 <= i < code@.len() ==> (#[trigger] code@[i]).a < old(self).cfg.core_size && code@[i].b < old(self).cfg.core_size,
                0 <= self.offset < cs || self.offset == old(self).offset,
                count as int > old(self).cfg.max_length as int ==> 0 <= lin_at < self.diags@.len() && !self.diags@[lin_at].warning,
                count <= MAXINSTR,
            decreases n - k,
        {
            self.aline = Some((list, k));
            let ghost sk = enc_lines(lists0, lines.take(k as int), sstart, cs as int, count);
            proof {
                assert(loc_of(*self) == out@[k as int].loc);
                assert(lines.take(k + 1).drop_last() =~= lines.take(k as int));
                assert(lines.take(k + 1).last() == (out@[k as int].text@, out@[k as int].loc));
            }
            self.encode_line(&out[k].text, cs, count, &mut code, Ghost(*old(self)), Ghost(sk));
            k += 1;
        }
        let ghost s2 = enc_lines(lists0, lines, sstart, cs as int, count);
        proof {
            assert(lines.take(n as int) =~= lines);
        }
        if self.offset < 0 || self.offset >= count as i64 {
            let ghost mid = *self;
            self.err_at(E::Ofs, 0);
            proof {
                lemma_enc_err(mid, *self, *old(self), s2, E::Ofs, 0);
            }
        }
        proof {
            if count as int > old(self).cfg.max_length as int {
                assert(!self.diags@[lin_at].warning);
            }
        }
        code
    }

    /// Assemble a source.
    fn run(&mut self, src: &[u8]) -> (w: (Vec<Instruction>, Vec<u8>, Vec<u8>, i64, Option<i64>))
        requires
            old(self).wf(),
            old(self).aline is None,
            old(self).cfg.core_size >= 1,
        ensures
            final(self).wf(),
            forall|i: int| 0 <= i < w.0@.len() ==> (#[trigger] w.0@[i]).a < old(self).cfg.core_size && w.0@[i].b < old(self).cfg.core_size,
            w.0@.len() <= MAXINSTR,
            0 <= w.3 < old(self).cfg.core_size,
            !has_error(final(self).diags@) ==> w.0@.len() <= old(self).cfg.max_length,
            w.1@ == final(self).name@,
            w.2@ == final(self).author@,
            final(self).name@ == read_from(src@, 0, 0, false, (lines_of(old(self).lists@[0]@), old(self).name@, old(self).author@)).1,
            final(self).author@ == read_from(src@, 0, 0, false, (lines_of(old(self).lists@[0]@), old(self).name@, old(self).author@)).2,
            w.3 == final(self).offset,
            w.4 == final(self).pin,
    {
        self.addpredefs();
        if self.cfg.first_warrior {
            let n = self.cfg.warriors as i64;
            self.regs[22] = n;
            self.regs[18] = n;
        }
        let ghost before_read = *self;
        proof {
            assert(before_read.lists@[0] == old(self).lists@[0]);
        }
        self.read(src);
        self.line = 0;
        self.expand();
        if self.symtbl.len() > 0 {
            self.symtbl.clear();
            self.err_at(E::Dlb, 0);
        }
        if self.noassert {
            self.err_at(E::Nas, 0);
        }
        self.offset = 0;
        let code = self.encode();
        let name = copy_bytes(&self.name);
        let author = copy_bytes(&self.author);
        (code, name, author, self.offset, self.pin)
    }
}

/// Whether some message is an error.
spec fn has_error(d: Seq<AsmError>) -> bool {
    exists|i: int| 0 <= i < d.len() && !(#[trigger] d[i]).warning
}

/// No error is counted where there is none.
proof fn lemma_no_error(d: Seq<AsmError>)
    ensures
        error_count(d) == 0 <==> !has_error(d),
    decreases d.len(),
{
    if d.len() > 0 {
        lemma_no_error(d.drop_last());
        if has_error(d.drop_last()) {
            let i = choose|i: int| 0 <= i < d.drop_last().len() && !(#[trigger] d.drop_last()[i]).warning;
            assert(d[i] == d.drop_last()[i]);
        }
        if has_error(d) {
            let i = choose|i: int| 0 <= i < d.len() && !(#[trigger] d[i]).warning;
            if i < d.len() - 1 {
                assert(d.drop_last()[i] == d[i]);
            }
        }
        lemma_error_count(d.drop_last());
    }
}

/// The text of a byte string, invalid UTF-8 replaced as
/// `String::from_utf8_lossy` replaces it.
pub uninterp spec fn lossy_text(b: Seq<u8>) -> Seq<char>;

/// `String::from_utf8_lossy`: the text of the bytes, each invalid UTF-8
/// sequence replaced by U+FFFD. Of valid UTF-8 it is the text the bytes
/// encode, as its documentation says; what it gives of other bytes is
/// named, not stated.
#[verifier::external_body]
fn text_of_bytes(b: &[u8]) -> (s: String)
    ensures
        s@ == lossy_text(b@),
        vstd::utf8::valid_utf8(b@) ==> s@ == vstd::utf8::decode_utf8(b@),
{
    String::from_utf8_lossy(b).into_owned()
}

/// The source as reading leaves it: its lines, name and author.
pub open spec fn source_read(src: Seq<u8>) -> (Seq<(Seq<u8>, usize)>, Seq<u8>, Seq<u8>) {
    read_from(src, 0, 0, false, (Seq::empty(), seq![85u8, 110, 107, 110, 111, 119, 110], seq![65u8, 110, 111, 110, 121, 109, 111, 117, 115]))
}

/// A warrior's name: that of its last `;name` line, `Unknown` if none.
pub open spec fn source_name(src: Seq<u8>) -> Seq<u8> {
    source_read(src).1
}

/// A warrior's author: that of its last `;author` line, `Anonymous` if none.
pub open spec fn source_author(src: Seq<u8>) -> Seq<u8> {
    source_read(src).2
}

/// The warrior an assembly makes, when its instructions and start are in
/// the core.
pub open spec fn assembled_ok(w: Warrior, cfg: Config) -> bool {
    &&& w.start < cfg.core_size
    &&& w.code@.len() <= cfg.max_length
    &&& w.code@.len() <= MAXINSTR
    &&& forall|i: int| 0 <= i < w.code@.len() ==> (#[trigger] w.code@[i]).a < cfg.core_size && w.code@[i].b < cfg.core_size
}

/// What is stated of a full assembly of source `src`: the size limit's
/// error; of a warrior, that it fits, and its name and author; warnings
/// and errors kept apart, at least one error on failure.
pub open spec fn full_assembly(src: Seq<u8>, cfg: Config, r: Result<Assembly, Vec<AsmError>>) -> bool {
    &&& src.len() > MAX_SOURCE_BYTES ==> (r matches Err(es) && es@.len() == 1 && es@[0].line == 0
        && !es@[0].warning && es@[0].msg@ == error_text(E::Src)@)
    &&& r matches Ok(a) ==> {
        &&& src.len() <= MAX_SOURCE_BYTES
        &&& assembled_ok(a.warrior, cfg)
        &&& a.warrior.name@ == lossy_text(source_name(src))
        &&& a.warrior.author@ == lossy_text(source_author(src))
        &&& forall|i: int| 0 <= i < a.warnings@.len() ==> (#[trigger] a.warnings@[i]).warning
    }
    &&& r matches Err(es) ==> es@.len() > 0 && forall|i: int| 0 <= i < es@.len() ==> !(#[trigger] es@[i]).warning
}

/// The warrior of a full assembly, or its first error.
pub open spec fn first_or_warrior(f: Result<Assembly, Vec<AsmError>>) -> Result<Warrior, AsmError> {
    match f {
        Ok(a) => Ok(a.warrior),
        Err(es) => Err(es@[0]),
    }
}

/// Assemble a warrior, keeping every warning; on failure, every error.
/// A source over MAX_SOURCE_BYTES is refused unread.
pub fn assemble_full(src: &str, cfg: &Config) -> (r: Result<Assembly, Vec<AsmError>>)
    requires
        cfg.core_size >= 1,
    ensures
        full_assembly(src.spec_bytes(), *cfg, r),
{
    let bytes = src.as_bytes();
    if bytes.len() > MAX_SOURCE_BYTES {
        let mut es: Vec<AsmError> = Vec::new();
        es.push(AsmError { line: 0, msg: E::Src.text().to_owned(), warning: false });
        return Err(es);
    }
    let mut a = Asm::new(cfg);
    proof {
        assert(lines_of(a.lists@[0]@) =~= Seq::empty());
    }
    let (code, name, author, offset, pin) = a.run(bytes);
    let mut errors: Vec<AsmError> = Vec::new();
    let mut warnings: Vec<AsmError> = Vec::new();
    let n = a.diags.len();
    let mut k: usize = 0;
    while k < n
        invariant
            k <= n,
            n == a.diags@.len(),
            errors@.len() == error_count(a.diags@.take(k as int)),
            forall|i: int| 0 <= i < errors@.len() ==> !(#[trigger] errors@[i]).warning,
            forall|i: int| 0 <= i < warnings@.len() ==> (#[trigger] warnings@[i]).warning,
        decreases n - k,
    {
        let d = a.diags[k].clone();
        assert(a.diags@.take(k + 1).drop_last() =~= a.diags@.take(k as int));
        if a.diags[k].warning {
            warnings.push(AsmError { line: a.diags[k].line, msg: d.msg, warning: true });
        } else {
            errors.push(AsmError { line: a.diags[k].line, msg: d.msg, warning: false });
        }
        k += 1;
    }
    proof {
        assert(a.diags@.take(n as int) =~= a.diags@);
        lemma_no_error(a.diags@);
    }
    if errors.len() == 0 {
        let warrior = Warrior {
            name: text_of_bytes(&name),
            author: text_of_bytes(&author),
            code,
            start: offset as u32,
            pin,
        };
        Ok(Assembly { warrior, warnings })
    } else {
        Err(errors)
    }
}

/// Assemble a warrior; the first error, if any.
pub fn assemble(src: &str, cfg: &Config) -> (r: Result<Warrior, AsmError>)
    requires
        cfg.core_size >= 1,
    ensures
        src.spec_bytes().len() > MAX_SOURCE_BYTES ==> (r matches Err(e) && e.line == 0 && !e.warning
            && e.msg@ == error_text(E::Src)@),
        r matches Ok(w) ==> assembled_ok(w, *cfg),
        r matches Ok(w) ==> w.name@ == lossy_text(source_name(src.spec_bytes()))
            && w.author@ == lossy_text(source_author(src.spec_bytes())),
        r matches Err(e) ==> !e.warning,
        exists|f: Result<Assembly, Vec<AsmError>>| full_assembly(src.spec_bytes(), *cfg, f) && first_or_warrior(f) == r,
{
    let full = assemble_full(src, cfg);
    let ghost f = full;
    let r = match full {
        Ok(a) => Ok(a.warrior),
        Err(es) => {
            let mut es = es;
            Err(es.remove(0))
        },
    };
    assert(full_assembly(src.spec_bytes(), *cfg, f) && first_or_warrior(f) == r);
    r
}

/// Counting the errors of a longer list of messages counts those of the
/// shorter one first.
proof fn lemma_error_count_grows(d: Seq<AsmError>, e: Seq<AsmError>)
    requires
        d.len() <= e.len(),
        forall|i: int| 0 <= i < d.len() ==> e[i] == d[i],
    ensures
        error_count(d) <= error_count(e),
    decreases e.len(),
{
    if d.len() < e.len() {
        assert forall|i: int| 0 <= i < d.len() implies e.drop_last()[i] == d[i] by {}
        lemma_error_count_grows(d, e.drop_last());
    } else {
        assert(d =~= e);
    }
}

} // verus!
