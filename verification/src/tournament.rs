//! The round robin of `cw tournament`: which pairs play, with which seed,
//! and how the table is scored and ordered.
use crate::mars::Score;
use vstd::prelude::*;

verus! {

/// Row `i` of a round robin of `n`: `i` against each later entrant.
pub open spec fn pairs_row(i: int, n: int) -> Seq<(int, int)> {
    Seq::new((if n - 1 - i > 0 { n - 1 - i } else { 0 }) as nat, |t: int| (i, i + 1 + t))
}

/// The rows before `i` of a round robin of `n`, one after another.
pub open spec fn pairs_before(i: int, n: int) -> Seq<(int, int)>
    decreases i,
{
    if i <= 0 { Seq::empty() } else { pairs_before(i - 1, n) + pairs_row(i - 1, n) }
}

/// The pairs of a round robin of `n` entrants: every `(i, j)` with
/// `i < j`, ordered by `i`, then by `j`.
pub open spec fn round_robin_pairs(n: int) -> Seq<(int, int)> {
    pairs_before(n, n)
}

/// The pairs of a round robin of `n` entrants, in order.
pub fn round_robin(n: usize) -> (out: Vec<(usize, usize)>)
    ensures
        out@.map_values(|p: (usize, usize)| (p.0 as int, p.1 as int)) == round_robin_pairs(n as int),
{
    let mut out: Vec<(usize, usize)> = Vec::new();
    let mut i: usize = 0;
    while i < n
        invariant
            i <= n,
            out@.map_values(|p: (usize, usize)| (p.0 as int, p.1 as int)) == pairs_before(i as int, n as int),
        decreases n - i,
    {
        let ghost before = out@.map_values(|p: (usize, usize)| (p.0 as int, p.1 as int));
        let mut j: usize = i + 1;
        while j < n
            invariant
                i < n,
                i + 1 <= j <= n,
                out@.map_values(|p: (usize, usize)| (p.0 as int, p.1 as int))
                    == before + pairs_row(i as int, n as int).take(j - i - 1),
            decreases n - j,
        {
            let ghost prev = out@;
            out.push((i, j));
            proof {
                assert(out@.map_values(|p: (usize, usize)| (p.0 as int, p.1 as int))
                    =~= prev.map_values(|p: (usize, usize)| (p.0 as int, p.1 as int)).push((i as int, j as int)));
                assert(pairs_row(i as int, n as int).take(j - i) =~= pairs_row(i as int, n as int).take(j - i - 1).push(
                    (i as int, j as int),
                ));
            }
            j += 1;
        }
        proof {
            assert(pairs_row(i as int, n as int).take(n - i - 1) =~= pairs_row(i as int, n as int));
        }
        i += 1;
    }
    out
}

/// The seed of the `k`-th match of a round robin: the second warrior is
/// placed like `pmars -F X` with X = 100 + 997k mod 7801.
pub open spec fn seed_of_match(k: int, min_distance: int) -> int {
    100 + (k * 997) % 7801 - min_distance
}

/// The seed of the `k`-th match of a round robin.
pub fn round_robin_seed(k: u32, min_distance: u32) -> (s: i32)
    requires
        k * 997 <= u32::MAX,
        min_distance <= 100 + (k * 997) % 7801,
    ensures
        s == seed_of_match(k as int, min_distance as int),
{
    let x = 100 + (k * 997 % 7801);
    (x - min_distance) as i32
}

/// The points `pairs` and `results` give entrant `x` from their first
/// `upto` matches: three a round won, one a round tied.
pub open spec fn points_of(pairs: Seq<(usize, usize)>, results: Seq<Score>, x: int, upto: int) -> int
    decreases upto,
{
    if upto <= 0 {
        0
    } else {
        let k = upto - 1;
        let s = results[k];
        points_of(pairs, results, x, k)
            + (if pairs[k].0 == x { 3 * s.w1 + s.ties } else { 0 })
            + (if pairs[k].1 == x { 3 * s.w2 + s.ties } else { 0 })
    }
}

/// Points only grow as matches are counted.
proof fn lemma_points_grow(pairs: Seq<(usize, usize)>, results: Seq<Score>, x: int, a: int, b: int)
    requires
        0 <= a <= b,
    ensures
        points_of(pairs, results, x, a) <= points_of(pairs, results, x, b),
    decreases b - a,
{
    if a < b {
        lemma_points_grow(pairs, results, x, a, b - 1);
    }
}

/// The matches counted: as many as there are both pairs and results.
pub open spec fn matches_counted(pairs: Seq<(usize, usize)>, results: Seq<Score>) -> int {
    if pairs.len() < results.len() { pairs.len() as int } else { results.len() as int }
}

/// Each of `n` entrants' points from the matches of `pairs`, whose results
/// are `results`; `None` where a total does not fit in 64 bits.
pub fn round_robin_points(n: usize, pairs: &[(usize, usize)], results: &[Score]) -> (r: Option<Vec<u64>>)
    requires
        forall|k: int| 0 <= k < pairs@.len() ==> (#[trigger] pairs@[k]).0 < n && pairs@[k].1 < n,
    ensures
        r is None <==> exists|x: int| 0 <= x < n
            && #[trigger] points_of(pairs@, results@, x, matches_counted(pairs@, results@)) > u64::MAX,
        r matches Some(v) ==> v@.len() == n && forall|x: int| 0 <= x < n
            ==> #[trigger] v@[x] == points_of(pairs@, results@, x, matches_counted(pairs@, results@)),
{
    let mut score: Vec<u64> = Vec::new();
    let mut i: usize = 0;
    while i < n
        invariant
            i <= n,
            score@.len() == i,
            forall|x: int| 0 <= x < i ==> #[trigger] score@[x] == 0,
        decreases n - i,
    {
        score.push(0);
        i += 1;
    }
    let m = if pairs.len() < results.len() { pairs.len() } else { results.len() };
    let mut k: usize = 0;
    while k < m
        invariant
            m == matches_counted(pairs@, results@),
            m <= pairs@.len(),
            m <= results@.len(),
            forall|k2: int| 0 <= k2 < pairs@.len() ==> (#[trigger] pairs@[k2]).0 < n && pairs@[k2].1 < n,
            k <= m,
            score@.len() == n,
            forall|x: int| 0 <= x < n ==> #[trigger] score@[x] == points_of(pairs@, results@, x, k as int),
        decreases m - k,
    {
        let (a, b) = pairs[k];
        let s = results[k];
        let ga = 3 * s.w1 as u64 + s.ties as u64;
        let gb = 3 * s.w2 as u64 + s.ties as u64;
        let ghost before = score@;
        if a == b {
            match score[a].checked_add(ga) {
                Some(v) => match v.checked_add(gb) {
                    Some(v2) => score.set(a, v2),
                    None => {
                        proof {
                            lemma_points_grow(pairs@, results@, a as int, k + 1, m as int);
                        }
                        return None;
                    },
                },
                None => {
                    proof {
                        lemma_points_grow(pairs@, results@, a as int, k + 1, m as int);
                    }
                    return None;
                },
            }
        } else {
            match score[a].checked_add(ga) {
                Some(v) => score.set(a, v),
                None => {
                    proof {
                        lemma_points_grow(pairs@, results@, a as int, k + 1, m as int);
                    }
                    return None;
                },
            }
            match score[b].checked_add(gb) {
                Some(v) => score.set(b, v),
                None => {
                    proof {
                        lemma_points_grow(pairs@, results@, b as int, k + 1, m as int);
                    }
                    return None;
                },
            }
        }
        proof {
            assert forall|x: int| 0 <= x < n implies #[trigger] score@[x] == points_of(pairs@, results@, x, k + 1) by {
                assert(before[x] == points_of(pairs@, results@, x, k as int));
            }
        }
        k += 1;
    }
    proof {
        assert forall|x: int| 0 <= x < n implies !(#[trigger] points_of(pairs@, results@, x, matches_counted(pairs@, results@))
            > u64::MAX) by {
            assert(score@[x] == points_of(pairs@, results@, x, m as int));
        }
    }
    Some(score)
}

/// `p` lists the entrants `0..n`, each once, by points, most first; equal
/// points keep the entrants' order.
pub open spec fn is_points_order(p: Seq<int>, points: Seq<u64>) -> bool {
    &&& p.len() == points.len()
    &&& forall|k: int| 0 <= k < p.len() ==> 0 <= #[trigger] p[k] < p.len()
    &&& forall|k: int, l: int| 0 <= k < l < p.len() ==> #[trigger] p[k] != #[trigger] p[l]
    &&& forall|k: int, l: int| 0 <= k < l < p.len() ==> points_above(points, #[trigger] p[k], #[trigger] p[l])
}

/// Entrant `i` comes before `j`: more points, or as many and listed first.
pub open spec fn points_above(points: Seq<u64>, i: int, j: int) -> bool {
    points[i] > points[j] || (points[i] == points[j] && i < j)
}

/// The entrants, most points first; equal points in entrant order.
pub fn points_order(points: &Vec<u64>) -> (p: Vec<usize>)
    ensures
        is_points_order(p@.map_values(|x: usize| x as int), points@),
{
    let n = points.len();
    let mut p: Vec<usize> = Vec::new();
    let mut i: usize = 0;
    while i < n
        invariant
            n == points@.len(),
            i <= n,
            p@.len() == i,
            forall|k: int| 0 <= k < i ==> #[trigger] p@[k] < i,
            forall|k: int, l: int| 0 <= k < l < i ==> #[trigger] p@[k] != #[trigger] p@[l],
            forall|k: int, l: int| 0 <= k < l < i ==> points_above(points@, #[trigger] p@[k] as int, #[trigger] p@[l] as int),
        decreases n - i,
    {
        let mut q: usize = 0;
        while q < i && points[p[q]] >= points[i]
            invariant
                n == points@.len(),
                i < n,
                q <= i,
                p@.len() == i,
                forall|k: int| 0 <= k < i ==> #[trigger] p@[k] < i,
                forall|k: int| 0 <= k < q ==> points_above(points@, #[trigger] p@[k] as int, i as int),
            decreases i - q,
        {
            q += 1;
        }
        let ghost old_p = p@;
        proof {
            assert forall|k: int| q <= k < i implies points_above(points@, i as int, #[trigger] old_p[k] as int) by {
                if k > q {
                    assert(points_above(points@, old_p[q as int] as int, old_p[k] as int));
                }
            }
        }
        p.insert(q, i);
        i += 1;
    }
    proof {
        let pm = p@.map_values(|x: usize| x as int);
        assert forall|k: int, l: int| 0 <= k < l < pm.len() implies #[trigger] pm[k] != #[trigger] pm[l] by {
            assert(p@[k] != p@[l]);
        }
        assert forall|k: int, l: int| 0 <= k < l < pm.len() implies points_above(points@, #[trigger] pm[k], #[trigger] pm[l]) by {
            assert(points_above(points@, p@[k] as int, p@[l] as int));
        }
    }
    p
}

} // verus!
