use vstd::prelude::*;
use crate::bits::{in_mask, lemma_clear_bit, lemma_full_mask, lemma_only_origin, lemma_origin_mask};
use crate::tour::{
    cost, first_choice, is_matrix, is_path, is_tour, lemma_distinct_bound, lemma_path_cost_nonneg,
    lemma_path_cost_prepend, lemma_path_cost_push, lemma_path_cost_split, lemma_perm_len, path_cost,
};

verus! {

/// The largest number of cities the solver accepts: its tables hold `2^n * n` entries.
pub const MAX_CITIES: usize = 20;

/// Why a cost matrix could not be solved.
#[derive(Debug, Clone, Copy, PartialEq, Eq)]
pub enum SolveError {
    /// The matrix is empty, not square, or has more than `MAX_CITIES` cities.
    InvalidInput,
}

/// The inputs `solve_tsp` accepts.
pub open spec fn solvable(d: Seq<Vec<u32>>) -> bool {
    1 <= d.len() <= MAX_CITIES && is_matrix(d)
}

/// `(m, u)` is a state of the search: `m` holds the origin and `u`, a city.
pub open spec fn state_ok(n: nat, m: u32, u: usize) -> bool {
    u < n && in_mask(m, 0) && in_mask(m, u as u32)
}

pub open spec fn has(dp: Seq<Vec<Option<u64>>>, m: u32, u: usize) -> bool {
    dp[m as int]@[u as int] is Some
}

pub open spec fn val(dp: Seq<Vec<Option<u64>>>, m: u32, u: usize) -> int {
    dp[m as int]@[u as int]->Some_0 as int
}

/// The mask `m` without city `u`.
pub open spec fn without(m: u32, u: usize) -> u32 {
    m ^ (1u32 << (u as u32))
}

/// What row `m` of the tables (`row`, `prow`) holds for state `(m, u)`: a best cost
/// reached through a recorded predecessor state of an earlier row of `dp`, no larger
/// than the cost of any path that the state describes.
pub open spec fn row_entry_ok(
    d: Seq<Vec<u32>>,
    n: nat,
    dp: Seq<Vec<Option<u64>>>,
    m: u32,
    row: Seq<Option<u64>>,
    prow: Seq<usize>,
    u: usize,
) -> bool {
    state_ok(n, m, u) ==> {
        &&& row[u as int] is Some ==> {
            &&& row[u as int]->Some_0 <= (m as int) * 0xffff_ffff
            &&& u == 0 ==> m == 1 && row[u as int]->Some_0 == 0
            &&& u != 0 ==> {
                let v = prow[u as int];
                &&& without(m, u) < m
                &&& state_ok(n, without(m, u), v)
                &&& has(dp, without(m, u), v)
                &&& row[u as int]->Some_0 == val(dp, without(m, u), v) + cost(d, v, u)
                &&& forall|w: usize|
                    state_ok(n, without(m, u), w) && #[trigger] has(dp, without(m, u), w) ==> row[u as int]->Some_0
                        <= val(dp, without(m, u), w) + cost(d, w, u)
                &&& forall|w: usize|
                    w < v && state_ok(n, without(m, u), w) && #[trigger] has(dp, without(m, u), w) ==> row[u as int]->Some_0
                        < val(dp, without(m, u), w) + cost(d, w, u)
            }
        }
        &&& forall|p: Seq<usize>|
            #[trigger] is_path(p, n, m, u) ==> row[u as int] is Some && row[u as int]->Some_0
                <= path_cost(d, p)
    }
}

/// A row stays well formed when the tables grow after it.
proof fn lemma_row_entry_extend(
    d: Seq<Vec<u32>>,
    n: nat,
    dp: Seq<Vec<Option<u64>>>,
    ndp: Seq<Vec<Option<u64>>>,
    m: u32,
    row: Seq<Option<u64>>,
    prow: Seq<usize>,
    u: usize,
)
    requires
        (m as int) <= dp.len() <= ndp.len(),
        forall|k: int| 0 <= k < m ==> #[trigger] ndp[k] == dp[k],
        row_entry_ok(d, n, dp, m, row, prow, u),
    ensures
        row_entry_ok(d, n, ndp, m, row, prow, u),
{
    if state_ok(n, m, u) && u != 0 && row[u as int] is Some {
        let pm = without(m, u);
        assert(ndp[pm as int] == dp[pm as int]);
        assert forall|w: usize| state_ok(n, pm, w) && #[trigger] has(ndp, pm, w) implies row[u as int]->Some_0
            <= val(ndp, pm, w) + cost(d, w, u) by {
            assert(has(dp, pm, w));
        }
        assert forall|w: usize| w < prow[u as int] && state_ok(n, pm, w) && #[trigger] has(ndp, pm, w) implies row[
        u as int]->Some_0 < val(ndp, pm, w) + cost(d, w, u) by {
            assert(has(dp, pm, w));
        }
    }
}

/// Row `m` of the tables is well formed at city `u`.
pub open spec fn entry_ok(
    d: Seq<Vec<u32>>,
    n: nat,
    dp: Seq<Vec<Option<u64>>>,
    par: Seq<Vec<usize>>,
    m: u32,
    u: usize,
) -> bool {
    row_entry_ok(d, n, dp, m, dp[m as int]@, par[m as int]@, u)
}

/// The tables hold one well-formed row per mask below their length.
pub open spec fn table_ok(
    d: Seq<Vec<u32>>,
    n: nat,
    dp: Seq<Vec<Option<u64>>>,
    par: Seq<Vec<usize>>,
) -> bool {
    &&& dp.len() == par.len()
    &&& forall|m: u32| (m as int) < dp.len() ==> (#[trigger] dp[m as int])@.len() == n
    &&& forall|m: u32| (m as int) < dp.len() ==> (#[trigger] par[m as int])@.len() == n
    &&& forall|m: u32, u: usize|
        (m as int) < dp.len() && u < n ==> #[trigger] entry_ok(d, n, dp, par, m, u)
}

/// A path that ends at `u != 0` is a path to its second-to-last city, followed by one leg.
proof fn lemma_step_back(d: Seq<Vec<u32>>, n: nat, m: u32, u: usize, p: Seq<usize>)
    requires
        n <= 20,
        u != 0,
        u < n,
        in_mask(m, u as u32),
        is_path(p, n, m, u),
    ensures
        p.len() >= 2,
        is_path(p.drop_last(), n, without(m, u), p[p.len() - 2]),
        state_ok(n, without(m, u), p[p.len() - 2]),
        path_cost(d, p) == path_cost(d, p.drop_last()) + cost(d, p[p.len() - 2], u),
{
    let q = p.drop_last();
    let prev = without(m, u);
    assert(p.len() >= 2);
    assert(p =~= q.push(u));
    lemma_path_cost_push(d, q, u);
    assert forall|k: usize| k < n implies (in_mask(prev, k as u32) <==> #[trigger] q.contains(k)) by {
        lemma_clear_bit(m, u as u32, k as u32);
        if q.contains(k) {
            let i = choose|i: int| 0 <= i < q.len() && q[i] == k;
            assert(p[i] == k);
            assert(p.contains(k));
            assert(k != u) by {
                assert(p[p.len() - 1] == u);
            }
        }
        if in_mask(prev, k as u32) {
            assert(p.contains(k));
            let i = choose|i: int| 0 <= i < p.len() && p[i] == k;
            assert(i != p.len() - 1);
            assert(q[i] == k);
        }
    }
    assert(q[0] == 0);
    assert(q.contains(0usize));
    assert(q.contains(q.last()));
    assert(p.contains(0usize));
}

/// The cheapest way into city `u` from a reachable state of mask `prev`.
fn best_predecessor(
    dist: &Vec<Vec<u32>>,
    dp: &Vec<Vec<Option<u64>>>,
    par: &Vec<Vec<usize>>,
    prev: u32,
    u: usize,
) -> (r: Option<(u64, usize)>)
    requires
        solvable(dist@),
        table_ok(dist@, dist@.len(), dp@, par@),
        (prev as int) < dp@.len(),
        (prev as int) < 0x100000,
        u < dist@.len(),
    ensures
        r matches Some((c, v)) ==> {
            &&& state_ok(dist@.len(), prev, v)
            &&& has(dp@, prev, v)
            &&& c == val(dp@, prev, v) + cost(dist@, v, u)
            &&& c <= (prev as int + 1) * 0xffff_ffff
        },
        forall|v: usize|
            state_ok(dist@.len(), prev, v) && #[trigger] has(dp@, prev, v) ==> (r matches Some((
                c,
                _,
            )) && c <= val(dp@, prev, v) + cost(dist@, v, u)),        r matches Some((c, w)) ==> forall|v: usize|
            v < w && state_ok(dist@.len(), prev, v) && #[trigger] has(dp@, prev, v) ==> c < val(dp@, prev, v)
                + cost(dist@, v, u),
{
    let n = dist.len();
    let ghost d = dist@;
    let mut best: Option<(u64, usize)> = None;
    let mut v: usize = 0;
    while v < n
        invariant
            n == d.len(),
            d == dist@,
            solvable(d),
            table_ok(d, n as nat, dp@, par@),
            (prev as int) < dp@.len(),
            (prev as int) < 0x100000,
            u < n,
            v <= n,
            best matches Some((c, w)) ==> {
                &&& state_ok(n as nat, prev, w)
                &&& has(dp@, prev, w)
                &&& c == val(dp@, prev, w) + cost(d, w, u)
                &&& c <= (prev as int + 1) * 0xffff_ffff
            },
            forall|w: usize|
                w < v && state_ok(n as nat, prev, w) && #[trigger] has(dp@, prev, w) ==> (best matches Some((
                    c,
                    _,
                )) && c <= val(dp@, prev, w) + cost(d, w, u)),
            best matches Some((c, bw)) ==> bw < v && forall|w: usize|
                w < bw && state_ok(n as nat, prev, w) && #[trigger] has(dp@, prev, w) ==> c < val(dp@, prev, w)
                    + cost(d, w, u),
        decreases n - v,
    {
        if (prev >> (v as u32)) & 1u32 == 1u32 && (prev & 1u32) == 1u32 {
            assert(entry_ok(d, n as nat, dp@, par@, prev, v));
            assert(dp@[prev as int]@.len() == n);
            assert(d[v as int]@.len() == n);
            assert((prev & 1u32 == 1u32) == ((prev >> 0u32) & 1u32 == 1u32)) by (bit_vector);
            match dp[prev as usize][v] {
                Some(pc) => {
                    assert(pc <= (prev as int) * 0xffff_ffff);
                    assert((prev as int) * 0xffff_ffff + 0xffff_ffff == (prev as int + 1) * 0xffff_ffff)
                        by (nonlinear_arith);
                    assert((prev as int + 1) * 0xffff_ffff <= 0x100000 * 0xffff_ffff) by (nonlinear_arith)
                        requires
                            (prev as int) < 0x100000,
                    ;
                    let c = pc + dist[v][u] as u64;
                    let better = match best {
                        Some((b, _)) => c < b,
                        None => true,
                    };
                    if better {
                        best = Some((c, v));
                    }
                },
                None => {},
            }
        } else {
            assert((prev & 1u32 == 1u32) == ((prev >> 0u32) & 1u32 == 1u32)) by (bit_vector);
        }
        v += 1;
    }
    best
}

/// Row `m` of the tables: for every city `u`, the cheapest path from the origin through
/// exactly the cities of `m` that ends at `u`, and the city before `u` on it.
fn fill_row(
    dist: &Vec<Vec<u32>>,
    dp: &Vec<Vec<Option<u64>>>,
    par: &Vec<Vec<usize>>,
    m: u32,
) -> (r: (Vec<Option<u64>>, Vec<usize>))
    requires
        solvable(dist@),
        table_ok(dist@, dist@.len(), dp@, par@),
        dp@.len() == m,
        m < (1u32 << (dist@.len() as u32)),
    ensures
        table_ok(dist@, dist@.len(), dp@.push(r.0), par@.push(r.1)),
        r.0@.len() == dist@.len(),
        r.1@.len() == dist@.len(),
{
    let n = dist.len();
    let ghost d = dist@;
    proof {
        lemma_full_mask(n as u32, 0);
    }
    let mut row: Vec<Option<u64>> = Vec::new();
    let mut prow: Vec<usize> = Vec::new();
    let mut u: usize = 0;
    while u < n
        invariant
            n == d.len(),
            d == dist@,
            solvable(d),
            table_ok(d, n as nat, dp@, par@),
            dp@.len() == m,
            m < (1u32 << (n as u32)),
            (1u32 << (n as u32)) <= 0x100000,
            u <= n,
            row@.len() == u,
            prow@.len() == u,
            forall|w: usize| w < u ==> #[trigger] row_entry_ok(d, n as nat, dp@, m, row@, prow@, w),
        decreases n - u,
    {
        let ghost old_row = row@;
        let ghost old_prow = prow@;
        let member = (m & 1u32) == 1u32 && (m >> (u as u32)) & 1u32 == 1u32;
        assert((m & 1u32 == 1u32) == ((m >> 0u32) & 1u32 == 1u32)) by (bit_vector);
        if !member {
            row.push(None);
            prow.push(0);
        } else if u == 0 {
            if m == 1 {
                row.push(Some(0));
            } else {
                row.push(None);
            }
            prow.push(0);
            proof {
                assert forall|p: Seq<usize>| #[trigger] is_path(p, n as nat, m, 0) implies m == 1
                    && path_cost(d, p) == 0 by {
                    assert(p.len() == 1) by {
                        if p.len() > 1 {
                            assert(p[0] == p[p.len() - 1]);
                        }
                    }
                    assert forall|k: u32| k < n implies (#[trigger] in_mask(m, k) <==> k == 0) by {
                        assert(in_mask(m, (k as usize) as u32) <==> p.contains(k as usize));
                        if p.contains(k as usize) {
                            assert(p[0] == k);
                        }
                        if k == 0 {
                            assert(p.contains(0usize));
                        }
                    }
                    lemma_only_origin(m, n as u32);
                }
            }
        } else {
            let prev = m ^ (1u32 << (u as u32));
            proof {
                lemma_clear_bit(m, u as u32, 0);
            }
            match best_predecessor(dist, dp, par, prev, u) {
                Some((c, v)) => {
                    row.push(Some(c));
                    prow.push(v);
                    assert((prev as int + 1) * 0xffff_ffff <= (m as int) * 0xffff_ffff)
                        by (nonlinear_arith)
                        requires
                            prev < m,
                    ;
                },
                None => {
                    row.push(None);
                    prow.push(0);
                },
            }
            proof {
                assert forall|p: Seq<usize>| #[trigger] is_path(p, n as nat, m, u) implies row@[u as int]
                    is Some && row@[u as int]->Some_0 <= path_cost(d, p) by {
                    lemma_step_back(d, n as nat, m, u, p);
                    let v = p[p.len() - 2];
                    let q = p.drop_last();
                    assert(entry_ok(d, n as nat, dp@, par@, prev, v));
                    assert(is_path(q, n as nat, prev, v));
                    assert(has(dp@, prev, v));
                }
            }
        }
        proof {
            assert forall|w: usize| w < u + 1 implies #[trigger] row_entry_ok(d, n as nat, dp@, m, row@, prow@, w) by {
                if w < u {
                    assert(row_entry_ok(d, n as nat, dp@, m, old_row, old_prow, w));
                    assert(row@[w as int] == old_row[w as int]);
                    assert(prow@[w as int] == old_prow[w as int]);
                } else {
                    if state_ok(n as nat, m, w) && w != 0 {
                        lemma_clear_bit(m, w as u32, 0);
                    }
                }
            }
        }
        u += 1;
    }
    proof {
        let ndp = dp@.push(row);
        let npar = par@.push(prow);
        assert(ndp[m as int] == row);
        assert(npar[m as int] == prow);
        assert forall|mm: u32, w: usize| (mm as int) < ndp.len() && w < n implies #[trigger] entry_ok(
            d,
            n as nat,
            ndp,
            npar,
            mm,
            w,
        ) by {
            if mm < m {
                assert(entry_ok(d, n as nat, dp@, par@, mm, w));
                assert(ndp[mm as int] == dp@[mm as int]);
                assert(npar[mm as int] == par@[mm as int]);
                lemma_row_entry_extend(d, n as nat, dp@, ndp, mm, dp@[mm as int]@, par@[mm as int]@, w);
            } else {
                assert(row_entry_ok(d, n as nat, dp@, m, row@, prow@, w));
                lemma_row_entry_extend(d, n as nat, dp@, ndp, mm, row@, prow@, w);
            }
        }
    }
    (row, prow)
}

/// `t` is a cheapest tour of the cities of `d`, and `c` its cost (0 for a single city).
pub open spec fn optimal_tour(d: Seq<Vec<u32>>, c: int, t: Seq<usize>) -> bool {
    &&& is_tour(t, d.len())
    &&& forall|s: Seq<usize>| #[trigger] is_tour(s, d.len()) ==> c <= path_cost(d, s)
    &&& d.len() >= 2 ==> c == path_cost(d, t)
    &&& d.len() == 1 ==> c == 0 && t == seq![0usize, 0usize]
}

/// Any two results that `solve_tsp` may give for one matrix have the same cost.
pub proof fn lemma_min_cost_unique(d: Seq<Vec<u32>>, c1: int, t1: Seq<usize>, c2: int, t2: Seq<usize>)
    requires
        solvable(d),
        optimal_tour(d, c1, t1),
        optimal_tour(d, c2, t2),
    ensures
        c1 == c2,
{
    if d.len() >= 2 {
        assert(c1 <= path_cost(d, t2));
        assert(c2 <= path_cost(d, t1));
    }
}

/// A walk that never stays at a city, over a matrix whose off-diagonal costs are all `c`,
/// costs `c` per leg.
pub proof fn lemma_uniform_walk(d: Seq<Vec<u32>>, c: u32, s: Seq<usize>)
    requires
        is_matrix(d),
        forall|i: int| 0 <= i < s.len() ==> #[trigger] s[i] < d.len(),
        forall|i: int| 0 <= i < s.len() - 1 ==> #[trigger] s[i] != s[i + 1],
        forall|a: usize, b: usize| a < d.len() && b < d.len() && a != b ==> #[trigger] cost(d, a, b) == c,
    ensures
        s.len() >= 1 ==> path_cost(d, s) == (s.len() - 1) * c,
    decreases s.len(),
{
    if s.len() >= 2 {
        let r = s.subrange(1, s.len() as int);
        assert forall|i: int| 0 <= i < r.len() - 1 implies #[trigger] r[i] != r[i + 1] by {
            assert(s[i + 1] != s[i + 2]);
        }
        assert(s[0] != s[1]);
        assert(cost(d, s[0], s[1]) == c);
        lemma_uniform_walk(d, c, r);
        assert((s.len() - 1) * c == c + (r.len() - 1) * c) by (nonlinear_arith)
            requires
                r.len() == s.len() - 1,
        ;
        assert(path_cost(d, s) == cost(d, s[0], s[1]) + path_cost(d, r));
    } else if s.len() == 1 {
        assert(path_cost(d, s) == 0);
        assert((s.len() - 1) * c == 0);
    }
}

/// Where all off-diagonal costs equal `c` and there are at least two cities, every tour,
/// and so the cheapest, costs `n * c`.
pub proof fn lemma_uniform_min_cost(d: Seq<Vec<u32>>, c: u32, mc: int, t: Seq<usize>)
    requires
        solvable(d),
        d.len() >= 2,
        forall|a: usize, b: usize| a < d.len() && b < d.len() && a != b ==> #[trigger] cost(d, a, b) == c,
        optimal_tour(d, mc, t),
    ensures
        mc == d.len() * c,
{
    let n = d.len();
    let p = t.subrange(0, n as int);
    assert forall|i: int| 0 <= i < t.len() implies #[trigger] t[i] < n by {
        if i < n {
            assert(p[i] == t[i]);
        }
    }
    assert forall|i: int| 0 <= i < t.len() - 1 implies #[trigger] t[i] != t[i + 1] by {
        if i + 1 < n {
            assert(p[i] == t[i] && p[i + 1] == t[i + 1]);
        } else {
            assert(p[0] == t[0] && p[i] == t[i]);
        }
    }
    lemma_uniform_walk(d, c, t);
}

/// `t` is the cheapest tour that the tie-break picks: among tours of cost `c`, reading
/// backwards from the last city before the return, the first place where another differs
/// holds a higher city in the other.
pub open spec fn preferred_tour(d: Seq<Vec<u32>>, c: int, t: Seq<usize>) -> bool {
    &&& optimal_tour(d, c, t)
    &&& forall|s: Seq<usize>|
        #[trigger] is_tour(s, d.len()) && path_cost(d, s) == c ==> first_choice(t, s, d.len() as int)
}

/// `q` stands for the last `q.len()` cities before the return in a tour of `n` cities, and
/// at each of them where `s` agrees with `q` on every later place, `q` holds the lower city.
pub open spec fn choice_ok(q: Seq<usize>, s: Seq<usize>, n: int) -> bool {
    forall|j: int|
        0 <= j < q.len() && (forall|k: int| j < k < q.len() ==> q[k] == s[n - q.len() + k]) ==> #[trigger] q[j]
            <= s[n - q.len() + j]
}

proof fn lemma_first_choice_agree(t1: Seq<usize>, t2: Seq<usize>, n: int, i: int)
    requires
        1 <= i <= n,
        first_choice(t1, t2, n),
        first_choice(t2, t1, n),
    ensures
        forall|k: int| i <= k < n ==> t1[k] == t2[k],
    decreases n - i,
{
    if i < n {
        lemma_first_choice_agree(t1, t2, n, i + 1);
        assert(t1[i] <= t2[i]);
        assert(t2[i] <= t1[i]);
    }
}

/// Solving one matrix twice gives the same cost and the same tour: the cost is the least
/// tour cost, and the tie-break leaves one tour of that cost.
pub proof fn lemma_solve_deterministic(
    d: Seq<Vec<u32>>,
    c1: int,
    t1: Seq<usize>,
    c2: int,
    t2: Seq<usize>,
)
    requires
        solvable(d),
        preferred_tour(d, c1, t1),
        preferred_tour(d, c2, t2),
    ensures
        c1 == c2,
        t1 == t2,
{
    lemma_min_cost_unique(d, c1, t1, c2, t2);
    let n = d.len() as int;
    if n >= 2 {
        assert(first_choice(t1, t2, n));
        assert(first_choice(t2, t1, n));
        lemma_first_choice_agree(t1, t2, n, 1);
        assert(t1 =~= t2) by {
            assert forall|k: int| 0 <= k < t1.len() implies t1[k] == t2[k] by {
                if 1 <= k < n {
                }
            }
        }
    }
}

/// The last city before the return that the closing step picks is the lowest among
/// cheapest tours.
proof fn lemma_choice_start(
    d: Seq<Vec<u32>>,
    dp: Seq<Vec<Option<u64>>>,
    par: Seq<Vec<usize>>,
    full: u32,
    last: usize,
    best_cost: int,
    s: Seq<usize>,
)
    requires
        solvable(d),
        d.len() >= 2,
        full == (1u32 << (d.len() as u32)) - 1,
        table_ok(d, d.len(), dp, par),
        dp.len() == full + 1,
        1 <= last < d.len(),
        forall|w: usize|
            1 <= w < last && #[trigger] has(dp, full, w) ==> best_cost < val(dp, full, w) + cost(d, w, 0),
        is_tour(s, d.len()),
        path_cost(d, s) == best_cost,
    ensures
        choice_ok(seq![last], s, d.len() as int),
{
    let n = d.len();
    let q = s.subrange(0, n as int);
    let w = s[n - 1];
    assert(q.last() == w);
    assert(w != 0) by {
        assert(q[0] == 0);
    }
    assert forall|k: usize| k < n implies (in_mask(full, k as u32) <==> #[trigger] q.contains(k)) by {
        lemma_full_mask(n as u32, k as u32);
    }
    assert forall|i: int| 0 <= i < q.len() implies #[trigger] q[i] < n by {
        assert(q[i] == s[i]);
    }
    assert(is_path(q, n, full, w));
    lemma_full_mask(n as u32, 0);
    lemma_full_mask(n as u32, w as u32);
    assert(entry_ok(d, n, dp, par, full, w));
    assert(s =~= q.push(0usize));
    lemma_path_cost_push(d, q, 0);
    assert(has(dp, full, w));
    assert(val(dp, full, w) <= path_cost(d, q));
    if w < last {
        assert(best_cost < val(dp, full, w) + cost(d, w, 0));
    }
    assert(last <= w);
    let one = seq![last];
    assert(one[0] == last);
}

/// One step back along the recorded predecessors keeps the tie-break: the predecessor is
/// the lowest city that any cheapest tour agreeing on the later places can have there.
proof fn lemma_choice_step(
    d: Seq<Vec<u32>>,
    dp: Seq<Vec<Option<u64>>>,
    par: Seq<Vec<usize>>,
    full: u32,
    last: usize,
    best_cost: int,
    mask: u32,
    cur: usize,
    tail: Seq<usize>,
    s: Seq<usize>,
)
    requires
        solvable(d),
        d.len() >= 2,
        table_ok(d, d.len(), dp, par),
        (mask as int) < dp.len(),
        state_ok(d.len(), mask, cur),
        cur != 0,
        has(dp, mask, cur),
        (seq![cur] + tail).no_duplicates(),
        forall|i: int| 0 <= i < tail.len() ==> #[trigger] tail[i] < d.len(),
        forall|k: usize| k < d.len() ==> (in_mask(mask, k as u32) != #[trigger] tail.contains(k)),
        tail.len() == 0 ==> cur == last,
        tail.len() > 0 ==> tail.last() == last,
        val(dp, mask, cur) + path_cost(d, seq![cur] + tail) == val(dp, full, last),
        best_cost == val(dp, full, last) + cost(d, last, 0),
        is_tour(s, d.len()),
        path_cost(d, s) == best_cost,
        choice_ok(seq![cur] + tail, s, d.len() as int),
    ensures
        choice_ok(seq![par[mask as int]@[cur as int]] + (seq![cur] + tail), s, d.len() as int),
{
    let n = d.len() as int;
    let nn = d.len();
    let q = seq![cur] + tail;
    let v = par[mask as int]@[cur as int];
    let q2 = seq![v] + q;
    let len = q.len() as int;
    assert(!tail.contains(0usize)) by {
        assert(in_mask(mask, 0u32));
    }
    assert forall|i: int| 0 <= i < q.len() implies 0 < #[trigger] q[i] < nn by {
        if i > 0 {
            assert(q[i] == tail[i - 1]);
            assert(tail.contains(tail[i - 1]));
        }
    }
    lemma_distinct_bound(q, nn);
    let off = n - len;
    assert forall|j: int|
        0 <= j < q2.len() && (forall|k: int| j < k < q2.len() ==> q2[k] == s[n - q2.len() + k]) implies #[trigger] q2[j]
        <= s[n - q2.len() + j] by {
        if j >= 1 {
            assert(q2[j] == q[j - 1]);
            assert forall|k: int| j - 1 < k < q.len() implies q[k] == s[n - q.len() + k] by {
                assert(q2[k + 1] == q[k]);
            }
            assert(q[j - 1] <= s[n - q.len() + (j - 1)]);
        } else {
            assert forall|k: int| 0 <= k < len implies q[k] == s[off + k] by {
                assert(q2[k + 1] == q[k]);
            }
            let p = s.subrange(0, off + 1);
            let s0 = s.subrange(0, n);
            assert(p.last() == cur) by {
                assert(q[0] == s[off]);
            }
            assert(p.no_duplicates()) by {
                assert forall|a: int, b: int| 0 <= a < p.len() && 0 <= b < p.len() && a != b implies p[a] != p[b] by {
                    assert(s0[a] == p[a] && s0[b] == p[b]);
                }
            }
            assert forall|i: int| 0 <= i < p.len() implies #[trigger] p[i] < nn by {
                assert(s0[i] == p[i]);
            }
            assert forall|k: usize| k < nn implies (in_mask(mask, k as u32) <==> #[trigger] p.contains(k)) by {
                assert(s0.contains(k));
                assert(in_mask(mask, k as u32) != tail.contains(k));
                let idx = choose|idx: int| 0 <= idx < s0.len() && s0[idx] == k;
                if idx <= off {
                    assert(p[idx] == k);
                } else {
                    assert(q[idx - off] == k);
                    assert(tail[idx - off - 1] == k);
                }
                if p.contains(k) && tail.contains(k) {
                    let a = choose|a: int| 0 <= a < p.len() && p[a] == k;
                    let b = choose|b: int| 0 <= b < tail.len() && tail[b] == k;
                    assert(q[b + 1] == k);
                    assert(s0[a] == k && s0[off + b + 1] == k);
                }
            }
            assert(p[0] == 0);
            assert(is_path(p, nn, mask, cur));
            lemma_path_cost_split(d, s, off);
            assert(s.subrange(off, n + 1) =~= q.push(0usize)) by {
                assert forall|k: int| 0 <= k < len implies s.subrange(off, n + 1)[k] == q[k] by {
                    assert(q[k] == s[off + k]);
                }
            }
            lemma_path_cost_push(d, q, 0);
            assert(q.last() == last) by {
                if tail.len() > 0 {
                    assert(q.last() == tail.last());
                }
            }
            assert(path_cost(d, p) == val(dp, mask, cur));
            lemma_step_back(d, nn, mask, cur, p);
            let w = p[p.len() - 2];
            let pd = p.drop_last();
            assert(w == s[off - 1]);
            lemma_clear_bit(mask, cur as u32, 0);
            assert(entry_ok(d, nn, dp, par, without(mask, cur), w));
            assert(has(dp, without(mask, cur), w));
            assert(entry_ok(d, nn, dp, par, mask, cur));
            assert(v <= w);
        }
    }
}

/// Whether every row of `dist` has one entry per city.
fn is_square(dist: &Vec<Vec<u32>>) -> (r: bool)
    ensures
        r == is_matrix(dist@),
{
    let n = dist.len();
    let mut i: usize = 0;
    while i < n
        invariant
            n == dist@.len(),
            i <= n,
            forall|j: int| 0 <= j < i ==> (#[trigger] dist@[j])@.len() == n,
        decreases n - i,
    {
        if dist[i].len() != n {
            return false;
        }
        i += 1;
    }
    true
}

/// Held-Karp tables for every mask of the `n` cities of `dist`.
fn build_tables(dist: &Vec<Vec<u32>>) -> (r: (Vec<Vec<Option<u64>>>, Vec<Vec<usize>>))
    requires
        solvable(dist@),
    ensures
        table_ok(dist@, dist@.len(), r.0@, r.1@),
        r.0@.len() == (1u32 << (dist@.len() as u32)),
{
    let n = dist.len();
    proof {
        lemma_full_mask(n as u32, 0);
    }
    let size: u32 = 1u32 << (n as u32);
    let mut dp: Vec<Vec<Option<u64>>> = Vec::new();
    let mut par: Vec<Vec<usize>> = Vec::new();
    let mut mask: u32 = 0;
    while mask < size
        invariant
            solvable(dist@),
            n == dist@.len(),
            size == (1u32 << (n as u32)),
            mask <= size,
            dp@.len() == mask,
            table_ok(dist@, n as nat, dp@, par@),
        decreases size - mask,
    {
        let (row, prow) = fill_row(dist, &dp, &par, mask);
        dp.push(row);
        par.push(prow);
        mask += 1;
    }
    (dp, par)
}

/// Finds a cheapest closed tour of all cities of `dist`, starting and ending at city 0.
///
/// `dist@[i]@[j]` is the cost of travelling from city `i` to city `j`. A single city gives
/// the tour `[0, 0]` at cost 0. Of several cheapest tours, the one whose last city before
/// the return is lowest wins, and so on backwards through the tour.
pub fn solve_tsp(dist: &Vec<Vec<u32>>) -> (r: Result<(u64, Vec<usize>), SolveError>)
    ensures
        r is Err <==> !solvable(dist@),
        r matches Ok((c, t)) ==> preferred_tour(dist@, c as int, t@),
{
    let n = dist.len();
    if n == 0 || n > MAX_CITIES || !is_square(dist) {
        return Err(SolveError::InvalidInput);
    }
    let ghost d = dist@;
    if n == 1 {
        let t: Vec<usize> = vec![0, 0];
        proof {
            assert(t@.subrange(0, 1) =~= seq![0usize]);
            assert forall|c: usize| c < 1 implies #[trigger] t@.subrange(0, 1).contains(c) by {
                assert(t@.subrange(0, 1)[0] == c);
            }
            assert forall|s: Seq<usize>| #[trigger] is_tour(s, 1) implies 0 <= path_cost(d, s) by {
                lemma_path_cost_nonneg(d, s);
            }
        }
        return Ok((0, t));
    }
    let (dp, par) = build_tables(dist);
    proof {
        lemma_full_mask(n as u32, 0);
    }
    let full: u32 = (1u32 << (n as u32)) - 1;
    let ghost nn = n as nat;
    // Close the tour: the cheapest way back to the origin from a full path.
    let mut best: Option<(u64, usize)> = None;
    let mut u: usize = 1;
    while u < n
        invariant
            solvable(d),
            d == dist@,
            n == d.len(),
            n >= 2,
            nn == n,
            full == (1u32 << (n as u32)) - 1,
            (1u32 << (n as u32)) <= 0x100000,
            table_ok(d, nn, dp@, par@),
            dp@.len() == full + 1,
            1 <= u <= n,
            best matches Some((c, w)) ==> {
                &&& 1 <= w < n
                &&& has(dp@, full, w)
                &&& c == val(dp@, full, w) + cost(d, w, 0)
            },
            forall|w: usize|
                1 <= w < u && #[trigger] has(dp@, full, w) ==> (best matches Some((c, _)) && c
                    <= val(dp@, full, w) + cost(d, w, 0)),
            best matches Some((c, bw)) ==> forall|w: usize|
                1 <= w < bw && #[trigger] has(dp@, full, w) ==> c < val(dp@, full, w) + cost(d, w, 0),
        decreases n - u,
    {
        assert(dp@[full as int]@.len() == n);
        match dp[full as usize][u] {
            Some(pc) => {
                proof {
                    lemma_full_mask(n as u32, u as u32);
                    lemma_full_mask(n as u32, 0);
                    assert(entry_ok(d, nn, dp@, par@, full, u));
                    assert((full as int) * 0xffff_ffff <= 0x100000 * 0xffff_ffff) by (nonlinear_arith)
                        requires
                            full < 0x100000,
                    ;
                }
                assert(d[u as int]@.len() == n);
                let c = pc + dist[u][0] as u64;
                let better = match best {
                    Some((b, _)) => c < b,
                    None => true,
                };
                if better {
                    best = Some((c, u));
                }
            },
            None => {},
        }
        u += 1;
    }
    // The tour 0, 1, ..., n-1, 0 exists, so some closing candidate was found.
    proof {
        let id = Seq::new(nn, |i: int| i as usize);
        let last = (n - 1) as usize;
        assert(id.no_duplicates());
        assert forall|k: usize| k < nn implies (in_mask(full, k as u32) <==> #[trigger] id.contains(k)) by {
            lemma_full_mask(n as u32, k as u32);
            assert(id[k as int] == k);
        }
        assert(is_path(id, nn, full, last));
        lemma_full_mask(n as u32, 0);
        lemma_full_mask(n as u32, last as u32);
        assert(entry_ok(d, nn, dp@, par@, full, last));
        assert(has(dp@, full, last));
    }
    let (best_cost, last) = best.unwrap();
    // Walk the recorded predecessors back to the origin.
    let mut rev: Vec<usize> = Vec::new();
    let ghost mut tail: Seq<usize> = Seq::empty();
    let mut mask: u32 = full;
    let mut cur: usize = last;
    proof {
        lemma_full_mask(n as u32, 0);
        lemma_full_mask(n as u32, last as u32);
        assert forall|k: usize| k < nn implies (in_mask(mask, k as u32) != #[trigger] tail.contains(
            k,
        )) by {
            lemma_full_mask(n as u32, k as u32);
        }
    }
    proof {
        assert forall|s: Seq<usize>| #[trigger] is_tour(s, nn) && path_cost(d, s) == best_cost implies choice_ok(
            seq![cur] + tail,
            s,
            n as int,
        ) by {
            lemma_choice_start(d, dp@, par@, full, last, best_cost as int, s);
            assert(seq![cur] + tail =~= seq![last]);
        }
    }
    while cur != 0
        invariant
            solvable(d),
            d == dist@,
            n == d.len(),
            n >= 2,
            nn == n,
            full == (1u32 << (n as u32)) - 1,
            table_ok(d, nn, dp@, par@),
            dp@.len() == full + 1,
            mask <= full,
            state_ok(nn, mask, cur),
            has(dp@, mask, cur),
            1 <= last < n,
            has(dp@, full, last),
            best_cost == val(dp@, full, last) + cost(d, last, 0),
            forall|w: usize|
                1 <= w < n && #[trigger] has(dp@, full, w) ==> best_cost <= val(dp@, full, w) + cost(
                    d,
                    w,
                    0,
                ),
            forall|w: usize|
                1 <= w < last && #[trigger] has(dp@, full, w) ==> best_cost < val(dp@, full, w) + cost(d, w, 0),
            forall|s: Seq<usize>|
                #[trigger] is_tour(s, nn) && path_cost(d, s) == best_cost ==> choice_ok(seq![cur] + tail, s, n as int),
            rev@.len() == tail.len(),
            forall|i: int| 0 <= i < tail.len() ==> #[trigger] rev@[i] == tail[tail.len() - 1 - i],
            tail.no_duplicates(),
            forall|i: int| 0 <= i < tail.len() ==> #[trigger] tail[i] < n,
            forall|k: usize| k < nn ==> (in_mask(mask, k as u32) != #[trigger] tail.contains(k)),
            tail.len() == 0 ==> cur == last,
            tail.len() > 0 ==> tail.last() == last,
            val(dp@, mask, cur) + path_cost(d, seq![cur] + tail) == val(dp@, full, last),
        decreases mask,
    {
        proof {
            assert(entry_ok(d, nn, dp@, par@, mask, cur));
        }
        assert(par@[mask as int]@.len() == n);
        let v = par[mask as usize][cur];
        let prev = mask ^ (1u32 << (cur as u32));
        let ghost old_tail = tail;
        proof {
            let nt = seq![cur] + old_tail;
            assert forall|k: usize| k < nn implies (in_mask(prev, k as u32) != #[trigger] nt.contains(k)) by {
                lemma_clear_bit(mask, cur as u32, k as u32);
                if k == cur {
                    assert(nt[0] == k);
                } else {
                    if nt.contains(k) {
                        let i = choose|i: int| 0 <= i < nt.len() && nt[i] == k;
                        assert(old_tail[i - 1] == k);
                    }
                    if old_tail.contains(k) {
                        let i = choose|i: int| 0 <= i < old_tail.len() && old_tail[i] == k;
                        assert(nt[i + 1] == k);
                    }
                }
            }
            assert(!old_tail.contains(cur)) by {
                lemma_clear_bit(mask, cur as u32, cur as u32);
            }
            assert(nt.no_duplicates()) by {
                assert forall|i: int, j: int| 0 <= i < nt.len() && 0 <= j < nt.len() && i != j implies nt[i]
                    != nt[j] by {
                    if i == 0 && j > 0 {
                        assert(old_tail[j - 1] == nt[j]);
                    } else if j == 0 && i > 0 {
                        assert(old_tail[i - 1] == nt[i]);
                    }
                }
            }
            assert forall|s: Seq<usize>| #[trigger] is_tour(s, nn) && path_cost(d, s) == best_cost implies choice_ok(
                seq![v] + nt,
                s,
                n as int,
            ) by {
                lemma_choice_step(d, dp@, par@, full, last, best_cost as int, mask, cur, old_tail, s);
            }
            assert(seq![v] + nt =~= seq![v] + (seq![cur] + old_tail));
            lemma_path_cost_prepend(d, v, nt);
            assert(nt[0] == cur);
            tail = nt;
        }
        rev.push(cur);
        proof {
            assert forall|i: int| 0 <= i < tail.len() implies #[trigger] rev@[i] == tail[tail.len() - 1 - i] by {
                if i < old_tail.len() {
                    assert(rev@[i] == old_tail[old_tail.len() - 1 - i]);
                    assert(tail[tail.len() - 1 - i] == old_tail[old_tail.len() - 1 - i]);
                }
            }
            assert(tail.len() > 0 && tail.last() == last) by {
                if old_tail.len() > 0 {
                    assert(tail.last() == old_tail.last());
                }
            }
        }
        mask = prev;
        cur = v;
    }
    // Now at the origin: the path is 0 followed by `tail`.
    proof {
        assert(entry_ok(d, nn, dp@, par@, mask, cur));
        assert(mask == 1);
    }
    let mut t: Vec<usize> = Vec::new();
    t.push(0);
    let len = rev.len();
    let mut j: usize = len;
    while j > 0
        invariant
            j <= len,
            len == rev@.len(),
            rev@.len() == tail.len(),
            forall|i: int| 0 <= i < tail.len() ==> #[trigger] rev@[i] == tail[tail.len() - 1 - i],
            t@ =~= seq![0usize] + tail.subrange(0, (len - j) as int),
        decreases j,
    {
        j -= 1;
        t.push(rev[j]);
        proof {
            assert(rev@[j as int] == tail[(len - j - 1) as int]);
            assert(t@ =~= seq![0usize] + tail.subrange(0, (len - j) as int));
        }
    }
    proof {
        let p = seq![0usize] + tail;
        assert(t@ =~= p);
        assert forall|k: usize| k < nn implies #[trigger] p.contains(k) by {
            lemma_origin_mask(k as u32);
            if k == 0 {
                assert(p[0] == 0);
            } else {
                assert(in_mask(mask, k as u32) != tail.contains(k));
                assert(tail.contains(k));
                let i = choose|i: int| 0 <= i < tail.len() && tail[i] == k;
                assert(p[i + 1] == k);
            }
        }
        assert(!tail.contains(0usize)) by {
            lemma_origin_mask(0);
        }
        assert(p.no_duplicates()) by {
            assert forall|i: int, j: int| 0 <= i < p.len() && 0 <= j < p.len() && i != j implies p[i]
                != p[j] by {
                if i == 0 && j > 0 {
                    assert(tail[j - 1] == p[j]);
                } else if j == 0 && i > 0 {
                    assert(tail[i - 1] == p[i]);
                } else if i > 0 && j > 0 {
                    assert(tail[i - 1] == p[i] && tail[j - 1] == p[j]);
                }
            }
        }
        assert forall|i: int| 0 <= i < p.len() implies #[trigger] p[i] < nn by {
            if i > 0 {
                assert(p[i] == tail[i - 1]);
            }
        }
        lemma_perm_len(p, nn);
    }
    t.push(0);
    proof {
        let p = seq![0usize] + tail;
        assert(t@.subrange(0, nn as int) =~= p);
        assert(t@ =~= p.push(0usize));
        assert(p.last() == last) by {
            assert(tail.len() > 0);
        }
        lemma_path_cost_push(d, p, 0);
        assert(path_cost(d, p) == val(dp@, full, last)) by {
            assert(val(dp@, 1, 0) == 0);
            assert(seq![0usize] + tail == p);
        }
        assert forall|s: Seq<usize>| #[trigger] is_tour(s, nn) implies best_cost <= path_cost(d, s) by {
            let q = s.subrange(0, nn as int);
            let w = s[nn - 1];
            assert(q.last() == w);
            assert(w != 0) by {
                assert(q[0] == 0);
            }
            assert forall|k: usize| k < nn implies (in_mask(full, k as u32) <==> #[trigger] q.contains(k)) by {
                lemma_full_mask(n as u32, k as u32);
            }
            assert(is_path(q, nn, full, w)) by {
                assert forall|i: int| 0 <= i < q.len() implies #[trigger] q[i] < nn by {
                    assert(q[i] == s[i]);
                }
            }
            lemma_full_mask(n as u32, 0);
            lemma_full_mask(n as u32, w as u32);
            assert(entry_ok(d, nn, dp@, par@, full, w));
            assert(s =~= q.push(0usize));
            lemma_path_cost_push(d, q, 0);
            assert(has(dp@, full, w));
            assert(val(dp@, full, w) <= path_cost(d, q));
            assert(1 <= w < n);
            assert(best_cost <= val(dp@, full, w) + cost(d, w, 0));
            assert(path_cost(d, s) == path_cost(d, q) + cost(d, w, 0));
        }
    }
    Ok((best_cost, t))
}

} // verus!
