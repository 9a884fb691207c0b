use vstd::prelude::*;
use crate::bits::in_mask;

verus! {

/// Every row of the cost matrix has one entry per city.
pub open spec fn is_matrix(d: Seq<Vec<u32>>) -> bool {
    forall|i: int| 0 <= i < d.len() ==> (#[trigger] d[i])@.len() == d.len()
}

/// Cost of travelling directly from city `a` to city `b`.
pub open spec fn cost(d: Seq<Vec<u32>>, a: usize, b: usize) -> int {
    d[a as int]@[b as int] as int
}

/// Sum of the costs of the consecutive legs of `p`.
pub open spec fn path_cost(d: Seq<Vec<u32>>, p: Seq<usize>) -> int
    decreases p.len(),
{
    if p.len() < 2 {
        0
    } else {
        cost(d, p[0], p[1]) + path_cost(d, p.subrange(1, p.len() as int))
    }
}

/// `p` starts at city 0, ends at `u`, repeats no city, and visits exactly the cities of `m`.
pub open spec fn is_path(p: Seq<usize>, n: nat, m: u32, u: usize) -> bool {
    &&& p.len() >= 1
    &&& p[0] == 0
    &&& p.last() == u
    &&& p.no_duplicates()
    &&& forall|i: int| 0 <= i < p.len() ==> #[trigger] p[i] < n
    &&& forall|k: usize| k < n ==> (in_mask(m, k as u32) <==> #[trigger] p.contains(k))
}

/// A closed tour of `n` cities: starts and ends at city 0 and visits every city once.
pub open spec fn is_tour(t: Seq<usize>, n: nat) -> bool {
    &&& t.len() == n + 1
    &&& t[0] == 0
    &&& t[n as int] == 0
    &&& forall|i: int| 0 <= i < n ==> #[trigger] t[i] < n
    &&& t.subrange(0, n as int).no_duplicates()
    &&& forall|c: usize| c < n ==> #[trigger] t.subrange(0, n as int).contains(c)
}

/// Extending a path by one city adds the cost of the new leg.
pub proof fn lemma_path_cost_push(d: Seq<Vec<u32>>, p: Seq<usize>, x: usize)
    requires
        p.len() >= 1,
    ensures
        path_cost(d, p.push(x)) == path_cost(d, p) + cost(d, p.last(), x),
    decreases p.len(),
{
    let q = p.push(x);
    if p.len() == 1 {
        assert(q.subrange(1, q.len() as int) =~= seq![x]);
        assert(path_cost(d, seq![x]) == 0);
        assert(path_cost(d, p) == 0);
    } else {
        let r = p.subrange(1, p.len() as int);
        assert(q.subrange(1, q.len() as int) =~= r.push(x));
        lemma_path_cost_push(d, r, x);
        assert(q[0] == p[0] && q[1] == p[1] && r.last() == p.last());
    }
}

/// Costs are non-negative, so is every path's.
pub proof fn lemma_path_cost_nonneg(d: Seq<Vec<u32>>, p: Seq<usize>)
    ensures
        path_cost(d, p) >= 0,
    decreases p.len(),
{
    if p.len() >= 2 {
        lemma_path_cost_nonneg(d, p.subrange(1, p.len() as int));
    }
}

/// Prepending a city adds the cost of the new first leg.
pub proof fn lemma_path_cost_prepend(d: Seq<Vec<u32>>, a: usize, p: Seq<usize>)
    requires
        p.len() >= 1,
    ensures
        path_cost(d, seq![a] + p) == cost(d, a, p[0]) + path_cost(d, p),
{
    let q = seq![a] + p;
    assert(q.subrange(1, q.len() as int) =~= p);
}

/// A sequence of distinct indices below `n` that holds every index below `n` has length `n`.
pub proof fn lemma_perm_len(s: Seq<usize>, n: nat)
    requires
        n <= usize::MAX,
        s.no_duplicates(),
        forall|i: int| 0 <= i < s.len() ==> #[trigger] s[i] < n,
        forall|c: usize| c < n ==> #[trigger] s.contains(c),
    ensures
        s.len() == n,
{
    let t = s.map_values(|x: usize| x as int);
    assert(t.no_duplicates()) by {
        assert forall|i: int, j: int| 0 <= i < t.len() && 0 <= j < t.len() && i != j implies t[i]
            != t[j] by {
            assert(s[i] != s[j]);
            assert(t[i] == s[i] as int && t[j] == s[j] as int);
        }
    }
    assert(t.to_set() =~= vstd::set_lib::set_int_range(0, n as int)) by {
        assert forall|v: int| t.to_set().contains(v) implies 0 <= v < n by {
            let i = choose|i: int| 0 <= i < t.len() && t[i] == v;
            assert(s[i] < n && t[i] == s[i] as int);
        }
        assert forall|v: int| 0 <= v < n implies t.to_set().contains(v) by {
            let c = v as usize;
            assert(s.contains(c));
            let i = choose|i: int| 0 <= i < s.len() && s[i] == c;
            assert(t[i] == s[i] as int);
        }
    }
    t.unique_seq_to_set();
    vstd::set_lib::lemma_int_range(0, n as int);
}

/// Cutting a path at position `j` splits its cost between the two parts, both of which
/// hold the city at `j`.
pub proof fn lemma_path_cost_split(d: Seq<Vec<u32>>, s: Seq<usize>, j: int)
    requires
        0 <= j < s.len(),
    ensures
        path_cost(d, s) == path_cost(d, s.subrange(0, j + 1)) + path_cost(d, s.subrange(j, s.len() as int)),
    decreases j,
{
    if j == 0 {
        assert(s.subrange(0, s.len() as int) =~= s);
        assert(path_cost(d, s.subrange(0, 1)) == 0);
    } else {
        let r = s.subrange(1, s.len() as int);
        lemma_path_cost_split(d, r, j - 1);
        assert(r.subrange(0, j) =~= s.subrange(0, j + 1).subrange(1, j + 1));
        assert(r.subrange(j - 1, r.len() as int) =~= s.subrange(j, s.len() as int));
        let a = s.subrange(0, j + 1);
        assert(a[0] == s[0] && a[1] == s[1]);
    }
}

/// Distinct cities below `n`, none of them the origin, number at most `n - 1`.
pub proof fn lemma_distinct_bound(s: Seq<usize>, n: nat)
    requires
        n >= 1,
        s.no_duplicates(),
        forall|i: int| 0 <= i < s.len() ==> 0 < #[trigger] s[i] < n,
    ensures
        s.len() <= n - 1,
{
    let t = s.map_values(|x: usize| x as int);
    assert(t.no_duplicates()) by {
        assert forall|i: int, j: int| 0 <= i < t.len() && 0 <= j < t.len() && i != j implies t[i]
            != t[j] by {
            assert(s[i] != s[j]);
            assert(t[i] == s[i] as int && t[j] == s[j] as int);
        }
    }
    assert(t.to_set().subset_of(vstd::set_lib::set_int_range(1, n as int))) by {
        assert forall|v: int| t.to_set().contains(v) implies 1 <= v < n by {
            let i = choose|i: int| 0 <= i < t.len() && t[i] == v;
            assert(0 < s[i] < n && t[i] == s[i] as int);
        }
    }
    t.unique_seq_to_set();
    vstd::set_lib::lemma_int_range(1, n as int);
    vstd::set_lib::lemma_len_subset(t.to_set(), vstd::set_lib::set_int_range(1, n as int));
}

/// Reading both tours backwards from the last city before the return, `t` has the lower
/// city at the first place where they differ.
pub open spec fn first_choice(t: Seq<usize>, s: Seq<usize>, n: int) -> bool {
    forall|i: int|
        1 <= i < n && (forall|k: int| i < k < n ==> t[k] == s[k]) ==> #[trigger] t[i] <= s[i]
}

} // verus!
