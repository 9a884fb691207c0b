use vstd::prelude::*;

verus! {

/// Whether city `i` belongs to the visited set encoded by `m`.
pub open spec fn in_mask(m: u32, i: u32) -> bool {
    (m >> i) & 1u32 == 1u32
}

/// Clearing a member bit gives a strictly smaller mask that differs only at that bit.
pub proof fn lemma_clear_bit(m: u32, u: u32, k: u32)
    requires
        u < 32,
        k < 32,
        in_mask(m, u),
    ensures
        (m ^ (1u32 << u)) < m,
        in_mask(m ^ (1u32 << u), k) == (in_mask(m, k) && k != u),
{
    assert((m ^ (1u32 << u)) < m) by (bit_vector)
        requires
            u < 32,
            (m >> u) & 1u32 == 1u32,
    ;
    assert((((m ^ (1u32 << u)) >> k) & 1u32 == 1u32) == (((m >> k) & 1u32 == 1u32) && k != u))
        by (bit_vector)
        requires
            u < 32,
            k < 32,
            (m >> u) & 1u32 == 1u32,
    ;
}

/// The mask holding only the origin.
pub proof fn lemma_origin_mask(k: u32)
    requires
        k < 32,
    ensures
        in_mask(1u32, k) == (k == 0),
{
    assert(((1u32 >> k) & 1u32 == 1u32) == (k == 0)) by (bit_vector)
        requires
            k < 32,
    ;
}

/// The mask of all `n` cities holds exactly the cities below `n`.
pub proof fn lemma_full_mask(n: u32, k: u32)
    requires
        1 <= n <= 20,
        k < 32,
    ensures
        in_mask(((1u32 << n) - 1) as u32, k) == (k < n),
        (1u32 << n) <= 0x100000,
        (1u32 << n) >= 2,
{
    assert(((((1u32 << n) - 1) as u32 >> k) & 1u32 == 1u32) == (k < n)) by (bit_vector)
        requires
            1 <= n <= 20,
            k < 32,
    ;
    assert((1u32 << n) <= 0x100000 && (1u32 << n) >= 2) by (bit_vector)
        requires
            1 <= n <= 20,
    ;
}

/// A mask below `2^n` with no member below `n` is empty.
pub proof fn lemma_empty_below(m: u32, n: u32)
    requires
        n <= 20,
        m < (1u32 << n),
        forall|k: u32| k < n ==> !#[trigger] in_mask(m, k),
    ensures
        m == 0,
    decreases n,
{
    if n == 0 {
        assert(m < (1u32 << 0u32) ==> m == 0) by (bit_vector);
    } else {
        let p = (n - 1) as u32;
        assert(!in_mask(m, p));
        assert(m < (1u32 << (p + 1) as u32) && (m >> p) & 1u32 != 1u32 ==> m < (1u32 << p))
            by (bit_vector)
            requires
                p < 20,
        ;
        lemma_empty_below(m, p);
    }
}

/// A mask below `2^n` whose members below `n` are exactly the origin is the origin mask.
pub proof fn lemma_only_origin(m: u32, n: u32)
    requires
        1 <= n <= 20,
        m < (1u32 << n),
        forall|k: u32| k < n ==> (#[trigger] in_mask(m, k) <==> k == 0),
    ensures
        m == 1,
{
    let z = m ^ 1u32;
    assert forall|k: u32| k < n implies !#[trigger] in_mask(z, k) by {
        lemma_clear_bit(m, 0, k);
        assert(1u32 << 0u32 == 1u32) by (bit_vector);
    }
    assert(m < (1u32 << n) ==> z < (1u32 << n)) by (bit_vector)
        requires
            1 <= n <= 20,
            z == m ^ 1u32,
    ;
    lemma_empty_below(z, n);
    assert(z == 0 ==> m == 1) by (bit_vector)
        requires
            z == m ^ 1u32,
    ;
}

} // verus!
