//! The growth policy: how a buffer's capacity is computed when a mutation
//! needs more room than the current allocation offers.
//!
//! Two rules exist side by side, on purpose:
//! - the *bulk* rule (slice appends, explicit reservation) targets the
//!   smallest power of two at least as large as the required length, falling
//!   back to the exact length when that power of two would not fit in `usize`;
//! - the *incremental* rule (single-character appends on an already
//!   heap-backed buffer) doubles the current capacity, falling back to the
//!   exact required length when doubling would overflow or still not suffice.
use vstd::prelude::*;

verus! {

/// The smallest power of two that is at least `n` and at least `p`,
/// assuming `p` is itself a power of two.
pub open spec fn pow2_at_least(n: int, p: int) -> int
    recommends
        p >= 1,
    decreases (if p < n { n - p } else { 0 }) when p >= 1
{
    if p >= n {
        p
    } else {
        pow2_at_least(n, 2 * p)
    }
}

/// The smallest power of two that is `n` or more (1 when `n <= 1`).
pub open spec fn next_pow2(n: int) -> int {
    pow2_at_least(n, 1)
}

/// Capacity chosen by the bulk growth rule for a required length `n`:
/// the next power of two, or exactly `n` when that power of two would
/// not fit in `usize`.
pub open spec fn bulk_cap(n: int) -> int {
    if next_pow2(n) <= usize::MAX {
        next_pow2(n)
    } else {
        n
    }
}

/// Capacity chosen by the incremental growth rule when a buffer of capacity
/// `cap` must hold `need` bytes: double the capacity, or exactly `need` when
/// doubling would overflow `usize` or still fall short of `need`.
pub open spec fn incr_cap(cap: int, need: int) -> int {
    if 2 * cap <= usize::MAX && need <= 2 * cap {
        2 * cap
    } else {
        need
    }
}

/// The result of `pow2_at_least(n, p)` is never below `p` or `n`.
proof fn lemma_pow2_at_least_bounds(n: int, p: int)
    requires
        p >= 1,
    ensures
        pow2_at_least(n, p) >= p,
        pow2_at_least(n, p) >= n,
    decreases (if p < n { n - p } else { 0 }),
{
    if p < n {
        lemma_pow2_at_least_bounds(n, 2 * p);
    }
}

/// The bulk rule always grants at least the required length.
pub proof fn lemma_bulk_cap_at_least(n: int)
    ensures
        bulk_cap(n) >= n,
{
    lemma_pow2_at_least_bounds(n, 1);
}

/// Computes the bulk-rule capacity for a required length `n`.
pub fn bulk_capacity(n: usize) -> (r: usize)
    ensures
        r == bulk_cap(n as int),
        r >= n,
{
    proof {
        lemma_bulk_cap_at_least(n as int);
    }
    let mut p: usize = 1;
    while p < n
        invariant
            1 <= p,
            pow2_at_least(n as int, p as int) == next_pow2(n as int),
        decreases (if p < n { n - p } else { 0 }),
    {
        if p > usize::MAX / 2 {
            proof {
                lemma_pow2_at_least_bounds(n as int, 2 * p as int);
            }
            return n;
        }
        p = p * 2;
    }
    p
}

/// Computes the incremental-rule capacity for a buffer of capacity `cap`
/// that must hold `need` bytes.
pub fn incremental_capacity(cap: usize, need: usize) -> (r: usize)
    ensures
        r == incr_cap(cap as int, need as int),
        r >= need,
{
    if cap <= usize::MAX / 2 {
        let doubled = cap * 2;
        if need <= doubled {
            return doubled;
        }
    }
    need
}


/// True for the powers of two.
pub open spec fn is_pow2(p: int) -> bool
    decreases p,
{
    if p <= 0 {
        false
    } else if p == 1 {
        true
    } else {
        p % 2 == 0 && is_pow2(p / 2)
    }
}

/// Of two powers of two, the larger is at least double the smaller.
proof fn lemma_pow2_gap(p: int, q: int)
    requires
        is_pow2(p),
        is_pow2(q),
        q > p,
    ensures
        q >= 2 * p,
    decreases p,
{
    if p == 1 {
    } else {
        lemma_pow2_gap(p / 2, q / 2);
    }
}

proof fn lemma_pow2_at_least_minimal(n: int, p: int, q: int)
    requires
        p >= 1,
        is_pow2(p),
        is_pow2(q),
        q >= n,
        q >= p,
    ensures
        is_pow2(pow2_at_least(n, p)),
        q >= pow2_at_least(n, p),
    decreases (if p < n { n - p } else { 0 }),
{
    if p < n {
        if q == p {
            assert(q >= n);
        } else {
            lemma_pow2_gap(p, q);
        }
        lemma_pow2_at_least_minimal(n, 2 * p, q);
    }
}

proof fn lemma_pow2_at_least_pow2(n: int, p: int)
    requires
        p >= 1,
        is_pow2(p),
    ensures
        is_pow2(pow2_at_least(n, p)),
    decreases (if p < n { n - p } else { 0 }),
{
    if p < n {
        lemma_pow2_at_least_pow2(n, 2 * p);
    }
}

/// `next_pow2(n)` is the smallest power of two at or above `n`.
pub proof fn lemma_next_pow2_minimal(n: int)
    ensures
        is_pow2(next_pow2(n)),
        next_pow2(n) >= n,
        forall|q: int| is_pow2(q) && q >= n ==> q >= next_pow2(n),
{
    lemma_pow2_at_least_pow2(n, 1);
    lemma_pow2_at_least_bounds(n, 1);
    assert forall|q: int| is_pow2(q) && q >= n implies q >= next_pow2(n) by {
        lemma_pow2_at_least_minimal(n, 1, q);
    }
}

} // verus!
