//! Sums over a partition: when a sequence of values is split by key, the
//! per-key sums of any weight add up to the whole sum.  This is what
//! makes per-key tallies (status distributions, domain and endpoint
//! summaries) account for every entry exactly once.
use vstd::prelude::*;

use crate::order::positions_of;

verus! {

/// The sum of `ws[i]` over the positions `i < n` where `ms[i] == m`.
pub open spec fn weight_upto<M>(ms: Seq<M>, ws: Seq<int>, m: M, n: nat) -> int
    decreases n,
{
    if n == 0 {
        0
    } else {
        weight_upto(ms, ws, m, (n - 1) as nat) + if ms[n - 1] == m {
            ws[n - 1]
        } else {
            0
        }
    }
}

/// The sum of `ws[i]` over `i < n`.
pub open spec fn total_upto(ws: Seq<int>, n: nat) -> int
    decreases n,
{
    if n == 0 {
        0
    } else {
        total_upto(ws, (n - 1) as nat) + ws[n - 1]
    }
}

/// The per-key sums of `ws` over the first `n` positions, added up over
/// the keys `ks`.
pub open spec fn keys_weight<M>(ms: Seq<M>, ws: Seq<int>, ks: Seq<M>, n: nat) -> int
    decreases ks.len(),
{
    if ks.len() == 0 {
        0
    } else {
        keys_weight(ms, ws, ks.drop_last(), n) + weight_upto(ms, ws, ks.last(), n)
    }
}

/// Weight 1 at each of `n` positions.
pub open spec fn ones(n: nat) -> Seq<int> {
    Seq::new(n, |i: int| 1int)
}

/// One more position adds its weight to the sum of the key it holds, if
/// that key is listed.
proof fn lemma_keys_weight_step<M>(ms: Seq<M>, ws: Seq<int>, ks: Seq<M>, n: nat)
    requires
        0 < n <= ms.len(),
        ks.no_duplicates(),
    ensures
        keys_weight(ms, ws, ks, n) == keys_weight(ms, ws, ks, (n - 1) as nat) + if ks.contains(ms[n - 1]) {
            ws[n - 1]
        } else {
            0
        },
    decreases ks.len(),
{
    if ks.len() > 0 {
        let rest = ks.drop_last();
        assert(rest.no_duplicates()) by {
            assert forall|i: int, j: int| 0 <= i < rest.len() && 0 <= j < rest.len() && i != j implies rest[i] != rest[j] by {
                assert(rest[i] == ks[i] && rest[j] == ks[j]);
            }
        }
        lemma_keys_weight_step(ms, ws, rest, n);
        let x = ms[n - 1];
        if ks.last() == x {
            assert(!rest.contains(x)) by {
                if rest.contains(x) {
                    let i = choose|i: int| 0 <= i < rest.len() && rest[i] == x;
                    assert(ks[i] == ks[ks.len() - 1]);
                }
            }
            assert(ks.contains(x)) by {
                assert(ks[ks.len() - 1] == x);
            }
        } else {
            assert(ks.contains(x) == rest.contains(x)) by {
                if ks.contains(x) {
                    let i = choose|i: int| 0 <= i < ks.len() && ks[i] == x;
                    assert(i != ks.len() - 1);
                    assert(rest[i] == x);
                }
                if rest.contains(x) {
                    let i = choose|i: int| 0 <= i < rest.len() && rest[i] == x;
                    assert(ks[i] == x);
                }
            }
        }
    }
}

/// Splitting the first `n` positions by key loses and doubles nothing:
/// when the keys are distinct and include every value there, the
/// per-key sums add up to the whole sum.
pub proof fn lemma_partition_sum<M>(ms: Seq<M>, ws: Seq<int>, ks: Seq<M>, n: nat)
    requires
        n <= ms.len(),
        ks.no_duplicates(),
        forall|i: int| 0 <= i < n ==> ks.contains(#[trigger] ms[i]),
    ensures
        keys_weight(ms, ws, ks, n) == total_upto(ws, n),
    decreases n,
{
    if n == 0 {
        lemma_keys_weight_zero(ms, ws, ks);
    } else {
        lemma_partition_sum(ms, ws, ks, (n - 1) as nat);
        lemma_keys_weight_step(ms, ws, ks, n);
        assert(ks.contains(ms[n - 1]));
    }
}

proof fn lemma_keys_weight_zero<M>(ms: Seq<M>, ws: Seq<int>, ks: Seq<M>)
    ensures
        keys_weight(ms, ws, ks, 0) == 0,
    decreases ks.len(),
{
    if ks.len() > 0 {
        lemma_keys_weight_zero(ms, ws, ks.drop_last());
    }
}

/// The number of positions holding `m` is its weight under `ones`.
pub proof fn lemma_count_is_weight<M>(ms: Seq<M>, m: M, n: nat)
    requires
        n <= ms.len(),
    ensures
        positions_of(ms.take(n as int), m).len() == weight_upto(ms, ones(ms.len()), m, n),
    decreases n,
{
    if n > 0 {
        lemma_count_is_weight(ms, m, (n - 1) as nat);
        assert(ms.take(n as int).drop_last() =~= ms.take(n - 1));
        assert(ms.take(n as int).last() == ms[n - 1]);
    }
}

/// The whole sum of `ones(n)` is `n`.
pub proof fn lemma_total_ones(n: nat, k: nat)
    requires
        k <= n,
    ensures
        total_upto(ones(n), k) == k,
    decreases k,
{
    if k > 0 {
        lemma_total_ones(n, (k - 1) as nat);
    }
}

} // verus!
