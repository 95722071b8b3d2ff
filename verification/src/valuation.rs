//! The seed from which a coalition's value is drawn: each agent `a` adds
//! `2^(a % 63)` to the coalition's identifier, and the game's seed is added on top.
use crate::grouping::{
    count, is_partition, lemma_count_pos_iff_contains, occurrences, N_AGENTS,
};
use vstd::arithmetic::power2::{lemma2_to64, lemma2_to64_rest, lemma_pow2_pos, lemma_pow2_unfold, pow2};
use vstd::bits::{lemma_u64_pow2_no_overflow, lemma_u64_shl_is_mul};
use vstd::prelude::*;

verus! {

/// What agent `a` adds to the identifier of a coalition that holds it.
pub open spec fn agent_weight(a: u32) -> nat {
    pow2((a % 63) as nat)
}

/// The identifier of a coalition: the sum of its members' weights.
pub open spec fn coalition_id(s: Seq<u32>) -> nat
    decreases s.len(),
{
    if s.len() == 0 {
        0
    } else {
        coalition_id(s.drop_last()) + agent_weight(s.last())
    }
}

proof fn lemma_coalition_id_prefix(s: Seq<u32>, e: int)
    requires
        0 <= e <= s.len(),
    ensures
        coalition_id(s.take(e)) <= coalition_id(s),
    decreases s.len(),
{
    if e < s.len() {
        lemma_coalition_id_prefix(s.drop_last(), e);
        assert(s.drop_last().take(e) =~= s.take(e));
        assert(s.take(s.len() as int) =~= s);
    } else {
        assert(s.take(e) =~= s);
    }
}

fn weight(a: u32) -> (w: u64)
    ensures
        w == agent_weight(a),
{
    let k: u64 = (a % 63) as u64;
    proof {
        lemma_u64_pow2_no_overflow(k as nat);
        lemma_u64_shl_is_mul(1, k);
    }
    1u64 << k
}

/// The identifier of coalition `coa`, summed agent by agent in a `u64`:
/// `Some(coalition_id(coa))`, or `None` where it does not fit.
pub fn coalition_identifier(coa: &Vec<u32>) -> (r: Option<u64>)
    ensures
        r matches Some(v) ==> v == coalition_id(coa@),
        r is None <==> coalition_id(coa@) > u64::MAX,
{
    let mut id: u64 = 0;
    let mut e: usize = 0;
    while e < coa.len()
        invariant
            e <= coa.len(),
            id == coalition_id(coa@.take(e as int)),
        decreases coa.len() - e,
    {
        let w = weight(coa[e]);
        assert(coa@.take(e + 1).drop_last() =~= coa@.take(e as int));
        match id.checked_add(w) {
            Some(v) => {
                id = v;
            },
            None => {
                proof {
                    lemma_coalition_id_prefix(coa@, e + 1);
                }
                return None;
            },
        }
        e = e + 1;
    }
    assert(coa@.take(e as int) =~= coa@);
    Some(id)
}

/// The seed of the value of coalition `coa` in a game with seed `seed`:
/// `Some(coalition_id(coa) + seed)`, or `None` where the identifier, or
/// that sum, does not fit in a `u64`.
pub fn utility_seed(coa: &Vec<u32>, seed: u16) -> (r: Option<u64>)
    ensures
        r matches Some(v) ==> v == coalition_id(coa@) + seed,
        r is None <==> coalition_id(coa@) + seed > u64::MAX,
{
    match coalition_identifier(coa) {
        Some(id) => id.checked_add(seed as u64),
        None => None,
    }
}

/// A coalition's identifier is zero exactly when it has no member, since
/// every agent adds a positive weight.
pub proof fn law_identifier_zero_iff_empty(s: Seq<u32>)
    ensures
        (coalition_id(s) == 0) <==> (s.len() == 0),
    decreases s.len(),
{
    if s.len() > 0 {
        lemma_pow2_pos((s.last() % 63) as nat);
        law_identifier_zero_iff_empty(s.drop_last());
    }
}

proof fn lemma_count_remove(s: Seq<u32>, i: int, x: u32)
    requires
        0 <= i < s.len(),
    ensures
        count(s.remove(i), x) + (if s[i] == x { 1nat } else { 0nat }) == count(s, x),
    decreases s.len(),
{
    if i < s.len() - 1 {
        lemma_count_remove(s.drop_last(), i, x);
        assert(s.remove(i).drop_last() =~= s.drop_last().remove(i));
        assert(s.remove(i).last() == s.last());
    } else {
        assert(s.remove(i) =~= s.drop_last());
    }
}

proof fn lemma_coalition_id_remove(s: Seq<u32>, i: int)
    requires
        0 <= i < s.len(),
    ensures
        coalition_id(s.remove(i)) + agent_weight(s[i]) == coalition_id(s),
    decreases s.len(),
{
    if i < s.len() - 1 {
        lemma_coalition_id_remove(s.drop_last(), i);
        assert(s.remove(i).drop_last() =~= s.drop_last().remove(i));
        assert(s.remove(i).last() == s.last());
    } else {
        assert(s.remove(i) =~= s.drop_last());
    }
}

/// A coalition's identifier depends only on how many times each agent
/// occurs in it, not on the order of its members: two lists of the same
/// members give the same seed, and so the same value.
pub proof fn law_identifier_ignores_order(s: Seq<u32>, t: Seq<u32>)
    requires
        forall|x: u32| #[trigger] count(s, x) == count(t, x),
    ensures
        coalition_id(s) == coalition_id(t),
    decreases s.len(),
{
    if s.len() == 0 {
        if t.len() > 0 {
            assert(count(s, t.last()) == count(t, t.last()));
        }
    } else {
        let y = s.last();
        assert(count(s, y) == count(t, y));
        lemma_count_pos_iff_contains(t, y);
        let i = choose|i: int| 0 <= i < t.len() && t[i] == y;
        let t1 = t.remove(i);
        assert forall|x: u32| #[trigger] count(s.drop_last(), x) == count(t1, x) by {
            lemma_count_remove(t, i, x);
            assert(count(s, x) == count(t, x));
        }
        law_identifier_ignores_order(s.drop_last(), t1);
        lemma_coalition_id_remove(t, i);
    }
}

/// The weights of the agents below `n`, summed.
spec fn weights_below(n: nat) -> nat
    decreases n,
{
    if n == 0 {
        0
    } else {
        weights_below((n - 1) as nat) + agent_weight((n - 1) as u32)
    }
}

/// Each agent below `n` weighted by its number of occurrences in `s`.
spec fn weighted_counts(s: Seq<u32>, n: nat) -> nat
    decreases n,
{
    if n == 0 {
        0
    } else {
        weighted_counts(s, (n - 1) as nat) + count(s, (n - 1) as u32) * agent_weight((n - 1) as u32)
    }
}

proof fn lemma_weighted_counts_push(s: Seq<u32>, y: u32, n: nat)
    requires
        n <= u32::MAX + 1,
    ensures
        weighted_counts(s.push(y), n) == weighted_counts(s, n) + if y < n { agent_weight(y) } else { 0 },
    decreases n,
{
    if n > 0 {
        let n1 = (n - 1) as nat;
        lemma_weighted_counts_push(s, y, n1);
        assert(s.push(y).drop_last() =~= s);
        let c = count(s, n1 as u32);
        let w = agent_weight(n1 as u32);
        if y == n1 as u32 {
            assert(count(s.push(y), n1 as u32) == c + 1);
            assert((c + 1) * w == c * w + w) by (nonlinear_arith);
        } else {
            assert(count(s.push(y), n1 as u32) == c);
        }
    }
}

proof fn lemma_id_is_weighted_counts(s: Seq<u32>, n: nat)
    requires
        n <= u32::MAX + 1,
        forall|i: int| 0 <= i < s.len() ==> s[i] < n,
    ensures
        coalition_id(s) == weighted_counts(s, n),
    decreases s.len(),
{
    if s.len() == 0 {
        lemma_weighted_counts_empty(s, n);
    } else {
        lemma_id_is_weighted_counts(s.drop_last(), n);
        lemma_weighted_counts_push(s.drop_last(), s.last(), n);
        assert(s.drop_last().push(s.last()) =~= s);
    }
}

proof fn lemma_weighted_counts_empty(s: Seq<u32>, n: nat)
    requires
        s.len() == 0,
    ensures
        weighted_counts(s, n) == 0,
    decreases n,
{
    if n > 0 {
        lemma_weighted_counts_empty(s, (n - 1) as nat);
        let c = count(s, (n - 1) as u32);
        assert(c == 0);
        assert(c * agent_weight((n - 1) as u32) == 0) by (nonlinear_arith)
            requires
                c == 0,
        ;
    }
}

proof fn lemma_weighted_counts_bound(s: Seq<u32>, n: nat)
    requires
        forall|x: u32| #[trigger] count(s, x) <= 1,
    ensures
        weighted_counts(s, n) <= weights_below(n),
    decreases n,
{
    if n > 0 {
        let n1 = (n - 1) as nat;
        lemma_weighted_counts_bound(s, n1);
        let c = count(s, n1 as u32);
        let w = agent_weight(n1 as u32);
        assert(c * w <= w) by (nonlinear_arith)
            requires
                c <= 1,
        ;
    }
}

proof fn lemma_weights_below_low(n: nat)
    requires
        n <= 63,
    ensures
        weights_below(n) + 1 == pow2(n),
    decreases n,
{
    if n == 0 {
        lemma2_to64();
    } else {
        lemma_weights_below_low((n - 1) as nat);
        lemma_pow2_unfold(n);
        assert(((n - 1) as u32) % 63 == n - 1);
    }
}

proof fn lemma_weights_below_high(n: nat)
    requires
        63 <= n <= 126,
    ensures
        weights_below(n) + 2 == pow2(63) + pow2((n - 63) as nat),
    decreases n,
{
    if n == 63 {
        lemma_weights_below_low(63);
        lemma2_to64();
    } else {
        lemma_weights_below_high((n - 1) as nat);
        lemma_pow2_unfold((n - 63) as nat);
        assert(((n - 1) as u32) % 63 == n - 64);
    }
}

proof fn lemma_count_le_occurrences(p: Seq<Seq<u32>>, i: int, x: u32)
    requires
        0 <= i < p.len(),
    ensures
        count(p[i], x) <= occurrences(p, x),
    decreases p.len(),
{
    if i < p.len() - 1 {
        lemma_count_le_occurrences(p.drop_last(), i, x);
    }
}

/// In a partition of the agents, the seed of every coalition's value fits
/// in a `u64` whatever the game's seed: `utility_seed` never fails there.
pub proof fn law_partition_seeds_fit(p: Seq<Seq<u32>>, i: int, seed: u16)
    requires
        is_partition(p, N_AGENTS as nat),
        0 <= i < p.len(),
    ensures
        coalition_id(p[i]) + seed <= u64::MAX,
{
    let s = p[i];
    assert forall|x: u32| #[trigger] count(s, x) <= 1 by {
        lemma_count_le_occurrences(p, i, x);
        assert(occurrences(p, x) == if x < N_AGENTS { 1nat } else { 0nat });
    }
    assert forall|k: int| 0 <= k < s.len() implies s[k] < N_AGENTS by {
        lemma_count_pos_iff_contains(s, s[k]);
        lemma_count_le_occurrences(p, i, s[k]);
        assert(occurrences(p, s[k]) == if s[k] < N_AGENTS { 1nat } else { 0nat });
    }
    lemma_id_is_weighted_counts(s, N_AGENTS as nat);
    lemma_weighted_counts_bound(s, N_AGENTS as nat);
    lemma_weights_below_high(N_AGENTS as nat);
    lemma2_to64_rest();
}

} // verus!
