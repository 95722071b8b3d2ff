//! Coalition structures seen as sequences of groups of agents, and the
//! counting facts that the models' laws rest on.
use vstd::prelude::*;

verus! {

/// Number of agents of the game.
pub const N_AGENTS: u32 = 100;

/// The groups of a coalition structure, each group by its view.
pub open spec fn parts_of(v: Seq<Vec<u32>>) -> Seq<Seq<u32>> {
    v.map_values(|c: Vec<u32>| c@)
}

/// How many times agent `x` occurs in group `s`.
pub open spec fn count(s: Seq<u32>, x: u32) -> nat
    decreases s.len(),
{
    if s.len() == 0 {
        0
    } else {
        count(s.drop_last(), x) + if s.last() == x { 1nat } else { 0nat }
    }
}

/// How many times agent `x` occurs over all groups of `parts`.
pub open spec fn occurrences(parts: Seq<Seq<u32>>, x: u32) -> nat
    decreases parts.len(),
{
    if parts.len() == 0 {
        0
    } else {
        occurrences(parts.drop_last(), x) + count(parts.last(), x)
    }
}

/// The structure after merging group `c2` into group `c1`: `c1` gets the
/// members of `c2` appended, then `c2` is taken out.
pub open spec fn merged(p: Seq<Seq<u32>>, c1: int, c2: int) -> Seq<Seq<u32>> {
    p.update(c1, p[c1] + p[c2]).remove(c2)
}

/// `parts` holds each agent below `n` exactly once, and no other agent.
pub open spec fn is_partition(parts: Seq<Seq<u32>>, n: nat) -> bool {
    forall|x: u32| #[trigger] occurrences(parts, x) == if x < n { 1nat } else { 0nat }
}

/// The structure of `n` singleton groups `[0], [1], ..., [n - 1]`.
pub open spec fn singletons(n: nat) -> Seq<Seq<u32>> {
    Seq::new(n, |i: int| seq![i as u32])
}

pub proof fn lemma_count_concat(s: Seq<u32>, t: Seq<u32>, x: u32)
    ensures
        count(s + t, x) == count(s, x) + count(t, x),
    decreases t.len(),
{
    if t.len() == 0 {
        assert(s + t =~= s);
    } else {
        lemma_count_concat(s, t.drop_last(), x);
        assert((s + t).drop_last() =~= s + t.drop_last());
    }
}

pub proof fn lemma_count_update(s: Seq<u32>, i: int, v: u32, x: u32)
    requires
        0 <= i < s.len(),
    ensures
        count(s.update(i, v), x) + (if s[i] == x { 1nat } else { 0nat })
            == count(s, x) + (if v == x { 1nat } else { 0nat }),
    decreases s.len(),
{
    if i < s.len() - 1 {
        lemma_count_update(s.drop_last(), i, v, x);
        assert(s.update(i, v).drop_last() =~= s.drop_last().update(i, v));
    } else {
        assert(s.update(i, v).drop_last() =~= s.drop_last());
    }
}

/// Removing the element at `i` by moving the last one into its place
/// (what `Vec::swap_remove` does) removes exactly one occurrence of `s[i]`.
pub proof fn lemma_count_swap_remove(s: Seq<u32>, i: int, x: u32)
    requires
        0 <= i < s.len(),
    ensures
        count(s.update(i, s.last()).drop_last(), x) + (if s[i] == x { 1nat } else { 0nat })
            == count(s, x),
{
    lemma_count_update(s, i, s.last(), x);
    let u = s.update(i, s.last());
    assert(u.last() == s.last());
}

pub proof fn lemma_occurrences_update(p: Seq<Seq<u32>>, i: int, s: Seq<u32>, x: u32)
    requires
        0 <= i < p.len(),
    ensures
        occurrences(p.update(i, s), x) + count(p[i], x) == occurrences(p, x) + count(s, x),
    decreases p.len(),
{
    if i < p.len() - 1 {
        lemma_occurrences_update(p.drop_last(), i, s, x);
        assert(p.update(i, s).drop_last() =~= p.drop_last().update(i, s));
    } else {
        assert(p.update(i, s).drop_last() =~= p.drop_last());
    }
}

pub proof fn lemma_occurrences_remove(p: Seq<Seq<u32>>, i: int, x: u32)
    requires
        0 <= i < p.len(),
    ensures
        occurrences(p.remove(i), x) + count(p[i], x) == occurrences(p, x),
    decreases p.len(),
{
    if i < p.len() - 1 {
        lemma_occurrences_remove(p.drop_last(), i, x);
        assert(p.remove(i).drop_last() =~= p.drop_last().remove(i));
        assert(p.remove(i).last() == p.last());
    } else {
        assert(p.remove(i) =~= p.drop_last());
    }
}

pub proof fn lemma_occurrences_singletons(n: nat, x: u32)
    requires
        n <= u32::MAX + 1,
    ensures
        occurrences(singletons(n), x) == if x < n { 1nat } else { 0nat },
    decreases n,
{
    if n > 0 {
        lemma_occurrences_singletons((n - 1) as nat, x);
        assert(singletons(n).drop_last() =~= singletons((n - 1) as nat));
        let g = singletons(n).last();
        assert(g.drop_last() =~= Seq::<u32>::empty());
        assert(g.last() == (n - 1) as u32);
        assert(count(g.drop_last(), x) == 0);
        assert(count(g, x) == if x == (n - 1) as u32 { 1nat } else { 0nat });
    }
}

/// Merging two different coalitions keeps every agent's number of occurrences.
pub proof fn law_merge_keeps_agents(p: Seq<Seq<u32>>, c1: int, c2: int, x: u32)
    requires
        0 <= c1 < p.len(),
        0 <= c2 < p.len(),
        c1 != c2,
    ensures
        occurrences(merged(p, c1, c2), x) == occurrences(p, x),
        merged(p, c1, c2).len() == p.len() - 1,
{
    let u = p.update(c1, p[c1] + p[c2]);
    lemma_occurrences_update(p, c1, p[c1] + p[c2], x);
    lemma_count_concat(p[c1], p[c2], x);
    lemma_occurrences_remove(u, c2, x);
}

/// A new state puts every agent in a coalition of its own.
pub proof fn law_initial_state_is_partition()
    ensures
        is_partition(singletons(N_AGENTS as nat), N_AGENTS as nat),
{
    assert forall|x: u32| #[trigger] occurrences(singletons(N_AGENTS as nat), x)
        == if x < N_AGENTS { 1nat } else { 0nat } by {
        lemma_occurrences_singletons(N_AGENTS as nat, x);
    }
}

pub proof fn lemma_count_push(s: Seq<u32>, y: u32, x: u32)
    ensures
        count(s.push(y), x) == count(s, x) + if y == x { 1nat } else { 0nat },
{
    assert(s.push(y).drop_last() =~= s);
}

pub proof fn lemma_count_pos_iff_contains(s: Seq<u32>, x: u32)
    ensures
        (count(s, x) > 0) <==> s.contains(x),
    decreases s.len(),
{
    if s.len() > 0 {
        lemma_count_pos_iff_contains(s.drop_last(), x);
        if s.drop_last().contains(x) {
            let i = choose|i: int| 0 <= i < s.drop_last().len() && s.drop_last()[i] == x;
            assert(s[i] == x);
        }
        if s.contains(x) && s.last() != x {
            let i = choose|i: int| 0 <= i < s.len() && s[i] == x;
            assert(s.drop_last()[i] == x);
        }
    }
}

pub proof fn lemma_occurrences_concat(p: Seq<Seq<u32>>, q: Seq<Seq<u32>>, x: u32)
    ensures
        occurrences(p + q, x) == occurrences(p, x) + occurrences(q, x),
    decreases q.len(),
{
    if q.len() == 0 {
        assert(p + q =~= p);
    } else {
        lemma_occurrences_concat(p, q.drop_last(), x);
        assert((p + q).drop_last() =~= p + q.drop_last());
    }
}

pub proof fn lemma_concat_contains<A>(a: Seq<A>, b: Seq<A>, x: A)
    ensures
        (a + b).contains(x) <==> (a.contains(x) || b.contains(x)),
{
    if (a + b).contains(x) {
        let k = choose|k: int| 0 <= k < (a + b).len() && (a + b)[k] == x;
        if k >= a.len() {
            assert(b[k - a.len()] == x);
        } else {
            assert(a[k] == x);
        }
    }
    if a.contains(x) {
        let k = choose|k: int| 0 <= k < a.len() && a[k] == x;
        assert((a + b)[k] == x);
    }
    if b.contains(x) {
        let k = choose|k: int| 0 <= k < b.len() && b[k] == x;
        assert((a + b)[a.len() + k] == x);
    }
}

} // verus!
