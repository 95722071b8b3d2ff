//! Coalition formation by merging: a state is a coalition structure over the
//! agents, and a move merges one coalition into another.
use crate::grouping::{
    is_partition, law_merge_keeps_agents, merged, occurrences, parts_of, singletons, N_AGENTS,
};
use crate::randomness::random_seed;
use crate::text::{decimal, push_decimal};
use vstd::prelude::*;

verus! {

/// Merge coalition `coa2` into coalition `coa1`.
#[derive(PartialEq, Eq, Structural, Hash, Clone, Copy, Debug)]
pub struct Move {
    pub coa1: usize,
    pub coa2: usize,
}

/// A coalition structure, the moves played so far and the seed of the
/// coalition values.
#[derive(Clone, Debug)]
pub struct State {
    pub coalitions: Vec<Vec<u32>>,
    pub seq: Vec<Move>,
    pub seed: u16,
}

/// The merges `(i, j)` with `i < j < n` whose first index is `i`, by `j` upwards.
pub open spec fn merge_row(i: nat, n: nat) -> Seq<Move> {
    Seq::new(
        if i < n { (n - i - 1) as nat } else { 0nat },
        |k: int| Move { coa1: i as usize, coa2: (i + 1 + k) as usize },
    )
}

/// The rows `0 .. i` of `merge_row`, one after the other.
pub open spec fn merge_rows(i: nat, n: nat) -> Seq<Move>
    decreases i,
{
    if i == 0 {
        Seq::empty()
    } else {
        merge_rows((i - 1) as nat, n) + merge_row((i - 1) as nat, n)
    }
}

/// Every merge `(i, j)` with `i < j < n`, ordered by `i`, then by `j`.
pub open spec fn merge_moves(n: nat) -> Seq<Move> {
    merge_rows(n, n)
}

/// The text `coa1: <coa1>, coa2: <coa2>` of a move, with both indices in decimal.
pub open spec fn move_text(m: Move) -> Seq<char> {
    seq!['c', 'o', 'a', '1', ':', ' '] + decimal(m.coa1 as nat) + seq![
        ',',
        ' ',
        'c',
        'o',
        'a',
        '2',
        ':',
        ' ',
    ] + decimal(m.coa2 as nat)
}

impl Move {
    /// The move as text: `coa1: <coa1>, coa2: <coa2>`.
    pub fn to_string(&self) -> (s: String)
        ensures
            s@ == move_text(*self),
    {
        let mut s = String::new();
        proof {
            reveal_strlit("coa1: ");
            reveal_strlit(", coa2: ");
        }
        s.append("coa1: ");
        push_decimal(&mut s, self.coa1);
        s.append(", coa2: ");
        push_decimal(&mut s, self.coa2);
        assert(s@ =~= move_text(*self));
        s
    }
}

impl State {
    /// The coalitions, each by its members.
    pub open spec fn parts(&self) -> Seq<Seq<u32>> {
        parts_of(self.coalitions@)
    }

    /// A state of singleton coalitions whose values are drawn from a fresh
    /// random seed.
    pub fn new() -> (st: Self)
        ensures
            st.parts() == singletons(N_AGENTS as nat),
            st.seq@ == Seq::<Move>::empty(),
    {
        let sd = random_seed();
        State::new_with_seed(sd)
    }

    /// A state of singleton coalitions `[0], [1], ..., [N_AGENTS - 1]` and no
    /// moves, with seed `sd`.
    pub fn new_with_seed(sd: u16) -> (st: Self)
        ensures
            st.parts() == singletons(N_AGENTS as nat),
            st.seq@ == Seq::<Move>::empty(),
            st.seed == sd,
    {
        let mut coa: Vec<Vec<u32>> = Vec::new();
        let mut i: u32 = 0;
        while i < N_AGENTS
            invariant
                i <= N_AGENTS,
                coa@.len() == i,
                parts_of(coa@) == singletons(i as nat),
            decreases N_AGENTS - i,
        {
            let mut c: Vec<u32> = Vec::new();
            c.push(i);
            assert(c@ =~= seq![i]);
            let ghost before = coa@;
            coa.push(c);
            i = i + 1;
            assert forall|k: int| 0 <= k < i implies #[trigger] parts_of(coa@)[k] == singletons(i as nat)[k] by {
                if k < i - 1 {
                    assert(coa@[k] == before[k]);
                    assert(parts_of(before)[k] == singletons((i - 1) as nat)[k]);
                } else {
                    assert(coa@[k]@ == seq![(i - 1) as u32]);
                }
            }
            assert(parts_of(coa@) =~= singletons(i as nat));
        }
        State { coalitions: coa, seq: Vec::new(), seed: sd }
    }

    /// Merges coalition `m.coa2` into coalition `m.coa1` and records the move.
    pub fn play(&mut self, m: Move)
        requires
            m.coa1 < old(self).coalitions.len(),
            m.coa2 < old(self).coalitions.len(),
        ensures
            final(self).parts() == merged(old(self).parts(), m.coa1 as int, m.coa2 as int),
            final(self).seq@ == old(self).seq@.push(m),
            final(self).seed == old(self).seed,
    {
        let ghost p = self.parts();
        let mut cl = self.coalitions[m.coa2].clone();
        assert(cl@ =~= p[m.coa2 as int]);
        self.coalitions[m.coa1].append(&mut cl);
        self.coalitions.remove(m.coa2);
        self.seq.push(m);
        assert(self.parts() =~= merged(p, m.coa1 as int, m.coa2 as int));
    }

    /// Every merge of two coalitions, as `Move { coa1: i, coa2: j }` with `i < j`.
    pub fn legal_moves(&self) -> (moves: Vec<Move>)
        ensures
            moves@ == merge_moves(self.coalitions.len() as nat),
    {
        let n = self.coalitions.len();
        let mut vec: Vec<Move> = Vec::new();
        let mut i: usize = 0;
        while i < n
            invariant
                n == self.coalitions.len(),
                i <= n,
                vec@ == merge_rows(i as nat, n as nat),
            decreases n - i,
        {
            let mut j: usize = 0;
            while j < n
                invariant
                    n == self.coalitions.len(),
                    i < n,
                    j <= n,
                    vec@ == merge_rows(i as nat, n as nat) + merge_row(i as nat, n as nat).take(
                        if j > i + 1 { j - i - 1 } else { 0 },
                    ),
                decreases n - j,
            {
                if i < j {
                    let m1 = Move { coa1: i, coa2: j };
                    vec.push(m1);
                }
                j = j + 1;
                assert(vec@ =~= merge_rows(i as nat, n as nat) + merge_row(i as nat, n as nat).take(
                    if j > i + 1 { j - i - 1 } else { 0 },
                ));
            }
            assert(merge_row(i as nat, n as nat).take((n - i - 1) as int) =~= merge_row(i as nat, n as nat));
            i = i + 1;
        }
        vec
    }

    /// Whether all agents are in one coalition.
    pub fn terminal(&self) -> (b: bool)
        ensures
            b == (self.coalitions.len() == 1),
    {
        self.coalitions.len() == 1
    }
}

/// The rows `0 .. i` hold exactly the merges `(a, b)` with `a < i` and `a < b < n`.
proof fn lemma_merge_rows_contains(i: nat, n: nat, m: Move)
    requires
        n <= usize::MAX,
    ensures
        merge_rows(i, n).contains(m) <==> (m.coa1 < i && m.coa1 < m.coa2 && m.coa2 < n),
    decreases i,
{
    if i > 0 {
        let i1 = (i - 1) as nat;
        lemma_merge_rows_contains(i1, n, m);
        let a = merge_rows(i1, n);
        let r = merge_row(i1, n);
        if (a + r).contains(m) {
            let k = choose|k: int| 0 <= k < (a + r).len() && (a + r)[k] == m;
            if k >= a.len() {
                assert(r[k - a.len()] == m);
            } else {
                assert(a[k] == m);
            }
        }
        if m.coa1 < i && m.coa1 < m.coa2 && m.coa2 < n {
            if m.coa1 == i1 {
                let k = m.coa2 - i1 - 1;
                assert((a + r)[a.len() + k] == m);
            } else {
                let k = choose|k: int| 0 <= k < a.len() && a[k] == m;
                assert((a + r)[k] == m);
            }
        }
    }
}

/// A move is among the legal moves of a structure of `n` coalitions exactly
/// when it merges a coalition `coa2` into an earlier coalition `coa1`, both
/// below `n`; so every legal move meets the requirements of `State::play`.
pub proof fn law_legal_moves_are_ordered_pairs(n: nat, m: Move)
    requires
        n <= usize::MAX,
    ensures
        merge_moves(n).contains(m) <==> (m.coa1 < m.coa2 && m.coa2 < n),
{
    lemma_merge_rows_contains(n, n, m);
}

/// There are no legal moves exactly when at most one coalition is left.
pub proof fn law_no_legal_moves_iff_single_coalition(n: nat)
    requires
        1 <= n <= usize::MAX,
    ensures
        (merge_moves(n).len() == 0) <==> (n == 1),
{
    if n > 1 {
        let m = Move { coa1: 0, coa2: 1 };
        lemma_merge_rows_contains(n, n, m);
    }
    if merge_moves(n).len() > 0 {
        let m = merge_moves(n)[0];
        lemma_merge_rows_contains(n, n, m);
    }
}

/// Playing a legal move on a partition of the agents leaves a partition of
/// the same agents, with one coalition fewer.
pub proof fn law_legal_move_keeps_partition(p: Seq<Seq<u32>>, n: nat, m: Move)
    requires
        p.len() <= usize::MAX,
        is_partition(p, n),
        merge_moves(p.len()).contains(m),
    ensures
        is_partition(merged(p, m.coa1 as int, m.coa2 as int), n),
        merged(p, m.coa1 as int, m.coa2 as int).len() == p.len() - 1,
{
    law_legal_moves_are_ordered_pairs(p.len(), m);
    assert forall|x: u32| #[trigger] occurrences(merged(p, m.coa1 as int, m.coa2 as int), x)
        == if x < n { 1nat } else { 0nat } by {
        law_merge_keeps_agents(p, m.coa1 as int, m.coa2 as int, x);
    }
    law_merge_keeps_agents(p, m.coa1 as int, m.coa2 as int, 0);
}

} // verus!
