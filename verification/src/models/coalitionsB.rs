//! Coalition formation with a locked prefix: coalitions before `locked_coa`
//! are final; a move either locks the current coalition or merges a later
//! coalition into it.
use crate::grouping::{
    is_partition, law_merge_keeps_agents, merged, occurrences, parts_of, singletons, N_AGENTS,
};
use crate::randomness::random_seed;
use vstd::prelude::*;

verus! {

/// Merge coalition `coa` into the current (first unlocked) coalition, or,
/// when `coa` is the current coalition, lock it.
#[derive(PartialEq, Eq, Structural, Hash, Clone, Copy, Debug)]
pub struct Move {
    pub coa: usize,
}

/// A coalition structure whose first `locked_coa` coalitions are final.
#[derive(Clone, Debug)]
pub struct State {
    pub coalitions: Vec<Vec<u32>>,
    pub locked_coa: usize,
    pub locked_moves: usize,
    pub seq: Vec<Move>,
    pub seed: u16,
}

/// The moves `locked, locked + 1, ..., n - 1` (none when `locked >= n`).
pub open spec fn unlocked_moves(locked: nat, n: nat) -> Seq<Move> {
    Seq::new(
        if locked <= n { (n - locked) as nat } else { 0nat },
        |k: int| Move { coa: (locked + k) as usize },
    )
}

impl State {
    /// The coalitions, each by its members.
    pub open spec fn parts(&self) -> Seq<Seq<u32>> {
        parts_of(self.coalitions@)
    }

    /// A state of singleton coalitions, nothing locked, whose values are
    /// drawn from a fresh random seed.
    pub fn new() -> (st: Self)
        ensures
            st.parts() == singletons(N_AGENTS as nat),
            st.locked_coa == 0,
            st.locked_moves == 0,
            st.seq@ == Seq::<Move>::empty(),
    {
        let sd = random_seed();
        State::new_with_seed(sd)
    }

    /// A state of singleton coalitions `[0], [1], ..., [N_AGENTS - 1]`,
    /// nothing locked and no moves, with seed `sd`.
    pub fn new_with_seed(sd: u16) -> (st: Self)
        ensures
            st.parts() == singletons(N_AGENTS as nat),
            st.locked_coa == 0,
            st.locked_moves == 0,
            st.seq@ == Seq::<Move>::empty(),
            st.seed == sd,
    {
        let mut coa: Vec<Vec<u32>> = Vec::new();
        let mut i: u32 = 0;
        while i < N_AGENTS
            invariant
                i <= N_AGENTS,
                coa@.len() == i,
                parts_of(coa@) == singletons(i as nat),
            decreases N_AGENTS - i,
        {
            let mut c: Vec<u32> = Vec::new();
            c.push(i);
            assert(c@ =~= seq![i]);
            let ghost before = coa@;
            coa.push(c);
            i = i + 1;
            assert forall|k: int| 0 <= k < i implies #[trigger] parts_of(coa@)[k] == singletons(
                i as nat,
            )[k] by {
                if k < i - 1 {
                    assert(coa@[k] == before[k]);
                    assert(parts_of(before)[k] == singletons((i - 1) as nat)[k]);
                } else {
                    assert(coa@[k]@ == seq![(i - 1) as u32]);
                }
            }
            assert(parts_of(coa@) =~= singletons(i as nat));
        }
        State { coalitions: coa, locked_coa: 0, locked_moves: 0, seq: Vec::new(), seed: sd }
    }

    /// Plays `m`: when `m.coa` is the current coalition it becomes locked;
    /// otherwise coalition `m.coa` is merged into the current one.
    pub fn play(&mut self, m: Move)
        requires
            m.coa == old(self).locked_coa ==> old(self).locked_coa < usize::MAX,
            m.coa != old(self).locked_coa ==> m.coa < old(self).coalitions.len()
                && old(self).locked_coa < old(self).coalitions.len(),
        ensures
            m.coa == old(self).locked_coa ==> {
                &&& final(self).coalitions@ == old(self).coalitions@
                &&& final(self).locked_coa == old(self).locked_coa + 1
                &&& final(self).locked_moves == final(self).locked_coa
            },
            m.coa != old(self).locked_coa ==> {
                &&& final(self).parts() == merged(
                    old(self).parts(),
                    old(self).locked_coa as int,
                    m.coa as int,
                )
                &&& final(self).locked_coa == old(self).locked_coa
                &&& final(self).locked_moves == m.coa
            },
            final(self).seq@ == old(self).seq@.push(m),
            final(self).seed == old(self).seed,
    {
        if m.coa == self.locked_coa {
            self.locked_coa = self.locked_coa + 1;
            self.locked_moves = self.locked_coa;
        } else {
            let ghost p = self.parts();
            let mut cl = self.coalitions[m.coa].clone();
            assert(cl@ =~= p[m.coa as int]);
            let lc = self.locked_coa;
            self.coalitions[lc].append(&mut cl);
            self.coalitions.remove(m.coa);
            self.locked_moves = m.coa;
            assert(self.parts() =~= merged(p, lc as int, m.coa as int));
        }
        self.seq.push(m);
    }

    /// One move for each coalition from the current one on.
    pub fn legal_moves(&self) -> (moves: Vec<Move>)
        ensures
            moves@ == unlocked_moves(self.locked_coa as nat, self.coalitions.len() as nat),
    {
        let mut vec: Vec<Move> = Vec::new();
        let n = self.coalitions.len();
        let mut i = self.locked_coa;
        while i < n
            invariant
                n == self.coalitions.len(),
                self.locked_coa <= i,
                i <= n || i == self.locked_coa,
                vec@ == Seq::new(
                    (i - self.locked_coa) as nat,
                    |k: int| Move { coa: (self.locked_coa + k) as usize },
                ),
            decreases n - i,
        {
            vec.push(Move { coa: i });
            i = i + 1;
            assert(vec@ =~= Seq::new(
                (i - self.locked_coa) as nat,
                |k: int| Move { coa: (self.locked_coa + k) as usize },
            ));
        }
        assert(vec@ =~= unlocked_moves(self.locked_coa as nat, n as nat));
        vec
    }

    /// Whether every coalition is locked.
    pub fn terminal(&self) -> (b: bool)
        ensures
            b == (self.coalitions.len() == self.locked_coa),
    {
        self.coalitions.len() == self.locked_coa
    }
}

/// A move is legal exactly when it names a coalition from the current one on.
pub proof fn law_legal_moves_are_unlocked(locked: nat, n: nat, m: Move)
    requires
        n <= usize::MAX,
    ensures
        unlocked_moves(locked, n).contains(m) <==> (locked <= m.coa && m.coa < n),
{
    if locked <= m.coa && m.coa < n {
        assert(unlocked_moves(locked, n)[m.coa - locked] == m);
    }
}

/// There is no legal move exactly when every coalition is locked (given that
/// the lock never passes the number of coalitions).
pub proof fn law_no_legal_moves_iff_terminal(locked: nat, n: nat)
    requires
        locked <= n,
    ensures
        (unlocked_moves(locked, n).len() == 0) <==> (n == locked),
{
}

/// Playing a legal move on a partition whose lock is within bounds keeps a
/// partition of the same agents, keeps the lock within bounds, and brings the
/// number of unlocked coalitions down by exactly one; so a game ends after
/// as many moves as it starts with unlocked coalitions.
pub proof fn law_legal_move_progress(p: Seq<Seq<u32>>, locked: nat, n: nat, m: Move)
    requires
        p.len() <= usize::MAX,
        locked <= p.len(),
        is_partition(p, n),
        unlocked_moves(locked, p.len()).contains(m),
    ensures
        m.coa == locked ==> locked + 1 <= p.len(),
        m.coa != locked ==> {
            let q = merged(p, locked as int, m.coa as int);
            &&& is_partition(q, n)
            &&& locked <= q.len()
            &&& q.len() - locked == p.len() - locked - 1
        },
{
    law_legal_moves_are_unlocked(locked, p.len(), m);
    if m.coa != locked {
        let q = merged(p, locked as int, m.coa as int);
        assert forall|x: u32| #[trigger] occurrences(q, x) == if x < n { 1nat } else { 0nat } by {
            law_merge_keeps_agents(p, locked as int, m.coa as int, x);
        }
        law_merge_keeps_agents(p, locked as int, m.coa as int, 0);
    }
}

} // verus!
