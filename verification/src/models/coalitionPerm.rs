//! Coalition formation by moving agents: a state assigns every agent to a
//! coalition, and a move takes one agent from its coalition to another one,
//! or to a new coalition.
use crate::grouping::{
    count, is_partition, lemma_concat_contains, lemma_count_pos_iff_contains, lemma_count_push, lemma_count_swap_remove,
    lemma_occurrences_concat, lemma_occurrences_remove, lemma_occurrences_singletons,
    lemma_occurrences_update, occurrences, parts_of, singletons, N_AGENTS,
};
use crate::randomness::random_seed;
use vstd::prelude::*;

verus! {

/// Move `agent` into coalition `coa2` (a new coalition when `coa2` is the
/// number of coalitions).
#[derive(PartialEq, Eq, Structural, Hash, Clone, Copy, Debug)]
pub struct Move {
    pub agent: u32,
    pub coa2: usize,
}

/// A coalition structure together with, for every agent, the index of a
/// coalition that holds it.
#[derive(Clone, Debug)]
pub struct State {
    pub agents: Vec<i16>,
    pub coalitions: Vec<Vec<u32>>,
    pub seq: Vec<Move>,
    pub seed: u16,
}

/// Most coalitions a state can have: coalition indices are kept as `i16`.
pub const MAX_COALITIONS: usize = 32767;

/// `g` gives, for each of the `N_AGENTS` agents, the index of a group of `p`
/// that holds it, and `p` has no more groups than an `i16` can index.
pub open spec fn well_formed(p: Seq<Seq<u32>>, g: Seq<i16>) -> bool {
    &&& g.len() == N_AGENTS
    &&& p.len() <= MAX_COALITIONS
    &&& forall|a: int|
        0 <= a < N_AGENTS ==> 0 <= #[trigger] g[a] < p.len() && p[g[a] as int].contains(a as u32)
}

/// The index of the first occurrence of `x` in `s` (`s.len()` if none).
pub open spec fn first_index(s: Seq<u32>, x: u32) -> int
    decreases s.len(),
{
    if s.len() == 0 {
        0
    } else if s[0] == x {
        0
    } else {
        1 + first_index(s.drop_first(), x)
    }
}

/// `s` without its element at `i`, the last element taking its place
/// (what `Vec::swap_remove` leaves).
pub open spec fn swap_removed(s: Seq<u32>, i: int) -> Seq<u32> {
    s.update(i, s.last()).drop_last()
}

/// The coalition that `m.agent` leaves.
pub open spec fn source(g: Seq<i16>, m: Move) -> int {
    g[m.agent as int] as int
}

/// The groups once `m.agent` has been appended to group `m.coa2` (a new,
/// empty group being added first when `m.coa2` is past the end).
pub open spec fn pushed(p: Seq<Seq<u32>>, m: Move) -> Seq<Seq<u32>> {
    let p1 = if m.coa2 >= p.len() { p.push(Seq::empty()) } else { p };
    p1.update(m.coa2 as int, p1[m.coa2 as int].push(m.agent))
}

/// The groups once, after `pushed`, the first occurrence of `m.agent` in
/// its source coalition has been swap-removed.
pub open spec fn taken(p: Seq<Seq<u32>>, g: Seq<i16>, m: Move) -> Seq<Seq<u32>> {
    let p2 = pushed(p, m);
    let c1 = source(g, m);
    p2.update(c1, swap_removed(p2[c1], first_index(p2[c1], m.agent)))
}

/// Whether the move leaves the source coalition empty.
pub open spec fn emptied(p: Seq<Seq<u32>>, g: Seq<i16>, m: Move) -> bool {
    taken(p, g, m)[source(g, m)].len() == 0
}

/// The groups after move `m`: an emptied source coalition is taken out.
pub open spec fn moved_parts(p: Seq<Seq<u32>>, g: Seq<i16>, m: Move) -> Seq<Seq<u32>> {
    if emptied(p, g, m) {
        taken(p, g, m).remove(source(g, m))
    } else {
        taken(p, g, m)
    }
}

/// The agents' coalition indices after move `m`: the agent gets `m.coa2`;
/// when the source coalition was taken out, every index of the
/// `N_AGENTS` agents from the source's on goes down by one.
pub open spec fn moved_agents(p: Seq<Seq<u32>>, g: Seq<i16>, m: Move) -> Seq<i16> {
    let g1 = g.update(m.agent as int, m.coa2 as i16);
    let c1 = source(g, m);
    if emptied(p, g, m) {
        Seq::new(
            g1.len(),
            |a: int|
                if a < N_AGENTS && g1[a] >= c1 {
                    (g1[a] - 1) as i16
                } else {
                    g1[a]
                },
        )
    } else {
        g1
    }
}

proof fn lemma_first_index(s: Seq<u32>, x: u32)
    requires
        s.contains(x),
    ensures
        0 <= first_index(s, x) < s.len(),
        s[first_index(s, x)] == x,
        forall|j: int| 0 <= j < first_index(s, x) ==> s[j] != x,
    decreases s.len(),
{
    if s[0] != x {
        let i = choose|i: int| 0 <= i < s.len() && s[i] == x;
        assert(s.drop_first()[i - 1] == x);
        lemma_first_index(s.drop_first(), x);
        assert forall|j: int| 0 <= j < first_index(s, x) implies s[j] != x by {
            if j > 0 {
                assert(s[j] == s.drop_first()[j - 1]);
            }
        }
    }
}

proof fn lemma_first_index_unique(s: Seq<u32>, x: u32, i: int)
    requires
        0 <= i < s.len(),
        s[i] == x,
        forall|j: int| 0 <= j < i ==> s[j] != x,
    ensures
        first_index(s, x) == i,
    decreases s.len(),
{
    if i > 0 {
        assert forall|j: int| 0 <= j < i - 1 implies s.drop_first()[j] != x by {
            assert(s[j + 1] != x);
        }
        lemma_first_index_unique(s.drop_first(), x, i - 1);
    }
}

/// A move of an agent keeps the state well formed and keeps every agent's
/// number of occurrences over all coalitions.
proof fn lemma_move(p: Seq<Seq<u32>>, g: Seq<i16>, m: Move)
    requires
        well_formed(p, g),
        m.agent < N_AGENTS,
        m.coa2 <= p.len(),
        p.len() < MAX_COALITIONS,
    ensures
        0 <= source(g, m) < p.len(),
        pushed(p, m)[source(g, m)].contains(m.agent),
        well_formed(moved_parts(p, g, m), moved_agents(p, g, m)),
        forall|x: u32| occurrences(#[trigger] moved_parts(p, g, m), x) == occurrences(p, x),
{
    let ag = m.agent;
    let c2 = m.coa2 as int;
    let c1 = source(g, m);
    let p1 = if m.coa2 >= p.len() { p.push(Seq::empty()) } else { p };
    let p2 = pushed(p, m);
    let p3 = taken(p, g, m);
    assert(0 <= g[ag as int] < p.len());
    assert(p[c1].contains(ag));
    // the source still holds the agent after the push
    assert(p2[c1].contains(ag)) by {
        let i = choose|i: int| 0 <= i < p[c1].len() && p[c1][i] == ag;
        assert(p1[c1] == p[c1]);
        if c1 == c2 {
            assert(p2[c1][i] == ag);
        } else {
            assert(p2[c1] == p[c1]);
        }
    }
    lemma_first_index(p2[c1], ag);
    let fi = first_index(p2[c1], ag);
    assert(p3[c1] == swap_removed(p2[c1], fi));
    // counts in the source after the swap-remove
    assert forall|x: u32| #[trigger] count(p3[c1], x) + (if x == ag { 1nat } else { 0nat }) == count(
        p2[c1],
        x,
    ) by {
        lemma_count_swap_remove(p2[c1], fi, x);
    }
    // every agent's new coalition (before the removal of an emptied source)
    let g1 = g.update(ag as int, m.coa2 as i16);
    assert forall|b: int| 0 <= b < N_AGENTS implies 0 <= #[trigger] g1[b] < p3.len() && p3[g1[b] as int].contains(
        b as u32,
    ) by {
        let bb = b as u32;
        if b == ag {
            assert(g1[b] as int == c2);
            if c2 != c1 {
                assert(p3[c2] == p2[c2]);
                assert(p2[c2] == p1[c2].push(ag));
                assert(p2[c2][p1[c2].len() as int] == ag);
            } else {
                lemma_count_push(p1[c1], ag, ag);
                lemma_count_pos_iff_contains(p1[c1], ag);
                assert(p1[c1] == p[c1]);
                lemma_count_pos_iff_contains(p3[c1], ag);
            }
        } else {
            let d = g[b] as int;
            assert(g1[b] == g[b]);
            assert(p[d].contains(bb));
            lemma_count_pos_iff_contains(p[d], bb);
            assert(p1[d] == p[d]);
            assert(count(p2[d], bb) >= count(p[d], bb)) by {
                if d == c2 {
                    lemma_count_push(p1[d], ag, bb);
                }
            }
            lemma_count_pos_iff_contains(p2[d], bb);
            if d == c1 {
                lemma_count_pos_iff_contains(p3[c1], bb);
            } else {
                assert(p3[d] == p2[d]);
            }
        }
    }
    // occurrences
    assert forall|x: u32| occurrences(#[trigger] moved_parts(p, g, m), x) == occurrences(p, x) by {
        if m.coa2 >= p.len() {
            assert(p1.drop_last() =~= p);
            assert(count(Seq::<u32>::empty(), x) == 0);
        }
        assert(occurrences(p1, x) == occurrences(p, x));
        lemma_occurrences_update(p1, c2, p1[c2].push(ag), x);
        lemma_count_push(p1[c2], ag, x);
        lemma_occurrences_update(p2, c1, p3[c1], x);
        if emptied(p, g, m) {
            lemma_occurrences_remove(p3, c1, x);
            assert(p3[c1] =~= Seq::<u32>::empty());
            assert(count(p3[c1], x) == 0);
        }
    }
    if emptied(p, g, m) {
        let q = p3.remove(c1);
        let g2 = moved_agents(p, g, m);
        assert forall|b: int| 0 <= b < N_AGENTS implies 0 <= #[trigger] g2[b] < q.len() && q[g2[b] as int].contains(
            b as u32,
        ) by {
            assert(p3[g1[b] as int].contains(b as u32));
            if g1[b] as int == c1 {
                assert(p3[c1].len() == 0);
            }
            if g1[b] >= c1 {
                assert(g2[b] == g1[b] - 1);
                assert(q[g2[b] as int] == p3[g1[b] as int]);
            } else {
                assert(g2[b] == g1[b]);
                assert(q[g2[b] as int] == p3[g1[b] as int]);
            }
        }
    }
}

/// The agents below `n` that `g` puts in group `c`, in increasing order.
pub open spec fn members(g: Seq<i16>, c: int, n: nat) -> Seq<u32>
    decreases n,
{
    if n == 0 {
        Seq::empty()
    } else if g[n - 1] as int == c {
        members(g, c, (n - 1) as nat).push((n - 1) as u32)
    } else {
        members(g, c, (n - 1) as nat)
    }
}

/// The `k` groups that assignment `g` of the `N_AGENTS` agents describes.
pub open spec fn grouped(g: Seq<i16>, k: nat) -> Seq<Seq<u32>> {
    Seq::new(k, |c: int| members(g, c, N_AGENTS as nat))
}

/// The number of coalitions that `State::randomize` spreads the agents over.
pub open spec fn random_groups() -> nat {
    (N_AGENTS / 5) as nat
}

/// The moves of agent `agent` listed for source index `c1`: every target
/// `0 ..= n` but `c1`, in increasing order.
pub open spec fn move_row(agent: nat, c1: nat, n: nat) -> Seq<Move> {
    Seq::new(n, |k: int| Move { agent: agent as u32, coa2: (if k < c1 { k } else { k + 1 }) as usize })
}

/// The rows `0 .. c` of `move_row` for one agent.
pub open spec fn move_rows(agent: nat, c: nat, n: nat) -> Seq<Move>
    decreases c,
{
    if c == 0 {
        Seq::empty()
    } else {
        move_rows(agent, (c - 1) as nat, n) + move_row(agent, (c - 1) as nat, n)
    }
}

/// The rows of the agents `0 .. a`, agent after agent.
pub open spec fn agent_moves(a: nat, n: nat) -> Seq<Move>
    decreases a,
{
    if a == 0 {
        Seq::empty()
    } else {
        agent_moves((a - 1) as nat, n) + move_rows((a - 1) as nat, n, n)
    }
}

/// The listing of `State::legal_moves` for `n` coalitions: for each agent,
/// for each source index `c1 < n`, every target `0 ..= n` but `c1`.
pub open spec fn listed_moves(n: nat) -> Seq<Move> {
    agent_moves(N_AGENTS as nat, n)
}

fn find_agent(s: &Vec<u32>, x: u32) -> (i: usize)
    requires
        s@.contains(x),
    ensures
        i == first_index(s@, x),
        i < s@.len(),
        s@[i as int] == x,
{
    proof {
        lemma_first_index(s@, x);
    }
    let mut i: usize = 0;
    while s[i] != x
        invariant
            0 <= i <= first_index(s@, x),
            0 <= first_index(s@, x) < s.len(),
            s@[first_index(s@, x)] == x,
            forall|j: int| 0 <= j < first_index(s@, x) ==> s@[j] != x,
        decreases s@.len() - i,
    {
        assert(i < first_index(s@, x));
        i = i + 1;
    }
    i
}

impl State {
    /// The coalitions, each by its members.
    pub open spec fn parts(&self) -> Seq<Seq<u32>> {
        parts_of(self.coalitions@)
    }

    /// `agents` and `coalitions` agree (see `well_formed`).
    pub open spec fn wf(&self) -> bool {
        well_formed(self.parts(), self.agents@)
    }

    fn build(sd: u16) -> (st: Self)
        ensures
            st.parts() == initial_parts(),
            st.agents@ == initial_agents(),
            st.seq@ == Seq::<Move>::empty(),
            st.seed == sd,
    {
        let mut coa: Vec<Vec<u32>> = Vec::new();
        let mut ag: Vec<i16> = Vec::new();
        let mut i: u32 = 0;
        while i < N_AGENTS
            invariant
                i <= N_AGENTS,
                coa@.len() == i,
                parts_of(coa@) == singletons(i as nat),
                ag@ == Seq::new(i as nat, |k: int| k as i16),
            decreases N_AGENTS - i,
        {
            let mut c: Vec<u32> = Vec::new();
            c.push(i);
            assert(c@ =~= seq![i]);
            let ghost before = coa@;
            coa.push(c);
            ag.push(i as i16);
            i = i + 1;
            assert forall|k: int| 0 <= k < i implies #[trigger] parts_of(coa@)[k] == singletons(
                i as nat,
            )[k] by {
                if k < i - 1 {
                    assert(coa@[k] == before[k]);
                    assert(parts_of(before)[k] == singletons((i - 1) as nat)[k]);
                } else {
                    assert(coa@[k]@ == seq![(i - 1) as u32]);
                }
            }
            assert(parts_of(coa@) =~= singletons(i as nat));
            assert(ag@ =~= Seq::new(i as nat, |k: int| k as i16));
        }
        let mut j: u32 = 0;
        while j < N_AGENTS
            invariant
                j <= N_AGENTS,
                coa@.len() == N_AGENTS + j,
                parts_of(coa@) == singletons(N_AGENTS as nat) + singletons(j as nat),
            decreases N_AGENTS - j,
        {
            let mut c: Vec<u32> = Vec::new();
            c.push(j);
            assert(c@ =~= seq![j]);
            let ghost before = coa@;
            coa.push(c);
            j = j + 1;
            assert forall|k: int| 0 <= k < N_AGENTS + j implies #[trigger] parts_of(coa@)[k] == (
            singletons(N_AGENTS as nat) + singletons(j as nat))[k] by {
                if k < N_AGENTS + j - 1 {
                    assert(coa@[k] == before[k]);
                    assert(parts_of(before)[k] == (singletons(N_AGENTS as nat) + singletons(
                        (j - 1) as nat,
                    ))[k]);
                } else {
                    assert(coa@[k]@ == seq![(j - 1) as u32]);
                }
            }
            assert(parts_of(coa@) =~= singletons(N_AGENTS as nat) + singletons(j as nat));
        }
        State { agents: ag, coalitions: coa, seq: Vec::new(), seed: sd }
    }

    /// The starting state, with a fresh random seed: see `initial_parts`
    /// and `initial_agents`.
    pub fn new() -> (st: Self)
        ensures
            st.parts() == initial_parts(),
            st.agents@ == initial_agents(),
            st.seq@ == Seq::<Move>::empty(),
    {
        let sd = random_seed();
        State::build(sd)
    }

    /// The starting state with seed `sd`, or with a fresh random seed when
    /// `sd` is 0.
    pub fn new_with_seed(sd: u16) -> (st: Self)
        ensures
            st.parts() == initial_parts(),
            st.agents@ == initial_agents(),
            st.seq@ == Seq::<Move>::empty(),
            sd != 0 ==> st.seed == sd,
    {
        let seed = if sd == 0 {
            random_seed()
        } else {
            sd
        };
        State::build(seed)
    }

    /// Moves `m.agent` to coalition `m.coa2` (to a new coalition when
    /// `m.coa2` is the number of coalitions): the agent is appended there,
    /// its first occurrence in its former coalition is swap-removed, and the
    /// former coalition is taken out if that left it empty.
    pub fn play(&mut self, m: Move)
        requires
            old(self).wf(),
            m.agent < N_AGENTS,
            m.coa2 <= old(self).coalitions.len(),
            old(self).coalitions.len() < MAX_COALITIONS,
        ensures
            final(self).parts() == moved_parts(old(self).parts(), old(self).agents@, m),
            final(self).agents@ == moved_agents(old(self).parts(), old(self).agents@, m),
            final(self).agents@[m.agent as int] as int == (if m.coa2 as int != old(self).agents@[m.agent as int] as int
                && old(self).parts()[old(self).agents@[m.agent as int] as int].len() == 1
                && m.coa2 as int > old(self).agents@[m.agent as int] as int { m.coa2 - 1 } else { m.coa2 as int }),
            ({
                let c1 = old(self).agents@[m.agent as int] as int;
                let c2 = m.coa2 as int;
                let gone = c2 != c1 && old(self).parts()[c1].len() == 1;
                let q = final(self).parts();
                let op = old(self).parts();
                &&& q.len() == op.len() + (if c2 == op.len() { 1int } else { 0int }) - (if gone { 1int } else { 0int })
                &&& forall|c: int|
                    0 <= c < op.len() && c != c1 && c != c2 ==> q[if gone && c > c1 { c - 1 } else { c }]
                        == #[trigger] op[c]
                &&& c2 != c1 ==> q[if gone && c2 > c1 { c2 - 1 } else { c2 }] == (if c2 < op.len() {
                    op[c2]
                } else {
                    Seq::<u32>::empty()
                }).push(m.agent)
                &&& !gone ==> q[c1].len() == op[c1].len() - (if c2 == c1 { 0int } else { 1int })
                &&& !gone ==> forall|x: u32|
                    #[trigger] count(q[c1], x) + (if x == m.agent && c2 != c1 { 1nat } else { 0nat })
                        == count(op[c1], x)
            }),
            final(self).wf(),
            forall|x: u32| occurrences(final(self).parts(), x) == occurrences(#[trigger] old(self).parts(), x),
            final(self).seq@ == old(self).seq@.push(m),
            final(self).seed == old(self).seed,
    {
        let ghost p = self.parts();
        let ghost g = self.agents@;
        proof {
            lemma_move(p, g, m);
            law_move_changes_only_source_and_target(p, g, m);
        }
        let coa1 = self.agents[m.agent as usize] as usize;
        if m.coa2 >= self.coalitions.len() {
            self.coalitions.push(Vec::new());
        }
        self.coalitions[m.coa2].push(m.agent);
        assert(self.parts() =~= pushed(p, m));
        let index = find_agent(&self.coalitions[coa1], m.agent);
        self.coalitions[coa1].swap_remove(index);
        assert(self.parts() =~= taken(p, g, m));
        self.agents[m.agent as usize] = m.coa2 as i16;
        let ghost g1 = self.agents@;
        assert(g1 == g.update(m.agent as int, m.coa2 as i16));
        if self.coalitions[coa1].len() == 0 {
            self.coalitions.remove(coa1);
            assert(emptied(p, g, m));
            assert(self.parts() =~= taken(p, g, m).remove(coa1 as int));
            let ghost pr = self.parts();
            let mut a: usize = 0;
            while a < N_AGENTS as usize
                invariant
                    a <= N_AGENTS,
                    coa1 < MAX_COALITIONS,
                    g1.len() == N_AGENTS,
                    self.parts() == pr,
                    self.seq@ == old(self).seq@,
                    self.seed == old(self).seed,
                    self.agents@ == Seq::new(
                        g1.len(),
                        |k: int|
                            if k < a && g1[k] >= coa1 as int {
                                (g1[k] - 1) as i16
                            } else {
                                g1[k]
                            },
                    ),
                decreases N_AGENTS - a,
            {
                if self.agents[a] >= coa1 as i16 {
                    self.agents[a] = self.agents[a] - 1;
                }
                a = a + 1;
                assert(self.agents@ =~= Seq::new(
                    g1.len(),
                    |k: int|
                        if k < a && g1[k] >= coa1 as int {
                            (g1[k] - 1) as i16
                        } else {
                            g1[k]
                        },
                ));
            }
            assert(self.parts() =~= moved_parts(p, g, m));
            assert(self.agents@ =~= moved_agents(p, g, m));
        } else {
            assert(!emptied(p, g, m));
        }
        self.seq.push(m);
    }

    /// For every agent, every source index `c1` and every target but `c1`
    /// up to one past the last coalition, the move of that agent to that
    /// target (see `listed_moves`).
    pub fn legal_moves(&self) -> (moves: Vec<Move>)
        requires
            self.coalitions.len() < usize::MAX,
        ensures
            moves@ == listed_moves(self.coalitions.len() as nat),
    {
        let n = self.coalitions.len();
        let mut vec: Vec<Move> = Vec::new();
        let mut agent: u32 = 0;
        while agent < N_AGENTS
            invariant
                n == self.coalitions.len(),
                n < usize::MAX,
                agent <= N_AGENTS,
                vec@ == agent_moves(agent as nat, n as nat),
            decreases N_AGENTS - agent,
        {
            let mut coa1: usize = 0;
            while coa1 < n
                invariant
                    n < usize::MAX,
                    agent < N_AGENTS,
                    coa1 <= n,
                    vec@ == agent_moves(agent as nat, n as nat) + move_rows(agent as nat, coa1 as nat, n as nat),
                decreases n - coa1,
            {
                let mut coa2: usize = 0;
                while coa2 < n + 1
                    invariant
                        n < usize::MAX,
                        agent < N_AGENTS,
                        coa1 < n,
                        coa2 <= n + 1,
                        vec@ == agent_moves(agent as nat, n as nat) + move_rows(agent as nat, coa1 as nat, n as nat)
                            + move_row(agent as nat, coa1 as nat, n as nat).take(
                            if coa2 <= coa1 { coa2 as int } else { coa2 - 1 },
                        ),
                    decreases n + 1 - coa2,
                {
                    if coa1 != coa2 {
                        let m1 = Move { agent: agent, coa2: coa2 };
                        vec.push(m1);
                    }
                    coa2 = coa2 + 1;
                    assert(vec@ =~= agent_moves(agent as nat, n as nat) + move_rows(agent as nat, coa1 as nat, n as nat)
                        + move_row(agent as nat, coa1 as nat, n as nat).take(
                        if coa2 <= coa1 { coa2 as int } else { coa2 - 1 },
                    ));
                }
                assert(move_row(agent as nat, coa1 as nat, n as nat).take(n as int) =~= move_row(
                    agent as nat,
                    coa1 as nat,
                    n as nat,
                ));
                coa1 = coa1 + 1;
            }
            agent = agent + 1;
        }
        vec
    }

    /// The two coalitions that moving agent `ag` to coalition `coa2` would
    /// give: its current coalition with `ag`'s first occurrence swap-removed,
    /// and coalition `coa2` (empty when `coa2` is past the end) with `ag`
    /// appended.
    pub fn move_candidates(&self, ag: u32, coa2: usize) -> (r: (Vec<u32>, Vec<u32>))
        requires
            self.wf(),
            ag < N_AGENTS,
            coa2 <= self.coalitions.len(),
        ensures
            r.0@ == candidate_source(self.parts(), self.agents@, ag),
            r.1@ == candidate_target(self.parts(), ag, coa2 as int),
    {
        let coa1 = self.agents[ag as usize] as usize;
        let mut new_coa1: Vec<u32> = self.coalitions[coa1].clone();
        assert(new_coa1@ =~= self.parts()[coa1 as int]);
        let index = find_agent(&new_coa1, ag);
        new_coa1.swap_remove(index);
        let mut new_coa2: Vec<u32> = if coa2 < self.coalitions.len() {
            let c = self.coalitions[coa2].clone();
            assert(c@ =~= self.parts()[coa2 as int]);
            c
        } else {
            Vec::new()
        };
        new_coa2.push(ag);
        (new_coa1, new_coa2)
    }

    /// Puts agent `a` in coalition `choices[a]` for every agent, over
    /// `random_groups()` coalitions, each listing its agents in increasing
    /// order.
    pub fn regroup(&mut self, choices: &Vec<usize>)
        requires
            choices.len() == N_AGENTS,
            forall|a: int| 0 <= a < N_AGENTS ==> #[trigger] choices@[a] < random_groups(),
            old(self).agents.len() >= N_AGENTS,
        ensures
            final(self).agents@ == Seq::new(
                old(self).agents@.len(),
                |a: int|
                    if a < N_AGENTS {
                        choices@[a] as i16
                    } else {
                        old(self).agents@[a]
                    },
            ),
            final(self).parts() == grouped(final(self).agents@, random_groups()),
            final(self).seq@ == old(self).seq@,
            final(self).seed == old(self).seed,
    {
        let coa_num: usize = (N_AGENTS / 5) as usize;
        let mut coalitions: Vec<Vec<u32>> = Vec::new();
        let mut c: usize = 0;
        while c < coa_num
            invariant
                c <= coa_num,
                coalitions@.len() == c,
                coa_num == random_groups(),
                parts_of(coalitions@) == Seq::new(c as nat, |k: int| Seq::<u32>::empty()),
            decreases coa_num - c,
        {
            let ghost before = coalitions@;
            let e: Vec<u32> = Vec::new();
            assert(e@ =~= Seq::<u32>::empty());
            coalitions.push(e);
            c = c + 1;
            assert forall|k: int| 0 <= k < c implies #[trigger] parts_of(coalitions@)[k] == Seq::<u32>::empty() by {
                if k < c - 1 {
                    assert(coalitions@[k] == before[k]);
                    assert(parts_of(before)[k] == Seq::<u32>::empty());
                }
            }
            assert(parts_of(coalitions@) =~= Seq::new(c as nat, |k: int| Seq::<u32>::empty()));
        }
        self.coalitions = coalitions;
        let ghost g0 = self.agents@;
        let mut a: u32 = 0;
        while a < N_AGENTS
            invariant
                a <= N_AGENTS,
                coa_num == random_groups(),
                choices.len() == N_AGENTS,
                forall|b: int| 0 <= b < N_AGENTS ==> #[trigger] choices@[b] < random_groups(),
                self.coalitions.len() == coa_num,
                self.agents@.len() == g0.len(),
                g0.len() >= N_AGENTS,
                self.agents@ == Seq::new(
                    g0.len(),
                    |b: int|
                        if b < a {
                            choices@[b] as i16
                        } else {
                            g0[b]
                        },
                ),
                self.parts() == Seq::new(coa_num as nat, |k: int| members(self.agents@, k, a as nat)),
                self.seq@ == old(self).seq@,
                self.seed == old(self).seed,
            decreases N_AGENTS - a,
        {
            let coa = choices[a as usize];
            let ghost before = self.agents@;
            let ghost pb = self.parts();
            self.coalitions[coa].push(a);
            assert(self.parts() =~= pb.update(coa as int, pb[coa as int].push(a)));
            self.agents[a as usize] = coa as i16;
            a = a + 1;
            assert(self.agents@ =~= Seq::new(
                g0.len(),
                |b: int|
                    if b < a {
                        choices@[b] as i16
                    } else {
                        g0[b]
                    },
            ));
            assert forall|k: int| 0 <= k < coa_num implies #[trigger] self.parts()[k] == members(self.agents@, k, a as nat) by {
                lemma_members_prefix(before, self.agents@, k, (a - 1) as nat);
            }
            assert(self.parts() =~= Seq::new(coa_num as nat, |k: int| members(self.agents@, k, a as nat)));
        }
        assert(self.parts() =~= grouped(self.agents@, random_groups()));
    }

    /// Spreads the agents at random over `random_groups()` coalitions, each
    /// agent's coalition drawn independently with `rand`.
    pub fn randomize(&mut self)
        requires
            old(self).agents.len() >= N_AGENTS,
        ensures
            final(self).agents@.len() == old(self).agents@.len(),
            forall|a: int| N_AGENTS <= a < old(self).agents@.len() ==> final(self).agents@[a] == old(self).agents@[a],
            forall|a: int| 0 <= a < N_AGENTS ==> 0 <= #[trigger] final(self).agents@[a] < random_groups(),
            final(self).parts() == grouped(final(self).agents@, random_groups()),
            final(self).seq@ == old(self).seq@,
            final(self).seed == old(self).seed,
    {
        let coa_num: usize = (N_AGENTS / 5) as usize;
        let mut choices: Vec<usize> = Vec::new();
        let mut a: u32 = 0;
        while a < N_AGENTS
            invariant
                a <= N_AGENTS,
                coa_num == random_groups(),
                choices.len() == a,
                forall|b: int| 0 <= b < a ==> #[trigger] choices@[b] < random_groups(),
            decreases N_AGENTS - a,
        {
            let c = crate::randomness::random_index(coa_num);
            choices.push(c);
            a = a + 1;
        }
        self.regroup(&choices);
    }

    /// Whether all agents are in one coalition.
    pub fn terminal(&self) -> (b: bool)
        ensures
            b == (self.coalitions.len() == 1),
    {
        self.coalitions.len() == 1
    }
}

/// Setting the entry of agent `a` to `k` appends `a` to group `k` of the
/// agents `0 .. a + 1`, and leaves the other groups as they were.
proof fn lemma_members_prefix(before: Seq<i16>, after: Seq<i16>, k: int, a: nat)
    requires
        a < before.len(),
        after.len() == before.len(),
        forall|b: int| 0 <= b < before.len() && b != a ==> after[b] == before[b],
    ensures
        members(after, k, (a + 1) as nat) == if after[a as int] as int == k {
            members(before, k, a).push(a as u32)
        } else {
            members(before, k, a)
        },
{
    lemma_members_same(before, after, k, a);
}

proof fn lemma_members_same(g: Seq<i16>, h: Seq<i16>, k: int, n: nat)
    requires
        n <= g.len(),
        n <= h.len(),
        forall|b: int| 0 <= b < n ==> g[b] == h[b],
    ensures
        members(g, k, n) == members(h, k, n),
    decreases n,
{
    if n > 0 {
        lemma_members_same(g, h, k, (n - 1) as nat);
    }
}

/// The groups of a new state: the singletons `[0] .. [N_AGENTS - 1]`, twice over.
pub open spec fn initial_parts() -> Seq<Seq<u32>> {
    singletons(N_AGENTS as nat) + singletons(N_AGENTS as nat)
}

/// The assignment of a new state: agent `a` in coalition `a`.
pub open spec fn initial_agents() -> Seq<i16> {
    Seq::new(N_AGENTS as nat, |k: int| k as i16)
}

/// A new state is well formed, and holds every agent twice: once in each
/// of the two runs of singleton coalitions.
pub proof fn law_initial_state(x: u32)
    ensures
        well_formed(initial_parts(), initial_agents()),
        occurrences(initial_parts(), x) == if x < N_AGENTS { 2nat } else { 0nat },
{
    lemma_occurrences_concat(singletons(N_AGENTS as nat), singletons(N_AGENTS as nat), x);
    lemma_occurrences_singletons(N_AGENTS as nat, x);
    assert forall|a: int| 0 <= a < N_AGENTS implies 0 <= #[trigger] initial_agents()[a]
        < initial_parts().len() && initial_parts()[initial_agents()[a] as int].contains(a as u32) by {
        assert(initial_parts()[a][0] == a as u32);
    }
}

proof fn lemma_members_contains(g: Seq<i16>, a: int, n: nat)
    requires
        0 <= a < n <= g.len(),
        n <= N_AGENTS,
    ensures
        members(g, g[a] as int, n).contains(a as u32),
    decreases n,
{
    if a == n - 1 {
        let s = members(g, g[a] as int, n);
        assert(s[s.len() - 1] == a as u32);
    } else {
        lemma_members_contains(g, a, (n - 1) as nat);
        let s = members(g, g[a] as int, (n - 1) as nat);
        let i = choose|i: int| 0 <= i < s.len() && s[i] == a as u32;
        if g[n - 1] as int == g[a] as int {
            assert(members(g, g[a] as int, n)[i] == a as u32);
        }
    }
}

proof fn lemma_grouped_prefix_occurrences(g: Seq<i16>, k: nat, n: nat, x: u32)
    requires
        n <= g.len(),
        n <= N_AGENTS,
        forall|a: int| 0 <= a < n ==> 0 <= #[trigger] g[a] < k,
    ensures
        occurrences(Seq::new(k, |c: int| members(g, c, n)), x) == if x < n { 1nat } else { 0nat },
    decreases n,
{
    let gn = Seq::new(k, |c: int| members(g, c, n));
    if n == 0 {
        lemma_occurrences_of_empties(k, x);
        assert(gn =~= Seq::new(k, |c: int| Seq::<u32>::empty()));
    } else {
        let n1 = (n - 1) as nat;
        lemma_grouped_prefix_occurrences(g, k, n1, x);
        let gp = Seq::new(k, |c: int| members(g, c, n1));
        let c = g[n1 as int] as int;
        assert(gn =~= gp.update(c, gp[c].push(n1 as u32)));
        lemma_occurrences_update(gp, c, gp[c].push(n1 as u32), x);
        lemma_count_push(gp[c], n1 as u32, x);
    }
}

proof fn lemma_occurrences_of_empties(k: nat, x: u32)
    ensures
        occurrences(Seq::new(k, |c: int| Seq::<u32>::empty()), x) == 0,
    decreases k,
{
    if k > 0 {
        lemma_occurrences_of_empties((k - 1) as nat, x);
        assert(Seq::new(k, |c: int| Seq::<u32>::empty()).drop_last() =~= Seq::new(
            (k - 1) as nat,
            |c: int| Seq::<u32>::empty(),
        ));
    }
}

/// The coalitions that an assignment of the agents to `k` coalitions
/// describes hold every agent exactly once, and the assignment points each
/// agent to a coalition that holds it; this is what `State::regroup` and
/// `State::randomize` leave.
pub proof fn law_grouped_is_partition(g: Seq<i16>, k: nat)
    requires
        g.len() == N_AGENTS,
        k <= MAX_COALITIONS,
        forall|a: int| 0 <= a < N_AGENTS ==> 0 <= #[trigger] g[a] < k,
    ensures
        is_partition(grouped(g, k), N_AGENTS as nat),
        well_formed(grouped(g, k), g),
{
    assert forall|x: u32| #[trigger] occurrences(grouped(g, k), x) == if x < N_AGENTS { 1nat } else { 0nat } by {
        lemma_grouped_prefix_occurrences(g, k, N_AGENTS as nat, x);
    }
    assert forall|a: int| 0 <= a < N_AGENTS implies 0 <= #[trigger] g[a] < grouped(g, k).len()
        && grouped(g, k)[g[a] as int].contains(a as u32) by {
        lemma_members_contains(g, a, N_AGENTS as nat);
    }
}

proof fn lemma_move_row_contains(agent: nat, c1: nat, n: nat, m: Move)
    requires
        agent < N_AGENTS,
        c1 < n < usize::MAX,
    ensures
        move_row(agent, c1, n).contains(m) <==> (m.agent == agent && m.coa2 <= n && m.coa2 != c1),
{
    let r = move_row(agent, c1, n);
    if m.agent == agent && m.coa2 <= n && m.coa2 != c1 {
        let k: int = if m.coa2 < c1 { m.coa2 as int } else { m.coa2 - 1 };
        assert(r[k] == m);
    }
}

proof fn lemma_move_rows_contains(agent: nat, c: nat, n: nat, m: Move)
    requires
        agent < N_AGENTS,
        c <= n < usize::MAX,
    ensures
        move_rows(agent, c, n).contains(m) <==> (m.agent == agent && m.coa2 <= n && c > 0 && !(c
            == 1 && m.coa2 == 0)),
    decreases c,
{
    if c > 0 {
        let c1 = (c - 1) as nat;
        lemma_move_rows_contains(agent, c1, n, m);
        lemma_move_row_contains(agent, c1, n, m);
        lemma_concat_contains(move_rows(agent, c1, n), move_row(agent, c1, n), m);
    }
}

proof fn lemma_agent_moves_contains(a: nat, n: nat, m: Move)
    requires
        a <= N_AGENTS,
        n < usize::MAX,
    ensures
        agent_moves(a, n).contains(m) <==> (m.agent < a && m.coa2 <= n && n > 0 && !(n == 1
            && m.coa2 == 0)),
    decreases a,
{
    if a > 0 {
        let a1 = (a - 1) as nat;
        lemma_agent_moves_contains(a1, n, m);
        lemma_move_rows_contains(a1, n, n, m);
        lemma_concat_contains(agent_moves(a1, n), move_rows(a1, n, n), m);
    }
}

/// A move is listed among the legal moves of a state with `n` coalitions
/// exactly when its agent is one of the `N_AGENTS` agents, its target is at
/// most `n` (`n` meaning a new coalition), and some source index below `n`
/// differs from the target. Every listed move thus meets what `State::play`
/// requires of a move.
pub proof fn law_listed_moves(n: nat, m: Move)
    requires
        n < usize::MAX,
    ensures
        listed_moves(n).contains(m) <==> (m.agent < N_AGENTS && m.coa2 <= n && n > 0 && !(n == 1
            && m.coa2 == 0)),
{
    lemma_agent_moves_contains(N_AGENTS as nat, n, m);
}

/// Agent `ag`'s current coalition without `ag`'s first occurrence
/// (swap-removed).
pub open spec fn candidate_source(p: Seq<Seq<u32>>, g: Seq<i16>, ag: u32) -> Seq<u32> {
    let c1 = g[ag as int] as int;
    swap_removed(p[c1], first_index(p[c1], ag))
}

/// Coalition `c2` (empty when past the end) with agent `ag` appended.
pub open spec fn candidate_target(p: Seq<Seq<u32>>, ag: u32, c2: int) -> Seq<u32> {
    (if c2 < p.len() { p[c2] } else { Seq::<u32>::empty() }).push(ag)
}

/// The coalitions that `State::move_candidates` evaluates are the ones that
/// playing the move to another coalition gives: the target coalition after
/// the move is the target candidate, and the source coalition is the source
/// candidate, unless that candidate is empty, in which case the source
/// coalition is gone.
pub proof fn law_candidates_are_played_coalitions(p: Seq<Seq<u32>>, g: Seq<i16>, m: Move)
    requires
        well_formed(p, g),
        m.agent < N_AGENTS,
        m.coa2 <= p.len(),
        p.len() < MAX_COALITIONS,
        m.coa2 != g[m.agent as int],
    ensures
        ({
            let c1 = source(g, m);
            let c2 = m.coa2 as int;
            let q = moved_parts(p, g, m);
            &&& candidate_source(p, g, m.agent).len() > 0 ==> q[c1] == candidate_source(p, g, m.agent)
                && q[c2] == candidate_target(p, m.agent, c2)
            &&& candidate_source(p, g, m.agent).len() == 0 ==> q.len() == p.len() + (if c2 == p.len() { 1int } else { 0int }) - 1
                && q[if c2 > c1 { c2 - 1 } else { c2 }] == candidate_target(p, m.agent, c2)
        }),
{
    let c1 = source(g, m);
    let c2 = m.coa2 as int;
    lemma_move(p, g, m);
    let p1 = if m.coa2 >= p.len() { p.push(Seq::empty()) } else { p };
    let p2 = pushed(p, m);
    assert(p2[c1] == p[c1]);
    assert(p2[c2] == candidate_target(p, m.agent, c2));
    assert(taken(p, g, m)[c1] == candidate_source(p, g, m.agent));
}

/// A move changes only its source and target coalitions. The number of
/// coalitions grows by one exactly when the target is the new coalition
/// (`m.coa2 == p.len()`) and shrinks by one exactly when the agent was alone
/// in its source (which is then taken out, later indices moving down by
/// one). Every other coalition is left as it was; the target ends with the
/// agent appended; a source that stays loses exactly one occurrence of the
/// agent (none when the target is the source itself).
pub proof fn law_move_changes_only_source_and_target(p: Seq<Seq<u32>>, g: Seq<i16>, m: Move)
    requires
        well_formed(p, g),
        m.agent < N_AGENTS,
        m.coa2 <= p.len(),
        p.len() < MAX_COALITIONS,
    ensures
        ({
            let c1 = g[m.agent as int] as int;
            let c2 = m.coa2 as int;
            let gone = c2 != c1 && p[c1].len() == 1;
            let q = moved_parts(p, g, m);
            &&& q.len() == p.len() + (if c2 == p.len() { 1int } else { 0int }) - (if gone { 1int } else { 0int })
            &&& forall|c: int|
                0 <= c < p.len() && c != c1 && c != c2 ==> q[if gone && c > c1 { c - 1 } else { c }]
                    == #[trigger] p[c]
            &&& c2 != c1 ==> q[if gone && c2 > c1 { c2 - 1 } else { c2 }] == (if c2 < p.len() {
                p[c2]
            } else {
                Seq::<u32>::empty()
            }).push(m.agent)
            &&& !gone ==> q[c1].len() == p[c1].len() - (if c2 == c1 { 0int } else { 1int })
            &&& !gone ==> forall|x: u32|
                #[trigger] count(q[c1], x) + (if x == m.agent && c2 != c1 { 1nat } else { 0nat })
                    == count(p[c1], x)
            &&& moved_agents(p, g, m)[m.agent as int] as int == if gone && c2 > c1 { c2 - 1 } else { c2 }
        }),
{
    let ag = m.agent;
    let c1 = g[ag as int] as int;
    let c2 = m.coa2 as int;
    let gone = c2 != c1 && p[c1].len() == 1;
    lemma_move(p, g, m);
    let p1 = if m.coa2 >= p.len() { p.push(Seq::empty()) } else { p };
    let p2 = pushed(p, m);
    let p3 = taken(p, g, m);
    let q = moved_parts(p, g, m);
    assert(p1[c1] == p[c1]);
    lemma_first_index(p2[c1], ag);
    let fi = first_index(p2[c1], ag);
    assert(p3[c1] == swap_removed(p2[c1], fi));
    assert(p3[c1].len() == p2[c1].len() - 1);
    assert(p[c1].len() >= 1) by {
        let i = choose|i: int| 0 <= i < p[c1].len() && p[c1][i] == ag;
    }
    if c2 == c1 {
        assert(p2[c1] == p[c1].push(ag));
    } else {
        assert(p2[c1] == p[c1]);
    }
    assert(emptied(p, g, m) == gone);
    assert forall|c: int| 0 <= c < p.len() && c != c1 && c != c2 implies q[if gone && c > c1 { c - 1 } else { c }]
        == #[trigger] p[c] by {
        assert(p3[c] == p[c]);
    }
    if c2 != c1 {
        assert(p3[c2] == p1[c2].push(ag));
    }
    if !gone {
        assert forall|x: u32| #[trigger] count(q[c1], x) + (if x == ag && c2 != c1 { 1nat } else { 0nat })
            == count(p[c1], x) by {
            lemma_count_swap_remove(p2[c1], fi, x);
            if c2 == c1 {
                lemma_count_push(p[c1], ag, x);
            }
        }
    }
}

} // verus!
