//! The dependency graph of a schedule and its levels.
//!
//! The levels are those of Kahn's algorithm run in rounds: a round takes
//! every node that has no predecessor left among the nodes not yet taken.
//! If a round finds no such node, a cycle holds the rest back; the rest then
//! forms one last level.

use crate::bits::{lemma_seq_sum_bounds, lemma_seq_sum_update, seq_sum};
use vstd::prelude::*;

verus! {

/// Marks a node that no round has taken yet.
pub const UNASSIGNED: usize = usize::MAX;

/// A directed graph on the nodes `0..n`.
pub struct DependencyGraph {
    pub n: usize,
    /// `edges[a][b]` is set iff there is an edge from `a` to `b`.
    pub edges: Vec<Vec<bool>>,
}

/// The levels of a graph: for every node the round that took it, the number
/// of rounds that took a node, and whether a cycle held nodes back.
pub struct Levels {
    pub level: Vec<usize>,
    pub rounds: usize,
    pub cyclic: bool,
}

impl DependencyGraph {
    /// The edge table is square, one row and one column for every node.
    pub open spec fn wf(&self) -> bool {
        &&& self.edges.len() == self.n
        &&& forall|a: int| 0 <= a < self.n ==> (#[trigger] self.edges[a]).len() == self.n
    }

    /// There is an edge from `a` to `b`.
    pub open spec fn edge(&self, a: int, b: int) -> bool {
        0 <= a < self.n && 0 <= b < self.n && self.edges[a][b]
    }

    /// A graph on `n` nodes without edges.
    pub fn new(n: usize) -> (g: Self)
        ensures
            g.wf(),
            g.n == n,
            forall|a: int, b: int| !g.edge(a, b),
    {
        let mut edges: Vec<Vec<bool>> = Vec::new();
        let mut a: usize = 0;
        while a < n
            invariant
                a <= n,
                edges.len() == a,
                forall|i: int| 0 <= i < a ==> (#[trigger] edges[i]).len() == n,
                forall|i: int, j: int| 0 <= i < a && 0 <= j < n ==> !(#[trigger] edges[i][j]),
            decreases n - a,
        {
            let mut row: Vec<bool> = Vec::new();
            let mut b: usize = 0;
            while b < n
                invariant
                    b <= n,
                    row.len() == b,
                    forall|j: int| 0 <= j < b ==> !(#[trigger] row[j]),
                decreases n - b,
            {
                row.push(false);
                b += 1;
            }
            edges.push(row);
            a += 1;
        }
        DependencyGraph { n, edges }
    }

    /// Adds the edge from `from` to `to`; a pair outside the graph adds
    /// nothing, and an edge that is there stays.
    pub fn add_edge(&mut self, from: usize, to: usize)
        requires
            old(self).wf(),
        ensures
            final(self).wf(),
            final(self).n == old(self).n,
            forall|a: int, b: int|
                #[trigger] final(self).edge(a, b) == (old(self).edge(a, b) || (a == from && b == to && from
                    < old(self).n && to < old(self).n)),
    {
        if from < self.n && to < self.n {
            self.edges[from][to] = true;
        }
    }

}

/// How many nodes no round has taken yet.
pub open spec fn pending(level: Seq<usize>) -> nat {
    seq_sum(
        Seq::new(
            level.len(),
            |v: int|
                if level[v] == UNASSIGNED {
                    1nat
                } else {
                    0nat
                },
        ),
    )
}

/// Some node is on level `r`.
pub open spec fn has_level(level: Seq<usize>, r: int) -> bool {
    exists|v: int| 0 <= v < level.len() && #[trigger] level[v] == r
}

/// Every predecessor of `v` is on an earlier level than `v`.
pub open spec fn preds_earlier(edge: spec_fn(int, int) -> bool, level: Seq<usize>, v: int) -> bool {
    forall|a: int| #[trigger] edge(a, v) ==> level[a] < level[v]
}

/// Some predecessor of `v` is on the level just before that of `v`.
pub open spec fn pred_below(edge: spec_fn(int, int) -> bool, level: Seq<usize>, v: int) -> bool {
    exists|a: int| #[trigger] edge(a, v) && level[a] + 1 == level[v]
}

/// Some predecessor of `v` is on the level of `v`.
pub open spec fn pred_beside(edge: spec_fn(int, int) -> bool, level: Seq<usize>, v: int) -> bool {
    exists|a: int| #[trigger] edge(a, v) && level[a] == level[v]
}

/// The levels are those of the graph with the nodes `0..n` and the given
/// edges.
///
/// Every node has a level. The levels below `rounds` are regular: a node
/// on a regular level has every predecessor on an earlier level, and, unless
/// its level is the first, one of them on the level just before, so a node
/// is taken in the first round that finds it free. Without a cycle every
/// level is regular. With one, the nodes that no round could take share the
/// level `rounds`, and each of them has a predecessor among them.
pub open spec fn levels_of(
    n: int,
    edge: spec_fn(int, int) -> bool,
    level: Seq<usize>,
    rounds: int,
    cyclic: bool,
) -> bool {
    &&& level.len() == n
    &&& 0 <= rounds <= n
    &&& forall|v: int| 0 <= v < n ==> #[trigger] level[v] <= rounds
    &&& !cyclic ==> forall|v: int| 0 <= v < n ==> #[trigger] level[v] < rounds
    &&& cyclic ==> has_level(level, rounds)
    &&& forall|v: int| 0 <= v < n && level[v] < rounds ==> #[trigger] preds_earlier(edge, level, v)
    &&& forall|v: int| 0 <= v < n && 0 < level[v] < rounds ==> #[trigger] pred_below(edge, level, v)
    &&& forall|v: int| 0 <= v < n && level[v] == rounds ==> #[trigger] pred_beside(edge, level, v)
    &&& forall|r: int| 0 <= r < rounds ==> #[trigger] has_level(level, r)
}

impl DependencyGraph {
    /// The edges as a relation on node numbers.
    pub open spec fn edge_relation(&self) -> spec_fn(int, int) -> bool {
        |a: int, b: int| self.edge(a, b)
    }

    /// Node `v` is free in round `round`: every predecessor was taken in an
    /// earlier round.
    pub open spec fn free(&self, level: Seq<usize>, v: int, round: int) -> bool {
        forall|a: int| #[trigger] self.edge(a, v) ==> level[a] < round
    }

    /// Some predecessor of `v` keeps it from round `round`.
    pub open spec fn held(&self, level: Seq<usize>, v: int, round: int) -> bool {
        exists|a: int| #[trigger] self.edge(a, v) && !(level[a] < round)
    }

    /// Some predecessor of `v` was not yet taken when round `round - 1` began.
    pub open spec fn waited(&self, level: Seq<usize>, v: int, round: int) -> bool {
        exists|a: int| #[trigger] self.edge(a, v) && (level[a] == UNASSIGNED || level[a] + 1 == round)
    }

    /// What holds of the levels before round `round` starts.
    pub open spec fn round_inv(&self, level: Seq<usize>, round: int) -> bool {
        &&& level.len() == self.n
        &&& forall|i: int| 0 <= i < self.n ==> #[trigger] level[i] == UNASSIGNED || level[i] < round
        &&& forall|i: int|
            0 <= i < self.n && level[i] < round ==> #[trigger] preds_earlier(self.edge_relation(), level, i)
        &&& forall|i: int|
            0 <= i < self.n && 0 < level[i] < round ==> #[trigger] pred_below(self.edge_relation(), level, i)
        &&& round > 0 ==> forall|i: int|
            0 <= i < self.n && level[i] == UNASSIGNED ==> #[trigger] self.waited(level, i, round)
        &&& forall|r: int| 0 <= r < round ==> #[trigger] has_level(level, r)
    }

    /// Round `round` took `after` from `before`: it gave the level `round`
    /// to exactly the nodes that were free and not yet taken.
    pub open spec fn round_took(&self, before: Seq<usize>, after: Seq<usize>, round: int) -> bool {
        &&& before.len() == self.n
        &&& after.len() == self.n
        &&& forall|i: int|
            0 <= i < self.n ==> #[trigger] after[i] == (if before[i] == UNASSIGNED && self.free(
                before,
                i,
                round,
            ) {
                round as usize
            } else {
                before[i]
            })
    }

    proof fn lemma_round_step(&self, before: Seq<usize>, after: Seq<usize>, round: int, w: int)
        requires
            self.wf(),
            0 <= round < self.n,
            self.n < usize::MAX,
            self.round_inv(before, round),
            self.round_took(before, after, round),
            0 <= w < self.n,
            after[w] == round,
        ensures
            self.round_inv(after, round + 1),
    {
        let e = self.edge_relation();
        assert forall|i: int| 0 <= i < self.n && after[i] < round + 1 implies #[trigger] preds_earlier(
            e,
            after,
            i,
        ) by {
            assert forall|a: int| #[trigger] e(a, i) implies after[a] < after[i] by {
                assert(self.edge(a, i));
                if before[i] == UNASSIGNED {
                    assert(self.free(before, i, round));
                    assert(before[a] < round);
                    assert(after[a] == before[a]);
                } else {
                    assert(preds_earlier(e, before, i));
                    assert(before[a] < before[i]);
                    assert(after[a] == before[a]);
                }
            }
        }
        assert forall|i: int| 0 <= i < self.n && 0 < after[i] < round + 1 implies #[trigger] pred_below(
            e,
            after,
            i,
        ) by {
            if before[i] == UNASSIGNED {
                assert(self.waited(before, i, round));
                let a = choose|a: int|
                    #[trigger] self.edge(a, i) && (before[a] == UNASSIGNED || before[a] + 1 == round);
                assert(self.free(before, i, round));
                assert(before[a] < round);
                assert(after[a] == before[a]);
                assert(e(a, i) && after[a] + 1 == after[i]);
            } else {
                assert(pred_below(e, before, i));
                let a = choose|a: int| #[trigger] e(a, i) && before[a] + 1 == before[i];
                assert(after[a] == before[a]);
                assert(e(a, i) && after[a] + 1 == after[i]);
            }
        }
        assert forall|i: int| 0 <= i < self.n && after[i] == UNASSIGNED implies #[trigger] self.waited(
            after,
            i,
            round + 1,
        ) by {
            assert(before[i] == UNASSIGNED);
            assert(!self.free(before, i, round));
            let a = choose|a: int| #[trigger] self.edge(a, i) && !(before[a] < round);
            assert(before[a] == UNASSIGNED);
            assert(self.edge(a, i) && (after[a] == UNASSIGNED || after[a] + 1 == round + 1));
        }
        assert forall|r: int| 0 <= r < round + 1 implies #[trigger] has_level(after, r) by {
            if r < round {
                assert(has_level(before, r));
                let i = choose|i: int| 0 <= i < before.len() && #[trigger] before[i] == r;
                assert(after[i] == r);
            } else {
                assert(after[w] == r);
            }
        }
    }

    proof fn lemma_round_done(&self, level: Seq<usize>, round: int)
        requires
            self.wf(),
            0 <= round <= self.n,
            self.round_inv(level, round),
            forall|i: int| 0 <= i < self.n ==> #[trigger] level[i] != UNASSIGNED,
        ensures
            levels_of(self.n as int, self.edge_relation(), level, round, false),
    {
    }

    proof fn lemma_round_cyclic(&self, before: Seq<usize>, after: Seq<usize>, round: int, w: int)
        requires
            self.wf(),
            0 <= round < self.n,
            self.n < usize::MAX,
            self.round_inv(before, round),
            forall|i: int| 0 <= i < self.n && before[i] == UNASSIGNED ==> #[trigger] self.held(before, i, round),
            after.len() == self.n,
            forall|i: int|
                0 <= i < self.n ==> #[trigger] after[i] == (if before[i] == UNASSIGNED {
                    round as usize
                } else {
                    before[i]
                }),
            0 <= w < self.n,
            before[w] == UNASSIGNED,
        ensures
            levels_of(self.n as int, self.edge_relation(), after, round, true),
    {
        let e = self.edge_relation();
        assert(after[w] == round);
        assert(has_level(after, round));
        assert forall|v: int| 0 <= v < self.n && after[v] < round implies #[trigger] preds_earlier(e, after, v) by {
            assert(preds_earlier(e, before, v));
            assert forall|a: int| #[trigger] e(a, v) implies after[a] < after[v] by {
                assert(before[a] < before[v]);
            }
        }
        assert forall|v: int| 0 <= v < self.n && 0 < after[v] < round implies #[trigger] pred_below(e, after, v) by {
            assert(pred_below(e, before, v));
            let a = choose|a: int| #[trigger] e(a, v) && before[a] + 1 == before[v];
            assert(e(a, v) && after[a] + 1 == after[v]);
        }
        assert forall|v: int| 0 <= v < self.n && after[v] == round implies #[trigger] pred_beside(e, after, v) by {
            assert(before[v] == UNASSIGNED);
            assert(self.held(before, v, round));
            let a = choose|a: int| #[trigger] self.edge(a, v) && !(before[a] < round);
            assert(before[a] == UNASSIGNED);
            assert(e(a, v) && after[a] == after[v]);
        }
        assert forall|r: int| 0 <= r < round implies #[trigger] has_level(after, r) by {
            assert(has_level(before, r));
            let i = choose|i: int| 0 <= i < before.len() && #[trigger] before[i] == r;
            assert(after[i] == r);
        }
    }

    /// Whether every predecessor of `v` was taken before round `round`.
    fn is_free(&self, level: &Vec<usize>, v: usize, round: usize) -> (r: bool)
        requires
            self.wf(),
            level.len() == self.n,
            v < self.n,
        ensures
            r == self.free(level@, v as int, round as int),
    {
        let mut a: usize = 0;
        while a < self.n
            invariant
                self.wf(),
                level.len() == self.n,
                v < self.n,
                a <= self.n,
                forall|b: int| 0 <= b < a && #[trigger] self.edge(b, v as int) ==> level[b] < round,
            decreases self.n - a,
        {
            if self.edges[a][v] && !(level[a] < round) {
                assert(self.edge(a as int, v as int));
                return false;
            }
            a += 1;
        }
        true
    }

    /// Runs one round: gives the level `round` to every node that is free
    /// and not yet taken, and says how many there were.
    fn take_round(&self, level: &mut Vec<usize>, round: usize) -> (found: usize)
        requires
            self.wf(),
            old(level).len() == self.n,
            round < UNASSIGNED,
            forall|i: int| 0 <= i < self.n ==> #[trigger] old(level)[i] == UNASSIGNED || old(level)[i] < round,
        ensures
            self.round_took(old(level)@, final(level)@, round as int),
            pending(final(level)@) + found == pending(old(level)@),
            found > 0 ==> exists|w: int| 0 <= w < self.n && #[trigger] final(level)[w] == round,
            found == 0 ==> final(level)@ == old(level)@,
    {
        let n = self.n;
        let mut found: usize = 0;
        let mut v: usize = 0;
        while v < n
            invariant
                self.wf(),
                n == self.n,
                round < UNASSIGNED,
                level.len() == n,
                old(level).len() == n,
                v <= n,
                found <= v,
                pending(level@) + found == pending(old(level)@),
                found > 0 ==> exists|w: int| 0 <= w < n && #[trigger] level[w] == round,
                found == 0 ==> level@ == old(level)@,
                forall|i: int| 0 <= i < n ==> #[trigger] old(level)[i] == UNASSIGNED || old(level)[i] < round,
                forall|i: int|
                    0 <= i < v ==> #[trigger] level[i] == (if old(level)[i] == UNASSIGNED && self.free(
                        old(level)@,
                        i,
                        round as int,
                    ) {
                        round
                    } else {
                        old(level)[i]
                    }),
                forall|i: int| v <= i < n ==> #[trigger] level[i] == old(level)[i],
            decreases n - v,
        {
            let ghost before = level@;
            proof {
                assert forall|a: int| #[trigger] self.edge(a, v as int) implies (before[a] < round) == (old(
                    level,
                )[a] < round) by {}
                assert(self.free(before, v as int, round as int) == self.free(old(level)@, v as int, round as int));
            }
            if level[v] == UNASSIGNED {
                if self.is_free(level, v, round) {
                    level[v] = round;
                    proof {
                        let ind0 = Seq::new(
                            before.len(),
                            |i: int|
                                if before[i] == UNASSIGNED {
                                    1nat
                                } else {
                                    0nat
                                },
                        );
                        let ind1 = Seq::new(
                            level@.len(),
                            |i: int|
                                if level@[i] == UNASSIGNED {
                                    1nat
                                } else {
                                    0nat
                                },
                        );
                        assert(ind1 =~= ind0.update(v as int, 0nat));
                        lemma_seq_sum_update(ind0, v as int, 0nat);
                        assert(level[v as int] == round);
                    }
                    found += 1;
                }
            }
            v += 1;
        }
        found
    }

    /// Levels the graph with Kahn's algorithm in rounds.
    pub fn topological_levels(&self) -> (out: Levels)
        requires
            self.wf(),
            self.n < usize::MAX,
        ensures
            levels_of(self.n as int, self.edge_relation(), out.level@, out.rounds as int, out.cyclic),
    {
        let n = self.n;
        let mut level: Vec<usize> = Vec::new();
        let mut v: usize = 0;
        while v < n
            invariant
                v <= n,
                level.len() == v,
                forall|i: int| 0 <= i < v ==> #[trigger] level[i] == UNASSIGNED,
            decreases n - v,
        {
            level.push(UNASSIGNED);
            v += 1;
        }
        let mut left: usize = n;
        let mut round: usize = 0;
        proof {
            let ind = Seq::new(
                level@.len(),
                |v: int|
                    if level@[v] == UNASSIGNED {
                        1nat
                    } else {
                        0nat
                    },
            );
            assert forall|j: int| 0 <= j < ind.len() implies #[trigger] ind[j] == 1 by {}
            lemma_seq_sum_bounds(ind, 1);
        }
        while left > 0
            invariant
                self.wf(),
                n == self.n,
                n < usize::MAX,
                level.len() == n,
                left == pending(level@),
                round + left <= n,
                self.round_inv(level@, round as int),
            decreases left,
        {
            let ghost start = level@;
            let found = self.take_round(&mut level, round);
            if found == 0 {
                let mut w: usize = 0;
                while w < n
                    invariant
                        level.len() == n,
                        start.len() == n,
                        w <= n,
                        round < n,
                        forall|i: int|
                            0 <= i < n ==> #[trigger] level[i] == (if i < w && start[i] == UNASSIGNED {
                                round
                            } else {
                                start[i]
                            }),
                    decreases n - w,
                {
                    if level[w] == UNASSIGNED {
                        level[w] = round;
                    }
                    w += 1;
                }
                proof {
                    let ind = Seq::new(
                        start.len(),
                        |i: int|
                            if start[i] == UNASSIGNED {
                                1nat
                            } else {
                                0nat
                            },
                    );
                    lemma_seq_sum_bounds(ind, 1);
                    let x = choose|x: int| 0 <= x < ind.len() && #[trigger] ind[x] != 0;
                    assert(start[x] == UNASSIGNED);
                    assert forall|i: int| 0 <= i < self.n && start[i] == UNASSIGNED implies #[trigger] self.held(
                        start,
                        i,
                        round as int,
                    ) by {
                        assert(start[i] == (if start[i] == UNASSIGNED && self.free(start, i, round as int) {
                            round
                        } else {
                            start[i]
                        }));
                        assert(!self.free(start, i, round as int));
                    }
                    self.lemma_round_cyclic(start, level@, round as int, x);
                }
                return Levels { level, rounds: round, cyclic: true };
            }
            proof {
                let w = choose|w: int| 0 <= w < n && #[trigger] level[w] == round;
                self.lemma_round_step(start, level@, round as int, w);
            }
            left = left - found;
            round = round + 1;
        }
        proof {
            let ind = Seq::new(
                level@.len(),
                |i: int|
                    if level@[i] == UNASSIGNED {
                        1nat
                    } else {
                        0nat
                    },
            );
            lemma_seq_sum_bounds(ind, 1);
            assert forall|i: int| 0 <= i < n implies #[trigger] level[i] != UNASSIGNED by {
                assert(ind[i] == 0);
            }
            self.lemma_round_done(level@, round as int);
        }
        Levels { level, rounds: round, cyclic: false }
    }
}

} // verus!
