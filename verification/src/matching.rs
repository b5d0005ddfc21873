//! The weighted graph over one round's participants, and the greedy
//! matching algorithm that partitions its nodes into pairs.
//!
//! A `Graph` holds a dense, symmetric weight matrix over a compact zero-based
//! index space; `weight(i, j)` counts how often the participants at indices
//! `i` and `j` have been paired before. The graph is conceptually complete:
//! weight 0 is a meaningful value ("never paired"), not an absent edge.

use vstd::pervasive::VecAdditionalExecFns;
use vstd::prelude::*;

verus! {

/// Every row of the matrix has as many columns as there are rows.
pub open spec fn square(w: Seq<Seq<u32>>) -> bool {
    forall|i: int| 0 <= i < w.len() ==> (#[trigger] w[i]).len() == w.len()
}

/// The matrix is symmetric: `w[i][j] == w[j][i]`.
pub open spec fn symmetric(w: Seq<Seq<u32>>) -> bool {
    forall|i: int, j: int|
        0 <= i < w.len() && 0 <= j < w.len() ==> #[trigger] w[i][j] == w[j][i]
}

/// The `(other_index, weight)` list that `edges_for` yields for node `i`,
/// restricted to indices at or beyond `j`: every index other than `i`, in
/// ascending order, with its weight against `i`.
pub open spec fn edge_list_from(w: Seq<Seq<u32>>, i: int, j: int) -> Seq<(usize, u32)>
    decreases w.len() - j,
{
    if j < 0 || j >= w.len() {
        Seq::empty()
    } else if j == i {
        edge_list_from(w, i, j + 1)
    } else {
        seq![(j as usize, w[i][j])] + edge_list_from(w, i, j + 1)
    }
}

/// How often the unordered pair `{i, j}` occurs in a list of index pairs.
pub open spec fn pair_occ(ps: Seq<(usize, usize)>, i: int, j: int) -> nat
    decreases ps.len(),
{
    if ps.len() == 0 {
        0
    } else {
        pair_occ(ps.drop_last(), i, j) + (if (ps.last().0 == i && ps.last().1 == j) || (
        ps.last().0 == j && ps.last().1 == i) {
            1nat
        } else {
            0nat
        })
    }
}

/// The view of an executable candidate accumulator.
pub open spec fn opt_int(o: Option<usize>) -> Option<int> {
    match o {
        Some(b) => Some(b as int),
        None => None,
    }
}

/// One left-to-right scan for the best partner of node `i`: among the
/// indices `j, j+1, ...` that are not `i` and not yet seen, the one with the
/// strictly minimum weight against `i` wins; on ties the earlier (smaller)
/// index is kept. `acc` carries the best candidate found so far.
pub open spec fn scan_best(
    w: Seq<Seq<u32>>,
    seen: Seq<bool>,
    i: int,
    j: int,
    acc: Option<int>,
) -> Option<int>
    decreases w.len() - j,
{
    if j < 0 || j >= w.len() {
        acc
    } else {
        let acc2 = if seen[j] || j == i {
            acc
        } else {
            match acc {
                None => Some(j),
                Some(b) => if w[i][j] < w[i][b] {
                    Some(j)
                } else {
                    acc
                },
            }
        };
        scan_best(w, seen, i, j + 1, acc2)
    }
}

/// The partner the greedy pass selects for node `i`: the unseen index with
/// the minimum weight against `i`, ties broken towards the smallest index.
pub open spec fn best_candidate(w: Seq<Seq<u32>>, seen: Seq<bool>, i: int) -> Option<int> {
    scan_best(w, seen, i, 0, None)
}

/// The single deterministic greedy pass from index `i` on: skip seen
/// indices; pair each unseen `i` with its best remaining candidate, emitting
/// the pair ordered `(min, max)`; when no candidate remains, emit `i` as the
/// singleton.
pub open spec fn greedy_pairs(w: Seq<Seq<u32>>, seen: Seq<bool>, i: int) -> Seq<
    (usize, Option<usize>),
>
    decreases w.len() - i,
{
    if i < 0 || i >= w.len() {
        Seq::empty()
    } else if seen[i] {
        greedy_pairs(w, seen, i + 1)
    } else {
        match best_candidate(w, seen, i) {
            Some(j) => {
                let p = if i < j {
                    (i as usize, Some(j as usize))
                } else {
                    (j as usize, Some(i as usize))
                };
                seq![p] + greedy_pairs(w, seen.update(i, true).update(j, true), i + 1)
            },
            None => seq![(i as usize, None)] + greedy_pairs(w, seen, i + 1),
        }
    }
}

/// A fresh seen-set: nothing seen yet.
pub open spec fn all_unseen(n: nat) -> Seq<bool> {
    Seq::new(n, |k: int| false)
}

/// What `matching` returns: the greedy pass over the whole graph, starting
/// with nothing seen.
pub open spec fn spec_matching(g: Graph) -> Seq<(usize, Option<usize>)> {
    greedy_pairs(g.mat(), all_unseen(g.mat().len()), 0)
}

/// A mutable, undirected, weighted graph over a compact zero-based index
/// space, built fresh for each matching round.
#[derive(Debug)]
pub struct Graph {
    pub nodes: Vec<u32>,
    pub edges: Vec<Vec<u32>>,
}

impl Graph {
    /// The participant identifiers, in insertion order (position = index).
    pub open spec fn node_seq(&self) -> Seq<u32> {
        self.nodes@
    }

    /// The weight matrix as a mathematical value.
    pub open spec fn mat(&self) -> Seq<Seq<u32>> {
        self.edges@.map_values(|row: Vec<u32>| row@)
    }

    /// Number of nodes.
    pub open spec fn n(&self) -> int {
        self.nodes@.len() as int
    }

    /// The weight between indices `i` and `j`.
    pub open spec fn wt(&self, i: int, j: int) -> u32 {
        self.mat()[i][j]
    }

    /// Well-formedness: the matrix is square with one row per node, and
    /// symmetric. This holds after every mutation.
    pub open spec fn wf(&self) -> bool {
        &&& self.mat().len() == self.n()
        &&& square(self.mat())
        &&& symmetric(self.mat())
    }

    /// Appends a new node: every existing row gains one zero-weight column,
    /// and a new all-zero row is added. Returns the fresh index, which is
    /// the previous node count (indices are assigned in insertion order and
    /// never reused).
    pub fn add_node(&mut self, person: u32) -> (id: usize)
        requires
            old(self).wf(),
        ensures
            final(self).wf(),
            id == old(self).n(),
            final(self).n() == old(self).n() + 1,
            final(self).node_seq() == old(self).node_seq().push(person),
            forall|i: int, j: int|
                0 <= i < final(self).n() && 0 <= j < final(self).n()
                    ==> #[trigger] final(self).wt(i, j) == (if i < old(self).n() && j < old(
                    self,
                ).n() {
                    old(self).wt(i, j)
                } else {
                    0u32
                }),
    {
        let id = self.nodes.len();
        self.nodes.push(person);
        let mut k: usize = 0;
        while k < self.edges.len()
            invariant
                k <= self.edges@.len(),
                self.edges@.len() == old(self).edges@.len(),
                self.nodes@ == old(self).nodes@.push(person),
                forall|i: int|
                    0 <= i < k ==> #[trigger] self.edges@[i]@ == old(self).edges@[i]@.push(0u32),
                forall|i: int|
                    k <= i < self.edges@.len() ==> #[trigger] self.edges@[i]@ == old(
                        self,
                    ).edges@[i]@,
            decreases self.edges@.len() - k,
        {
            self.edges[k].push(0);
            k = k + 1;
        }
        let mut row: Vec<u32> = Vec::new();
        let mut m: usize = 0;
        while m < self.nodes.len()
            invariant
                row@ =~= Seq::new(m as nat, |j: int| 0u32),
                m <= self.nodes@.len(),
            decreases self.nodes@.len() - m,
        {
            row.push(0);
            m = m + 1;
        }
        let ghost zrow = row@;
        self.edges.push(row);
        proof {
            let n0 = old(self).n();
            assert(self.nodes@.len() == n0 + 1);
            assert(self.edges@.len() == n0 + 1);
            assert(zrow.len() == n0 + 1);
            assert forall|i: int| 0 <= i < n0 + 1 implies (#[trigger] self.mat()[i]).len() == n0
                + 1 by {
                if i < n0 {
                    assert(old(self).mat()[i] == old(self).edges@[i]@);
                    assert(old(self).mat()[i].len() == n0);
                    assert(self.edges@[i]@ == old(self).edges@[i]@.push(0u32));
                    assert(self.mat()[i] == self.edges@[i]@);
                } else {
                    assert(self.mat()[i] == zrow);
                }
            }
            assert forall|i: int, j: int|
                0 <= i < n0 + 1 && 0 <= j < n0 + 1 implies #[trigger] self.mat()[i][j] == (if i
                < n0 && j < n0 {
                old(self).mat()[i][j]
            } else {
                0u32
            }) by {
                if i < n0 {
                    assert(old(self).mat()[i] == old(self).edges@[i]@);
                    assert(old(self).mat()[i].len() == n0);
                    assert(self.edges@[i]@ == old(self).edges@[i]@.push(0u32));
                    assert(self.mat()[i] == self.edges@[i]@);
                } else {
                    assert(self.mat()[i] == zrow);
                    assert(zrow[j] == 0u32);
                }
            }
        }
        id
    }

    /// Sets the weight between two existing, distinct indices, mirroring it
    /// so the matrix stays symmetric.
    pub fn add_edge(&mut self, id1: usize, id2: usize, weight: u32)
        requires
            old(self).wf(),
            id1 < old(self).n(),
            id2 < old(self).n(),
            id1 != id2,
        ensures
            final(self).wf(),
            final(self).node_seq() == old(self).node_seq(),
            forall|i: int, j: int|
                0 <= i < final(self).n() && 0 <= j < final(self).n()
                    ==> #[trigger] final(self).wt(i, j) == (if (i == id1 && j == id2) || (i == id2
                    && j == id1) {
                    weight
                } else {
                    old(self).wt(i, j)
                }),
    {
        proof {
            assert(self.edges@.len() == self.n());
            assert(self.mat()[id1 as int] == self.edges@[id1 as int]@);
            assert(self.mat()[id1 as int].len() == self.n());
            assert(self.mat()[id2 as int] == self.edges@[id2 as int]@);
            assert(self.mat()[id2 as int].len() == self.n());
        }
        self.edges[id1].set(id2, weight);
        self.edges[id2].set(id1, weight);
        proof {
            let n0 = old(self).n();
            assert forall|i: int, j: int|
                0 <= i < n0 && 0 <= j < n0 implies #[trigger] self.mat()[i][j] == (if (i == id1
                && j == id2) || (i == id2 && j == id1) {
                weight
            } else {
                old(self).mat()[i][j]
            }) by {
                assert(old(self).mat()[i] == old(self).edges@[i]@);
                if i == id2 {
                    assert(self.edges@[i]@ == old(self).edges@[id2 as int]@.update(
                        id1 as int,
                        weight,
                    ));
                } else if i == id1 {
                    assert(self.edges@[i]@ == old(self).edges@[id1 as int]@.update(
                        id2 as int,
                        weight,
                    ));
                } else {
                    assert(self.edges@[i]@ == old(self).edges@[i]@);
                }
                assert(self.mat()[i] == self.edges@[i]@);
            }
            assert forall|i: int| 0 <= i < n0 implies (#[trigger] self.mat()[i]).len() == n0 by {
                assert(old(self).mat()[i] == old(self).edges@[i]@);
                assert(old(self).mat()[i].len() == n0);
                assert(self.mat()[i] == self.edges@[i]@);
            }
        }
    }

    /// The participant identifiers, position = index.
    pub fn nodes(&self) -> (r: &Vec<u32>)
        ensures
            r@ == self.node_seq(),
    {
        &self.nodes
    }

    /// The participant identifier at an index.
    pub fn node(&self, id: usize) -> (p: &u32)
        requires
            id < self.node_seq().len(),
        ensures
            *p == self.node_seq()[id as int],
    {
        &self.nodes[id]
    }

    /// The weight between two indices.
    pub fn edge(&self, id1: usize, id2: usize) -> (w: u32)
        requires
            self.wf(),
            id1 < self.n(),
            id2 < self.n(),
        ensures
            w == self.wt(id1 as int, id2 as int),
    {
        proof {
            assert(self.mat()[id1 as int] == self.edges@[id1 as int]@);
            assert(self.mat()[id1 as int].len() == self.n());
        }
        self.edges[id1][id2]
    }

    /// Lists `(other_index, weight)` for every node other than `id`, in
    /// ascending index order. Weight 0 is a valid value, not absence: the
    /// graph is complete over its nodes.
    pub fn edges_for(&self, id: usize) -> (r: Vec<(usize, u32)>)
        requires
            self.wf(),
            id < self.n(),
        ensures
            r@ == edge_list_from(self.mat(), id as int, 0),
    {
        let n = self.nodes.len();
        let mut r: Vec<(usize, u32)> = Vec::new();
        let mut j: usize = 0;
        while j < n
            invariant
                self.wf(),
                id < self.n(),
                n == self.n(),
                j <= n,
                r@ + edge_list_from(self.mat(), id as int, j as int) == edge_list_from(
                    self.mat(),
                    id as int,
                    0,
                ),
            decreases n - j,
        {
            let ghost r0 = r@;
            if j != id {
                let w = self.edge(id, j);
                r.push((j, w));
                proof {
                    assert(edge_list_from(self.mat(), id as int, j as int) == seq![
                        (j as usize, self.wt(id as int, j as int)),
                    ] + edge_list_from(self.mat(), id as int, j + 1));
                    assert(r@ + edge_list_from(self.mat(), id as int, j + 1) =~= r0
                        + edge_list_from(self.mat(), id as int, j as int));
                }
            }
            j = j + 1;
        }
        proof {
            assert(edge_list_from(self.mat(), id as int, n as int) =~= Seq::empty());
            assert(r@ =~= r@ + edge_list_from(self.mat(), id as int, n as int));
        }
        r
    }

    /// Raises the weight of each listed pair by one, keeping the matrix
    /// symmetric. The caller applies this only after a round's result was
    /// durably recorded.
    pub fn update_from_matching(&mut self, matching: &Vec<(usize, usize)>)
        requires
            old(self).wf(),
            forall|k: int|
                0 <= k < matching@.len() ==> ((#[trigger] matching@[k]).0 as int) < old(self).n()
                    && (matching@[k].1 as int) < old(self).n() && matching@[k].0
                    != matching@[k].1,
            forall|i: int, j: int|
                0 <= i < old(self).n() && 0 <= j < old(self).n() ==> old(self).wt(i, j) + pair_occ(
                    matching@,
                    i,
                    j,
                ) <= u32::MAX,
        ensures
            final(self).wf(),
            final(self).node_seq() == old(self).node_seq(),
            forall|i: int, j: int|
                0 <= i < final(self).n() && 0 <= j < final(self).n()
                    ==> #[trigger] final(self).wt(i, j) == old(self).wt(i, j) + pair_occ(
                    matching@,
                    i,
                    j,
                ),
    {
        let mut k: usize = 0;
        while k < matching.len()
            invariant
                self.wf(),
                self.node_seq() == old(self).node_seq(),
                self.n() == old(self).n(),
                k <= matching@.len(),
                forall|kk: int|
                    0 <= kk < matching@.len() ==> ((#[trigger] matching@[kk]).0 as int) < old(
                        self,
                    ).n() && (matching@[kk].1 as int) < old(self).n() && matching@[kk].0
                        != matching@[kk].1,
                forall|i: int, j: int|
                    0 <= i < old(self).n() && 0 <= j < old(self).n() ==> old(self).wt(i, j)
                        + pair_occ(matching@, i, j) <= u32::MAX,
                forall|i: int, j: int|
                    0 <= i < self.n() && 0 <= j < self.n() ==> #[trigger] self.wt(i, j) == old(
                        self,
                    ).wt(i, j) + pair_occ(matching@.take(k as int), i, j),
            decreases matching@.len() - k,
        {
            let (a, b) = matching[k];
            let w = self.edge(a, b);
            proof {
                lemma_pair_occ_prefix_le(matching@, k + 1, a as int, b as int);
                assert(matching@.take(k + 1).drop_last() =~= matching@.take(k as int));
                assert(matching@.take(k + 1).last() == matching@[k as int]);
                assert(pair_occ(matching@.take(k + 1), a as int, b as int) == pair_occ(
                    matching@.take(k as int),
                    a as int,
                    b as int,
                ) + 1);
            }
            let ghost pre = *self;
            self.add_edge(a, b, w + 1);
            proof {
                assert forall|i: int, j: int|
                    0 <= i < self.n() && 0 <= j < self.n() implies #[trigger] self.wt(i, j) == old(
                    self,
                ).wt(i, j) + pair_occ(matching@.take(k + 1), i, j) by {
                    assert(matching@.take(k + 1).drop_last() =~= matching@.take(k as int));
                    assert(matching@.take(k + 1).last() == matching@[k as int]);
                    assert(pre.wt(i, j) == old(self).wt(i, j) + pair_occ(
                        matching@.take(k as int),
                        i,
                        j,
                    ));
                    if (i == a && j == b) || (i == b && j == a) {
                        assert(self.wt(i, j) == w + 1);
                        assert(pair_occ(matching@.take(k + 1), i, j) == pair_occ(
                            matching@.take(k as int),
                            i,
                            j,
                        ) + 1);
                    } else {
                        assert(self.wt(i, j) == pre.wt(i, j));
                        assert(pair_occ(matching@.take(k + 1), i, j) == pair_occ(
                            matching@.take(k as int),
                            i,
                            j,
                        ));
                    }
                }
            }
            k = k + 1;
        }
        proof {
            assert(matching@.take(matching@.len() as int) =~= matching@);
        }
    }

    /// Partitions all current nodes into pairs, leaving at most one node
    /// unpaired: a single greedy pass in ascending index order, where each
    /// unseen node takes the unseen partner with the lowest weight (ties go
    /// to the smallest index). Pairs come out ordered `(min, max)`; a node
    /// with no remaining candidate is emitted with partner `None`. The graph
    /// itself is read, never changed.
    pub fn matching(&self) -> (r: Vec<(usize, Option<usize>)>)
        requires
            self.wf(),
        ensures
            r@ == spec_matching(*self),
    {
        let n = self.nodes.len();
        let mut result: Vec<(usize, Option<usize>)> = Vec::new();
        let mut seen: Vec<bool> = Vec::new();
        let mut f: usize = 0;
        while f < n
            invariant
                seen@ =~= Seq::new(f as nat, |k: int| false),
                f <= n,
            decreases n - f,
        {
            seen.push(false);
            f = f + 1;
        }
        let mut i: usize = 0;
        while i < n
            invariant
                self.wf(),
                n == self.n(),
                seen@.len() == n,
                i <= n,
                result@ + greedy_pairs(self.mat(), seen@, i as int) == spec_matching(*self),
            decreases n - i,
        {
            let ghost seen0 = seen@;
            let ghost res0 = result@;
            if !seen[i] {
                let mut best: Option<usize> = None;
                let mut j: usize = 0;
                while j < n
                    invariant
                        self.wf(),
                        n == self.n(),
                        seen@.len() == n,
                        i < n,
                        j <= n,
                        (match best {
                            Some(b) => b < n,
                            None => true,
                        }),
                        scan_best(self.mat(), seen@, i as int, j as int, opt_int(best))
                            == best_candidate(self.mat(), seen@, i as int),
                    decreases n - j,
                {
                    if !seen[j] && j != i {
                        best = match best {
                            None => Some(j),
                            Some(b) => if self.edge(i, j) < self.edge(i, b) {
                                Some(j)
                            } else {
                                Some(b)
                            },
                        };
                    }
                    j = j + 1;
                }
                match best {
                    Some(b) => {
                        let pair = if i < b {
                            (i, Some(b))
                        } else {
                            (b, Some(i))
                        };
                        result.push(pair);
                        seen.set(i, true);
                        seen.set(b, true);
                        proof {
                            assert(seen@ =~= seen0.update(i as int, true).update(b as int, true));
                            assert(greedy_pairs(self.mat(), seen0, i as int) == seq![pair]
                                + greedy_pairs(self.mat(), seen@, i + 1));
                            assert(result@ + greedy_pairs(self.mat(), seen@, i + 1) =~= res0
                                + greedy_pairs(self.mat(), seen0, i as int));
                        }
                    },
                    None => {
                        result.push((i, None));
                        proof {
                            assert(greedy_pairs(self.mat(), seen0, i as int) == seq![
                                (i as usize, None::<usize>),
                            ] + greedy_pairs(self.mat(), seen@, i + 1));
                            assert(result@ + greedy_pairs(self.mat(), seen@, i + 1) =~= res0
                                + greedy_pairs(self.mat(), seen0, i as int));
                        }
                    },
                }
            }
            i = i + 1;
        }
        proof {
            assert(greedy_pairs(self.mat(), seen@, n as int) =~= Seq::empty());
            assert(result@ =~= result@ + greedy_pairs(self.mat(), seen@, n as int));
        }
        result
    }
}

/// How often index `x` appears in one row of a matching result.
pub open spec fn row_occ(row: (usize, Option<usize>), x: usize) -> nat {
    (if row.0 == x {
        1nat
    } else {
        0nat
    }) + (match row.1 {
        Some(b) => if b == x {
            1nat
        } else {
            0nat
        },
        None => 0nat,
    })
}

/// How often index `x` appears anywhere in a matching result, pair members
/// and singletons alike.
pub open spec fn occ(r: Seq<(usize, Option<usize>)>, x: usize) -> nat
    decreases r.len(),
{
    if r.len() == 0 {
        0
    } else {
        row_occ(r[0], x) + occ(r.drop_first(), x)
    }
}

/// The number of singleton rows (rows without a partner).
pub open spec fn singles(r: Seq<(usize, Option<usize>)>) -> nat
    decreases r.len(),
{
    if r.len() == 0 {
        0
    } else {
        (match r[0].1 {
            Some(_) => 0nat,
            None => 1nat,
        }) + singles(r.drop_first())
    }
}

/// The number of indices at or beyond `i` that are not yet seen.
pub open spec fn unseen_count(seen: Seq<bool>, i: int) -> nat
    decreases seen.len() - i,
{
    if i < 0 || i >= seen.len() {
        0
    } else {
        (if seen[i] {
            0nat
        } else {
            1nat
        }) + unseen_count(seen, i + 1)
    }
}

/// Every row is in range for a graph of `n` nodes, and every pair is
/// ordered `(smaller index, larger index)`.
pub open spec fn pairs_wf(r: Seq<(usize, Option<usize>)>, n: int) -> bool {
    forall|k: int|
        0 <= k < r.len() ==> ((#[trigger] r[k]).0 as int) < n && (match r[k].1 {
            Some(b) => r[k].0 < b && (b as int) < n,
            None => true,
        })
}

/// Counting distributes over putting one row in front of a result.
proof fn lemma_result_cons(p: (usize, Option<usize>), rest: Seq<(usize, Option<usize>)>)
    ensures
        forall|x: usize| #[trigger] occ(seq![p] + rest, x) == row_occ(p, x) + occ(rest, x),
        singles(seq![p] + rest) == (match p.1 {
            Some(_) => 0nat,
            None => 1nat,
        }) + singles(rest),
{
    let s = seq![p] + rest;
    assert(s.len() == 1 + rest.len());
    assert(s[0] == p);
    assert(s.drop_first() =~= rest);
}

/// Marking one index as seen lowers the unseen count by one exactly when
/// that index lies in the counted range and was unseen.
proof fn lemma_unseen_update(seen: Seq<bool>, k: int, i: int)
    requires
        0 <= k < seen.len(),
        0 <= i,
    ensures
        unseen_count(seen, i) == unseen_count(seen.update(k, true), i) + (if i <= k && !seen[k] {
            1nat
        } else {
            0nat
        }),
    decreases seen.len() - i,
{
    if i < seen.len() {
        lemma_unseen_update(seen, k, i + 1);
    }
}

/// When everything at or beyond `i` is seen, nothing is left to count.
proof fn lemma_unseen_all_seen(seen: Seq<bool>, i: int)
    requires
        0 <= i,
        forall|k: int| i <= k < seen.len() ==> #[trigger] seen[k],
    ensures
        unseen_count(seen, i) == 0,
    decreases seen.len() - i,
{
    if i < seen.len() {
        lemma_unseen_all_seen(seen, i + 1);
    }
}

/// Before anything is seen, the unseen count from `i` is everything from
/// `i` to the end.
proof fn lemma_unseen_none_seen(seen: Seq<bool>, i: int)
    requires
        0 <= i <= seen.len(),
        forall|k: int| 0 <= k < seen.len() ==> !(#[trigger] seen[k]),
    ensures
        unseen_count(seen, i) == seen.len() - i,
    decreases seen.len() - i,
{
    if i < seen.len() {
        lemma_unseen_none_seen(seen, i + 1);
    }
}

/// What a scan for the best partner guarantees: a returned candidate is a
/// real, unseen index other than `i`; when nothing comes back, every index
/// from `j` on other than `i` was already seen.
proof fn lemma_scan_best_props(w: Seq<Seq<u32>>, seen: Seq<bool>, i: int, j: int, acc: Option<int>)
    requires
        seen.len() == w.len(),
        0 <= i < w.len(),
        0 <= j,
        (match acc {
            Some(b) => 0 <= b < w.len() && !seen[b] && b != i,
            None => true,
        }),
    ensures
        (match scan_best(w, seen, i, j, acc) {
            Some(b) => 0 <= b < w.len() && !seen[b] && b != i,
            None => acc is None && (forall|k: int|
                j <= k < w.len() && k != i ==> #[trigger] seen[k]),
        }),
    decreases w.len() - j,
{
    if j < w.len() {
        let acc2 = if seen[j] || j == i {
            acc
        } else {
            match acc {
                None => Some(j),
                Some(b) => if w[i][j] < w[i][b] {
                    Some(j)
                } else {
                    acc
                },
            }
        };
        lemma_scan_best_props(w, seen, i, j + 1, acc2);
    }
}

/// The inductive heart of the partition law. The precondition says that an
/// unseen index below `i` can only exist when every other index is seen
/// (which is how the pass leaves the lone singleton behind). Under it, the
/// greedy pass from `i` emits each unseen index at or beyond `i` exactly
/// once and nothing else, leaves singletons exactly according to the parity
/// of the remaining unseen count, and produces ordered in-range rows.
proof fn lemma_greedy_props(w: Seq<Seq<u32>>, seen: Seq<bool>, i: int)
    requires
        seen.len() == w.len(),
        w.len() <= usize::MAX,
        0 <= i <= w.len(),
        forall|a: int, b: int|
            0 <= a < i && 0 <= b < seen.len() && a != b && !(#[trigger] seen[a])
                ==> #[trigger] seen[b],
    ensures
        forall|x: usize|
            #[trigger] occ(greedy_pairs(w, seen, i), x) == (if i <= (x as int) < w.len()
                && !seen[x as int] {
                1nat
            } else {
                0nat
            }),
        singles(greedy_pairs(w, seen, i)) == unseen_count(seen, i) % 2,
        greedy_pairs(w, seen, i).len() == (unseen_count(seen, i) + 1) / 2,
        pairs_wf(greedy_pairs(w, seen, i), w.len() as int),
    decreases w.len() - i,
{
    if i >= w.len() {
    } else if seen[i] {
        lemma_greedy_props(w, seen, i + 1);
    } else {
        lemma_scan_best_props(w, seen, i, 0, None);
        match best_candidate(w, seen, i) {
            Some(j) => {
                assert(j > i) by {
                    if j < i {
                        assert(!seen[j]);
                        assert(seen[i]);
                    }
                }
                let seen2 = seen.update(i, true).update(j, true);
                let p = (i as usize, Some(j as usize));
                let rest = greedy_pairs(w, seen2, i + 1);
                assert(greedy_pairs(w, seen, i) == seq![p] + rest);
                assert forall|a: int, b: int|
                    0 <= a < i + 1 && 0 <= b < seen2.len() && a != b && !(#[trigger] seen2[a])
                        implies #[trigger] seen2[b] by {
                    if a < i {
                        assert(!seen[a]);
                        assert(seen[i]);
                        assert(false);
                    }
                }
                lemma_greedy_props(w, seen2, i + 1);
                lemma_result_cons(p, rest);
                lemma_unseen_update(seen, i, i + 1);
                lemma_unseen_update(seen.update(i, true), j, i + 1);
                let u = unseen_count(seen, i);
                assert(unseen_count(seen, i) == 1 + unseen_count(seen, i + 1));
                assert(unseen_count(seen2, i + 1) + 2 == u);
                assert forall|x: usize|
                    #[trigger] occ(greedy_pairs(w, seen, i), x) == (if i <= (x as int) < w.len()
                        && !seen[x as int] {
                        1nat
                    } else {
                        0nat
                    }) by {
                    assert(occ(greedy_pairs(w, seen, i), x) == row_occ(p, x) + occ(rest, x));
                    assert(occ(rest, x) == (if i + 1 <= (x as int) < w.len() && !seen2[x as int] {
                        1nat
                    } else {
                        0nat
                    }));
                    if (x as int) == i {
                        assert(seen2[i]);
                        assert(row_occ(p, x) == 1);
                    } else if (x as int) == j {
                        assert(seen2[j]);
                        assert(row_occ(p, x) == 1);
                    } else {
                        assert(row_occ(p, x) == 0);
                        if 0 <= (x as int) < w.len() {
                            assert(seen2[x as int] == seen[x as int]);
                        }
                    }
                }
                assert(pairs_wf(greedy_pairs(w, seen, i), w.len() as int)) by {
                    assert forall|k: int|
                        0 <= k < greedy_pairs(w, seen, i).len() implies ((#[trigger] greedy_pairs(
                        w,
                        seen,
                        i,
                    )[k]).0 as int) < w.len() && (match greedy_pairs(w, seen, i)[k].1 {
                        Some(b) => greedy_pairs(w, seen, i)[k].0 < b && (b as int) < w.len(),
                        None => true,
                    }) by {
                        if k > 0 {
                            assert(greedy_pairs(w, seen, i)[k] == rest[k - 1]);
                        }
                    }
                }
            },
            None => {
                let p = (i as usize, None::<usize>);
                let rest = greedy_pairs(w, seen, i + 1);
                assert(greedy_pairs(w, seen, i) == seq![p] + rest);
                lemma_greedy_props(w, seen, i + 1);
                lemma_result_cons(p, rest);
                lemma_unseen_all_seen(seen, i + 1);
                assert(unseen_count(seen, i) == 1);
                assert forall|x: usize|
                    #[trigger] occ(greedy_pairs(w, seen, i), x) == (if i <= (x as int) < w.len()
                        && !seen[x as int] {
                        1nat
                    } else {
                        0nat
                    }) by {
                    assert(occ(greedy_pairs(w, seen, i), x) == row_occ(p, x) + occ(rest, x));
                    assert(occ(rest, x) == (if i + 1 <= (x as int) < w.len() && !seen[x as int] {
                        1nat
                    } else {
                        0nat
                    }));
                    if i + 1 <= (x as int) < w.len() {
                        assert(seen[x as int]);
                    }
                    if (x as int) == i {
                        assert(row_occ(p, x) == 1);
                    } else {
                        assert(row_occ(p, x) == 0);
                    }
                }
                assert(pairs_wf(greedy_pairs(w, seen, i), w.len() as int)) by {
                    assert forall|k: int|
                        0 <= k < greedy_pairs(w, seen, i).len() implies ((#[trigger] greedy_pairs(
                        w,
                        seen,
                        i,
                    )[k]).0 as int) < w.len() && (match greedy_pairs(w, seen, i)[k].1 {
                        Some(b) => greedy_pairs(w, seen, i)[k].0 < b && (b as int) < w.len(),
                        None => true,
                    }) by {
                        if k > 0 {
                            assert(greedy_pairs(w, seen, i)[k] == rest[k - 1]);
                        }
                    }
                }
            },
        }
    }
}

/// The partition law at the matrix level: the greedy pass over a square
/// matrix of `n` rows mentions every index `0 <= x < n` exactly once across
/// pair members and the singleton slot and mentions nothing else; there is
/// exactly one singleton when `n` is odd and none when `n` is even; and
/// every pair is ordered `(smaller, larger)` with both members in range.
pub proof fn lemma_greedy_partition(w: Seq<Seq<u32>>)
    requires
        square(w),
        w.len() <= usize::MAX,
    ensures
        forall|x: usize|
            #[trigger] occ(greedy_pairs(w, all_unseen(w.len()), 0), x) == (if (x as int)
                < w.len() {
                1nat
            } else {
                0nat
            }),
        singles(greedy_pairs(w, all_unseen(w.len()), 0)) == w.len() % 2,
        greedy_pairs(w, all_unseen(w.len()), 0).len() == (w.len() + 1) / 2,
        greedy_pairs(w, all_unseen(w.len()), 0).len() - singles(
            greedy_pairs(w, all_unseen(w.len()), 0),
        ) == w.len() / 2,
        pairs_wf(greedy_pairs(w, all_unseen(w.len()), 0), w.len() as int),
{
    let seen = all_unseen(w.len());
    lemma_greedy_props(w, seen, 0);
    lemma_unseen_none_seen(seen, 0);
}

/// The matching is a pure function of the weight matrix: `matching` takes
/// the graph read-only and so never changes a weight, and any two graphs
/// with the same weights — in particular, one graph asked twice without a
/// mutation in between — yield identical output.
pub proof fn lemma_matching_deterministic(g1: Graph, g2: Graph)
    requires
        g1.mat() == g2.mat(),
    ensures
        spec_matching(g1) == spec_matching(g2),
{
}

/// The partition law: over a well-formed graph of `n` nodes, the matching
/// mentions every index `0 <= x < n` exactly once across pair members and
/// the singleton slot and mentions nothing else, so its pairs cover exactly
/// `2 * (n / 2)` distinct indices; there is exactly one singleton when `n`
/// is odd and none when `n` is even; and every pair is ordered
/// `(smaller, larger)` with both members in range.
pub proof fn lemma_matching_partition(g: Graph)
    requires
        g.wf(),
    ensures
        forall|x: usize|
            #[trigger] occ(spec_matching(g), x) == (if (x as int) < g.n() {
                1nat
            } else {
                0nat
            }),
        singles(spec_matching(g)) == g.n() % 2,
        spec_matching(g).len() == (g.n() + 1) / 2,
        spec_matching(g).len() - singles(spec_matching(g)) == g.n() / 2,
        pairs_wf(spec_matching(g), g.n()),
{
    vstd::std_specs::vec::axiom_spec_len(&g.nodes);
    lemma_greedy_partition(g.mat());
}

/// A prefix of the pair list never mentions an unordered pair more often
/// than the whole list does.
proof fn lemma_pair_occ_prefix_le(ps: Seq<(usize, usize)>, k: int, i: int, j: int)
    requires
        0 <= k <= ps.len(),
    ensures
        pair_occ(ps.take(k), i, j) <= pair_occ(ps, i, j),
    decreases ps.len() - k,
{
    if k == ps.len() {
        assert(ps.take(k) =~= ps);
    } else {
        lemma_pair_occ_prefix_le(ps, k + 1, i, j);
        assert(ps.take(k + 1).drop_last() =~= ps.take(k));
    }
}

impl Default for Graph {
    /// An empty graph: no nodes, no weights.
    fn default() -> (g: Graph)
        ensures
            g.wf(),
            g.n() == 0,
    {
        Graph { nodes: Vec::new(), edges: Vec::new() }
    }
}

} // verus!
