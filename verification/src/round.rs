//! One end-to-end matching round: a deterministic plan computed from the
//! waiting set and its pairing history, and an orchestrator that runs the
//! plan against the in-memory store.
//!
//! Waiting identifiers are sorted ascending before graph indices are
//! assigned, so a round's outcome is a function of the store's state alone.

use crate::matching::Graph;
use crate::matching::all_unseen;
use crate::matching::greedy_pairs;
use crate::matching::occ;
use crate::matching::pairs_wf;
use crate::matching::row_occ;
use crate::matching::singles;
use crate::matching::square;
use crate::store::MatchMeta;
use crate::store::MatchRow;
use crate::store::MemStore;
use crate::store::Person;
use crate::store::bump_edges;
use crate::store::clear_one;
use crate::store::key_hi;
use crate::store::key_lo;
use crate::store::lemma_bump_weight;
use crate::store::next_generation;
use crate::store::people_wf;
use crate::store::restrict_edges;
use crate::store::waiting_ids;
use crate::store::weight_in;
use vstd::prelude::*;

verus! {

/// How often `x` occurs in an identifier list.
pub open spec fn count_of(s: Seq<u32>, x: u32) -> nat
    decreases s.len(),
{
    if s.len() == 0 {
        0
    } else {
        (if s[0] == x {
            1nat
        } else {
            0nat
        }) + count_of(s.drop_first(), x)
    }
}

/// `x` placed into an ascending list: before the first strictly larger
/// element.
pub open spec fn insert_sorted(s: Seq<u32>, x: u32) -> Seq<u32>
    decreases s.len(),
{
    if s.len() == 0 {
        seq![x]
    } else if x < s[0] {
        seq![x] + s
    } else {
        seq![s[0]] + insert_sorted(s.drop_first(), x)
    }
}

/// The identifier list sorted ascending, by insertion.
pub open spec fn sort_ids(s: Seq<u32>) -> Seq<u32>
    decreases s.len(),
{
    if s.len() == 0 {
        Seq::empty()
    } else {
        insert_sorted(sort_ids(s.drop_first()), s[0])
    }
}

/// Ascending order over an identifier list.
pub open spec fn sorted_ascending(s: Seq<u32>) -> bool {
    forall|i: int, j: int| 0 <= i < j < s.len() ==> s[i] <= s[j]
}

/// Insertion into an ascending list keeps it ascending.
proof fn lemma_insert_sorted_ordered(s: Seq<u32>, x: u32)
    requires
        sorted_ascending(s),
    ensures
        sorted_ascending(insert_sorted(s, x)),
    decreases s.len(),
{
    if s.len() == 0 {
    } else if x < s[0] {
        let r = seq![x] + s;
        assert forall|i: int, j: int| 0 <= i < j < r.len() implies r[i] <= r[j] by {
            if i == 0 {
                assert(r[0] == x);
                if j > 1 {
                    assert(s[0] <= s[j - 1]);
                }
                assert(r[j] == s[j - 1]);
            } else {
                assert(r[i] == s[i - 1]);
                assert(r[j] == s[j - 1]);
            }
        }
    } else {
        let df = s.drop_first();
        assert forall|i: int, j: int| 0 <= i < j < df.len() implies df[i] <= df[j] by {
            assert(df[i] == s[i + 1]);
            assert(df[j] == s[j + 1]);
        }
        lemma_insert_sorted_ordered(df, x);
        lemma_insert_count(df, x);
        let rest = insert_sorted(df, x);
        let r = seq![s[0]] + rest;
        assert forall|k: int| 0 <= k < rest.len() implies s[0] <= rest[k] by {
            assert(rest.contains(rest[k]));
            lemma_count_contains(rest, rest[k]);
            if rest[k] != x {
                lemma_count_contains(df, rest[k]);
                let l = choose|l: int| 0 <= l < df.len() && df[l] == rest[k];
                assert(df[l] == s[l + 1]);
                assert(s[0] <= s[l + 1]);
            }
        }
        assert forall|i: int, j: int| 0 <= i < j < r.len() implies r[i] <= r[j] by {
            if i == 0 {
                assert(r[j] == rest[j - 1]);
                assert(s[0] <= rest[j - 1]);
            } else {
                assert(r[i] == rest[i - 1]);
                assert(r[j] == rest[j - 1]);
            }
        }
    }
}

/// Graph indices are assigned in ascending identifier order: the sorted
/// waiting list really is ascending.
pub proof fn lemma_sort_ids_sorted(s: Seq<u32>)
    ensures
        sorted_ascending(sort_ids(s)),
    decreases s.len(),
{
    if s.len() > 0 {
        lemma_sort_ids_sorted(s.drop_first());
        lemma_insert_sorted_ordered(sort_ids(s.drop_first()), s[0]);
    }
}

/// Insertion keeps every element and adds exactly the new one.
proof fn lemma_insert_count(s: Seq<u32>, x: u32)
    ensures
        insert_sorted(s, x).len() == s.len() + 1,
        forall|y: u32|
            #[trigger] count_of(insert_sorted(s, x), y) == count_of(s, y) + (if y == x {
                1nat
            } else {
                0nat
            }),
    decreases s.len(),
{
    if s.len() == 0 {
        assert forall|y: u32|
            #[trigger] count_of(insert_sorted(s, x), y) == count_of(s, y) + (if y == x {
                1nat
            } else {
                0nat
            }) by {
            assert(insert_sorted(s, x) == seq![x]);
            assert(seq![x].drop_first() =~= Seq::<u32>::empty());
            assert(seq![x][0] == x);
            assert(count_of(seq![x].drop_first(), y) == 0);
            assert(count_of(seq![x], y) == (if x == y {
                1nat
            } else {
                0nat
            }) + count_of(seq![x].drop_first(), y));
            assert(count_of(s, y) == 0);
        }
    } else if x < s[0] {
        assert forall|y: u32|
            #[trigger] count_of(insert_sorted(s, x), y) == count_of(s, y) + (if y == x {
                1nat
            } else {
                0nat
            }) by {
            assert(insert_sorted(s, x) == seq![x] + s);
            assert((seq![x] + s).drop_first() =~= s);
            assert((seq![x] + s)[0] == x);
        }
    } else {
        lemma_insert_count(s.drop_first(), x);
        assert forall|y: u32|
            #[trigger] count_of(insert_sorted(s, x), y) == count_of(s, y) + (if y == x {
                1nat
            } else {
                0nat
            }) by {
            let t = seq![s[0]] + insert_sorted(s.drop_first(), x);
            assert(insert_sorted(s, x) == t);
            assert(t.drop_first() =~= insert_sorted(s.drop_first(), x));
            assert(t[0] == s[0]);
            assert(count_of(insert_sorted(s.drop_first(), x), y) == count_of(s.drop_first(), y) + (
            if y == x {
                1nat
            } else {
                0nat
            }));
        }
    }
}

/// Sorting keeps the length and every element's multiplicity.
pub proof fn lemma_sort_count(s: Seq<u32>)
    ensures
        sort_ids(s).len() == s.len(),
        forall|y: u32| #[trigger] count_of(sort_ids(s), y) == count_of(s, y),
    decreases s.len(),
{
    if s.len() > 0 {
        lemma_sort_count(s.drop_first());
        lemma_insert_count(sort_ids(s.drop_first()), s[0]);
        assert forall|y: u32| #[trigger] count_of(sort_ids(s), y) == count_of(s, y) by {
            assert(count_of(sort_ids(s), y) == count_of(sort_ids(s.drop_first()), y) + (if y
                == s[0] {
                1nat
            } else {
                0nat
            }));
        }
    }
}

/// An element is present exactly when its count is positive.
pub proof fn lemma_count_contains(s: Seq<u32>, y: u32)
    ensures
        s.contains(y) <==> count_of(s, y) >= 1,
    decreases s.len(),
{
    if s.len() > 0 {
        lemma_count_contains(s.drop_first(), y);
        if s[0] != y && s.drop_first().contains(y) {
            let l = choose|l: int| 0 <= l < s.drop_first().len() && s.drop_first()[l] == y;
            assert(s[l + 1] == y);
        }
        if s.contains(y) && s[0] != y {
            let l = choose|l: int| 0 <= l < s.len() && s[l] == y;
            assert(s.drop_first()[l - 1] == y);
        }
    }
}

/// Two positions holding the same value mean its count is at least two.
proof fn lemma_count_two(s: Seq<u32>, i: int, j: int)
    requires
        0 <= i < j < s.len(),
        s[i] == s[j],
    ensures
        count_of(s, s[i]) >= 2,
    decreases s.len(),
{
    if i == 0 {
        assert(s.drop_first()[j - 1] == s[j]);
        lemma_count_contains(s.drop_first(), s[j]);
    } else {
        assert(s.drop_first()[i - 1] == s[i]);
        assert(s.drop_first()[j - 1] == s[j]);
        lemma_count_two(s.drop_first(), i - 1, j - 1);
    }
}

/// In a list where every count is at most one, equal values share a
/// position.
proof fn lemma_distinct_at(s: Seq<u32>, i: int, j: int)
    requires
        forall|y: u32| count_of(s, y) <= 1,
        0 <= i < s.len(),
        0 <= j < s.len(),
        s[i] == s[j],
    ensures
        i == j,
{
    if i < j {
        lemma_count_two(s, i, j);
    } else if j < i {
        lemma_count_two(s, j, i);
    }
}

/// A pairwise-distinct list has no count above one.
proof fn lemma_pairwise_count(s: Seq<u32>)
    requires
        forall|i: int, j: int| 0 <= i < j < s.len() ==> s[i] != s[j],
    ensures
        forall|y: u32| count_of(s, y) <= 1,
    decreases s.len(),
{
    if s.len() > 0 {
        assert forall|i: int, j: int|
            0 <= i < j < s.drop_first().len() implies s.drop_first()[i] != s.drop_first()[j] by {
            assert(s.drop_first()[i] == s[i + 1]);
            assert(s.drop_first()[j] == s[j + 1]);
        }
        lemma_pairwise_count(s.drop_first());
        assert forall|y: u32| count_of(s, y) <= 1 by {
            if s[0] == y && count_of(s.drop_first(), y) >= 1 {
                lemma_count_contains(s.drop_first(), y);
                let l = choose|l: int| 0 <= l < s.drop_first().len() && s.drop_first()[l] == y;
                assert(s[l + 1] == s[0]);
                assert(false);
            }
        }
    }
}

/// The position of the first occurrence of `x`.
pub open spec fn spec_index_of(s: Seq<u32>, x: u32) -> int
    decreases s.len(),
{
    if s.len() == 0 {
        0
    } else if s[0] == x {
        0
    } else {
        1 + spec_index_of(s.drop_first(), x)
    }
}

/// For a present element, the first occurrence is a real position holding
/// it, with nothing equal before it.
pub proof fn lemma_index_of(s: Seq<u32>, x: u32)
    requires
        s.contains(x),
    ensures
        0 <= spec_index_of(s, x) < s.len(),
        s[spec_index_of(s, x)] == x,
        forall|l: int| 0 <= l < spec_index_of(s, x) ==> s[l] != x,
    decreases s.len(),
{
    if s[0] != x {
        let l = choose|l: int| 0 <= l < s.len() && s[l] == x;
        assert(s.drop_first()[l - 1] == x);
        lemma_index_of(s.drop_first(), x);
        assert forall|l: int| 0 <= l < spec_index_of(s, x) implies s[l] != x by {
            if l > 0 {
                assert(s.drop_first()[l - 1] == s[l]);
            }
        }
    }
}

/// Places `x` into an ascending vector, keeping it ascending.
fn insert_in_order(v: &mut Vec<u32>, x: u32)
    ensures
        final(v)@ == insert_sorted(old(v)@, x),
{
    let mut p: usize = 0;
    while p < v.len() && !(x < v[p])
        invariant
            p <= v@.len(),
            v@ == old(v)@,
            forall|l: int| 0 <= l < p ==> !(x < v@[l]),
        decreases v@.len() - p,
    {
        p = p + 1;
    }
    v.insert(p, x);
    proof {
        lemma_insert_sorted_split(old(v)@, x, p as int);
    }
}

/// Where the scan for the insertion point ends, the recursive insertion is
/// exactly a positional insert.
proof fn lemma_insert_sorted_split(s: Seq<u32>, x: u32, p: int)
    requires
        0 <= p <= s.len(),
        forall|l: int| 0 <= l < p ==> !(x < s[l]),
        p < s.len() ==> x < s[p],
    ensures
        insert_sorted(s, x) == s.insert(p, x),
    decreases p,
{
    if p == 0 {
        if s.len() == 0 {
            assert(insert_sorted(s, x) =~= s.insert(0, x));
        } else {
            assert(insert_sorted(s, x) =~= s.insert(0, x));
        }
    } else {
        lemma_insert_sorted_split(s.drop_first(), x, p - 1);
        assert(insert_sorted(s, x) == seq![s[0]] + insert_sorted(s.drop_first(), x));
        assert(insert_sorted(s, x) =~= s.insert(p, x));
    }
}

/// The waiting identifiers sorted ascending: the deterministic order in
/// which graph indices are assigned.
pub fn sorted_ids(v: &Vec<u32>) -> (r: Vec<u32>)
    ensures
        r@ == sort_ids(v@),
{
    let mut r: Vec<u32> = Vec::new();
    let mut i: usize = v.len();
    proof {
        assert(v@.skip(v@.len() as int) =~= Seq::<u32>::empty());
    }
    while i > 0
        invariant
            i <= v@.len(),
            r@ == sort_ids(v@.skip(i as int)),
        decreases i,
    {
        i = i - 1;
        insert_in_order(&mut r, v[i]);
        proof {
            assert(v@.skip(i as int).drop_first() =~= v@.skip(i + 1));
            assert(v@.skip(i as int)[0] == v@[i as int]);
        }
    }
    proof {
        assert(v@.skip(0) =~= v@);
    }
    r
}

/// An all-zero square weight matrix over `n` indices.
pub open spec fn zero_matrix(n: nat) -> Seq<Seq<u32>> {
    Seq::new(n, |i: int| Seq::new(n, |j: int| 0u32))
}

/// One cell of the matrix set.
pub open spec fn set_w(w: Seq<Seq<u32>>, i: int, j: int, x: u32) -> Seq<Seq<u32>> {
    w.update(i, w[i].update(j, x))
}

/// The historical rows applied to a matrix in order, each one mirrored so
/// the matrix stays symmetric; identifiers are translated to positions in
/// the sorted node list.
pub open spec fn apply_edges(w: Seq<Seq<u32>>, ids: Seq<u32>, es: Seq<(u32, u32, u32)>) -> Seq<
    Seq<u32>,
>
    decreases es.len(),
{
    if es.len() == 0 {
        w
    } else {
        let prev = apply_edges(w, ids, es.drop_last());
        let e = es.last();
        let i = spec_index_of(ids, e.0);
        let j = spec_index_of(ids, e.1);
        set_w(set_w(prev, i, j, e.2), j, i, e.2)
    }
}

/// The weight matrix one round's graph carries.
pub open spec fn round_matrix(ids: Seq<u32>, es: Seq<(u32, u32, u32)>) -> Seq<Seq<u32>> {
    apply_edges(zero_matrix(ids.len()), ids, es)
}

/// A matching result carried back from graph indices to identifiers.
pub open spec fn translate_plan(m: Seq<(usize, Option<usize>)>, ids: Seq<u32>) -> Seq<
    (u32, Option<u32>),
> {
    m.map_values(
        |p: (usize, Option<usize>)|
            (
                ids[p.0 as int],
                match p.1 {
                    Some(b) => Some(ids[b as int]),
                    None => None::<u32>,
                },
            ),
    )
}

/// What one round pairs up, given the waiting identifiers and the
/// historical rows among them: indices are assigned in ascending identifier
/// order, the greedy pass runs, and its result is translated back.
pub open spec fn spec_plan(waiters: Seq<u32>, es: Seq<(u32, u32, u32)>) -> Seq<(u32, Option<u32>)> {
    let ids = sort_ids(waiters);
    translate_plan(greedy_pairs(round_matrix(ids, es), all_unseen(ids.len()), 0), ids)
}

/// Every edge endpoint survives the sort of the waiting identifiers.
proof fn lemma_edges_in_sorted(waiters: Seq<u32>, es: Seq<(u32, u32, u32)>)
    requires
        forall|k: int|
            0 <= k < es.len() ==> waiters.contains((#[trigger] es[k]).0) && waiters.contains(
                es[k].1,
            ),
    ensures
        forall|k: int|
            0 <= k < es.len() ==> sort_ids(waiters).contains((#[trigger] es[k]).0) && sort_ids(
                waiters,
            ).contains(es[k].1),
{
    lemma_sort_count(waiters);
    assert forall|k: int|
        0 <= k < es.len() implies sort_ids(waiters).contains((#[trigger] es[k]).0) && sort_ids(
        waiters,
    ).contains(es[k].1) by {
        lemma_count_contains(waiters, es[k].0);
        lemma_count_contains(sort_ids(waiters), es[k].0);
        lemma_count_contains(waiters, es[k].1);
        lemma_count_contains(sort_ids(waiters), es[k].1);
    }
}

/// Applying edge rows whose endpoints lie in the node list never changes
/// the matrix's shape.
proof fn lemma_apply_edges_shape(w: Seq<Seq<u32>>, ids: Seq<u32>, es: Seq<(u32, u32, u32)>)
    requires
        square(w),
        w.len() == ids.len(),
        forall|k: int|
            0 <= k < es.len() ==> ids.contains((#[trigger] es[k]).0) && ids.contains(es[k].1),
    ensures
        apply_edges(w, ids, es).len() == w.len(),
        square(apply_edges(w, ids, es)),
    decreases es.len(),
{
    if es.len() > 0 {
        assert forall|k: int|
            0 <= k < es.drop_last().len() implies ids.contains(
            (#[trigger] es.drop_last()[k]).0,
        ) && ids.contains(es.drop_last()[k].1) by {
            assert(es.drop_last()[k] == es[k]);
        }
        lemma_apply_edges_shape(w, ids, es.drop_last());
        let prev = apply_edges(w, ids, es.drop_last());
        let whole = apply_edges(w, ids, es);
        let e = es.last();
        assert(es[es.len() - 1] == e);
        lemma_index_of(ids, e.0);
        lemma_index_of(ids, e.1);
        let i = spec_index_of(ids, e.0);
        let j = spec_index_of(ids, e.1);
        assert forall|r: int| 0 <= r < whole.len() implies (#[trigger] whole[r]).len()
            == whole.len() by {
            assert(prev[r].len() == prev.len());
            assert(prev[i].len() == prev.len());
            assert(prev[j].len() == prev.len());
        }
    }
}

/// The position of an identifier in the sorted node list.
fn index_of(v: &Vec<u32>, x: u32) -> (r: usize)
    requires
        v@.contains(x),
    ensures
        r as int == spec_index_of(v@, x),
        r < v@.len(),
        v@[r as int] == x,
{
    proof {
        lemma_index_of(v@, x);
    }
    let n = v.len();
    let mut r: usize = 0;
    while v[r] != x
        invariant
            n == v@.len(),
            0 <= r <= spec_index_of(v@, x),
            spec_index_of(v@, x) < v@.len(),
            forall|l: int| 0 <= l < spec_index_of(v@, x) ==> v@[l] != x,
            v@[spec_index_of(v@, x)] == x,
        decreases v@.len() - r,
    {
        r = r + 1;
    }
    r
}

/// The rows one round records under a generation, one per plan entry.
pub open spec fn plan_rows(plan: Seq<(u32, Option<u32>)>, generation: u32) -> Seq<MatchRow> {
    plan.map_values(
        |p: (u32, Option<u32>)| MatchRow { generation: generation, person1: p.0, person2: p.1 },
    )
}

/// The edge list after every pair of the plan is recorded, in order.
pub open spec fn bump_all(es: Seq<(u32, u32, u32)>, plan: Seq<(u32, Option<u32>)>) -> Seq<
    (u32, u32, u32),
>
    decreases plan.len(),
{
    if plan.len() == 0 {
        es
    } else {
        let prev = bump_all(es, plan.drop_last());
        match plan.last().1 {
            Some(b) => bump_edges(prev, plan.last().0, b),
            None => prev,
        }
    }
}

/// One plan row's waiting-flag clears applied to the registry: the member,
/// then the partner when present.
pub open spec fn clear_row(ps: Seq<Person>, row: (u32, Option<u32>)) -> Seq<Person> {
    let once = ps.map_values(|p: Person| clear_one(p, row.0));
    match row.1 {
        Some(b) => once.map_values(|p: Person| clear_one(p, b)),
        None => once,
    }
}

/// The registry after everyone the plan involves has been cleared.
pub open spec fn clear_all(ps: Seq<Person>, plan: Seq<(u32, Option<u32>)>) -> Seq<Person>
    decreases plan.len(),
{
    if plan.len() == 0 {
        ps
    } else {
        clear_row(clear_all(ps, plan.drop_last()), plan.last())
    }
}

/// How often the plan mentions an identifier, as member or as partner.
pub open spec fn occ_id(plan: Seq<(u32, Option<u32>)>, y: u32) -> nat
    decreases plan.len(),
{
    if plan.len() == 0 {
        0
    } else {
        occ_id(plan.drop_last(), y) + (if plan.last().0 == y {
            1nat
        } else {
            0nat
        }) + (match plan.last().1 {
            Some(b) => if b == y {
                1nat
            } else {
                0nat
            },
            None => 0nat,
        })
    }
}

/// The number of rows of a plan without a partner.
pub open spec fn none_count(plan: Seq<(u32, Option<u32>)>) -> nat
    decreases plan.len(),
{
    if plan.len() == 0 {
        0
    } else {
        none_count(plan.drop_last()) + (match plan.last().1 {
            Some(_) => 0nat,
            None => 1nat,
        })
    }
}

/// How often the plan records a pairing carrying the canonical key of
/// `{x, y}`.
pub open spec fn pair_bumps(plan: Seq<(u32, Option<u32>)>, x: u32, y: u32) -> nat
    decreases plan.len(),
{
    if plan.len() == 0 {
        0
    } else {
        pair_bumps(plan.drop_last(), x, y) + (match plan.last().1 {
            Some(b) => if key_lo(plan.last().0, b) == key_lo(x, y) && key_hi(plan.last().0, b)
                == key_hi(x, y) {
                1nat
            } else {
                0nat
            },
            None => 0nat,
        })
    }
}

/// Occurrence counting over a matching result can also peel the last row.
proof fn lemma_occ_drop_last(m: Seq<(usize, Option<usize>)>, x: usize)
    requires
        m.len() > 0,
    ensures
        occ(m, x) == occ(m.drop_last(), x) + row_occ(m.last(), x),
        singles(m) == singles(m.drop_last()) + (match m.last().1 {
            Some(_) => 0nat,
            None => 1nat,
        }),
    decreases m.len(),
{
    if m.len() == 1 {
        assert(m.drop_last() =~= Seq::<(usize, Option<usize>)>::empty());
        assert(m.drop_first() =~= Seq::<(usize, Option<usize>)>::empty());
        assert(m.last() == m[0]);
    } else {
        lemma_occ_drop_last(m.drop_first(), x);
        assert(m.drop_first().drop_last() =~= m.drop_last().drop_first());
        assert(m.drop_first().last() == m.last());
        assert(m.drop_last()[0] == m[0]);
    }
}

/// Weights are a function of the canonical key alone.
proof fn lemma_weight_key(es: Seq<(u32, u32, u32)>, x: u32, y: u32, a: u32, b: u32)
    requires
        key_lo(x, y) == key_lo(a, b),
        key_hi(x, y) == key_hi(a, b),
    ensures
        weight_in(es, x, y) == weight_in(es, a, b),
    decreases es.len(),
{
    if es.len() > 0 {
        lemma_weight_key(es.drop_first(), x, y, a, b);
    }
}

/// With every stored weight below the maximum, every pair's weight is too.
proof fn lemma_weight_in_bound(es: Seq<(u32, u32, u32)>)
    requires
        forall|k: int| 0 <= k < es.len() ==> (#[trigger] es[k]).2 < u32::MAX,
    ensures
        forall|x: u32, y: u32| #[trigger] weight_in(es, x, y) < u32::MAX,
    decreases es.len(),
{
    if es.len() > 0 {
        assert forall|k: int| 0 <= k < es.drop_first().len() implies (#[trigger] es.drop_first()[k]).2
            < u32::MAX by {
            assert(es.drop_first()[k] == es[k + 1]);
        }
        lemma_weight_in_bound(es.drop_first());
        assert forall|x: u32, y: u32| #[trigger] weight_in(es, x, y) < u32::MAX by {
            assert(weight_in(es.drop_first(), x, y) < u32::MAX);
        }
    }
}

/// A plan prefix never mentions an identifier more often than the whole
/// plan does.
proof fn lemma_occ_id_prefix_le(plan: Seq<(u32, Option<u32>)>, k: int, y: u32)
    requires
        0 <= k <= plan.len(),
    ensures
        occ_id(plan.take(k), y) <= occ_id(plan, y),
    decreases plan.len() - k,
{
    if k == plan.len() {
        assert(plan.take(k) =~= plan);
    } else {
        lemma_occ_id_prefix_le(plan, k + 1, y);
        assert(plan.take(k + 1).drop_last() =~= plan.take(k));
        assert(plan.take(k + 1).last() == plan[k]);
    }
}

/// A pairing bump for `{x, y}` always mentions the smaller endpoint.
proof fn lemma_pair_bumps_le_occ(plan: Seq<(u32, Option<u32>)>, x: u32, y: u32)
    ensures
        pair_bumps(plan, x, y) <= occ_id(plan, key_lo(x, y)),
    decreases plan.len(),
{
    if plan.len() > 0 {
        lemma_pair_bumps_le_occ(plan.drop_last(), x, y);
    }
}

/// Recording a whole plan whose rows mention each identifier at most once
/// adds exactly one to each recorded pair's weight and nothing anywhere
/// else.
proof fn lemma_bump_all_weights(es: Seq<(u32, u32, u32)>, plan: Seq<(u32, Option<u32>)>)
    requires
        forall|l: int|
            0 <= l < plan.len() ==> (match (#[trigger] plan[l]).1 {
                Some(b) => b != plan[l].0,
                None => true,
            }),
        forall|y: u32| occ_id(plan, y) <= 1,
        forall|x: u32, y: u32| #[trigger] weight_in(es, x, y) < u32::MAX,
    ensures
        forall|x: u32, y: u32|
            #[trigger] weight_in(bump_all(es, plan), x, y) == weight_in(es, x, y) + pair_bumps(
                plan,
                x,
                y,
            ),
        forall|x: u32, y: u32| #[trigger] pair_bumps(plan, x, y) <= 1,
    decreases plan.len(),
{
    assert forall|x: u32, y: u32| #[trigger] pair_bumps(plan, x, y) <= 1 by {
        lemma_pair_bumps_le_occ(plan, x, y);
    }
    if plan.len() > 0 {
        let front = plan.drop_last();
        assert forall|l: int|
            0 <= l < front.len() implies (match (#[trigger] front[l]).1 {
            Some(b) => b != front[l].0,
            None => true,
        }) by {
            assert(front[l] == plan[l]);
        }
        assert forall|y: u32| occ_id(front, y) <= 1 by {
            assert(occ_id(plan, y) <= 1);
        }
        lemma_bump_all_weights(es, front);
        let prev = bump_all(es, front);
        match plan.last().1 {
            Some(b) => {
                let a = plan.last().0;
                assert(occ_id(front, a) == 0) by {
                    assert(occ_id(plan, a) <= 1);
                }
                assert(occ_id(front, b) == 0) by {
                    assert(occ_id(plan, b) <= 1);
                }
                assert(pair_bumps(front, a, b) == 0) by {
                    lemma_pair_bumps_le_occ(front, a, b);
                }
                assert(weight_in(prev, a, b) == weight_in(es, a, b));
                assert forall|x: u32, y: u32|
                    #[trigger] weight_in(bump_all(es, plan), x, y) == weight_in(es, x, y)
                        + pair_bumps(plan, x, y) by {
                    lemma_bump_weight(prev, a, b, x, y);
                    if key_lo(x, y) == key_lo(a, b) && key_hi(x, y) == key_hi(a, b) {
                        lemma_weight_key(es, x, y, a, b);
                        lemma_weight_key(prev, x, y, a, b);
                        lemma_pair_bumps_le_occ(front, x, y);
                        assert(occ_id(front, key_lo(x, y)) == 0);
                        assert(pair_bumps(front, x, y) == 0);
                    }
                }
            },
            None => {
                assert forall|x: u32, y: u32|
                    #[trigger] weight_in(bump_all(es, plan), x, y) == weight_in(es, x, y)
                        + pair_bumps(plan, x, y) by {
                    assert(weight_in(prev, x, y) == weight_in(es, x, y) + pair_bumps(front, x, y));
                }
            },
        }
    }
}

/// What clearing a whole plan does to the registry: identities and names
/// stay, and a flag survives exactly when the plan never mentions its owner.
proof fn lemma_clear_all_props(ps: Seq<Person>, plan: Seq<(u32, Option<u32>)>)
    ensures
        clear_all(ps, plan).len() == ps.len(),
        forall|k: int|
            0 <= k < ps.len() ==> (#[trigger] clear_all(ps, plan)[k]).id == ps[k].id && clear_all(
                ps,
                plan,
            )[k].email == ps[k].email && clear_all(ps, plan)[k].name == ps[k].name && clear_all(
                ps,
                plan,
            )[k].waiting == (ps[k].waiting && occ_id(plan, ps[k].id) == 0),
    decreases plan.len(),
{
    if plan.len() > 0 {
        lemma_clear_all_props(ps, plan.drop_last());
        let prev = clear_all(ps, plan.drop_last());
        let whole = clear_all(ps, plan);
        let row = plan.last();
        assert forall|k: int|
            0 <= k < ps.len() implies (#[trigger] whole[k]).id == ps[k].id && whole[k].email
            == ps[k].email && whole[k].name == ps[k].name && whole[k].waiting == (ps[k].waiting
            && occ_id(plan, ps[k].id) == 0) by {
            let once = prev.map_values(|p: Person| clear_one(p, row.0));
            assert(once[k] == clear_one(prev[k], row.0));
            match row.1 {
                Some(b) => {
                    assert(whole[k] == clear_one(once[k], b));
                },
                None => {
                    assert(whole[k] == once[k]);
                },
            }
        }
    }
}

/// A waiting person's identifier is in the waiting list.
proof fn lemma_waiting_ids_member(ps: Seq<Person>, k: int)
    requires
        0 <= k < ps.len(),
        ps[k].waiting,
    ensures
        waiting_ids(ps).contains(ps[k].id),
    decreases ps.len(),
{
    let whole = waiting_ids(ps);
    let prev = waiting_ids(ps.drop_last());
    if k == ps.len() - 1 {
        assert(whole[prev.len() as int] == ps[k].id);
    } else {
        assert(ps.drop_last()[k] == ps[k]);
        lemma_waiting_ids_member(ps.drop_last(), k);
        let l = choose|l: int| 0 <= l < prev.len() && prev[l] == ps[k].id;
        assert(whole[l] == ps[k].id);
    }
}

/// Every waiting-list entry is the identifier of some waiting person.
proof fn lemma_waiting_ids_source(ps: Seq<Person>, l: int)
    requires
        0 <= l < waiting_ids(ps).len(),
    ensures
        exists|k: int|
            0 <= k < ps.len() && (#[trigger] ps[k]).waiting && ps[k].id == waiting_ids(ps)[l],
    decreases ps.len(),
{
    let whole = waiting_ids(ps);
    let prev = waiting_ids(ps.drop_last());
    if l < prev.len() {
        lemma_waiting_ids_source(ps.drop_last(), l);
        let k = choose|k: int|
            0 <= k < ps.drop_last().len() && (#[trigger] ps.drop_last()[k]).waiting
                && ps.drop_last()[k].id == prev[l];
        assert(ps[k] == ps.drop_last()[k]);
        assert(whole[l] == prev[l]);
    } else {
        assert(ps.last().waiting);
        assert(whole[l] == ps.last().id);
        assert(ps[ps.len() - 1] == ps.last());
    }
}

/// Counting distributes over concatenation of identifier lists.
proof fn lemma_count_concat(a: Seq<u32>, b: Seq<u32>, y: u32)
    ensures
        count_of(a + b, y) == count_of(a, y) + count_of(b, y),
    decreases a.len(),
{
    if a.len() == 0 {
        assert(a + b =~= b);
    } else {
        lemma_count_concat(a.drop_first(), b, y);
        assert((a + b).drop_first() =~= a.drop_first() + b);
        assert((a + b)[0] == a[0]);
    }
}

/// With unique registry identifiers, the waiting list holds each
/// identifier at most once.
proof fn lemma_waiting_count(ps: Seq<Person>)
    requires
        people_wf(ps),
    ensures
        forall|y: u32| count_of(waiting_ids(ps), y) <= 1,
    decreases ps.len(),
{
    if ps.len() > 0 {
        assert forall|i: int, j: int|
            0 <= i < j < ps.drop_last().len() implies (#[trigger] ps.drop_last()[i]).id != (
        #[trigger] ps.drop_last()[j]).id by {
            assert(ps.drop_last()[i] == ps[i]);
            assert(ps.drop_last()[j] == ps[j]);
        }
        lemma_waiting_count(ps.drop_last());
        let prev = waiting_ids(ps.drop_last());
        let tail: Seq<u32> = if ps.last().waiting {
            seq![ps.last().id]
        } else {
            Seq::empty()
        };
        assert forall|y: u32| count_of(waiting_ids(ps), y) <= 1 by {
            lemma_count_concat(prev, tail, y);
            if tail.len() > 0 {
                assert(count_of(tail, y) == (if ps.last().id == y {
                    1nat
                } else {
                    0nat
                })) by {
                    assert(tail.drop_first() =~= Seq::<u32>::empty());
                    assert(tail[0] == ps.last().id);
                    assert(count_of(tail.drop_first(), y) == 0);
                }
                if ps.last().id == y && count_of(prev, y) >= 1 {
                    lemma_count_contains(prev, y);
                    let l = choose|l: int| 0 <= l < prev.len() && prev[l] == y;
                    lemma_waiting_ids_source(ps.drop_last(), l);
                    let k = choose|k: int|
                        0 <= k < ps.drop_last().len() && (#[trigger] ps.drop_last()[k]).waiting
                            && ps.drop_last()[k].id == prev[l];
                    assert(ps[k].id == ps[ps.len() - 1].id);
                    assert(false);
                }
            } else {
                assert(count_of(tail, y) == 0);
            }
        }
    }
}

/// Translation back to identifiers turns index occurrences into identifier
/// occurrences: with distinct identifiers, an identifier is mentioned as
/// often as its position was.
proof fn lemma_translate_occ(m: Seq<(usize, Option<usize>)>, ids: Seq<u32>, y: u32)
    requires
        pairs_wf(m, ids.len() as int),
        ids.len() <= usize::MAX,
        forall|u: u32| count_of(ids, u) <= 1,
    ensures
        occ_id(translate_plan(m, ids), y) == (if ids.contains(y) {
            occ(m, spec_index_of(ids, y) as usize)
        } else {
            0nat
        }),
    decreases m.len(),
{
    let t = translate_plan(m, ids);
    if m.len() == 0 {
        if ids.contains(y) {
            assert(occ(m, spec_index_of(ids, y) as usize) == 0);
        }
    } else {
        let front = m.drop_last();
        assert forall|k: int|
            0 <= k < front.len() implies ((#[trigger] front[k]).0 as int) < ids.len() && (
        match front[k].1 {
            Some(b) => front[k].0 < b && (b as int) < ids.len(),
            None => true,
        }) by {
            assert(front[k] == m[k]);
        }
        lemma_translate_occ(front, ids, y);
        assert(t.drop_last() =~= translate_plan(front, ids));
        assert(t.last() == (
            ids[m.last().0 as int],
            match m.last().1 {
                Some(b) => Some(ids[b as int]),
                None => None::<u32>,
            },
        ));
        assert(m[m.len() - 1] == m.last());
        let p0 = m.last().0 as int;
        if ids.contains(y) {
            lemma_index_of(ids, y);
            let idx = spec_index_of(ids, y);
            lemma_occ_drop_last(m, idx as usize);
            if ids[p0] == y {
                lemma_distinct_at(ids, p0, idx);
            }
            match m.last().1 {
                Some(b) => {
                    if ids[b as int] == y {
                        lemma_distinct_at(ids, b as int, idx);
                    }
                },
                None => {},
            }
        } else {
            assert(ids.contains(ids[p0]));
            match m.last().1 {
                Some(b) => {
                    assert(ids.contains(ids[b as int]));
                },
                None => {},
            }
        }
    }
}

/// Translation keeps each row's pairing shape, so it keeps the number of
/// singleton rows.
proof fn lemma_translate_none(m: Seq<(usize, Option<usize>)>, ids: Seq<u32>)
    ensures
        none_count(translate_plan(m, ids)) == singles(m),
    decreases m.len(),
{
    let t = translate_plan(m, ids);
    if m.len() == 0 {
    } else {
        lemma_translate_none(m.drop_last(), ids);
        assert(t.drop_last() =~= translate_plan(m.drop_last(), ids));
        lemma_occ_drop_last(m, 0);
        assert(t.last() == (
            ids[m.last().0 as int],
            match m.last().1 {
                Some(b) => Some(ids[b as int]),
                None => None::<u32>,
            },
        ));
        assert(m[m.len() - 1] == m.last());
    }
}

/// What one round's plan guarantees, given a waiting snapshot without
/// duplicates and edge rows restricted to it: the right number of rows,
/// singletons exactly according to parity, no one paired with themselves,
/// and every waiting participant mentioned exactly once.
proof fn lemma_plan_props(wids: Seq<u32>, es: Seq<(u32, u32, u32)>)
    requires
        forall|y: u32| count_of(wids, y) <= 1,
        forall|k: int|
            0 <= k < es.len() ==> wids.contains((#[trigger] es[k]).0) && wids.contains(es[k].1),
        wids.len() <= usize::MAX,
    ensures
        spec_plan(wids, es).len() == (wids.len() + 1) / 2,
        none_count(spec_plan(wids, es)) == wids.len() % 2,
        forall|l: int|
            0 <= l < spec_plan(wids, es).len() ==> (match (#[trigger] spec_plan(wids, es)[l]).1 {
                Some(b) => b != spec_plan(wids, es)[l].0,
                None => true,
            }),
        forall|y: u32| occ_id(spec_plan(wids, es), y) <= 1,
        forall|y: u32| wids.contains(y) ==> occ_id(spec_plan(wids, es), y) == 1,
{
    let ids = sort_ids(wids);
    lemma_sort_count(wids);
    assert forall|u: u32| count_of(ids, u) <= 1 by {
        assert(count_of(ids, u) == count_of(wids, u));
    }
    lemma_edges_in_sorted(wids, es);
    lemma_apply_edges_shape(zero_matrix(ids.len()), ids, es);
    let w = round_matrix(ids, es);
    crate::matching::lemma_greedy_partition(w);
    let m = greedy_pairs(w, all_unseen(ids.len()), 0);
    let plan = translate_plan(m, ids);
    assert(plan.len() == m.len());
    lemma_translate_none(m, ids);
    assert forall|l: int|
        0 <= l < plan.len() implies (match (#[trigger] plan[l]).1 {
        Some(b) => b != plan[l].0,
        None => true,
    }) by {
        assert(plan[l] == (
            ids[m[l].0 as int],
            match m[l].1 {
                Some(b) => Some(ids[b as int]),
                None => None::<u32>,
            },
        ));
        match m[l].1 {
            Some(b) => {
                if ids[m[l].0 as int] == ids[b as int] {
                    lemma_distinct_at(ids, m[l].0 as int, b as int);
                }
            },
            None => {},
        }
    }
    assert forall|y: u32| occ_id(plan, y) <= 1 by {
        lemma_translate_occ(m, ids, y);
        if ids.contains(y) {
            lemma_index_of(ids, y);
        }
    }
    assert forall|y: u32| wids.contains(y) implies occ_id(plan, y) == 1 by {
        lemma_translate_occ(m, ids, y);
        lemma_count_contains(wids, y);
        lemma_count_contains(ids, y);
        lemma_index_of(ids, y);
    }
}

/// Computes one round's plan from a snapshot of waiting identifiers and the
/// historical rows among them: who is paired with whom, and who (for an odd
/// count) stays unpaired. Pure: it writes nothing anywhere.
pub fn plan_round(waiters: &Vec<u32>, edges: &Vec<(u32, u32, u32)>) -> (r: Vec<(u32, Option<u32>)>)
    requires
        forall|k: int|
            0 <= k < edges@.len() ==> waiters@.contains((#[trigger] edges@[k]).0)
                && waiters@.contains(edges@[k].1) && edges@[k].0 != edges@[k].1,
    ensures
        r@ == spec_plan(waiters@, edges@),
{
    let ids = sorted_ids(waiters);
    let ghost idseq = ids@;
    let ghost n = idseq.len();
    let mut g = Graph::default();
    let mut k: usize = 0;
    while k < ids.len()
        invariant
            g.wf(),
            ids@ == idseq,
            k <= n,
            n == idseq.len(),
            g.n() == k,
            g.node_seq() == idseq.take(k as int),
            forall|i: int, j: int| 0 <= i < k && 0 <= j < k ==> #[trigger] g.wt(i, j) == 0u32,
        decreases n - k,
    {
        g.add_node(ids[k]);
        k = k + 1;
        proof {
            assert(g.node_seq() =~= idseq.take(k as int));
        }
    }
    proof {
        assert(g.node_seq() =~= idseq);
        assert forall|r: int| 0 <= r < n implies #[trigger] g.mat()[r] =~= zero_matrix(n)[r] by {
            assert(g.mat()[r].len() == n);
            assert forall|c: int| 0 <= c < n implies g.mat()[r][c] == 0u32 by {
                assert(g.wt(r, c) == 0u32);
            }
        }
        assert(g.mat() =~= zero_matrix(n));
        assert(sort_ids(waiters@) == idseq);
        lemma_edges_in_sorted(waiters@, edges@);
    }
    let mut e: usize = 0;
    while e < edges.len()
        invariant
            g.wf(),
            ids@ == idseq,
            n == idseq.len(),
            idseq == sort_ids(waiters@),
            g.node_seq() == idseq,
            g.n() == n,
            e <= edges@.len(),
            g.mat() == apply_edges(zero_matrix(n), idseq, edges@.take(e as int)),
            forall|k2: int|
                0 <= k2 < edges@.len() ==> waiters@.contains((#[trigger] edges@[k2]).0)
                    && waiters@.contains(edges@[k2].1) && edges@[k2].0 != edges@[k2].1,
            forall|k2: int|
                0 <= k2 < edges@.len() ==> idseq.contains((#[trigger] edges@[k2]).0)
                    && idseq.contains(edges@[k2].1),
        decreases edges@.len() - e,
    {
        let (a, b, wgt) = edges[e];
        proof {
            lemma_index_of(idseq, a);
            lemma_index_of(idseq, b);
        }
        let i = index_of(&ids, a);
        let j = index_of(&ids, b);
        let ghost gpre = g;
        g.add_edge(i, j, wgt);
        e = e + 1;
        proof {
            let prev = apply_edges(zero_matrix(n), idseq, edges@.take(e - 1));
            let target = apply_edges(zero_matrix(n), idseq, edges@.take(e as int));
            assert(edges@.take(e as int).drop_last() =~= edges@.take(e - 1));
            assert(edges@.take(e as int).last() == edges@[e - 1]);
            assert(i as int == spec_index_of(idseq, a));
            assert(j as int == spec_index_of(idseq, b));
            assert(target == set_w(
                set_w(prev, i as int, j as int, wgt),
                j as int,
                i as int,
                wgt,
            ));
            assert forall|k2: int|
                0 <= k2 < edges@.take(e - 1).len() implies idseq.contains(
                (#[trigger] edges@.take(e - 1)[k2]).0,
            ) && idseq.contains(edges@.take(e - 1)[k2].1) by {
                assert(edges@.take(e - 1)[k2] == edges@[k2]);
            }
            lemma_apply_edges_shape(zero_matrix(n), idseq, edges@.take(e - 1));
            assert forall|r: int| 0 <= r < n implies #[trigger] g.mat()[r] =~= target[r] by {
                assert(prev[r].len() == n);
                assert(g.mat()[r].len() == n);
                assert forall|c: int| 0 <= c < n implies #[trigger] g.mat()[r][c]
                    == target[r][c] by {
                    assert(g.wt(r, c) == (if (r == i && c == j) || (r == j && c == i) {
                        wgt
                    } else {
                        gpre.wt(r, c)
                    }));
                }
            }
            assert(g.mat() =~= target);
        }
    }
    proof {
        assert(edges@.take(edges@.len() as int) =~= edges@);
        assert(g.mat() == round_matrix(idseq, edges@));
    }
    let m = g.matching();
    proof {
        crate::matching::lemma_matching_partition(g);
        assert(m@ == greedy_pairs(round_matrix(idseq, edges@), all_unseen(n), 0));
    }
    let mut plan: Vec<(u32, Option<u32>)> = Vec::new();
    let mut t: usize = 0;
    while t < m.len()
        invariant
            t <= m@.len(),
            ids@ == idseq,
            pairs_wf(m@, idseq.len() as int),
            plan@ == translate_plan(m@, idseq).take(t as int),
        decreases m@.len() - t,
    {
        let (x, yo) = m[t];
        let px = ids[x];
        let py = match yo {
            Some(y) => Some(ids[y]),
            None => None,
        };
        plan.push((px, py));
        t = t + 1;
        proof {
            assert(plan@ =~= translate_plan(m@, idseq).take(t as int));
        }
    }
    proof {
        assert(translate_plan(m@, idseq).take(m@.len() as int) =~= translate_plan(m@, idseq));
        assert(plan@ == spec_plan(waiters@, edges@));
    }
    plan
}

/// Drives one end-to-end matching round against the store. An empty
/// waiting set is a no-op success: nothing is allocated, recorded or
/// touched. Otherwise a fresh generation is minted at `now`, one row per
/// plan entry is recorded under it (raising each recorded pair's weight by
/// exactly one), and the waiting flag of everyone the round involved is
/// cleared — the whole current pool.
pub fn run_round(store: &mut MemStore, now: u64) -> (r: Option<u32>)
    requires
        old(store).wf(),
        next_generation(old(store).generations@) <= u32::MAX,
        forall|k: int|
            0 <= k < old(store).edges@.len() ==> (#[trigger] old(store).edges@[k]).2 < u32::MAX,
    ensures
        final(store).wf(),
        waiting_ids(old(store).people@).len() == 0 ==> r is None && *final(store) == *old(store),
        waiting_ids(old(store).people@).len() > 0 ==> ({
            let wids = waiting_ids(old(store).people@);
            let plan = spec_plan(wids, restrict_edges(old(store).edges@, wids));
            let g = next_generation(old(store).generations@) as u32;
            &&& r == Some(g)
            &&& final(store).generations@ == old(store).generations@.push(
                (MatchMeta { generation: g, time: now }),
            )
            &&& final(store).matches@ == old(store).matches@ + plan_rows(plan, g)
            &&& final(store).edges@ == bump_all(old(store).edges@, plan)
            &&& final(store).people@ == clear_all(old(store).people@, plan)
            &&& forall|k: int|
                0 <= k < final(store).people@.len()
                    ==> !(#[trigger] final(store).people@[k]).waiting
        }),
{
    let waiters = store.list_waiters();
    if waiters.len() == 0 {
        return None;
    }
    let ghost wids = waiters@;
    let edges = store.edges_among(&waiters);
    proof {
        crate::store::lemma_restrict_props(store.edges@, wids);
        assert forall|k: int|
            0 <= k < edges@.len() implies wids.contains((#[trigger] edges@[k]).0) && wids.contains(
            edges@[k].1,
        ) && edges@[k].0 != edges@[k].1 by {
            let l = choose|l: int|
                0 <= l < old(store).edges@.len() && old(store).edges@[l] == edges@[k];
            assert(old(store).edges@[l].0 < old(store).edges@[l].1);
        }
    }
    let plan = plan_round(&waiters, &edges);
    proof {
        lemma_waiting_count(old(store).people@);
        vstd::std_specs::vec::axiom_spec_len(&waiters);
        lemma_plan_props(wids, edges@);
        lemma_weight_in_bound(old(store).edges@);
    }
    let meta = store.allocate_generation(now);
    let g = meta.generation;
    let ghost planseq = plan@;
    let mut k: usize = 0;
    while k < plan.len()
        invariant
            store.wf(),
            plan@ == planseq,
            k <= planseq.len(),
            g == meta.generation,
            store.people@ == old(store).people@,
            store.generations@ == old(store).generations@.push(meta),
            store.matches@ == old(store).matches@ + plan_rows(planseq.take(k as int), g),
            store.edges@ == bump_all(old(store).edges@, planseq.take(k as int)),
            forall|l: int|
                0 <= l < planseq.len() ==> (match (#[trigger] planseq[l]).1 {
                    Some(b) => b != planseq[l].0,
                    None => true,
                }),
            forall|y: u32| occ_id(planseq, y) <= 1,
            forall|x: u32, y: u32| #[trigger] weight_in(old(store).edges@, x, y) < u32::MAX,
        decreases planseq.len() - k,
    {
        let row = plan[k];
        proof {
            let kk = k as int;
            assert(planseq[kk] == row);
            assert forall|l: int|
                0 <= l < planseq.take(kk).len() implies (match (#[trigger] planseq.take(
                kk,
            )[l]).1 {
                Some(b) => b != planseq.take(kk)[l].0,
                None => true,
            }) by {
                assert(planseq.take(kk)[l] == planseq[l]);
            }
            assert forall|y: u32| occ_id(planseq.take(kk), y) <= 1 by {
                lemma_occ_id_prefix_le(planseq, kk, y);
                assert(occ_id(planseq, y) <= 1);
            }
            lemma_bump_all_weights(old(store).edges@, planseq.take(kk));
            match row.1 {
                Some(b) => {
                    lemma_occ_id_prefix_le(planseq, kk + 1, row.0);
                    lemma_occ_id_prefix_le(planseq, kk + 1, b);
                    assert(planseq.take(kk + 1).drop_last() =~= planseq.take(kk));
                    assert(planseq.take(kk + 1).last() == planseq[kk]);
                    assert(occ_id(planseq, row.0) <= 1);
                    assert(occ_id(planseq, b) <= 1);
                    assert(occ_id(planseq.take(kk), row.0) == 0);
                    assert(occ_id(planseq.take(kk), b) == 0);
                    lemma_pair_bumps_le_occ(planseq.take(kk), row.0, b);
                    assert(occ_id(planseq.take(kk), key_lo(row.0, b)) == 0);
                    assert(pair_bumps(planseq.take(kk), row.0, b) == 0);
                    assert(weight_in(store.edges@, row.0, b) == weight_in(
                        old(store).edges@,
                        row.0,
                        b,
                    ));
                    assert(weight_in(old(store).edges@, row.0, b) < u32::MAX);
                },
                None => {},
            }
        }
        store.record_match(g, row.0, row.1);
        k = k + 1;
        proof {
            let kk = k as int;
            assert(planseq.take(kk).drop_last() =~= planseq.take(kk - 1));
            assert(planseq.take(kk).last() == planseq[kk - 1]);
            assert(store.matches@ =~= old(store).matches@ + plan_rows(planseq.take(kk), g));
            assert(store.edges@ == bump_all(old(store).edges@, planseq.take(kk)));
        }
    }
    proof {
        assert(planseq.take(planseq.len() as int) =~= planseq);
    }
    let ghost edges_done = store.edges@;
    let ghost matches_done = store.matches@;
    let mut c: usize = 0;
    while c < plan.len()
        invariant
            store.wf(),
            plan@ == planseq,
            c <= planseq.len(),
            store.people@ == clear_all(old(store).people@, planseq.take(c as int)),
            store.edges@ == edges_done,
            store.generations@ == old(store).generations@.push(meta),
            store.matches@ == matches_done,
        decreases planseq.len() - c,
    {
        let row = plan[c];
        store.clear_waiting(row.0);
        match row.1 {
            Some(b) => {
                store.clear_waiting(b);
            },
            None => {},
        }
        c = c + 1;
        proof {
            let cc = c as int;
            assert(planseq.take(cc).drop_last() =~= planseq.take(cc - 1));
            assert(planseq.take(cc).last() == planseq[cc - 1]);
            assert(store.people@ == clear_all(old(store).people@, planseq.take(cc)));
        }
    }
    proof {
        assert(planseq.take(planseq.len() as int) =~= planseq);
        lemma_round_clears_waiting(old(store).people@, edges@);
        lemma_clear_all_props(old(store).people@, planseq);
    }
    Some(g)
}

/// A round consumes the entire waiting pool: after its plan's clears are
/// applied, nobody in the registry is flagged as waiting any more —
/// paired participants and the odd-count singleton alike.
pub proof fn lemma_round_clears_waiting(ps: Seq<Person>, es: Seq<(u32, u32, u32)>)
    requires
        people_wf(ps),
        forall|k: int|
            0 <= k < es.len() ==> waiting_ids(ps).contains((#[trigger] es[k]).0) && waiting_ids(
                ps,
            ).contains(es[k].1),
        waiting_ids(ps).len() <= usize::MAX,
    ensures
        forall|k: int|
            0 <= k < ps.len() ==> !(#[trigger] clear_all(
                ps,
                spec_plan(waiting_ids(ps), es),
            )[k]).waiting,
{
    let wids = waiting_ids(ps);
    lemma_waiting_count(ps);
    lemma_plan_props(wids, es);
    let plan = spec_plan(wids, es);
    lemma_clear_all_props(ps, plan);
    assert forall|k: int| 0 <= k < ps.len() implies !(#[trigger] clear_all(
        ps,
        plan,
    )[k]).waiting by {
        if ps[k].waiting {
            lemma_waiting_ids_member(ps, k);
            assert(occ_id(plan, ps[k].id) == 1);
        }
    }
}

/// The number of recorded rows without a partner.
pub open spec fn rows_without_partner(rows: Seq<MatchRow>) -> nat
    decreases rows.len(),
{
    if rows.len() == 0 {
        0
    } else {
        rows_without_partner(rows.drop_last()) + (match rows.last().person2 {
            Some(_) => 0nat,
            None => 1nat,
        })
    }
}

/// Recording keeps each row's pairing shape.
proof fn lemma_plan_rows_partner(plan: Seq<(u32, Option<u32>)>, generation: u32)
    ensures
        rows_without_partner(plan_rows(plan, generation)) == none_count(plan),
    decreases plan.len(),
{
    if plan.len() > 0 {
        lemma_plan_rows_partner(plan.drop_last(), generation);
        let rows = plan_rows(plan, generation);
        assert(rows.drop_last() =~= plan_rows(plan.drop_last(), generation));
        assert(plan[plan.len() - 1] == plan.last());
        assert(rows.last() == (MatchRow {
            generation: generation,
            person1: plan.last().0,
            person2: plan.last().1,
        }));
    }
}

/// A round's plan leaves exactly one participant without a partner when
/// the waiting count is odd, and none when it is even; so, at whatever
/// generation the round records its rows, exactly `waiting count mod 2` of
/// them carry an absent partner. The row count is always half the waiting
/// count, rounded up.
pub proof fn lemma_round_singleton_parity(wids: Seq<u32>, es: Seq<(u32, u32, u32)>, generation: u32)
    requires
        forall|y: u32| count_of(wids, y) <= 1,
        forall|k: int|
            0 <= k < es.len() ==> wids.contains((#[trigger] es[k]).0) && wids.contains(es[k].1),
        wids.len() <= usize::MAX,
    ensures
        none_count(spec_plan(wids, es)) == wids.len() % 2,
        rows_without_partner(plan_rows(spec_plan(wids, es), generation)) == wids.len() % 2,
        spec_plan(wids, es).len() == (wids.len() + 1) / 2,
{
    lemma_plan_props(wids, es);
    lemma_plan_rows_partner(spec_plan(wids, es), generation);
}

} // verus!
