//! An in-memory store of participants, pairing history, generations and
//! recorded matches: the repository a matching round runs against.
//!
//! Historical weights are kept canonically: one entry per unordered pair,
//! keyed `(smaller id, larger id)`, never with weight 0 (absence means
//! "never paired"). Generations carry strictly increasing identifiers.

use vstd::pervasive::VecAdditionalExecFns;
use vstd::prelude::*;

verus! {

/// Why a sign-in attempt failed.
#[derive(Debug, PartialEq, Eq)]
pub enum SignInError {
    UnknownUser,
    InvalidPassword,
}

/// A registered participant. `waiting` flags eligibility for the next
/// matching round.
#[derive(Debug, Clone, Hash, PartialEq, Eq)]
pub struct Person {
    pub id: u32,
    pub email: String,
    pub name: String,
    pub waiting: bool,
}

/// One matching generation: a strictly increasing identifier and the
/// timestamp it was minted at.
#[derive(Debug, Clone, Copy, Hash, PartialEq, Eq, Structural)]
pub struct MatchMeta {
    pub generation: u32,
    pub time: u64,
}

/// One persisted match row: a participant and an optional partner, grouped
/// under the generation the round was run at.
#[derive(Debug, Clone, Copy, PartialEq, Eq, Structural)]
pub struct MatchRow {
    pub generation: u32,
    pub person1: u32,
    pub person2: Option<u32>,
}

/// How long an authenticated session stays live without being seen.
pub const SESSION_LIFETIME_SECONDS: i64 = 60 * 60 * 24 * 7;

/// The session freshness rule: a session is live when its last-seen stamp
/// lies no more than one lifetime past the given current time.
pub fn session_is_live(last_seen: i64, now: i64) -> (live: bool)
    ensures
        live == (last_seen - now <= SESSION_LIFETIME_SECONDS),
{
    (last_seen as i128) - (now as i128) <= (SESSION_LIFETIME_SECONDS as i128)
}

/// The smaller endpoint of the canonical key for an unordered pair.
pub open spec fn key_lo(a: u32, b: u32) -> u32 {
    if a < b {
        a
    } else {
        b
    }
}

/// The larger endpoint of the canonical key for an unordered pair.
pub open spec fn key_hi(a: u32, b: u32) -> u32 {
    if a < b {
        b
    } else {
        a
    }
}

/// The weight an edge list holds for the unordered pair `{a, b}`; an absent
/// entry means weight 0 ("never paired").
pub open spec fn weight_in(es: Seq<(u32, u32, u32)>, a: u32, b: u32) -> u32
    decreases es.len(),
{
    if es.len() == 0 {
        0
    } else if es[0].0 == key_lo(a, b) && es[0].1 == key_hi(a, b) {
        es[0].2
    } else {
        weight_in(es.drop_first(), a, b)
    }
}

/// Recording one pairing in the edge list: the first canonical entry for the
/// pair has its weight raised by one, or a fresh entry with weight 1 is
/// appended when none exists.
pub open spec fn bump_edges(es: Seq<(u32, u32, u32)>, a: u32, b: u32) -> Seq<(u32, u32, u32)>
    decreases es.len(),
{
    if es.len() == 0 {
        seq![(key_lo(a, b), key_hi(a, b), 1u32)]
    } else if es[0].0 == key_lo(a, b) && es[0].1 == key_hi(a, b) {
        seq![(es[0].0, es[0].1, ((es[0].2 + 1) as u32))] + es.drop_first()
    } else {
        seq![es[0]] + bump_edges(es.drop_first(), a, b)
    }
}

/// The rows of an edge list whose endpoints both lie in the given
/// identifier list, in their original order.
pub open spec fn restrict_edges(es: Seq<(u32, u32, u32)>, ids: Seq<u32>) -> Seq<(u32, u32, u32)>
    decreases es.len(),
{
    if es.len() == 0 {
        Seq::empty()
    } else {
        restrict_edges(es.drop_last(), ids) + (if ids.contains(es.last().0) && ids.contains(
            es.last().1,
        ) {
            seq![es.last()]
        } else {
            Seq::empty()
        })
    }
}

/// A well-formed edge list: every entry is canonically ordered with a
/// positive weight, and no unordered pair occurs twice.
pub open spec fn edges_wf(es: Seq<(u32, u32, u32)>) -> bool {
    &&& forall|k: int| 0 <= k < es.len() ==> (#[trigger] es[k]).0 < es[k].1 && es[k].2 >= 1
    &&& forall|k: int, l: int|
        0 <= k < l < es.len() ==> !((#[trigger] es[k]).0 == (#[trigger] es[l]).0 && es[k].1
            == es[l].1)
}

/// No two people share an identifier.
pub open spec fn people_wf(ps: Seq<Person>) -> bool {
    forall|i: int, j: int|
        0 <= i < j < ps.len() ==> (#[trigger] ps[i]).id != (#[trigger] ps[j]).id
}

/// Generation identifiers grow strictly along the list.
pub open spec fn gens_increasing(gs: Seq<MatchMeta>) -> bool {
    forall|i: int, j: int|
        0 <= i < j < gs.len() ==> (#[trigger] gs[i]).generation < (#[trigger] gs[j]).generation
}

/// The identifier the next generation gets: one more than the previous
/// maximum, starting at 1.
pub open spec fn next_generation(gs: Seq<MatchMeta>) -> int {
    if gs.len() == 0 {
        1
    } else {
        gs.last().generation + 1
    }
}

/// The identifiers of the people currently flagged as waiting, in registry
/// order.
pub open spec fn waiting_ids(ps: Seq<Person>) -> Seq<u32>
    decreases ps.len(),
{
    if ps.len() == 0 {
        Seq::empty()
    } else {
        waiting_ids(ps.drop_last()) + (if ps.last().waiting {
            seq![ps.last().id]
        } else {
            Seq::empty()
        })
    }
}

/// The first person carrying the identifier, if any.
pub open spec fn spec_get_person(ps: Seq<Person>, id: u32) -> Option<Person>
    decreases ps.len(),
{
    if ps.len() == 0 {
        None
    } else if ps[0].id == id {
        Some(ps[0])
    } else {
        spec_get_person(ps.drop_first(), id)
    }
}

/// One person after a waiting-flag toggle aimed at `id`.
pub open spec fn toggle_one(p: Person, id: u32) -> Person {
    if p.id == id {
        Person { id: p.id, email: p.email, name: p.name, waiting: !p.waiting }
    } else {
        p
    }
}

/// One person after a waiting-flag clear aimed at `id`.
pub open spec fn clear_one(p: Person, id: u32) -> Person {
    if p.id == id {
        Person { id: p.id, email: p.email, name: p.name, waiting: false }
    } else {
        p
    }
}

/// Where a scan for the canonical key of `{a, b}` ends: at the first entry
/// carrying it, or one past the end. At that point the pair's weight and the
/// effect of recording one more pairing are both fixed.
proof fn lemma_edge_scan(es: Seq<(u32, u32, u32)>, a: u32, b: u32, k: int)
    requires
        0 <= k <= es.len(),
        forall|l: int|
            0 <= l < k ==> !((#[trigger] es[l]).0 == key_lo(a, b) && es[l].1 == key_hi(a, b)),
        k < es.len() ==> es[k].0 == key_lo(a, b) && es[k].1 == key_hi(a, b),
    ensures
        weight_in(es, a, b) == (if k < es.len() {
            es[k].2
        } else {
            0u32
        }),
        bump_edges(es, a, b) == (if k < es.len() {
            es.update(k, (es[k].0, es[k].1, ((es[k].2 + 1) as u32)))
        } else {
            es.push((key_lo(a, b), key_hi(a, b), 1u32))
        }),
    decreases k,
{
    if k == 0 {
        if es.len() == 0 {
            assert(bump_edges(es, a, b) =~= es.push((key_lo(a, b), key_hi(a, b), 1u32)));
        } else if es[0].0 == key_lo(a, b) && es[0].1 == key_hi(a, b) {
            assert(bump_edges(es, a, b) =~= es.update(
                0,
                (es[0].0, es[0].1, ((es[0].2 + 1) as u32)),
            ));
        }
    } else {
        let rest = es.drop_first();
        lemma_edge_scan(rest, a, b, k - 1);
        if k < es.len() {
            assert(bump_edges(es, a, b) =~= es.update(
                k,
                (es[k].0, es[k].1, ((es[k].2 + 1) as u32)),
            ));
        } else {
            assert(bump_edges(es, a, b) =~= es.push((key_lo(a, b), key_hi(a, b), 1u32)));
        }
    }
}

/// There always is such a scan end: a first canonical entry for the pair,
/// or none at all.
proof fn lemma_edge_scan_exists(es: Seq<(u32, u32, u32)>, a: u32, b: u32) -> (k: int)
    ensures
        0 <= k <= es.len(),
        forall|l: int|
            0 <= l < k ==> !((#[trigger] es[l]).0 == key_lo(a, b) && es[l].1 == key_hi(a, b)),
        k < es.len() ==> es[k].0 == key_lo(a, b) && es[k].1 == key_hi(a, b),
    decreases es.len(),
{
    if es.len() == 0 {
        0
    } else if es[0].0 == key_lo(a, b) && es[0].1 == key_hi(a, b) {
        0
    } else {
        let rest = es.drop_first();
        let k0 = lemma_edge_scan_exists(rest, a, b);
        assert forall|l: int|
            0 <= l < k0 + 1 implies !((#[trigger] es[l]).0 == key_lo(a, b) && es[l].1 == key_hi(
            a,
            b,
        )) by {
            if l > 0 {
                assert(es[l] == rest[l - 1]);
            }
        }
        k0 + 1
    }
}

/// Recording one pairing raises exactly that pair's weight by one and
/// leaves every other pair's weight unchanged.
pub proof fn lemma_bump_weight(es: Seq<(u32, u32, u32)>, a: u32, b: u32, x: u32, y: u32)
    requires
        weight_in(es, a, b) < u32::MAX,
    ensures
        weight_in(bump_edges(es, a, b), x, y) == (if key_lo(x, y) == key_lo(a, b) && key_hi(x, y)
            == key_hi(a, b) {
            (weight_in(es, x, y) + 1) as u32
        } else {
            weight_in(es, x, y)
        }),
    decreases es.len(),
{
    if es.len() == 0 {
        let nw = seq![(key_lo(a, b), key_hi(a, b), 1u32)];
        assert(bump_edges(es, a, b) == nw);
        assert(nw.drop_first() =~= Seq::<(u32, u32, u32)>::empty());
        assert(nw[0] == (key_lo(a, b), key_hi(a, b), 1u32));
        if key_lo(x, y) == key_lo(a, b) && key_hi(x, y) == key_hi(a, b) {
            assert(weight_in(nw, x, y) == 1u32);
            assert(weight_in(es, x, y) == 0u32);
        } else {
            assert(weight_in(nw, x, y) == weight_in(nw.drop_first(), x, y));
            assert(weight_in(es, x, y) == 0u32);
        }
    } else if es[0].0 == key_lo(a, b) && es[0].1 == key_hi(a, b) {
        let bumped = seq![(es[0].0, es[0].1, ((es[0].2 + 1) as u32))] + es.drop_first();
        assert(bump_edges(es, a, b) == bumped);
        assert(bumped[0] == (es[0].0, es[0].1, ((es[0].2 + 1) as u32)));
        assert(bumped.drop_first() =~= es.drop_first());
        assert(weight_in(es, a, b) == es[0].2);
        if key_lo(x, y) == key_lo(a, b) && key_hi(x, y) == key_hi(a, b) {
            assert(weight_in(bumped, x, y) == bumped[0].2);
            assert(weight_in(es, x, y) == es[0].2);
        } else {
            assert(weight_in(bumped, x, y) == weight_in(bumped.drop_first(), x, y));
            assert(weight_in(es, x, y) == weight_in(es.drop_first(), x, y));
        }
    } else {
        lemma_bump_weight(es.drop_first(), a, b, x, y);
        let bumped = seq![es[0]] + bump_edges(es.drop_first(), a, b);
        assert(bump_edges(es, a, b) == bumped);
        assert(bumped[0] == es[0]);
        assert(bumped.drop_first() =~= bump_edges(es.drop_first(), a, b));
        if es[0].0 == key_lo(x, y) && es[0].1 == key_hi(x, y) {
            assert(weight_in(bumped, x, y) == es[0].2);
            assert(weight_in(es, x, y) == es[0].2);
            assert(!(key_lo(x, y) == key_lo(a, b) && key_hi(x, y) == key_hi(a, b)));
        } else {
            assert(weight_in(bumped, x, y) == weight_in(bump_edges(es.drop_first(), a, b), x, y));
            assert(weight_in(es, x, y) == weight_in(es.drop_first(), x, y));
        }
    }
}

/// Recording one pairing keeps the edge list well-formed.
pub proof fn lemma_bump_wf(es: Seq<(u32, u32, u32)>, a: u32, b: u32)
    requires
        edges_wf(es),
        a != b,
        weight_in(es, a, b) < u32::MAX,
    ensures
        edges_wf(bump_edges(es, a, b)),
{
    let k = lemma_edge_scan_exists(es, a, b);
    lemma_edge_scan(es, a, b, k);
    let bumped = bump_edges(es, a, b);
    if k < es.len() {
        assert forall|i: int| 0 <= i < bumped.len() implies (#[trigger] bumped[i]).0 < bumped[i].1
            && bumped[i].2 >= 1 by {
            if i != k {
                assert(bumped[i] == es[i]);
            }
        }
    } else {
        assert forall|i: int| 0 <= i < bumped.len() implies (#[trigger] bumped[i]).0 < bumped[i].1
            && bumped[i].2 >= 1 by {
            if i < es.len() {
                assert(bumped[i] == es[i]);
            }
        }
        assert forall|i: int, j: int|
            0 <= i < j < bumped.len() implies !((#[trigger] bumped[i]).0
            == (#[trigger] bumped[j]).0 && bumped[i].1 == bumped[j].1) by {
            if j == es.len() {
                assert(bumped[i] == es[i]);
            }
        }
    }
}

/// In a well-formed edge list, every entry a bump leaves under the bumped
/// pair's key carries exactly the incremented weight.
pub proof fn lemma_bump_key_unique(es: Seq<(u32, u32, u32)>, a: u32, b: u32)
    requires
        edges_wf(es),
        weight_in(es, a, b) < u32::MAX,
    ensures
        forall|l: int|
            0 <= l < bump_edges(es, a, b).len() && (#[trigger] bump_edges(es, a, b)[l]).0 == key_lo(
                a,
                b,
            ) && bump_edges(es, a, b)[l].1 == key_hi(a, b) ==> bump_edges(es, a, b)[l].2 == (
            weight_in(es, a, b) + 1) as u32,
{
    let k = lemma_edge_scan_exists(es, a, b);
    lemma_edge_scan(es, a, b, k);
    let bumped = bump_edges(es, a, b);
    assert forall|l: int|
        0 <= l < bumped.len() && (#[trigger] bumped[l]).0 == key_lo(a, b) && bumped[l].1 == key_hi(
        a,
        b,
    ) implies bumped[l].2 == (weight_in(es, a, b) + 1) as u32 by {
        if k < es.len() {
            if l != k {
                assert(bumped[l] == es[l]);
                if l < k {
                    assert(!(es[l].0 == key_lo(a, b) && es[l].1 == key_hi(a, b)));
                } else {
                    assert(!(es[k].0 == es[l].0 && es[k].1 == es[l].1));
                }
                assert(false);
            }
        } else {
            if l < es.len() {
                assert(bumped[l] == es[l]);
                assert(!(es[l].0 == key_lo(a, b) && es[l].1 == key_hi(a, b)));
                assert(false);
            }
        }
    }
}

/// Every restricted row keeps both endpoints in the identifier list and
/// stems from the original edge list.
pub proof fn lemma_restrict_props(es: Seq<(u32, u32, u32)>, ids: Seq<u32>)
    ensures
        forall|k: int|
            0 <= k < restrict_edges(es, ids).len() ==> ids.contains(
                (#[trigger] restrict_edges(es, ids)[k]).0,
            ) && ids.contains(restrict_edges(es, ids)[k].1) && es.contains(
                restrict_edges(es, ids)[k],
            ),
    decreases es.len(),
{
    if es.len() > 0 {
        lemma_restrict_props(es.drop_last(), ids);
        let prev = restrict_edges(es.drop_last(), ids);
        let whole = restrict_edges(es, ids);
        assert forall|k: int|
            0 <= k < whole.len() implies ids.contains((#[trigger] whole[k]).0) && ids.contains(
            whole[k].1,
        ) && es.contains(whole[k]) by {
            if k < prev.len() {
                assert(whole[k] == prev[k]);
                let w = choose|l: int| 0 <= l < es.drop_last().len() && es.drop_last()[l] == prev[k];
                assert(es[w] == prev[k]);
            } else {
                assert(whole[k] == es.last());
                assert(es[es.len() - 1] == es.last());
            }
        }
    }
}

/// A row of the original list whose endpoints lie in the identifier list
/// survives the restriction.
pub proof fn lemma_restrict_keeps(es: Seq<(u32, u32, u32)>, ids: Seq<u32>, k: int)
    requires
        0 <= k < es.len(),
        ids.contains(es[k].0),
        ids.contains(es[k].1),
    ensures
        restrict_edges(es, ids).contains(es[k]),
    decreases es.len(),
{
    let whole = restrict_edges(es, ids);
    let prev = restrict_edges(es.drop_last(), ids);
    if k == es.len() - 1 {
        assert(whole[prev.len() as int] == es.last());
    } else {
        assert(es.drop_last()[k] == es[k]);
        lemma_restrict_keeps(es.drop_last(), ids, k);
        let w = choose|l: int| 0 <= l < prev.len() && prev[l] == es[k];
        assert(whole[w] == es[k]);
    }
}

/// Looks for `x` in an identifier list.
fn contains_id(v: &Vec<u32>, x: u32) -> (b: bool)
    ensures
        b == v@.contains(x),
{
    let mut k: usize = 0;
    while k < v.len()
        invariant
            k <= v@.len(),
            forall|l: int| 0 <= l < k ==> v@[l] != x,
        decreases v@.len() - k,
    {
        if v[k] == x {
            return true;
        }
        k = k + 1;
    }
    false
}

/// Raises the canonical entry for `{a, b}` by one, or appends a fresh entry
/// with weight 1 when the pair was never recorded.
fn bump_edge(edges: &mut Vec<(u32, u32, u32)>, a: u32, b: u32)
    requires
        weight_in(old(edges)@, a, b) < u32::MAX,
    ensures
        final(edges)@ == bump_edges(old(edges)@, a, b),
{
    let lo = if a < b {
        a
    } else {
        b
    };
    let hi = if a < b {
        b
    } else {
        a
    };
    let mut k: usize = 0;
    while k < edges.len()
        invariant
            edges@ == old(edges)@,
            k <= edges@.len(),
            lo == key_lo(a, b),
            hi == key_hi(a, b),
            weight_in(edges@, a, b) < u32::MAX,
            forall|l: int|
                0 <= l < k ==> !((#[trigger] edges@[l]).0 == key_lo(a, b) && edges@[l].1 == key_hi(
                    a,
                    b,
                )),
        decreases edges@.len() - k,
    {
        let e = edges[k];
        if e.0 == lo && e.1 == hi {
            proof {
                lemma_edge_scan(edges@, a, b, k as int);
            }
            edges.set(k, (e.0, e.1, e.2 + 1));
            return;
        }
        k = k + 1;
    }
    proof {
        lemma_edge_scan(edges@, a, b, edges@.len() as int);
    }
    edges.push((lo, hi, 1));
}

/// Keeps exactly the edge rows whose endpoints both lie in the given
/// identifier set, in their original order. This is the scoping step of a
/// matching round: historical weights are restricted to the current
/// waiting set before a graph is built from them.
pub fn filter_edges(rows: &Vec<(u32, u32, u32)>, ids: &Vec<u32>) -> (r: Vec<(u32, u32, u32)>)
    ensures
        r@ == restrict_edges(rows@, ids@),
{
    let mut r: Vec<(u32, u32, u32)> = Vec::new();
    let mut k: usize = 0;
    while k < rows.len()
        invariant
            k <= rows@.len(),
            r@ == restrict_edges(rows@.take(k as int), ids@),
        decreases rows@.len() - k,
    {
        let ghost r0 = r@;
        let e = rows[k];
        if contains_id(ids, e.0) && contains_id(ids, e.1) {
            r.push(e);
        }
        k = k + 1;
        proof {
            assert(rows@.take(k as int).drop_last() =~= rows@.take(k - 1));
            assert(rows@.take(k as int).last() == rows@[k - 1]);
            if ids@.contains(e.0) && ids@.contains(e.1) {
                assert(r@ =~= r0 + seq![e]);
            } else {
                assert(restrict_edges(rows@.take(k as int), ids@) =~= r0);
            }
        }
    }
    proof {
        assert(rows@.take(rows@.len() as int) =~= rows@);
    }
    r
}

/// The in-memory store: the participant registry with waiting flags, the
/// canonical pairing-history edge list, the generation log, and the
/// recorded match rows.
#[derive(Debug)]
pub struct MemStore {
    pub people: Vec<Person>,
    pub edges: Vec<(u32, u32, u32)>,
    pub generations: Vec<MatchMeta>,
    pub matches: Vec<MatchRow>,
}

impl MemStore {
    /// The store's invariant: unique participant identifiers, a canonical
    /// unique-keyed edge list, and strictly increasing generations.
    pub open spec fn wf(&self) -> bool {
        &&& people_wf(self.people@)
        &&& edges_wf(self.edges@)
        &&& gens_increasing(self.generations@)
    }

    /// An empty store.
    pub fn new() -> (s: MemStore)
        ensures
            s.wf(),
            s.people@ == Seq::<Person>::empty(),
            s.edges@ == Seq::<(u32, u32, u32)>::empty(),
            s.generations@ == Seq::<MatchMeta>::empty(),
            s.matches@ == Seq::<MatchRow>::empty(),
    {
        MemStore { people: Vec::new(), edges: Vec::new(), generations: Vec::new(), matches: Vec::new() }
    }

    /// Registers a participant under a fresh identifier.
    pub fn add_person(&mut self, p: Person)
        requires
            old(self).wf(),
            forall|k: int| 0 <= k < old(self).people@.len() ==> (#[trigger] old(self).people@[k]).id != p.id,
        ensures
            final(self).wf(),
            final(self).people@ == old(self).people@.push(p),
            final(self).edges@ == old(self).edges@,
            final(self).generations@ == old(self).generations@,
            final(self).matches@ == old(self).matches@,
    {
        self.people.push(p);
    }

    /// Looks a participant up by identifier.
    pub fn get_person(&self, id: u32) -> (r: Option<Person>)
        ensures
            r == spec_get_person(self.people@, id),
    {
        let mut k: usize = 0;
        proof {
            assert(self.people@.skip(0) =~= self.people@);
        }
        while k < self.people.len()
            invariant
                k <= self.people@.len(),
                spec_get_person(self.people@, id) == spec_get_person(
                    self.people@.skip(k as int),
                    id,
                ),
            decreases self.people@.len() - k,
        {
            proof {
                assert(self.people@.skip(k as int)[0] == self.people@[k as int]);
                assert(self.people@.skip(k as int).drop_first() =~= self.people@.skip(k + 1));
            }
            if self.people[k].id == id {
                let q = &self.people[k];
                return Some(
                    Person { id: q.id, email: q.email.clone(), name: q.name.clone(), waiting: q.waiting },
                );
            }
            k = k + 1;
        }
        proof {
            assert(self.people@.skip(self.people@.len() as int) =~= Seq::<Person>::empty());
        }
        None
    }

    /// Flips a participant's waiting flag; anyone else is untouched.
    pub fn toggle_waiter(&mut self, person_id: u32)
        requires
            old(self).wf(),
        ensures
            final(self).wf(),
            final(self).people@ == old(self).people@.map_values(
                |p: Person| toggle_one(p, person_id),
            ),
            final(self).edges@ == old(self).edges@,
            final(self).generations@ == old(self).generations@,
            final(self).matches@ == old(self).matches@,
    {
        let mut k: usize = 0;
        while k < self.people.len()
            invariant
                self.people@.len() == old(self).people@.len(),
                k <= self.people@.len(),
                self.edges@ == old(self).edges@,
                self.generations@ == old(self).generations@,
                self.matches@ == old(self).matches@,
                forall|i: int|
                    0 <= i < k ==> #[trigger] self.people@[i] == toggle_one(
                        old(self).people@[i],
                        person_id,
                    ),
                forall|i: int|
                    k <= i < self.people@.len() ==> #[trigger] self.people@[i] == old(
                        self,
                    ).people@[i],
            decreases self.people@.len() - k,
        {
            if self.people[k].id == person_id {
                let q = &self.people[k];
                let flipped = Person {
                    id: q.id,
                    email: q.email.clone(),
                    name: q.name.clone(),
                    waiting: !q.waiting,
                };
                self.people.set(k, flipped);
            }
            k = k + 1;
        }
        proof {
            assert(self.people@ =~= old(self).people@.map_values(
                |p: Person| toggle_one(p, person_id),
            ));
            assert forall|i: int, j: int|
                0 <= i < j < self.people@.len() implies (#[trigger] self.people@[i]).id != (
            #[trigger] self.people@[j]).id by {
                assert(self.people@[i].id == old(self).people@[i].id);
                assert(self.people@[j].id == old(self).people@[j].id);
            }
        }
    }

    /// Resets a participant's waiting flag to false; anyone else is
    /// untouched.
    pub fn clear_waiting(&mut self, person_id: u32)
        requires
            old(self).wf(),
        ensures
            final(self).wf(),
            final(self).people@ == old(self).people@.map_values(
                |p: Person| clear_one(p, person_id),
            ),
            final(self).edges@ == old(self).edges@,
            final(self).generations@ == old(self).generations@,
            final(self).matches@ == old(self).matches@,
    {
        let mut k: usize = 0;
        while k < self.people.len()
            invariant
                self.people@.len() == old(self).people@.len(),
                k <= self.people@.len(),
                self.edges@ == old(self).edges@,
                self.generations@ == old(self).generations@,
                self.matches@ == old(self).matches@,
                forall|i: int|
                    0 <= i < k ==> #[trigger] self.people@[i] == clear_one(
                        old(self).people@[i],
                        person_id,
                    ),
                forall|i: int|
                    k <= i < self.people@.len() ==> #[trigger] self.people@[i] == old(
                        self,
                    ).people@[i],
            decreases self.people@.len() - k,
        {
            if self.people[k].id == person_id {
                let q = &self.people[k];
                let cleared = Person {
                    id: q.id,
                    email: q.email.clone(),
                    name: q.name.clone(),
                    waiting: false,
                };
                self.people.set(k, cleared);
            }
            k = k + 1;
        }
        proof {
            assert(self.people@ =~= old(self).people@.map_values(
                |p: Person| clear_one(p, person_id),
            ));
            assert forall|i: int, j: int|
                0 <= i < j < self.people@.len() implies (#[trigger] self.people@[i]).id != (
            #[trigger] self.people@[j]).id by {
                assert(self.people@[i].id == old(self).people@[i].id);
                assert(self.people@[j].id == old(self).people@[j].id);
            }
        }
    }

    /// The identifiers of everyone currently flagged as waiting, in
    /// registry order.
    pub fn list_waiters(&self) -> (r: Vec<u32>)
        ensures
            r@ == waiting_ids(self.people@),
    {
        let mut r: Vec<u32> = Vec::new();
        let mut k: usize = 0;
        while k < self.people.len()
            invariant
                k <= self.people@.len(),
                r@ == waiting_ids(self.people@.take(k as int)),
            decreases self.people@.len() - k,
        {
            let ghost r0 = r@;
            if self.people[k].waiting {
                let id = self.people[k].id;
                r.push(id);
            }
            k = k + 1;
            proof {
                assert(self.people@.take(k as int).drop_last() =~= self.people@.take(k - 1));
                assert(self.people@.take(k as int).last() == self.people@[k - 1]);
                if self.people@[k - 1].waiting {
                    assert(r@ =~= r0 + seq![self.people@[k - 1].id]);
                } else {
                    assert(waiting_ids(self.people@.take(k as int)) =~= r0);
                }
            }
        }
        proof {
            assert(self.people@.take(self.people@.len() as int) =~= self.people@);
        }
        r
    }

    /// Hands out the historical pairing rows whose endpoints both lie in
    /// the given identifier set; pairs without a row have weight 0.
    pub fn edges_among(&self, ids: &Vec<u32>) -> (r: Vec<(u32, u32, u32)>)
        ensures
            r@ == restrict_edges(self.edges@, ids@),
    {
        filter_edges(&self.edges, ids)
    }

    /// Mints the next generation: one more than the previous maximum
    /// (starting at 1), stamped with the given time.
    pub fn allocate_generation(&mut self, now: u64) -> (m: MatchMeta)
        requires
            old(self).wf(),
            next_generation(old(self).generations@) <= u32::MAX,
        ensures
            final(self).wf(),
            m.generation as int == next_generation(old(self).generations@),
            m.time == now,
            final(self).generations@ == old(self).generations@.push(m),
            final(self).people@ == old(self).people@,
            final(self).edges@ == old(self).edges@,
            final(self).matches@ == old(self).matches@,
    {
        let g: u32 = if self.generations.len() == 0 {
            1
        } else {
            self.generations[self.generations.len() - 1].generation + 1
        };
        let m = MatchMeta { generation: g, time: now };
        self.generations.push(m);
        proof {
            let gs = self.generations@;
            assert forall|i: int, j: int|
                0 <= i < j < gs.len() implies (#[trigger] gs[i]).generation
                < (#[trigger] gs[j]).generation by {
                if j == gs.len() - 1 && i < j {
                    if i < gs.len() - 2 {
                        assert(old(self).generations@[i].generation < old(
                            self,
                        ).generations@[gs.len() - 2].generation);
                    }
                }
            }
        }
        m
    }

    /// Persists one match row under a generation; when a partner is
    /// present, the pair's historical weight rises by exactly one as part
    /// of the same call.
    pub fn record_match(&mut self, generation: u32, person1: u32, person2: Option<u32>)
        requires
            old(self).wf(),
            (match person2 {
                Some(b) => b != person1 && weight_in(old(self).edges@, person1, b) < u32::MAX,
                None => true,
            }),
        ensures
            final(self).wf(),
            final(self).matches@ == old(self).matches@.push(
                (MatchRow { generation, person1, person2 }),
            ),
            final(self).edges@ == (match person2 {
                Some(b) => bump_edges(old(self).edges@, person1, b),
                None => old(self).edges@,
            }),
            final(self).people@ == old(self).people@,
            final(self).generations@ == old(self).generations@,
    {
        self.matches.push(MatchRow { generation, person1, person2 });
        if let Some(b) = person2 {
            bump_edge(&mut self.edges, person1, b);
            proof {
                lemma_bump_wf(old(self).edges@, person1, b);
            }
        }
    }

    /// The match rows recorded under one generation, in recording order.
    pub fn matches_at(&self, generation: u32) -> (r: Vec<MatchRow>)
        ensures
            r@ == rows_at(self.matches@, generation),
    {
        let mut r: Vec<MatchRow> = Vec::new();
        let mut k: usize = 0;
        while k < self.matches.len()
            invariant
                k <= self.matches@.len(),
                r@ == rows_at(self.matches@.take(k as int), generation),
            decreases self.matches@.len() - k,
        {
            let ghost r0 = r@;
            let row = self.matches[k];
            if row.generation == generation {
                r.push(row);
            }
            k = k + 1;
            proof {
                assert(self.matches@.take(k as int).drop_last() =~= self.matches@.take(k - 1));
                assert(self.matches@.take(k as int).last() == self.matches@[k - 1]);
                if row.generation == generation {
                    assert(r@ =~= r0 + seq![row]);
                } else {
                    assert(rows_at(self.matches@.take(k as int), generation) =~= r0);
                }
            }
        }
        proof {
            assert(self.matches@.take(self.matches@.len() as int) =~= self.matches@);
        }
        r
    }
}

/// The match rows carrying one generation, in their original order.
pub open spec fn rows_at(rows: Seq<MatchRow>, generation: u32) -> Seq<MatchRow>
    decreases rows.len(),
{
    if rows.len() == 0 {
        Seq::empty()
    } else {
        rows_at(rows.drop_last(), generation) + (if rows.last().generation == generation {
            seq![rows.last()]
        } else {
            Seq::empty()
        })
    }
}

/// The weight round trip: after one pairing of `{a, b}` is recorded, the
/// edge rows restricted to any set holding `a` and `b` show exactly the
/// incremented weight for that pair — the row is present, and no row under
/// that pair's key carries any other value.
pub proof fn lemma_weight_round_trip(es: Seq<(u32, u32, u32)>, a: u32, b: u32, ids: Seq<u32>)
    requires
        edges_wf(es),
        a != b,
        weight_in(es, a, b) < u32::MAX,
        ids.contains(a),
        ids.contains(b),
    ensures
        weight_in(bump_edges(es, a, b), a, b) == weight_in(es, a, b) + 1,
        restrict_edges(bump_edges(es, a, b), ids).contains(
            (key_lo(a, b), key_hi(a, b), ((weight_in(es, a, b) + 1) as u32)),
        ),
        forall|l: int|
            0 <= l < restrict_edges(bump_edges(es, a, b), ids).len() && (
            #[trigger] restrict_edges(bump_edges(es, a, b), ids)[l]).0 == key_lo(a, b)
                && restrict_edges(bump_edges(es, a, b), ids)[l].1 == key_hi(a, b) ==> restrict_edges(
                bump_edges(es, a, b),
                ids,
            )[l].2 == (weight_in(es, a, b) + 1) as u32,
{
    lemma_bump_weight(es, a, b, a, b);
    lemma_bump_key_unique(es, a, b);
    let k = lemma_edge_scan_exists(es, a, b);
    lemma_edge_scan(es, a, b, k);
    let bumped = bump_edges(es, a, b);
    let row = (key_lo(a, b), key_hi(a, b), ((weight_in(es, a, b) + 1) as u32));
    if k < es.len() {
        assert(bumped[k] == row);
        lemma_restrict_keeps(bumped, ids, k);
    } else {
        assert(bumped[es.len() as int] == row);
        lemma_restrict_keeps(bumped, ids, es.len() as int);
    }
    lemma_restrict_props(bumped, ids);
    assert forall|l: int|
        0 <= l < restrict_edges(bumped, ids).len() && (#[trigger] restrict_edges(bumped, ids)[l]).0
            == key_lo(a, b) && restrict_edges(bumped, ids)[l].1 == key_hi(a, b) implies restrict_edges(
        bumped,
        ids,
    )[l].2 == (weight_in(es, a, b) + 1) as u32 by {
        let e = restrict_edges(bumped, ids)[l];
        let w = choose|m: int| 0 <= m < bumped.len() && bumped[m] == e;
        assert(bumped[w].2 == (weight_in(es, a, b) + 1) as u32);
    }
}

} // verus!
