//! The store: a table of player records keyed by name, and the time of the
//! last refresh.
//!
//! The table is held in name order and holds each name once. It changes
//! only as a whole, by `replace_all`.

use vstd::prelude::*;
use vstd::string::*;

use crate::name::{lemma_order_asymmetric, lemma_order_irreflexive, lemma_order_transitive};
use crate::fixed::{distance, magnitude};
use crate::name::{has_prefix, lemma_prefix_ignores_case, rank, same_but_case, sorts_before};
use crate::name::{starts_with, Rank};
use crate::record::{lemma_key_determines_name, PlayerRecord, PlayerView};

verus! {

/// What a store holds, as mathematical values.
pub struct StoreView {
    /// The rows of the table, in the order in which the store scans them.
    pub players: Seq<PlayerView>,
    /// When the table was last replaced, in seconds since the epoch; `None`
    /// until the first replacement.
    pub last_refresh: Option<i64>,
}

/// The rows stand in strictly ascending order of their keys, so that no
/// two rows have the same name.
pub open spec fn ordered(t: Seq<PlayerView>) -> bool {
    forall|i: int, j: int|
        0 <= i < j < t.len() ==> sorts_before(#[trigger] t[i].key(), #[trigger] t[j].key())
}

/// Every row may be persisted.
pub open spec fn all_valid(t: Seq<PlayerView>) -> bool {
    forall|i: int| 0 <= i < t.len() ==> (#[trigger] t[i]).valid()
}

/// Entry `i` of a batch is the one that a replacement keeps for its name:
/// it may be persisted, and no later entry that may be persisted has the
/// same name.
pub open spec fn survives(batch: Seq<PlayerView>, i: int) -> bool {
    &&& 0 <= i < batch.len()
    &&& batch[i].valid()
    &&& forall|j: int|
        i < j < batch.len() && (#[trigger] batch[j]).valid() ==> batch[j].name != batch[i].name
}

/// A replacement with the batch persists the record `p`.
pub open spec fn persists(batch: Seq<PlayerView>, p: PlayerView) -> bool {
    exists|i: int| #[trigger] survives(batch, i) && batch[i] == p
}

/// `t` is the table that a replacement with `batch` leaves: exactly the
/// records that the batch persists, in name order.
pub open spec fn is_table_of(t: Seq<PlayerView>, batch: Seq<PlayerView>) -> bool {
    &&& ordered(t)
    &&& forall|p: PlayerView| #[trigger] t.contains(p) <==> persists(batch, p)
}

/// What a batch persists once one more entry is added at its end.
pub proof fn lemma_persists_after_push(batch: Seq<PlayerView>, r: PlayerView, p: PlayerView)
    ensures
        persists(batch.push(r), p) <==> if r.valid() {
            p == r || (persists(batch, p) && p.name != r.name)
        } else {
            persists(batch, p)
        },
{
    let longer = batch.push(r);
    let n = batch.len() as int;
    if persists(longer, p) {
        let i = choose|i: int| #[trigger] survives(longer, i) && longer[i] == p;
        if i < n {
            assert(longer[i] == batch[i]);
            assert forall|j: int| i < j < n && (#[trigger] batch[j]).valid() implies batch[j].name
                != batch[i].name by {
                assert(longer[j] == batch[j]);
            }
            assert(survives(batch, i));
            if r.valid() {
                assert(longer[n] == r);
            }
        }
    }
    if persists(batch, p) && (!r.valid() || p.name != r.name) {
        let i = choose|i: int| #[trigger] survives(batch, i) && batch[i] == p;
        assert(longer[i] == batch[i]);
        assert forall|j: int|
            i < j < longer.len() && (#[trigger] longer[j]).valid() implies longer[j].name
            != longer[i].name by {
            if j < n {
                assert(longer[j] == batch[j]);
            }
        }
        assert(survives(longer, i));
    }
    if r.valid() && p == r {
        assert(longer[n] == r);
        assert(survives(longer, n));
    }
}

/// A batch persists valid records only.
pub proof fn lemma_table_rows_are_valid(t: Seq<PlayerView>, batch: Seq<PlayerView>)
    requires
        is_table_of(t, batch),
    ensures
        all_valid(t),
{
    assert forall|k: int| 0 <= k < t.len() implies (#[trigger] t[k]).valid() by {
        assert(t.contains(t[k]));
        let i = choose|i: int| #[trigger] survives(batch, i) && batch[i] == t[k];
    }
}

/// A table in name order is determined by the records that it holds.
pub proof fn lemma_same_rows_same_table(a: Seq<PlayerView>, b: Seq<PlayerView>)
    requires
        ordered(a),
        ordered(b),
        forall|p: PlayerView| a.contains(p) <==> b.contains(p),
    ensures
        a == b,
    decreases a.len(),
{
    if a.len() == 0 {
        if b.len() > 0 {
            assert(b.contains(b[0]));
        }
        assert(a =~= b);
    } else {
        let x = a.last();
        assert(a.contains(x));
        let k = choose|k: int| 0 <= k < b.len() && b[k] == x;
        lemma_order_irreflexive(x.key());
        if k < b.len() - 1 {
            let y = b.last();
            assert(sorts_before(b[k].key(), b[b.len() - 1].key()));
            assert(b.contains(y));
            let m = choose|m: int| 0 <= m < a.len() && a[m] == y;
            if m < a.len() - 1 {
                assert(sorts_before(a[m].key(), a[a.len() - 1].key()));
                lemma_order_asymmetric(x.key(), y.key());
            }
        }
        let shorter_a = a.drop_last();
        let shorter_b = b.drop_last();
        assert forall|p: PlayerView| shorter_a.contains(p) <==> shorter_b.contains(p) by {
            if shorter_a.contains(p) {
                let i = choose|i: int| 0 <= i < shorter_a.len() && shorter_a[i] == p;
                assert(a[i] == p);
                assert(sorts_before(a[i].key(), a[a.len() - 1].key()));
                assert(a.contains(p));
                let j = choose|j: int| 0 <= j < b.len() && b[j] == p;
                assert(shorter_b[j] == p);
            }
            if shorter_b.contains(p) {
                let j = choose|j: int| 0 <= j < shorter_b.len() && shorter_b[j] == p;
                assert(b[j] == p);
                assert(sorts_before(b[j].key(), b[b.len() - 1].key()));
                assert(b.contains(p));
                let i = choose|i: int| 0 <= i < a.len() && a[i] == p;
                assert(shorter_a[i] == p);
            }
        }
        lemma_same_rows_same_table(shorter_a, shorter_b);
        assert(a =~= shorter_a.push(x));
        assert(b =~= shorter_b.push(x));
    }
}

/// A batch leaves one table only.
pub proof fn lemma_table_is_unique(
    t1: Seq<PlayerView>,
    t2: Seq<PlayerView>,
    batch: Seq<PlayerView>,
)
    requires
        is_table_of(t1, batch),
        is_table_of(t2, batch),
    ensures
        t1 == t2,
{
    lemma_same_rows_same_table(t1, t2);
}

/// Puts a record into a table in name order, in the place of the row of
/// the same name if there is one.
fn upsert(table: &mut Vec<PlayerRecord>, record: PlayerRecord)
    requires
        ordered(old(table).deep_view()),
    ensures
        ordered(final(table).deep_view()),
        forall|p: PlayerView|
            #[trigger] final(table).deep_view().contains(p) <==> (p == record@ || (old(
                table,
            ).deep_view().contains(p) && p.name != record@.name)),
{
    let ghost before = table.deep_view();
    let ghost r = record@;
    let n = table.len();
    let mut at: usize = 0;
    let mut found = Rank::After;
    let mut searching = true;
    while searching && at < n
        invariant
            at <= n,
            n == table@.len(),
            before == table.deep_view(),
            r == record@,
            forall|k: int| 0 <= k < at ==> sorts_before(#[trigger] before[k].key(), r.key()),
            searching ==> found == Rank::After,
            !searching ==> at < n && found != Rank::Before,
            !searching && found == Rank::Same ==> before[at as int].key() == r.key(),
            !searching && found == Rank::After ==> sorts_before(r.key(), before[at as int].key()),
        decreases n - at + if searching { 1int } else { 0int },
    {
        let here = rank(table[at].name.as_str().as_bytes(), record.name.as_str().as_bytes());
        assert(table[at as int]@ == before[at as int]);
        match here {
            Rank::Before => {
                at += 1;
            },
            _ => {
                found = here;
                searching = false;
            },
        }
    }
    assert(forall|k: int| 0 <= k < n ==> table@[k]@ == #[trigger] before[k]);
    if !searching && found == Rank::Same {
        table.set(at, record);
        proof {
            let after = table.deep_view();
            lemma_key_determines_name(before[at as int], r);
            assert(after =~= before.update(at as int, r));
            assert forall|i: int, j: int| 0 <= i < j < after.len() implies sorts_before(
                #[trigger] after[i].key(),
                #[trigger] after[j].key(),
            ) by {
                assert(sorts_before(before[i].key(), before[j].key()));
            }
            assert forall|p: PlayerView| #[trigger]
                after.contains(p) <==> (p == r || (before.contains(p) && p.name != r.name)) by {
                if after.contains(p) {
                    let k = choose|k: int| 0 <= k < after.len() && after[k] == p;
                    if k != at {
                        assert(before[k] == p);
                        lemma_order_irreflexive(r.key());
                        if k < at {
                            assert(sorts_before(before[k].key(), before[at as int].key()));
                        } else {
                            assert(sorts_before(before[at as int].key(), before[k].key()));
                        }
                    }
                }
                if p == r {
                    assert(after[at as int] == r);
                }
                if before.contains(p) && p.name != r.name {
                    let k = choose|k: int| 0 <= k < before.len() && before[k] == p;
                    assert(k != at);
                    assert(after[k] == p);
                }
            }
        }
    } else {
        table.insert(at, record);
        proof {
            let after = table.deep_view();
            assert(after =~= before.insert(at as int, r));
            assert forall|k: int| at <= k < n implies sorts_before(
                r.key(),
                #[trigger] before[k].key(),
            ) by {
                if k > at {
                    assert(sorts_before(before[at as int].key(), before[k].key()));
                    lemma_order_transitive(r.key(), before[at as int].key(), before[k].key());
                }
            }
            assert forall|i: int, j: int| 0 <= i < j < after.len() implies sorts_before(
                #[trigger] after[i].key(),
                #[trigger] after[j].key(),
            ) by {
                if j < at {
                    assert(sorts_before(before[i].key(), before[j].key()));
                } else if j == at {
                    assert(after[i] == before[i]);
                } else if i < at {
                    assert(after[j] == before[j - 1]);
                    assert(sorts_before(before[i].key(), before[j - 1].key()));
                } else if i == at {
                    assert(after[j] == before[j - 1]);
                } else {
                    assert(after[i] == before[i - 1] && after[j] == before[j - 1]);
                    assert(sorts_before(before[i - 1].key(), before[j - 1].key()));
                }
            }
            assert forall|p: PlayerView| #[trigger]
                after.contains(p) <==> (p == r || (before.contains(p) && p.name != r.name)) by {
                lemma_order_irreflexive(r.key());
                if after.contains(p) {
                    let k = choose|k: int| 0 <= k < after.len() && after[k] == p;
                    if k < at {
                        assert(before[k] == p);
                        assert(sorts_before(before[k].key(), r.key()));
                        assert(before.contains(p) && p.name != r.name);
                    } else if k > at {
                        assert(before[k - 1] == p);
                        assert(sorts_before(r.key(), before[k - 1].key()));
                        assert(before.contains(p) && p.name != r.name);
                    } else {
                        assert(p == r);
                    }
                }
                if p == r {
                    assert(after[at as int] == r);
                    assert(after.contains(p));
                }
                if before.contains(p) && p.name != r.name {
                    let k = choose|k: int| 0 <= k < before.len() && before[k] == p;
                    if k < at {
                        assert(after[k] == p);
                    } else {
                        assert(after[k + 1] == p);
                    }
                    assert(after.contains(p));
                }
            }
        }
    }
}

/// The rows whose name starts with the query, the case of ASCII letters
/// set aside, in the order of the table.
pub open spec fn matching(t: Seq<PlayerView>, query: Seq<char>) -> Seq<PlayerView> {
    t.filter(|p: PlayerView| has_prefix(p.key(), vstd::utf8::encode_utf8(query)))
}

/// Two queries that differ only in the case of ASCII letters find the same
/// rows.
pub proof fn lemma_search_ignores_case(t: Seq<PlayerView>, query: Seq<char>, other: Seq<char>)
    requires
        same_but_case(vstd::utf8::encode_utf8(query), vstd::utf8::encode_utf8(other)),
    ensures
        matching(t, query) == matching(t, other),
    decreases t.len(),
{
    reveal(Seq::filter);
    if t.len() > 0 {
        lemma_search_ignores_case(t.drop_last(), query, other);
        lemma_prefix_ignores_case(
            t.last().key(),
            vstd::utf8::encode_utf8(query),
            t.last().key(),
            vstd::utf8::encode_utf8(other),
        );
    }
}

/// Every row that a search finds has the prefix, every row of the table
/// that has the prefix is found, and the rows found stand in the order of
/// the table.
pub proof fn lemma_matching_rows(t: Seq<PlayerView>, query: Seq<char>)
    requires
        ordered(t),
    ensures
        ordered(matching(t, query)),
        forall|p: PlayerView|
            #[trigger] matching(t, query).contains(p) <==> t.contains(p) && has_prefix(
                p.key(),
                vstd::utf8::encode_utf8(query),
            ),
    decreases t.len(),
{
    reveal(Seq::filter);
    let q = vstd::utf8::encode_utf8(query);
    if t.len() > 0 {
        let before = t.drop_last();
        let last = t.last();
        lemma_matching_rows(before, query);
        let found = matching(before, query);
        let all = matching(t, query);
        assert forall|p: PlayerView| #[trigger] all.contains(p) <==> t.contains(p) && has_prefix(
            p.key(),
            q,
        ) by {
            if all.contains(p) {
                let k = choose|k: int| 0 <= k < all.len() && all[k] == p;
                if k < found.len() {
                    assert(found[k] == p);
                    assert(found.contains(p));
                    let j = choose|j: int| 0 <= j < before.len() && before[j] == p;
                    assert(t[j] == p);
                } else {
                    assert(t[t.len() - 1] == p);
                }
            }
            if t.contains(p) && has_prefix(p.key(), q) {
                let j = choose|j: int| 0 <= j < t.len() && t[j] == p;
                if j < before.len() {
                    assert(before[j] == p);
                    assert(found.contains(p));
                    let k = choose|k: int| 0 <= k < found.len() && found[k] == p;
                    assert(all[k] == p);
                } else {
                    assert(all[all.len() - 1] == p);
                }
            }
        }
        assert forall|a: int, b: int| 0 <= a < b < all.len() implies sorts_before(
            #[trigger] all[a].key(),
            #[trigger] all[b].key(),
        ) by {
            if b < found.len() {
                assert(sorts_before(found[a].key(), found[b].key()));
            } else {
                assert(found.contains(found[a]));
                let j = choose|j: int| 0 <= j < before.len() && before[j] == found[a];
                assert(sorts_before(t[j].key(), t[t.len() - 1].key()));
            }
        }
    }
}

/// How far the eDPI of a record lies from a target.
pub open spec fn gap(p: PlayerView, target: int) -> nat {
    magnitude(p.edpi - target)
}

/// `a` ranks before `b` in a search for the records nearest to a target:
/// it lies nearer, or as near and earlier in the order of the table.
pub open spec fn nearer(a: PlayerView, b: PlayerView, target: int) -> bool {
    gap(a, target) < gap(b, target) || (gap(a, target) == gap(b, target) && sorts_before(
        a.key(),
        b.key(),
    ))
}

/// `out` holds the `limit` rows of the table `t` that rank first in a
/// search for the records nearest to `target` (all rows, if there are
/// fewer), the first in rank first.
pub open spec fn is_nearest(
    out: Seq<PlayerView>,
    t: Seq<PlayerView>,
    target: int,
    limit: int,
) -> bool {
    &&& out.len() == if limit <= t.len() {
        limit
    } else {
        t.len() as int
    }
    &&& forall|a: int| 0 <= a < out.len() ==> t.contains(#[trigger] out[a])
    &&& forall|a: int, b: int|
        0 <= a < b < out.len() ==> nearer(#[trigger] out[a], #[trigger] out[b], target)
    &&& forall|a: int, j: int|
        0 <= a < out.len() && 0 <= j < t.len() && !out.contains(t[j]) ==> nearer(
            #[trigger] out[a],
            #[trigger] t[j],
            target,
        )
}

/// Of two records, one ranks before the other only one way round, and none
/// ranks before itself.
pub proof fn lemma_nearer_asymmetric(a: PlayerView, b: PlayerView, target: int)
    requires
        nearer(a, b, target),
    ensures
        !nearer(b, a, target),
        a != b,
{
    lemma_order_irreflexive(a.key());
    if sorts_before(a.key(), b.key()) {
        lemma_order_asymmetric(a.key(), b.key());
    }
}

/// Two answers to one search agree on their first `n` places.
proof fn lemma_nearest_agree(
    o1: Seq<PlayerView>,
    o2: Seq<PlayerView>,
    t: Seq<PlayerView>,
    target: int,
    limit: int,
    n: int,
)
    requires
        is_nearest(o1, t, target, limit),
        is_nearest(o2, t, target, limit),
        0 <= n <= o1.len(),
    ensures
        forall|a: int| 0 <= a < n ==> o1[a] == o2[a],
    decreases n,
{
    if n > 0 {
        lemma_nearest_agree(o1, o2, t, target, limit, n - 1);
        let x = o1[n - 1];
        let y = o2[n - 1];
        if x != y {
            lemma_nearest_before(o1, o2, t, target, limit, n - 1);
            lemma_nearest_before(o2, o1, t, target, limit, n - 1);
            lemma_nearer_asymmetric(x, y, target);
        }
    }
}

/// Where two answers agree before place `a` and differ at it, the record
/// that the second has there ranks before the one that the first has.
proof fn lemma_nearest_before(
    o1: Seq<PlayerView>,
    o2: Seq<PlayerView>,
    t: Seq<PlayerView>,
    target: int,
    limit: int,
    a: int,
)
    requires
        is_nearest(o1, t, target, limit),
        is_nearest(o2, t, target, limit),
        0 <= a < o1.len(),
        forall|b: int| 0 <= b < a ==> o1[b] == o2[b],
        o1[a] != o2[a],
    ensures
        nearer(o2[a], o1[a], target),
{
    let x = o1[a];
    assert(t.contains(x));
    let j = choose|j: int| 0 <= j < t.len() && t[j] == x;
    if o2.contains(x) {
        let c = choose|c: int| 0 <= c < o2.len() && o2[c] == x;
        if c < a {
            assert(nearer(o1[c], o1[a], target));
            lemma_nearer_asymmetric(o1[c], o1[a], target);
        }
        assert(nearer(o2[a], o2[c], target));
    } else {
        assert(nearer(o2[a], t[j], target));
    }
}

/// A search for the records nearest to a target has one answer only.
pub proof fn lemma_nearest_is_unique(
    o1: Seq<PlayerView>,
    o2: Seq<PlayerView>,
    t: Seq<PlayerView>,
    target: int,
    limit: int,
)
    requires
        is_nearest(o1, t, target, limit),
        is_nearest(o2, t, target, limit),
    ensures
        o1 == o2,
{
    lemma_nearest_agree(o1, o2, t, target, limit, o1.len() as int);
    assert(o1 =~= o2);
}

/// Row `a` ranks before row `b`, the earlier row winning a tie.
spec fn row_nearer(t: Seq<PlayerView>, target: int, a: int, b: int) -> bool {
    gap(t[a], target) < gap(t[b], target) || (gap(t[a], target) == gap(t[b], target) && a < b)
}

/// Every chosen row ranks before row `j`.
spec fn beaten(t: Seq<PlayerView>, target: int, best: Seq<usize>, j: int) -> bool {
    forall|a: int| 0 <= a < best.len() ==> row_nearer(t, target, #[trigger] best[a] as int, j)
}

/// Row `j` is chosen, or the choice is full and every chosen row ranks
/// before it.
spec fn settled(t: Seq<PlayerView>, target: int, limit: int, best: Seq<usize>, j: int) -> bool {
    best.contains(j as usize) || (best.len() == limit && beaten(t, target, best, j))
}

/// The rows chosen among the first `i` are the `limit` best of them, in
/// rank order.
spec fn chosen(t: Seq<PlayerView>, target: int, limit: int, best: Seq<usize>, i: int) -> bool {
    &&& best.len() == if limit <= i {
        limit
    } else {
        i
    }
    &&& forall|a: int| 0 <= a < best.len() ==> 0 <= #[trigger] best[a] < i
    &&& forall|a: int, b: int|
        0 <= a < b < best.len() ==> row_nearer(
            t,
            target,
            #[trigger] best[a] as int,
            #[trigger] best[b] as int,
        )
    &&& forall|j: int| 0 <= j < i ==> #[trigger] settled(t, target, limit, best, j)
}

/// A table of player records with the time of its last refresh.
pub struct Store {
    records: Vec<PlayerRecord>,
    last_refresh: Option<i64>,
}

impl View for Store {
    type V = StoreView;

    closed spec fn view(&self) -> StoreView {
        StoreView { players: self.records.deep_view(), last_refresh: self.last_refresh }
    }
}

impl Store {
    #[verifier::type_invariant]
    spec fn well_formed(self) -> bool {
        ordered(self.records.deep_view()) && all_valid(self.records.deep_view())
    }

    /// An empty store that was never refreshed.
    pub fn new() -> (store: Store)
        ensures
            store@.players.len() == 0,
            store@.last_refresh is None,
    {
        Store { records: Vec::new(), last_refresh: None }
    }

    /// Number of rows.
    pub fn len(&self) -> (n: usize)
        ensures
            n == self@.players.len(),
    {
        self.records.len()
    }

    /// When the table was last replaced, or `None` if it never was.
    pub fn last_refresh_timestamp(&self) -> (t: Option<i64>)
        ensures
            t == self@.last_refresh,
    {
        self.last_refresh
    }

    /// Replaces the whole table by what the batch persists and stamps the
    /// store with the time `now`.
    ///
    /// A record of the batch is persisted if it is valid; of several valid
    /// records with one name the last is. Nothing of the old table stays.
    pub fn replace_all(&mut self, batch: &Vec<PlayerRecord>, now: i64)
        ensures
            is_table_of(final(self)@.players, batch.deep_view()),
            ordered(final(self)@.players),
            all_valid(final(self)@.players),
            final(self)@.last_refresh == Some(now),
    {
        let mut table: Vec<PlayerRecord> = Vec::new();
        let ghost whole = batch.deep_view();
        let mut i: usize = 0;
        assert(whole.take(0).len() == 0);
        while i < batch.len()
            invariant
                i <= batch.len(),
                whole == batch.deep_view(),
                is_table_of(table.deep_view(), whole.take(i as int)),
            decreases batch.len() - i,
        {
            let ghost before = table.deep_view();
            let ghost r = batch[i as int]@;
            proof {
                assert(whole.take(i + 1) =~= whole.take(i as int).push(r));
                assert forall|p: PlayerView|
                    persists(whole.take(i + 1), p) <==> if r.valid() {
                        p == r || (persists(whole.take(i as int), p) && p.name != r.name)
                    } else {
                        persists(whole.take(i as int), p)
                    } by {
                    lemma_persists_after_push(whole.take(i as int), r, p);
                }
            }
            if batch[i].is_valid() {
                upsert(&mut table, batch[i].clone());
            }
            proof {
                let after = table.deep_view();
                assert forall|p: PlayerView| #[trigger]
                    after.contains(p) <==> persists(whole.take(i + 1), p) by {
                    assert(before.contains(p) <==> persists(whole.take(i as int), p));
                }
            }
            i += 1;
        }
        assert(whole.take(batch.len() as int) =~= whole);
        proof {
            lemma_table_rows_are_valid(table.deep_view(), whole);
        }
        self.records = table;
        self.last_refresh = Some(now);
    }

    /// Every record, in ascending order of name.
    pub fn get_all(&self) -> (out: Vec<PlayerRecord>)
        ensures
            out.deep_view() == self@.players,
            ordered(out.deep_view()),
            all_valid(out.deep_view()),
    {
        proof {
            use_type_invariant(self);
        }
        let mut out: Vec<PlayerRecord> = Vec::new();
        let mut i: usize = 0;
        while i < self.records.len()
            invariant
                i <= self.records.len(),
                out.deep_view() == self.records.deep_view().take(i as int),
            decreases self.records.len() - i,
        {
            let ghost before = out.deep_view();
            out.push(self.records[i].clone());
            assert(out.deep_view() =~= before.push(self.records[i as int]@));
            i += 1;
        }
        assert(self.records.deep_view().take(i as int) =~= self.records.deep_view());
        out
    }
    /// The records whose name starts with `query`, the case of ASCII
    /// letters set aside, in ascending order of name. The empty query
    /// finds every record.
    pub fn search_by_prefix(&self, query: &str) -> (out: Vec<PlayerRecord>)
        ensures
            out.deep_view() == matching(self@.players, query@),
            ordered(out.deep_view()),
            forall|p: PlayerView|
                #[trigger] out.deep_view().contains(p) <==> self@.players.contains(p) && has_prefix(
                    p.key(),
                    vstd::utf8::encode_utf8(query@),
                ),
            query@.len() == 0 ==> out.deep_view() == self@.players,
    {
        proof {
            use_type_invariant(self);
        }
        let ghost t = self.records.deep_view();
        let wanted = query.as_bytes();
        let mut out: Vec<PlayerRecord> = Vec::new();
        let mut i: usize = 0;
        proof {
            reveal(Seq::filter);
            assert(t.take(0).len() == 0);
        }
        while i < self.records.len()
            invariant
                i <= self.records.len(),
                t == self.records.deep_view(),
                wanted@ == vstd::utf8::encode_utf8(query@),
                out.deep_view() == matching(t.take(i as int), query@),
                query@.len() == 0 ==> out.deep_view() == t.take(i as int),
            decreases self.records.len() - i,
        {
            let ghost before = out.deep_view();
            let fits = starts_with(self.records[i].name.as_str().as_bytes(), wanted);
            proof {
                reveal(Seq::filter);
                let longer = t.take(i + 1);
                assert(longer.drop_last() =~= t.take(i as int));
                assert(longer.last() == self.records[i as int]@);
                if query@.len() == 0 {
                    assert(wanted@.len() == 0);
                    assert(longer =~= t.take(i as int).push(longer.last()));
                }
            }
            if fits {
                out.push(self.records[i].clone());
                assert(out.deep_view() =~= before.push(self.records[i as int]@));
            }
            i += 1;
        }
        proof {
            assert(t.take(i as int) =~= t);
            lemma_matching_rows(t, query@);
        }
        out
    }

    /// Up to `limit` records, those whose eDPI lies nearest to `target`,
    /// the nearest first. Of records that lie equally near, the one that
    /// comes first in the order of the table ranks first.
    pub fn nearest_by_metric(&self, target: i128, limit: usize) -> (out: Vec<PlayerRecord>)
        ensures
            is_nearest(out.deep_view(), self@.players, target as int, limit as int),
            out.len() <= limit,
            out.len() <= self@.players.len(),
            forall|a: int, b: int|
                0 <= a < b < out.len() ==> gap(#[trigger] out.deep_view()[a], target as int) <= gap(
                    #[trigger] out.deep_view()[b],
                    target as int,
                ),
    {
        proof {
            use_type_invariant(self);
        }
        let ghost t = self.records.deep_view();
        let n = self.records.len();
        let mut best: Vec<usize> = Vec::new();
        let mut i: usize = 0;
        while i < n
            invariant
                i <= n,
                n == self.records.len(),
                t == self.records.deep_view(),
                chosen(t, target as int, limit as int, best@, i as int),
            decreases n - i,
        {
            let ghost old_best = best@;
            let d = distance(self.records[i].edpi, target);
            assert(self.records[i as int]@ == t[i as int]);
            assert(d == gap(t[i as int], target as int));
            let mut at: usize = best.len();
            while at > 0 && distance(self.records[best[at - 1]].edpi, target) > d
                invariant
                    at <= best.len(),
                    best@ == old_best,
                    i < n,
                    n == self.records.len(),
                    t == self.records.deep_view(),
                    d == gap(t[i as int], target as int),
                    forall|a: int| 0 <= a < best.len() ==> 0 <= #[trigger] best[a] < i,
                    forall|b: int|
                        at <= b < best.len() ==> gap(t[#[trigger] best[b] as int], target as int)
                            > d,
                decreases at,
            {
                assert(self.records[best[at - 1] as int]@ == t[best[at - 1] as int]);
                at -= 1;
            }
            proof {
                if at > 0 {
                    assert(self.records[best[at - 1] as int]@ == t[best[at - 1] as int]);
                    assert(gap(t[best[at - 1] as int], target as int) <= d);
                }
                assert forall|a: int| 0 <= a < at implies row_nearer(
                    t,
                    target as int,
                    #[trigger] old_best[a] as int,
                    i as int,
                ) by {
                    if a < at - 1 {
                        assert(row_nearer(
                            t,
                            target as int,
                            old_best[a] as int,
                            old_best[at - 1] as int,
                        ));
                    }
                }
                assert forall|b: int| at <= b < old_best.len() implies row_nearer(
                    t,
                    target as int,
                    i as int,
                    #[trigger] old_best[b] as int,
                ) by {}
            }
            if at < limit {
                best.insert(at, i);
                let ghost grown = best@;
                proof {
                    assert(grown =~= old_best.insert(at as int, i));
                    assert forall|a: int, b: int| 0 <= a < b < grown.len() implies row_nearer(
                        t,
                        target as int,
                        #[trigger] grown[a] as int,
                        #[trigger] grown[b] as int,
                    ) by {
                        if b < at {
                            assert(grown[a] == old_best[a] && grown[b] == old_best[b]);
                        } else if b == at {
                            assert(grown[a] == old_best[a]);
                        } else if a < at {
                            assert(grown[a] == old_best[a] && grown[b] == old_best[b - 1]);
                        } else if a == at {
                            assert(grown[b] == old_best[b - 1]);
                        } else {
                            assert(grown[a] == old_best[a - 1] && grown[b] == old_best[b - 1]);
                        }
                    }
                    assert forall|a: int| 0 <= a < old_best.len() implies grown.contains(
                        #[trigger] old_best[a],
                    ) by {
                        if a < at {
                            assert(grown[a] == old_best[a]);
                        } else {
                            assert(grown[a + 1] == old_best[a]);
                        }
                    }
                    assert(grown[at as int] == i);
                    assert forall|a: int| 0 <= a < grown.len() implies 0 <= #[trigger] grown[a] < i
                        + 1 by {
                        if a < at {
                            assert(grown[a] == old_best[a]);
                        } else if a > at {
                            assert(grown[a] == old_best[a - 1]);
                        }
                    }
                }
                if best.len() > limit {
                    let dropped = best.pop();
                    proof {
                        let kept = best@;
                        let last = grown.len() - 1;
                        assert(kept =~= grown.drop_last());
                        assert(dropped == Some(grown[last]));
                        assert(old_best.len() == limit);
                        assert forall|j: int| 0 <= j < i + 1 implies #[trigger] settled(
                            t,
                            target as int,
                            limit as int,
                            kept,
                            j,
                        ) by {
                            if j < i {
                                assert(settled(t, target as int, limit as int, old_best, j));
                            }
                            if !kept.contains(j as usize) {
                                assert forall|a: int| 0 <= a < kept.len() implies row_nearer(
                                    t,
                                    target as int,
                                    #[trigger] kept[a] as int,
                                    j,
                                ) by {
                                    assert(kept[a] == grown[a]);
                                    assert(row_nearer(
                                        t,
                                        target as int,
                                        grown[a] as int,
                                        grown[last] as int,
                                    ));
                                    if j == grown[last] {
                                    } else {
                                        // `j` was not chosen before either
                                        if old_best.contains(j as usize) {
                                            let k = choose|k: int|
                                                0 <= k < grown.len() && grown[k] == j as usize;
                                            assert(kept[k] == j as usize);
                                        }
                                        assert(j != i) by {
                                            assert(kept[at as int] == i);
                                        }
                                        assert(beaten(t, target as int, old_best, j));
                                        assert(old_best[last - 1] == grown[last]);
                                        assert(row_nearer(
                                            t,
                                            target as int,
                                            old_best[last - 1] as int,
                                            j,
                                        ));
                                    }
                                }
                            }
                        }
                    }
                } else {
                    proof {
                        assert forall|j: int| 0 <= j < i + 1 implies #[trigger] settled(
                            t,
                            target as int,
                            limit as int,
                            grown,
                            j,
                        ) by {
                            if j < i {
                                assert(settled(t, target as int, limit as int, old_best, j));
                                let k = choose|k: int|
                                    0 <= k < old_best.len() && old_best[k] == j as usize;
                                assert(grown.contains(old_best[k]));
                            }
                        }
                    }
                }
            } else {
                proof {
                    assert(beaten(t, target as int, old_best, i as int));
                    assert forall|j: int| 0 <= j < i + 1 implies #[trigger] settled(
                        t,
                        target as int,
                        limit as int,
                        old_best,
                        j,
                    ) by {
                        if j < i {
                            assert(settled(t, target as int, limit as int, old_best, j));
                        }
                    }
                }
            }
            i += 1;
        }
        let mut out: Vec<PlayerRecord> = Vec::new();
        let mut k: usize = 0;
        while k < best.len()
            invariant
                k <= best.len(),
                n == self.records.len(),
                t == self.records.deep_view(),
                out.len() == k,
                forall|a: int| 0 <= a < best.len() ==> 0 <= #[trigger] best[a] < n,
                forall|a: int| 0 <= a < k ==> #[trigger] out.deep_view()[a] == t[best[a] as int],
            decreases best.len() - k,
        {
            let ghost before = out.deep_view();
            out.push(self.records[best[k]].clone());
            assert(out.deep_view() =~= before.push(t[best[k as int] as int]));
            k += 1;
        }
        proof {
            let o = out.deep_view();
            assert forall|a: int| 0 <= a < out.len() implies t.contains(#[trigger] o[a]) by {
                assert(t[best[a] as int] == o[a]);
            }
            assert forall|a: int, b: int| 0 <= a < b < out.len() implies nearer(
                #[trigger] o[a],
                #[trigger] o[b],
                target as int,
            ) && gap(o[a], target as int) <= gap(o[b], target as int) by {
                assert(row_nearer(t, target as int, best[a] as int, best[b] as int));
                if best[a] < best[b] {
                    assert(sorts_before(t[best[a] as int].key(), t[best[b] as int].key()));
                }
            }
            assert forall|a: int, j: int|
                0 <= a < out.len() && 0 <= j < t.len() && !o.contains(t[j]) implies nearer(
                #[trigger] o[a],
                #[trigger] t[j],
                target as int,
            ) by {
                if best@.contains(j as usize) {
                    let b = choose|b: int| 0 <= b < best.len() && best[b] == j as usize;
                    assert(o[b] == t[j]);
                }
                assert(settled(t, target as int, limit as int, best@, j));
                assert(beaten(t, target as int, best@, j));
                assert(row_nearer(t, target as int, best[a] as int, j));
                if best[a] < j {
                    assert(sorts_before(t[best[a] as int].key(), t[j].key()));
                }
            }
        }
        out
    }
}

} // verus!
