use vstd::prelude::*;
use vstd::string::StringExecFns;

use crate::detail::{comment_order, comments_of, order_positions, ordered_pick};
use crate::error::PensaError;
use crate::graph::find_cycles;
use crate::order::{key_lt, SortKey};
use crate::records::{Comment, Dep, Event, Issue};
use crate::store::{
    dep_ok, deps_unique, has_edge, has_id, ids_of, ids_unique, is_edge, issue_ok, lemma_pos_pub, pos, Db,
};
use crate::text::{seq_lt, text_less};

verus! {

/// The four record lists that the tracker exports and imports.
#[derive(Debug)]
pub struct Snapshot {
    pub issues: Vec<Issue>,
    pub deps: Vec<Dep>,
    pub comments: Vec<Comment>,
    pub events: Vec<Event>,
}

/// `r` is `s` rearranged: position `a` of `r` holds `s[order[a]]`, and
/// `order` names every position of `s` once.
pub open spec fn rearranged<T>(r: Seq<T>, s: Seq<T>, order: Seq<int>) -> bool {
    &&& order.len() == s.len()
    &&& r.len() == s.len()
    &&& forall|a: int| 0 <= a < order.len() ==> 0 <= #[trigger] order[a] < s.len() && r[a] == s[order[a]]
    &&& forall|a: int, b: int| 0 <= a < b < order.len() ==> #[trigger] order[a] != #[trigger] order[b]
}

pub open spec fn issue_export_order(db: Db, order: Seq<int>) -> bool {
    ordered_pick(
        db.issues@.len() as int,
        |j: int| true,
        |j: int| (0u64, db.issues@[j].created_at, j as usize),
        order,
    )
}

pub open spec fn comment_export_order(db: Db, order: Seq<int>) -> bool {
    ordered_pick(
        db.comments@.len() as int,
        |j: int| true,
        |j: int| (0u64, db.comments@[j].created_at, j as usize),
        order,
    )
}

pub open spec fn event_export_order(db: Db, order: Seq<int>) -> bool {
    ordered_pick(
        db.events@.len() as int,
        |j: int| true,
        |j: int| (0u64, db.events@[j].id, j as usize),
        order,
    )
}

/// How many of the edges have a child id before `t`.
pub open spec fn child_rank(deps: Seq<Dep>, t: Seq<char>, n: int) -> nat
    decreases n,
{
    if n <= 0 {
        0
    } else {
        child_rank(deps, t, n - 1) + if seq_lt(deps[n - 1].issue_id@, t) {
            1nat
        } else {
            0nat
        }
    }
}

/// How many of the edges have a parent id before `t`.
pub open spec fn parent_rank(deps: Seq<Dep>, t: Seq<char>, n: int) -> nat
    decreases n,
{
    if n <= 0 {
        0
    } else {
        parent_rank(deps, t, n - 1) + if seq_lt(deps[n - 1].depends_on_id@, t) {
            1nat
        } else {
            0nat
        }
    }
}

/// The export key of the edge at `j`: its child id's rank, then its parent
/// id's rank, among all edges.
pub open spec fn dep_key(deps: Seq<Dep>, j: int) -> SortKey {
    (
        child_rank(deps, deps[j].issue_id@, deps.len() as int) as u64,
        parent_rank(deps, deps[j].depends_on_id@, deps.len() as int) as i64,
        j as usize,
    )
}

pub open spec fn dep_export_order(db: Db, order: Seq<int>) -> bool {
    ordered_pick(db.deps@.len() as int, |j: int| true, |j: int| dep_key(db.deps@, j), order)
}

/// `snap` is what `export` makes of `db`: issues by creation time, edges by
/// child id then parent id, comments by creation time and events by
/// sequence number, ties in stored order.
pub open spec fn is_export_of(snap: Snapshot, db: Db) -> bool {
    &&& exists|order: Seq<int>|
        #[trigger] issue_export_order(db, order) && rearranged(snap.issues@, db.issues@, order)
    &&& exists|order: Seq<int>|
        #[trigger] dep_export_order(db, order) && rearranged(snap.deps@, db.deps@, order)
    &&& exists|order: Seq<int>|
        #[trigger] comment_export_order(db, order) && rearranged(snap.comments@, db.comments@, order)
    &&& exists|order: Seq<int>|
        #[trigger] event_export_order(db, order) && rearranged(snap.events@, db.events@, order)
}

/// One more than the largest event sequence number among the first `n`
/// (one where there are none).
pub open spec fn next_seq(events: Seq<Event>, n: int) -> int
    decreases n,
{
    if n <= 0 {
        1
    } else {
        let m = next_seq(events, n - 1);
        if events[n - 1].id + 1 > m {
            events[n - 1].id + 1
        } else {
            m
        }
    }
}

/// The state that `restore` builds from a snapshot.
pub open spec fn restored(snap: Snapshot) -> Db {
    Db {
        issues: snap.issues,
        deps: snap.deps,
        comments: snap.comments,
        events: snap.events,
        next_event_id: next_seq(snap.events@, snap.events@.len() as int) as i64,
    }
}

/// A snapshot can be restored: it is well formed and its sequence numbers
/// leave room.
pub open spec fn restorable(snap: Snapshot) -> bool {
    &&& next_seq(snap.events@, snap.events@.len() as int) <= i64::MAX
    &&& restored(snap).wf()
}

fn child_rank_exec(deps: &Vec<Dep>, t: &str) -> (r: u64)
    requires
        deps@.len() < 0x7fff_ffff_ffff_ffff,
    ensures
        r as int == child_rank(deps@, t@, deps@.len() as int),
{
    let mut n: u64 = 0;
    let mut i: usize = 0;
    while i < deps.len()
        invariant
            i <= deps@.len(),
            deps@.len() < 0x7fff_ffff_ffff_ffff,
            n as int == child_rank(deps@, t@, i as int),
            n <= i,
        decreases deps@.len() - i,
    {
        if text_less(deps[i].issue_id.as_str(), t) {
            n = n + 1;
        }
        i = i + 1;
    }
    n
}

fn parent_rank_exec(deps: &Vec<Dep>, t: &str) -> (r: u64)
    requires
        deps@.len() < 0x7fff_ffff_ffff_ffff,
    ensures
        r as int == parent_rank(deps@, t@, deps@.len() as int),
        r <= deps@.len(),
{
    let mut n: u64 = 0;
    let mut i: usize = 0;
    while i < deps.len()
        invariant
            i <= deps@.len(),
            deps@.len() < 0x7fff_ffff_ffff_ffff,
            n as int == parent_rank(deps@, t@, i as int),
            n <= i,
        decreases deps@.len() - i,
    {
        if text_less(deps[i].depends_on_id.as_str(), t) {
            n = n + 1;
        }
        i = i + 1;
    }
    n
}

fn sort_positions(n: usize, keys: &Vec<SortKey>) -> (r: Vec<usize>)
    requires
        keys@.len() == n,
        forall|j: int| 0 <= j < keys@.len() ==> (#[trigger] keys@[j]).2 == j,
    ensures
        r@.len() == n,
        ordered_pick(n as int, |j: int| true, |j: int| keys@[j], r@.map_values(|x: usize| x as int)),
{
    let mut pick: Vec<bool> = Vec::new();
    let mut j: usize = 0;
    while j < n
        invariant
            j <= n,
            pick@.len() == j,
            forall|q: int| 0 <= q < j ==> #[trigger] pick@[q],
        decreases n - j,
    {
        pick.push(true);
        j = j + 1;
    }
    let r = order_positions(&pick, keys);
    proof {
        let o = r@.map_values(|x: usize| x as int);
        assert(ordered_pick(n as int, |j: int| pick@[j], |j: int| keys@[j], o));
    }
    r
}

proof fn lemma_picked_rearranges<T>(r: Seq<T>, s: Seq<T>, key: spec_fn(int) -> SortKey, order: Seq<int>)
    requires
        ordered_pick(s.len() as int, |j: int| true, key, order),
        order.len() == s.len(),
        r == order.map_values(|j: int| s[j]),
        forall|j: int| 0 <= j < s.len() ==> #[trigger] key(j).2 == j,
    ensures
        rearranged(r, s, order),
{
    assert forall|a: int, b: int| 0 <= a < b < order.len() implies #[trigger] order[a] != #[trigger] order[b] by {
        assert(crate::order::key_lt(key(order[a]), key(order[b])));
        assert(key(order[a]).2 == order[a]);
        assert(key(order[b]).2 == order[b]);
    }
}

impl Db {
    /// The tracker's records, ready to be written out: issues and comments
    /// by creation time, events by sequence number, edges by child id then
    /// parent id.
    pub fn export(&self) -> (r: Snapshot)
        requires
            self.deps@.len() < 0x7fff_ffff_ffff_ffff,
        ensures
            is_export_of(r, *self),
    {
        let mut ik: Vec<SortKey> = Vec::new();
        let mut j: usize = 0;
        while j < self.issues.len()
            invariant
                j <= self.issues@.len(),
                ik@.len() == j,
                forall|q: int| 0 <= q < j ==> #[trigger] ik@[q] == (0u64, self.issues@[q].created_at, q as usize),
            decreases self.issues@.len() - j,
        {
            ik.push((0, self.issues[j].created_at, j));
            j = j + 1;
        }
        let io = sort_positions(self.issues.len(), &ik);
        let mut issues: Vec<Issue> = Vec::new();
        let ghost iov = io@.map_values(|x: usize| x as int);
        let mut a: usize = 0;
        while a < io.len()
            invariant
                a <= io@.len(),
                io@.len() == self.issues@.len(),
                iov == io@.map_values(|x: usize| x as int),
                forall|b: int| 0 <= b < iov.len() ==> 0 <= #[trigger] iov[b] < self.issues@.len(),
                issues@ == iov.take(a as int).map_values(|q: int| self.issues@[q]),
            decreases io@.len() - a,
        {
            assert(0 <= iov[a as int] < self.issues@.len());
            issues.push(self.issues[io[a]].copy());
            proof {
                assert(issues@ =~= iov.take(a + 1).map_values(|q: int| self.issues@[q]));
            }
            a = a + 1;
        }
        proof {
            assert(iov.take(iov.len() as int) =~= iov);
            let k = |q: int| ik@[q];
            let k2 = |q: int| (0u64, self.issues@[q].created_at, q as usize);
            assert(ordered_pick(self.issues@.len() as int, |j: int| true, k2, iov));
            lemma_picked_rearranges(issues@, self.issues@, k2, iov);
            assert(issue_export_order(*self, iov));
        }
        let mut ck: Vec<SortKey> = Vec::new();
        let mut j: usize = 0;
        while j < self.comments.len()
            invariant
                j <= self.comments@.len(),
                ck@.len() == j,
                forall|q: int| 0 <= q < j ==> #[trigger] ck@[q] == (0u64, self.comments@[q].created_at, q as usize),
            decreases self.comments@.len() - j,
        {
            ck.push((0, self.comments[j].created_at, j));
            j = j + 1;
        }
        let co = sort_positions(self.comments.len(), &ck);
        let mut comments: Vec<Comment> = Vec::new();
        let ghost cov = co@.map_values(|x: usize| x as int);
        let mut a: usize = 0;
        while a < co.len()
            invariant
                a <= co@.len(),
                co@.len() == self.comments@.len(),
                cov == co@.map_values(|x: usize| x as int),
                forall|b: int| 0 <= b < cov.len() ==> 0 <= #[trigger] cov[b] < self.comments@.len(),
                comments@ == cov.take(a as int).map_values(|q: int| self.comments@[q]),
            decreases co@.len() - a,
        {
            assert(0 <= cov[a as int] < self.comments@.len());
            comments.push(self.comments[co[a]].copy());
            proof {
                assert(comments@ =~= cov.take(a + 1).map_values(|q: int| self.comments@[q]));
            }
            a = a + 1;
        }
        proof {
            assert(cov.take(cov.len() as int) =~= cov);
            let k2 = |q: int| (0u64, self.comments@[q].created_at, q as usize);
            assert(ordered_pick(self.comments@.len() as int, |j: int| true, k2, cov));
            lemma_picked_rearranges(comments@, self.comments@, k2, cov);
            assert(comment_export_order(*self, cov));
        }
        let mut ek: Vec<SortKey> = Vec::new();
        let mut j: usize = 0;
        while j < self.events.len()
            invariant
                j <= self.events@.len(),
                ek@.len() == j,
                forall|q: int| 0 <= q < j ==> #[trigger] ek@[q] == (0u64, self.events@[q].id, q as usize),
            decreases self.events@.len() - j,
        {
            ek.push((0, self.events[j].id, j));
            j = j + 1;
        }
        let eo = sort_positions(self.events.len(), &ek);
        let mut events: Vec<Event> = Vec::new();
        let ghost eov = eo@.map_values(|x: usize| x as int);
        let mut a: usize = 0;
        while a < eo.len()
            invariant
                a <= eo@.len(),
                eo@.len() == self.events@.len(),
                eov == eo@.map_values(|x: usize| x as int),
                forall|b: int| 0 <= b < eov.len() ==> 0 <= #[trigger] eov[b] < self.events@.len(),
                events@ == eov.take(a as int).map_values(|q: int| self.events@[q]),
            decreases eo@.len() - a,
        {
            assert(0 <= eov[a as int] < self.events@.len());
            events.push(self.events[eo[a]].copy());
            proof {
                assert(events@ =~= eov.take(a + 1).map_values(|q: int| self.events@[q]));
            }
            a = a + 1;
        }
        proof {
            assert(eov.take(eov.len() as int) =~= eov);
            let k2 = |q: int| (0u64, self.events@[q].id, q as usize);
            assert(ordered_pick(self.events@.len() as int, |j: int| true, k2, eov));
            lemma_picked_rearranges(events@, self.events@, k2, eov);
            assert(event_export_order(*self, eov));
        }
        let mut dk: Vec<SortKey> = Vec::new();
        let mut j: usize = 0;
        while j < self.deps.len()
            invariant
                j <= self.deps@.len(),
                self.deps@.len() < 0x7fff_ffff_ffff_ffff,
                dk@.len() == j,
                forall|q: int| 0 <= q < j ==> #[trigger] dk@[q] == dep_key(self.deps@, q),
            decreases self.deps@.len() - j,
        {
            let c = child_rank_exec(&self.deps, self.deps[j].issue_id.as_str());
            let p = parent_rank_exec(&self.deps, self.deps[j].depends_on_id.as_str());
            dk.push((c, p as i64, j));
            j = j + 1;
        }
        let dor = sort_positions(self.deps.len(), &dk);
        let mut deps: Vec<Dep> = Vec::new();
        let ghost dov = dor@.map_values(|x: usize| x as int);
        let mut a: usize = 0;
        while a < dor.len()
            invariant
                a <= dor@.len(),
                dor@.len() == self.deps@.len(),
                dov == dor@.map_values(|x: usize| x as int),
                forall|b: int| 0 <= b < dov.len() ==> 0 <= #[trigger] dov[b] < self.deps@.len(),
                deps@ == dov.take(a as int).map_values(|q: int| self.deps@[q]),
            decreases dor@.len() - a,
        {
            assert(0 <= dov[a as int] < self.deps@.len());
            deps.push(self.deps[dor[a]].copy());
            proof {
                assert(deps@ =~= dov.take(a + 1).map_values(|q: int| self.deps@[q]));
            }
            a = a + 1;
        }
        proof {
            assert(dov.take(dov.len() as int) =~= dov);
            let k2 = |q: int| dep_key(self.deps@, q);
            assert(ordered_pick(self.deps@.len() as int, |j: int| true, k2, dov));
            lemma_picked_rearranges(deps@, self.deps@, k2, dov);
            assert(dep_export_order(*self, dov));
        }
        Snapshot { issues, deps, comments, events }
    }
}

proof fn lemma_next_seq_bounds(events: Seq<Event>, n: int, bound: int)
    requires
        0 <= n <= events.len(),
        1 <= bound,
        forall|j: int| 0 <= j < n ==> (#[trigger] events[j]).id < bound,
    ensures
        next_seq(events, n) <= bound,
        1 <= next_seq(events, n),
        forall|j: int| 0 <= j < n ==> (#[trigger] events[j]).id < next_seq(events, n),
    decreases n,
{
    if n > 0 {
        lemma_next_seq_bounds(events, n - 1, bound);
    }
}

proof fn lemma_rearranged_contains<T>(r: Seq<T>, s: Seq<T>, order: Seq<int>)
    requires
        rearranged(r, s, order),
        forall|j: int| 0 <= j < s.len() ==> order.contains(j),
    ensures
        forall|x: T| r.contains(x) <==> s.contains(x),
{
    assert forall|x: T| r.contains(x) <==> s.contains(x) by {
        if r.contains(x) {
            let a = choose|a: int| 0 <= a < r.len() && r[a] == x;
            assert(s[order[a]] == x);
        }
        if s.contains(x) {
            let j = choose|j: int| 0 <= j < s.len() && s[j] == x;
            assert(order.contains(j));
            let a = choose|a: int| 0 <= a < order.len() && order[a] == j;
            assert(r[a] == x);
        }
    }
}

proof fn lemma_rearranged_issues(r: Seq<Issue>, s: Seq<Issue>, order: Seq<int>)
    requires
        rearranged(r, s, order),
        forall|j: int| 0 <= j < s.len() ==> order.contains(j),
        ids_unique(s),
        forall|j: int| 0 <= j < s.len() ==> issue_ok(#[trigger] s[j]),
    ensures
        forall|x: Seq<char>| has_id(r, x) <==> has_id(s, x),
        ids_unique(r),
        forall|j: int| 0 <= j < r.len() ==> issue_ok(#[trigger] r[j]),
        forall|x: Seq<char>| has_id(s, x) ==> r[pos(r, x)] == s[pos(s, x)],
{
    lemma_rearranged_contains(r, s, order);
    assert forall|x: Seq<char>| has_id(r, x) <==> has_id(s, x) by {
        if has_id(r, x) {
            let a = choose|a: int| 0 <= a < ids_of(r).len() && ids_of(r)[a] == x;
            assert(s.contains(r[a]));
            let j = choose|j: int| 0 <= j < s.len() && s[j] == r[a];
            assert(ids_of(s)[j] == x);
        }
        if has_id(s, x) {
            let j = choose|j: int| 0 <= j < ids_of(s).len() && ids_of(s)[j] == x;
            assert(r.contains(s[j]));
            let a = choose|a: int| 0 <= a < r.len() && r[a] == s[j];
            assert(ids_of(r)[a] == x);
        }
    }
    assert forall|a: int, b: int|
        0 <= a < r.len() && 0 <= b < r.len() && #[trigger] r[a].id@ == #[trigger] r[b].id@ implies a == b by {
        assert(r[a] == s[order[a]] && r[b] == s[order[b]]);
        if a < b {
            assert(order[a] != order[b]);
        } else if b < a {
            assert(order[b] != order[a]);
        }
    }
    assert forall|j: int| 0 <= j < r.len() implies issue_ok(#[trigger] r[j]) by {
        assert(r[j] == s[order[j]]);
    }
    assert forall|x: Seq<char>| has_id(s, x) implies r[pos(r, x)] == s[pos(s, x)] by {
        let j = choose|j: int| 0 <= j < ids_of(s).len() && ids_of(s)[j] == x;
        lemma_pos_pub(s, j);
        assert(order.contains(j));
        let a = choose|a: int| 0 <= a < order.len() && order[a] == j;
        assert(r[a] == s[j]);
        lemma_pos_pub(r, a);
    }
}

/// Exporting and importing again gives back the same tracker: the snapshot
/// can be restored, and the restored state has the same issues under the
/// same ids with the same fields, the same edges, and the same comments and
/// events.
pub proof fn lemma_export_import_round_trip(db: Db, snap: Snapshot)
    requires
        db.wf(),
        is_export_of(snap, db),
    ensures
        restorable(snap),
        forall|x: Seq<char>| has_id(restored(snap).issues@, x) <==> has_id(db.issues@, x),
        forall|x: Seq<char>|
            has_id(db.issues@, x) ==> restored(snap).issues@[pos(restored(snap).issues@, x)]
                == db.issues@[pos(db.issues@, x)],
        restored(snap).issues@.len() == db.issues@.len(),
        restored(snap).deps@.len() == db.deps@.len(),
        forall|x: Seq<char>, y: Seq<char>| has_edge(restored(snap).deps@, x, y) <==> has_edge(db.deps@, x, y),
        restored(snap).comments@.len() == db.comments@.len(),
        forall|c: Comment| restored(snap).comments@.contains(c) <==> db.comments@.contains(c),
        forall|e: Event| restored(snap).events@.contains(e) <==> db.events@.contains(e),
{
    let io = choose|order: Seq<int>| #[trigger] issue_export_order(db, order) && rearranged(snap.issues@, db.issues@, order);
    let co = choose|order: Seq<int>| #[trigger] comment_export_order(db, order) && rearranged(snap.comments@, db.comments@, order);
    let eo = choose|order: Seq<int>| #[trigger] event_export_order(db, order) && rearranged(snap.events@, db.events@, order);
    lemma_rearranged_issues(snap.issues@, db.issues@, io);
    lemma_rearranged_contains(snap.comments@, db.comments@, co);
    lemma_rearranged_contains(snap.events@, db.events@, eo);
    let ev = snap.events@;
    assert forall|j: int| 0 <= j < ev.len() implies (#[trigger] ev[j]).id < db.next_event_id by {
        assert(db.events@.contains(ev[j]));
        let q = choose|q: int| 0 <= q < db.events@.len() && db.events@[q] == ev[j];
    }
    lemma_next_seq_bounds(ev, ev.len() as int, db.next_event_id as int);
    let d = restored(snap);
    let dor = choose|order: Seq<int>| #[trigger] dep_export_order(db, order) && rearranged(snap.deps@, db.deps@, order);
    lemma_rearranged_contains(snap.deps@, db.deps@, dor);
    assert forall|k: int| 0 <= k < d.deps@.len() implies dep_ok(d.issues@, #[trigger] d.deps@[k]) by {
        assert(d.deps@[k] == db.deps@[dor[k]]);
        assert(dep_ok(db.issues@, db.deps@[dor[k]]));
    }
    assert forall|a: int, b: int|
        0 <= a < d.deps@.len() && 0 <= b < d.deps@.len() && #[trigger] d.deps@[a].issue_id@ == #[trigger] d.deps@[b].issue_id@
            && d.deps@[a].depends_on_id@ == d.deps@[b].depends_on_id@ implies a == b by {
        assert(d.deps@[a] == db.deps@[dor[a]] && d.deps@[b] == db.deps@[dor[b]]);
        if a < b {
            assert(dor[a] != dor[b]);
        } else if b < a {
            assert(dor[b] != dor[a]);
        }
    }
    assert forall|x: Seq<char>, y: Seq<char>| has_edge(d.deps@, x, y) <==> has_edge(db.deps@, x, y) by {
        if has_edge(d.deps@, x, y) {
            let k = choose|k: int| 0 <= k < d.deps@.len() && is_edge(#[trigger] d.deps@[k], x, y);
            assert(db.deps@.contains(d.deps@[k]));
            let q = choose|q: int| 0 <= q < db.deps@.len() && db.deps@[q] == d.deps@[k];
            assert(is_edge(db.deps@[q], x, y));
        }
        if has_edge(db.deps@, x, y) {
            let k = choose|k: int| 0 <= k < db.deps@.len() && is_edge(#[trigger] db.deps@[k], x, y);
            assert(d.deps@.contains(db.deps@[k]));
            let q = choose|q: int| 0 <= q < d.deps@.len() && d.deps@[q] == db.deps@[k];
            assert(is_edge(d.deps@[q], x, y));
        }
    }
    crate::graph::lemma_sub_acyclic(d.deps@, db.deps@);
    assert forall|c: int| 0 <= c < d.comments@.len() implies has_id(d.issues@, (#[trigger] d.comments@[c]).issue_id@) by {
        assert(db.comments@.contains(d.comments@[c]));
        let q = choose|q: int| 0 <= q < db.comments@.len() && db.comments@[q] == d.comments@[c];
    }
    assert forall|e: int| 0 <= e < d.events@.len() implies has_id(d.issues@, (#[trigger] d.events@[e]).issue_id@)
        && d.events@[e].id < d.next_event_id by {
        assert(db.events@.contains(d.events@[e]));
        let q = choose|q: int| 0 <= q < db.events@.len() && db.events@[q] == d.events@[e];
    }
}

impl Db {
    fn ids_distinct(&self) -> (r: bool)
        ensures
            r == ids_unique(self.issues@),
    {
        let mut a: usize = 0;
        while a < self.issues.len()
            invariant
                a <= self.issues@.len(),
                forall|x: int, y: int| 0 <= x < a && 0 <= y < self.issues@.len() && x != y ==> #[trigger] self.issues@[x].id@ != #[trigger] self.issues@[y].id@,
            decreases self.issues@.len() - a,
        {
            let mut b: usize = 0;
            while b < self.issues.len()
                invariant
                    a < self.issues@.len(),
                    b <= self.issues@.len(),
                    forall|x: int, y: int| 0 <= x < a && 0 <= y < self.issues@.len() && x != y ==> #[trigger] self.issues@[x].id@ != #[trigger] self.issues@[y].id@,
                    forall|y: int| 0 <= y < b && y != a ==> self.issues@[a as int].id@ != #[trigger] self.issues@[y].id@,
                decreases self.issues@.len() - b,
            {
                if b != a && self.issues[a].id == self.issues[b].id {
                    proof {
                        assert(self.issues@[a as int].id@ == self.issues@[b as int].id@);
                        assert(!ids_unique(self.issues@));
                    }
                    return false;
                }
                b = b + 1;
            }
            a = a + 1;
        }
        true
    }

    fn edges_distinct(&self) -> (r: bool)
        ensures
            r == deps_unique(self.deps@),
    {
        let mut a: usize = 0;
        while a < self.deps.len()
            invariant
                a <= self.deps@.len(),
                forall|x: int, y: int| 0 <= x < a && 0 <= y < self.deps@.len() && x != y ==> !(#[trigger] self.deps@[x].issue_id@ == #[trigger] self.deps@[y].issue_id@ && self.deps@[x].depends_on_id@ == self.deps@[y].depends_on_id@),
            decreases self.deps@.len() - a,
        {
            let mut b: usize = 0;
            while b < self.deps.len()
                invariant
                    a < self.deps@.len(),
                    b <= self.deps@.len(),
                    forall|x: int, y: int| 0 <= x < a && 0 <= y < self.deps@.len() && x != y ==> !(#[trigger] self.deps@[x].issue_id@ == #[trigger] self.deps@[y].issue_id@ && self.deps@[x].depends_on_id@ == self.deps@[y].depends_on_id@),
                    forall|y: int| 0 <= y < b && y != a ==> !(self.deps@[a as int].issue_id@ == #[trigger] self.deps@[y].issue_id@ && self.deps@[a as int].depends_on_id@ == self.deps@[y].depends_on_id@),
                decreases self.deps@.len() - b,
            {
                if b != a && self.deps[a].issue_id == self.deps[b].issue_id && self.deps[a].depends_on_id == self.deps[b].depends_on_id {
                    proof {
                        assert(self.deps@[a as int].issue_id@ == self.deps@[b as int].issue_id@);
                        assert(!deps_unique(self.deps@));
                    }
                    return false;
                }
                b = b + 1;
            }
            a = a + 1;
        }
        true
    }

    /// Whether the state meets every invariant of the tracker.
    pub fn well_formed(&self) -> (r: bool)
        ensures
            r == self.wf(),
    {
        if !self.ids_distinct() || self.next_event_id < 1 {
            return false;
        }
        let mut j: usize = 0;
        while j < self.issues.len()
            invariant
                j <= self.issues@.len(),
                forall|q: int| 0 <= q < j ==> issue_ok(#[trigger] self.issues@[q]),
            decreases self.issues@.len() - j,
        {
            let i = &self.issues[j];
            let ok = (i.status != crate::types::Status::InProgress || i.assignee.is_some())
                && (i.status != crate::types::Status::Closed || i.closed_at.is_some())
                && (i.status != crate::types::Status::Open || (i.closed_at.is_none() && i.close_reason.is_none()));
            if !ok {
                return false;
            }
            j = j + 1;
        }
        let mut k: usize = 0;
        while k < self.deps.len()
            invariant
                k <= self.deps@.len(),
                forall|q: int| 0 <= q < k ==> dep_ok(self.issues@, #[trigger] self.deps@[q]),
            decreases self.deps@.len() - k,
        {
            let e = &self.deps[k];
            if !self.has_issue(e.issue_id.as_str()) || !self.has_issue(e.depends_on_id.as_str()) || e.issue_id == e.depends_on_id {
                return false;
            }
            k = k + 1;
        }
        if !self.edges_distinct() {
            return false;
        }
        let mut c: usize = 0;
        while c < self.comments.len()
            invariant
                c <= self.comments@.len(),
                forall|q: int| 0 <= q < c ==> has_id(self.issues@, (#[trigger] self.comments@[q]).issue_id@),
            decreases self.comments@.len() - c,
        {
            if !self.has_issue(self.comments[c].issue_id.as_str()) {
                return false;
            }
            c = c + 1;
        }
        let mut e: usize = 0;
        while e < self.events.len()
            invariant
                e <= self.events@.len(),
                forall|q: int| 0 <= q < e ==> has_id(self.issues@, (#[trigger] self.events@[q]).issue_id@) && self.events@[q].id < self.next_event_id,
            decreases self.events@.len() - e,
        {
            if !self.has_issue(self.events[e].issue_id.as_str()) || self.events[e].id >= self.next_event_id {
                return false;
            }
            e = e + 1;
        }
        let cycles = find_cycles(&self.deps);
        cycles.len() == 0
    }

    /// Rebuilds the tracker from exported records, after checking that they
    /// reference only issues that exist, keep the status invariants and
    /// form no dependency cycle. Event numbering continues after the
    /// largest number present.
    pub fn restore(snap: Snapshot) -> (r: Result<Db, PensaError>)
        ensures
            restorable(snap) ==> r == Ok::<Db, PensaError>(restored(snap)),
            !restorable(snap) ==> r is Err && r->Err_0 is Internal,
    {
        let mut next: i128 = 1;
        let mut j: usize = 0;
        while j < snap.events.len()
            invariant
                j <= snap.events@.len(),
                next == next_seq(snap.events@, j as int),
                next <= i64::MAX + 1,
            decreases snap.events@.len() - j,
        {
            let id = snap.events[j].id as i128;
            if id + 1 > next {
                next = id + 1;
            }
            j = j + 1;
        }
        if next > i64::MAX as i128 {
            return Err(PensaError::Internal(String::from_str("event sequence out of range")));
        }
        let db = Db {
            issues: snap.issues,
            deps: snap.deps,
            comments: snap.comments,
            events: snap.events,
            next_event_id: next as i64,
        };
        if db.well_formed() {
            Ok(db)
        } else {
            Err(PensaError::Internal(String::from_str("imported records are inconsistent")))
        }
    }
}

/// After export and import, an issue's comments list in the same order as
/// before (oldest first, ties as they were added).
pub proof fn lemma_round_trip_comment_order(db: Db, snap: Snapshot, id: Seq<char>, r: Seq<Comment>)
    requires
        db.wf(),
        is_export_of(snap, db),
        db.comments@.len() <= usize::MAX,
        comments_of(db, id, r),
    ensures
        comments_of(restored(snap), id, r),
{
    let d = restored(snap);
    let n = db.comments@.len() as int;
    let co = choose|order: Seq<int>| #[trigger] comment_export_order(db, order) && rearranged(snap.comments@, db.comments@, order);
    let o1 = choose|order: Seq<int>| #[trigger] comment_order(db, id, order) && r == order.map_values(|j: int| db.comments@[j]);
    let inv = |j: int| choose|a: int| 0 <= a < co.len() && co[a] == j;
    let o2 = o1.map_values(|j: int| inv(j));
    assert forall|j: int| 0 <= j < n implies 0 <= #[trigger] inv(j) < co.len() && co[inv(j)] == j by {
        assert(co.contains(j));
    }
    assert forall|b: int| 0 <= b < o2.len() implies 0 <= #[trigger] o2[b] < d.comments@.len()
        && d.comments@[o2[b]] == db.comments@[o1[b]] by {
        assert(0 <= o1[b] < n);
        assert(co[inv(o1[b])] == o1[b]);
    }
    assert forall|a: int| 0 <= a < d.comments@.len() && d.comments@[a].issue_id@ == id implies o2.contains(a) by {
        let j = co[a];
        assert(d.comments@[a] == db.comments@[j]);
        assert(o1.contains(j));
        let b = choose|b: int| 0 <= b < o1.len() && o1[b] == j;
        let a2 = inv(j);
        assert(co[a2] == j);
        if a2 != a {
            if a < a2 {
                assert(co[a] != co[a2]);
            } else {
                assert(co[a2] != co[a]);
            }
        }
        assert(o2[b] == a);
    }
    assert forall|b1: int, b2: int| 0 <= b1 < b2 < o2.len() implies key_lt(
        (0u64, d.comments@[#[trigger] o2[b1]].created_at, o2[b1] as usize),
        (0u64, d.comments@[#[trigger] o2[b2]].created_at, o2[b2] as usize),
    ) by {
        let (j1, j2) = (o1[b1], o1[b2]);
        let (a1, a2) = (o2[b1], o2[b2]);
        assert(key_lt((0u64, db.comments@[j1].created_at, j1 as usize), (0u64, db.comments@[j2].created_at, j2 as usize)));
        assert(co[a1] == j1 && co[a2] == j2);
        assert((j1 as usize) as int == j1 && (j2 as usize) as int == j2);
        assert((a1 as usize) as int == a1 && (a2 as usize) as int == a2);
        if a1 > a2 {
            assert(key_lt((0u64, db.comments@[co[a2]].created_at, co[a2] as usize), (0u64, db.comments@[co[a1]].created_at, co[a1] as usize)));
        } else if a1 == a2 {
            assert(j1 == j2);
        }
    }
    assert(comment_order(d, id, o2));
    assert(r =~= o2.map_values(|a: int| d.comments@[a]));
}

} // verus!
