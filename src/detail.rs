use vstd::prelude::*;

use crate::error::PensaError;
use crate::graph::{find_cycles, flip, flipped, is_path, levels_from, reaches, str_views, walk};
use crate::order::{key_lt, sort_keys, SortKey};
use crate::records::{Comment, Dep, DepTreeNode, Event, Issue, IssueDetail, Timestamp};
use crate::store::{dep_ok, has_edge, has_id, is_edge, lemma_pos_pub, not_found, pos, Db};
use crate::types::str_eq;

verus! {

/// `order` lists, each once and in ascending order of `key`, exactly the
/// positions below `n` that `pick` selects.
pub open spec fn ordered_pick(
    n: int,
    pick: spec_fn(int) -> bool,
    key: spec_fn(int) -> SortKey,
    order: Seq<int>,
) -> bool {
    &&& forall|a: int| 0 <= a < order.len() ==> 0 <= #[trigger] order[a] < n && pick(order[a])
    &&& forall|j: int| 0 <= j < n && pick(j) ==> order.contains(j)
    &&& forall|a: int, b: int|
        0 <= a < b < order.len() ==> key_lt(key(#[trigger] order[a]), key(#[trigger] order[b]))
}

/// The dependency parents of `id`, in the order their edges were added.
pub open spec fn parents_of(db: Db, id: Seq<char>, r: Seq<Issue>) -> bool {
    exists|ks: Seq<int>|
        {
            &&& ks.len() == r.len()
            &&& forall|a: int, b: int| 0 <= a < b < ks.len() ==> #[trigger] ks[a] < #[trigger] ks[b]
            &&& forall|a: int|
                0 <= a < ks.len() ==> 0 <= #[trigger] ks[a] < db.deps@.len() && db.deps@[ks[a]].issue_id@
                    == id && r[a] == db.issues@[pos(db.issues@, db.deps@[ks[a]].depends_on_id@)]
            &&& forall|k: int|
                0 <= k < db.deps@.len() && (#[trigger] db.deps@[k]).issue_id@ == id ==> ks.contains(k)
        }
}

/// The positions of the comments on `id`, by creation time, ties in the
/// order they were added.
pub open spec fn comment_order(db: Db, id: Seq<char>, order: Seq<int>) -> bool {
    ordered_pick(
        db.comments@.len() as int,
        |j: int| db.comments@[j].issue_id@ == id,
        |j: int| (0u64, db.comments@[j].created_at, j as usize),
        order,
    )
}

/// The comments on `id`, oldest first, ties in the order they were added.
pub open spec fn comments_of(db: Db, id: Seq<char>, r: Seq<Comment>) -> bool {
    exists|order: Seq<int>|
        #[trigger] comment_order(db, id, order) && r == order.map_values(|j: int| db.comments@[j])
}

/// The positions of the events of `id`, by time, ties in the order they
/// were recorded.
pub open spec fn event_order(db: Db, id: Seq<char>, order: Seq<int>) -> bool {
    ordered_pick(
        db.events@.len() as int,
        |j: int| db.events@[j].issue_id@ == id,
        |j: int| (0u64, db.events@[j].created_at, j as usize),
        order,
    )
}

/// The events of `id`, newest first, ties latest recorded first.
pub open spec fn history_of(db: Db, id: Seq<char>, r: Seq<Event>) -> bool {
    exists|order: Seq<int>|
        #[trigger] event_order(db, id, order) && r == order.reverse().map_values(
            |j: int| db.events@[j],
        )
}

/// Sorts the positions that `pick` marks by the keys in `keys`.
pub(crate) fn order_positions(pick: &Vec<bool>, keys: &Vec<SortKey>) -> (r: Vec<usize>)
    requires
        pick@.len() == keys@.len(),
        forall|j: int| 0 <= j < keys@.len() ==> (#[trigger] keys@[j]).2 == j,
    ensures
        ordered_pick(
            pick@.len() as int,
            |j: int| pick@[j],
            |j: int| keys@[j],
            r@.map_values(|x: usize| x as int),
        ),
        (forall|j: int| 0 <= j < pick@.len() ==> #[trigger] pick@[j]) ==> r@.len() == pick@.len(),
{
    let mut chosen: Vec<SortKey> = Vec::new();
    let mut j: usize = 0;
    while j < pick.len()
        invariant
            j <= pick@.len(),
            pick@.len() == keys@.len(),
            forall|q: int| 0 <= q < keys@.len() ==> (#[trigger] keys@[q]).2 == q,
            forall|a: int| 0 <= a < chosen@.len() ==> (#[trigger] chosen@[a]).2 < j && pick@[chosen@[a].2 as int]
                && chosen@[a] == keys@[chosen@[a].2 as int],
            forall|a: int, b: int| 0 <= a < b < chosen@.len() ==> (#[trigger] chosen@[a]).2 < (#[trigger] chosen@[b]).2,
            forall|q: int| 0 <= q < j && pick@[q] ==> exists|a: int| 0 <= a < chosen@.len() && (#[trigger] chosen@[a]).2 == q,
            (forall|q: int| 0 <= q < pick@.len() ==> #[trigger] pick@[q]) ==> chosen@.len() == j,
        decreases pick@.len() - j,
    {
        if pick[j] {
            let ghost before = chosen@;
            chosen.push(keys[j]);
            proof {
                assert forall|q: int| 0 <= q < j + 1 && pick@[q] implies exists|a: int| 0 <= a < chosen@.len() && (#[trigger] chosen@[a]).2 == q by {
                    if q < j {
                        let a = choose|a: int| 0 <= a < before.len() && (#[trigger] before[a]).2 == q;
                        assert(chosen@[a] == before[a]);
                    } else {
                        assert(chosen@[before.len() as int].2 == q);
                    }
                }
            }
        }
        j = j + 1;
    }
    let sorted = sort_keys(&chosen);
    let mut out: Vec<usize> = Vec::new();
    let mut a: usize = 0;
    while a < sorted.len()
        invariant
            a <= sorted@.len(),
            out@.len() == a,
            forall|b: int| 0 <= b < a ==> out@[b] == (#[trigger] sorted@[b]).2,
        decreases sorted@.len() - a,
    {
        out.push(sorted[a].2);
        a = a + 1;
    }
    proof {
        let order = out@.map_values(|x: usize| x as int);
        assert forall|b: int| 0 <= b < order.len() implies 0 <= #[trigger] order[b] < pick@.len() && pick@[order[b]] by {
            assert(chosen@.contains(sorted@[b]));
        }
        assert forall|q: int| 0 <= q < pick@.len() && pick@[q] implies order.contains(q) by {
            let c = choose|c: int| 0 <= c < chosen@.len() && (#[trigger] chosen@[c]).2 == q;
            assert(sorted@.contains(chosen@[c]));
            let b = choose|b: int| 0 <= b < sorted@.len() && sorted@[b] == chosen@[c];
            assert(order[b] == q);
        }
        assert forall|x: int, y: int| 0 <= x < y < order.len() implies key_lt(keys@[#[trigger] order[x]], keys@[#[trigger] order[y]]) by {
            assert(chosen@.contains(sorted@[x]));
            assert(chosen@.contains(sorted@[y]));
            assert(key_lt(sorted@[x], sorted@[y]));
        }
    }
    out
}

impl Db {
    /// The cycles in the dependency graph, each as a walk that ends where it
    /// starts. The graph is kept acyclic, so there are none.
    pub fn detect_cycles(&self) -> (r: Result<Vec<Vec<String>>, PensaError>)
        requires
            self.wf(),
        ensures
            r is Ok,
            r->Ok_0@.len() == 0,
    {
        let c = find_cycles(&self.deps);
        Ok(c)
    }

    /// The issues that `id` depends on.
    pub fn list_deps(&self, id: &str) -> (r: Result<Vec<Issue>, PensaError>)
        requires
            self.wf(),
        ensures
            !has_id(self.issues@, id@) ==> not_found(r, id@),
            has_id(self.issues@, id@) ==> r is Ok && parents_of(*self, id@, r->Ok_0@),
    {
        match self.find(id) {
            None => {
                return Err(PensaError::NotFound(id.to_owned()));
            },
            Some(k) => {
                proof {
                    lemma_pos_pub(self.issues@, k as int);
                }
            },
        }
        let mut out: Vec<Issue> = Vec::new();
        let ghost mut ks: Seq<int> = Seq::empty();
        let mut k: usize = 0;
        while k < self.deps.len()
            invariant
                self.wf(),
                k <= self.deps@.len(),
                ks.len() == out@.len(),
                forall|a: int, b: int| 0 <= a < b < ks.len() ==> #[trigger] ks[a] < #[trigger] ks[b],
                forall|a: int|
                    0 <= a < ks.len() ==> 0 <= #[trigger] ks[a] < k && self.deps@[ks[a]].issue_id@ == id@
                        && out@[a] == self.issues@[pos(self.issues@, self.deps@[ks[a]].depends_on_id@)],
                forall|q: int| 0 <= q < k && (#[trigger] self.deps@[q]).issue_id@ == id@ ==> ks.contains(q),
            decreases self.deps@.len() - k,
        {
            if str_eq(self.deps[k].issue_id.as_str(), id) {
                proof {
                    assert(crate::store::dep_ok(self.issues@, self.deps@[k as int]));
                }
                if let Some(p) = self.find(self.deps[k].depends_on_id.as_str()) {
                    proof {
                        lemma_pos_pub(self.issues@, p as int);
                    }
                    let ghost before = ks;
                    out.push(self.issues[p].copy());
                    proof {
                        ks = ks.push(k as int);
                        assert forall|q: int| 0 <= q < k + 1 && (#[trigger] self.deps@[q]).issue_id@ == id@ implies ks.contains(q) by {
                            if q < k {
                                let a = choose|a: int| 0 <= a < before.len() && before[a] == q;
                                assert(ks[a] == q);
                            } else {
                                assert(ks[before.len() as int] == q);
                            }
                        }
                    }
                }
            }
            k = k + 1;
        }
        Ok(out)
    }

    /// The comments on an issue, oldest first.
    pub fn list_comments(&self, id: &str) -> (r: Result<Vec<Comment>, PensaError>)
        requires
            self.wf(),
        ensures
            !has_id(self.issues@, id@) ==> not_found(r, id@),
            has_id(self.issues@, id@) ==> r is Ok && comments_of(*self, id@, r->Ok_0@),
    {
        match self.find(id) {
            None => {
                return Err(PensaError::NotFound(id.to_owned()));
            },
            Some(k) => {
                proof {
                    lemma_pos_pub(self.issues@, k as int);
                }
            },
        }
        let mut pick: Vec<bool> = Vec::new();
        let mut keys: Vec<SortKey> = Vec::new();
        let mut j: usize = 0;
        while j < self.comments.len()
            invariant
                j <= self.comments@.len(),
                pick@.len() == j,
                keys@.len() == j,
                forall|q: int| 0 <= q < j ==> #[trigger] pick@[q] == (self.comments@[q].issue_id@ == id@),
                forall|q: int| 0 <= q < j ==> #[trigger] keys@[q] == (0u64, self.comments@[q].created_at, q as usize),
            decreases self.comments@.len() - j,
        {
            pick.push(str_eq(self.comments[j].issue_id.as_str(), id));
            keys.push((0, self.comments[j].created_at, j));
            j = j + 1;
        }
        let order = order_positions(&pick, &keys);
        let mut out: Vec<Comment> = Vec::new();
        let mut a: usize = 0;
        let ghost ord = order@.map_values(|x: usize| x as int);
        while a < order.len()
            invariant
                a <= order@.len(),
                ord == order@.map_values(|x: usize| x as int),
                forall|b: int| 0 <= b < ord.len() ==> 0 <= #[trigger] ord[b] < self.comments@.len(),
                out@ == ord.take(a as int).map_values(|q: int| self.comments@[q]),
            decreases order@.len() - a,
        {
            assert(0 <= ord[a as int] < self.comments@.len());
            out.push(self.comments[order[a]].copy());
            proof {
                assert(out@ =~= ord.take(a + 1).map_values(|q: int| self.comments@[q]));
            }
            a = a + 1;
        }
        proof {
            assert(ord.take(ord.len() as int) =~= ord);
            let p1 = |q: int| pick@[q];
            let k1 = |q: int| keys@[q];
            let p2 = |q: int| self.comments@[q].issue_id@ == id@;
            let k2 = |q: int| (0u64, self.comments@[q].created_at, q as usize);
            assert(ordered_pick(self.comments@.len() as int, p2, k2, ord));
            assert(comment_order(*self, id@, ord));
        }
        Ok(out)
    }

    /// The events of an issue, newest first.
    pub fn issue_history(&self, id: &str) -> (r: Result<Vec<Event>, PensaError>)
        requires
            self.wf(),
        ensures
            !has_id(self.issues@, id@) ==> not_found(r, id@),
            has_id(self.issues@, id@) ==> r is Ok && history_of(*self, id@, r->Ok_0@),
    {
        match self.find(id) {
            None => {
                return Err(PensaError::NotFound(id.to_owned()));
            },
            Some(k) => {
                proof {
                    lemma_pos_pub(self.issues@, k as int);
                }
            },
        }
        let mut pick: Vec<bool> = Vec::new();
        let mut keys: Vec<SortKey> = Vec::new();
        let mut j: usize = 0;
        while j < self.events.len()
            invariant
                j <= self.events@.len(),
                pick@.len() == j,
                keys@.len() == j,
                forall|q: int| 0 <= q < j ==> #[trigger] pick@[q] == (self.events@[q].issue_id@ == id@),
                forall|q: int| 0 <= q < j ==> #[trigger] keys@[q] == (0u64, self.events@[q].created_at, q as usize),
            decreases self.events@.len() - j,
        {
            pick.push(str_eq(self.events[j].issue_id.as_str(), id));
            keys.push((0, self.events[j].created_at, j));
            j = j + 1;
        }
        let order = order_positions(&pick, &keys);
        let mut out: Vec<Event> = Vec::new();
        let ghost ord = order@.map_values(|x: usize| x as int);
        let mut a: usize = order.len();
        while a > 0
            invariant
                a <= order@.len(),
                ord == order@.map_values(|x: usize| x as int),
                forall|b: int| 0 <= b < ord.len() ==> 0 <= #[trigger] ord[b] < self.events@.len(),
                out@ == ord.subrange(a as int, ord.len() as int).reverse().map_values(|q: int| self.events@[q]),
            decreases a,
        {
            a = a - 1;
            assert(0 <= ord[a as int] < self.events@.len());
            out.push(self.events[order[a]].copy());
            proof {
                assert(out@ =~= ord.subrange(a as int, ord.len() as int).reverse().map_values(|q: int| self.events@[q]));
            }
        }
        proof {
            assert(ord.subrange(0, ord.len() as int) =~= ord);
            let p2 = |q: int| self.events@[q].issue_id@ == id@;
            let k2 = |q: int| (0u64, self.events@[q].created_at, q as usize);
            assert(ordered_pick(self.events@.len() as int, p2, k2, ord));
            assert(event_order(*self, id@, ord));
        }
        Ok(out)
    }

    /// An issue with its dependency parents and its comments.
    pub fn get_issue(&self, id: &str) -> (r: Result<IssueDetail, PensaError>)
        requires
            self.wf(),
        ensures
            !has_id(self.issues@, id@) ==> not_found(r, id@),
            has_id(self.issues@, id@) ==> {
                &&& r is Ok
                &&& r->Ok_0.issue == self.issues@[pos(self.issues@, id@)]
                &&& parents_of(*self, id@, r->Ok_0.deps@)
                &&& comments_of(*self, id@, r->Ok_0.comments@)
            },
    {
        let issue = match self.get_issue_only(id) {
            Ok(i) => i,
            Err(e) => {
                return Err(e);
            },
        };
        let deps = match self.list_deps(id) {
            Ok(d) => d,
            Err(e) => {
                return Err(e);
            },
        };
        let comments = match self.list_comments(id) {
            Ok(c) => c,
            Err(e) => {
                return Err(e);
            },
        };
        Ok(IssueDetail { issue, deps, comments })
    }

    /// Attaches a comment, under a given comment id, to an existing issue.
    pub fn add_comment_with_id(
        &mut self,
        id: &str,
        comment_id: String,
        actor: &str,
        text: &str,
        now: Timestamp,
    ) -> (r: Result<Comment, PensaError>)
        requires
            old(self).wf(),
        ensures
            final(self).wf(),
            !has_id(old(self).issues@, id@) ==> not_found(r, id@) && *final(self) == *old(self),
            has_id(old(self).issues@, id@) ==> {
                &&& r is Ok
                &&& r->Ok_0.id == comment_id
                &&& r->Ok_0.issue_id@ == id@
                &&& r->Ok_0.actor@ == actor@
                &&& r->Ok_0.text@ == text@
                &&& r->Ok_0.created_at == now
                &&& final(self).comments@ == old(self).comments@.push(r->Ok_0)
                &&& final(self).issues == old(self).issues
                &&& final(self).deps == old(self).deps
                &&& final(self).events == old(self).events
                &&& final(self).next_event_id == old(self).next_event_id
            },
    {
        match self.find(id) {
            None => {
                return Err(PensaError::NotFound(id.to_owned()));
            },
            Some(k) => {
                proof {
                    lemma_pos_pub(self.issues@, k as int);
                }
            },
        }
        let c = Comment {
            id: comment_id,
            issue_id: id.to_owned(),
            actor: actor.to_owned(),
            text: text.to_owned(),
            created_at: now,
        };
        let out = c.copy();
        let ghost before = self.comments@;
        self.comments.push(c);
        proof {
            assert forall|q: int| 0 <= q < self.comments@.len() implies has_id(self.issues@, (#[trigger] self.comments@[q]).issue_id@) by {
                if q < before.len() {
                    assert(self.comments@[q] == before[q]);
                }
            }
        }
        Ok(out)
    }
}

/// The edges a dependency tree follows: towards parents for `up`, towards
/// dependents otherwise.
pub open spec fn tree_edges(deps: Seq<Dep>, direction: Seq<char>) -> Seq<Dep> {
    if direction == "up"@ {
        deps
    } else {
        flipped(deps)
    }
}

/// `n` shows the issue `i` at depth `d`.
pub open spec fn shows(n: DepTreeNode, i: Issue, d: int) -> bool {
    &&& n.id == i.id
    &&& n.title == i.title
    &&& n.status == i.status
    &&& n.priority == i.priority
    &&& n.issue_type == i.issue_type
    &&& n.depth == d
}

proof fn lemma_reached_exists(db: Db, g: Seq<Dep>, from: Seq<char>, b: Seq<char>, up: bool)
    requires
        db.wf(),
        g == (if up { db.deps@ } else { flipped(db.deps@) }),
        reaches(g, from, b),
        b != from,
    ensures
        has_id(db.issues@, b),
{
    let p = choose|p: Seq<Seq<char>>| is_path(g, p) && p[0] == from && p.last() == b;
    let n = p.len() as int;
    assert(n >= 2);
    assert(has_edge(g, p[n - 2], p[n - 1]));
    let k = choose|k: int| 0 <= k < g.len() && is_edge(#[trigger] g[k], p[n - 2], p[n - 1]);
    assert(dep_ok(db.issues@, db.deps@[k]));
}

impl Db {
    /// The issues that `id` transitively depends on (`up`) or that depend on
    /// it (any other direction), each once at its shallowest depth, by depth.
    pub fn dep_tree(&self, id: &str, direction: &str) -> (r: Result<Vec<DepTreeNode>, PensaError>)
        requires
            self.wf(),
            self.deps@.len() < 0x7fff_ffff,
        ensures
            !has_id(self.issues@, id@) ==> not_found(r, id@),
            has_id(self.issues@, id@) ==> {
                let g = tree_edges(self.deps@, direction@);
                &&& r is Ok
                &&& forall|a: int, b: int| 0 <= a < b < r->Ok_0@.len() ==> (#[trigger] r->Ok_0@[a]).id@ != (#[trigger] r->Ok_0@[b]).id@
                    && r->Ok_0@[a].depth <= r->Ok_0@[b].depth
                &&& forall|x: Seq<char>| (exists|a: int| 0 <= a < r->Ok_0@.len() && (#[trigger] r->Ok_0@[a]).id@ == x) <==> (reaches(g, id@, x) && x != id@)
                &&& forall|a: int| 0 <= a < r->Ok_0@.len() ==> has_id(self.issues@, (#[trigger] r->Ok_0@[a]).id@) && shows(
                    r->Ok_0@[a],
                    self.issues@[pos(self.issues@, r->Ok_0@[a].id@)],
                    r->Ok_0@[a].depth as int,
                ) && r->Ok_0@[a].depth >= 1
                &&& forall|a: int| 0 <= a < r->Ok_0@.len() ==> walk(g, id@, (#[trigger] r->Ok_0@[a]).id@, r->Ok_0@[a].depth as int)
                &&& forall|a: int, p: Seq<Seq<char>>|
                    0 <= a < r->Ok_0@.len() && #[trigger] is_path(g, p) && p[0] == id@ && p.last() == (#[trigger] r->Ok_0@[a]).id@
                        ==> p.len() >= r->Ok_0@[a].depth + 1
            },
    {
        match self.find(id) {
            None => {
                return Err(PensaError::NotFound(id.to_owned()));
            },
            Some(k) => {
                proof {
                    lemma_pos_pub(self.issues@, k as int);
                }
            },
        }
        let up = str_eq(direction, "up");
        let g = if up { copy_deps(&self.deps) } else { flip(&self.deps) };
        let (ids, levels) = levels_from(&g, id);
        let mut out: Vec<DepTreeNode> = Vec::new();
        let mut a: usize = 0;
        while a < ids.len()
            invariant
                self.wf(),
                a <= ids@.len(),
                ids@.len() == levels@.len(),
                g@ == (if up { self.deps@ } else { flipped(self.deps@) }),
                str_views(ids@).no_duplicates(),
                forall|b: Seq<char>| str_views(ids@).contains(b) <==> (reaches(g@, id@, b) && b != id@),
                forall|q: int| 0 <= q < levels@.len() ==> 1 <= #[trigger] levels@[q] < 0x7fff_ffff,
                forall|q: int| 0 <= q < levels@.len() ==> walk(g@, id@, (#[trigger] ids@[q])@, levels@[q] as int),
                forall|q: int, p: Seq<Seq<char>>|
                    0 <= q < levels@.len() && #[trigger] is_path(g@, p) && p[0] == id@ && p.last() == (#[trigger] ids@[q])@
                        ==> p.len() >= levels@[q] + 1,
                out@.len() == a,
                forall|q: int| 0 <= q < a ==> (#[trigger] out@[q]).id@ == ids@[q]@ && out@[q].depth == levels@[q]
                    && has_id(self.issues@, out@[q].id@)
                    && shows(out@[q], self.issues@[pos(self.issues@, out@[q].id@)], out@[q].depth as int),
            decreases ids@.len() - a,
        {
            proof {
                assert(str_views(ids@)[a as int] == ids@[a as int]@);
                assert(str_views(ids@).contains(ids@[a as int]@));
                lemma_reached_exists(*self, g@, id@, ids@[a as int]@, up);
            }
            match self.find(ids[a].as_str()) {
                Some(p) => {
                    proof {
                        lemma_pos_pub(self.issues@, p as int);
                    }
                    let i = &self.issues[p];
                    out.push(DepTreeNode {
                        id: i.id.clone(),
                        title: i.title.clone(),
                        status: i.status,
                        priority: i.priority,
                        issue_type: i.issue_type,
                        depth: levels[a] as i32,
                    });
                },
                None => {
                    proof {
                        assert(false);
                    }
                    return Ok(out);
                },
            }
            a = a + 1;
        }
        proof {
            let sv = str_views(ids@);
            assert forall|x: int, y: int| 0 <= x < y < out@.len() implies (#[trigger] out@[x]).id@ != (#[trigger] out@[y]).id@
                && out@[x].depth <= out@[y].depth by {
                assert(sv[x] == ids@[x]@ && sv[y] == ids@[y]@);
            }
            assert forall|x: Seq<char>| (exists|q: int| 0 <= q < out@.len() && (#[trigger] out@[q]).id@ == x) <==> (reaches(g@, id@, x) && x != id@) by {
                if exists|q: int| 0 <= q < out@.len() && (#[trigger] out@[q]).id@ == x {
                    let q = choose|q: int| 0 <= q < out@.len() && (#[trigger] out@[q]).id@ == x;
                    assert(sv[q] == x);
                    assert(sv.contains(x));
                }
                if reaches(g@, id@, x) && x != id@ {
                    assert(sv.contains(x));
                    let q = choose|q: int| 0 <= q < sv.len() && sv[q] == x;
                    assert(out@[q].id@ == x);
                }
            }
        }
        Ok(out)
    }
}

fn copy_deps(deps: &Vec<Dep>) -> (r: Vec<Dep>)
    ensures
        r@ == deps@,
{
    let mut out: Vec<Dep> = Vec::new();
    let mut k: usize = 0;
    while k < deps.len()
        invariant
            k <= deps@.len(),
            out@ == deps@.take(k as int),
        decreases deps@.len() - k,
    {
        out.push(deps[k].copy());
        proof {
            assert(out@ =~= deps@.take(k + 1));
        }
        k = k + 1;
    }
    proof {
        assert(deps@.take(deps@.len() as int) =~= deps@);
    }
    out
}

proof fn lemma_pick_step(
    n: int,
    pick: spec_fn(int) -> bool,
    key: spec_fn(int) -> SortKey,
    o1: Seq<int>,
    o2: Seq<int>,
    a: int,
)
    requires
        ordered_pick(n, pick, key, o1),
        ordered_pick(n, pick, key, o2),
        forall|x: int, y: int| 0 <= x < n && 0 <= y < n && x != y ==> #[trigger] key(x) != #[trigger] key(y),
        0 <= a < o1.len(),
        0 <= a < o2.len(),
        forall|c: int| 0 <= c < a ==> o1[c] == o2[c],
    ensures
        o1[a] == o2[a],
{
    if o1[a] != o2[a] {
        let (x, y) = (o1[a], o2[a]);
        assert(key(x) != key(y));
        if key_lt(key(x), key(y)) {
            assert(o2.contains(x));
            let c = choose|c: int| 0 <= c < o2.len() && o2[c] == x;
            if c < a {
                assert(o1[c] == x);
                assert(key_lt(key(o1[c]), key(o1[a])));
            } else if c > a {
                assert(key_lt(key(o2[a]), key(o2[c])));
            }
        } else {
            assert(key_lt(key(y), key(x)));
            assert(o1.contains(y));
            let c = choose|c: int| 0 <= c < o1.len() && o1[c] == y;
            if c < a {
                assert(o2[c] == y);
                assert(key_lt(key(o2[c]), key(o2[a])));
            } else if c > a {
                assert(key_lt(key(o1[a]), key(o1[c])));
            }
        }
    }
}

proof fn lemma_pick_prefix(
    n: int,
    pick: spec_fn(int) -> bool,
    key: spec_fn(int) -> SortKey,
    o1: Seq<int>,
    o2: Seq<int>,
    a: int,
)
    requires
        ordered_pick(n, pick, key, o1),
        ordered_pick(n, pick, key, o2),
        forall|x: int, y: int| 0 <= x < n && 0 <= y < n && x != y ==> #[trigger] key(x) != #[trigger] key(y),
        0 <= a <= o1.len(),
        a <= o2.len(),
    ensures
        forall|c: int| 0 <= c < a ==> o1[c] == o2[c],
    decreases a,
{
    if a > 0 {
        lemma_pick_prefix(n, pick, key, o1, o2, a - 1);
        lemma_pick_step(n, pick, key, o1, o2, a - 1);
    }
}

/// An ordered selection is unique: two orders that list the same selected
/// positions in ascending order of distinct keys are the same.
pub proof fn lemma_pick_unique(
    n: int,
    pick: spec_fn(int) -> bool,
    key: spec_fn(int) -> SortKey,
    o1: Seq<int>,
    o2: Seq<int>,
)
    requires
        ordered_pick(n, pick, key, o1),
        ordered_pick(n, pick, key, o2),
        forall|x: int, y: int| 0 <= x < n && 0 <= y < n && x != y ==> #[trigger] key(x) != #[trigger] key(y),
    ensures
        o1 == o2,
{
    let m = if o1.len() < o2.len() { o1.len() as int } else { o2.len() as int };
    lemma_pick_prefix(n, pick, key, o1, o2, m);
    if o1.len() > o2.len() {
        let x = o1[m];
        assert(o2.contains(x));
        let c = choose|c: int| 0 <= c < o2.len() && o2[c] == x;
        assert(o1[c] == x);
        assert(key_lt(key(o1[c]), key(o1[m])));
    } else if o2.len() > o1.len() {
        let x = o2[m];
        assert(o1.contains(x));
        let c = choose|c: int| 0 <= c < o1.len() && o1[c] == x;
        assert(o2[c] == x);
        assert(key_lt(key(o2[c]), key(o2[m])));
    }
    assert(o1 =~= o2);
}

/// The comments of an issue, in listing order, are determined by the state.
pub proof fn lemma_comments_unique(db: Db, id: Seq<char>, r1: Seq<Comment>, r2: Seq<Comment>)
    requires
        db.comments@.len() <= usize::MAX,
        comments_of(db, id, r1),
        comments_of(db, id, r2),
    ensures
        r1 == r2,
{
    let o1 = choose|order: Seq<int>| #[trigger] comment_order(db, id, order) && r1 == order.map_values(|j: int| db.comments@[j]);
    let o2 = choose|order: Seq<int>| #[trigger] comment_order(db, id, order) && r2 == order.map_values(|j: int| db.comments@[j]);
    let n = db.comments@.len() as int;
    let key = |j: int| (0u64, db.comments@[j].created_at, j as usize);
    assert forall|x: int, y: int| 0 <= x < n && 0 <= y < n && x != y implies #[trigger] key(x) != #[trigger] key(y) by {
        assert((x as usize) as int == x && (y as usize) as int == y);
    }
    lemma_pick_unique(n, |j: int| db.comments@[j].issue_id@ == id, key, o1, o2);
}

} // verus!
