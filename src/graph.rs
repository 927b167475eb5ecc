use vstd::prelude::*;
use vstd::seq_lib::seq_to_set_is_finite;

use crate::records::Dep;
use crate::store::has_edge;
use crate::types::str_eq;

verus! {

/// A walk along dependency edges, from a child towards its parents.
pub open spec fn is_path(deps: Seq<Dep>, p: Seq<Seq<char>>) -> bool {
    &&& p.len() >= 1
    &&& forall|i: int| 0 <= i < p.len() - 1 ==> has_edge(deps, #[trigger] p[i], p[i + 1])
}

/// `b` is `a` or one of its transitive dependency parents.
pub open spec fn reaches(deps: Seq<Dep>, a: Seq<char>, b: Seq<char>) -> bool {
    exists|p: Seq<Seq<char>>| is_path(deps, p) && p[0] == a && p.last() == b
}

/// No edge closes a cycle: no parent reaches back to its child.
pub open spec fn acyclic(deps: Seq<Dep>) -> bool {
    forall|k: int|
        0 <= k < deps.len() ==> !reaches(deps, (#[trigger] deps[k]).depends_on_id@, deps[k].issue_id@)
}

pub open spec fn str_views(v: Seq<String>) -> Seq<Seq<char>> {
    v.map_values(|s: String| s@)
}

pub proof fn lemma_path_extend(deps: Seq<Dep>, p: Seq<Seq<char>>, y: Seq<char>)
    requires
        is_path(deps, p),
        has_edge(deps, p.last(), y),
    ensures
        is_path(deps, p.push(y)),
        p.push(y)[0] == p[0],
        p.push(y).last() == y,
{
    let q = p.push(y);
    assert forall|i: int| 0 <= i < q.len() - 1 implies has_edge(deps, #[trigger] q[i], q[i + 1]) by {
        if i < p.len() - 1 {
            assert(q[i] == p[i] && q[i + 1] == p[i + 1]);
        }
    }
}

pub proof fn lemma_reaches_self(deps: Seq<Dep>, a: Seq<char>)
    ensures
        reaches(deps, a, a),
{
    let p = seq![a];
    assert(is_path(deps, p));
    assert(p[0] == a && p.last() == a);
}

proof fn lemma_closed_set(deps: Seq<Dep>, vis: Seq<Seq<char>>, p: Seq<Seq<char>>)
    requires
        is_path(deps, p),
        vis.contains(p[0]),
        forall|x: Seq<char>, y: Seq<char>|
            #![trigger vis.contains(x), has_edge(deps, x, y)]
            vis.contains(x) && has_edge(deps, x, y) ==> vis.contains(y),
    ensures
        vis.contains(p.last()),
    decreases p.len(),
{
    if p.len() > 1 {
        let q = p.drop_last();
        assert forall|i: int| 0 <= i < q.len() - 1 implies has_edge(deps, #[trigger] q[i], q[i + 1]) by {
            assert(q[i] == p[i] && q[i + 1] == p[i + 1]);
        }
        lemma_closed_set(deps, vis, q);
        assert(has_edge(deps, p[p.len() - 2], p[p.len() - 1]));
    }
}

proof fn lemma_visit_bound(deps: Seq<Dep>, from: Seq<char>, vis: Seq<Seq<char>>)
    requires
        vis.no_duplicates(),
        forall|j: int|
            0 <= j < vis.len() ==> #[trigger] vis[j] == from || exists|k: int|
                0 <= k < deps.len() && (#[trigger] deps[k]).depends_on_id@ == vis[j],
    ensures
        vis.len() <= deps.len() + 1,
{
    let d = deps.map_values(|x: Dep| x.depends_on_id@);
    let u = d.to_set().insert(from);
    broadcast use seq_to_set_is_finite;
    assert(vis.to_set().subset_of(u)) by {
        assert forall|y: Seq<char>| vis.to_set().contains(y) implies u.contains(y) by {
            let j = choose|j: int| 0 <= j < vis.len() && vis[j] == y;
            if y != from {
                let k = choose|k: int| 0 <= k < deps.len() && (#[trigger] deps[k]).depends_on_id@ == vis[j];
                assert(d[k] == y);
            }
        }
    }
    d.lemma_cardinality_of_set();
    vis.unique_seq_to_set();
    vstd::set_lib::lemma_len_subset(vis.to_set(), u);
}

fn contains_str(v: &Vec<String>, s: &str) -> (r: bool)
    ensures
        r == str_views(v@).contains(s@),
{
    let mut i: usize = 0;
    while i < v.len()
        invariant
            i <= v@.len(),
            forall|j: int| 0 <= j < i ==> v@[j]@ != s@,
        decreases v@.len() - i,
    {
        if str_eq(v[i].as_str(), s) {
            proof {
                assert(str_views(v@)[i as int] == s@);
            }
            return true;
        }
        i = i + 1;
    }
    proof {
        if str_views(v@).contains(s@) {
            let j = choose|j: int| 0 <= j < str_views(v@).len() && str_views(v@)[j] == s@;
            assert(v@[j]@ == s@);
        }
    }
    false
}

/// How each visited id was first reached: the position of the id it was
/// reached from, through one edge.
pub open spec fn preds_ok(deps: Seq<Dep>, vis: Seq<Seq<char>>, pred: Seq<usize>) -> bool {
    &&& pred.len() == vis.len()
    &&& forall|j: int|
        1 <= j < vis.len() ==> (#[trigger] pred[j]) < j && has_edge(deps, vis[pred[j] as int], vis[j])
    &&& forall|a: int, b: int| 1 <= a < b < vis.len() ==> #[trigger] pred[a] <= #[trigger] pred[b]
}

/// `w` was visited no later than while the node at `x` was expanded.
pub open spec fn found_early(vis: Seq<Seq<char>>, pred: Seq<usize>, w: Seq<char>, x: int) -> bool {
    exists|y: int| 0 <= y < vis.len() && #[trigger] vis[y] == w && pred[y] <= x
}

proof fn lemma_found_early_push(
    vis: Seq<Seq<char>>,
    pred: Seq<usize>,
    v: Seq<char>,
    p: usize,
    w: Seq<char>,
    x: int,
)
    requires
        found_early(vis, pred, w, x),
        vis.len() == pred.len(),
    ensures
        found_early(vis.push(v), pred.push(p), w, x),
{
    let y = choose|y: int| 0 <= y < vis.len() && #[trigger] vis[y] == w && pred[y] <= x;
    assert(vis.push(v)[y] == vis[y]);
    assert(pred.push(p)[y] == pred[y]);
}

/// Every id that `from` reaches through the edges, `from` first, each once,
/// with the position each was reached from.
pub fn reachable_from(deps: &Vec<Dep>, from: &str) -> (r: (Vec<String>, Vec<usize>))
    ensures
        str_views(r.0@).len() >= 1,
        str_views(r.0@)[0] == from@,
        str_views(r.0@).no_duplicates(),
        forall|b: Seq<char>| str_views(r.0@).contains(b) <==> reaches(deps@, from@, b),
        preds_ok(deps@, str_views(r.0@), r.1@),
        r.0@.len() <= deps@.len() + 1,
        r.1@[0] == 0,
        forall|x: int, k: int|
            0 <= x < r.0@.len() && 0 <= k < deps@.len() && (#[trigger] deps@[k]).issue_id@ == #[trigger] str_views(
                r.0@,
            )[x] ==> found_early(str_views(r.0@), r.1@, deps@[k].depends_on_id@, x),
{
    let mut visited: Vec<String> = Vec::new();
    let mut pred: Vec<usize> = Vec::new();
    visited.push(from.to_owned());
    pred.push(0);
    let mut i: usize = 0;
    proof {
        lemma_reaches_self(deps@, from@);
        assert(str_views(visited@) =~= seq![from@]);
    }
    while i < visited.len()
        invariant
            1 <= visited@.len(),
            i <= visited@.len(),
            visited@.len() <= deps@.len() + 1,
            str_views(visited@)[0] == from@,
            pred@[0] == 0,
            str_views(visited@).no_duplicates(),
            preds_ok(deps@, str_views(visited@), pred@),
            forall|a: int| 1 <= a < pred@.len() ==> #[trigger] pred@[a] < i,
            forall|j: int|
                0 <= j < visited@.len() ==> reaches(deps@, from@, #[trigger] str_views(visited@)[j]),
            forall|j: int|
                0 <= j < visited@.len() ==> #[trigger] str_views(visited@)[j] == from@ || exists|k: int|
                    0 <= k < deps@.len() && (#[trigger] deps@[k]).depends_on_id@ == str_views(visited@)[j],
            forall|j: int, k: int|
                0 <= j < i && 0 <= k < deps@.len() && (#[trigger] deps@[k]).issue_id@ == #[trigger] str_views(visited@)[j]
                    ==> str_views(visited@).contains(deps@[k].depends_on_id@),
            forall|j: int, k: int|
                0 <= j < i && 0 <= k < deps@.len() && (#[trigger] deps@[k]).issue_id@ == #[trigger] str_views(visited@)[j]
                    ==> found_early(str_views(visited@), pred@, deps@[k].depends_on_id@, j),
        decreases deps@.len() + 1 - i,
    {
        let cur = visited[i].clone();
        let mut k: usize = 0;
        while k < deps.len()
            invariant
                1 <= visited@.len(),
                i < visited@.len(),
                k <= deps@.len(),
                cur@ == str_views(visited@)[i as int],
                visited@.len() <= deps@.len() + 1,
                str_views(visited@)[0] == from@,
                pred@[0] == 0,
                str_views(visited@).no_duplicates(),
                preds_ok(deps@, str_views(visited@), pred@),
                forall|a: int| 1 <= a < pred@.len() ==> #[trigger] pred@[a] <= i,
                forall|j: int|
                    0 <= j < visited@.len() ==> reaches(deps@, from@, #[trigger] str_views(visited@)[j]),
                forall|j: int|
                    0 <= j < visited@.len() ==> #[trigger] str_views(visited@)[j] == from@ || exists|m: int|
                        0 <= m < deps@.len() && (#[trigger] deps@[m]).depends_on_id@ == str_views(visited@)[j],
                forall|j: int, m: int|
                    0 <= j < i && 0 <= m < deps@.len() && (#[trigger] deps@[m]).issue_id@ == #[trigger] str_views(visited@)[j]
                        ==> str_views(visited@).contains(deps@[m].depends_on_id@),
                forall|m: int|
                    0 <= m < k && (#[trigger] deps@[m]).issue_id@ == cur@
                        ==> str_views(visited@).contains(deps@[m].depends_on_id@),
                forall|j: int, m: int|
                    0 <= j < i && 0 <= m < deps@.len() && (#[trigger] deps@[m]).issue_id@ == #[trigger] str_views(visited@)[j]
                        ==> found_early(str_views(visited@), pred@, deps@[m].depends_on_id@, j),
                forall|m: int|
                    0 <= m < k && (#[trigger] deps@[m]).issue_id@ == cur@
                        ==> found_early(str_views(visited@), pred@, deps@[m].depends_on_id@, i as int),
            decreases deps@.len() - k,
        {
            if str_eq(deps[k].issue_id.as_str(), cur.as_str()) {
                let parent = deps[k].depends_on_id.as_str();
                if contains_str(&visited, parent) {
                    proof {
                        let v = str_views(visited@);
                        let y = choose|y: int| 0 <= y < v.len() && v[y] == parent@;
                        if y > 0 {
                            assert(pred@[y] <= i);
                        } else {
                            assert(pred@[0] == 0);
                        }
                        assert(found_early(v, pred@, parent@, i as int));
                    }
                } else {
                    let ghost before = str_views(visited@);
                    let ghost old_pred = pred@;
                    proof {
                        let p = choose|p: Seq<Seq<char>>| is_path(deps@, p) && p[0] == from@ && p.last() == cur@;
                        assert(has_edge(deps@, cur@, parent@)) by {
                            assert(crate::store::is_edge(deps@[k as int], cur@, parent@));
                        }
                        lemma_path_extend(deps@, p, parent@);
                    }
                    visited.push(parent.to_owned());
                    pred.push(i);
                    proof {
                        let now = str_views(visited@);
                        assert forall|j: int|
                            1 <= j < now.len() implies (#[trigger] pred@[j]) < j && has_edge(deps@, now[pred@[j] as int], now[j]) by {
                            if j < before.len() {
                                assert(now[j] == before[j]);
                                assert(now[pred@[j] as int] == before[pred@[j] as int]);
                            } else {
                                assert(now[i as int] == before[i as int]);
                            }
                        }
                        assert forall|x: int, y: int| 1 <= x < y < now.len() implies #[trigger] pred@[x] <= #[trigger] pred@[y] by {
                            if y == now.len() - 1 {
                                assert(pred@[y] == i);
                            }
                        }
                        assert(now =~= before.push(parent@));
                        assert(pred@ =~= old_pred.push(i));
                        assert forall|w: Seq<char>, x: int| #[trigger] found_early(before, old_pred, w, x) implies found_early(now, pred@, w, x) by {
                            lemma_found_early_push(before, old_pred, parent@, i, w, x);
                        }
                        assert(now[before.len() as int] == parent@ && pred@[before.len() as int] == i);
                        assert(found_early(now, pred@, parent@, i as int));
                        assert forall|a: int, b: int| 0 <= a < now.len() && 0 <= b < now.len() && a != b implies now[a] != now[b] by {
                            if a < before.len() && b < before.len() {
                            } else if a < before.len() {
                                assert(before.contains(now[a]));
                            } else if b < before.len() {
                                assert(before.contains(now[b]));
                            }
                        }
                        assert forall|j: int|
                            0 <= j < now.len() implies #[trigger] now[j] == from@ || exists|m: int|
                                0 <= m < deps@.len() && (#[trigger] deps@[m]).depends_on_id@ == now[j] by {
                            if j < before.len() {
                                assert(now[j] == before[j]);
                            } else {
                                assert(deps@[k as int].depends_on_id@ == now[j]);
                            }
                        }
                        lemma_visit_bound(deps@, from@, now);
                        assert forall|y: Seq<char>| before.contains(y) implies now.contains(y) by {
                            let j = choose|j: int| 0 <= j < before.len() && before[j] == y;
                            assert(now[j] == y);
                        }
                        assert(now[before.len() as int] == parent@);
                    }
                }
            }
            k = k + 1;
        }
        i = i + 1;
    }
    proof {
        let vis = str_views(visited@);
        assert forall|b: Seq<char>| reaches(deps@, from@, b) implies vis.contains(b) by {
            let p = choose|p: Seq<Seq<char>>| is_path(deps@, p) && p[0] == from@ && p.last() == b;
            assert(vis[0] == from@);
            assert forall|x: Seq<char>, y: Seq<char>|
                #![trigger vis.contains(x), has_edge(deps@, x, y)]
                vis.contains(x) && has_edge(deps@, x, y) implies vis.contains(y) by {
                let j = choose|j: int| 0 <= j < vis.len() && vis[j] == x;
                let m = choose|m: int| 0 <= m < deps@.len() && crate::store::is_edge(#[trigger] deps@[m], x, y);
                assert(deps@[m].issue_id@ == vis[j]);
            }
            lemma_closed_set(deps@, vis, p);
        }
        assert forall|b: Seq<char>| vis.contains(b) implies reaches(deps@, from@, b) by {
            let j = choose|j: int| 0 <= j < vis.len() && vis[j] == b;
        }
    }
    (visited, pred)
}

/// Whether `from` reaches `to` through the edges.
pub fn reaches_exec(deps: &Vec<Dep>, from: &str, to: &str) -> (r: bool)
    ensures
        r == reaches(deps@, from@, to@),
{
    let (all, _) = reachable_from(deps, from);
    contains_str(&all, to)
}

pub proof fn lemma_reaches_trans(deps: Seq<Dep>, a: Seq<char>, b: Seq<char>, c: Seq<char>)
    requires
        reaches(deps, a, b),
        reaches(deps, b, c),
    ensures
        reaches(deps, a, c),
{
    let p2 = choose|p: Seq<Seq<char>>| is_path(deps, p) && p[0] == b && p.last() == c;
    lemma_reaches_along(deps, a, p2);
}

proof fn lemma_reaches_along(deps: Seq<Dep>, a: Seq<char>, p: Seq<Seq<char>>)
    requires
        is_path(deps, p),
        reaches(deps, a, p[0]),
    ensures
        reaches(deps, a, p.last()),
    decreases p.len(),
{
    if p.len() > 1 {
        let q = p.drop_last();
        assert forall|i: int| 0 <= i < q.len() - 1 implies has_edge(deps, #[trigger] q[i], q[i + 1]) by {
            assert(q[i] == p[i] && q[i + 1] == p[i + 1]);
        }
        lemma_reaches_along(deps, a, q);
        let w = choose|w: Seq<Seq<char>>| is_path(deps, w) && w[0] == a && w.last() == q.last();
        assert(has_edge(deps, p[p.len() - 2], p[p.len() - 1]));
        lemma_path_extend(deps, w, p.last());
    }
}

/// Every edge of `small` is an edge of `big`.
pub open spec fn edges_within(small: Seq<Dep>, big: Seq<Dep>) -> bool {
    forall|x: Seq<char>, y: Seq<char>| has_edge(small, x, y) ==> has_edge(big, x, y)
}

pub proof fn lemma_sub_reaches(small: Seq<Dep>, big: Seq<Dep>, a: Seq<char>, b: Seq<char>)
    requires
        edges_within(small, big),
        reaches(small, a, b),
    ensures
        reaches(big, a, b),
{
    let p = choose|p: Seq<Seq<char>>| is_path(small, p) && p[0] == a && p.last() == b;
    assert forall|i: int| 0 <= i < p.len() - 1 implies has_edge(big, #[trigger] p[i], p[i + 1]) by {
        assert(has_edge(small, p[i], p[i + 1]));
    }
    assert(is_path(big, p));
}

/// Removing edges keeps the graph acyclic.
pub proof fn lemma_sub_acyclic(small: Seq<Dep>, big: Seq<Dep>)
    requires
        edges_within(small, big),
        acyclic(big),
    ensures
        acyclic(small),
{
    assert forall|k: int| 0 <= k < small.len() implies !reaches(
        small,
        (#[trigger] small[k]).depends_on_id@,
        small[k].issue_id@,
    ) by {
        let c = small[k].issue_id@;
        let p = small[k].depends_on_id@;
        assert(crate::store::is_edge(small[k], c, p));
        assert(has_edge(small, c, p));
        assert(has_edge(big, c, p));
        let m = choose|m: int| 0 <= m < big.len() && crate::store::is_edge(#[trigger] big[m], c, p);
        assert(!reaches(big, big[m].depends_on_id@, big[m].issue_id@));
        if reaches(small, p, c) {
            lemma_sub_reaches(small, big, p, c);
        }
    }
}

proof fn lemma_new_edge_paths(old: Seq<Dep>, e: Dep, p: Seq<Seq<char>>)
    requires
        is_path(old.push(e), p),
    ensures
        reaches(old, p[0], p.last()) || (reaches(old, p[0], e.issue_id@) && reaches(
            old,
            e.depends_on_id@,
            p.last(),
        )),
    decreases p.len(),
{
    let new = old.push(e);
    if p.len() == 1 {
        lemma_reaches_self(old, p[0]);
    } else {
        let q = p.drop_last();
        assert forall|i: int| 0 <= i < q.len() - 1 implies has_edge(new, #[trigger] q[i], q[i + 1]) by {
            assert(q[i] == p[i] && q[i + 1] == p[i + 1]);
        }
        lemma_new_edge_paths(old, e, q);
        let x = q.last();
        let y = p.last();
        assert(has_edge(new, p[p.len() - 2], p[p.len() - 1]));
        let m = choose|m: int| 0 <= m < new.len() && crate::store::is_edge(#[trigger] new[m], x, y);
        if m < old.len() {
            assert(crate::store::is_edge(old[m], x, y));
            assert(has_edge(old, x, y));
            let one = seq![x, y];
            assert(is_path(old, one));
            assert(one[0] == x && one.last() == y);
            if reaches(old, p[0], x) {
                lemma_reaches_trans(old, p[0], x, y);
            } else {
                lemma_reaches_trans(old, e.depends_on_id@, x, y);
            }
        } else {
            lemma_reaches_self(old, e.depends_on_id@);
        }
    }
}

/// Adding an edge from `child` to `parent` where `parent` does not reach
/// `child` keeps the graph acyclic.
pub proof fn lemma_add_edge_acyclic(old: Seq<Dep>, e: Dep)
    requires
        acyclic(old),
        !reaches(old, e.depends_on_id@, e.issue_id@),
    ensures
        acyclic(old.push(e)),
{
    let new = old.push(e);
    assert forall|k: int| 0 <= k < new.len() implies !reaches(
        new,
        (#[trigger] new[k]).depends_on_id@,
        new[k].issue_id@,
    ) by {
        let c = new[k].issue_id@;
        let p = new[k].depends_on_id@;
        if reaches(new, p, c) {
            let w = choose|w: Seq<Seq<char>>| is_path(new, w) && w[0] == p && w.last() == c;
            lemma_new_edge_paths(old, e, w);
            if k < old.len() {
                assert(old[k] == new[k]);
                if !reaches(old, p, c) {
                    // p reaches the new child, and the new parent reaches c,
                    // so through the old edge c -> p the new parent reaches the new child
                    assert(crate::store::is_edge(old[k], c, p));
                    let one = seq![c, p];
                    assert(is_path(old, one));
                    assert(one[0] == c && one.last() == p);
                    lemma_reaches_trans(old, e.depends_on_id@, c, p);
                    lemma_reaches_trans(old, e.depends_on_id@, p, e.issue_id@);
                }
            } else {
                assert(new[k] == e);
            }
        }
    }
}

/// A cycle: a walk of at least one edge that ends where it starts.
pub open spec fn is_cycle(deps: Seq<Dep>, c: Seq<Seq<char>>) -> bool {
    is_path(deps, c) && c.len() >= 2 && c[0] == c.last()
}

fn index_str(v: &Vec<String>, s: &str) -> (r: Option<usize>)
    ensures
        match r {
            Some(t) => t < v@.len() && v@[t as int]@ == s@,
            None => !str_views(v@).contains(s@),
        },
{
    let mut i: usize = 0;
    while i < v.len()
        invariant
            i <= v@.len(),
            forall|j: int| 0 <= j < i ==> v@[j]@ != s@,
        decreases v@.len() - i,
    {
        if str_eq(v[i].as_str(), s) {
            return Some(i);
        }
        i = i + 1;
    }
    proof {
        if str_views(v@).contains(s@) {
            let j = choose|j: int| 0 <= j < str_views(v@).len() && str_views(v@)[j] == s@;
            assert(v@[j]@ == s@);
        }
    }
    None
}

/// The walk from the first visited id to the one at `t`, along the recorded
/// predecessors.
fn trace(deps: &Vec<Dep>, visited: &Vec<String>, pred: &Vec<usize>, t: usize) -> (r: Vec<String>)
    requires
        preds_ok(deps@, str_views(visited@), pred@),
        t < visited@.len(),
    ensures
        is_path(deps@, str_views(r@)),
        str_views(r@)[0] == str_views(visited@)[0],
        str_views(r@).last() == str_views(visited@)[t as int],
{
    let mut path: Vec<String> = Vec::new();
    path.push(visited[t].clone());
    let mut cur: usize = t;
    proof {
        assert(str_views(path@) =~= seq![str_views(visited@)[t as int]]);
    }
    while cur > 0
        invariant
            preds_ok(deps@, str_views(visited@), pred@),
            cur < visited@.len(),
            is_path(deps@, str_views(path@)),
            str_views(path@)[0] == str_views(visited@)[cur as int],
            str_views(path@).last() == str_views(visited@)[t as int],
        decreases cur,
    {
        let ghost before = str_views(path@);
        let prev = pred[cur];
        proof {
            assert(has_edge(deps@, str_views(visited@)[prev as int], str_views(visited@)[cur as int]));
        }
        path.insert(0, visited[prev].clone());
        proof {
            let now = str_views(path@);
            assert(now =~= seq![str_views(visited@)[prev as int]] + before);
            assert forall|i: int| 0 <= i < now.len() - 1 implies has_edge(deps@, #[trigger] now[i], now[i + 1]) by {
                if i > 0 {
                    assert(now[i] == before[i - 1] && now[i + 1] == before[i]);
                }
            }
        }
        cur = prev;
    }
    path
}

pub open spec fn cycle_views(r: Seq<Vec<String>>) -> Seq<Seq<Seq<char>>> {
    r.map_values(|c: Vec<String>| str_views(c@))
}

/// The cycles in the graph, one for each edge that lies on one: the edge's
/// child, then a walk from its parent back to the child.
pub fn find_cycles(deps: &Vec<Dep>) -> (r: Vec<Vec<String>>)
    ensures
        forall|i: int| 0 <= i < r@.len() ==> is_cycle(deps@, #[trigger] cycle_views(r@)[i]),
        r@.len() == 0 <==> acyclic(deps@),
{
    let mut out: Vec<Vec<String>> = Vec::new();
    let mut k: usize = 0;
    while k < deps.len()
        invariant
            k <= deps@.len(),
            forall|i: int| 0 <= i < out@.len() ==> is_cycle(deps@, #[trigger] cycle_views(out@)[i]),
            out@.len() == 0 <==> forall|m: int|
                0 <= m < k ==> !reaches(deps@, (#[trigger] deps@[m]).depends_on_id@, deps@[m].issue_id@),
        decreases deps@.len() - k,
    {
        let child = deps[k].issue_id.as_str();
        let parent = deps[k].depends_on_id.as_str();
        let (visited, pred) = reachable_from(deps, parent);
        match index_str(&visited, child) {
            Some(t) => {
                let mut cycle = trace(deps, &visited, &pred, t);
                let ghost before = str_views(cycle@);
                proof {
                    assert(str_views(visited@)[t as int] == child@);
                    assert(has_edge(deps@, child@, parent@)) by {
                        assert(crate::store::is_edge(deps@[k as int], child@, parent@));
                    }
                }
                cycle.insert(0, child.to_owned());
                proof {
                    let now = str_views(cycle@);
                    assert(now =~= seq![child@] + before);
                    assert forall|i: int| 0 <= i < now.len() - 1 implies has_edge(deps@, #[trigger] now[i], now[i + 1]) by {
                        if i > 0 {
                            assert(now[i] == before[i - 1] && now[i + 1] == before[i]);
                        }
                    }
                    assert(reaches(deps@, parent@, child@)) by {
                        assert(str_views(visited@).contains(child@)) by {
                            assert(str_views(visited@)[t as int] == child@);
                        }
                    }
                }
                let ghost old_out = cycle_views(out@);
                out.push(cycle);
                proof {
                    assert(cycle_views(out@) =~= old_out.push(str_views(cycle@)));
                }
            },
            None => {},
        }
        k = k + 1;
    }
    out
}

proof fn lemma_fresh_paths(old: Seq<Dep>, new: Seq<Dep>, id: Seq<char>, p: Seq<Seq<char>>)
    requires
        old.len() <= new.len(),
        new.subrange(0, old.len() as int) == old,
        forall|k: int| old.len() <= k < new.len() ==> (#[trigger] new[k]).issue_id@ == id,
        forall|k: int|
            0 <= k < new.len() ==> (#[trigger] new[k]).depends_on_id@ != id,
        is_path(new, p),
        p[0] != id,
    ensures
        is_path(old, p),
        p.last() != id,
    decreases p.len(),
{
    if p.len() > 1 {
        let q = p.drop_last();
        assert forall|i: int| 0 <= i < q.len() - 1 implies has_edge(new, #[trigger] q[i], q[i + 1]) by {
            assert(q[i] == p[i] && q[i + 1] == p[i + 1]);
        }
        lemma_fresh_paths(old, new, id, q);
        let x = q.last();
        let y = p.last();
        assert(has_edge(new, p[p.len() - 2], p[p.len() - 1]));
        let m = choose|m: int| 0 <= m < new.len() && crate::store::is_edge(#[trigger] new[m], x, y);
        assert(m < old.len());
        assert(old[m] == new.subrange(0, old.len() as int)[m]);
        assert(has_edge(old, x, y));
        assert forall|i: int| 0 <= i < p.len() - 1 implies has_edge(old, #[trigger] p[i], p[i + 1]) by {
            if i < p.len() - 2 {
                assert(q[i] == p[i] && q[i + 1] == p[i + 1]);
            }
        }
    }
}

/// Adding edges out of an id that no edge touched keeps the graph acyclic.
pub proof fn lemma_fresh_edges_acyclic(old: Seq<Dep>, new: Seq<Dep>, id: Seq<char>)
    requires
        acyclic(old),
        old.len() <= new.len(),
        new.subrange(0, old.len() as int) == old,
        forall|k: int| old.len() <= k < new.len() ==> (#[trigger] new[k]).issue_id@ == id,
        forall|k: int| 0 <= k < old.len() ==> (#[trigger] old[k]).issue_id@ != id,
        forall|k: int| 0 <= k < new.len() ==> (#[trigger] new[k]).depends_on_id@ != id,
    ensures
        acyclic(new),
{
    assert forall|k: int| 0 <= k < new.len() implies !reaches(
        new,
        (#[trigger] new[k]).depends_on_id@,
        new[k].issue_id@,
    ) by {
        let c = new[k].issue_id@;
        let p = new[k].depends_on_id@;
        if reaches(new, p, c) {
            let w = choose|w: Seq<Seq<char>>| is_path(new, w) && w[0] == p && w.last() == c;
            lemma_fresh_paths(old, new, id, w);
            assert(k < old.len());
            assert(old[k] == new.subrange(0, old.len() as int)[k]);
            assert(reaches(old, p, c));
        }
    }
}

/// The edges turned around: from a parent to each issue that depends on it.
pub open spec fn flipped(deps: Seq<Dep>) -> Seq<Dep> {
    deps.map_values(|d: Dep| Dep { issue_id: d.depends_on_id, depends_on_id: d.issue_id })
}

/// The edges turned around.
pub fn flip(deps: &Vec<Dep>) -> (r: Vec<Dep>)
    ensures
        r@ == flipped(deps@),
{
    let mut out: Vec<Dep> = Vec::new();
    let mut k: usize = 0;
    while k < deps.len()
        invariant
            k <= deps@.len(),
            out@ == flipped(deps@.take(k as int)),
        decreases deps@.len() - k,
    {
        out.push(Dep { issue_id: deps[k].depends_on_id.clone(), depends_on_id: deps[k].issue_id.clone() });
        proof {
            assert(out@ =~= flipped(deps@.take(k + 1)));
        }
        k = k + 1;
    }
    proof {
        assert(deps@.take(deps@.len() as int) =~= deps@);
    }
    out
}

/// `b` is `n` edges away from `a` along some walk.
pub open spec fn walk(deps: Seq<Dep>, a: Seq<char>, b: Seq<char>, n: int) -> bool {
    exists|p: Seq<Seq<char>>| is_path(deps, p) && p[0] == a && p.last() == b && p.len() == n + 1
}

/// The levels that breadth-first search assigns: the root at zero, every
/// other node one below the node it was found from.
pub open spec fn levels_ok(vis: Seq<Seq<char>>, pred: Seq<usize>, depth: Seq<u64>) -> bool {
    &&& depth.len() == vis.len()
    &&& depth[0] == 0
    &&& forall|b: int| 1 <= b < depth.len() ==> #[trigger] depth[b] == depth[pred[b] as int] + 1
    &&& forall|x: int, y: int| 0 <= x < y < depth.len() ==> #[trigger] depth[x] <= #[trigger] depth[y]
}

proof fn lemma_level_walk(deps: Seq<Dep>, vis: Seq<Seq<char>>, pred: Seq<usize>, depth: Seq<u64>, j: int)
    requires
        vis.len() >= 1,
        preds_ok(deps, vis, pred),
        levels_ok(vis, pred, depth),
        0 <= j < vis.len(),
    ensures
        walk(deps, vis[0], vis[j], depth[j] as int),
    decreases j,
{
    if j == 0 {
        let p = seq![vis[0]];
        assert(is_path(deps, p));
        assert(p[0] == vis[0] && p.last() == vis[0] && p.len() == 1);
    } else {
        let q = pred[j] as int;
        lemma_level_walk(deps, vis, pred, depth, q);
        let w = choose|w: Seq<Seq<char>>| is_path(deps, w) && w[0] == vis[0] && w.last() == vis[q] && w.len() == depth[q] + 1;
        lemma_path_extend(deps, w, vis[j]);
        assert(w.push(vis[j]).len() == depth[j] + 1);
    }
}

/// Levels never decrease along the visiting order.
#[verifier::opaque]
pub open spec fn levels_rise(depth: Seq<u64>) -> bool {
    forall|x: int, y: int| 0 <= x < y < depth.len() ==> #[trigger] depth[x] <= #[trigger] depth[y]
}

/// Each node but the root sits one level below the node it was found from.
#[verifier::opaque]
pub open spec fn levels_step(pred: Seq<usize>, depth: Seq<u64>) -> bool {
    forall|b: int| 1 <= b < depth.len() ==> #[trigger] depth[b] == depth[pred[b] as int] + 1
}

/// Every edge out of a visited node leads to a node found no later than
/// that node was expanded.
#[verifier::opaque]
pub open spec fn expanded_early(deps: Seq<Dep>, vis: Seq<Seq<char>>, pred: Seq<usize>) -> bool {
    forall|x: int, k: int|
        0 <= x < vis.len() && 0 <= k < deps.len() && (#[trigger] deps[k]).issue_id@ == #[trigger] vis[x]
            ==> found_early(vis, pred, deps[k].depends_on_id@, x)
}

proof fn lemma_level_lower(deps: Seq<Dep>, vis: Seq<Seq<char>>, pred: Seq<usize>, depth: Seq<u64>, p: Seq<Seq<char>>)
    requires
        vis.len() >= 1,
        depth.len() == vis.len(),
        pred.len() == vis.len(),
        depth[0] == 0,
        levels_rise(depth),
        levels_step(pred, depth),
        expanded_early(deps, vis, pred),
        is_path(deps, p),
        p[0] == vis[0],
    ensures
        exists|y: int| 0 <= y < vis.len() && vis[y] == p.last() && depth[y] <= p.len() - 1,
    decreases p.len(),
{
    if p.len() == 1 {
        assert(vis[0] == p.last() && depth[0] <= p.len() - 1);
    } else {
        let q = p.drop_last();
        assert forall|i: int| 0 <= i < q.len() - 1 implies has_edge(deps, #[trigger] q[i], q[i + 1]) by {
            assert(q[i] == p[i] && q[i + 1] == p[i + 1]);
        }
        lemma_level_lower(deps, vis, pred, depth, q);
        let x = choose|x: int| 0 <= x < vis.len() && vis[x] == q.last() && depth[x] <= q.len() - 1;
        assert(has_edge(deps, p[p.len() - 2], p[p.len() - 1]));
        let k = choose|k: int| 0 <= k < deps.len() && crate::store::is_edge(#[trigger] deps[k], p[p.len() - 2], p[p.len() - 1]);
        assert(deps[k].issue_id@ == vis[x]);
        assert(found_early(vis, pred, deps[k].depends_on_id@, x)) by {
            reveal(expanded_early);
        }
        let y = choose|y: int| 0 <= y < vis.len() && #[trigger] vis[y] == p.last() && pred[y] <= x;
        if y > 0 {
            assert(depth[y] == depth[pred[y] as int] + 1) by {
                reveal(levels_step);
            }
            if (pred[y] as int) < x {
                assert(depth[pred[y] as int] <= depth[x]) by {
                    reveal(levels_rise);
                }
            }
        }
        assert(vis[y] == p.last() && depth[y] <= p.len() - 1);
    }
}

/// Breadth-first levels: every id that `from` reaches, other than `from`,
/// once each, with its level; levels never decrease along the list.
pub fn levels_from(deps: &Vec<Dep>, from: &str) -> (r: (Vec<String>, Vec<u64>))
    requires
        deps@.len() < 0x7fff_ffff,
    ensures
        r.0@.len() == r.1@.len(),
        str_views(r.0@).no_duplicates(),
        forall|b: Seq<char>| str_views(r.0@).contains(b) <==> (reaches(deps@, from@, b) && b != from@),
        forall|a: int| 0 <= a < r.1@.len() ==> 1 <= #[trigger] r.1@[a] < 0x7fff_ffff,
        forall|a: int, b: int| 0 <= a < b < r.1@.len() ==> #[trigger] r.1@[a] <= #[trigger] r.1@[b],
        forall|a: int| 0 <= a < r.1@.len() ==> walk(deps@, from@, (#[trigger] r.0@[a])@, r.1@[a] as int),
        forall|a: int, p: Seq<Seq<char>>|
            0 <= a < r.1@.len() && #[trigger] is_path(deps@, p) && p[0] == from@ && p.last() == (#[trigger] r.0@[a])@
                ==> p.len() >= r.1@[a] + 1,
{
    let (visited, pred) = reachable_from(deps, from);
    let ghost vis = str_views(visited@);
    let mut depth: Vec<u64> = Vec::new();
    depth.push(0);
    let mut j: usize = 1;
    while j < visited.len()
        invariant
            1 <= j <= visited@.len(),
            visited@.len() <= deps@.len() + 1,
            deps@.len() < 0x7fff_ffff,
            vis == str_views(visited@),
            preds_ok(deps@, vis, pred@),
            depth@.len() == j,
            depth@[0] == 0,
            forall|b: int| 1 <= b < j ==> #[trigger] depth@[b] == depth@[pred@[b] as int] + 1,
            forall|b: int| 0 <= b < j ==> #[trigger] depth@[b] <= b,
            forall|a: int, b: int| 0 <= a < b < j ==> #[trigger] depth@[a] <= #[trigger] depth@[b],
        decreases visited@.len() - j,
    {
        let p = pred[j];
        let d = depth[p] + 1;
        proof {
            assert forall|b: int| 0 <= b < j implies #[trigger] depth@[b] <= d by {
                if b >= 1 {
                    assert(pred@[b] <= pred@[j as int]);
                    assert(depth@[pred@[b] as int] <= depth@[pred@[j as int] as int]);
                }
            }
        }
        depth.push(d);
        j = j + 1;
    }
    let mut ids: Vec<String> = Vec::new();
    let mut levels: Vec<u64> = Vec::new();
    let mut a: usize = 1;
    while a < visited.len()
        invariant
            1 <= a <= visited@.len(),
            vis == str_views(visited@),
            depth@.len() == visited@.len(),
            visited@.len() <= deps@.len() + 1,
            deps@.len() < 0x7fff_ffff,
            forall|b: int| 1 <= b < depth@.len() ==> #[trigger] depth@[b] == depth@[pred@[b] as int] + 1,
            forall|b: int| 0 <= b < depth@.len() ==> #[trigger] depth@[b] <= b,
            forall|x: int, y: int| 0 <= x < y < depth@.len() ==> #[trigger] depth@[x] <= #[trigger] depth@[y],
            pred@.len() == visited@.len(),
            ids@.len() == a - 1,
            levels@.len() == a - 1,
            forall|b: int| 0 <= b < a - 1 ==> (#[trigger] ids@[b])@ == vis[b + 1],
            forall|b: int| 0 <= b < a - 1 ==> #[trigger] levels@[b] == depth@[b + 1],
        decreases visited@.len() - a,
    {
        ids.push(visited[a].clone());
        levels.push(depth[a]);
        a = a + 1;
    }
    proof {
        assert(levels_ok(vis, pred@, depth@));
        assert forall|x: int| 0 <= x < levels@.len() implies walk(deps@, from@, (#[trigger] ids@[x])@, levels@[x] as int) by {
            lemma_level_walk(deps@, vis, pred@, depth@, x + 1);
            assert(ids@[x]@ == vis[x + 1]);
        }
        assert forall|x: int, p: Seq<Seq<char>>|
            0 <= x < levels@.len() && #[trigger] is_path(deps@, p) && p[0] == from@ && p.last() == (#[trigger] ids@[x])@
                implies p.len() >= levels@[x] + 1 by {
            assert(levels_rise(depth@)) by {
                reveal(levels_rise);
            }
            assert(levels_step(pred@, depth@)) by {
                reveal(levels_step);
            }
            assert(expanded_early(deps@, vis, pred@)) by {
                reveal(expanded_early);
            }
            lemma_level_lower(deps@, vis, pred@, depth@, p);
            let y = choose|y: int| 0 <= y < vis.len() && vis[y] == p.last() && depth@[y] <= p.len() - 1;
            assert(ids@[x]@ == vis[x + 1]);
            assert(vis.no_duplicates());
            assert(y == x + 1);
        }
        let iv = str_views(ids@);
        assert(iv =~= vis.subrange(1, vis.len() as int));
        assert forall|x: int, y: int| 0 <= x < y < iv.len() implies iv[x] != iv[y] by {
            assert(iv[x] == vis[x + 1] && iv[y] == vis[y + 1]);
        }
        assert forall|b: Seq<char>| iv.contains(b) <==> (reaches(deps@, from@, b) && b != from@) by {
            if iv.contains(b) {
                let x = choose|x: int| 0 <= x < iv.len() && iv[x] == b;
                assert(vis[x + 1] == b);
                assert(vis.contains(b));
                assert(vis[0] != vis[x + 1]);
            }
            if reaches(deps@, from@, b) && b != from@ {
                assert(vis.contains(b));
                let x = choose|x: int| 0 <= x < vis.len() && vis[x] == b;
                assert(x != 0);
                assert(iv[x - 1] == b);
            }
        }
        assert forall|x: int| 0 <= x < levels@.len() implies 1 <= #[trigger] levels@[x] < 0x7fff_ffff by {
            assert(levels@[x] == depth@[x + 1]);
            assert(depth@[x + 1] == depth@[pred@[x + 1] as int] + 1);
        }
        assert forall|x: int, y: int| 0 <= x < y < levels@.len() implies #[trigger] levels@[x] <= #[trigger] levels@[y] by {
            assert(levels@[x] == depth@[x + 1] && levels@[y] == depth@[y + 1]);
        }
    }
    (ids, levels)
}

} // verus!
