use vstd::prelude::*;

use crate::error::PensaError;
use crate::order::{key_lt, sort_keys, SortKey};
use crate::records::{opt_view, Issue, ListFilters};
use crate::store::{pos, Db};
use crate::text::{contains_text, lowercase, lower_of, occurs_in, seq_lt, text_less};
use crate::types::{priority_rank, status_rank, str_eq, IssueType, Priority, Status};

verus! {

/// The column that a listing is ordered by.
#[derive(Debug, Clone, Copy, PartialEq, Eq, Structural)]
pub enum SortField {
    Priority,
    CreatedAt,
    UpdatedAt,
    Status,
    Title,
}

/// The sort column a listing asks for; an absent or unknown one orders by
/// priority.
pub open spec fn sort_field_of(s: Option<Seq<char>>) -> SortField {
    match s {
        Some(t) => if t == "created_at"@ {
            SortField::CreatedAt
        } else if t == "updated_at"@ {
            SortField::UpdatedAt
        } else if t == "status"@ {
            SortField::Status
        } else if t == "title"@ {
            SortField::Title
        } else {
            SortField::Priority
        },
        None => SortField::Priority,
    }
}

/// How many of the first `n` issues have a title before `t`.
pub open spec fn titles_before(s: Seq<Issue>, t: Seq<char>, n: int) -> nat
    decreases n,
{
    if n <= 0 {
        0
    } else {
        titles_before(s, t, n - 1) + if seq_lt(s[n - 1].title@, t) {
            1nat
        } else {
            0nat
        }
    }
}

/// The sort key of the issue at `j`; ties go by position.
pub open spec fn issue_key(s: Seq<Issue>, j: int, f: SortField) -> SortKey {
    let i = s[j];
    match f {
        SortField::Priority => (priority_rank(i.priority) as u64, i.created_at, j as usize),
        SortField::CreatedAt => (0u64, i.created_at, j as usize),
        SortField::UpdatedAt => (0u64, i.updated_at, j as usize),
        SortField::Status => (status_rank(i.status) as u64, i.created_at, j as usize),
        SortField::Title => (titles_before(s, i.title@, s.len() as int) as u64, 0i64, j as usize),
    }
}

/// `order` lists exactly the positions that `pick` selects, each once, in
/// ascending key order.
pub open spec fn sorted_pick(
    s: Seq<Issue>,
    pick: spec_fn(int) -> bool,
    f: SortField,
    order: Seq<int>,
) -> bool {
    &&& forall|a: int| 0 <= a < order.len() ==> 0 <= #[trigger] order[a] < s.len() && pick(order[a])
    &&& forall|j: int| 0 <= j < s.len() && pick(j) ==> order.contains(j)
    &&& forall|a: int, b: int|
        0 <= a < b < order.len() ==> key_lt(
            issue_key(s, #[trigger] order[a], f),
            issue_key(s, #[trigger] order[b], f),
        )
}

/// The issues at the first `limit` positions of `order`.
pub open spec fn rows(s: Seq<Issue>, order: Seq<int>, limit: Option<usize>) -> Seq<Issue> {
    let n = match limit {
        Some(l) => if (l as int) < order.len() {
            l as int
        } else {
            order.len() as int
        },
        None => order.len() as int,
    };
    order.take(n).map_values(|j: int| s[j])
}

/// The filters of a listing that an issue meets (status included).
pub open spec fn meets_filters(i: Issue, f: ListFilters) -> bool {
    &&& f.status is Some ==> i.status == f.status->Some_0
    &&& meets_common(i, f)
}

/// The filters that ready listings share with plain ones.
pub open spec fn meets_common(i: Issue, f: ListFilters) -> bool {
    &&& f.priority is Some ==> i.priority == f.priority->Some_0
    &&& f.assignee is Some ==> opt_view(i.assignee) == Some(f.assignee->Some_0@)
    &&& f.issue_type is Some ==> i.issue_type == f.issue_type->Some_0
    &&& f.spec is Some ==> opt_view(i.spec) == Some(f.spec->Some_0@)
}

/// The issue at `j` has a dependency parent that is not closed.
pub open spec fn is_blocked(db: Db, j: int) -> bool {
    exists|k: int|
        0 <= k < db.deps@.len() && (#[trigger] db.deps@[k]).issue_id@ == db.issues@[j].id@
            && db.issues@[pos(db.issues@, db.deps@[k].depends_on_id@)].status != Status::Closed
}

/// Open work that is not a bug and waits on nothing.
pub open spec fn is_ready(db: Db, j: int) -> bool {
    &&& db.issues@[j].status == Status::Open
    &&& db.issues@[j].issue_type != IssueType::Bug
    &&& !is_blocked(db, j)
}

/// The title, or the description, holds the query, ignoring case.
pub open spec fn is_hit(i: Issue, q: Seq<char>) -> bool {
    ||| occurs_in(lower_of(q), lower_of(i.title@))
    ||| (i.description is Some && occurs_in(lower_of(q), lower_of(i.description->Some_0@)))
}

/// Whatever the filters and their row limit, a listing is the rows of one
/// sorted selection.
pub open spec fn listed(db: Db, r: Seq<Issue>, pick: spec_fn(int) -> bool, f: SortField, limit: Option<usize>) -> bool {
    exists|order: Seq<int>| sorted_pick(db.issues@, pick, f, order) && r == rows(db.issues@, order, limit)
}

fn sort_field(s: &Option<String>) -> (r: SortField)
    ensures
        r == sort_field_of(opt_view(*s)),
{
    match s {
        Some(t) => {
            if str_eq(t.as_str(), "created_at") {
                SortField::CreatedAt
            } else if str_eq(t.as_str(), "updated_at") {
                SortField::UpdatedAt
            } else if str_eq(t.as_str(), "status") {
                SortField::Status
            } else if str_eq(t.as_str(), "title") {
                SortField::Title
            } else {
                SortField::Priority
            }
        },
        None => SortField::Priority,
    }
}

fn opt_eq(a: &Option<String>, b: &String) -> (r: bool)
    ensures
        r == (opt_view(*a) == Some(b@)),
{
    match a {
        Some(x) => str_eq(x.as_str(), b.as_str()),
        None => false,
    }
}

impl Db {
    fn title_rank(&self, j: usize) -> (r: u64)
        requires
            j < self.issues@.len(),
        ensures
            r as int == titles_before(self.issues@, self.issues@[j as int].title@, self.issues@.len() as int),
    {
        let mut n: u64 = 0;
        let mut i: usize = 0;
        let t = self.issues[j].title.as_str();
        while i < self.issues.len()
            invariant
                i <= self.issues@.len(),
                t@ == self.issues@[j as int].title@,
                n as int == titles_before(self.issues@, t@, i as int),
                n <= i,
            decreases self.issues@.len() - i,
        {
            if text_less(self.issues[i].title.as_str(), t) {
                n = n + 1;
            }
            i = i + 1;
        }
        n
    }

    fn key_of(&self, j: usize, f: SortField) -> (r: SortKey)
        requires
            j < self.issues@.len(),
        ensures
            r == issue_key(self.issues@, j as int, f),
    {
        let i = &self.issues[j];
        match f {
            SortField::Priority => (
                match i.priority {
                    Priority::P0 => 0,
                    Priority::P1 => 1,
                    Priority::P2 => 2,
                    Priority::P3 => 3,
                },
                i.created_at,
                j,
            ),
            SortField::CreatedAt => (0, i.created_at, j),
            SortField::UpdatedAt => (0, i.updated_at, j),
            SortField::Status => (
                match i.status {
                    Status::Closed => 0,
                    Status::InProgress => 1,
                    Status::Open => 2,
                },
                i.created_at,
                j,
            ),
            SortField::Title => (self.title_rank(j), 0, j),
        }
    }

    /// The rows that `pick` marks, ordered by `f`, at most `limit` of them.
    fn select(&self, pick: &Vec<bool>, f: SortField, limit: Option<usize>) -> (r: Vec<Issue>)
        requires
            pick@.len() == self.issues@.len(),
        ensures
            listed(*self, r@, |j: int| pick@[j], f, limit),
    {
        let mut keys: Vec<SortKey> = Vec::new();
        let mut j: usize = 0;
        while j < self.issues.len()
            invariant
                j <= self.issues@.len(),
                pick@.len() == self.issues@.len(),
                forall|a: int| 0 <= a < keys@.len() ==> (#[trigger] keys@[a]).2 < j && pick@[keys@[a].2 as int]
                    && keys@[a] == issue_key(self.issues@, keys@[a].2 as int, f),
                forall|a: int, b: int| 0 <= a < b < keys@.len() ==> (#[trigger] keys@[a]).2 < (#[trigger] keys@[b]).2,
                forall|q: int| 0 <= q < j && pick@[q] ==> exists|a: int| 0 <= a < keys@.len() && (#[trigger] keys@[a]).2 == q,
            decreases self.issues@.len() - j,
        {
            if pick[j] {
                let k = self.key_of(j, f);
                let ghost before = keys@;
                keys.push(k);
                proof {
                    assert forall|q: int| 0 <= q < j + 1 && pick@[q] implies exists|a: int| 0 <= a < keys@.len() && (#[trigger] keys@[a]).2 == q by {
                        if q < j {
                            let a = choose|a: int| 0 <= a < before.len() && (#[trigger] before[a]).2 == q;
                            assert(keys@[a] == before[a]);
                        } else {
                            assert(keys@[before.len() as int].2 == q);
                        }
                    }
                }
            }
            j = j + 1;
        }
        let sorted = sort_keys(&keys);
        let n = match limit {
            Some(l) => if l < sorted.len() { l } else { sorted.len() },
            None => sorted.len(),
        };
        let mut out: Vec<Issue> = Vec::new();
        let ghost order = sorted@.map_values(|k: SortKey| k.2 as int);
        let mut a: usize = 0;
        while a < n
            invariant
                a <= n <= sorted@.len(),
                order == sorted@.map_values(|k: SortKey| k.2 as int),
                forall|b: int| 0 <= b < sorted@.len() ==> keys@.contains(#[trigger] sorted@[b]),
                forall|b: int| 0 <= b < keys@.len() ==> (#[trigger] keys@[b]).2 < self.issues@.len(),
                out@ == order.take(a as int).map_values(|j: int| self.issues@[j]),
            decreases n - a,
        {
            let idx = sorted[a].2;
            proof {
                assert(keys@.contains(sorted@[a as int]));
            }
            out.push(self.issues[idx].copy());
            proof {
                assert(out@ =~= order.take(a + 1).map_values(|j: int| self.issues@[j]));
            }
            a = a + 1;
        }
        proof {
            let s = self.issues@;
            let p = |j: int| pick@[j];
            assert forall|b: int| 0 <= b < order.len() implies 0 <= #[trigger] order[b] < s.len() && p(order[b]) by {
                assert(keys@.contains(sorted@[b]));
            }
            assert forall|j: int| 0 <= j < s.len() && p(j) implies order.contains(j) by {
                let q = choose|q: int| 0 <= q < keys@.len() && (#[trigger] keys@[q]).2 == j;
                assert(sorted@.contains(keys@[q]));
                let b = choose|b: int| 0 <= b < sorted@.len() && sorted@[b] == keys@[q];
                assert(order[b] == j);
            }
            assert forall|x: int, y: int| 0 <= x < y < order.len() implies key_lt(
                issue_key(s, #[trigger] order[x], f),
                issue_key(s, #[trigger] order[y], f),
            ) by {
                assert(keys@.contains(sorted@[x]));
                assert(keys@.contains(sorted@[y]));
                assert(key_lt(sorted@[x], sorted@[y]));
            }
            assert(sorted_pick(s, p, f, order));
            assert(out@ == rows(s, order, limit));
        }
        out
    }

    /// The issues that meet every filter, ordered by the chosen column (by
    /// priority then creation time where none or an unknown one is named).
    pub fn list_issues(&self, filters: &ListFilters) -> (r: Result<Vec<Issue>, PensaError>)
        ensures
            r is Ok,
            listed(
                *self,
                r->Ok_0@,
                |j: int| meets_filters(self.issues@[j], *filters),
                sort_field_of(opt_view(filters.sort)),
                filters.limit,
            ),
    {
        let mut pick: Vec<bool> = Vec::new();
        let mut j: usize = 0;
        while j < self.issues.len()
            invariant
                j <= self.issues@.len(),
                pick@.len() == j,
                forall|q: int| 0 <= q < j ==> #[trigger] pick@[q] == meets_filters(self.issues@[q], *filters),
            decreases self.issues@.len() - j,
        {
            pick.push(self.meets(j, filters, true));
            j = j + 1;
        }
        let f = sort_field(&filters.sort);
        let out = self.select(&pick, f, filters.limit);
        proof {
            let p1 = |q: int| pick@[q];
            let p2 = |q: int| meets_filters(self.issues@[q], *filters);
            let order = choose|order: Seq<int>| sorted_pick(self.issues@, p1, f, order) && out@ == rows(self.issues@, order, filters.limit);
            assert(sorted_pick(self.issues@, p2, f, order));
        }
        Ok(out)
    }

    fn meets(&self, j: usize, f: &ListFilters, with_status: bool) -> (r: bool)
        requires
            j < self.issues@.len(),
        ensures
            r == if with_status {
                meets_filters(self.issues@[j as int], *f)
            } else {
                meets_common(self.issues@[j as int], *f)
            },
    {
        let i = &self.issues[j];
        if with_status {
            if let Some(s) = f.status {
                if i.status != s {
                    return false;
                }
            }
        }
        if let Some(p) = f.priority {
            if i.priority != p {
                return false;
            }
        }
        if let Some(a) = &f.assignee {
            if !opt_eq(&i.assignee, a) {
                return false;
            }
        }
        if let Some(t) = f.issue_type {
            if i.issue_type != t {
                return false;
            }
        }
        if let Some(s) = &f.spec {
            if !opt_eq(&i.spec, s) {
                return false;
            }
        }
        true
    }

    fn blocked_at(&self, j: usize) -> (r: bool)
        requires
            self.wf(),
            j < self.issues@.len(),
        ensures
            r == is_blocked(*self, j as int),
    {
        let id = self.issues[j].id.as_str();
        let mut k: usize = 0;
        while k < self.deps.len()
            invariant
                self.wf(),
                j < self.issues@.len(),
                id@ == self.issues@[j as int].id@,
                k <= self.deps@.len(),
                forall|m: int|
                    0 <= m < k ==> !((#[trigger] self.deps@[m]).issue_id@ == id@ && self.issues@[pos(
                        self.issues@,
                        self.deps@[m].depends_on_id@,
                    )].status != Status::Closed),
            decreases self.deps@.len() - k,
        {
            if str_eq(self.deps[k].issue_id.as_str(), id) {
                proof {
                    assert(crate::store::dep_ok(self.issues@, self.deps@[k as int]));
                }
                match self.find(self.deps[k].depends_on_id.as_str()) {
                    Some(p) => {
                        proof {
                            crate::store::lemma_pos_pub(self.issues@, p as int);
                        }
                        if self.issues[p].status != Status::Closed {
                            return true;
                        }
                    },
                    None => {},
                }
            }
            k = k + 1;
        }
        false
    }

    /// Open tasks, tests and chores that wait on no open or in-progress
    /// issue, filtered as a listing is (status aside), by priority then
    /// creation time.
    pub fn ready_issues(&self, filters: &ListFilters) -> (r: Result<Vec<Issue>, PensaError>)
        requires
            self.wf(),
        ensures
            r is Ok,
            listed(
                *self,
                r->Ok_0@,
                |j: int| is_ready(*self, j) && meets_common(self.issues@[j], *filters),
                SortField::Priority,
                filters.limit,
            ),
    {
        let mut pick: Vec<bool> = Vec::new();
        let mut j: usize = 0;
        while j < self.issues.len()
            invariant
                self.wf(),
                j <= self.issues@.len(),
                pick@.len() == j,
                forall|q: int| 0 <= q < j ==> #[trigger] pick@[q] == (is_ready(*self, q) && meets_common(self.issues@[q], *filters)),
            decreases self.issues@.len() - j,
        {
            let i = &self.issues[j];
            let ok = i.status == Status::Open && i.issue_type != IssueType::Bug && !self.blocked_at(j)
                && self.meets(j, filters, false);
            pick.push(ok);
            j = j + 1;
        }
        let out = self.select(&pick, SortField::Priority, filters.limit);
        proof {
            let p1 = |q: int| pick@[q];
            let p2 = |q: int| is_ready(*self, q) && meets_common(self.issues@[q], *filters);
            let order = choose|order: Seq<int>| sorted_pick(self.issues@, p1, SortField::Priority, order) && out@ == rows(self.issues@, order, filters.limit);
            assert(sorted_pick(self.issues@, p2, SortField::Priority, order));
        }
        Ok(out)
    }

    /// Issues that wait on at least one issue that is not closed, by
    /// priority then creation time.
    pub fn blocked_issues(&self) -> (r: Result<Vec<Issue>, PensaError>)
        requires
            self.wf(),
        ensures
            r is Ok,
            listed(*self, r->Ok_0@, |j: int| is_blocked(*self, j), SortField::Priority, None),
    {
        let mut pick: Vec<bool> = Vec::new();
        let mut j: usize = 0;
        while j < self.issues.len()
            invariant
                self.wf(),
                j <= self.issues@.len(),
                pick@.len() == j,
                forall|q: int| 0 <= q < j ==> #[trigger] pick@[q] == is_blocked(*self, q),
            decreases self.issues@.len() - j,
        {
            pick.push(self.blocked_at(j));
            j = j + 1;
        }
        let out = self.select(&pick, SortField::Priority, None);
        proof {
            let p1 = |q: int| pick@[q];
            let p2 = |q: int| is_blocked(*self, q);
            let order = choose|order: Seq<int>| sorted_pick(self.issues@, p1, SortField::Priority, order) && out@ == rows(self.issues@, order, None);
            assert(sorted_pick(self.issues@, p2, SortField::Priority, order));
        }
        Ok(out)
    }

    /// Issues whose title or description holds the query, ignoring case, by
    /// priority then creation time.
    pub fn search_issues(&self, query: &str) -> (r: Result<Vec<Issue>, PensaError>)
        ensures
            r is Ok,
            listed(*self, r->Ok_0@, |j: int| is_hit(self.issues@[j], query@), SortField::Priority, None),
    {
        let q = lowercase(query);
        let mut pick: Vec<bool> = Vec::new();
        let mut j: usize = 0;
        while j < self.issues.len()
            invariant
                j <= self.issues@.len(),
                q@ == lower_of(query@),
                pick@.len() == j,
                forall|k: int| 0 <= k < j ==> #[trigger] pick@[k] == is_hit(self.issues@[k], query@),
            decreases self.issues@.len() - j,
        {
            let i = &self.issues[j];
            let t = lowercase(i.title.as_str());
            let mut hit = contains_text(t.as_str(), q.as_str());
            if !hit {
                if let Some(d) = &i.description {
                    let dl = lowercase(d.as_str());
                    hit = contains_text(dl.as_str(), q.as_str());
                }
            }
            pick.push(hit);
            j = j + 1;
        }
        let out = self.select(&pick, SortField::Priority, None);
        proof {
            let p1 = |k: int| pick@[k];
            let p2 = |k: int| is_hit(self.issues@[k], query@);
            let order = choose|order: Seq<int>| sorted_pick(self.issues@, p1, SortField::Priority, order) && out@ == rows(self.issues@, order, None);
            assert(sorted_pick(self.issues@, p2, SortField::Priority, order));
        }
        Ok(out)
    }
}

/// A ready issue is never blocked, and every dependency parent of a ready
/// issue is closed.
pub proof fn lemma_ready_excludes_blocked(db: Db, j: int)
    requires
        db.wf(),
        0 <= j < db.issues@.len(),
        is_ready(db, j),
    ensures
        !is_blocked(db, j),
        forall|k: int|
            0 <= k < db.deps@.len() && (#[trigger] db.deps@[k]).issue_id@ == db.issues@[j].id@ ==> db.issues@[pos(
                db.issues@,
                db.deps@[k].depends_on_id@,
            )].status == Status::Closed,
{
}

/// Every row of a filtered listing meets the filters and is a row of the
/// unfiltered listing.
pub proof fn lemma_filtered_listing_within_all(
    db: Db,
    filters: ListFilters,
    all: ListFilters,
    order: Seq<int>,
    order_all: Seq<int>,
)
    requires
        all.status is None,
        all.priority is None,
        all.assignee is None,
        all.issue_type is None,
        all.spec is None,
        all.limit is None,
        sorted_pick(db.issues@, |j: int| meets_filters(db.issues@[j], filters), sort_field_of(opt_view(filters.sort)), order),
        sorted_pick(db.issues@, |j: int| meets_filters(db.issues@[j], all), sort_field_of(opt_view(all.sort)), order_all),
    ensures
        forall|a: int| 0 <= a < rows(db.issues@, order, filters.limit).len() ==> meets_filters(#[trigger] rows(db.issues@, order, filters.limit)[a], filters)
            && rows(db.issues@, order_all, None).contains(rows(db.issues@, order, filters.limit)[a]),
{
    let r = rows(db.issues@, order, filters.limit);
    let ra = rows(db.issues@, order_all, None);
    assert forall|a: int| 0 <= a < r.len() implies meets_filters(#[trigger] r[a], filters) && ra.contains(r[a]) by {
        let j = order[a];
        assert(r[a] == db.issues@[j]);
        assert(meets_filters(db.issues@[j], all));
        assert(order_all.contains(j));
        let b = choose|b: int| 0 <= b < order_all.len() && order_all[b] == j;
        assert(order_all.take(order_all.len() as int) =~= order_all);
        assert(ra[b] == db.issues@[j]);
    }
}

} // verus!
