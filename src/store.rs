use vstd::prelude::*;
use vstd::string::StringExecFns;

use crate::error::PensaError;
use crate::id::{generate_id, id_text};
use crate::graph::{
    acyclic, lemma_add_edge_acyclic, lemma_fresh_edges_acyclic, lemma_reaches_self, lemma_sub_acyclic,
    reaches, reaches_exec,
};
use crate::records::{
    copy_opt, copy_opt_str, opt_view, Comment, CreateIssueParams, Dep, Event, Issue, Timestamp,
};
use crate::text::decimal;
use crate::types::{str_eq, Status};

verus! {

/// The ids of a sequence of issues, in order.
pub open spec fn ids_of(s: Seq<Issue>) -> Seq<Seq<char>> {
    s.map_values(|i: Issue| i.id@)
}

pub open spec fn has_id(s: Seq<Issue>, id: Seq<char>) -> bool {
    ids_of(s).contains(id)
}

pub open spec fn ids_unique(s: Seq<Issue>) -> bool {
    forall|i: int, j: int|
        0 <= i < s.len() && 0 <= j < s.len() && #[trigger] s[i].id@ == #[trigger] s[j].id@ ==> i
            == j
}

/// The status invariants of one issue: an issue in progress has an assignee,
/// a closed one has a closing time, an open one has neither closing time nor
/// closing reason.
pub open spec fn issue_ok(i: Issue) -> bool {
    &&& i.status == Status::InProgress ==> i.assignee is Some
    &&& i.status == Status::Closed ==> i.closed_at is Some
    &&& i.status == Status::Open ==> i.closed_at is None && i.close_reason is None
}

pub open spec fn dep_ok(s: Seq<Issue>, d: Dep) -> bool {
    &&& has_id(s, d.issue_id@)
    &&& has_id(s, d.depends_on_id@)
    &&& d.issue_id@ != d.depends_on_id@
}

pub open spec fn is_edge(d: Dep, child: Seq<char>, parent: Seq<char>) -> bool {
    d.issue_id@ == child && d.depends_on_id@ == parent
}

pub open spec fn has_edge(deps: Seq<Dep>, child: Seq<char>, parent: Seq<char>) -> bool {
    exists|k: int| 0 <= k < deps.len() && is_edge(#[trigger] deps[k], child, parent)
}

pub open spec fn deps_unique(d: Seq<Dep>) -> bool {
    forall|i: int, j: int|
        0 <= i < d.len() && 0 <= j < d.len() && #[trigger] d[i].issue_id@ == #[trigger] d[j].issue_id@
            && d[i].depends_on_id@ == d[j].depends_on_id@ ==> i == j
}

/// The event that an operation appends: its sequence number, issue, kind,
/// actor, detail and time.
pub open spec fn is_event(
    e: Event,
    seq: int,
    issue_id: Seq<char>,
    kind: Seq<char>,
    actor: Option<Seq<char>>,
    detail: Option<Seq<char>>,
    at: Timestamp,
) -> bool {
    &&& e.id == seq
    &&& e.issue_id@ == issue_id
    &&& e.event_type@ == kind
    &&& opt_view(e.actor) == actor
    &&& opt_view(e.detail) == detail
    &&& e.created_at == at
}

/// The update time after a change at `now`: it never goes backwards.
pub open spec fn stamp(old_time: Timestamp, now: Timestamp) -> Timestamp {
    if now > old_time {
        now
    } else {
        old_time
    }
}

/// The tracker's whole state: issues in creation order, dependency edges,
/// comments, the event log and the next event sequence number.
pub struct Db {
    pub issues: Vec<Issue>,
    pub deps: Vec<Dep>,
    pub comments: Vec<Comment>,
    pub events: Vec<Event>,
    pub next_event_id: i64,
}

/// The largest event sequence number that leaves room for the events of one
/// more operation.
pub const EVENT_ID_LIMIT: i64 = 0x7fff_ffff_ffff_fff0;

impl Db {
    pub open spec fn wf(&self) -> bool {
        &&& ids_unique(self.issues@)
        &&& forall|i: int| 0 <= i < self.issues@.len() ==> issue_ok(#[trigger] self.issues@[i])
        &&& forall|k: int|
            0 <= k < self.deps@.len() ==> dep_ok(self.issues@, #[trigger] self.deps@[k])
        &&& deps_unique(self.deps@)
        &&& forall|c: int|
            0 <= c < self.comments@.len() ==> has_id(
                self.issues@,
                (#[trigger] self.comments@[c]).issue_id@,
            )
        &&& forall|e: int|
            0 <= e < self.events@.len() ==> has_id(self.issues@, (#[trigger] self.events@[e]).issue_id@)
                && self.events@[e].id < self.next_event_id
        &&& 1 <= self.next_event_id
        &&& acyclic(self.deps@)
    }

    /// There is room in the event sequence for one more operation.
    pub open spec fn has_room(&self) -> bool {
        self.next_event_id <= EVENT_ID_LIMIT
    }

    pub fn new() -> (r: Db)
        ensures
            r.wf(),
            r.has_room(),
            r.issues@.len() == 0,
            r.deps@.len() == 0,
            r.comments@.len() == 0,
            r.events@.len() == 0,
    {
        Db {
            issues: Vec::new(),
            deps: Vec::new(),
            comments: Vec::new(),
            events: Vec::new(),
            next_event_id: 1,
        }
    }

    pub fn event_room(&self) -> (r: bool)
        ensures
            r == self.has_room(),
    {
        self.next_event_id <= EVENT_ID_LIMIT
    }

    /// The position of the issue with this id.
    pub fn find(&self, id: &str) -> (r: Option<usize>)
        ensures
            match r {
                Some(k) => k < self.issues@.len() && self.issues@[k as int].id@ == id@,
                None => !has_id(self.issues@, id@),
            },
    {
        let mut i: usize = 0;
        while i < self.issues.len()
            invariant
                i <= self.issues@.len(),
                forall|j: int| 0 <= j < i ==> self.issues@[j].id@ != id@,
            decreases self.issues@.len() - i,
        {
            if str_eq(self.issues[i].id.as_str(), id) {
                return Some(i);
            }
            i = i + 1;
        }
        proof {
            if has_id(self.issues@, id@) {
                let j = choose|j: int| 0 <= j < ids_of(self.issues@).len() && ids_of(self.issues@)[j] == id@;
                assert(self.issues@[j].id@ == id@);
            }
        }
        None
    }

    /// Whether an issue with this id exists.
    pub fn has_issue(&self, id: &str) -> (r: bool)
        ensures
            r == has_id(self.issues@, id@),
    {
        match self.find(id) {
            Some(k) => {
                proof {
                    assert(ids_of(self.issues@)[k as int] == id@);
                }
                true
            },
            None => false,
        }
    }

    fn log(
        &mut self,
        issue_id: &str,
        kind: &str,
        actor: Option<&str>,
        detail: Option<String>,
        now: Timestamp,
    )
        requires
            old(self).next_event_id < i64::MAX,
        ensures
            final(self).issues == old(self).issues,
            final(self).deps == old(self).deps,
            final(self).comments == old(self).comments,
            final(self).next_event_id == old(self).next_event_id + 1,
            final(self).events@.len() == old(self).events@.len() + 1,
            final(self).events@.subrange(0, old(self).events@.len() as int) == old(self).events@,
            is_event(
                final(self).events@.last(),
                old(self).next_event_id as int,
                issue_id@,
                kind@,
                match actor {
                    Some(a) => Some(a@),
                    None => None,
                },
                opt_view(detail),
                now,
            ),
    {
        let e = Event {
            id: self.next_event_id,
            issue_id: issue_id.to_owned(),
            event_type: kind.to_owned(),
            actor: copy_opt_str(actor),
            detail,
            created_at: now,
        };
        self.events.push(e);
        self.next_event_id = self.next_event_id + 1;
        proof {
            assert(self.events@.subrange(0, old(self).events@.len() as int) =~= old(self).events@);
        }
    }
}

/// In every state the operations reach, an issue in progress has an
/// assignee and a closed issue has a closing time (and an open one has
/// neither closing time nor reason), and the dependency graph has no cycle.
pub proof fn lemma_state_invariants(db: Db, j: int)
    requires
        db.wf(),
        0 <= j < db.issues@.len(),
    ensures
        db.issues@[j].status == Status::InProgress ==> db.issues@[j].assignee is Some,
        db.issues@[j].status == Status::Closed ==> db.issues@[j].closed_at is Some,
        acyclic(db.deps@),
{
    assert(issue_ok(db.issues@[j]));
}

proof fn lemma_replace_keeps_ids(s: Seq<Issue>, k: int, x: Issue)
    requires
        0 <= k < s.len(),
        x.id@ == s[k].id@,
    ensures
        ids_of(s.update(k, x)) == ids_of(s),
        ids_unique(s) ==> ids_unique(s.update(k, x)),
{
    assert(ids_of(s.update(k, x)) =~= ids_of(s));
}

/// The position of the issue with this id (meaningful where there is one).
pub open spec fn pos(s: Seq<Issue>, id: Seq<char>) -> int {
    choose|k: int| 0 <= k < s.len() && s[k].id@ == id
}

/// The fields that the status operations leave alone are unchanged.
pub open spec fn same_content(a: Issue, b: Issue) -> bool {
    &&& a.id == b.id
    &&& a.title == b.title
    &&& a.description == b.description
    &&& a.issue_type == b.issue_type
    &&& a.priority == b.priority
    &&& a.spec == b.spec
    &&& a.fixes == b.fixes
    &&& a.created_at == b.created_at
}

/// `new` is `old` with one more event appended, of this kind, and nothing
/// else changed but the issues.
pub open spec fn logged(
    new: Db,
    old: Db,
    issue_id: Seq<char>,
    kind: Seq<char>,
    actor: Option<Seq<char>>,
    detail: Option<Seq<char>>,
    now: Timestamp,
) -> bool {
    &&& new.deps@ == old.deps@
    &&& new.comments@ == old.comments@
    &&& new.next_event_id == old.next_event_id + 1
    &&& new.events@.len() == old.events@.len() + 1
    &&& new.events@.subrange(0, old.events@.len() as int) == old.events@
    &&& is_event(new.events@.last(), old.next_event_id as int, issue_id, kind, actor, detail, now)
}

/// The not-found error for this id.
pub open spec fn not_found<T>(r: Result<T, PensaError>, id: Seq<char>) -> bool {
    match r {
        Err(PensaError::NotFound(m)) => m@ == id,
        _ => false,
    }
}

pub open spec fn opt_text(o: Option<Seq<char>>) -> Seq<char> {
    match o {
        Some(s) => s,
        None => Seq::empty(),
    }
}

pub proof fn lemma_pos_pub(s: Seq<Issue>, k: int)
    requires
        ids_unique(s),
        0 <= k < s.len(),
    ensures
        pos(s, s[k].id@) == k,
        has_id(s, s[k].id@),
{
    lemma_pos(s, k);
}

proof fn lemma_pos(s: Seq<Issue>, k: int)
    requires
        ids_unique(s),
        0 <= k < s.len(),
    ensures
        pos(s, s[k].id@) == k,
        has_id(s, s[k].id@),
{
    assert(ids_of(s)[k] == s[k].id@);
}

impl Db {
    pub(crate) fn replace_issue(&mut self, k: usize, x: Issue)
        requires
            old(self).wf(),
            k < old(self).issues@.len(),
            x.id@ == old(self).issues@[k as int].id@,
            issue_ok(x),
        ensures
            final(self).wf(),
            final(self).issues@ == old(self).issues@.update(k as int, x),
            ids_of(final(self).issues@) == ids_of(old(self).issues@),
            final(self).deps == old(self).deps,
            final(self).comments == old(self).comments,
            final(self).events == old(self).events,
            final(self).next_event_id == old(self).next_event_id,
    {
        proof {
            lemma_replace_keeps_ids(self.issues@, k as int, x);
        }
        self.issues.set(k, x);
    }

    /// Appends one event about an existing issue.
    pub(crate) fn record_event(
        &mut self,
        issue_id: &str,
        kind: &str,
        actor: Option<&str>,
        detail: Option<String>,
        now: Timestamp,
    )
        requires
            old(self).wf(),
            old(self).next_event_id < i64::MAX,
            has_id(old(self).issues@, issue_id@),
        ensures
            final(self).wf(),
            final(self).issues == old(self).issues,
            logged(
                *final(self),
                *old(self),
                issue_id@,
                kind@,
                match actor {
                    Some(a) => Some(a@),
                    None => None,
                },
                opt_view(detail),
                now,
            ),
    {
        self.log(issue_id, kind, actor, detail, now);
        proof {
            let n = old(self).events@.len() as int;
            assert forall|e: int| 0 <= e < self.events@.len() implies has_id(
                self.issues@,
                (#[trigger] self.events@[e]).issue_id@,
            ) && self.events@[e].id < self.next_event_id by {
                if e < n {
                    assert(self.events@[e] == self.events@.subrange(0, n)[e]);
                }
            }
        }
    }

    /// The issue with this id.
    pub fn get_issue_only(&self, id: &str) -> (r: Result<Issue, PensaError>)
        requires
            self.wf(),
        ensures
            !has_id(self.issues@, id@) ==> not_found(r, id@),
            has_id(self.issues@, id@) ==> r == Ok::<Issue, PensaError>(
                self.issues@[pos(self.issues@, id@)],
            ),
    {
        match self.find(id) {
            Some(k) => {
                proof {
                    lemma_pos(self.issues@, k as int);
                }
                Ok(self.issues[k].copy())
            },
            None => Err(PensaError::NotFound(id.to_owned())),
        }
    }

    /// Moves an open issue to in progress under `actor`.
    pub fn claim_issue(&mut self, id: &str, actor: &str, now: Timestamp) -> (r: Result<
        Issue,
        PensaError,
    >)
        requires
            old(self).wf(),
            old(self).has_room(),
        ensures
            final(self).wf(),
            ({
                let o = old(self).issues@;
                let k = pos(o, id@);
                if !has_id(o, id@) {
                    not_found(r, id@) && *final(self) == *old(self)
                } else if o[k].status != Status::Open {
                    *final(self) == *old(self) && match r {
                        Err(PensaError::AlreadyClaimed { id: i, holder }) => i@ == id@ && holder@
                            == opt_text(opt_view(o[k].assignee)),
                        _ => false,
                    }
                } else {
                    &&& r is Ok
                    &&& final(self).issues@ == o.update(k, r->Ok_0)
                    &&& same_content(r->Ok_0, o[k])
                    &&& r->Ok_0.status == Status::InProgress
                    &&& opt_view(r->Ok_0.assignee) == Some(actor@)
                    &&& r->Ok_0.closed_at == o[k].closed_at
                    &&& r->Ok_0.close_reason == o[k].close_reason
                    &&& r->Ok_0.updated_at == stamp(o[k].updated_at, now)
                    &&& logged(*final(self), *old(self), id@, "claimed"@, Some(actor@), None, now)
                }
            }),
    {
        let k = match self.find(id) {
            Some(k) => k,
            None => {
                return Err(PensaError::NotFound(id.to_owned()));
            },
        };
        proof {
            lemma_pos(self.issues@, k as int);
        }
        let cur = &self.issues[k];
        if cur.status != Status::Open {
            let holder = match &cur.assignee {
                Some(a) => a.clone(),
                None => String::new(),
            };
            return Err(PensaError::AlreadyClaimed { id: id.to_owned(), holder });
        }
        let mut x = cur.copy();
        x.status = Status::InProgress;
        x.assignee = Some(actor.to_owned());
        if now > x.updated_at {
            x.updated_at = now;
        }
        let out = x.copy();
        self.replace_issue(k, x);
        self.record_event(id, "claimed", Some(actor), None, now);
        Ok(out)
    }

    /// Sets an issue back to open with no assignee, whatever its status.
    pub fn release_issue(&mut self, id: &str, actor: &str, now: Timestamp) -> (r: Result<
        Issue,
        PensaError,
    >)
        requires
            old(self).wf(),
            old(self).has_room(),
        ensures
            final(self).wf(),
            ({
                let o = old(self).issues@;
                let k = pos(o, id@);
                if !has_id(o, id@) {
                    not_found(r, id@) && *final(self) == *old(self)
                } else {
                    &&& r is Ok
                    &&& final(self).issues@ == o.update(k, r->Ok_0)
                    &&& same_content(r->Ok_0, o[k])
                    &&& r->Ok_0.status == Status::Open
                    &&& r->Ok_0.assignee is None
                    &&& r->Ok_0.closed_at is None
                    &&& r->Ok_0.close_reason is None
                    &&& r->Ok_0.updated_at == stamp(o[k].updated_at, now)
                    &&& logged(*final(self), *old(self), id@, "released"@, Some(actor@), None, now)
                }
            }),
    {
        let k = match self.find(id) {
            Some(k) => k,
            None => {
                return Err(PensaError::NotFound(id.to_owned()));
            },
        };
        proof {
            lemma_pos(self.issues@, k as int);
        }
        let mut x = self.issues[k].copy();
        x.status = Status::Open;
        x.assignee = None;
        x.closed_at = None;
        x.close_reason = None;
        if now > x.updated_at {
            x.updated_at = now;
        }
        let out = x.copy();
        self.replace_issue(k, x);
        self.record_event(id, "released", Some(actor), None, now);
        Ok(out)
    }

    /// Sets an issue back to open, clearing its closing time and reason.
    pub fn reopen_issue(
        &mut self,
        id: &str,
        reason: Option<&str>,
        actor: &str,
        now: Timestamp,
    ) -> (r: Result<Issue, PensaError>)
        requires
            old(self).wf(),
            old(self).has_room(),
        ensures
            final(self).wf(),
            ({
                let o = old(self).issues@;
                let k = pos(o, id@);
                if !has_id(o, id@) {
                    not_found(r, id@) && *final(self) == *old(self)
                } else {
                    &&& r is Ok
                    &&& final(self).issues@ == o.update(k, r->Ok_0)
                    &&& same_content(r->Ok_0, o[k])
                    &&& r->Ok_0.status == Status::Open
                    &&& r->Ok_0.assignee == o[k].assignee
                    &&& r->Ok_0.closed_at is None
                    &&& r->Ok_0.close_reason is None
                    &&& r->Ok_0.updated_at == stamp(o[k].updated_at, now)
                    &&& logged(
                        *final(self),
                        *old(self),
                        id@,
                        "reopened"@,
                        Some(actor@),
                        match reason {
                            Some(t) => Some(t@),
                            None => None,
                        },
                        now,
                    )
                }
            }),
    {
        let k = match self.find(id) {
            Some(k) => k,
            None => {
                return Err(PensaError::NotFound(id.to_owned()));
            },
        };
        proof {
            lemma_pos(self.issues@, k as int);
        }
        let mut x = self.issues[k].copy();
        x.status = Status::Open;
        x.closed_at = None;
        x.close_reason = None;
        if now > x.updated_at {
            x.updated_at = now;
        }
        let out = x.copy();
        self.replace_issue(k, x);
        self.record_event(id, "reopened", Some(actor), copy_opt_str(reason), now);
        Ok(out)
    }

    /// Creates an issue under a fresh random id.
    pub fn create_issue(&mut self, params: &CreateIssueParams, now: Timestamp) -> (r: Result<
        Issue,
        PensaError,
    >)
        requires
            old(self).wf(),
            old(self).has_room(),
        ensures
            final(self).wf(),
            exists|bits: u128| created(*old(self), *final(self), *params, id_text(bits), now, r),
    {
        let id = generate_id();
        self.create_issue_with_id(params, id, now)
    }
}

/// A closed copy of `o` as `close` leaves it.
pub open spec fn is_closed_copy(x: Issue, o: Issue, reason: Option<Seq<char>>, now: Timestamp) -> bool {
    &&& same_content(x, o)
    &&& x.status == Status::Closed
    &&& x.assignee == o.assignee
    &&& x.closed_at == Some(now)
    &&& opt_view(x.close_reason) == reason
    &&& x.updated_at == stamp(o.updated_at, now)
}

pub open spec fn keeps_dep(d: Dep, id: Seq<char>) -> bool {
    d.issue_id@ != id && d.depends_on_id@ != id
}

pub open spec fn is_dependent_of(d: Dep, id: Seq<char>) -> bool {
    d.depends_on_id@ == id
}

pub open spec fn has_dependents(deps: Seq<Dep>, id: Seq<char>) -> bool {
    exists|k: int| 0 <= k < deps.len() && is_dependent_of(#[trigger] deps[k], id)
}

pub open spec fn has_comments(comments: Seq<Comment>, id: Seq<char>) -> bool {
    exists|k: int| 0 <= k < comments.len() && (#[trigger] comments[k]).issue_id@ == id
}

proof fn lemma_remove_keeps_other_ids(s: Seq<Issue>, k: int, x: Seq<char>)
    requires
        0 <= k < s.len(),
        has_id(s, x),
        x != s[k].id@,
    ensures
        has_id(s.remove(k), x),
{
    let j = choose|j: int| 0 <= j < ids_of(s).len() && ids_of(s)[j] == x;
    if j < k {
        assert(ids_of(s.remove(k))[j] == x);
    } else {
        assert(ids_of(s.remove(k))[j - 1] == x);
    }
}

/// `close` changes the issue with this id: it exists, and it is not
/// already closed unless the close is forced.
pub open spec fn close_applies(o: Seq<Issue>, id: Seq<char>, force: bool) -> bool {
    has_id(o, id) && !(o[pos(o, id)].status == Status::Closed && !force)
}

pub open spec fn opt_str_view(o: Option<&str>) -> Option<Seq<char>> {
    match o {
        Some(t) => Some(t@),
        None => None,
    }
}

/// Closing `i` also closes the issue it fixes, where that one exists.
pub open spec fn auto_close(i: Issue, s: Seq<Issue>) -> bool {
    i.fixes is Some && has_id(s, i.fixes->Some_0@)
}

impl Db {
    /// Closes an issue and, when it names an existing issue it fixes, closes
    /// that one too with the reason "fixed by <id>".
    #[verifier::rlimit(40)]
    pub fn close_issue(
        &mut self,
        id: &str,
        reason: Option<&str>,
        force: bool,
        actor: &str,
        now: Timestamp,
    ) -> (r: Result<Issue, PensaError>)
        requires
            old(self).wf(),
            old(self).has_room(),
        ensures
            final(self).wf(),
            !has_id(old(self).issues@, id@) ==> not_found(r, id@) && *final(self) == *old(self),
            has_id(old(self).issues@, id@) && !close_applies(old(self).issues@, id@, force) ==> {
                &&& *final(self) == *old(self)
                &&& match r {
                    Err(PensaError::InvalidStatusTransition { from, to }) => from@ == "closed"@
                        && to@ == "closed"@,
                    _ => false,
                }
            },
            close_applies(old(self).issues@, id@, force) ==> {
                let n = old(self).events@.len() as int;
                &&& r == Ok::<Issue, PensaError>(final(self).issues@[pos(old(self).issues@, id@)])
                &&& final(self).deps@ == old(self).deps@
                &&& final(self).comments@ == old(self).comments@
                &&& final(self).events@.subrange(0, n) == old(self).events@
                &&& is_event(
                    final(self).events@[n],
                    old(self).next_event_id as int,
                    id@,
                    "closed"@,
                    Some(actor@),
                    opt_str_view(reason),
                    now,
                )
            },
            close_applies(old(self).issues@, id@, force) && !auto_close(
                old(self).issues@[pos(old(self).issues@, id@)],
                old(self).issues@,
            ) ==> {
                let o = old(self).issues@;
                let k = pos(o, id@);
                let n = old(self).events@.len() as int;
                &&& is_closed_copy(final(self).issues@[k], o[k], opt_str_view(reason), now)
                &&& final(self).issues@ == o.update(k, final(self).issues@[k])
                &&& final(self).events@.len() == n + 1
                &&& final(self).next_event_id == old(self).next_event_id + 1
            },
            close_applies(old(self).issues@, id@, force) && auto_close(
                old(self).issues@[pos(old(self).issues@, id@)],
                old(self).issues@,
            ) ==> {
                let o = old(self).issues@;
                let k = pos(o, id@);
                let n = old(self).events@.len() as int;
                let f = o[k].fixes->Some_0@;
                let s1 = final(self).issues@;
                &&& exists|c: Issue|
                    is_closed_copy(c, o[k], opt_str_view(reason), now) && s1 == o.update(k, c).update(
                        pos(o, f),
                        #[trigger] s1[pos(o, f)],
                    ) && is_closed_copy(
                        s1[pos(o, f)],
                        o.update(k, c)[pos(o, f)],
                        Some("fixed by "@ + id@),
                        now,
                    )
                &&& final(self).events@.len() == n + 2
                &&& final(self).next_event_id == old(self).next_event_id + 2
                &&& is_event(
                    final(self).events@[n + 1],
                    old(self).next_event_id + 1,
                    f,
                    "closed"@,
                    Some(actor@),
                    Some("fixed by "@ + id@),
                    now,
                )
            },
    {
        let k = match self.find(id) {
            Some(k) => k,
            None => {
                return Err(PensaError::NotFound(id.to_owned()));
            },
        };
        proof {
            lemma_pos(self.issues@, k as int);
        }
        if self.issues[k].status == Status::Closed && !force {
            return Err(
                PensaError::InvalidStatusTransition {
                    from: String::from_str("closed"),
                    to: String::from_str("closed"),
                },
            );
        }
        let ghost o = self.issues@;
        let ghost n = self.events@.len() as int;
        let mut x = self.issues[k].copy();
        x.status = Status::Closed;
        x.closed_at = Some(now);
        x.close_reason = copy_opt_str(reason);
        if now > x.updated_at {
            x.updated_at = now;
        }
        let fixes = copy_opt(&x.fixes);
        let ghost c = x;
        self.replace_issue(k, x);
        self.record_event(id, "closed", Some(actor), copy_opt_str(reason), now);
        let ghost e1 = self.events@[n];
        if let Some(f) = fixes {
            if let Some(j) = self.find(f.as_str()) {
                proof {
                    lemma_pos(self.issues@, j as int);
                    lemma_pos(o, j as int);
                }
                let msg = String::from_str("fixed by ").concat(id);
                let mut y = self.issues[j].copy();
                y.status = Status::Closed;
                y.closed_at = Some(now);
                y.close_reason = Some(msg.clone());
                if now > y.updated_at {
                    y.updated_at = now;
                }
                let ghost mid = self.issues@;
                proof {
                    assert(ids_of(o)[j as int] == ids_of(mid)[j as int]);
                    lemma_pos(o, j as int);
                }
                self.replace_issue(j, y);
                self.record_event(f.as_str(), "closed", Some(actor), Some(msg), now);
                proof {
                    assert(self.events@.subrange(0, n + 1) == self.events@.subrange(0, n + 2).subrange(0, n + 1));
                    assert(self.events@[n] == self.events@.subrange(0, n + 1)[n]);
                    assert(self.events@.subrange(0, n) =~= old(self).events@);
                    assert(self.events@[n] == e1);
                    assert(mid == o.update(k as int, c));
                    assert(self.issues@ == o.update(k as int, c).update(j as int, self.issues@[j as int]));
                    assert(is_closed_copy(c, o[k as int], opt_view(c.close_reason), now));
                }
            } else {
                proof {
                    assert(!has_id(o, f@));
                    assert(self.issues@ == o.update(k as int, self.issues@[k as int]));
                }
            }
        } else {
            proof {
                assert(self.issues@ == o.update(k as int, self.issues@[k as int]));
            }
        }
        Ok(self.issues[k].copy())
    }

    /// Deletes an issue. Without `force` an issue that others depend on or
    /// that has comments is kept; otherwise its edges, comments and events
    /// go with it.
    pub fn delete_issue(&mut self, id: &str, force: bool) -> (r: Result<(), PensaError>)
        requires
            old(self).wf(),
        ensures
            final(self).wf(),
            ({
                let o = old(self).issues@;
                if !has_id(o, id@) {
                    not_found(r, id@) && *final(self) == *old(self)
                } else if !force && (has_dependents(old(self).deps@, id@) || has_comments(
                    old(self).comments@,
                    id@,
                )) {
                    r is Err && r->Err_0 is DeleteRequiresForce && *final(self) == *old(self)
                } else {
                    &&& r is Ok
                    &&& final(self).issues@ == o.remove(pos(o, id@))
                    &&& final(self).deps@ == old(self).deps@.filter(|d: Dep| keeps_dep(d, id@))
                    &&& final(self).comments@ == old(self).comments@.filter(
                        |c: Comment| c.issue_id@ != id@,
                    )
                    &&& final(self).events@ == old(self).events@.filter(
                        |e: Event| e.issue_id@ != id@,
                    )
                    &&& final(self).next_event_id == old(self).next_event_id
                }
            }),
    {
        let k = match self.find(id) {
            Some(k) => k,
            None => {
                return Err(PensaError::NotFound(id.to_owned()));
            },
        };
        proof {
            lemma_pos(self.issues@, k as int);
        }
        if !force {
            let mut dependents: u64 = 0;
            let mut i: usize = 0;
            while i < self.deps.len()
                invariant
                    i <= self.deps@.len(),
                    dependents <= i,
                    (dependents == 0) == (forall|j: int|
                        0 <= j < i ==> !is_dependent_of(#[trigger] self.deps@[j], id@)),
                decreases self.deps@.len() - i,
            {
                if str_eq(self.deps[i].depends_on_id.as_str(), id) {
                    dependents = dependents + 1;
                }
                i = i + 1;
            }
            let mut comments: u64 = 0;
            let mut i: usize = 0;
            while i < self.comments.len()
                invariant
                    i <= self.comments@.len(),
                    comments <= i,
                    (comments == 0) == (forall|j: int|
                        0 <= j < i ==> (#[trigger] self.comments@[j]).issue_id@ != id@),
                decreases self.comments@.len() - i,
            {
                if str_eq(self.comments[i].issue_id.as_str(), id) {
                    comments = comments + 1;
                }
                i = i + 1;
            }
            if dependents > 0 || comments > 0 {
                let msg = String::from_str("issue has ").concat(decimal(dependents).as_str()).concat(
                    " dependents and ",
                ).concat(decimal(comments).as_str()).concat(" comments");
                return Err(PensaError::DeleteRequiresForce(msg));
            }
        }
        let ghost old_issues = self.issues@;
        let ghost pred_d = |d: Dep| keeps_dep(d, id@);
        let mut deps: Vec<Dep> = Vec::new();
        let mut i: usize = 0;
        while i < self.deps.len()
            invariant
                i <= self.deps@.len(),
                self.wf(),
                self.issues@ == old_issues,
                k < self.issues@.len(),
                self.issues@[k as int].id@ == id@,
                pred_d == (|d: Dep| keeps_dep(d, id@)),
                deps@ == self.deps@.subrange(0, i as int).filter(pred_d),
                deps_unique(deps@),
                forall|j: int| 0 <= j < deps@.len() ==> #[trigger] keeps_dep(deps@[j], id@)
                    && dep_ok(self.issues@, deps@[j]),
            decreases self.deps@.len() - i,
        {
            let d = &self.deps[i];
            proof {
                reveal(Seq::filter);
                assert(self.deps@.subrange(0, i + 1).drop_last() =~= self.deps@.subrange(0, i as int));
                assert(self.deps@.subrange(0, i + 1).last() == self.deps@[i as int]);
                assert(self.deps@.subrange(0, i + 1).filter(pred_d) == if pred_d(self.deps@[i as int]) {
                    self.deps@.subrange(0, i as int).filter(pred_d).push(self.deps@[i as int])
                } else {
                    self.deps@.subrange(0, i as int).filter(pred_d)
                });
            }
            if !str_eq(d.issue_id.as_str(), id) && !str_eq(d.depends_on_id.as_str(), id) {
                proof {
                    assert forall|j: int| 0 <= j < deps@.len() implies !(
                        #[trigger] deps@[j].issue_id@ == d.issue_id@
                        && deps@[j].depends_on_id@ == d.depends_on_id@) by {
                        self.deps@.subrange(0, i as int).lemma_filter_contains_rev(pred_d, deps@[j]);
                        let m = choose|m: int| 0 <= m < i && self.deps@.subrange(0, i as int)[m] == deps@[j];
                        assert(self.deps@[m] == deps@[j]);
                    }
                }
                deps.push(d.copy());
                assert(pred_d(self.deps@[i as int]));
                assert(deps@ == self.deps@.subrange(0, i + 1).filter(pred_d));
            } else {
                assert(!pred_d(self.deps@[i as int]));
                assert(deps@ == self.deps@.subrange(0, i + 1).filter(pred_d));
            }
            i = i + 1;
        }
        proof {
            assert(self.deps@.subrange(0, self.deps@.len() as int) =~= self.deps@);
        }
        let ghost pred_c = |c: Comment| c.issue_id@ != id@;
        let mut comments: Vec<Comment> = Vec::new();
        let mut i: usize = 0;
        while i < self.comments.len()
            invariant
                i <= self.comments@.len(),
                self.wf(),
                self.issues@ == old_issues,
                pred_c == (|c: Comment| c.issue_id@ != id@),
                comments@ == self.comments@.subrange(0, i as int).filter(pred_c),
                forall|j: int| 0 <= j < comments@.len() ==> (#[trigger] comments@[j]).issue_id@ != id@
                    && has_id(self.issues@, comments@[j].issue_id@),
            decreases self.comments@.len() - i,
        {
            let c = &self.comments[i];
            proof {
                reveal(Seq::filter);
                assert(self.comments@.subrange(0, i + 1).drop_last() =~= self.comments@.subrange(0, i as int));
                assert(self.comments@.subrange(0, i + 1).last() == self.comments@[i as int]);
                assert(self.comments@.subrange(0, i + 1).filter(pred_c) == if pred_c(self.comments@[i as int]) {
                    self.comments@.subrange(0, i as int).filter(pred_c).push(self.comments@[i as int])
                } else {
                    self.comments@.subrange(0, i as int).filter(pred_c)
                });
            }
            if !str_eq(c.issue_id.as_str(), id) {
                comments.push(c.copy());
            }
            i = i + 1;
        }
        proof {
            assert(self.comments@.subrange(0, self.comments@.len() as int) =~= self.comments@);
        }
        let ghost pred_e = |e: Event| e.issue_id@ != id@;
        let mut events: Vec<Event> = Vec::new();
        let mut i: usize = 0;
        while i < self.events.len()
            invariant
                i <= self.events@.len(),
                self.wf(),
                self.issues@ == old_issues,
                pred_e == (|e: Event| e.issue_id@ != id@),
                events@ == self.events@.subrange(0, i as int).filter(pred_e),
                forall|j: int| 0 <= j < events@.len() ==> (#[trigger] events@[j]).issue_id@ != id@
                    && has_id(self.issues@, events@[j].issue_id@) && events@[j].id < self.next_event_id,
            decreases self.events@.len() - i,
        {
            let e = &self.events[i];
            proof {
                reveal(Seq::filter);
                assert(self.events@.subrange(0, i + 1).drop_last() =~= self.events@.subrange(0, i as int));
                assert(self.events@.subrange(0, i + 1).last() == self.events@[i as int]);
                assert(self.events@.subrange(0, i + 1).filter(pred_e) == if pred_e(self.events@[i as int]) {
                    self.events@.subrange(0, i as int).filter(pred_e).push(self.events@[i as int])
                } else {
                    self.events@.subrange(0, i as int).filter(pred_e)
                });
            }
            if !str_eq(e.issue_id.as_str(), id) {
                events.push(e.copy());
            }
            i = i + 1;
        }
        proof {
            assert(self.events@.subrange(0, self.events@.len() as int) =~= self.events@);
        }
        proof {
            let nd = deps@;
            let od = self.deps@;
            assert forall|x: Seq<char>, y: Seq<char>| has_edge(nd, x, y) implies has_edge(od, x, y) by {
                let m = choose|m: int| 0 <= m < nd.len() && is_edge(#[trigger] nd[m], x, y);
                od.lemma_filter_contains_rev(pred_d, nd[m]);
                let q = choose|q: int| 0 <= q < od.len() && od[q] == nd[m];
                assert(is_edge(od[q], x, y));
            }
            crate::graph::lemma_sub_acyclic(nd, od);
        }
        self.deps = deps;
        self.comments = comments;
        self.events = events;
        self.issues.remove(k);
        proof {
            let s = self.issues@;
            assert forall|a: int, b: int|
                0 <= a < s.len() && 0 <= b < s.len() && #[trigger] s[a].id@ == #[trigger] s[b].id@ implies a == b by {
                let a0 = if a < k { a } else { a + 1 };
                let b0 = if b < k { b } else { b + 1 };
                assert(old_issues[a0] == s[a]);
                assert(old_issues[b0] == s[b]);
            }
            assert forall|q: int| 0 <= q < s.len() implies issue_ok(#[trigger] s[q]) by {
                let q0 = if q < k { q } else { q + 1 };
                assert(old_issues[q0] == s[q]);
            }
            assert forall|q: int| 0 <= q < self.deps@.len() implies dep_ok(s, #[trigger] self.deps@[q]) by {
                lemma_remove_keeps_other_ids(old_issues, k as int, self.deps@[q].issue_id@);
                lemma_remove_keeps_other_ids(old_issues, k as int, self.deps@[q].depends_on_id@);
            }
            assert forall|q: int| 0 <= q < self.comments@.len() implies has_id(s, (#[trigger] self.comments@[q]).issue_id@) by {
                lemma_remove_keeps_other_ids(old_issues, k as int, self.comments@[q].issue_id@);
            }
            assert forall|q: int| 0 <= q < self.events@.len() implies has_id(s, (#[trigger] self.events@[q]).issue_id@) by {
                lemma_remove_keeps_other_ids(old_issues, k as int, self.events@[q].issue_id@);
            }
        }
        Ok(())
    }
}

/// A dependency edge from the new issue to each listed parent, with each
/// parent once.
pub open spec fn new_edges_ok(new: Seq<Dep>, old: Seq<Dep>, id: Seq<char>, parents: Seq<String>) -> bool {
    &&& new.subrange(0, old.len() as int) == old
    &&& forall|k: int| old.len() <= k < new.len() ==> (#[trigger] new[k]).issue_id@ == id
    &&& forall|p: Seq<char>|
        has_edge(new, id, p) <==> exists|j: int| 0 <= j < parents.len() && (#[trigger] parents[j])@ == p
}

pub open spec fn is_new_issue(x: Issue, id: Seq<char>, p: CreateIssueParams, now: Timestamp) -> bool {
    &&& x.id@ == id
    &&& x.title == p.title
    &&& x.description == p.description
    &&& x.issue_type == p.issue_type
    &&& x.status == Status::Open
    &&& x.priority == p.priority
    &&& x.spec == p.spec
    &&& x.fixes == p.fixes
    &&& x.assignee == p.assignee
    &&& x.created_at == now
    &&& x.updated_at == now
    &&& x.closed_at is None
    &&& x.close_reason is None
}

pub open spec fn all_exist(s: Seq<Issue>, parents: Seq<String>) -> bool {
    forall|j: int| 0 <= j < parents.len() ==> has_id(s, (#[trigger] parents[j])@)
}

/// The outcome of creating an issue under `id`: refused when the id is
/// taken or a listed parent is missing, otherwise the issue, its edges and
/// its `created` event are added.
pub open spec fn created(
    old: Db,
    new: Db,
    p: CreateIssueParams,
    id: Seq<char>,
    now: Timestamp,
    r: Result<Issue, PensaError>,
) -> bool {
    &&& has_id(old.issues@, id) ==> r is Err && r->Err_0 is Internal && new
        == old
    &&& !has_id(old.issues@, id) && !all_exist(old.issues@, p.deps@) ==> {
        &&& new == old
        &&& match r {
            Err(PensaError::NotFound(m)) => exists|j: int|
                0 <= j < p.deps@.len() && (#[trigger] p.deps@[j])@ == m@
                    && !has_id(old.issues@, m@),
            _ => false,
        }
    }
    &&& !has_id(old.issues@, id) && all_exist(old.issues@, p.deps@) ==> {
        &&& r is Ok
        &&& is_new_issue(r->Ok_0, id, p, now)
        &&& new.issues@ == old.issues@.push(r->Ok_0)
        &&& new_edges_ok(new.deps@, old.deps@, id, p.deps@)
        &&& new.comments@ == old.comments@
        &&& new.next_event_id == old.next_event_id + 1
        &&& new.events@ == old.events@.push(new.events@.last())
        &&& is_event(
            new.events@.last(),
            old.next_event_id as int,
            id,
            "created"@,
            Some(p.actor@),
            None,
            now,
        )
    }
}

impl Db {
    fn edge_index(&self, child: &str, parent: &str) -> (r: Option<usize>)
        ensures
            match r {
                Some(k) => k < self.deps@.len() && is_edge(self.deps@[k as int], child@, parent@),
                None => !has_edge(self.deps@, child@, parent@),
            },
    {
        let mut i: usize = 0;
        while i < self.deps.len()
            invariant
                i <= self.deps@.len(),
                forall|j: int| 0 <= j < i ==> !is_edge(#[trigger] self.deps@[j], child@, parent@),
            decreases self.deps@.len() - i,
        {
            if str_eq(self.deps[i].issue_id.as_str(), child) && str_eq(
                self.deps[i].depends_on_id.as_str(),
                parent,
            ) {
                return Some(i);
            }
            i = i + 1;
        }
        None
    }

    /// Creates an issue under a given id. The id must be new and every
    /// listed parent must exist.
    pub fn create_issue_with_id(
        &mut self,
        params: &CreateIssueParams,
        id: String,
        now: Timestamp,
    ) -> (r: Result<Issue, PensaError>)
        requires
            old(self).wf(),
            old(self).has_room(),
        ensures
            final(self).wf(),
            created(*old(self), *final(self), *params, id@, now, r),
    {
        if let Some(k) = self.find(id.as_str()) {
            proof {
                lemma_pos(self.issues@, k as int);
            }
            return Err(PensaError::Internal(String::from_str("issue id already exists")));
        }
        let mut j: usize = 0;
        while j < params.deps.len()
            invariant
                j <= params.deps@.len(),
                *self == *old(self),
                self.wf(),
                !has_id(self.issues@, id@),
                forall|q: int| 0 <= q < j ==> has_id(self.issues@, (#[trigger] params.deps@[q])@),
            decreases params.deps@.len() - j,
        {
            match self.find(params.deps[j].as_str()) {
                None => {
                    return Err(PensaError::NotFound(params.deps[j].clone()));
                },
                Some(k) => {
                    proof {
                        lemma_pos(self.issues@, k as int);
                    }
                },
            }
            j = j + 1;
        }
        let x = Issue {
            id: id.clone(),
            title: params.title.clone(),
            description: copy_opt(&params.description),
            issue_type: params.issue_type,
            status: Status::Open,
            priority: params.priority,
            spec: copy_opt(&params.spec),
            fixes: copy_opt(&params.fixes),
            assignee: copy_opt(&params.assignee),
            created_at: now,
            updated_at: now,
            closed_at: None,
            close_reason: None,
        };
        let out = x.copy();
        let ghost old_issues = self.issues@;
        self.issues.push(x);
        proof {
            let s = self.issues@;
            assert forall|a: int, b: int|
                0 <= a < s.len() && 0 <= b < s.len() && #[trigger] s[a].id@ == #[trigger] s[b].id@ implies a == b by {
                if a < old_issues.len() && b == old_issues.len() {
                    assert(ids_of(old_issues)[a] == id@);
                }
                if b < old_issues.len() && a == old_issues.len() {
                    assert(ids_of(old_issues)[b] == id@);
                }
            }
            assert forall|x: Seq<char>| has_id(old_issues, x) implies has_id(s, x) by {
                let q = choose|q: int| 0 <= q < ids_of(old_issues).len() && ids_of(old_issues)[q] == x;
                assert(ids_of(s)[q] == x);
            }
            assert(ids_of(s)[old_issues.len() as int] == id@);
        }
        let ghost base = self.deps@;
        let mut j: usize = 0;
        while j < params.deps.len()
            invariant
                j <= params.deps@.len(),
                self.issues@ == old_issues.push(out),
                has_id(self.issues@, id@),
                !has_id(old_issues, id@),
                ids_unique(self.issues@),
                forall|x: Seq<char>| has_id(old_issues, x) ==> has_id(self.issues@, x),
                forall|q: int| 0 <= q < params.deps@.len() ==> has_id(old_issues, (#[trigger] params.deps@[q])@),
                forall|k: int| 0 <= k < self.deps@.len() ==> dep_ok(self.issues@, #[trigger] self.deps@[k]),
                deps_unique(self.deps@),
                self.deps@.subrange(0, base.len() as int) == base,
                base.len() <= self.deps@.len(),
                forall|k: int| base.len() <= k < self.deps@.len() ==> (#[trigger] self.deps@[k]).issue_id@ == id@,
                forall|p: Seq<char>|
                    #![trigger has_edge(self.deps@, id@, p)]
                    has_edge(self.deps@, id@, p) <==> exists|q: int| 0 <= q < j && (#[trigger] params.deps@[q])@ == p,
                forall|k: int| 0 <= k < base.len() ==> (#[trigger] base[k]).issue_id@ != id@,
                self.comments@ == old(self).comments@,
                self.events@ == old(self).events@,
                self.next_event_id == old(self).next_event_id,
                old(self).wf(),
                old(self).has_room(),
                old_issues == old(self).issues@,
            decreases params.deps@.len() - j,
        {
            let ghost before = self.deps@;
            if let None = self.edge_index(id.as_str(), params.deps[j].as_str()) {
                proof {
                    assert(params.deps@[j as int]@ != id@);
                }
                self.deps.push(Dep { issue_id: id.clone(), depends_on_id: params.deps[j].clone() });
                proof {
                    assert(self.deps@.subrange(0, base.len() as int) =~= before.subrange(0, base.len() as int));
                    assert forall|p: Seq<char>|
                        has_edge(self.deps@, id@, p) <==> exists|q: int| 0 <= q < j + 1 && (#[trigger] params.deps@[q])@ == p by {
                        if has_edge(self.deps@, id@, p) {
                            let k = choose|k: int| 0 <= k < self.deps@.len() && is_edge(#[trigger] self.deps@[k], id@, p);
                            if k < before.len() {
                                assert(is_edge(before[k], id@, p));
                                assert(has_edge(before, id@, p));
                            } else {
                                assert(params.deps@[j as int]@ == p);
                            }
                        }
                        if exists|q: int| 0 <= q < j + 1 && (#[trigger] params.deps@[q])@ == p {
                            let q = choose|q: int| 0 <= q < j + 1 && (#[trigger] params.deps@[q])@ == p;
                            if q < j {
                                assert(has_edge(before, id@, p));
                                let k = choose|k: int| 0 <= k < before.len() && is_edge(#[trigger] before[k], id@, p);
                                assert(is_edge(self.deps@[k], id@, p));
                            } else {
                                assert(is_edge(self.deps@[before.len() as int], id@, p));
                            }
                        }
                    }
                }
            } else {
                proof {
                    assert forall|p: Seq<char>|
                        has_edge(self.deps@, id@, p) <==> exists|q: int| 0 <= q < j + 1 && (#[trigger] params.deps@[q])@ == p by {
                        if exists|q: int| 0 <= q < j + 1 && (#[trigger] params.deps@[q])@ == p {
                            let q = choose|q: int| 0 <= q < j + 1 && (#[trigger] params.deps@[q])@ == p;
                            if q < j {
                                assert(has_edge(before, id@, p));
                                let k = choose|k: int| 0 <= k < before.len() && is_edge(#[trigger] before[k], id@, p);
                                assert(is_edge(self.deps@[k], id@, p));
                            }
                        }
                    }
                }
            }
            j = j + 1;
        }
        proof {
            assert forall|q: int| 0 <= q < base.len() implies (#[trigger] base[q]).issue_id@ != id@ by {
                assert(dep_ok(old_issues, base[q]));
            }
            assert forall|q: int| 0 <= q < self.deps@.len() implies (#[trigger] self.deps@[q]).depends_on_id@ != id@ by {
                if q < base.len() {
                    assert(self.deps@[q] == self.deps@.subrange(0, base.len() as int)[q]);
                    assert(dep_ok(old_issues, base[q]));
                } else {
                    assert(dep_ok(self.issues@, self.deps@[q]));
                    assert(self.deps@[q].issue_id@ == id@);
                }
            }
            lemma_fresh_edges_acyclic(base, self.deps@, id@);
            assert forall|q: int| 0 <= q < self.comments@.len() implies has_id(self.issues@, (#[trigger] self.comments@[q]).issue_id@) by {
                assert(has_id(old_issues, self.comments@[q].issue_id@));
            }
            assert forall|q: int| 0 <= q < self.events@.len() implies has_id(self.issues@, (#[trigger] self.events@[q]).issue_id@) by {
                assert(has_id(old_issues, self.events@[q].issue_id@));
            }
        }
        self.record_event(id.as_str(), "created", Some(params.actor.as_str()), None, now);
        proof {
            assert(self.events@ =~= old(self).events@.push(self.events@.last()));
        }
        Ok(out)
    }
}

impl Db {
    /// Records that `child` is blocked by `parent`, unless `parent` already
    /// reaches `child`, which would close a cycle.
    pub fn add_dep(&mut self, child: &str, parent: &str, actor: &str, now: Timestamp) -> (r: Result<
        (),
        PensaError,
    >)
        requires
            old(self).wf(),
            old(self).has_room(),
        ensures
            final(self).wf(),
            acyclic(old(self).deps@) ==> acyclic(final(self).deps@),
            !has_id(old(self).issues@, child@) ==> not_found(r, child@) && *final(self) == *old(self),
            has_id(old(self).issues@, child@) && !has_id(old(self).issues@, parent@) ==> not_found(r, parent@)
                && *final(self) == *old(self),
            has_id(old(self).issues@, child@) && has_id(old(self).issues@, parent@) && reaches(
                old(self).deps@,
                parent@,
                child@,
            ) ==> r == Err::<(), PensaError>(PensaError::CycleDetected) && *final(self) == *old(self),
            has_id(old(self).issues@, child@) && has_id(old(self).issues@, parent@) && !reaches(
                old(self).deps@,
                parent@,
                child@,
            ) && has_edge(old(self).deps@, child@, parent@) ==> r is Err && r->Err_0 is Internal
                && *final(self) == *old(self),
            has_id(old(self).issues@, child@) && has_id(old(self).issues@, parent@) && !reaches(
                old(self).deps@,
                parent@,
                child@,
            ) && !has_edge(old(self).deps@, child@, parent@) ==> {
                &&& r is Ok
                &&& final(self).issues@ == old(self).issues@
                &&& final(self).deps@.len() == old(self).deps@.len() + 1
                &&& final(self).deps@.drop_last() == old(self).deps@
                &&& is_edge(final(self).deps@.last(), child@, parent@)
                &&& final(self).comments@ == old(self).comments@
                &&& final(self).next_event_id == old(self).next_event_id + 1
                &&& final(self).events@.drop_last() == old(self).events@
                &&& is_event(
                    final(self).events@.last(),
                    old(self).next_event_id as int,
                    child@,
                    "dep_added"@,
                    Some(actor@),
                    Some("depends on "@ + parent@),
                    now,
                )
            },
    {
        match self.find(child) {
            None => {
                return Err(PensaError::NotFound(child.to_owned()));
            },
            Some(k) => {
                proof {
                    lemma_pos(self.issues@, k as int);
                }
            },
        }
        match self.find(parent) {
            None => {
                return Err(PensaError::NotFound(parent.to_owned()));
            },
            Some(k) => {
                proof {
                    lemma_pos(self.issues@, k as int);
                }
            },
        }
        if reaches_exec(&self.deps, parent, child) {
            return Err(PensaError::CycleDetected);
        }
        if let Some(k) = self.edge_index(child, parent) {
            return Err(PensaError::Internal(String::from_str("dependency already exists")));
        }
        proof {
            if child@ == parent@ {
                lemma_reaches_self(self.deps@, child@);
            }
        }
        let e = Dep { issue_id: child.to_owned(), depends_on_id: parent.to_owned() };
        let ghost old_deps = self.deps@;
        proof {
            if acyclic(old_deps) {
                lemma_add_edge_acyclic(old_deps, e);
            }
        }
        self.deps.push(e);
        proof {
            let d = self.deps@;
            assert forall|i: int, j: int|
                0 <= i < d.len() && 0 <= j < d.len() && #[trigger] d[i].issue_id@ == #[trigger] d[j].issue_id@
                    && d[i].depends_on_id@ == d[j].depends_on_id@ implies i == j by {
                if i < old_deps.len() && j == old_deps.len() {
                    assert(is_edge(old_deps[i], child@, parent@));
                }
                if j < old_deps.len() && i == old_deps.len() {
                    assert(is_edge(old_deps[j], child@, parent@));
                }
            }
            assert(d.drop_last() =~= old_deps);
        }
        let detail = String::from_str("depends on ").concat(parent);
        self.record_event(child, "dep_added", Some(actor), Some(detail), now);
        proof {
            assert(self.events@.drop_last() =~= old(self).events@);
        }
        Ok(())
    }

    /// Removes the edge from `child` to `parent`.
    pub fn remove_dep(&mut self, child: &str, parent: &str, actor: &str, now: Timestamp) -> (r: Result<
        (),
        PensaError,
    >)
        requires
            old(self).wf(),
            old(self).has_room(),
        ensures
            final(self).wf(),
            acyclic(old(self).deps@) ==> acyclic(final(self).deps@),
            !has_edge(old(self).deps@, child@, parent@) ==> *final(self) == *old(self) && match r {
                Err(PensaError::NotFound(m)) => m@ == "dep "@ + child@ + " -> "@ + parent@,
                _ => false,
            },
            has_edge(old(self).deps@, child@, parent@) ==> {
                &&& r is Ok
                &&& final(self).issues@ == old(self).issues@
                &&& final(self).deps@.len() + 1 == old(self).deps@.len()
                &&& !has_edge(final(self).deps@, child@, parent@)
                &&& exists|k: int|
                    0 <= k < old(self).deps@.len() && final(self).deps@ == old(self).deps@.remove(k)
                &&& final(self).comments@ == old(self).comments@
                &&& final(self).next_event_id == old(self).next_event_id + 1
                &&& final(self).events@.drop_last() == old(self).events@
                &&& is_event(
                    final(self).events@.last(),
                    old(self).next_event_id as int,
                    child@,
                    "dep_removed"@,
                    Some(actor@),
                    Some("no longer depends on "@ + parent@),
                    now,
                )
            },
    {
        let k = match self.edge_index(child, parent) {
            None => {
                let msg = String::from_str("dep ").concat(child).concat(" -> ").concat(parent);
                return Err(PensaError::NotFound(msg));
            },
            Some(k) => k,
        };
        let ghost old_deps = self.deps@;
        self.deps.remove(k);
        proof {
            let d = self.deps@;
            assert(dep_ok(self.issues@, old_deps[k as int]));
            assert forall|i: int| 0 <= i < d.len() implies dep_ok(self.issues@, #[trigger] d[i]) by {
                if i < k {
                    assert(d[i] == old_deps[i]);
                } else {
                    assert(d[i] == old_deps[i + 1]);
                }
            }
            assert forall|i: int, j: int|
                0 <= i < d.len() && 0 <= j < d.len() && #[trigger] d[i].issue_id@ == #[trigger] d[j].issue_id@
                    && d[i].depends_on_id@ == d[j].depends_on_id@ implies i == j by {
                let i0 = if i < k { i } else { i + 1 };
                let j0 = if j < k { j } else { j + 1 };
                assert(d[i] == old_deps[i0] && d[j] == old_deps[j0]);
            }
            assert forall|x: Seq<char>, y: Seq<char>| has_edge(d, x, y) implies has_edge(old_deps, x, y) by {
                let m = choose|m: int| 0 <= m < d.len() && is_edge(#[trigger] d[m], x, y);
                let m0 = if m < k { m } else { m + 1 };
                assert(d[m] == old_deps[m0]);
            }
            if acyclic(old_deps) {
                lemma_sub_acyclic(d, old_deps);
            }
            if has_edge(d, child@, parent@) {
                let m = choose|m: int| 0 <= m < d.len() && is_edge(#[trigger] d[m], child@, parent@);
                let m0 = if m < k { m } else { m + 1 };
                assert(d[m] == old_deps[m0]);
            }
        }
        let detail = String::from_str("no longer depends on ").concat(parent);
        self.record_event(child, "dep_removed", Some(actor), Some(detail), now);
        proof {
            assert(self.events@.drop_last() =~= old(self).events@);
        }
        Ok(())
    }
}

} // verus!
