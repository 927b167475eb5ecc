use vstd::prelude::*;
use vstd::string::StringExecFns;

use crate::error::PensaError;
use crate::records::{opt_view, CountGroup, CountResult, GroupedCountResult, Issue, StatusEntry};
use crate::store::Db;
use crate::types::{issue_type_text, priority_text, status_text, str_eq, IssueType, Status};

verus! {

/// A count of issues: the open total, or totals grouped by fields.
#[derive(Debug)]
pub enum CountOutcome {
    Total(CountResult),
    Grouped(GroupedCountResult),
}

/// The issues among the first `n` that are not closed.
pub open spec fn open_count(s: Seq<Issue>, n: int) -> int
    decreases n,
{
    if n <= 0 {
        0
    } else {
        open_count(s, n - 1) + if s[n - 1].status != Status::Closed {
            1int
        } else {
            0int
        }
    }
}

pub open spec fn is_group_field(f: Seq<char>) -> bool {
    f == "status"@ || f == "priority"@ || f == "issue_type"@ || f == "assignee"@
}

/// The text of one grouping field of an issue; no assignee reads as empty.
pub open spec fn field_text(i: Issue, f: Seq<char>) -> Seq<char> {
    if f == "status"@ {
        status_text(i.status)
    } else if f == "priority"@ {
        priority_text(i.priority)
    } else if f == "issue_type"@ {
        issue_type_text(i.issue_type)
    } else {
        match opt_view(i.assignee) {
            Some(a) => a,
            None => Seq::empty(),
        }
    }
}

/// The group key of an issue: its field texts joined by `/`.
pub open spec fn group_key(i: Issue, fs: Seq<Seq<char>>) -> Seq<char>
    decreases fs.len(),
{
    if fs.len() == 0 {
        Seq::empty()
    } else if fs.len() == 1 {
        field_text(i, fs[0])
    } else {
        group_key(i, fs.drop_last()) + "/"@ + field_text(i, fs.last())
    }
}

/// How many of the first `n` issues have this type and status.
pub open spec fn kind_count(s: Seq<Issue>, t: IssueType, st: Status, n: int) -> int
    decreases n,
{
    if n <= 0 {
        0
    } else {
        kind_count(s, t, st, n - 1) + if s[n - 1].issue_type == t && s[n - 1].status == st {
            1int
        } else {
            0int
        }
    }
}

pub open spec fn field_views(v: Seq<String>) -> Seq<Seq<char>> {
    v.map_values(|s: String| s@)
}

proof fn lemma_count_witness(s: Seq<Issue>, fs: Seq<Seq<char>>, t: Seq<Seq<char>>, n: int)
    requires
        tuple_count(s, fs, t, n) >= 1,
        n <= s.len(),
    ensures
        exists|q: int| 0 <= q < n && tuple_of(#[trigger] s[q], fs) == t,
    decreases n,
{
    if n > 0 && tuple_of(s[n - 1], fs) != t {
        lemma_count_witness(s, fs, t, n - 1);
    }
}

/// The values of the grouping fields of an issue, in order.
pub open spec fn tuple_of(i: Issue, fs: Seq<Seq<char>>) -> Seq<Seq<char>> {
    fs.map_values(|f: Seq<char>| field_text(i, f))
}

/// How many of the first `n` issues have these grouping values.
pub open spec fn tuple_count(s: Seq<Issue>, fs: Seq<Seq<char>>, t: Seq<Seq<char>>, n: int) -> int
    decreases n,
{
    if n <= 0 {
        0
    } else {
        tuple_count(s, fs, t, n - 1) + if tuple_of(s[n - 1], fs) == t {
            1int
        } else {
            0int
        }
    }
}

/// Group `a` stands for the combination of values `ts[a]`: one group per
/// combination that some issue has, each counting the issues that have it
/// (at least one), keyed by its values joined with `/`.
pub open spec fn grouped_by(s: Seq<Issue>, fs: Seq<Seq<char>>, g: Seq<CountGroup>, ts: Seq<Seq<Seq<char>>>) -> bool {
    &&& ts.len() == g.len()
    &&& forall|a: int| 0 <= a < g.len() ==> (#[trigger] g[a]).count == tuple_count(s, fs, ts[a], s.len() as int)
        && g[a].count >= 1
    &&& forall|a: int, q: int|
        0 <= a < g.len() && 0 <= q < s.len() && tuple_of(#[trigger] s[q], fs) == #[trigger] ts[a] ==> g[a].key@ == group_key(s[q], fs)
    &&& forall|a: int, b: int| 0 <= a < b < ts.len() ==> #[trigger] ts[a] != #[trigger] ts[b]
    &&& forall|q: int| 0 <= q < s.len() ==> exists|a: int| 0 <= a < ts.len() && #[trigger] ts[a] == tuple_of(#[trigger] s[q], fs)
}

/// The groups count exactly the issues of each combination of values
/// present, each combination once.
pub open spec fn groups_ok(s: Seq<Issue>, fs: Seq<Seq<char>>, g: Seq<CountGroup>) -> bool {
    exists|ts: Seq<Seq<Seq<char>>>| #[trigger] grouped_by(s, fs, g, ts)
}

proof fn lemma_key_by_tuple(i1: Issue, i2: Issue, fs: Seq<Seq<char>>)
    requires
        tuple_of(i1, fs) == tuple_of(i2, fs),
    ensures
        group_key(i1, fs) == group_key(i2, fs),
    decreases fs.len(),
{
    if fs.len() > 0 {
        let d = fs.drop_last();
        assert(tuple_of(i1, d) =~= tuple_of(i1, fs).drop_last());
        assert(tuple_of(i2, d) =~= tuple_of(i2, fs).drop_last());
        lemma_key_by_tuple(i1, i2, d);
        assert(tuple_of(i1, fs)[fs.len() - 1] == tuple_of(i2, fs)[fs.len() - 1]);
        if fs.len() == 1 {
            assert(tuple_of(i1, fs)[0] == tuple_of(i2, fs)[0]);
        }
    }
}

fn tuple_exec(i: &Issue, fs: &Vec<String>) -> (r: Vec<String>)
    ensures
        field_views(r@) == tuple_of(*i, field_views(fs@)),
{
    let mut out: Vec<String> = Vec::new();
    let mut k: usize = 0;
    while k < fs.len()
        invariant
            k <= fs@.len(),
            out@.len() == k,
            forall|q: int| 0 <= q < k ==> #[trigger] out@[q]@ == field_text(*i, fs@[q]@),
        decreases fs@.len() - k,
    {
        out.push(field_text_exec(i, fs[k].as_str()));
        k = k + 1;
    }
    proof {
        assert(field_views(out@) =~= tuple_of(*i, field_views(fs@)));
    }
    out
}

fn tuples_eq(a: &Vec<String>, b: &Vec<String>) -> (r: bool)
    ensures
        r == (field_views(a@) == field_views(b@)),
{
    if a.len() != b.len() {
        proof {
            assert(field_views(a@).len() != field_views(b@).len());
        }
        return false;
    }
    let mut k: usize = 0;
    while k < a.len()
        invariant
            a@.len() == b@.len(),
            k <= a@.len(),
            forall|q: int| 0 <= q < k ==> #[trigger] a@[q]@ == b@[q]@,
        decreases a@.len() - k,
    {
        if a[k] != b[k] {
            proof {
                assert(field_views(a@)[k as int] != field_views(b@)[k as int]);
            }
            return false;
        }
        k = k + 1;
    }
    proof {
        assert(field_views(a@) =~= field_views(b@));
    }
    true
}

fn field_text_exec(i: &Issue, f: &str) -> (r: String)
    ensures
        r@ == field_text(*i, f@),
{
    if str_eq(f, "status") {
        String::from_str(i.status.as_str())
    } else if str_eq(f, "priority") {
        String::from_str(i.priority.as_str())
    } else if str_eq(f, "issue_type") {
        String::from_str(i.issue_type.as_str())
    } else {
        match &i.assignee {
            Some(a) => a.clone(),
            None => String::new(),
        }
    }
}

fn group_key_exec(i: &Issue, fs: &Vec<String>) -> (r: String)
    ensures
        r@ == group_key(*i, field_views(fs@)),
{
    let mut out = String::new();
    let mut k: usize = 0;
    while k < fs.len()
        invariant
            k <= fs@.len(),
            out@ == group_key(*i, field_views(fs@).take(k as int)),
        decreases fs@.len() - k,
    {
        let ghost v = field_views(fs@);
        proof {
            assert(v.take(k + 1).drop_last() =~= v.take(k as int));
        }
        let t = field_text_exec(i, fs[k].as_str());
        if k == 0 {
            out = t;
        } else {
            out = out.concat("/").concat(t.as_str());
        }
        k = k + 1;
    }
    proof {
        let v = field_views(fs@);
        assert(v.take(v.len() as int) =~= v);
    }
    out
}

impl Db {
    fn tally(&self, t: IssueType) -> (r: (i64, i64, i64))
        requires
            self.issues@.len() < i64::MAX,
        ensures
            r.0 == kind_count(self.issues@, t, Status::Open, self.issues@.len() as int),
            r.1 == kind_count(self.issues@, t, Status::InProgress, self.issues@.len() as int),
            r.2 == kind_count(self.issues@, t, Status::Closed, self.issues@.len() as int),
            0 <= r.0 && 0 <= r.1 && 0 <= r.2 && r.0 + r.1 + r.2 <= self.issues@.len(),
    {
        let mut o: i64 = 0;
        let mut p: i64 = 0;
        let mut c: i64 = 0;
        let mut j: usize = 0;
        while j < self.issues.len()
            invariant
                j <= self.issues@.len(),
                self.issues@.len() < i64::MAX,
                o == kind_count(self.issues@, t, Status::Open, j as int),
                p == kind_count(self.issues@, t, Status::InProgress, j as int),
                c == kind_count(self.issues@, t, Status::Closed, j as int),
                0 <= o && 0 <= p && 0 <= c && o + p + c <= j,
            decreases self.issues@.len() - j,
        {
            let i = &self.issues[j];
            if i.issue_type == t {
                match i.status {
                    Status::Open => {
                        o = o + 1;
                    },
                    Status::InProgress => {
                        p = p + 1;
                    },
                    Status::Closed => {
                        c = c + 1;
                    },
                }
            }
            j = j + 1;
        }
        (o, p, c)
    }

    /// With no fields, the number of issues that are not closed; otherwise
    /// the number of issues of each combination of the fields' values.
    pub fn count_issues(&self, group_by: &Vec<String>) -> (r: Result<CountOutcome, PensaError>)
        requires
            self.issues@.len() < i64::MAX,
        ensures
            group_by@.len() == 0 ==> match r {
                Ok(CountOutcome::Total(c)) => c.count == open_count(self.issues@, self.issues@.len() as int),
                _ => false,
            },
            group_by@.len() > 0 && !(forall|j: int| 0 <= j < group_by@.len() ==> is_group_field(#[trigger] group_by@[j]@))
                ==> r is Err && r->Err_0 is Internal,
            group_by@.len() > 0 && (forall|j: int| 0 <= j < group_by@.len() ==> is_group_field(#[trigger] group_by@[j]@))
                ==> match r {
                Ok(CountOutcome::Grouped(g)) => g.total == self.issues@.len() && groups_ok(
                    self.issues@,
                    field_views(group_by@),
                    g.groups@,
                ),
                _ => false,
            },
    {
        let s = &self.issues;
        if group_by.len() == 0 {
            let mut n: i64 = 0;
            let mut j: usize = 0;
            while j < s.len()
                invariant
                    j <= s@.len(),
                    s@.len() < i64::MAX,
                    n == open_count(s@, j as int),
                    0 <= n <= j,
                decreases s@.len() - j,
            {
                if s[j].status != Status::Closed {
                    n = n + 1;
                }
                j = j + 1;
            }
            return Ok(CountOutcome::Total(CountResult { count: n }));
        }
        let mut k: usize = 0;
        while k < group_by.len()
            invariant
                k <= group_by@.len(),
                forall|j: int| 0 <= j < k ==> is_group_field(#[trigger] group_by@[j]@),
            decreases group_by@.len() - k,
        {
            let f = group_by[k].as_str();
            if !(str_eq(f, "status") || str_eq(f, "priority") || str_eq(f, "issue_type") || str_eq(f, "assignee")) {
                return Err(PensaError::Internal(String::from_str("invalid group_by field: ").concat(f)));
            }
            k = k + 1;
        }
        let ghost fs = field_views(group_by@);
        let mut groups: Vec<CountGroup> = Vec::new();
        let mut tuples: Vec<Vec<String>> = Vec::new();
        let ghost mut ts: Seq<Seq<Seq<char>>> = Seq::empty();
        let mut j: usize = 0;
        while j < s.len()
            invariant
                j <= s@.len(),
                s@.len() < i64::MAX,
                fs == field_views(group_by@),
                groups@.len() == tuples@.len(),
                ts.len() == tuples@.len(),
                forall|a: int| 0 <= a < ts.len() ==> #[trigger] ts[a] == field_views(tuples@[a]@),
                forall|a: int| 0 <= a < groups@.len() ==> (#[trigger] groups@[a]).count == tuple_count(s@, fs, ts[a], j as int)
                    && 1 <= groups@[a].count <= j,
                forall|a: int, q: int|
                    0 <= a < groups@.len() && 0 <= q < j && tuple_of(#[trigger] s@[q], fs) == #[trigger] ts[a]
                        ==> groups@[a].key@ == group_key(s@[q], fs),
                forall|a: int, b: int| 0 <= a < b < ts.len() ==> #[trigger] ts[a] != #[trigger] ts[b],
                forall|q: int| 0 <= q < j ==> exists|a: int| 0 <= a < ts.len() && #[trigger] ts[a] == tuple_of(#[trigger] s@[q], fs),
                forall|t: Seq<Seq<char>>| #![trigger tuple_count(s@, fs, t, j as int)]
                    (forall|a: int| 0 <= a < ts.len() ==> #[trigger] ts[a] != t) ==> tuple_count(s@, fs, t, j as int) == 0,
            decreases s@.len() - j,
        {
            let tup = tuple_exec(&s[j], group_by);
            let ghost tv = field_views(tup@);
            let mut a: usize = 0;
            let mut found = false;
            while a < tuples.len() && !found
                invariant
                    a <= tuples@.len(),
                    ts.len() == tuples@.len(),
                    forall|c: int| 0 <= c < ts.len() ==> #[trigger] ts[c] == field_views(tuples@[c]@),
                    tv == field_views(tup@),
                    found ==> a < tuples@.len() && ts[a as int] == tv,
                    !found ==> forall|c: int| 0 <= c < a ==> #[trigger] ts[c] != tv,
                decreases tuples@.len() - a, if found { 0int } else { 1int },
            {
                if tuples_eq(&tuples[a], &tup) {
                    found = true;
                } else {
                    a = a + 1;
                }
            }
            let ghost before = groups@;
            let ghost tsb = ts;
            if found {
                let c = groups[a].count;
                let g = CountGroup { key: groups[a].key.clone(), count: c + 1 };
                groups.set(a, g);
            } else {
                proof {
                    assert(tuple_count(s@, fs, tv, j as int) == 0);
                }
                let key = group_key_exec(&s[j], group_by);
                groups.push(CountGroup { key, count: 1 });
                tuples.push(tup);
                proof {
                    ts = ts.push(tv);
                }
            }
            proof {
                let aa = a as int;
                assert(ts[aa] == tv);
                assert forall|c: int| 0 <= c < ts.len() implies #[trigger] ts[c] == field_views(tuples@[c]@) by {
                }
                assert forall|b: int| 0 <= b < groups@.len() implies (#[trigger] groups@[b]).count == tuple_count(s@, fs, ts[b], j + 1)
                    && 1 <= groups@[b].count <= j + 1 by {
                    if b < before.len() && b != aa {
                        assert(groups@[b] == before[b]);
                        assert(ts[b] == tsb[b]);
                    }
                }
                assert forall|b: int, q: int|
                    0 <= b < groups@.len() && 0 <= q < j + 1 && tuple_of(#[trigger] s@[q], fs) == #[trigger] ts[b]
                        implies groups@[b].key@ == group_key(s@[q], fs) by {
                    if b < before.len() {
                        assert(ts[b] == tsb[b]);
                        assert(groups@[b].key@ == before[b].key@);
                        if q == j {
                            assert(tsb[b] == tv);
                            assert(found && b == aa);
                            assert(before[b].count >= 1);
                            lemma_count_witness(s@, fs, tsb[b], j as int);
                            let q0 = choose|q0: int| 0 <= q0 < j && tuple_of(#[trigger] s@[q0], fs) == tsb[b];
                            lemma_key_by_tuple(s@[q0], s@[q], fs);
                        }
                    } else {
                        if q < j {
                            let c = choose|c: int| 0 <= c < tsb.len() && #[trigger] tsb[c] == tuple_of(s@[q], fs);
                            assert(tsb[c] != tv);
                        }
                        lemma_key_by_tuple(s@[j as int], s@[q], fs);
                    }
                }
                assert forall|q: int| 0 <= q < j + 1 implies exists|b: int| 0 <= b < ts.len() && #[trigger] ts[b] == tuple_of(#[trigger] s@[q], fs) by {
                    if q < j {
                        let b = choose|b: int| 0 <= b < tsb.len() && #[trigger] tsb[b] == tuple_of(s@[q], fs);
                        assert(ts[b] == tsb[b]);
                    } else {
                        assert(ts[aa] == tuple_of(s@[q], fs));
                    }
                }
                assert forall|t: Seq<Seq<char>>| #![trigger tuple_count(s@, fs, t, j + 1)]
                    (forall|b: int| 0 <= b < ts.len() ==> #[trigger] ts[b] != t) implies tuple_count(s@, fs, t, j + 1) == 0 by {
                    assert(ts[aa] != t);
                    assert forall|b: int| 0 <= b < tsb.len() implies #[trigger] tsb[b] != t by {
                        assert(ts[b] == tsb[b]);
                    }
                    assert(tuple_count(s@, fs, t, j as int) == 0);
                }
                assert forall|x: int, y: int| 0 <= x < y < ts.len() implies #[trigger] ts[x] != #[trigger] ts[y] by {
                    if y >= tsb.len() {
                        assert(ts[x] == tsb[x]);
                    } else {
                        assert(ts[x] == tsb[x] && ts[y] == tsb[y]);
                    }
                }
            }
            j = j + 1;
        }
        proof {
            assert(grouped_by(s@, fs, groups@, ts));
        }
        Ok(CountOutcome::Grouped(GroupedCountResult { total: s.len() as i64, groups }))
    }

    /// For each issue type present, in the order bug, chore, task, test, how
    /// many issues of that type are open, in progress and closed.
    pub fn project_status(&self) -> (r: Result<Vec<StatusEntry>, PensaError>)
        requires
            self.issues@.len() < i64::MAX,
        ensures
            r is Ok,
            forall|a: int| 0 <= a < r->Ok_0@.len() ==> {
                let e = #[trigger] r->Ok_0@[a];
                &&& e.open == kind_count(self.issues@, e.issue_type, Status::Open, self.issues@.len() as int)
                &&& e.in_progress == kind_count(self.issues@, e.issue_type, Status::InProgress, self.issues@.len() as int)
                &&& e.closed == kind_count(self.issues@, e.issue_type, Status::Closed, self.issues@.len() as int)
                &&& e.open + e.in_progress + e.closed > 0
            },
            forall|a: int, b: int| 0 <= a < b < r->Ok_0@.len() ==> type_rank((#[trigger] r->Ok_0@[a]).issue_type) < type_rank((#[trigger] r->Ok_0@[b]).issue_type),
            forall|t: IssueType| kind_count(self.issues@, t, Status::Open, self.issues@.len() as int)
                + kind_count(self.issues@, t, Status::InProgress, self.issues@.len() as int)
                + kind_count(self.issues@, t, Status::Closed, self.issues@.len() as int) > 0
                ==> exists|a: int| 0 <= a < r->Ok_0@.len() && (#[trigger] r->Ok_0@[a]).issue_type == t,
    {
        let mut out: Vec<StatusEntry> = Vec::new();
        let (o, p, c) = self.tally(IssueType::Bug);
        if o + p + c > 0 {
            out.push(StatusEntry { issue_type: IssueType::Bug, open: o, in_progress: p, closed: c });
        }
        let ghost n1 = out@.len();
        let (o, p, c) = self.tally(IssueType::Chore);
        if o + p + c > 0 {
            out.push(StatusEntry { issue_type: IssueType::Chore, open: o, in_progress: p, closed: c });
        }
        let ghost n2 = out@.len();
        let (o, p, c) = self.tally(IssueType::Task);
        if o + p + c > 0 {
            out.push(StatusEntry { issue_type: IssueType::Task, open: o, in_progress: p, closed: c });
        }
        let ghost n3 = out@.len();
        let (o, p, c) = self.tally(IssueType::Test);
        if o + p + c > 0 {
            out.push(StatusEntry { issue_type: IssueType::Test, open: o, in_progress: p, closed: c });
        }
        proof {
            let n = self.issues@.len() as int;
            assert forall|t: IssueType| kind_count(self.issues@, t, Status::Open, n)
                + kind_count(self.issues@, t, Status::InProgress, n)
                + kind_count(self.issues@, t, Status::Closed, n) > 0
                implies exists|a: int| 0 <= a < out@.len() && (#[trigger] out@[a]).issue_type == t by {
                match t {
                    IssueType::Bug => { assert(out@[0].issue_type == t); },
                    IssueType::Chore => { assert(out@[n1 as int].issue_type == t); },
                    IssueType::Task => { assert(out@[n2 as int].issue_type == t); },
                    IssueType::Test => { assert(out@[n3 as int].issue_type == t); },
                }
            }
        }
        Ok(out)
    }
}

/// The position of an issue type in the order of its wire text.
pub open spec fn type_rank(t: IssueType) -> int {
    match t {
        IssueType::Bug => 0,
        IssueType::Chore => 1,
        IssueType::Task => 2,
        IssueType::Test => 3,
    }
}

} // verus!
