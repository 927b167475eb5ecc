use vstd::prelude::*;
use vstd::string::StringExecFns;

use crate::error::PensaError;
use crate::records::{Issue, Timestamp};
use crate::store::{has_id, lemma_pos_pub, Db};
use crate::text::decimal;
use crate::types::{str_eq, Status};

verus! {

/// How long a claim may go without being renewed before the diagnosis
/// calls it stale: one day.
pub const STALE_CLAIM_SECONDS: i64 = 86_400;

/// One problem that the diagnosis found.
#[derive(Debug)]
pub struct Finding {
    pub check: String,
    pub message: String,
    pub ids: Vec<String>,
}

/// What the diagnosis found and how many repairs it made.
#[derive(Debug)]
pub struct DoctorReport {
    pub findings: Vec<Finding>,
    pub fixes_applied: u64,
}

/// The issue at `j` has been claimed at or after `since`.
pub open spec fn claimed_since(db: Db, j: int, since: int) -> bool {
    exists|e: int|
        0 <= e < db.events@.len() && (#[trigger] db.events@[e]).issue_id@ == db.issues@[j].id@
            && db.events@[e].event_type@ == "claimed"@ && db.events@[e].created_at >= since
}

/// An issue in progress that nobody has claimed within the threshold.
pub open spec fn is_stale(db: Db, j: int, now: Timestamp) -> bool {
    db.issues@[j].status == Status::InProgress && !claimed_since(db, j, now - STALE_CLAIM_SECONDS)
}

/// An issue whose `fixes` names an issue that does not exist.
pub open spec fn is_orphan(db: Db, j: int) -> bool {
    db.issues@[j].fixes is Some && !has_id(db.issues@, db.issues@[j].fixes->Some_0@)
}

/// `ids` are the ids of the issues that `pick` selects, in stored order.
pub open spec fn picked_ids(db: Db, pick: spec_fn(int) -> bool, ids: Seq<Seq<char>>) -> bool {
    exists|ks: Seq<int>|
        {
            &&& ks.len() == ids.len()
            &&& forall|a: int, b: int| 0 <= a < b < ks.len() ==> #[trigger] ks[a] < #[trigger] ks[b]
            &&& forall|a: int| 0 <= a < ks.len() ==> 0 <= #[trigger] ks[a] < db.issues@.len() && pick(ks[a])
                && ids[a] == db.issues@[ks[a]].id@
            &&& forall|j: int| 0 <= j < db.issues@.len() && pick(j) ==> ks.contains(j)
        }
}

/// The number of ids that the findings name, all told.
pub open spec fn ids_named(fs: Seq<Finding>) -> int
    decreases fs.len(),
{
    if fs.len() == 0 {
        0
    } else {
        ids_named(fs.drop_last()) + fs.last().ids@.len()
    }
}

proof fn lemma_picked(db: Db, pick: spec_fn(int) -> bool, ids: Seq<Seq<char>>)
    requires
        db.wf(),
        picked_ids(db, pick, ids),
    ensures
        forall|c: int| 0 <= c < ids.len() ==> has_id(db.issues@, #[trigger] ids[c]),
        forall|j: int| 0 <= j < db.issues@.len() && pick(j) ==> ids.contains(#[trigger] db.issues@[j].id@),
{
    let ks = choose|ks: Seq<int>|
        {
            &&& ks.len() == ids.len()
            &&& forall|a: int, b: int| 0 <= a < b < ks.len() ==> #[trigger] ks[a] < #[trigger] ks[b]
            &&& forall|a: int| 0 <= a < ks.len() ==> 0 <= #[trigger] ks[a] < db.issues@.len() && pick(ks[a])
                && ids[a] == db.issues@[ks[a]].id@
            &&& forall|j: int| 0 <= j < db.issues@.len() && pick(j) ==> ks.contains(j)
        };
    assert forall|c: int| 0 <= c < ids.len() implies has_id(db.issues@, #[trigger] ids[c]) by {
        assert(0 <= ks[c] < db.issues@.len());
        lemma_pos_pub(db.issues@, ks[c]);
    }
    assert forall|j: int| 0 <= j < db.issues@.len() && pick(j) implies ids.contains(#[trigger] db.issues@[j].id@) by {
        assert(ks.contains(j));
        let a = choose|a: int| 0 <= a < ks.len() && ks[a] == j;
        assert(ids[a] == db.issues@[j].id@);
    }
}

/// Every issue with this id is open with no assignee.
pub open spec fn released_in(s: Seq<Issue>, id: Seq<char>) -> bool {
    forall|k: int| 0 <= k < s.len() && (#[trigger] s[k]).id@ == id ==> s[k].status == Status::Open && s[k].assignee is None
}

/// Every issue with this id fixes nothing.
pub open spec fn unfixed_in(s: Seq<Issue>, id: Seq<char>) -> bool {
    forall|k: int| 0 <= k < s.len() && (#[trigger] s[k]).id@ == id ==> s[k].fixes is None
}

pub open spec fn id_views(v: Seq<String>) -> Seq<Seq<char>> {
    v.map_values(|s: String| s@)
}

impl Db {
    fn claimed_since_exec(&self, j: usize, since: i128) -> (r: bool)
        requires
            j < self.issues@.len(),
        ensures
            r == claimed_since(*self, j as int, since as int),
    {
        let id = self.issues[j].id.as_str();
        let mut e: usize = 0;
        while e < self.events.len()
            invariant
                j < self.issues@.len(),
                id@ == self.issues@[j as int].id@,
                e <= self.events@.len(),
                forall|q: int| 0 <= q < e ==> !((#[trigger] self.events@[q]).issue_id@ == id@
                    && self.events@[q].event_type@ == "claimed"@ && self.events@[q].created_at >= since),
            decreases self.events@.len() - e,
        {
            let ev = &self.events[e];
            if str_eq(ev.issue_id.as_str(), id) && str_eq(ev.event_type.as_str(), "claimed")
                && ev.created_at as i128 >= since {
                return true;
            }
            e = e + 1;
        }
        false
    }

    /// The ids of the stale claims and of the issues with orphaned `fixes`.
    pub fn diagnose(&self, now: Timestamp) -> (r: (Vec<String>, Vec<String>))
        requires
            self.wf(),
        ensures
            picked_ids(*self, |j: int| is_stale(*self, j, now), id_views(r.0@)),
            picked_ids(*self, |j: int| is_orphan(*self, j), id_views(r.1@)),
            r.0@.len() <= self.issues@.len(),
            r.1@.len() <= self.issues@.len(),
    {
        let mut stale: Vec<String> = Vec::new();
        let mut orphan: Vec<String> = Vec::new();
        let ghost mut ks: Seq<int> = Seq::empty();
        let ghost mut ko: Seq<int> = Seq::empty();
        let since = now as i128 - STALE_CLAIM_SECONDS as i128;
        let mut j: usize = 0;
        while j < self.issues.len()
            invariant
                self.wf(),
                j <= self.issues@.len(),
                since == now - STALE_CLAIM_SECONDS,
                ks.len() == stale@.len(),
                forall|a: int, b: int| 0 <= a < b < ks.len() ==> #[trigger] ks[a] < #[trigger] ks[b],
                forall|a: int| 0 <= a < ks.len() ==> 0 <= #[trigger] ks[a] < j && is_stale(*self, ks[a], now)
                    && stale@[a]@ == self.issues@[ks[a]].id@,
                forall|q: int| #![trigger is_stale(*self, q, now)] 0 <= q < j && is_stale(*self, q, now) ==> ks.contains(q),
                stale@.len() <= j,
                orphan@.len() <= j,
                ko.len() == orphan@.len(),
                forall|a: int, b: int| 0 <= a < b < ko.len() ==> #[trigger] ko[a] < #[trigger] ko[b],
                forall|a: int| 0 <= a < ko.len() ==> 0 <= #[trigger] ko[a] < j && is_orphan(*self, ko[a])
                    && orphan@[a]@ == self.issues@[ko[a]].id@,
                forall|q: int| #![trigger is_orphan(*self, q)] 0 <= q < j && is_orphan(*self, q) ==> ko.contains(q),
            decreases self.issues@.len() - j,
        {
            let i = &self.issues[j];
            if i.status == Status::InProgress && !self.claimed_since_exec(j, since) {
                let ghost before = ks;
                stale.push(i.id.clone());
                proof {
                    ks = ks.push(j as int);
                    assert forall|q: int| 0 <= q < j + 1 && is_stale(*self, q, now) implies ks.contains(q) by {
                        if q < j {
                            assert(before.contains(q));
                            let a = choose|a: int| 0 <= a < before.len() && before[a] == q;
                            assert(ks[a] == q);
                        } else {
                            assert(ks[before.len() as int] == q);
                        }
                    }
                }
            }
            let orphaned = match &i.fixes {
                Some(f) => !self.has_issue(f.as_str()),
                None => false,
            };
            if orphaned {
                let ghost before = ko;
                orphan.push(i.id.clone());
                proof {
                    ko = ko.push(j as int);
                    assert forall|q: int| 0 <= q < j + 1 && is_orphan(*self, q) implies ko.contains(q) by {
                        if q < j {
                            assert(before.contains(q));
                            let a = choose|a: int| 0 <= a < before.len() && before[a] == q;
                            assert(ko[a] == q);
                        } else {
                            assert(ko[before.len() as int] == q);
                        }
                    }
                }
            }
            j = j + 1;
        }
        proof {
            assert(picked_ids(*self, |q: int| is_stale(*self, q, now), id_views(stale@))) by {
                assert forall|a: int| 0 <= a < ks.len() implies 0 <= #[trigger] ks[a] < self.issues@.len()
                    && is_stale(*self, ks[a], now) && id_views(stale@)[a] == self.issues@[ks[a]].id@ by {
                }
            }
            assert(picked_ids(*self, |q: int| is_orphan(*self, q), id_views(orphan@))) by {
                assert forall|a: int| 0 <= a < ko.len() implies 0 <= #[trigger] ko[a] < self.issues@.len()
                    && is_orphan(*self, ko[a]) && id_views(orphan@)[a] == self.issues@[ko[a]].id@ by {
                }
            }
        }
        (stale, orphan)
    }

    /// Clears an issue's `fixes` field.
    fn clear_fixes(&mut self, id: &str, now: Timestamp) -> (r: Result<(), PensaError>)
        requires
            old(self).wf(),
            old(self).has_room(),
        ensures
            final(self).wf(),
            final(self).next_event_id <= old(self).next_event_id + 1,
            final(self).next_event_id >= old(self).next_event_id,
            final(self).issues@.len() == old(self).issues@.len(),
            has_id(old(self).issues@, id@) ==> r is Ok,
            forall|k: int| 0 <= k < old(self).issues@.len() ==> {
                let (a, b) = (#[trigger] final(self).issues@[k], old(self).issues@[k]);
                &&& a.id == b.id
                &&& a.status == b.status
                &&& a.assignee == b.assignee
                &&& (a.id@ != id@ ==> a.fixes == b.fixes)
                &&& (a.id@ == id@ ==> a.fixes is None)
            },
    {
        let k = match self.find(id) {
            Some(k) => k,
            None => {
                proof {
                    assert forall|q: int| 0 <= q < self.issues@.len() implies self.issues@[q].id@ != id@ by {
                        assert(crate::store::ids_of(self.issues@)[q] == self.issues@[q].id@);
                    }
                }
                return Err(PensaError::NotFound(id.to_owned()));
            },
        };
        proof {
            lemma_pos_pub(self.issues@, k as int);
        }
        let mut x = self.issues[k].copy();
        x.fixes = None;
        if now > x.updated_at {
            x.updated_at = now;
        }
        self.replace_issue(k, x);
        self.record_event(id, "updated", Some("doctor"), Some(String::from_str("{\"fixes\":null}")), now);
        proof {
            assert forall|q: int| 0 <= q < old(self).issues@.len() && self.issues@[q].id@ == id@ implies q == k by {
                assert(old(self).issues@[q].id@ == self.issues@[q].id@);
            }
        }
        Ok(())
    }

    /// Reports stale claims and orphaned `fixes` references and, with
    /// `fix`, releases the stale claims and clears the orphaned references.
    pub fn doctor(&mut self, fix: bool, now: Timestamp) -> (r: DoctorReport)
        requires
            old(self).wf(),
            old(self).next_event_id <= crate::store::EVENT_ID_LIMIT - 2 * old(self).issues@.len(),
        ensures
            final(self).wf(),
            !fix ==> *final(self) == *old(self),
            forall|a: int| 0 <= a < r.findings@.len() ==> {
                let f = #[trigger] r.findings@[a];
                ||| (f.check@ == "stale_claims"@ && picked_ids(
                    *old(self),
                    |j: int| is_stale(*old(self), j, now),
                    id_views(f.ids@),
                ) && f.ids@.len() > 0)
                ||| (f.check@ == "orphaned_fixes"@ && picked_ids(
                    *old(self),
                    |j: int| is_orphan(*old(self), j),
                    id_views(f.ids@),
                ) && f.ids@.len() > 0)
            },
            fix ==> forall|a: int, b: int|
                #![trigger r.findings@[a].ids@[b]]
                0 <= a < r.findings@.len() && 0 <= b < r.findings@[a].ids@.len() ==> {
                    &&& r.findings@[a].check@ == "stale_claims"@ ==> released_in(final(self).issues@, r.findings@[a].ids@[b]@)
                    &&& r.findings@[a].check@ == "orphaned_fixes"@ ==> unfixed_in(final(self).issues@, r.findings@[a].ids@[b]@)
                },
            (exists|j: int| 0 <= j < old(self).issues@.len() && is_stale(*old(self), j, now)) ==> exists|a: int|
                0 <= a < r.findings@.len() && (#[trigger] r.findings@[a]).check@ == "stale_claims"@,
            (exists|j: int| 0 <= j < old(self).issues@.len() && is_orphan(*old(self), j)) ==> exists|a: int|
                0 <= a < r.findings@.len() && (#[trigger] r.findings@[a]).check@ == "orphaned_fixes"@,
            fix ==> forall|j: int|
                0 <= j < old(self).issues@.len() && is_stale(*old(self), j, now) ==> released_in(
                    final(self).issues@,
                    (#[trigger] old(self).issues@[j]).id@,
                ),
            fix ==> forall|j: int|
                0 <= j < old(self).issues@.len() && is_orphan(*old(self), j) ==> unfixed_in(
                    final(self).issues@,
                    (#[trigger] old(self).issues@[j]).id@,
                ),
            r.fixes_applied == if fix { ids_named(r.findings@) } else { 0 },
    {
        let (stale, orphan) = self.diagnose(now);
        proof {
            lemma_picked(*self, |j: int| is_stale(*self, j, now), id_views(stale@));
            lemma_picked(*self, |j: int| is_orphan(*self, j), id_views(orphan@));
            assert forall|c: int| 0 <= c < stale@.len() implies has_id(self.issues@, (#[trigger] stale@[c])@) by {
                assert(id_views(stale@)[c] == stale@[c]@);
            }
            assert forall|c: int| 0 <= c < orphan@.len() implies has_id(self.issues@, (#[trigger] orphan@[c])@) by {
                assert(id_views(orphan@)[c] == orphan@[c]@);
            }
        }
        let mut findings: Vec<Finding> = Vec::new();
        let mut applied: u64 = 0;
        if stale.len() > 0 {
            let msg = decimal(stale.len() as u64).concat(" issue(s) in progress with no claim in the last day");
            findings.push(Finding { check: String::from_str("stale_claims"), message: msg, ids: copy_ids(&stale) });
            proof {
                assert(findings@.len() == 1 && findings@[0].check@ == "stale_claims"@ && id_views(findings@[0].ids@) == id_views(stale@));
            }
        }
        if orphan.len() > 0 {
            let msg = decimal(orphan.len() as u64).concat(" issue(s) fix an issue that does not exist");
            let ghost before = findings@;
            findings.push(Finding { check: String::from_str("orphaned_fixes"), message: msg, ids: copy_ids(&orphan) });
            proof {
                assert(findings@ == before.push(findings@.last()));
                assert(findings@.last().check@ == "orphaned_fixes"@ && id_views(findings@.last().ids@) == id_views(orphan@));
            }
        }
        proof {
            reveal_strlit("stale_claims");
            reveal_strlit("orphaned_fixes");
            assert("stale_claims"@.len() != "orphaned_fixes"@.len());
            assert forall|a: int| 0 <= a < findings@.len() implies
                (findings@[a].check@ == "stale_claims"@ ==> id_views(findings@[a].ids@) == id_views(stale@))
                && (findings@[a].check@ == "orphaned_fixes"@ ==> id_views(findings@[a].ids@) == id_views(orphan@)) by {
            }
            let fs = findings@;
            assert(fs.len() == (if stale@.len() > 0 { 1int } else { 0 }) + (if orphan@.len() > 0 { 1int } else { 0 }));
            if fs.len() == 2 {
                assert(fs.drop_last().drop_last() =~= Seq::<Finding>::empty());
                assert(fs.drop_last()[0] == fs[0]);
            }
            if fs.len() == 1 {
                assert(fs.drop_last() =~= Seq::<Finding>::empty());
            }
            assert(id_views(stale@).len() == stale@.len());
            assert(id_views(orphan@).len() == orphan@.len());
            assert forall|a: int| 0 <= a < fs.len() implies (#[trigger] fs[a]).ids@.len() == id_views(fs[a].ids@).len() by {
            }
            if fs.len() == 0 {
                assert(ids_named(fs) == 0);
            } else if fs.len() == 1 {
                assert(ids_named(fs.drop_last()) == 0);
                assert(ids_named(fs) == fs[0].ids@.len());
                if stale@.len() > 0 {
                    assert(fs[0].ids@.len() == stale@.len());
                } else {
                    assert(fs[0].check@ == "orphaned_fixes"@);
                    assert(fs[0].ids@.len() == orphan@.len());
                }
            } else {
                assert(ids_named(fs.drop_last().drop_last()) == 0);
                assert(ids_named(fs.drop_last()) == fs[0].ids@.len());
                assert(ids_named(fs) == fs[0].ids@.len() + fs[1].ids@.len());
                assert(fs[0].ids@.len() == stale@.len());
                assert(fs[1].ids@.len() == orphan@.len());
            }
            assert(ids_named(fs) == stale@.len() + orphan@.len());
            assert(orphan@.len() > 0 ==> fs[fs.len() - 1].check@ == "orphaned_fixes"@);
            assert(stale@.len() > 0 ==> fs[0].check@ == "stale_claims"@);
        }
        if fix {
            let ghost start = self.next_event_id;
            let mut a: usize = 0;
            while a < stale.len()
                invariant
                    self.wf(),
                    a <= stale@.len(),
                    stale@.len() <= old(self).issues@.len(),
                    start == old(self).next_event_id,
                    self.next_event_id <= start + a,
                    start <= crate::store::EVENT_ID_LIMIT - 2 * old(self).issues@.len(),
                    applied == a,
                    crate::store::ids_of(self.issues@) == crate::store::ids_of(old(self).issues@),
                    forall|c: int| 0 <= c < stale@.len() ==> has_id(old(self).issues@, (#[trigger] stale@[c])@),
                    forall|c: int| 0 <= c < orphan@.len() ==> has_id(old(self).issues@, (#[trigger] orphan@[c])@),
                    forall|c: int| 0 <= c < a ==> released_in(self.issues@, (#[trigger] stale@[c])@),
                decreases stale@.len() - a,
            {
                let ghost before = self.issues@;
                proof {
                    assert(has_id(old(self).issues@, stale@[a as int]@));
                }
                let res = self.release_issue(stale[a].as_str(), "doctor", now);
                proof {
                    let x = stale@[a as int]@;
                    assert(has_id(before, x));
                    assert(crate::store::ids_of(self.issues@) =~= crate::store::ids_of(before));
                    if has_id(before, x) {
                        let p = crate::store::pos(before, x);
                        assert forall|c: int| 0 <= c < a + 1 implies released_in(self.issues@, (#[trigger] stale@[c])@) by {
                            assert forall|k: int| 0 <= k < self.issues@.len() && (#[trigger] self.issues@[k]).id@ == stale@[c]@
                                implies self.issues@[k].status == Status::Open && self.issues@[k].assignee is None by {
                                if k != p {
                                    assert(self.issues@[k] == before[k]);
                                }
                            }
                        }
                    } else {
                        assert forall|c: int| 0 <= c < a + 1 implies released_in(self.issues@, (#[trigger] stale@[c])@) by {
                            if c == a {
                                assert forall|k: int| 0 <= k < self.issues@.len() && (#[trigger] self.issues@[k]).id@ == x
                                    implies false by {
                                    assert(crate::store::ids_of(before)[k] == x);
                                }
                            }
                        }
                    }
                }
                if let Ok(_) = res {
                    applied = applied + 1;
                }
                a = a + 1;
            }
            let ghost mid = self.next_event_id;
            let mut b: usize = 0;
            while b < orphan.len()
                invariant
                    self.wf(),
                    b <= orphan@.len(),
                    orphan@.len() <= old(self).issues@.len(),
                    stale@.len() <= old(self).issues@.len(),
                    start == old(self).next_event_id,
                    mid <= start + stale@.len(),
                    self.next_event_id <= mid + b,
                    start <= crate::store::EVENT_ID_LIMIT - 2 * old(self).issues@.len(),
                    applied == stale@.len() + b,
                    crate::store::ids_of(self.issues@) == crate::store::ids_of(old(self).issues@),
                    forall|c: int| 0 <= c < orphan@.len() ==> has_id(old(self).issues@, (#[trigger] orphan@[c])@),
                    forall|c: int| 0 <= c < stale@.len() ==> released_in(self.issues@, (#[trigger] stale@[c])@),
                    forall|c: int| 0 <= c < b ==> unfixed_in(self.issues@, (#[trigger] orphan@[c])@),
                decreases orphan@.len() - b,
            {
                let ghost before = self.issues@;
                proof {
                    assert(has_id(old(self).issues@, orphan@[b as int]@));
                    assert(has_id(before, orphan@[b as int]@));
                }
                let res = self.clear_fixes(orphan[b].as_str(), now);
                proof {
                    assert(crate::store::ids_of(self.issues@) =~= crate::store::ids_of(before));
                    assert forall|c: int| 0 <= c < stale@.len() implies released_in(self.issues@, (#[trigger] stale@[c])@) by {
                        assert forall|k: int| 0 <= k < self.issues@.len() && (#[trigger] self.issues@[k]).id@ == stale@[c]@
                            implies self.issues@[k].status == Status::Open && self.issues@[k].assignee is None by {
                            assert(before[k].id == self.issues@[k].id);
                        }
                    }
                    assert forall|c: int| 0 <= c < b + 1 implies unfixed_in(self.issues@, (#[trigger] orphan@[c])@) by {
                        assert forall|k: int| 0 <= k < self.issues@.len() && (#[trigger] self.issues@[k]).id@ == orphan@[c]@
                            implies self.issues@[k].fixes is None by {
                            assert(before[k].id == self.issues@[k].id);
                        }
                    }
                }
                if let Ok(_) = res {
                    applied = applied + 1;
                }
                b = b + 1;
            }
        }
        proof {
            if fix {
                assert forall|a: int, b: int|
                    #![trigger findings@[a].ids@[b]]
                    0 <= a < findings@.len() && 0 <= b < findings@[a].ids@.len() implies {
                        &&& findings@[a].check@ == "stale_claims"@ ==> released_in(self.issues@, findings@[a].ids@[b]@)
                        &&& findings@[a].check@ == "orphaned_fixes"@ ==> unfixed_in(self.issues@, findings@[a].ids@[b]@)
                    } by {
                    let f = findings@[a];
                    if f.check@ == "stale_claims"@ {
                        assert(id_views(f.ids@) == id_views(stale@));
                        assert(f.ids@.len() == stale@.len());
                        assert(id_views(f.ids@)[b] == id_views(stale@)[b]);
                        assert(released_in(self.issues@, stale@[b]@));
                    }
                    if f.check@ == "orphaned_fixes"@ {
                        assert(id_views(f.ids@) == id_views(orphan@));
                        assert(f.ids@.len() == orphan@.len());
                        assert(id_views(f.ids@)[b] == id_views(orphan@)[b]);
                        assert(unfixed_in(self.issues@, orphan@[b]@));
                    }
                }
            }
        }
        proof {
            let fs = findings@;
            if fix {
                assert forall|j: int|
                    0 <= j < old(self).issues@.len() && is_stale(*old(self), j, now) implies released_in(
                        self.issues@,
                        (#[trigger] old(self).issues@[j]).id@,
                    ) by {
                    assert(id_views(stale@).contains(old(self).issues@[j].id@));
                    let c = choose|c: int| 0 <= c < id_views(stale@).len() && id_views(stale@)[c] == old(self).issues@[j].id@;
                    assert(released_in(self.issues@, (stale@[c])@));
                }
                assert forall|j: int|
                    0 <= j < old(self).issues@.len() && is_orphan(*old(self), j) implies unfixed_in(
                        self.issues@,
                        (#[trigger] old(self).issues@[j]).id@,
                    ) by {
                    assert(id_views(orphan@).contains(old(self).issues@[j].id@));
                    let c = choose|c: int| 0 <= c < id_views(orphan@).len() && id_views(orphan@)[c] == old(self).issues@[j].id@;
                    assert(unfixed_in(self.issues@, (orphan@[c])@));
                }
            }
            assert((exists|j: int| 0 <= j < old(self).issues@.len() && is_stale(*old(self), j, now)) ==> exists|a: int|
                0 <= a < findings@.len() && (#[trigger] findings@[a]).check@ == "stale_claims"@) by {
                if exists|j: int| 0 <= j < old(self).issues@.len() && is_stale(*old(self), j, now) {
                    let j = choose|j: int| 0 <= j < old(self).issues@.len() && is_stale(*old(self), j, now);
                    assert(id_views(stale@).contains(old(self).issues@[j].id@));
                    assert(fs[0].check@ == "stale_claims"@);
                }
            }
            assert((exists|j: int| 0 <= j < old(self).issues@.len() && is_orphan(*old(self), j)) ==> exists|a: int|
                0 <= a < findings@.len() && (#[trigger] findings@[a]).check@ == "orphaned_fixes"@) by {
                if exists|j: int| 0 <= j < old(self).issues@.len() && is_orphan(*old(self), j) {
                    let j = choose|j: int| 0 <= j < old(self).issues@.len() && is_orphan(*old(self), j);
                    assert(id_views(orphan@).contains(old(self).issues@[j].id@));
                    assert(orphan@.len() > 0);
                    assert(fs[fs.len() - 1].check@ == "orphaned_fixes"@);
                }
            }
        }
        let ghost fsv = findings@;
        let r = DoctorReport { findings, fixes_applied: applied };
        proof {
            assert(r.findings@ == fsv);
            if exists|j: int| 0 <= j < old(self).issues@.len() && is_stale(*old(self), j, now) {
                assert(exists|a: int| 0 <= a < fsv.len() && (#[trigger] fsv[a]).check@ == "stale_claims"@);
                let a = choose|a: int| 0 <= a < fsv.len() && (#[trigger] fsv[a]).check@ == "stale_claims"@;
                assert(r.findings@[a].check@ == "stale_claims"@);
            }
            if exists|j: int| 0 <= j < old(self).issues@.len() && is_orphan(*old(self), j) {
                let a = choose|a: int| 0 <= a < fsv.len() && (#[trigger] fsv[a]).check@ == "orphaned_fixes"@;
                assert(r.findings@[a].check@ == "orphaned_fixes"@);
            }
        }
        r
    }
}

fn copy_ids(v: &Vec<String>) -> (r: Vec<String>)
    ensures
        id_views(r@) == id_views(v@),
{
    let mut out: Vec<String> = Vec::new();
    let mut i: usize = 0;
    while i < v.len()
        invariant
            i <= v@.len(),
            out@.len() == i,
            forall|q: int| 0 <= q < i ==> #[trigger] out@[q]@ == v@[q]@,
        decreases v@.len() - i,
    {
        out.push(v[i].clone());
        i = i + 1;
    }
    proof {
        assert(id_views(out@) =~= id_views(v@));
    }
    out
}

} // verus!
