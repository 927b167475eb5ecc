use vstd::prelude::*;
use vstd::string::StringExecFns;

use crate::error::PensaError;
use crate::id::hex_char;
use crate::records::{copy_opt, opt_view, Issue, Timestamp, UpdateFields};
use crate::store::{has_id, issue_ok, lemma_pos_pub, logged, not_found, pos, stamp, Db};
use crate::types::{priority_text, status_text, Status};

verus! {

/// How a JSON string writes one character: quote and backslash behind a
/// backslash, the short escapes for backspace, tab, line feed, form feed
/// and carriage return, `\u00xx` (lower-case hex) for the other controls
/// below 0x20, and every other character as itself.
pub open spec fn json_char(c: char) -> Seq<char> {
    let u = c as u32;
    if c == '"' {
        seq!['\\', '"']
    } else if c == '\\' {
        seq!['\\', '\\']
    } else if u == 8 {
        seq!['\\', 'b']
    } else if u == 9 {
        seq!['\\', 't']
    } else if u == 10 {
        seq!['\\', 'n']
    } else if u == 12 {
        seq!['\\', 'f']
    } else if u == 13 {
        seq!['\\', 'r']
    } else if u < 32 {
        seq!['\\', 'u', '0', '0', hex_char((u / 16) as nat), hex_char((u % 16) as nat)]
    } else {
        seq![c]
    }
}

pub open spec fn json_chars(s: Seq<char>) -> Seq<char>
    decreases s.len(),
{
    if s.len() == 0 {
        Seq::empty()
    } else {
        json_chars(s.drop_last()) + json_char(s.last())
    }
}

/// The JSON string literal of a text.
pub open spec fn json_quoted(s: Seq<char>) -> Seq<char> {
    seq!['"'] + json_chars(s) + seq!['"']
}

/// Relies on `serde_json::to_string` for a `&str`: the JSON string literal
/// of the text, escaped as `json_char` states (its escape table and
/// `write_char_escape`). Serialising a string does not fail.
#[verifier::external_body]
pub(crate) fn json_quote(s: &str) -> (r: String)
    ensures
        r@ == json_quoted(s@),
{
    serde_json::to_string(s).unwrap_or_default()
}

/// One `"name":value` member of a JSON object.
pub open spec fn member(name: Seq<char>, v: Seq<char>) -> Seq<char> {
    "\""@ + name + "\":"@ + json_quoted(v)
}

pub open spec fn member_if(name: Seq<char>, v: Option<Seq<char>>) -> Seq<Seq<char>> {
    match v {
        Some(t) => seq![member(name, t)],
        None => Seq::empty(),
    }
}

/// The members of the changed fields, in key order.
pub open spec fn change_members(f: UpdateFields) -> Seq<Seq<char>> {
    member_if("assignee"@, opt_view(f.assignee)) + member_if("description"@, opt_view(f.description))
        + member_if("fixes"@, opt_view(f.fixes)) + member_if(
        "priority"@,
        match f.priority {
            Some(p) => Some(priority_text(p)),
            None => None,
        },
    ) + member_if("spec"@, opt_view(f.spec)) + member_if(
        "status"@,
        match f.status {
            Some(s) => Some(status_text(s)),
            None => None,
        },
    ) + member_if("title"@, opt_view(f.title))
}

pub open spec fn joined(s: Seq<Seq<char>>) -> Seq<char>
    decreases s.len(),
{
    if s.len() == 0 {
        Seq::empty()
    } else if s.len() == 1 {
        s[0]
    } else {
        joined(s.drop_last()) + ","@ + s.last()
    }
}

/// The JSON object of the fields an update applies, keys in order.
pub open spec fn change_detail(f: UpdateFields) -> Seq<char> {
    "{"@ + joined(change_members(f)) + "}"@
}

/// The status after an update.
pub open spec fn status_after(o: Issue, f: UpdateFields) -> Status {
    match f.status {
        Some(s) => s,
        None => o.status,
    }
}

/// The assignee after an update: an empty one clears it.
pub open spec fn assignee_after(o: Issue, f: UpdateFields) -> Option<Seq<char>> {
    match f.assignee {
        Some(a) => if a@.len() == 0 {
            None
        } else {
            Some(a@)
        },
        None => opt_view(o.assignee),
    }
}

/// `x` is `o` with the update applied at `now`. Closing stamps a closing
/// time where there was none; opening clears the closing time and reason.
pub open spec fn is_updated(x: Issue, o: Issue, f: UpdateFields, now: Timestamp) -> bool {
    let st = status_after(o, f);
    &&& x.id == o.id
    &&& x.issue_type == o.issue_type
    &&& x.created_at == o.created_at
    &&& x.title == (if f.title is Some { f.title->Some_0 } else { o.title })
    &&& x.description == (if f.description is Some { f.description } else { o.description })
    &&& x.priority == (if f.priority is Some { f.priority->Some_0 } else { o.priority })
    &&& x.spec == (if f.spec is Some { f.spec } else { o.spec })
    &&& x.fixes == (if f.fixes is Some { f.fixes } else { o.fixes })
    &&& opt_view(x.assignee) == assignee_after(o, f)
    &&& x.status == st
    &&& x.closed_at == (if st == Status::Closed {
        if o.closed_at is Some { o.closed_at } else { Some(now) }
    } else if st == Status::Open {
        None
    } else {
        o.closed_at
    })
    &&& x.close_reason == (if st == Status::Open { None } else { o.close_reason })
    &&& x.updated_at == stamp(o.updated_at, now)
}

pub open spec fn views(v: Seq<String>) -> Seq<Seq<char>> {
    v.map_values(|s: String| s@)
}

fn push_member(out: &mut Vec<String>, name: &str, v: Option<&str>)
    ensures
        views(final(out)@) == views(old(out)@) + member_if(
            name@,
            match v {
                Some(t) => Some(t@),
                None => None,
            },
        ),
{
    if let Some(t) = v {
        let m = String::from_str("\"").concat(name).concat("\":").concat(json_quote(t).as_str());
        out.push(m);
    }
    assert(views(out@) =~= views(old(out)@) + member_if(
        name@,
        match v {
            Some(t) => Some(t@),
            None => None,
        },
    ));
}

fn opt_ref(o: &Option<String>) -> (r: Option<&str>)
    ensures
        match r {
            Some(t) => Some(t@),
            None => None,
        } == opt_view(*o),
{
    match o {
        Some(s) => Some(s.as_str()),
        None => None,
    }
}

fn members(f: &UpdateFields) -> (r: Vec<String>)
    ensures
        views(r@) == change_members(*f),
{
    let mut ms: Vec<String> = Vec::new();
    push_member(&mut ms, "assignee", opt_ref(&f.assignee));
    push_member(&mut ms, "description", opt_ref(&f.description));
    push_member(&mut ms, "fixes", opt_ref(&f.fixes));
    push_member(
        &mut ms,
        "priority",
        match f.priority {
            Some(p) => Some(p.as_str()),
            None => None,
        },
    );
    push_member(&mut ms, "spec", opt_ref(&f.spec));
    push_member(
        &mut ms,
        "status",
        match f.status {
            Some(s) => Some(s.as_str()),
            None => None,
        },
    );
    push_member(&mut ms, "title", opt_ref(&f.title));
    ms
}

fn join_members(ms: &Vec<String>) -> (r: String)
    ensures
        r@ == joined(views(ms@)),
{
    let mut body = String::new();
    let mut i: usize = 0;
    while i < ms.len()
        invariant
            i <= ms@.len(),
            body@ == joined(views(ms@).take(i as int)),
        decreases ms@.len() - i,
    {
        let ghost v = views(ms@);
        proof {
            assert(v.take(i + 1).drop_last() =~= v.take(i as int));
        }
        if i == 0 {
            body = ms[i].clone();
            proof {
                assert(v.take(1) =~= seq![v[0]]);
            }
        } else {
            body = body.concat(",").concat(ms[i].as_str());
        }
        i = i + 1;
    }
    proof {
        let v = views(ms@);
        assert(v.take(v.len() as int) =~= v);
    }
    body
}

/// The JSON object that records which fields an update applied.
pub fn change_record(f: &UpdateFields) -> (r: String)
    ensures
        r@ == change_detail(*f),
{
    let ms = members(f);
    let body = join_members(&ms);
    String::from_str("{").concat(body.as_str()).concat("}")
}

fn blocks_progress(o: &Issue, f: &UpdateFields) -> (r: bool)
    ensures
        r == (status_after(*o, *f) == Status::InProgress && assignee_after(*o, *f) is None),
{
    let st = match f.status {
        Some(s) => s,
        None => o.status,
    };
    let none = match &f.assignee {
        Some(a) => a.as_str().is_empty(),
        None => o.assignee.is_none(),
    };
    st == Status::InProgress && none
}

fn apply_fields(o: &Issue, f: &UpdateFields, now: Timestamp) -> (x: Issue)
    requires
        issue_ok(*o),
        !(status_after(*o, *f) == Status::InProgress && assignee_after(*o, *f) is None),
    ensures
        is_updated(x, *o, *f, now),
        issue_ok(x),
{
    let mut x = o.copy();
    if let Some(t) = &f.title {
        x.title = t.clone();
    }
    if f.description.is_some() {
        x.description = copy_opt(&f.description);
    }
    if let Some(p) = f.priority {
        x.priority = p;
    }
    if f.spec.is_some() {
        x.spec = copy_opt(&f.spec);
    }
    if f.fixes.is_some() {
        x.fixes = copy_opt(&f.fixes);
    }
    if let Some(a) = &f.assignee {
        if a.as_str().is_empty() {
            x.assignee = None;
        } else {
            x.assignee = Some(a.clone());
        }
    }
    if let Some(s) = f.status {
        x.status = s;
    }
    if x.status == Status::Closed {
        if x.closed_at.is_none() {
            x.closed_at = Some(now);
        }
    } else if x.status == Status::Open {
        x.closed_at = None;
        x.close_reason = None;
    }
    if now > x.updated_at {
        x.updated_at = now;
    }
    x
}

impl Db {
    /// Applies a partial update and records the changed fields. Status
    /// writes keep the status invariants: an issue can only be put in
    /// progress with an assignee.
    pub fn update_issue(
        &mut self,
        id: &str,
        fields: &UpdateFields,
        actor: &str,
        now: Timestamp,
    ) -> (r: Result<Issue, PensaError>)
        requires
            old(self).wf(),
            old(self).has_room(),
        ensures
            final(self).wf(),
            !has_id(old(self).issues@, id@) ==> not_found(r, id@) && *final(self) == *old(self),
            has_id(old(self).issues@, id@) ==> {
                let o = old(self).issues@[pos(old(self).issues@, id@)];
                if status_after(o, *fields) == Status::InProgress && assignee_after(o, *fields) is None {
                    &&& *final(self) == *old(self)
                    &&& match r {
                        Err(PensaError::InvalidStatusTransition { from, to }) => from@ == status_text(
                            o.status,
                        ) && to@ == "in_progress"@,
                        _ => false,
                    }
                } else {
                    &&& r is Ok
                    &&& is_updated(r->Ok_0, o, *fields, now)
                    &&& final(self).issues@ == old(self).issues@.update(
                        pos(old(self).issues@, id@),
                        r->Ok_0,
                    )
                    &&& logged(
                        *final(self),
                        *old(self),
                        id@,
                        "updated"@,
                        Some(actor@),
                        Some(change_detail(*fields)),
                        now,
                    )
                }
            },
    {
        let k = match self.find(id) {
            Some(k) => k,
            None => {
                return Err(PensaError::NotFound(id.to_owned()));
            },
        };
        proof {
            lemma_pos_pub(self.issues@, k as int);
        }
        if blocks_progress(&self.issues[k], fields) {
            return Err(
                PensaError::InvalidStatusTransition {
                    from: String::from_str(self.issues[k].status.as_str()),
                    to: String::from_str("in_progress"),
                },
            );
        }
        let x = apply_fields(&self.issues[k], fields, now);
        let out = x.copy();
        self.replace_issue(k, x);
        let detail = change_record(fields);
        self.record_event(id, "updated", Some(actor), Some(detail), now);
        Ok(out)
    }
}

} // verus!
