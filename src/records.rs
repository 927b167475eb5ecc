use vstd::prelude::*;

use crate::types::{IssueType, Priority, Status};

verus! {

/// A point in time: whole seconds since the Unix epoch, UTC.
pub type Timestamp = i64;

/// The primary unit of work.
#[derive(Debug)]
pub struct Issue {
    pub id: String,
    pub title: String,
    pub description: Option<String>,
    pub issue_type: IssueType,
    pub status: Status,
    pub priority: Priority,
    pub spec: Option<String>,
    pub fixes: Option<String>,
    pub assignee: Option<String>,
    pub created_at: Timestamp,
    pub updated_at: Timestamp,
    pub closed_at: Option<Timestamp>,
    pub close_reason: Option<String>,
}

/// An immutable note attached to an issue.
#[derive(Debug)]
pub struct Comment {
    pub id: String,
    pub issue_id: String,
    pub actor: String,
    pub text: String,
    pub created_at: Timestamp,
}

/// An issue with its direct dependency parents and its comments, oldest first.
#[derive(Debug)]
pub struct IssueDetail {
    pub issue: Issue,
    pub deps: Vec<Issue>,
    pub comments: Vec<Comment>,
}

/// An append-only audit record of a change to an issue.
#[derive(Debug)]
pub struct Event {
    pub id: i64,
    pub issue_id: String,
    pub event_type: String,
    pub actor: Option<String>,
    pub detail: Option<String>,
    pub created_at: Timestamp,
}

/// The edge "`issue_id` is blocked by `depends_on_id`".
#[derive(Debug)]
pub struct Dep {
    pub issue_id: String,
    pub depends_on_id: String,
}

/// One node of a dependency tree, at its shallowest depth.
#[derive(Debug)]
pub struct DepTreeNode {
    pub id: String,
    pub title: String,
    pub status: Status,
    pub priority: Priority,
    pub issue_type: IssueType,
    pub depth: i32,
}

/// What a new issue is created from.
#[derive(Debug)]
pub struct CreateIssueParams {
    pub title: String,
    pub issue_type: IssueType,
    pub priority: Priority,
    pub description: Option<String>,
    pub spec: Option<String>,
    pub fixes: Option<String>,
    pub assignee: Option<String>,
    pub deps: Vec<String>,
    pub actor: String,
}

/// A partial update; each field present is applied.
#[derive(Debug, Default)]
pub struct UpdateFields {
    pub title: Option<String>,
    pub description: Option<String>,
    pub priority: Option<Priority>,
    pub status: Option<Status>,
    pub assignee: Option<String>,
    pub spec: Option<String>,
    pub fixes: Option<String>,
}

/// Conjunctive filters over issues, with a sort key and a row limit.
#[derive(Debug, Default)]
pub struct ListFilters {
    pub status: Option<Status>,
    pub priority: Option<Priority>,
    pub assignee: Option<String>,
    pub issue_type: Option<IssueType>,
    pub spec: Option<String>,
    pub sort: Option<String>,
    pub limit: Option<usize>,
}

/// The number of issues that are not closed.
#[derive(Debug)]
pub struct CountResult {
    pub count: i64,
}

/// Issue counts grouped by a key made of the chosen fields.
#[derive(Debug)]
pub struct GroupedCountResult {
    pub total: i64,
    pub groups: Vec<CountGroup>,
}

#[derive(Debug)]
pub struct CountGroup {
    pub key: String,
    pub count: i64,
}

/// Per issue type, how many issues are open, in progress and closed.
#[derive(Debug)]
pub struct StatusEntry {
    pub issue_type: IssueType,
    pub open: i64,
    pub in_progress: i64,
    pub closed: i64,
}

pub open spec fn opt_view(o: Option<String>) -> Option<Seq<char>> {
    match o {
        Some(s) => Some(s@),
        None => None,
    }
}

pub fn copy_opt(o: &Option<String>) -> (r: Option<String>)
    ensures
        r == *o,
{
    match o {
        Some(s) => Some(s.clone()),
        None => None,
    }
}

pub fn copy_opt_str(o: Option<&str>) -> (r: Option<String>)
    ensures
        opt_view(r) == match o {
            Some(s) => Some(s@),
            None => None::<Seq<char>>,
        },
{
    match o {
        Some(s) => Some(s.to_owned()),
        None => None,
    }
}

impl Issue {
    pub fn copy(&self) -> (r: Issue)
        ensures
            r == *self,
    {
        Issue {
            id: self.id.clone(),
            title: self.title.clone(),
            description: copy_opt(&self.description),
            issue_type: self.issue_type,
            status: self.status,
            priority: self.priority,
            spec: copy_opt(&self.spec),
            fixes: copy_opt(&self.fixes),
            assignee: copy_opt(&self.assignee),
            created_at: self.created_at,
            updated_at: self.updated_at,
            closed_at: self.closed_at,
            close_reason: copy_opt(&self.close_reason),
        }
    }
}

impl Comment {
    pub fn copy(&self) -> (r: Comment)
        ensures
            r == *self,
    {
        Comment {
            id: self.id.clone(),
            issue_id: self.issue_id.clone(),
            actor: self.actor.clone(),
            text: self.text.clone(),
            created_at: self.created_at,
        }
    }
}

impl Event {
    pub fn copy(&self) -> (r: Event)
        ensures
            r == *self,
    {
        Event {
            id: self.id,
            issue_id: self.issue_id.clone(),
            event_type: self.event_type.clone(),
            actor: copy_opt(&self.actor),
            detail: copy_opt(&self.detail),
            created_at: self.created_at,
        }
    }
}

impl Dep {
    pub fn copy(&self) -> (r: Dep)
        ensures
            r == *self,
    {
        Dep { issue_id: self.issue_id.clone(), depends_on_id: self.depends_on_id.clone() }
    }
}

} // verus!
