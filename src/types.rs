use vstd::prelude::*;
use vstd::string::StringExecFns;

verus! {

/// The error returned when a wire string names no variant of an enum.
#[derive(Debug)]
pub struct ParseEnumError(pub String);

/// The kind of an issue.
#[derive(Debug, Clone, Copy, PartialEq, Eq, Structural, Hash)]
pub enum IssueType {
    Bug,
    Task,
    Test,
    Chore,
}

/// Where an issue stands in its lifecycle.
#[derive(Debug, Clone, Copy, PartialEq, Eq, Structural, Hash)]
pub enum Status {
    Open,
    InProgress,
    Closed,
}

/// Urgency of an issue; `P0` is the most urgent.
#[derive(Debug, Clone, Copy, PartialEq, Eq, Structural, Hash)]
pub enum Priority {
    P0,
    P1,
    P2,
    P3,
}

pub open spec fn issue_type_text(t: IssueType) -> Seq<char> {
    match t {
        IssueType::Bug => "bug"@,
        IssueType::Task => "task"@,
        IssueType::Test => "test"@,
        IssueType::Chore => "chore"@,
    }
}

pub open spec fn status_text(s: Status) -> Seq<char> {
    match s {
        Status::Open => "open"@,
        Status::InProgress => "in_progress"@,
        Status::Closed => "closed"@,
    }
}

pub open spec fn priority_text(p: Priority) -> Seq<char> {
    match p {
        Priority::P0 => "p0"@,
        Priority::P1 => "p1"@,
        Priority::P2 => "p2"@,
        Priority::P3 => "p3"@,
    }
}

/// The position of a priority in ascending sort order (`p0` first).
pub open spec fn priority_rank(p: Priority) -> int {
    match p {
        Priority::P0 => 0,
        Priority::P1 => 1,
        Priority::P2 => 2,
        Priority::P3 => 3,
    }
}

/// The position of a status in ascending sort order of its wire text.
pub open spec fn status_rank(s: Status) -> int {
    match s {
        Status::Closed => 0,
        Status::InProgress => 1,
        Status::Open => 2,
    }
}

pub open spec fn parse_issue_type(s: Seq<char>) -> Option<IssueType> {
    if s == "bug"@ {
        Some(IssueType::Bug)
    } else if s == "task"@ {
        Some(IssueType::Task)
    } else if s == "test"@ {
        Some(IssueType::Test)
    } else if s == "chore"@ {
        Some(IssueType::Chore)
    } else {
        None
    }
}

pub open spec fn parse_status(s: Seq<char>) -> Option<Status> {
    if s == "open"@ {
        Some(Status::Open)
    } else if s == "in_progress"@ {
        Some(Status::InProgress)
    } else if s == "closed"@ {
        Some(Status::Closed)
    } else {
        None
    }
}

pub open spec fn parse_priority(s: Seq<char>) -> Option<Priority> {
    if s == "p0"@ {
        Some(Priority::P0)
    } else if s == "p1"@ {
        Some(Priority::P1)
    } else if s == "p2"@ {
        Some(Priority::P2)
    } else if s == "p3"@ {
        Some(Priority::P3)
    } else {
        None
    }
}

/// How the command line prints results: for people, or as JSON.
#[derive(Debug, Clone, Copy, PartialEq, Eq, Structural)]
pub enum OutputMode {
    Human,
    Json,
}

/// The priority of an issue created without one.
pub fn default_priority() -> (r: Priority)
    ensures
        r == Priority::P2,
{
    Priority::P2
}

/// The direction of a dependency tree requested without one.
pub fn default_direction() -> (r: String)
    ensures
        r@ == "down"@,
{
    String::from_str("down")
}

/// Equality of two string slices, character by character.
pub fn str_eq(a: &str, b: &str) -> (r: bool)
    ensures
        r == (a@ == b@),
{
    a.to_owned() == b.to_owned()
}

impl IssueType {
    pub fn as_str(&self) -> (r: &'static str)
        ensures
            r@ == issue_type_text(*self),
    {
        match self {
            IssueType::Bug => "bug",
            IssueType::Task => "task",
            IssueType::Test => "test",
            IssueType::Chore => "chore",
        }
    }

    /// Reads the wire text of an issue type.
    pub fn parse(s: &str) -> (r: Result<IssueType, ParseEnumError>)
        ensures
            match r {
                Ok(t) => parse_issue_type(s@) == Some(t),
                Err(e) => parse_issue_type(s@) is None && e.0@ == s@,
            },
    {
        if str_eq(s, "bug") {
            Ok(IssueType::Bug)
        } else if str_eq(s, "task") {
            Ok(IssueType::Task)
        } else if str_eq(s, "test") {
            Ok(IssueType::Test)
        } else if str_eq(s, "chore") {
            Ok(IssueType::Chore)
        } else {
            Err(ParseEnumError(s.to_owned()))
        }
    }
}

impl Status {
    pub fn as_str(&self) -> (r: &'static str)
        ensures
            r@ == status_text(*self),
    {
        match self {
            Status::Open => "open",
            Status::InProgress => "in_progress",
            Status::Closed => "closed",
        }
    }

    /// Reads the wire text of a status.
    pub fn parse(s: &str) -> (r: Result<Status, ParseEnumError>)
        ensures
            match r {
                Ok(t) => parse_status(s@) == Some(t),
                Err(e) => parse_status(s@) is None && e.0@ == s@,
            },
    {
        if str_eq(s, "open") {
            Ok(Status::Open)
        } else if str_eq(s, "in_progress") {
            Ok(Status::InProgress)
        } else if str_eq(s, "closed") {
            Ok(Status::Closed)
        } else {
            Err(ParseEnumError(s.to_owned()))
        }
    }
}

impl Priority {
    pub fn as_str(&self) -> (r: &'static str)
        ensures
            r@ == priority_text(*self),
    {
        match self {
            Priority::P0 => "p0",
            Priority::P1 => "p1",
            Priority::P2 => "p2",
            Priority::P3 => "p3",
        }
    }

    /// Reads the wire text of a priority.
    pub fn parse(s: &str) -> (r: Result<Priority, ParseEnumError>)
        ensures
            match r {
                Ok(t) => parse_priority(s@) == Some(t),
                Err(e) => parse_priority(s@) is None && e.0@ == s@,
            },
    {
        if str_eq(s, "p0") {
            Ok(Priority::P0)
        } else if str_eq(s, "p1") {
            Ok(Priority::P1)
        } else if str_eq(s, "p2") {
            Ok(Priority::P2)
        } else if str_eq(s, "p3") {
            Ok(Priority::P3)
        } else {
            Err(ParseEnumError(s.to_owned()))
        }
    }
}

/// Reading back the wire text of any issue type, status or priority gives
/// the same value.
pub proof fn lemma_enum_text_round_trip(t: IssueType, s: Status, p: Priority)
    ensures
        parse_issue_type(issue_type_text(t)) == Some(t),
        parse_status(status_text(s)) == Some(s),
        parse_priority(priority_text(p)) == Some(p),
{
    reveal_strlit("bug");
    reveal_strlit("task");
    reveal_strlit("test");
    reveal_strlit("chore");
    reveal_strlit("open");
    reveal_strlit("in_progress");
    reveal_strlit("closed");
    reveal_strlit("p0");
    reveal_strlit("p1");
    reveal_strlit("p2");
    reveal_strlit("p3");
    assert("task"@[1] != "test"@[1]);
    assert("bug"@.len() != "task"@.len() && "bug"@.len() != "chore"@.len());
    assert("chore"@.len() != "task"@.len());
    assert("open"@.len() != "closed"@.len());
    assert("p0"@[1] != "p1"@[1] && "p0"@[1] != "p2"@[1] && "p0"@[1] != "p3"@[1]);
    assert("p1"@[1] != "p2"@[1] && "p1"@[1] != "p3"@[1] && "p2"@[1] != "p3"@[1]);
}

} // verus!
