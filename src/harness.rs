use vstd::prelude::*;
use vstd::string::{StrSliceExecFns, StringExecFns};

use crate::text::{lower_of, lowercase};
use crate::types::str_eq;

verus! {

/// Reads a boolean flag value, ignoring case: `true`, `1` or `yes`; `false`,
/// `0` or `no`.
pub open spec fn flag_value(s: Seq<char>) -> Option<bool> {
    let l = lower_of(s);
    if l == "true"@ || l == "1"@ || l == "yes"@ {
        Some(true)
    } else if l == "false"@ || l == "0"@ || l == "no"@ {
        Some(false)
    } else {
        None
    }
}

pub fn parse_bool(s: &str) -> (r: Result<bool, String>)
    ensures
        match r {
            Ok(b) => flag_value(s@) == Some(b),
            Err(m) => flag_value(s@) is None && m@ == "invalid boolean value '"@ + lower_of(s@)
                + "': expected true/false, 1/0, or yes/no"@,
        },
{
    let l = lowercase(s);
    let t = l.as_str();
    if str_eq(t, "true") || str_eq(t, "1") || str_eq(t, "yes") {
        Ok(true)
    } else if str_eq(t, "false") || str_eq(t, "0") || str_eq(t, "no") {
        Ok(false)
    } else {
        Err(
            String::from_str("invalid boolean value '").concat(t).concat(
                "': expected true/false, 1/0, or yes/no",
            ),
        )
    }
}

/// The iteration budget: the request, cut to the ceiling, and whether it
/// was cut.
pub fn clamp_iterations(requested: u32, ceiling: u32) -> (r: (u32, bool))
    ensures
        r.0 == if requested > ceiling { ceiling } else { requested },
        r.1 == (requested > ceiling),
{
    if requested > ceiling {
        (ceiling, true)
    } else {
        (requested, false)
    }
}

/// What the harness does after an iteration.
#[derive(Debug, Clone, Copy, PartialEq, Eq, Structural)]
pub enum AfterIteration {
    /// The completion sentinel was found: remove it and exit 0.
    Complete,
    /// Run the next iteration.
    Continue,
    /// No iterations are left: exit 2.
    Exhausted,
}

/// The harness's decision after iteration `done` (counting from one) of
/// `total`: a found sentinel completes the run, otherwise the run goes on
/// until the budget is spent. A push follows wherever pushing is on and the
/// head moved during the iteration.
pub fn after_iteration(done: u32, total: u32, sentinel: bool, auto_push: bool, head_moved: bool) -> (r: (
    AfterIteration,
    bool,
))
    ensures
        r.0 == (if sentinel {
            AfterIteration::Complete
        } else if done >= total {
            AfterIteration::Exhausted
        } else {
            AfterIteration::Continue
        }),
        r.1 == (auto_push && head_moved),
{
    let next = if sentinel {
        AfterIteration::Complete
    } else if done >= total {
        AfterIteration::Exhausted
    } else {
        AfterIteration::Continue
    };
    (next, auto_push && head_moved)
}

/// The exit code for the way a run ended.
pub fn exit_code(end: AfterIteration, interrupted: bool) -> (r: i32)
    ensures
        r == (if interrupted {
            130i32
        } else {
            match end {
                AfterIteration::Complete => 0i32,
                AfterIteration::Exhausted => 2i32,
                AfterIteration::Continue => 1i32,
            }
        }),
{
    if interrupted {
        130
    } else {
        match end {
            AfterIteration::Complete => 0,
            AfterIteration::Exhausted => 2,
            AfterIteration::Continue => 1,
        }
    }
}

/// Pre-launch recovery runs only where loops were recorded and none of them
/// is still alive; with no recorded loop there is nothing to recover.
pub fn should_recover(alive: &Vec<bool>) -> (r: bool)
    ensures
        r == (alive@.len() > 0 && forall|i: int| 0 <= i < alive@.len() ==> !#[trigger] alive@[i]),
{
    if alive.len() == 0 {
        return false;
    }
    let mut i: usize = 0;
    while i < alive.len()
        invariant
            i <= alive@.len(),
            forall|j: int| 0 <= j < i ==> !#[trigger] alive@[j],
        decreases alive@.len() - i,
    {
        if alive[i] {
            return false;
        }
        i = i + 1;
    }
    true
}

/// The prefix that returns the cursor to the line start and clears the line.
pub open spec fn line_reset() -> Seq<char> {
    seq!['\r', '\x1B', '[', '2', 'K']
}

/// Each line of the text, prefixed with the line reset.
pub open spec fn reset_lines(s: Seq<char>) -> Seq<char>
    decreases s.len(),
{
    if s.len() == 0 {
        line_reset()
    } else if s.last() == '\n' {
        reset_lines(s.drop_last()) + seq!['\n'] + line_reset()
    } else {
        reset_lines(s.drop_last()).push(s.last())
    }
}

/// Prefixes every line with the line reset, so that output starts at the
/// left edge whatever the cursor's state.
pub fn sanitize_lines(s: &str) -> (r: String)
    ensures
        r@ == reset_lines(s@),
{
    let n = s.unicode_len();
    let mut out = String::from_str("\r\x1B[2K");
    proof {
        reveal_strlit("\r\x1B[2K");
        assert(out@ =~= line_reset());
        assert(s@.take(0) =~= Seq::<char>::empty());
    }
    let mut i: usize = 0;
    while i < n
        invariant
            n == s@.len(),
            i <= n,
            out@ == reset_lines(s@.take(i as int)),
        decreases n - i,
    {
        let c = s.get_char(i);
        proof {
            assert(s@.take(i + 1).drop_last() =~= s@.take(i as int));
            assert(s@.take(i + 1).last() == c);
        }
        if c == '\n' {
            out = out.concat("\n\r\x1B[2K");
            proof {
                reveal_strlit("\n\r\x1B[2K");
                assert(out@ =~= reset_lines(s@.take(i + 1)));
            }
        } else {
            let piece = s.substring_char(i, i + 1);
            out = out.concat(piece);
            proof {
                assert(piece@ =~= seq![c]);
                assert(out@ =~= reset_lines(s@.take(i + 1)));
            }
        }
        i = i + 1;
    }
    proof {
        assert(s@.take(n as int) =~= s@);
    }
    out
}

/// The actor of a request: the body's, else the header's, else `unknown`.
pub fn resolve_actor(body: Option<String>, header: Option<String>) -> (r: String)
    ensures
        r@ == match body {
            Some(b) => b@,
            None => match header {
                Some(h) => h@,
                None => "unknown"@,
            },
        },
{
    match body {
        Some(b) => b,
        None => match header {
            Some(h) => h,
            None => String::from_str("unknown"),
        },
    }
}

} // verus!
