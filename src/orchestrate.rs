use vstd::prelude::*;
use vstd::string::StringExecFns;

use crate::store::opt_str_view;
use crate::text::{decimal, decimal_text};
use crate::types::str_eq;

verus! {

/// How one stage loop is launched.
#[derive(Debug)]
pub struct LoopConfig {
    pub stage: String,
    pub spec: Option<String>,
    pub afk: bool,
    pub no_push: bool,
    pub iterations: u32,
    /// Path of the agent harness; where absent, the environment's choice or
    /// `ralph`.
    pub ralph_binary: Option<String>,
    /// Skips recovery and the tracker start (for tests).
    pub skip_preflight: bool,
    /// Prompt template name; where absent, the stage's own.
    pub prompt_template: Option<String>,
}

/// The image the harness runs the agent in.
pub const SANDBOX_TEMPLATE: &'static str = "ralph-sandbox:latest";

/// The iteration ceiling handed to the harness.
pub const MAX_ITERATIONS: u32 = 30;

pub open spec fn exit_text(code: i32) -> Seq<char> {
    if code == 0 {
        "loop completed successfully"@
    } else if code == 1 {
        "ralph exited with error"@
    } else if code == 2 {
        "iterations exhausted — re-launch to continue or stop"@
    } else if code == 130 {
        "interrupted"@
    } else {
        "ralph exited with unexpected code"@
    }
}

/// The one-line message for a harness exit code.
pub fn exit_message(code: i32) -> (r: &'static str)
    ensures
        r@ == exit_text(code),
{
    if code == 0 {
        "loop completed successfully"
    } else if code == 1 {
        "ralph exited with error"
    } else if code == 2 {
        "iterations exhausted — re-launch to continue or stop"
    } else if code == 130 {
        "interrupted"
    } else {
        "ralph exited with unexpected code"
    }
}

/// The harness's arguments: `-a` in AFK mode, the loop id, the sandbox
/// image, the push policy, the iteration ceiling, then the iteration count
/// and the prompt path.
pub open spec fn ralph_args(c: LoopConfig, loop_id: Seq<char>, prompt: Seq<char>) -> Seq<Seq<char>> {
    (if c.afk { seq!["-a"@] } else { Seq::empty() }) + seq![
        "--loop-id"@,
        loop_id,
        "--template"@,
        SANDBOX_TEMPLATE@,
        "--auto-push"@,
        if c.no_push { "false"@ } else { "true"@ },
        "--max-iterations"@,
        decimal_text(MAX_ITERATIONS as nat),
        decimal_text(c.iterations as nat),
        prompt,
    ]
}

pub open spec fn views(v: Seq<String>) -> Seq<Seq<char>> {
    v.map_values(|s: String| s@)
}

pub fn build_ralph_args(config: &LoopConfig, loop_id: &str, prompt_path: &str) -> (r: Vec<String>)
    ensures
        views(r@) == ralph_args(*config, loop_id@, prompt_path@),
{
    let mut args: Vec<String> = Vec::new();
    if config.afk {
        args.push(String::from_str("-a"));
    }
    args.push(String::from_str("--loop-id"));
    args.push(loop_id.to_owned());
    args.push(String::from_str("--template"));
    args.push(String::from_str(SANDBOX_TEMPLATE));
    args.push(String::from_str("--auto-push"));
    args.push(if config.no_push { String::from_str("false") } else { String::from_str("true") });
    args.push(String::from_str("--max-iterations"));
    args.push(decimal(MAX_ITERATIONS as u64));
    args.push(decimal(config.iterations as u64));
    args.push(prompt_path.to_owned());
    assert(views(args@) =~= ralph_args(*config, loop_id@, prompt_path@));
    args
}

/// The harness binary: the configured one, else the one the environment
/// names, else `ralph`.
pub open spec fn ralph_binary(c: LoopConfig, from_env: Option<Seq<char>>) -> Seq<char> {
    match c.ralph_binary {
        Some(b) => b@,
        None => match from_env {
            Some(e) => e,
            None => "ralph"@,
        },
    }
}

pub fn resolve_ralph_binary(config: &LoopConfig, from_env: Option<String>) -> (r: String)
    ensures
        r@ == ralph_binary(
            *config,
            match from_env {
                Some(e) => Some(e@),
                None => None,
            },
        ),
{
    match &config.ralph_binary {
        Some(b) => b.clone(),
        None => match from_env {
            Some(e) => e,
            None => String::from_str("ralph"),
        },
    }
}

/// What a stage needs: its prompt template, whether it runs unattended, how
/// many iterations by default, and whether it takes a spec variable.
#[derive(Debug)]
pub struct StageSpec {
    pub template: String,
    pub afk: bool,
    pub iterations: u32,
    pub takes_spec: bool,
}

pub open spec fn stage_known(s: Seq<char>) -> bool {
    s == "spec"@ || s == "build"@ || s == "verify"@ || s == "test-plan"@ || s == "test"@ || s
        == "issues-log"@ || s == "issues-plan"@
}

/// The defaults of a known stage: `spec` and `issues-log` are interactive
/// with one iteration, the rest unattended with thirty; `issues-log` uses
/// the `issues` template; `build` and `test` take a spec.
pub fn stage_spec(stage: &str) -> (r: Option<StageSpec>)
    ensures
        r is Some <==> stage_known(stage@),
        r is Some ==> {
            let s = r->Some_0;
            &&& s.template@ == (if stage@ == "issues-log"@ { "issues"@ } else { stage@ })
            &&& s.afk == !(stage@ == "spec"@ || stage@ == "issues-log"@)
            &&& s.iterations == (if s.afk { 30u32 } else { 1u32 })
            &&& s.takes_spec == (stage@ == "build"@ || stage@ == "test"@)
        },
{
    let known = str_eq(stage, "spec") || str_eq(stage, "build") || str_eq(stage, "verify") || str_eq(
        stage,
        "test-plan",
    ) || str_eq(stage, "test") || str_eq(stage, "issues-log") || str_eq(stage, "issues-plan");
    if !known {
        return None;
    }
    let log = str_eq(stage, "issues-log");
    let interactive = str_eq(stage, "spec") || log;
    Some(
        StageSpec {
            template: if log { String::from_str("issues") } else { stage.to_owned() },
            afk: !interactive,
            iterations: if interactive { 1 } else { 30 },
            takes_spec: str_eq(stage, "build") || str_eq(stage, "test"),
        },
    )
}

/// A loop id: the stage, the spec where there is one, and the timestamp,
/// joined by `-`.
pub open spec fn loop_id_text(stage: Seq<char>, spec: Option<Seq<char>>, ts: Seq<char>) -> Seq<char> {
    match spec {
        Some(s) => stage + "-"@ + s + "-"@ + ts,
        None => stage + "-"@ + ts,
    }
}

pub fn loop_id_at(stage: &str, spec: Option<&str>, ts: &str) -> (r: String)
    ensures
        r@ == loop_id_text(
            stage@,
            opt_str_view(spec),
            ts@,
        ),
{
    match spec {
        Some(s) => stage.to_owned().concat("-").concat(s).concat("-").concat(ts),
        None => stage.to_owned().concat("-").concat(ts),
    }
}

pub open spec fn is_digit(c: char) -> bool {
    '0' <= c && c <= '9'
}

/// The shape of a `%Y%m%dT%H%M%S` timestamp whatever the year: at least 15
/// characters, ending in four digits (month and day), `T`, and six digits
/// (hours, minutes, seconds). Years 0 to 9999 make it exactly 15.
pub open spec fn stamp_shape(ts: Seq<char>) -> bool {
    &&& ts.len() >= 15
    &&& ts[ts.len() - 7] == 'T'
    &&& forall|k: int| ts.len() - 11 <= k < ts.len() && k != ts.len() - 7 ==> is_digit(#[trigger] ts[k])
}

/// Relies on `chrono::Local::now` and its `format` with `%Y%m%dT%H%M%S`: the
/// year (four digits, or signed and longer outside 0 to 9999), then
/// two-digit month and day, `T`, and two-digit hour, minute and second. The
/// value depends on the clock and the time zone; only its shape is promised.
#[verifier::external_body]
fn local_timestamp() -> (r: String)
    ensures
        stamp_shape(r@),
{
    chrono::Local::now().format("%Y%m%dT%H%M%S").to_string()
}

/// A loop id stamped with the local time now.
pub fn generate_loop_id(stage: &str, spec: Option<&str>) -> (r: String)
    ensures
        exists|ts: Seq<char>|
            stamp_shape(ts) && r@ == #[trigger] loop_id_text(
                stage@,
                opt_str_view(spec),
                ts,
            ),
{
    let ts = local_timestamp();
    loop_id_at(stage, spec, ts.as_str())
}

} // verus!
