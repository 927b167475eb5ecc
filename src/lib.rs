//! Issue tracking and agent-loop orchestration: the tracker's data model and
//! engine, the loop orchestrator's decisions, and the agent stream formatter.

pub mod count;
pub mod detail;
pub mod doctor;
pub mod error;
pub mod format;
pub mod graph;
pub mod harness;
pub mod id;
pub mod orchestrate;
pub mod order;
pub mod prompt;
pub mod query;
pub mod records;
pub mod scaffold;
pub mod store;
pub mod template;
pub mod text;
pub mod transfer;
pub mod types;
pub mod update;

pub use count::CountOutcome;
pub use error::{ErrorResponse, PensaError};
pub use format::{
    format_event, format_tool_call, truncate, ContentBlock, InputField, InputValue, StreamEvent,
};
pub use id::generate_id;
pub use orchestrate::{
    build_ralph_args, exit_message, generate_loop_id, resolve_ralph_binary, stage_spec,
    LoopConfig, StageSpec,
};
pub use prompt::{find_unresolved_tokens, substitute};
pub use query::SortField;
pub use records::{
    Comment, CountGroup, CountResult, CreateIssueParams, Dep, DepTreeNode, Event,
    GroupedCountResult, Issue, IssueDetail, ListFilters, StatusEntry, Timestamp, UpdateFields,
};
pub use store::Db;
pub use template::DOCKERFILE;
pub use transfer::Snapshot;
pub use types::{
    default_direction, default_priority, IssueType, OutputMode, ParseEnumError, Priority, Status,
};
