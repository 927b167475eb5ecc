use springfield::{format_event, truncate, ContentBlock, InputField, InputValue, StreamEvent};

fn field(key: &str, value: InputValue) -> InputField {
    InputField { key: key.into(), value }
}

fn text(s: &str) -> InputValue {
    InputValue::Str(s.into())
}

fn tool(name: &str, input: Vec<InputField>) -> StreamEvent {
    StreamEvent::Assistant(vec![ContentBlock::ToolUse { name: name.into(), input }])
}

#[test]
fn text_block_passthrough() {
    let ev = StreamEvent::Assistant(vec![ContentBlock::Text("Hello world".into())]);
    assert_eq!(format_event(&ev).unwrap(), "Hello world");
}

#[test]
fn read_tool_basic() {
    let ev = tool("Read", vec![field("file_path", text("/foo/bar.rs"))]);
    assert_eq!(format_event(&ev).unwrap(), "-> Read(/foo/bar.rs)");
}

#[test]
fn read_tool_with_offset_and_limit() {
    let ev = tool(
        "Read",
        vec![
            field("file_path", text("/foo/bar.rs")),
            field("offset", InputValue::UInt(430)),
            field("limit", InputValue::UInt(80)),
        ],
    );
    assert_eq!(format_event(&ev).unwrap(), "-> Read(/foo/bar.rs 430:80)");
}

#[test]
fn read_tool_with_offset_only_and_limit_only() {
    let ev = tool("Read", vec![field("file_path", text("/a.rs")), field("offset", InputValue::UInt(7))]);
    assert_eq!(format_event(&ev).unwrap(), "-> Read(/a.rs 7)");
    let ev = tool("Read", vec![field("limit", InputValue::UInt(12)), field("file_path", text("/a.rs"))]);
    assert_eq!(format_event(&ev).unwrap(), "-> Read(/a.rs :12)");
    let ev = tool("Read", vec![]);
    assert_eq!(format_event(&ev).unwrap(), "-> Read(?)");
}

#[test]
fn edit_tool_shows_only_path() {
    let ev = tool("Edit", vec![field("file_path", text("/foo/bar.rs")), field("old_string", text("x"))]);
    assert_eq!(format_event(&ev).unwrap(), "-> Edit(/foo/bar.rs)");
}

#[test]
fn write_tool_shows_only_path() {
    let ev = tool("Write", vec![field("file_path", text("/foo/new.rs")), field("content", text("x"))]);
    assert_eq!(format_event(&ev).unwrap(), "-> Write(/foo/new.rs)");
}

#[test]
fn bash_tool_shows_command() {
    let ev = tool("Bash", vec![field("command", text("git status"))]);
    assert_eq!(format_event(&ev).unwrap(), "-> Bash(git status)");
}

#[test]
fn bash_tool_truncates_long_command() {
    let long = "x".repeat(150);
    let ev = tool("Bash", vec![field("command", text(&long))]);
    let out = format_event(&ev).unwrap();
    let inner = out.strip_prefix("-> Bash(").unwrap().strip_suffix(")").unwrap();
    assert_eq!(inner.len(), 103);
    assert!(out.starts_with("-> Bash("));
    assert!(out.ends_with("...)"));
}

#[test]
fn glob_tool_shows_pattern() {
    let ev = tool("Glob", vec![field("pattern", text("specs/**/*.md"))]);
    assert_eq!(format_event(&ev).unwrap(), "-> Glob(specs/**/*.md)");
}

#[test]
fn grep_tool_shows_pattern() {
    let ev = tool("Grep", vec![field("pattern", text("GgufModelBuilder")), field("path", text("src"))]);
    assert_eq!(format_event(&ev).unwrap(), "-> Grep(GgufModelBuilder)");
}

#[test]
fn todowrite_shows_item_count() {
    let ev = tool("TodoWrite", vec![field("todos", InputValue::Array(3))]);
    assert_eq!(format_event(&ev).unwrap(), "-> TodoWrite(3 items)");
}

#[test]
fn unknown_tool_fallback() {
    let ev = tool("WebSearch", vec![field("limit", InputValue::UInt(3)), field("query", text("rust serde"))]);
    assert_eq!(format_event(&ev).unwrap(), "-> WebSearch(rust serde)");
    let ev = tool("Other", vec![field("n", InputValue::Other)]);
    assert_eq!(format_event(&ev).unwrap(), "-> Other()");
}

#[test]
fn result_returns_text() {
    let ev = StreamEvent::Result("Done. Updated the file.".into());
    assert_eq!(format_event(&ev).unwrap(), "Done. Updated the file.");
}

#[test]
fn unknown_event_type_returns_none() {
    assert!(format_event(&StreamEvent::Unknown).is_none());
}

#[test]
fn multiple_content_blocks_joined() {
    let ev = StreamEvent::Assistant(vec![
        ContentBlock::ToolUse { name: "Read".into(), input: vec![field("file_path", text("/a.rs"))] },
        ContentBlock::Unknown,
        ContentBlock::ToolUse { name: "Read".into(), input: vec![field("file_path", text("/b.rs"))] },
    ]);
    assert_eq!(format_event(&ev).unwrap(), "-> Read(/a.rs)\n-> Read(/b.rs)");
}

#[test]
fn empty_content_returns_none() {
    assert!(format_event(&StreamEvent::Assistant(vec![])).is_none());
    assert!(format_event(&StreamEvent::Assistant(vec![ContentBlock::Unknown])).is_none());
}

#[test]
fn truncate_respects_utf8() {
    let s = "é".repeat(50);
    let truncated = truncate(&s, 10);
    assert!(truncated.ends_with("..."));
    let without_dots = &truncated[..truncated.len() - 3];
    assert_eq!(without_dots.chars().count(), 10);
}

#[test]
fn truncate_short_string_unchanged() {
    assert_eq!(truncate("hello", 100), "hello");
}

#[test]
fn truncate_counts_characters_not_bytes() {
    let s = "é".repeat(60);
    assert_eq!(truncate(&s, 100), s);
    assert_eq!(truncate("abcdef", 3), "abc...");
    assert_eq!(truncate("abc", 3), "abc");
}
