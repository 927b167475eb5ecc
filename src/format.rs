use vstd::prelude::*;
use vstd::string::{StrSliceExecFns, StringExecFns};

use crate::text::{decimal, decimal_text};
use crate::types::str_eq;

verus! {

/// What the formatter reads of one value of a tool's input.
#[derive(Debug)]
pub enum InputValue {
    Str(String),
    /// A number that is a non-negative integer.
    UInt(u64),
    /// An array, by its length.
    Array(usize),
    Other,
}

/// One field of a tool's input object, in the object's order.
#[derive(Debug)]
pub struct InputField {
    pub key: String,
    pub value: InputValue,
}

/// One block of an assistant message.
#[derive(Debug)]
pub enum ContentBlock {
    Text(String),
    ToolUse { name: String, input: Vec<InputField> },
    Unknown,
}

/// One event of the agent's output stream.
#[derive(Debug)]
pub enum StreamEvent {
    Assistant(Vec<ContentBlock>),
    Result(String),
    Unknown,
}

/// The first `max` characters and `...`, or the text itself where it is no
/// longer than `max`.
pub open spec fn truncated(s: Seq<char>, max: nat) -> Seq<char> {
    if s.len() <= max {
        s
    } else {
        s.take(max as int) + "..."@
    }
}

/// Cuts a text to at most `max` characters, marking a cut with `...`. The
/// cut falls between characters, so the result is valid text.
pub fn truncate(s: &str, max: usize) -> (r: String)
    ensures
        r@ == truncated(s@, max as nat),
        s@.len() > max ==> r@.len() == max + 3 && r@.take(max as int) == s@.take(max as int),
{
    let n = s.unicode_len();
    if n <= max {
        return s.to_owned();
    }
    let head = s.substring_char(0, max);
    proof {
        reveal_strlit("...");
        assert(head@ =~= s@.take(max as int));
    }
    let r = head.to_owned().concat("...");
    proof {
        assert(r@.take(max as int) =~= s@.take(max as int));
    }
    r
}

/// The value of the first field named `key`.
pub open spec fn lookup(input: Seq<InputField>, key: Seq<char>) -> Option<InputValue>
    decreases input.len(),
{
    if input.len() == 0 {
        None
    } else if input[0].key@ == key {
        Some(input[0].value)
    } else {
        lookup(input.drop_first(), key)
    }
}

/// A text field, or `?` where it is missing or not text.
pub open spec fn text_or_mark(input: Seq<InputField>, key: Seq<char>) -> Seq<char> {
    match lookup(input, key) {
        Some(InputValue::Str(s)) => s@,
        _ => "?"@,
    }
}

pub open spec fn count_of(input: Seq<InputField>, key: Seq<char>) -> Option<u64> {
    match lookup(input, key) {
        Some(InputValue::UInt(n)) => Some(n),
        _ => None,
    }
}

/// The first text value among the fields, cut to eighty characters; empty
/// where there is none.
pub open spec fn first_text(input: Seq<InputField>) -> Seq<char>
    decreases input.len(),
{
    if input.len() == 0 {
        Seq::empty()
    } else {
        match input[0].value {
            InputValue::Str(s) => truncated(s@, 80),
            _ => first_text(input.drop_first()),
        }
    }
}

/// What a tool call shows between the parentheses.
pub open spec fn tool_detail(name: Seq<char>, input: Seq<InputField>) -> Seq<char> {
    if name == "Read"@ {
        let p = text_or_mark(input, "file_path"@);
        match (count_of(input, "offset"@), count_of(input, "limit"@)) {
            (Some(o), Some(l)) => p + " "@ + decimal_text(o as nat) + ":"@ + decimal_text(l as nat),
            (Some(o), None) => p + " "@ + decimal_text(o as nat),
            (None, Some(l)) => p + " :"@ + decimal_text(l as nat),
            (None, None) => p,
        }
    } else if name == "Edit"@ || name == "Write"@ {
        text_or_mark(input, "file_path"@)
    } else if name == "Bash"@ {
        truncated(text_or_mark(input, "command"@), 100)
    } else if name == "Glob"@ || name == "Grep"@ {
        text_or_mark(input, "pattern"@)
    } else if name == "TodoWrite"@ {
        decimal_text(
            match lookup(input, "todos"@) {
                Some(InputValue::Array(n)) => n as nat,
                _ => 0,
            },
        ) + " items"@
    } else {
        first_text(input)
    }
}

/// The line for a tool call: `-> Name(detail)`.
pub open spec fn tool_line(name: Seq<char>, input: Seq<InputField>) -> Seq<char> {
    "-> "@ + name + "("@ + tool_detail(name, input) + ")"@
}

/// The texts that the blocks produce, in order; unknown blocks produce none.
pub open spec fn block_texts(blocks: Seq<ContentBlock>) -> Seq<Seq<char>>
    decreases blocks.len(),
{
    if blocks.len() == 0 {
        Seq::empty()
    } else {
        let rest = block_texts(blocks.drop_last());
        match blocks.last() {
            ContentBlock::Text(t) => rest.push(t@),
            ContentBlock::ToolUse { name, input } => rest.push(tool_line(name@, input@)),
            ContentBlock::Unknown => rest,
        }
    }
}

pub open spec fn lines_joined(s: Seq<Seq<char>>) -> Seq<char>
    decreases s.len(),
{
    if s.len() == 0 {
        Seq::empty()
    } else if s.len() == 1 {
        s[0]
    } else {
        lines_joined(s.drop_last()) + "\n"@ + s.last()
    }
}

/// What the formatter shows for an event, if anything.
pub open spec fn event_text(ev: StreamEvent) -> Option<Seq<char>> {
    match ev {
        StreamEvent::Assistant(blocks) => {
            let parts = block_texts(blocks@);
            if parts.len() == 0 {
                None
            } else {
                Some(lines_joined(parts))
            }
        },
        StreamEvent::Result(r) => Some(r@),
        StreamEvent::Unknown => None,
    }
}

fn lookup_exec<'a>(input: &'a Vec<InputField>, key: &str) -> (r: Option<&'a InputValue>)
    ensures
        match r {
            Some(v) => lookup(input@, key@) == Some(*v),
            None => lookup(input@, key@) is None,
        },
{
    let mut i: usize = 0;
    proof {
        assert(input@.subrange(0, input@.len() as int) =~= input@);
    }
    while i < input.len()
        invariant
            i <= input@.len(),
            lookup(input@, key@) == lookup(input@.subrange(i as int, input@.len() as int), key@),
        decreases input@.len() - i,
    {
        proof {
            let rest = input@.subrange(i as int, input@.len() as int);
            assert(rest.drop_first() =~= input@.subrange(i + 1, input@.len() as int));
            assert(rest[0] == input@[i as int]);
        }
        if str_eq(input[i].key.as_str(), key) {
            return Some(&input[i].value);
        }
        i = i + 1;
    }
    None
}

fn text_or_mark_exec(input: &Vec<InputField>, key: &str) -> (r: String)
    ensures
        r@ == text_or_mark(input@, key@),
{
    match lookup_exec(input, key) {
        Some(InputValue::Str(s)) => s.clone(),
        _ => String::from_str("?"),
    }
}

fn count_exec(input: &Vec<InputField>, key: &str) -> (r: Option<u64>)
    ensures
        r == count_of(input@, key@),
{
    match lookup_exec(input, key) {
        Some(InputValue::UInt(n)) => Some(*n),
        _ => None,
    }
}

fn first_text_exec(input: &Vec<InputField>) -> (r: String)
    ensures
        r@ == first_text(input@),
{
    let mut i: usize = 0;
    proof {
        assert(input@.subrange(0, input@.len() as int) =~= input@);
    }
    while i < input.len()
        invariant
            i <= input@.len(),
            first_text(input@) == first_text(input@.subrange(i as int, input@.len() as int)),
        decreases input@.len() - i,
    {
        proof {
            let rest = input@.subrange(i as int, input@.len() as int);
            assert(rest.drop_first() =~= input@.subrange(i + 1, input@.len() as int));
            assert(rest[0] == input@[i as int]);
        }
        if let InputValue::Str(s) = &input[i].value {
            return truncate(s.as_str(), 80);
        }
        i = i + 1;
    }
    proof {
        assert(input@.subrange(i as int, input@.len() as int).len() == 0);
    }
    String::new()
}

/// The text between the parentheses of a tool call.
pub fn format_tool_detail(name: &str, input: &Vec<InputField>) -> (r: String)
    ensures
        r@ == tool_detail(name@, input@),
{
    if str_eq(name, "Read") {
        let p = text_or_mark_exec(input, "file_path");
        match (count_exec(input, "offset"), count_exec(input, "limit")) {
            (Some(o), Some(l)) => p.concat(" ").concat(decimal(o).as_str()).concat(":").concat(
                decimal(l).as_str(),
            ),
            (Some(o), None) => p.concat(" ").concat(decimal(o).as_str()),
            (None, Some(l)) => p.concat(" :").concat(decimal(l).as_str()),
            (None, None) => p,
        }
    } else if str_eq(name, "Edit") || str_eq(name, "Write") {
        text_or_mark_exec(input, "file_path")
    } else if str_eq(name, "Bash") {
        let c = text_or_mark_exec(input, "command");
        truncate(c.as_str(), 100)
    } else if str_eq(name, "Glob") || str_eq(name, "Grep") {
        text_or_mark_exec(input, "pattern")
    } else if str_eq(name, "TodoWrite") {
        let n: u64 = match lookup_exec(input, "todos") {
            Some(InputValue::Array(n)) => *n as u64,
            _ => 0,
        };
        decimal(n).concat(" items")
    } else {
        first_text_exec(input)
    }
}

/// The line for a tool call.
pub fn format_tool_call(name: &str, input: &Vec<InputField>) -> (r: String)
    ensures
        r@ == tool_line(name@, input@),
{
    String::from_str("-> ").concat(name).concat("(").concat(format_tool_detail(name, input).as_str()).concat(
        ")",
    )
}

/// What to show for one event of the stream: the text and tool lines of
/// an assistant message joined by newlines, or a result's text.
pub fn format_event(ev: &StreamEvent) -> (r: Option<String>)
    ensures
        match r {
            Some(t) => event_text(*ev) == Some(t@),
            None => event_text(*ev) is None,
        },
{
    match ev {
        StreamEvent::Assistant(blocks) => {
            let mut parts: Vec<String> = Vec::new();
            let mut i: usize = 0;
            while i < blocks.len()
                invariant
                    i <= blocks@.len(),
                    parts@.map_values(|s: String| s@) == block_texts(blocks@.take(i as int)),
                decreases blocks@.len() - i,
            {
                proof {
                    assert(blocks@.take(i + 1).drop_last() =~= blocks@.take(i as int));
                }
                match &blocks[i] {
                    ContentBlock::Text(t) => {
                        parts.push(t.clone());
                    },
                    ContentBlock::ToolUse { name, input } => {
                        parts.push(format_tool_call(name.as_str(), input));
                    },
                    ContentBlock::Unknown => {},
                }
                proof {
                    assert(parts@.map_values(|s: String| s@) =~= block_texts(blocks@.take(i + 1)));
                }
                i = i + 1;
            }
            proof {
                assert(blocks@.take(blocks@.len() as int) =~= blocks@);
            }
            if parts.len() == 0 {
                return None;
            }
            let mut out = String::new();
            let mut k: usize = 0;
            let ghost v = parts@.map_values(|s: String| s@);
            while k < parts.len()
                invariant
                    k <= parts@.len(),
                    v == parts@.map_values(|s: String| s@),
                    out@ == lines_joined(v.take(k as int)),
                decreases parts@.len() - k,
            {
                proof {
                    assert(v.take(k + 1).drop_last() =~= v.take(k as int));
                }
                if k == 0 {
                    out = parts[k].clone();
                    proof {
                        assert(v.take(1) =~= seq![v[0]]);
                    }
                } else {
                    out = out.concat("\n").concat(parts[k].as_str());
                }
                k = k + 1;
            }
            proof {
                assert(v.take(v.len() as int) =~= v);
            }
            Some(out)
        },
        StreamEvent::Result(r) => Some(r.clone()),
        StreamEvent::Unknown => None,
    }
}

} // verus!
