//! The decisions of the Model Context Protocol server: which reply a
//! JSON-RPC request gets, and the text of a failing tool call. Reading and
//! writing the messages stays with the caller.

use vstd::prelude::*;
use crate::text::{append_chars, chars_eq, chars_of, decimal, decimal_chars, string_of};

verus! {

/// JSON-RPC: the method does not exist.
pub const METHOD_NOT_FOUND: i64 = -32601;

/// JSON-RPC: the message is not JSON.
pub const PARSE_ERROR: i64 = -32700;

/// Why a tool call failed.
#[derive(Clone, Copy, Debug, PartialEq, Eq, Structural)]
pub enum ToolFault {
    MissingParams,
    MissingName,
    UnknownTool,
}

/// What a request is answered with.
#[derive(Clone, Copy, Debug, PartialEq, Eq, Structural)]
pub enum Reply {
    /// The server's name, version and capabilities.
    Initialize,
    /// An empty result.
    Pong,
    /// The tool definitions.
    ToolList,
    /// Run the `check_duplication` tool.
    RunCheck,
    /// Run the `scan_duplication` tool.
    RunScan,
    /// A successful response whose result is flagged as a tool error.
    ToolError(ToolFault),
    /// A JSON-RPC error with this code.
    ProtocolError(i64),
}

/// The reply to `method`; for `tools/call`, whether it had parameters and
/// the tool name they gave, if any.
pub open spec fn reply_for(method: Seq<char>, has_params: bool, tool: Option<Seq<char>>) -> Reply {
    if method == "initialize"@ {
        Reply::Initialize
    } else if method == "ping"@ {
        Reply::Pong
    } else if method == "tools/list"@ {
        Reply::ToolList
    } else if method == "tools/call"@ {
        if !has_params {
            Reply::ToolError(ToolFault::MissingParams)
        } else {
            match tool {
                None => Reply::ToolError(ToolFault::MissingName),
                Some(name) => if name == "check_duplication"@ {
                    Reply::RunCheck
                } else if name == "scan_duplication"@ {
                    Reply::RunScan
                } else {
                    Reply::ToolError(ToolFault::UnknownTool)
                },
            }
        }
    } else {
        Reply::ProtocolError(METHOD_NOT_FOUND)
    }
}

fn is(s: &str, lit: &str) -> (r: bool)
    ensures
        r == (s@ == lit@),
{
    let a = chars_of(s);
    let b = chars_of(lit);
    chars_eq(a.as_slice(), b.as_slice())
}

/// Which reply a request gets. A failing tool is a successful response
/// flagged as an error, not a protocol error.
pub fn dispatch(method: &str, has_params: bool, tool: Option<&str>) -> (r: Reply)
    ensures
        r == reply_for(
            method@,
            has_params,
            match tool {
                Some(t) => Some(t@),
                None => None,
            },
        ),
{
    if is(method, "initialize") {
        Reply::Initialize
    } else if is(method, "ping") {
        Reply::Pong
    } else if is(method, "tools/list") {
        Reply::ToolList
    } else if is(method, "tools/call") {
        if !has_params {
            Reply::ToolError(ToolFault::MissingParams)
        } else {
            match tool {
                None => Reply::ToolError(ToolFault::MissingName),
                Some(name) => if is(name, "check_duplication") {
                    Reply::RunCheck
                } else if is(name, "scan_duplication") {
                    Reply::RunScan
                } else {
                    Reply::ToolError(ToolFault::UnknownTool)
                },
            }
        }
    } else {
        Reply::ProtocolError(METHOD_NOT_FOUND)
    }
}

/// The message of a failed tool call; `name` is the tool that was asked
/// for.
pub open spec fn fault_text(fault: ToolFault, name: Seq<char>) -> Seq<char> {
    match fault {
        ToolFault::MissingParams => "missing params"@,
        ToolFault::MissingName => "missing tool name"@,
        ToolFault::UnknownTool => "unknown tool: "@ + name,
    }
}

pub fn fault_message(fault: ToolFault, name: &str) -> (m: String)
    ensures
        m@ == fault_text(fault, name@),
{
    match fault {
        ToolFault::MissingParams => {
            let v = chars_of("missing params");
            string_of(v.as_slice())
        },
        ToolFault::MissingName => {
            let v = chars_of("missing tool name");
            string_of(v.as_slice())
        },
        ToolFault::UnknownTool => {
            let mut v = chars_of("unknown tool: ");
            let n = chars_of(name);
            append_chars(&mut v, n.as_slice());
            string_of(v.as_slice())
        },
    }
}

/// The summary line of a `check_duplication` result.
pub open spec fn check_summary_text(had_changes: bool, findings: nat) -> Seq<char> {
    if !had_changes {
        "No changes to check."@
    } else if findings == 0 {
        "No new duplicates of existing code."@
    } else {
        decimal(findings)
            + " new duplicate(s) of existing code. Reuse the original each finding points to instead of rewriting it."@
    }
}

pub fn check_summary(had_changes: bool, findings: usize) -> (s: String)
    ensures
        s@ == check_summary_text(had_changes, findings as nat),
{
    if !had_changes {
        let v = chars_of("No changes to check.");
        string_of(v.as_slice())
    } else if findings == 0 {
        let v = chars_of("No new duplicates of existing code.");
        string_of(v.as_slice())
    } else {
        let mut v = decimal_chars(findings as u64);
        let rest = chars_of(
            " new duplicate(s) of existing code. Reuse the original each finding points to instead of rewriting it.",
        );
        append_chars(&mut v, rest.as_slice());
        string_of(v.as_slice())
    }
}

/// A tool call is always answered successfully: a failing tool is flagged
/// in the result, never a JSON-RPC protocol error.
pub proof fn lemma_tool_calls_never_fail_the_protocol(has_params: bool, tool: Option<Seq<char>>)
    ensures
        !(reply_for("tools/call"@, has_params, tool) is ProtocolError),
{
}

/// Only unknown methods are protocol errors, and they all carry
/// `METHOD_NOT_FOUND`.
pub proof fn lemma_protocol_errors_are_unknown_methods(method: Seq<char>, has_params: bool, tool: Option<Seq<char>>)
    ensures
        reply_for(method, has_params, tool) is ProtocolError <==> (method != "initialize"@ && method
            != "ping"@ && method != "tools/list"@ && method != "tools/call"@),
        reply_for(method, has_params, tool) is ProtocolError ==> reply_for(method, has_params, tool)
            == Reply::ProtocolError(METHOD_NOT_FOUND),
{
}

/// The protocol version answered when the client asks for none.
pub open spec fn default_protocol() -> Seq<char> {
    "2025-06-18"@
}

/// The protocol version an `initialize` request is answered with: the one
/// the client asked for, else the default.
pub fn protocol_version(requested: Option<&str>) -> (v: String)
    ensures
        v@ == match requested {
            Some(r) => r@,
            None => default_protocol(),
        },
{
    match requested {
        Some(r) => {
            let c = chars_of(r);
            string_of(c.as_slice())
        },
        None => {
            let c = chars_of("2025-06-18");
            string_of(c.as_slice())
        },
    }
}

} // verus!
