use dupehound::mcp::{dispatch, fault_message, Reply, ToolFault, METHOD_NOT_FOUND};

#[test]
fn unknown_method_is_a_protocol_error() {
    let r = dispatch("does/not/exist", false, None);
    assert_eq!(r, Reply::ProtocolError(METHOD_NOT_FOUND));
    assert_eq!(METHOD_NOT_FOUND, -32601);
}

#[test]
fn ping_returns_empty_result() {
    let r = dispatch("ping", false, None);
    assert_eq!(r, Reply::Pong);
    assert!(!matches!(r, Reply::ProtocolError(_)));
}

#[test]
fn unknown_tool_is_an_is_error_result_not_a_protocol_error() {
    // params: { "name": "nope", "arguments": {} }
    let r = dispatch("tools/call", true, Some("nope"));
    assert!(!matches!(r, Reply::ProtocolError(_)));
    assert_eq!(r, Reply::ToolError(ToolFault::UnknownTool));
    assert_eq!(fault_message(ToolFault::UnknownTool, "nope"), "unknown tool: nope");
}

#[test]
fn missing_tool_name_is_an_is_error_result() {
    // params: { "arguments": {} }
    let r = dispatch("tools/call", true, None);
    assert_eq!(r, Reply::ToolError(ToolFault::MissingName));
    assert_eq!(fault_message(ToolFault::MissingName, ""), "missing tool name");
}

#[test]
fn initialize_echoes_the_requested_protocol_or_the_default() {
    assert_eq!(dupehound::mcp::protocol_version(Some("2025-03-26")), "2025-03-26");
    assert_eq!(dupehound::mcp::protocol_version(None), "2025-06-18");
}
