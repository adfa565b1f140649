//! The MCP (Model Context Protocol) endpoint's dispatch: which JSON-RPC
//! method a request names, which tool a call names, and the error texts.
//! Building the JSON replies and running the tools is the caller's part.
use vstd::prelude::*;

use crate::text::{concat_string, same, starts_with, starts_with_exec, to_chars};

verus! {

/// The MCP protocol revision served.
pub const PROTOCOL_VERSION: &'static str = "2024-11-05";

/// A JSON-RPC method of the endpoint.
#[derive(Debug, Clone, Copy, PartialEq, Eq, Structural)]
pub enum McpMethod {
    /// `notifications/…`: acknowledged, nothing else.
    Notification,
    Initialize,
    Ping,
    ToolsList,
    ToolsCall,
    /// Answered with `method not found`.
    Unknown,
}

pub open spec fn method_of(m: Seq<char>) -> McpMethod {
    if starts_with(m, "notifications/"@) {
        McpMethod::Notification
    } else if m == "initialize"@ {
        McpMethod::Initialize
    } else if m == "ping"@ {
        McpMethod::Ping
    } else if m == "tools/list"@ {
        McpMethod::ToolsList
    } else if m == "tools/call"@ {
        McpMethod::ToolsCall
    } else {
        McpMethod::Unknown
    }
}

pub fn mcp_method(method: &str) -> (r: McpMethod)
    ensures
        r == method_of(method@),
{
    let m = to_chars(method);
    if starts_with_exec(&m, &to_chars("notifications/")) {
        McpMethod::Notification
    } else if same(&m, &to_chars("initialize")) {
        McpMethod::Initialize
    } else if same(&m, &to_chars("ping")) {
        McpMethod::Ping
    } else if same(&m, &to_chars("tools/list")) {
        McpMethod::ToolsList
    } else if same(&m, &to_chars("tools/call")) {
        McpMethod::ToolsCall
    } else {
        McpMethod::Unknown
    }
}

/// A tool of the endpoint.
#[derive(Debug, Clone, Copy, PartialEq, Eq, Structural)]
pub enum McpTool {
    QueryGraph,
    ListPersons,
    ServerHealth,
    Unknown,
}

pub open spec fn tool_of(name: Seq<char>) -> McpTool {
    if name == "query_graph"@ {
        McpTool::QueryGraph
    } else if name == "list_persons"@ {
        McpTool::ListPersons
    } else if name == "server_health"@ {
        McpTool::ServerHealth
    } else {
        McpTool::Unknown
    }
}

pub fn mcp_tool(name: &str) -> (r: McpTool)
    ensures
        r == tool_of(name@),
{
    let n = to_chars(name);
    if same(&n, &to_chars("query_graph")) {
        McpTool::QueryGraph
    } else if same(&n, &to_chars("list_persons")) {
        McpTool::ListPersons
    } else if same(&n, &to_chars("server_health")) {
        McpTool::ServerHealth
    } else {
        McpTool::Unknown
    }
}

/// `method not found: <method>`.
pub fn method_not_found(method: &str) -> (r: String)
    ensures
        r@ == "method not found: "@ + method@,
{
    concat_string(&to_chars("method not found: "), &to_chars(method))
}

/// `unknown tool: <name>`.
pub fn unknown_tool(name: &str) -> (r: String)
    ensures
        r@ == "unknown tool: "@ + name@,
{
    concat_string(&to_chars("unknown tool: "), &to_chars(name))
}

} // verus!
