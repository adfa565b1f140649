use querykey_server::mcp::{mcp_method, mcp_tool, method_not_found, unknown_tool, McpMethod, McpTool, PROTOCOL_VERSION};

#[test]
fn methods_and_tools_are_dispatched() {
    assert_eq!(mcp_method("notifications/initialized"), McpMethod::Notification);
    assert_eq!(mcp_method("initialize"), McpMethod::Initialize);
    assert_eq!(mcp_method("ping"), McpMethod::Ping);
    assert_eq!(mcp_method("tools/list"), McpMethod::ToolsList);
    assert_eq!(mcp_method("tools/call"), McpMethod::ToolsCall);
    assert_eq!(mcp_method("resources/list"), McpMethod::Unknown);
    assert_eq!(mcp_tool("query_graph"), McpTool::QueryGraph);
    assert_eq!(mcp_tool("list_persons"), McpTool::ListPersons);
    assert_eq!(mcp_tool("server_health"), McpTool::ServerHealth);
    assert_eq!(mcp_tool("rm -rf"), McpTool::Unknown);
    assert_eq!(method_not_found("x/y"), "method not found: x/y");
    assert_eq!(unknown_tool("z"), "unknown tool: z");
    assert_eq!(PROTOCOL_VERSION, "2024-11-05");
}
