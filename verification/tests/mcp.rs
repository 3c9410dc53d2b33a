use tesseract::mcp::{api_request_url, tool_for, McpTool};

#[test]
fn tools_by_name() {
    assert_eq!(tool_for("tesseract_query"), Ok(McpTool::Query));
    assert_eq!(tool_for("tesseract_insert"), Ok(McpTool::Insert));
    assert_eq!(tool_for("tesseract_status"), Ok(McpTool::Status));
    assert_eq!(tool_for("tesseract_delete"), Err("unknown tool: tesseract_delete".to_string()));
    assert_eq!(tool_for(""), Err("unknown tool: ".to_string()));
}

#[test]
fn request_urls() {
    assert_eq!(api_request_url("http://localhost:3000", "/query"), "http://localhost:3000/query");
    assert_eq!(api_request_url("http://localhost:3000///", "/insert"), "http://localhost:3000/insert");
    assert_eq!(api_request_url("", "/health/liveness"), "/health/liveness");
    assert_eq!(api_request_url("///", "/x"), "/x");
}
