use kiro_rs::canonical::canonicalize_cache_value;
use kiro_rs::events::{MetadataEvent, TokenUsage};
use kiro_rs::json::{JsonValue, as_text};
use kiro_rs::tool::{
    CachePoint, InputSchema, Tool, ToolResult, ToolSpecification, ToolUseEntry, is_false,
};

#[test]
fn test_tool_result_success() {
    let result = ToolResult::success("tool-123".to_string(), "Operation completed".to_string());

    assert!(!result.is_error);
    assert_eq!(result.status, Some("success".to_string()));
}

#[test]
fn test_tool_result_error() {
    let result = ToolResult::error("tool-456".to_string(), "File not found".to_string());

    assert!(result.is_error);
    assert_eq!(result.status, Some("error".to_string()));
}

#[test]
fn test_tool_result_serialize() {
    let result = ToolResult::success("tool-789".to_string(), "Done".to_string());
    let json = canonicalize_cache_value(&result.to_json());

    assert!(json.contains("\"toolUseId\":\"tool-789\""));
    assert!(json.contains("\"status\":\"success\""));
    assert!(!json.contains("isError"));
}

#[test]
fn test_tool_use_entry() {
    let entry = ToolUseEntry::new("use-123".to_string(), "read_file".to_string())
        .with_input(JsonValue::parse(r#"{"path": "/test.txt"}"#).unwrap());

    let json = canonicalize_cache_value(&entry.to_json());
    assert!(json.contains("\"toolUseId\":\"use-123\""));
    assert!(json.contains("\"name\":\"read_file\""));
    assert!(json.contains("\"path\":\"/test.txt\""));
}

#[test]
fn test_input_schema_default() {
    let schema = InputSchema::default();
    assert_eq!(as_text(schema.json.get("type")), Some("object"));
}

#[test]
fn test_tool_specification_serializes_as_kiro_tool_entry() {
    let tool = Tool::specification(ToolSpecification {
        name: "Read".to_string(),
        description: "Read files".to_string(),
        input_schema: InputSchema::default(),
    });

    let value = tool.to_json();
    assert!(value.get("toolSpecification").is_some());
    assert_eq!(as_text(value.get("toolSpecification").unwrap().get("name")), Some("Read"));
}

#[test]
fn test_cache_point_serializes_as_kiro_tool_entry() {
    let tool = Tool::cache_point_default();

    let value = tool.to_json();
    assert_eq!(as_text(value.get("cachePoint").unwrap().get("type")), Some("default"));
    assert!(tool.is_cache_point());
    assert_eq!(tool.tool_name(), None);
}

#[test]
fn tools_are_sent_in_their_exact_shape() {
    let tool = Tool::specification(ToolSpecification {
        name: "Read".to_string(),
        description: "Read files".to_string(),
        input_schema: InputSchema::from_json(JsonValue::parse(r#"{"type":"object"}"#).unwrap()),
    });
    assert_eq!(tool.tool_name(), Some("Read"));
    assert!(!tool.is_cache_point());
    assert_eq!(
        canonicalize_cache_value(&tool.to_json()),
        "{\"toolSpecification\":{\"description\":\"Read files\",\
         \"inputSchema\":{\"json\":{\"type\":\"object\"}},\"name\":\"Read\"}}"
    );
    assert_eq!(CachePoint::default_marker().kind, "default");
    assert_eq!(
        canonicalize_cache_value(&InputSchema::default().json),
        r#"{"properties":{},"type":"object"}"#
    );
}

#[test]
fn results_are_sent_in_their_exact_shape() {
    let error = ToolResult::error("id".to_string(), "no".to_string());
    assert_eq!(
        canonicalize_cache_value(&error.to_json()),
        r#"{"content":[{"text":"no"}],"isError":true,"status":"error","toolUseId":"id"}"#
    );
    let bare = ToolResult {
        tool_use_id: "id".to_string(),
        content: Vec::new(),
        status: None,
        is_error: false,
    };
    assert_eq!(canonicalize_cache_value(&bare.to_json()), r#"{"content":[],"toolUseId":"id"}"#);
    let entry = ToolUseEntry::new("id".to_string(), "name".to_string());
    assert_eq!(
        canonicalize_cache_value(&entry.to_json()),
        r#"{"input":{},"name":"name","toolUseId":"id"}"#
    );
    assert!(is_false(&false));
    assert!(!is_false(&true));
}

#[test]
fn input_tokens_count_cache_reads() {
    let usage = TokenUsage {
        uncached_input_tokens: 50,
        cache_read_input_tokens: 40,
        cache_write_input_tokens: 10,
        output_tokens: 20,
        total_tokens: 120,
    };
    let event = MetadataEvent { token_usage: Some(usage) };
    assert_eq!(event.anthropic_input_tokens(), Some(90));
    assert_eq!(MetadataEvent::default().anthropic_input_tokens(), None);
    assert_eq!(
        MetadataEvent { token_usage: Some(TokenUsage::default()) }.anthropic_input_tokens(),
        Some(0)
    );
}
