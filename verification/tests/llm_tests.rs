use hunger::llm::{
    compact_lines, compact_text, extract_balanced_json, extract_fenced_json, extract_json_object,
    should_retry_without_response_format, ResponseFormat,
};

#[test]
fn retries_when_response_format_is_rejected() {
    assert!(should_retry_without_response_format(
        400,
        r#"{"error":"'response_format.type' must be 'json_schema' or 'text'"}"#,
        Some(&ResponseFormat::json_object())
    ));
}

#[test]
fn does_not_retry_plain_400s_without_response_format_issue() {
    assert!(!should_retry_without_response_format(
        400,
        r#"{"error":"unknown model"}"#,
        Some(&ResponseFormat::json_object())
    ));
}

#[test]
fn retry_needs_a_400_and_a_hint() {
    let body = r#"{"error":"RESPONSE_FORMAT json_object is Unsupported"}"#;
    assert!(should_retry_without_response_format(400, body, Some(&ResponseFormat::json_object())));
    assert!(!should_retry_without_response_format(500, body, Some(&ResponseFormat::json_object())));
    assert!(!should_retry_without_response_format(400, body, None));
    assert_eq!(ResponseFormat::json_object().response_type, "json_object");
}

#[test]
fn embedded_json_after_reasoning_preamble_is_found() {
    let content = r#"Here is the judgment.

{
  "factual_novelty": 0.2,
  "analysis": "This page mostly repeats known archive navigation.",
  "recommended_action": "ignore",
  "recommended_link_hints": []
}"#;
    let json = extract_json_object(content).expect("should find embedded JSON");
    assert!(json.starts_with('{'));
    assert!(json.ends_with('}'));
    assert!(json.contains("\"ignore\""));
}

#[test]
fn whole_reply_json_is_kept_trimmed() {
    assert_eq!(extract_json_object("  {\"a\": 1}\n").as_deref(), Some("{\"a\": 1}"));
    assert_eq!(extract_json_object("no json here"), None);
}

#[test]
fn fenced_json_is_found() {
    let content = "Result:\n```json\n  {\"a\": [1, 2]}  \n```\ntrailing";
    assert_eq!(extract_fenced_json(content).as_deref(), Some("{\"a\": [1, 2]}"));
    assert_eq!(extract_json_object(content).as_deref(), Some("{\"a\": [1, 2]}"));
    assert_eq!(extract_fenced_json("```\nnot json\n```"), None);
    assert_eq!(extract_fenced_json("no fence"), None);
}

#[test]
fn balanced_scan_ignores_braces_in_strings() {
    let content = r#"{"text": "a } brace \" and { more", "n": {"k": 1}} tail }"#;
    assert_eq!(
        extract_balanced_json(content).as_deref(),
        Some(r#"{"text": "a } brace \" and { more", "n": {"k": 1}}"#)
    );
    assert_eq!(extract_balanced_json("{\"a\": }"), None);
}

#[test]
fn later_object_is_used_when_first_is_broken() {
    let content = "prefix {broken} then {\"ok\": true} end";
    assert_eq!(extract_json_object(content).as_deref(), Some("{\"ok\": true}"));
}

#[test]
fn compact_text_collapses_and_cuts() {
    assert_eq!(compact_text("  a \n\t b  ", 10), "a b");
    assert_eq!(compact_text("alpha beta gamma", 5), "alpha...");
    assert_eq!(compact_lines("x\ny", 3), "x y");
    assert_eq!(compact_text("", 0), "");
}
