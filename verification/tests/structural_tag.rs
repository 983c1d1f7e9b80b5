use serde_json::Value;
use structural_tag::args::gemma4_tool_args_content;
use structural_tag::gemma4::gemma4_tool_tag;
use structural_tag::markers::{
    GEMMA4_REASONING_END, GEMMA4_THOUGHT_BEGIN, GEMMA4_TOOL_CALL_BEGIN, GEMMA4_TOOL_CALL_END,
};
use structural_tag::{
    gemma4_structural_tag, parser_has_structural_tag, structural_tag_for_parser, Json,
    ToolDefinition,
};

fn value(text: &str) -> Value {
    serde_json::from_str(text).unwrap()
}

fn json(text: &str) -> Json {
    Json::from_value(&value(text))
}

fn tools() -> Vec<ToolDefinition> {
    vec![
        ToolDefinition { name: "fetch_seller_details".to_string(), parameters: None },
        ToolDefinition { name: "hangup_call".to_string(), parameters: None },
    ]
}

fn names() -> Vec<String> {
    tools().into_iter().map(|t| t.name).collect()
}

fn schema() -> Json {
    json(
        r#"{
            "type": "object",
            "properties": {"assistant_reply": {"type": "string"}},
            "required": ["assistant_reply"]
        }"#,
    )
}

/// The tag for `tools()`, as a `serde_json` value.
fn tag_of(
    content_schema: Option<&Json>,
    mandatory: bool,
    reasoning: bool,
    tool_only: bool,
    parallel: bool,
    opened: bool,
) -> Value {
    gemma4_structural_tag(
        &tools(),
        content_schema,
        mandatory,
        reasoning,
        tool_only,
        parallel,
        opened,
    )
    .unwrap()
    .to_value()
}

fn args_content(parameters: Option<&Json>) -> Value {
    gemma4_tool_args_content(parameters).to_value()
}

#[test]
fn no_tools_yields_no_tag() {
    assert!(
        gemma4_structural_tag(&[], Some(&schema()), false, true, false, false, false).is_none()
    );
}

/// Every tool branch must be pinned to a single call, so no branch can repeat a tool.
fn assert_no_repeatable_branch(tag: &Value) {
    let dumped = serde_json::to_string(tag).unwrap();
    for (i, _) in dumped.match_indices("tags_with_separator") {
        assert!(
            dumped[i..].contains("\"stop_after_first\":true"),
            "a repeatable tool branch survived: {dumped}"
        );
    }
}

#[test]
fn schema_and_tools_require_the_envelope_by_default() {
    let tag = tag_of(Some(&schema()), false, false, false, false, false);
    assert_eq!(tag["type"], "structural_tag");
    assert_eq!(tag["format"]["type"], "sequence");
    assert_eq!(tag["format"]["elements"][0]["type"], "json_schema");
    // at most one call: optional wrapper (so a speech turn can stop) around a
    // stop_after_first branch (so a second call is unsamplable)
    assert_eq!(tag["format"]["elements"][1]["type"], "optional");
    assert_eq!(tag["format"]["elements"][1]["content"]["type"], "tags_with_separator");
    assert_eq!(tag["format"]["elements"][1]["content"]["stop_after_first"], true);
}

#[test]
fn a_tool_only_turn_is_opt_in() {
    let tag = tag_of(Some(&schema()), false, false, true, false, false);
    assert_eq!(tag["format"]["type"], "or");
    assert_no_repeatable_branch(&tag);
}

#[test]
fn every_offered_tool_is_reachable_as_the_one_call() {
    let tag = tag_of(Some(&schema()), false, false, false, false, false);
    let branch = &tag["format"]["elements"][1]["content"];
    assert_eq!(branch["stop_after_first"], true);
    let tags = branch["tags"].as_array().unwrap();
    assert_eq!(tags.len(), names().len());
    for (t, name) in tags.iter().zip(names()) {
        assert_eq!(t["begin"], format!("{GEMMA4_TOOL_CALL_BEGIN}{name}"));
    }
}

#[test]
fn forced_choice_drops_the_content_branch() {
    let tag = tag_of(Some(&schema()), true, false, false, false, false);
    // tool calls only, pinned to exactly one
    assert_eq!(tag["format"]["type"], "tags_with_separator");
    assert_eq!(tag["format"]["stop_after_first"], true);
}

#[test]
fn without_schema_the_native_tag_is_used_alone() {
    let tag = tag_of(None, true, false, false, false, false);
    assert_eq!(tag["format"]["type"], "tags_with_separator");
}

#[test]
fn reasoning_prefix_is_optional_and_wraps_the_body() {
    let tag = tag_of(None, false, true, false, false, false);
    assert_eq!(tag["format"]["type"], "sequence");
    assert_eq!(tag["format"]["elements"][0]["type"], "optional");
    assert_eq!(tag["format"]["elements"][0]["content"]["end"], GEMMA4_REASONING_END);
}

#[test]
fn tool_names_are_constrained_but_arguments_are_not() {
    let tag = tag_of(None, false, false, false, false, false);
    let first = &tag["format"]["tags"][0];
    assert_eq!(first["begin"], "<|tool_call>call:fetch_seller_details");
    assert_eq!(first["content"]["type"], "any_text");
    assert_eq!(first["end"], GEMMA4_TOOL_CALL_END);
}

#[test]
fn the_reasoning_opener_is_always_constrained() {
    for mandatory in [true, false] {
        let tag = tag_of(None, mandatory, true, false, false, false);
        assert_eq!(
            tag["format"]["elements"][0]["content"]["begin"], GEMMA4_THOUGHT_BEGIN,
            "tools_mandatory={mandatory} must not leave the opener unconstrained"
        );
    }
}

#[test]
fn prompt_opened_thought_is_opt_in() {
    let tag = tag_of(None, false, true, false, false, true);
    assert_eq!(tag["format"]["elements"][0]["content"]["begin"], "");
}

#[test]
fn repetition_is_unrepresentable_on_every_path() {
    for mandatory in [true, false] {
        for tool_only in [true, false] {
            for sch in [Some(schema()), None] {
                let tag = tag_of(sch.as_ref(), mandatory, false, tool_only, false, false);
                assert_no_repeatable_branch(&tag);
            }
        }
    }
}

#[test]
fn allow_parallel_calls_is_opt_in_and_still_forbids_repetition() {
    // Default: pinned to one call, so a multi-tool turn is unreachable.
    let single = tag_of(Some(&schema()), false, false, false, false, false);
    let dumped = serde_json::to_string(&single).unwrap();
    assert!(dumped.contains("\"stop_after_first\":true"));

    // Opted in: distinct tools become reachable together...
    let parallel = tag_of(Some(&schema()), false, false, false, true, false);
    let slots = parallel["format"]["elements"][1]["elements"].as_array().unwrap();
    assert_eq!(slots.len(), names().len());
    // ...but the SAME tool still cannot repeat: no tags_with_separator without
    // stop_after_first, and each tool appears in exactly one optional slot.
    assert_no_repeatable_branch(&parallel);
    for (slot, name) in slots.iter().zip(names()) {
        assert_eq!(slot["type"], "optional");
        assert_eq!(slot["content"]["begin"], format!("{GEMMA4_TOOL_CALL_BEGIN}{name}"));
    }

    // A forced choice ignores allow_parallel_calls: it is still pinned to one call.
    let forced = tag_of(Some(&schema()), true, false, false, true, false);
    assert_eq!(forced["format"]["type"], "tags_with_separator");
    assert_eq!(forced["format"]["stop_after_first"], true);
}

fn lookup_tool_with_required_query() -> ToolDefinition {
    ToolDefinition {
        name: "lookup_info".to_string(),
        parameters: Some(json(
            r#"{
                "type": "object",
                "properties": {"query": {"type": "string"}},
                "required": ["query"]
            }"#,
        )),
    }
}

fn any_branch_contains(format: &Value, needle: &str) -> bool {
    serde_json::to_string(format).unwrap().contains(needle)
}

#[test]
fn simple_single_required_string_arg_gets_the_exact_grammar() {
    let content = args_content(lookup_tool_with_required_query().parameters.as_ref());
    assert_eq!(content["type"], "sequence");
    let dumped = serde_json::to_string(&content).unwrap();
    assert!(
        dumped.contains("\"query:\""),
        "required key must be a literal, not optional: {dumped}"
    );
    // The delimiter's `"` comes back JSON-escaped (`\"`) in the dumped text.
    assert!(
        dumped.contains("<|\\\"|>"),
        "string delimiter must appear in the value format: {dumped}"
    );
    // one_or_more, never zero_or_more: the empty string must not be a legal value.
    assert!(any_branch_contains(&content, "[\\\\s\\\\S]+"));
    assert!(
        !dumped.contains("any_text"),
        "must not fall back to the unconstrained body: {dumped}"
    );
}

#[test]
fn required_and_optional_mix_permutes_but_keeps_required_mandatory() {
    let mixed = json(
        r#"{
            "type": "object",
            "properties": {
                "name": {"type": "string"},
                "count": {"type": "integer"},
                "note": {"type": "string"}
            },
            "required": ["name", "count"]
        }"#,
    );
    let content = args_content(Some(&mixed));
    // Whole body is wrapped `{ <or-of-branches> }` so the call still parses as `name{args}`.
    assert_eq!(content["type"], "sequence");
    assert_eq!(content["elements"][0]["value"], "{");
    assert_eq!(content["elements"][2]["value"], "}");
    let or = &content["elements"][1];
    assert_eq!(or["type"], "or");
    let branches = or["elements"].as_array().unwrap();
    assert!(
        branches.len() > 1,
        "order + optional-subset should produce more than one branch"
    );
    for branch in branches {
        let dumped = serde_json::to_string(branch).unwrap();
        assert!(dumped.contains("\"name:\""), "every branch must require `name`: {dumped}");
        assert!(dumped.contains("\"count:\""), "every branch must require `count`: {dumped}");
    }
    // `note` appears in at least one branch (optional = sometimes present)...
    assert!(branches.iter().any(|b| serde_json::to_string(b).unwrap().contains("\"note:\"")));
    // ...but not in every branch (optional = not mandatory).
    assert!(branches.iter().any(|b| !serde_json::to_string(b).unwrap().contains("\"note:\"")));
    // Two orders of the two required keys, and six of all three.
    assert_eq!(branches.len(), 8);
}

#[test]
fn complex_schema_falls_back_to_the_dispatch_patch() {
    let transfer_like = json(
        r#"{
            "type": "object",
            "properties": {
                "fields": {"type": "object", "properties": {"a": {"type": "string"}}},
                "summary": {"type": "string"}
            },
            "required": ["fields", "summary"]
        }"#,
    );
    let content = args_content(Some(&transfer_like));
    assert_eq!(content["type"], "dispatch");
    let rules = content["rules"].as_array().unwrap();
    assert!(rules.iter().any(|r| r[0] == "summary:<|\"|>"));
    assert!(!rules.iter().any(|r| r[0].as_str().unwrap_or_default().starts_with("fields:")));
}

#[test]
fn too_many_properties_falls_back_to_the_dispatch_patch() {
    let many = json(
        r#"{
            "type": "object",
            "properties": {
                "a": {"type": "string"}, "b": {"type": "string"}, "c": {"type": "string"},
                "d": {"type": "string"}, "e": {"type": "string"}
            },
            "required": ["a"]
        }"#,
    );
    assert_eq!(args_content(Some(&many))["type"], "dispatch");
}

#[test]
fn tool_without_required_string_args_keeps_any_text() {
    let any_text = value(r#"{"type": "any_text", "excludes": []}"#);
    assert_eq!(args_content(None), any_text);

    let zero_arg = json(r#"{"type": "object", "properties": {}, "required": []}"#);
    assert_eq!(args_content(Some(&zero_arg)), any_text);

    let optional_only = json(
        r#"{
            "type": "object",
            "properties": {"note": {"type": "string"}},
            "required": []
        }"#,
    );
    // All-optional still gets the exact tier (it must permit, but not require, `note`):
    // the empty body is still one of the reachable branches.
    let content = args_content(Some(&optional_only));
    assert!(
        any_branch_contains(&content, "\"\""),
        "an all-optional schema must still accept an empty body: {content}"
    );

    let required_non_string = json(
        r#"{
            "type": "object",
            "properties": {"count": {"type": "integer"}},
            "required": ["count"]
        }"#,
    );
    // Required but no string: the exact tier still applies.
    assert_ne!(args_content(Some(&required_non_string))["type"], "any_text");
}

#[test]
fn tool_tag_threads_the_schema_into_its_content() {
    let tag = gemma4_tool_tag(&lookup_tool_with_required_query()).to_value();
    assert_eq!(tag["begin"], "<|tool_call>call:lookup_info");
    assert_eq!(tag["content"]["type"], "sequence");
}

#[test]
fn exact_grammar_wraps_the_body_in_literal_braces() {
    let content = args_content(lookup_tool_with_required_query().parameters.as_ref());
    assert_eq!(content["type"], "sequence");
    assert_eq!(content["elements"][0], value(r#"{"type": "const_string", "value": "{"}"#));
    assert_eq!(content["elements"][2], value(r#"{"type": "const_string", "value": "}"}"#));
}

#[test]
fn only_gemma4_has_a_tag() {
    assert!(parser_has_structural_tag(Some("gemma4")));
    assert!(parser_has_structural_tag(Some("gemma-4")));
    assert!(!parser_has_structural_tag(Some("hermes")));
    assert!(!parser_has_structural_tag(None));
    assert!(structural_tag_for_parser(
        Some("hermes"),
        &tools(),
        None,
        false,
        false,
        false,
        false,
        false
    )
    .is_none());
}
