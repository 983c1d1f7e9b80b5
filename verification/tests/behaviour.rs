use serde_json::{Number, Value};
use structural_tag::args::{
    exact_args_grammar, gemma4_tool_args_content, required_nonempty_string_keys,
    simple_value_format,
};
use structural_tag::gemma4::{gemma4_single_tool_call, gemma4_tool_calls, gemma4_tool_tag};
use structural_tag::permute::permutations;
use structural_tag::value::{structural_tag_value_for_parser, ValueTool};
use structural_tag::{gemma4_structural_tag, structural_tag_for_parser, Json, ToolDefinition};

fn value(text: &str) -> Value {
    serde_json::from_str(text).unwrap()
}

fn json(text: &str) -> Json {
    Json::from_value(&value(text))
}

fn tool(name: &str) -> ToolDefinition {
    ToolDefinition { name: name.to_string(), parameters: None }
}

fn tag_text(name: &str) -> String {
    format!(
        r#"{{"type":"tag","begin":"<|tool_call>call:{name}","content":{{"type":"any_text","excludes":[]}},"end":"<tool_call|>"}}"#
    )
}

fn dump(json: &Json) -> String {
    serde_json::to_string(&json.to_value()).unwrap()
}

/// Whether the text is a JSON object whose only entry is a string `assistant_reply`.
fn fits_reply_schema(s: &str) -> bool {
    match serde_json::from_str::<Value>(s) {
        Ok(Value::Object(map)) => {
            map.len() == 1 && map.get("assistant_reply").is_some_and(|r| r.is_string())
        }
        _ => false,
    }
}

fn is_digits(s: &str) -> bool {
    !s.is_empty() && s.bytes().all(|b| b.is_ascii_digit())
}

fn is_decimal(s: &str) -> bool {
    let s = s.strip_prefix('-').unwrap_or(s);
    match s.split_once('.') {
        Some((whole, fraction)) => is_digits(whole) && is_digits(fraction),
        None => is_digits(s),
    }
}

fn in_turn(formats: &[Value], s: &str) -> bool {
    match formats.split_first() {
        None => s.is_empty(),
        Some((first, rest)) => (0..=s.len())
            .filter(|n| s.is_char_boundary(*n))
            .any(|n| admits(first, &s[..n]) && in_turn(rest, &s[n..])),
    }
}

fn dispatched(rules: &[Value], s: &str) -> bool {
    let first = rules
        .iter()
        .filter_map(|r| {
            let trigger = r[0].as_str().unwrap();
            s.find(trigger).map(|at| (at + trigger.len(), &r[1]))
        })
        .min_by_key(|found| found.0);
    match first {
        None => true,
        Some((at, format)) => (at..=s.len())
            .filter(|n| s.is_char_boundary(*n))
            .any(|n| admits(format, &s[at..n]) && dispatched(rules, &s[n..])),
    }
}

/// Whether the format admits the text.
fn admits(format: &Value, s: &str) -> bool {
    let list = |key: &str| format[key].as_array().unwrap();
    match format["type"].as_str().unwrap() {
        "structural_tag" => admits(&format["format"], s),
        "any_text" => true,
        "const_string" => format["value"] == s,
        "regex" => match format["pattern"].as_str().unwrap() {
            "[\\s\\S]+" => !s.is_empty(),
            "[\\s\\S]*" => true,
            "-?[0-9]+(\\.[0-9]+)?" => is_decimal(s),
            other => panic!("unknown pattern {other}"),
        },
        "json_schema" => fits_reply_schema(s),
        "sequence" => in_turn(list("elements"), s),
        "or" => list("elements").iter().any(|f| admits(f, s)),
        "optional" => s.is_empty() || admits(&format["content"], s),
        "tag" => {
            let begin = format["begin"].as_str().unwrap();
            let end = format["end"].as_str().unwrap();
            let up_to_first = format["content"]["type"] != "any_text"
                || s.len() >= begin.len() + end.len()
                    && s.get(begin.len()..).and_then(|rest| rest.find(end))
                        == Some(s.len() - begin.len() - end.len());
            s.len() >= begin.len() + end.len()
                && s.starts_with(begin)
                && s.ends_with(end)
                && up_to_first
                && admits(&format["content"], &s[begin.len()..s.len() - end.len()])
        }
        "tags_with_separator" => {
            assert_eq!(format["at_least_one"], true);
            assert_eq!(format["stop_after_first"], true);
            list("tags").iter().any(|f| admits(f, s))
        }
        "dispatch" => {
            assert_eq!(format["loop"], true);
            dispatched(list("rules"), s)
        }
        other => panic!("unknown format {other}"),
    }
}

#[test]
fn orderings_come_head_by_head() {
    assert_eq!(permutations(&[]), vec![Vec::<usize>::new()]);
    assert_eq!(permutations(&[7]), vec![vec![7]]);
    assert_eq!(
        permutations(&[2, 0, 1]),
        vec![
            vec![2, 0, 1],
            vec![2, 1, 0],
            vec![0, 2, 1],
            vec![0, 1, 2],
            vec![1, 2, 0],
            vec![1, 0, 2],
        ]
    );
}

#[test]
fn there_are_factorial_many_distinct_orderings() {
    let mut all = permutations(&[3, 1, 4, 5]);
    assert_eq!(all.len(), 24);
    for order in &all {
        let mut items = order.clone();
        items.sort();
        assert_eq!(items, vec![1, 3, 4, 5]);
    }
    all.sort();
    all.dedup();
    assert_eq!(all.len(), 24);
}

#[test]
fn repeated_items_are_ordered_as_often_as_they_occur() {
    assert_eq!(permutations(&[1, 1]), vec![vec![1, 1], vec![1, 1]]);
}

#[test]
fn value_slots_follow_the_declared_type() {
    let slot = |text: &str, required: bool| simple_value_format(&json(text), required);
    let delim = r#"{"type":"const_string","value":"<|\"|>"}"#;
    assert_eq!(
        dump(&slot(r#"{"type":"string"}"#, true).unwrap()),
        format!(
            r#"{{"type":"sequence","elements":[{delim},{{"type":"regex","pattern":"[\\s\\S]+"}},{delim}]}}"#
        )
    );
    assert_eq!(
        dump(&slot(r#"{"type":"String"}"#, false).unwrap()),
        format!(
            r#"{{"type":"sequence","elements":[{delim},{{"type":"regex","pattern":"[\\s\\S]*"}},{delim}]}}"#
        )
    );
    let decimal = r#"{"type":"regex","pattern":"-?[0-9]+(\\.[0-9]+)?"}"#;
    assert_eq!(dump(&slot(r#"{"type":"INTEGER"}"#, true).unwrap()), decimal);
    assert_eq!(dump(&slot(r#"{"type":"number"}"#, false).unwrap()), decimal);
    assert_eq!(
        dump(&slot(r#"{"type":"Boolean"}"#, true).unwrap()),
        r#"{"type":"or","elements":[{"type":"const_string","value":"true"},{"type":"const_string","value":"false"}]}"#
    );
}

#[test]
fn other_types_have_no_value_slot() {
    for text in [
        r#"{"type":"object"}"#,
        r#"{"type":"array"}"#,
        r#"{"type":["string"]}"#,
        r#"{"type":"strings"}"#,
        r#"{"type":"strıng"}"#,
        r#"{}"#,
        r#""string""#,
        "null",
    ] {
        assert!(simple_value_format(&json(text), true).is_none(), "{text}");
    }
}

#[test]
fn required_string_keys_keep_the_order_of_required() {
    let parameters = json(
        r#"{
            "properties": {"a": {"type": "STRING"}, "n": {"type": "integer"}, "z": {"type": "string"}},
            "required": ["z", 3, "missing", "n", "a", "z"]
        }"#,
    );
    assert_eq!(required_nonempty_string_keys(Some(&parameters)), vec!["z", "a", "z"]);
    assert!(required_nonempty_string_keys(None).is_empty());
    for text in [
        r#"{"required": ["a"]}"#,
        r#"{"required": "a", "properties": {"a": {"type": "string"}}}"#,
        r#"{"required": ["a"], "properties": [{"type": "string"}]}"#,
        r#"{"properties": {"a": {"type": "string"}}}"#,
        r#"["required"]"#,
    ] {
        assert!(required_nonempty_string_keys(Some(&json(text))).is_empty(), "{text}");
    }
}

#[test]
fn an_optional_argument_makes_two_branches() {
    let parameters = json(r#"{"properties": {"on": {"type": "boolean"}}}"#);
    assert_eq!(
        dump(&gemma4_tool_args_content(Some(&parameters))),
        [
            r#"{"type":"sequence","elements":["#,
            r#"{"type":"const_string","value":"{"},"#,
            r#"{"type":"or","elements":["#,
            r#"{"type":"const_string","value":""},"#,
            r#"{"type":"sequence","elements":["#,
            r#"{"type":"sequence","elements":["#,
            r#"{"type":"const_string","value":"on:"},"#,
            r#"{"type":"or","elements":["#,
            r#"{"type":"const_string","value":"true"},"#,
            r#"{"type":"const_string","value":"false"}]}]}]}]},"#,
            r#"{"type":"const_string","value":"}"}]}"#,
        ]
        .concat()
    );
}

#[test]
fn branches_are_listed_by_picked_options_and_then_by_order() {
    let entries = match json(
        r#"{"b": {"type": "number"}, "a": {"type": "number"}, "c": {"type": "number"}}"#,
    ) {
        Json::Object(entries) => entries,
        other => panic!("not an object: {other:?}"),
    };
    let grammar = exact_args_grammar(&entries, &["a".to_string()]).unwrap().to_value();
    let keys: Vec<Vec<String>> = grammar["elements"][1]["elements"]
        .as_array()
        .unwrap()
        .iter()
        .map(|branch| {
            branch["elements"]
                .as_array()
                .unwrap()
                .iter()
                .map(|e| match e["type"].as_str().unwrap() {
                    "sequence" => e["elements"][0]["value"].as_str().unwrap().to_string(),
                    _ => e["value"].as_str().unwrap().to_string(),
                })
                .collect()
        })
        .collect();
    let expected: Vec<Vec<&str>> = vec![
        vec!["a:"],
        vec!["a:", ",", "b:"],
        vec!["b:", ",", "a:"],
        vec!["a:", ",", "c:"],
        vec!["c:", ",", "a:"],
        vec!["a:", ",", "b:", ",", "c:"],
        vec!["a:", ",", "c:", ",", "b:"],
        vec!["b:", ",", "a:", ",", "c:"],
        vec!["b:", ",", "c:", ",", "a:"],
        vec!["c:", ",", "a:", ",", "b:"],
        vec!["c:", ",", "b:", ",", "a:"],
    ];
    assert_eq!(keys, expected);
}

#[test]
fn the_exact_grammar_needs_one_to_four_simple_properties() {
    let entries = |n: usize, ty: &str| -> Vec<(String, Json)> {
        (0..n).map(|i| (format!("k{i}"), json(&format!(r#"{{"type":"{ty}"}}"#)))).collect()
    };
    assert!(exact_args_grammar(&entries(0, "string"), &[]).is_none());
    assert!(exact_args_grammar(&entries(1, "string"), &[]).is_some());
    assert!(exact_args_grammar(&entries(4, "boolean"), &[]).is_some());
    assert!(exact_args_grammar(&entries(5, "boolean"), &[]).is_none());
    assert!(exact_args_grammar(&entries(2, "array"), &[]).is_none());
}

#[test]
fn the_exact_grammar_is_declined_where_a_required_key_is_not_declared() {
    let entries: Vec<(String, Json)> = vec![("a".to_string(), json(r#"{"type":"boolean"}"#))];
    assert!(exact_args_grammar(&entries, &["ghost".to_string()]).is_none());
    assert!(exact_args_grammar(&entries, &["a".to_string(), "ghost".to_string()]).is_none());
    assert!(exact_args_grammar(&entries, &["a".to_string(), "a".to_string()]).is_some());
    let free = json(r#"{"properties": {"a": {"type": "boolean"}}, "required": ["ghost"]}"#);
    assert_eq!(
        dump(&gemma4_tool_args_content(Some(&free))),
        r#"{"type":"any_text","excludes":[]}"#
    );
    let guarded =
        json(r#"{"properties": {"q": {"type": "string"}}, "required": ["ghost", "q"]}"#);
    let content = gemma4_tool_args_content(Some(&guarded)).to_value();
    assert_eq!(content["type"], "dispatch");
    assert_eq!(content["rules"].as_array().unwrap().len(), 2);
    assert!(!admits(&content, "{q:<|\"|><|\"|>}"));
}

/// The orders of keys that the branches of an exact grammar spell.
fn key_orders(grammar: &Json) -> Vec<Vec<String>> {
    let body = &grammar.to_value()["elements"][1];
    let branches = match body["type"].as_str().unwrap() {
        "or" => body["elements"].as_array().unwrap().clone(),
        _ => vec![body.clone()],
    };
    branches
        .iter()
        .map(|branch| match branch["elements"].as_array() {
            None => Vec::new(),
            Some(elements) => elements
                .iter()
                .filter(|e| e["type"] == "sequence")
                .map(|e| e["elements"][0]["value"].as_str().unwrap().to_string())
                .collect(),
        })
        .collect()
}

#[test]
fn requiring_a_key_only_removes_the_orders_without_it() {
    let entries: Vec<(String, Json)> = ["a", "b", "c"]
        .iter()
        .map(|key| (key.to_string(), json(r#"{"type":"string"}"#)))
        .collect();
    for before in [vec![], vec!["c".to_string()]] {
        let mut after = before.clone();
        after.push("b".to_string());
        let mut wanted = key_orders(&exact_args_grammar(&entries, &before).unwrap());
        wanted.retain(|order| order.contains(&"b:".to_string()));
        wanted.sort();
        let mut found = key_orders(&exact_args_grammar(&entries, &after).unwrap());
        found.sort();
        assert_eq!(found, wanted);
    }
}

#[test]
fn four_required_properties_come_in_every_order() {
    let parameters = json(
        r#"{
            "properties": {"a": {"type": "number"}, "b": {"type": "number"},
                           "c": {"type": "number"}, "d": {"type": "number"}},
            "required": ["d", "c", "b", "a"]
        }"#,
    );
    let content = gemma4_tool_args_content(Some(&parameters)).to_value();
    assert_eq!(content["elements"][1]["elements"].as_array().unwrap().len(), 24);
    assert!(admits(&content, "{d:1,b:2,a:-3.5,c:4}"));
    assert!(!admits(&content, "{d:1,b:2,a:3}"));
    assert!(!admits(&content, "{d:1,b:2,a:3,c:4,a:5}"));
    assert!(!admits(&content, "{d:1,b:2,a:3,c:four}"));
}

#[test]
fn neither_shape_of_an_empty_required_argument_is_admitted() {
    let parameters = json(
        r#"{"type": "object", "properties": {"query": {"type": "string"}}, "required": ["query"]}"#,
    );
    let content = gemma4_tool_args_content(Some(&parameters)).to_value();
    assert!(!admits(&content, "{}"));
    assert!(!admits(&content, "{query:<|\"|><|\"|>}"));
    assert!(admits(&content, "{query:<|\"|>x<|\"|>}"));
    assert!(!admits(&content, "query:<|\"|>x<|\"|>"));
}

#[test]
fn a_call_with_an_empty_required_string_is_refused_whatever_else_the_schema_holds() {
    for other in ["boolean", "string", "object", "array"] {
        let parameters = json(&format!(
            r#"{{"properties": {{"other": {{"type": "{other}"}}, "query": {{"type": "string"}}}},
                "required": ["query"]}}"#
        ));
        let lookup = ToolDefinition { name: "lookup_info".to_string(), parameters: Some(parameters) };
        let tag = gemma4_tool_tag(&lookup).to_value();
        assert!(!admits(&tag, &call("lookup_info", "{query:<|\"|><|\"|>}")));
        assert!(admits(&tag, &call("lookup_info", "{query:<|\"|>x<|\"|>}")));
        let exact = other == "boolean" || other == "string";
        assert_eq!(admits(&tag, &call("lookup_info", "{}")), !exact);
    }
}

#[test]
fn a_begun_string_may_run_on_to_a_later_delimiter() {
    let parameters = json(
        r#"{"properties": {"a": {"type": "string"}, "b": {"type": "string"}}, "required": ["a"]}"#,
    );
    let content = gemma4_tool_args_content(Some(&parameters)).to_value();
    assert!(admits(&content, "{a:<|\"|><|\"|>,b:<|\"|>x<|\"|>}"));
}

#[test]
fn optional_arguments_may_be_left_out_or_empty() {
    let parameters = json(
        r#"{"properties": {"note": {"type": "string"}, "n": {"type": "integer"}}, "required": []}"#,
    );
    let content = gemma4_tool_args_content(Some(&parameters)).to_value();
    assert!(admits(&content, "{}"));
    assert!(admits(&content, "{note:<|\"|><|\"|>}"));
    assert!(admits(&content, "{n:7,note:<|\"|>hi<|\"|>}"));
    assert!(admits(&content, "{note:<|\"|>hi<|\"|>,n:7}"));
    assert!(!admits(&content, "{n:7,}"));
}

#[test]
fn dispatch_guards_both_spellings_of_each_key() {
    let parameters = json(
        r#"{
            "properties": {"fields": {"type": "object"}, "summary": {"type": "string"}},
            "required": ["fields", "summary"]
        }"#,
    );
    let guarded = r#"{"type":"sequence","elements":[{"type":"regex","pattern":"[\\s\\S]+"},{"type":"const_string","value":"<|\"|>"}]}"#;
    let content = gemma4_tool_args_content(Some(&parameters));
    assert_eq!(
        dump(&content),
        format!(
            r#"{{"type":"dispatch","rules":[["summary:<|\"|>",{guarded}],["summary: <|\"|>",{guarded}]],"loop":true,"excludes":[]}}"#
        )
    );
    let content = content.to_value();
    assert!(admits(&content, "{fields:{}}"));
    assert!(admits(&content, "{summary:<|\"|>done<|\"|>}"));
    assert!(admits(&content, "{summary: <|\"|>done<|\"|>,fields:{}}"));
    assert!(!admits(&content, "{summary:<|\"|><|\"|>}"));
    assert!(!admits(&content, "{summary: <|\"|><|\"|>}"));
}

#[test]
fn a_tag_fixes_the_name_and_the_markers() {
    let tag = gemma4_tool_tag(&tool("end_call"));
    assert_eq!(dump(&tag), tag_text("end_call"));
    let tag = tag.to_value();
    assert!(admits(&tag, "<|tool_call>call:end_call{a:1}<tool_call|>"));
    assert!(!admits(&tag, "<|tool_call>call:other{a:1}<tool_call|>"));
    assert!(!admits(&tag, "<|tool_call>call:end_call{a:1}"));
}

#[test]
fn calls_of_distinct_tools_are_slots_in_their_order() {
    let tools = vec![tool("transfer"), tool("end_call")];
    let (t, e) = (tag_text("transfer"), tag_text("end_call"));
    let opt = |f: &str| format!(r#"{{"type":"optional","content":{f}}}"#);
    let seq = |a: &str, b: &str| format!(r#"{{"type":"sequence","elements":[{a},{b}]}}"#);
    assert_eq!(dump(&gemma4_tool_calls(&tools, false)), seq(&opt(&t), &opt(&e)));
    assert_eq!(
        dump(&gemma4_tool_calls(&tools, true)),
        format!(
            r#"{{"type":"or","elements":[{},{}]}}"#,
            seq(&t, &opt(&e)),
            seq(&opt(&t), &e)
        )
    );
    let one = vec![tool("end_call")];
    assert_eq!(
        dump(&gemma4_tool_calls(&one, true)),
        format!(r#"{{"type":"sequence","elements":[{e}]}}"#)
    );
    assert_eq!(dump(&gemma4_tool_calls(&[], true)), r#"{"type":"or","elements":[]}"#);
    assert_eq!(dump(&gemma4_tool_calls(&[], false)), r#"{"type":"sequence","elements":[]}"#);
}

fn call(name: &str, body: &str) -> String {
    format!("<|tool_call>call:{name}{body}<tool_call|>")
}

/// Tools whose arguments are exact.
fn strict_tools() -> Vec<ToolDefinition> {
    ["transfer", "end_call"]
        .iter()
        .map(|name| ToolDefinition {
            name: name.to_string(),
            parameters: Some(json(
                r#"{"properties": {"n": {"type": "integer"}}, "required": ["n"]}"#,
            )),
        })
        .collect()
}

#[test]
fn no_tool_repeats_and_any_subset_is_admitted() {
    let tools = strict_tools();
    let (a, b) = (call("transfer", "{n:1}"), call("end_call", "{n:2}"));
    for at_least_one in [true, false] {
        let calls = gemma4_tool_calls(&tools, at_least_one).to_value();
        assert!(admits(&calls, &a));
        assert!(admits(&calls, &b));
        assert!(admits(&calls, &format!("{a}{b}")));
        assert!(!admits(&calls, &format!("{b}{a}")));
        assert!(!admits(&calls, &format!("{a}{a}")));
        assert!(!admits(&calls, &format!("{a}{b}{b}")));
        assert_eq!(admits(&calls, ""), !at_least_one);
    }
}

#[test]
fn a_single_call_is_exactly_one() {
    let tools = strict_tools();
    let (a, b) = (call("transfer", "{n:1}"), call("end_call", "{n:2}"));
    let single = gemma4_single_tool_call(&tools).to_value();
    assert_eq!(single["separator"], "");
    assert_eq!(single["at_least_one"], true);
    assert_eq!(single["stop_after_first"], true);
    assert!(admits(&single, &a));
    assert!(admits(&single, &b));
    assert!(!admits(&single, &format!("{a}{b}")));
    assert!(!admits(&single, ""));
}

#[test]
fn nothing_follows_a_call_with_free_arguments() {
    let tools = vec![tool("transfer"), tool("end_call")];
    let (a, b) = (call("transfer", "{n:1}"), call("end_call", ""));
    let single = gemma4_single_tool_call(&tools).to_value();
    assert!(admits(&single, &a));
    assert!(admits(&single, &b));
    assert!(!admits(&single, &format!("{a}{a}")));
    assert!(!admits(&single, &format!("{a}{b}")));
    assert!(!admits(&single, &format!("{a} ")));
    for at_least_one in [true, false] {
        let calls = gemma4_tool_calls(&tools, at_least_one).to_value();
        assert!(admits(&calls, &format!("{a}{b}")));
        assert!(!admits(&calls, &format!("{b}{a}")));
        assert!(!admits(&calls, &format!("{a}{a}")));
        assert!(!admits(&calls, &format!("{a}{b}{b}")));
    }
}

#[test]
fn nothing_follows_a_call_with_plain_exact_arguments() {
    let plain = |name: &str, ty: &str| ToolDefinition {
        name: name.to_string(),
        parameters: Some(json(&format!(
            r#"{{"properties": {{"n": {{"type": "{ty}"}}}}, "required": ["n"]}}"#
        ))),
    };
    let tools = vec![plain("end", "number"), plain("end_call", "boolean")];
    let (a, b) = (call("end", "{n:1.5}"), call("end_call", "{n:true}"));
    let single = gemma4_single_tool_call(&tools).to_value();
    assert!(admits(&single, &a));
    assert!(admits(&single, &b));
    assert!(!admits(&single, &format!("{a}{a}")));
    assert!(!admits(&single, &format!("{b}{a}")));
    let calls = gemma4_tool_calls(&tools, true).to_value();
    assert!(admits(&calls, &format!("{a}{b}")));
    assert!(!admits(&calls, &format!("{a}{a}")));
    assert!(!admits(&calls, &format!("{b}{b}")));
    assert!(!admits(&calls, &format!("{b}{a}")));
}

#[test]
fn a_string_may_hold_the_end_marker() {
    let parameters = json(r#"{"properties": {"s": {"type": "string"}}, "required": ["s"]}"#);
    let say = ToolDefinition { name: "say".to_string(), parameters: Some(parameters) };
    let a = call("say", "{s:<|\"|>x<|\"|>}");
    assert!(admits(&gemma4_single_tool_call(&[say]).to_value(), &format!("{a}{a}")));
}

#[test]
fn which_declared_keys_are_required_does_not_decide_whether_the_grammar_is_exact() {
    for (other, exact) in [("integer", true), ("array", false)] {
        let entries: Vec<(String, Json)> = vec![
            ("a".to_string(), json(r#"{"type":"string"}"#)),
            ("b".to_string(), json(&format!(r#"{{"type":"{other}"}}"#))),
        ];
        for required in [vec![], vec!["a"], vec!["b"], vec!["b", "a"]] {
            let required: Vec<String> = required.iter().map(|k| k.to_string()).collect();
            assert_eq!(exact_args_grammar(&entries, &required).is_some(), exact);
        }
    }
}

#[test]
fn thinking_runs_up_to_the_first_closer() {
    let tag = gemma4_structural_tag(&[tool("t")], None, true, true, false, false, true)
        .unwrap()
        .to_value();
    let a = call("t", "");
    assert!(admits(&tag, &format!("hm<channel|>{a}")));
    assert!(!admits(&tag, &format!("hm<channel|>hm<channel|>{a}")));
}

const REPLY: &str = r#"{"assistant_reply":"hi"}"#;

/// The tag for `strict_tools()` with a schema and without reasoning.
fn strict_tag(mandatory: bool, tool_only: bool, parallel: bool) -> Value {
    let schema = json(r#"{"type": "object"}"#);
    gemma4_structural_tag(
        &strict_tools(),
        Some(&schema),
        mandatory,
        false,
        tool_only,
        parallel,
        false,
    )
    .unwrap()
    .to_value()
}

#[test]
fn a_turn_is_a_message_and_calls() {
    let (a, b) = (call("transfer", "{n:1}"), call("end_call", "{n:2}"));
    for tool_only in [true, false] {
        for parallel in [true, false] {
            let tag = strict_tag(false, tool_only, parallel);
            assert!(admits(&tag, REPLY));
            assert!(admits(&tag, &format!("{REPLY}{a}")));
            assert_eq!(admits(&tag, &format!("{REPLY}{a}{b}")), parallel);
            assert_eq!(admits(&tag, &a), tool_only);
            assert_eq!(admits(&tag, &format!("{a}{b}")), tool_only && parallel);
            assert!(!admits(&tag, ""));
            assert!(!admits(&tag, &format!("{a}{REPLY}")));
            assert!(!admits(&tag, "prose"));
        }
    }
}

#[test]
fn a_forced_choice_is_one_call_whatever_else_is_allowed() {
    let (a, b) = (call("transfer", "{n:1}"), call("end_call", "{n:2}"));
    let plain = strict_tag(true, false, false);
    for tool_only in [true, false] {
        for parallel in [true, false] {
            let tag = strict_tag(true, tool_only, parallel);
            assert_eq!(tag, plain);
            assert!(admits(&tag, &a));
            assert!(!admits(&tag, &format!("{a}{b}")));
            assert!(!admits(&tag, REPLY));
            assert!(!admits(&tag, &format!("{REPLY}{a}")));
        }
    }
}

#[test]
fn reasoning_comes_first_and_has_to_be_opened() {
    let tools = strict_tools();
    let a = call("transfer", "{n:1}");
    let tag_with = |opened: bool| {
        gemma4_structural_tag(&tools, None, false, true, false, false, opened).unwrap().to_value()
    };
    let tag = tag_with(false);
    assert_eq!(
        tag["format"]["elements"][0],
        value(
            r#"{"type":"optional","content":{"type":"tag","begin":"<|channel>thought\n",
                "content":{"type":"any_text","excludes":[]},"end":"<channel|>"}}"#
        )
    );
    assert!(admits(&tag, &a));
    assert!(admits(&tag, &format!("<|channel>thought\nhm<channel|>{a}")));
    assert!(!admits(&tag, &format!("hm<channel|>{a}")));
    assert!(!admits(&tag, "<|channel>thought\nhm<channel|>"));
    assert!(admits(&tag_with(true), &format!("hm<channel|>{a}")));
    let silent = gemma4_structural_tag(&tools, None, false, false, false, false, false)
        .unwrap()
        .to_value();
    assert!(!admits(&silent, &format!("<|channel>thought\nhm<channel|>{a}")));
}

#[test]
fn the_schema_is_handed_through_unchanged() {
    let text = r#"{"z":1,"a":[-2.5,true,null,{"b":"x"}],"type":"object"}"#;
    let schema = json(text);
    let tag = gemma4_structural_tag(&[tool("t")], Some(&schema), false, false, false, false, false)
        .unwrap();
    assert_eq!(
        dump(&tag),
        format!(
            r#"{{"type":"structural_tag","format":{{"type":"sequence","elements":[{{"type":"json_schema","json_schema":{text},"style":"json"}},{{"type":"optional","content":{{"type":"tags_with_separator","tags":[{}],"separator":"","at_least_one":true,"stop_after_first":true}}}}]}}}}"#,
            tag_text("t")
        )
    );
}

#[test]
fn values_go_there_and_back() {
    let text = r#"{"z":[null,true,false,3,-4,2.5,"s",[],{}],"a":{"y":1,"b":2}}"#;
    let there = json(text);
    assert_eq!(dump(&there), text);
    assert_eq!(Json::from_value(&there.to_value()), there);
    assert_eq!(there.clone(), there);
    assert_eq!(
        json("[null,true,7,\"x\"]"),
        Json::Array(vec![
            Json::Null,
            Json::Bool(true),
            Json::Number(Number::from(7)),
            Json::Text("x".to_string()),
        ])
    );
    assert_eq!(
        json(r#"{"k":false,"j":null}"#),
        Json::Object(vec![
            ("k".to_string(), Json::Bool(false)),
            ("j".to_string(), Json::Null),
        ])
    );
}

#[test]
fn parts_of_a_value_are_found() {
    let v = json(r#"{"a":"x","b":[1],"c":{"d":2}}"#);
    assert_eq!(v.get("a").unwrap().as_str(), Some("x"));
    assert_eq!(v.get("b").unwrap().as_array().unwrap().len(), 1);
    assert_eq!(v.get("c").unwrap().as_object().unwrap().len(), 1);
    assert!(v.get("d").is_none());
    assert!(v.get("a").unwrap().get("a").is_none());
    assert!(v.as_str().is_none());
    assert!(v.as_array().is_none());
    assert!(v.get("b").unwrap().as_object().is_none());
}

#[test]
fn values_can_be_handed_in_and_out_directly() {
    let parameters =
        value(r#"{"properties": {"query": {"type": "string"}}, "required": ["query"]}"#);
    let schema = value(r#"{"type": "object"}"#);
    let raw = vec![
        ValueTool { name: "lookup".to_string(), parameters: Some(parameters.clone()) },
        ValueTool { name: "end_call".to_string(), parameters: None },
    ];
    let tools = vec![
        ToolDefinition {
            name: "lookup".to_string(),
            parameters: Some(Json::from_value(&parameters)),
        },
        tool("end_call"),
    ];
    let direct = structural_tag_value_for_parser(
        Some("gemma-4"),
        &raw,
        Some(&schema),
        false,
        true,
        true,
        true,
        false,
    )
    .unwrap();
    let through = structural_tag_for_parser(
        Some("gemma-4"),
        &tools,
        Some(&Json::from_value(&schema)),
        false,
        true,
        true,
        true,
        false,
    )
    .unwrap();
    assert_eq!(
        serde_json::to_string(&direct).unwrap(),
        serde_json::to_string(&through.to_value()).unwrap()
    );
    assert_eq!(direct["type"], "structural_tag");
    assert!(structural_tag_value_for_parser(
        Some("hermes"),
        &raw,
        None,
        false,
        false,
        false,
        false,
        false
    )
    .is_none());
    assert!(structural_tag_value_for_parser(
        Some("gemma4"),
        &[],
        None,
        false,
        false,
        false,
        false,
        false
    )
    .is_none());
}

#[test]
fn a_parser_without_a_name_or_tools_has_no_tag() {
    let tools = vec![tool("end_call")];
    let with = |parser: Option<&str>, tools: &[ToolDefinition]| {
        structural_tag_for_parser(parser, tools, None, false, false, false, false, false)
    };
    assert!(with(Some("gemma4"), &tools).is_some());
    assert!(with(Some("gemma-4"), &tools).is_some());
    assert!(with(Some("Gemma4"), &tools).is_none());
    assert!(with(None, &tools).is_none());
    assert!(with(Some("gemma4"), &[]).is_none());
}
