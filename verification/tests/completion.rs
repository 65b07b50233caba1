use byo_inference::completion::{
    completion_from_reply, completion_request, extract_text, request_url, text_in_reply,
    CompletionError, CompletionRequest, Reply, ERROR_BODY_CHARS,
};
use byo_inference::endpoint::{
    ByoEndpoint, CustomEndpoint, CustomEndpointModel, CustomEndpointSchema,
};
use byo_inference::json::{extract_json_object, parse_json, Json};
use byo_inference::json_grammar::object_end;

const SERVER: &str = "http://127.0.0.1:1234";

fn endpoint_for(schema: CustomEndpointSchema) -> ByoEndpoint {
    ByoEndpoint {
        endpoint: CustomEndpoint {
            name: "test endpoint".to_owned(),
            url: SERVER.to_owned(),
            url_is_valid: true,
            api_key: "test-key".to_owned(),
            models: vec![CustomEndpointModel {
                name: "test-model".to_owned(),
                config_key: "test-model-key".to_owned(),
                display_label: "test-model".to_owned(),
            }],
            schema,
        },
        model: "test-model".to_owned(),
    }
}

fn received(status: u16, body: &str) -> Reply {
    Reply::Received {
        status,
        body: body.to_owned(),
    }
}

fn names(request: &CompletionRequest) -> Vec<&str> {
    match &request.body {
        Json::Object(members) => members.iter().map(|(name, _)| name.as_str()).collect(),
        _ => panic!("the body is an object"),
    }
}

fn text_at<'a>(request: &'a CompletionRequest, name: &str) -> Option<&'a str> {
    request.body.member(name).as_text()
}

fn number_at(request: &CompletionRequest, name: &str) -> String {
    match request.body.member(name) {
        Json::Number(digits) => digits.clone(),
        _ => panic!("{name} is a number"),
    }
}

fn is_false(value: &Json) -> bool {
    matches!(value, Json::Bool(false))
}

#[test]
fn sends_chat_completions_request_with_bearer_auth_and_returns_content() {
    let schema = CustomEndpointSchema::OpenaiChatCompletions;
    let request = completion_request(&endpoint_for(schema), "sys", "usr", 64);

    assert_eq!(request.url, format!("{SERVER}/chat/completions"));
    assert_eq!(request.bearer_token.as_deref(), Some("test-key"));
    assert!(request.headers.is_empty());
    assert_eq!(text_at(&request, "model"), Some("test-model"));
    let messages = request.body.member("messages");
    assert_eq!(messages.item(0).member("role").as_text(), Some("system"));
    assert_eq!(messages.item(0).member("content").as_text(), Some("sys"));
    assert_eq!(messages.item(1).member("role").as_text(), Some("user"));
    assert_eq!(messages.item(1).member("content").as_text(), Some("usr"));

    let reply = received(200, r#"{"choices": [{"message": {"content": "git status"}}]}"#);
    let text =
        completion_from_reply(schema, "OpenAI Chat Completions", reply).expect("completion succeeds");
    assert_eq!(text, "git status");
}

#[test]
fn sends_messages_request_with_version_segment_and_api_key_header() {
    let schema = CustomEndpointSchema::AnthropicMessages;
    let request = completion_request(&endpoint_for(schema), "sys", "usr", 64);

    assert_eq!(request.url, format!("{SERVER}/v1/messages"));
    assert_eq!(request.bearer_token, None);
    assert_eq!(
        request.headers,
        vec![
            ("x-api-key".to_owned(), "test-key".to_owned()),
            ("anthropic-version".to_owned(), "2023-06-01".to_owned()),
        ]
    );

    let reply = received(200, r#"{"content": [{"type": "text", "text": "cargo test"}]}"#);
    let text =
        completion_from_reply(schema, "Anthropic Messages", reply).expect("completion succeeds");
    assert_eq!(text, "cargo test");
}

#[test]
fn surfaces_error_status_with_body_excerpt() {
    let schema = CustomEndpointSchema::OpenaiChatCompletions;
    let request = completion_request(&endpoint_for(schema), "sys", "usr", 64);
    assert_eq!(request.url, format!("{SERVER}/chat/completions"));

    let reply = received(401, r#"{"error": {"message": "invalid api key"}}"#);
    let error = completion_from_reply(schema, "OpenAI Chat Completions", reply)
        .expect_err("non-success status is an error")
        .message();

    assert!(
        error.contains("401") && error.contains("invalid api key"),
        "unexpected error: {error}"
    );
}

#[test]
fn appends_chat_completions_path_to_base_url() {
    assert_eq!(
        request_url(
            "https://example.com/v1",
            CustomEndpointSchema::OpenaiChatCompletions
        ),
        "https://example.com/v1/chat/completions"
    );
}

#[test]
fn keeps_path_already_present_in_configured_url() {
    assert_eq!(
        request_url(
            "https://example.com/v1/chat/completions",
            CustomEndpointSchema::OpenaiChatCompletions
        ),
        "https://example.com/v1/chat/completions"
    );
}

#[test]
fn adds_version_segment_for_messages_api_without_one() {
    assert_eq!(
        request_url(
            "https://api.anthropic.com",
            CustomEndpointSchema::AnthropicMessages
        ),
        "https://api.anthropic.com/v1/messages"
    );
    assert_eq!(
        request_url(
            "https://api.anthropic.com/v1/",
            CustomEndpointSchema::AnthropicMessages
        ),
        "https://api.anthropic.com/v1/messages"
    );
}

#[test]
fn extracts_json_object_through_markdown_fence_and_prose() {
    let raw = "Here you go:\n```json\n{\"commands\": [\"ls\"]}\n```\nEnjoy.";

    assert_eq!(extract_json_object(raw), Some("{\"commands\": [\"ls\"]}"));
}

#[test]
fn returns_none_when_no_complete_object_is_present() {
    assert_eq!(extract_json_object("no object here"), None);
    assert_eq!(extract_json_object("{ unterminated"), None);
}

#[test]
fn an_object_ends_where_its_brace_closes() {
    assert_eq!(extract_json_object("{}"), Some("{}"));
    assert_eq!(extract_json_object("} {"), None);
    assert_eq!(extract_json_object(""), None);
    assert_eq!(extract_json_object("é {\"a\": {}} ü } ß"), Some("{\"a\": {}}"));
}

#[test]
fn braces_in_the_prose_are_no_object() {
    assert_eq!(extract_json_object("{x} {\"a\": 1}"), Some("{\"a\": 1}"));
    assert_eq!(extract_json_object("use { or {\"a\": 1} }"), Some("{\"a\": 1}"));
    assert_eq!(extract_json_object("{{}"), Some("{}"));
    assert_eq!(extract_json_object("[{\"a\": 1}, {}]"), Some("{\"a\": 1}"));
}

#[test]
fn a_broken_object_is_handed_on() {
    assert_eq!(extract_json_object("so: {not json} ok"), Some("{not json}"));
    assert_eq!(extract_json_object("{x} and {y}."), Some("{x} and {y}"));
    assert_eq!(extract_json_object("{\"a\": 1,}"), Some("{\"a\": 1,}"));
    assert_eq!(extract_json_object("{ oops {x}"), None, "the first brace stays open");
}

#[test]
fn objects_are_what_the_parser_takes_for_objects() {
    let values = [
        "1", "-0", "-12.5e+3", "0.1E-2", "7e9", "01", "1.", ".5", "-", "+1", "1e", "1e+", "- 1",
        "true", "false", "null", "tru", "nulls", "True", "\"\"", "\"a\\n\\u00e9\\/\\\"\"",
        "\"\\x\"", "\"\\u12g4\"", "\"\\u12\"", "\"tab\there\"", "\"é\"", "'a'", "[]", "[ ]",
        "[1]", "[1, [2, {\"b\": [null]}]]", "[1,]", "[,]", "[1 2]", "[1}", "{}", "{ }",
        "{\"b\": 1}", "{\"b\": 1,}", "{\"b\" 1}", "{\"b\": }", "{b: 1}", "{1: 2}", "{\"b\": 1 ]",
        "", " ", "1 , \"c\" : 2", "1, \"c\": ", "1, 2",
    ];
    for value in values {
        for text in [
            format!("{{\"a\":{value}}}"),
            format!("{{ \"a\\\\\" :\t{value}\r\n}}"),
            format!("{{\"a\": [{value}, 0]}}"),
        ] {
            let parses = serde_json::from_str::<serde_json::Value>(&text).is_ok();
            let chars: Vec<char> = text.chars().collect();
            let end = object_end(&chars, 0);
            assert_eq!(end == Some(chars.len()), parses, "{text}");
        }
    }
}

#[test]
fn the_first_of_two_objects_is_found() {
    assert_eq!(extract_json_object("{\"a\": 1} or {\"b\": 2}"), Some("{\"a\": 1}"));
    assert_eq!(extract_json_object("{\"a\": 1} {"), Some("{\"a\": 1}"));
}

#[test]
fn braces_in_strings_do_not_count() {
    let closing = r#"{"a": "}"} rest }"#;
    assert_eq!(extract_json_object(closing), Some(r#"{"a": "}"}"#));
    let opening = r#"{"a": "{"} rest"#;
    assert_eq!(extract_json_object(opening), Some(r#"{"a": "{"}"#));
    let quoted = r#"{"a": "\"}\\"} rest }"#;
    assert_eq!(extract_json_object(quoted), Some(r#"{"a": "\"}\\"}"#));
    assert_eq!(extract_json_object(r#"{"a": "}"#), None, "the string stays open");
    assert_eq!(
        extract_json_object(r#"a "quote {"a": 1} b"#),
        Some(r#"{"a": 1}"#),
        "quotes in the prose before do not count"
    );
}

#[test]
fn request_urls_keep_their_path_and_ignore_trailing_slashes() {
    let schema = CustomEndpointSchema::OpenaiResponses;
    let once = request_url("https://example.com/v1//", schema);
    assert_eq!(once, "https://example.com/v1/responses");
    assert_eq!(request_url(&once, schema), once);
    assert_eq!(request_url(&format!("{once}/"), schema), once);
    assert_eq!(request_url("", schema), "/responses");
    assert_eq!(
        request_url(
            "https://example.com/v1/messages/",
            CustomEndpointSchema::AnthropicMessages
        ),
        "https://example.com/v1/messages"
    );
    assert_eq!(
        request_url(
            "https://example.com/responses",
            CustomEndpointSchema::OpenaiChatCompletions
        ),
        "https://example.com/responses/chat/completions",
        "another schema's path is part of the base"
    );
}

#[test]
fn chat_completions_body_is_deterministic_and_not_streamed() {
    let endpoint = endpoint_for(CustomEndpointSchema::OpenaiChatCompletions);
    let request = completion_request(&endpoint, "sys", "usr", 64);

    assert_eq!(
        names(&request),
        vec!["model", "messages", "temperature", "max_tokens", "stream"]
    );
    assert_eq!(number_at(&request, "temperature"), "0");
    assert_eq!(number_at(&request, "max_tokens"), "64");
    assert!(is_false(request.body.member("stream")));
}

#[test]
fn responses_body_carries_instructions_and_input() {
    let endpoint = endpoint_for(CustomEndpointSchema::OpenaiResponses);
    let request = completion_request(&endpoint, "sys", "usr", u32::MAX);

    assert_eq!(request.url, format!("{SERVER}/responses"));
    assert_eq!(request.bearer_token.as_deref(), Some("test-key"));
    assert_eq!(
        names(&request),
        vec!["model", "instructions", "input", "max_output_tokens", "stream"]
    );
    assert_eq!(text_at(&request, "model"), Some("test-model"));
    assert_eq!(text_at(&request, "instructions"), Some("sys"));
    assert_eq!(text_at(&request, "input"), Some("usr"));
    assert_eq!(number_at(&request, "max_output_tokens"), "4294967295");
    assert!(is_false(request.body.member("stream")));
}

#[test]
fn messages_body_keeps_the_system_prompt_apart() {
    let mut endpoint = endpoint_for(CustomEndpointSchema::AnthropicMessages);
    endpoint.endpoint.api_key = "  padded-key\n".to_owned();
    let request = completion_request(&endpoint, "sys", "usr", 7);

    assert_eq!(request.headers[0].1, "padded-key");
    assert_eq!(names(&request), vec!["model", "max_tokens", "system", "messages"]);
    assert_eq!(number_at(&request, "max_tokens"), "7");
    assert_eq!(text_at(&request, "system"), Some("sys"));
    let messages = request.body.member("messages").as_list().expect("a list");
    assert_eq!(messages.len(), 1);
    assert_eq!(messages[0].member("role").as_text(), Some("user"));
    assert_eq!(messages[0].member("content").as_text(), Some("usr"));
}

#[test]
fn responses_text_is_read_from_either_place() {
    let schema = CustomEndpointSchema::OpenaiResponses;
    assert_eq!(
        extract_text(schema, r#"{"output_text": "short", "output": []}"#).as_deref(),
        Some("short")
    );
    let parts = r#"{"output": [
        {"type": "reasoning"},
        {"content": [{"text": "a"}, {"image": 1}, {"text": "b"}]},
        {"content": "not a list"},
        {"content": [{"text": "c"}]}
    ]}"#;
    assert_eq!(extract_text(schema, parts).as_deref(), Some("abc"));
    assert_eq!(extract_text(schema, r#"{"output": {}}"#), None);
    assert_eq!(extract_text(schema, r#"{"output_text": 3, "output": []}"#), None);
}

#[test]
fn messages_text_joins_the_parts() {
    let schema = CustomEndpointSchema::AnthropicMessages;
    let body = r#"{"content": [{"text": " one"}, {"type": "tool"}, {"text": " two "}]}"#;
    assert_eq!(extract_text(schema, body).as_deref(), Some(" one two "));
    assert_eq!(extract_text(schema, r#"{"content": "text"}"#), None);
}

#[test]
fn chat_text_is_read_from_the_first_choice() {
    let schema = CustomEndpointSchema::OpenaiChatCompletions;
    let body = r#"{"choices": [
        {"message": {"content": "first é"}},
        {"message": {"content": "second"}}
    ]}"#;
    assert_eq!(extract_text(schema, body).as_deref(), Some("first é"));
    assert_eq!(extract_text(schema, r#"{"choices": []}"#), None);
    assert_eq!(extract_text(schema, r#"[1, 2]"#), None);
}

#[test]
fn blank_text_and_broken_documents_carry_nothing() {
    let schema = CustomEndpointSchema::OpenaiChatCompletions;
    let blank = r#"{"choices": [{"message": {"content": " \n\t"}}]}"#;
    assert_eq!(extract_text(schema, blank), None);
    assert_eq!(extract_text(schema, "not json"), None);
    assert_eq!(extract_text(schema, r#"{"choices": [}"#), None);
}

#[test]
fn the_last_of_repeated_members_counts() {
    let schema = CustomEndpointSchema::OpenaiResponses;
    let body = r#"{"output_text": "old", "output_text": "new"}"#;
    assert_eq!(extract_text(schema, body).as_deref(), Some("new"));
}

#[test]
fn text_in_reply_reads_a_built_value() {
    let content = Json::Object(vec![("content".to_owned(), Json::Text("hi".to_owned()))]);
    let choice = Json::Object(vec![("message".to_owned(), content)]);
    let reply = Json::Object(vec![("choices".to_owned(), Json::List(vec![choice]))]);

    assert_eq!(
        text_in_reply(CustomEndpointSchema::OpenaiChatCompletions, &reply).as_deref(),
        Some("hi")
    );
    assert_eq!(text_in_reply(CustomEndpointSchema::AnthropicMessages, &reply), None);
    assert_eq!(text_in_reply(CustomEndpointSchema::OpenaiResponses, &Json::Null), None);
}

#[test]
fn documents_are_read_in_full() {
    let document = parse_json(r#"{"b": [null, true, -12, "x"], "a": {"n": 1}}"#).expect("parses");
    let items = document.member("b").as_list().expect("a list");
    assert_eq!(items.len(), 4);
    assert!(matches!(items[0], Json::Null));
    assert!(matches!(items[1], Json::Bool(true)));
    match &items[2] {
        Json::Number(digits) => assert_eq!(digits, "-12"),
        other => panic!("unexpected value: {other:?}"),
    }
    assert_eq!(items[3].as_text(), Some("x"));
    match document.member("a").member("n") {
        Json::Number(digits) => assert_eq!(digits, "1"),
        other => panic!("unexpected value: {other:?}"),
    }
    assert!(matches!(document.member("missing"), Json::Null));
    assert!(matches!(document.member("b").item(9), Json::Null));
    assert!(parse_json("{} trailing").is_none());
}

#[test]
fn every_error_says_what_happened() {
    let schema = CustomEndpointSchema::OpenaiChatCompletions;
    let label = "OpenAI Chat Completions";
    let failure = |reply: Reply| {
        completion_from_reply(schema, label, reply).expect_err("there is no completion")
    };

    let not_sent = failure(Reply::NotSent("refused".to_owned()));
    assert!(matches!(&not_sent, CompletionError::NotSent(cause) if cause == "refused"));
    assert_eq!(not_sent.message(), "custom endpoint request failed");

    let not_read = failure(Reply::NotRead("cut off".to_owned()));
    assert!(matches!(&not_read, CompletionError::NotRead(cause) if cause == "cut off"));
    assert_eq!(not_read.message(), "failed to read custom endpoint response");

    assert_eq!(
        failure(received(404, "  gone \n")).message(),
        "custom endpoint returned 404 Not Found: gone"
    );
    assert_eq!(
        failure(received(799, "")).message(),
        "custom endpoint returned 799 <unknown status code>: "
    );
    assert_eq!(
        failure(received(200, "{}")).message(),
        "custom endpoint response contained no text for schema OpenAI Chat Completions"
    );
}

#[test]
fn success_is_any_status_in_the_two_hundreds() {
    let schema = CustomEndpointSchema::OpenaiResponses;
    let body = r#"{"output_text": "ok"}"#;
    let completes = |status: u16| {
        completion_from_reply(schema, "OpenAI Responses", received(status, body)).is_ok()
    };
    assert!(completes(200) && completes(204) && completes(299));
    assert!(!completes(199) && !completes(300) && !completes(100) && !completes(999));
}

#[test]
fn error_excerpts_are_cut_to_size() {
    let long = "é".repeat(ERROR_BODY_CHARS + 10);
    let reply = received(500, &format!("  {long}"));
    match completion_from_reply(CustomEndpointSchema::OpenaiResponses, "OpenAI Responses", reply) {
        Err(CompletionError::Status { status, excerpt }) => {
            assert_eq!(status, 500);
            assert_eq!(excerpt, "é".repeat(ERROR_BODY_CHARS));
        }
        other => panic!("unexpected outcome: {other:?}"),
    }
}
