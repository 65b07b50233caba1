//! One non-streaming completion: the request that is sent to an endpoint and the text its reply
//! carries.

use crate::endpoint::{ByoEndpoint, CustomEndpointSchema, EndpointView};
use crate::json;
use crate::json::{Json, JsonView};
use crate::text;
use vstd::prelude::*;

verus! {

/// How much of an error reply's body is quoted.
pub const ERROR_BODY_CHARS: usize = 240;

/// `url` without the slashes at its end.
pub open spec fn without_trailing_slashes(url: Seq<char>) -> Seq<char>
    decreases url.len(),
{
    if url.len() > 0 && url.last() == '/' {
        without_trailing_slashes(url.drop_last())
    } else {
        url
    }
}

/// The path that requests of a schema go to.
pub open spec fn schema_path(schema: CustomEndpointSchema) -> Seq<char> {
    match schema {
        CustomEndpointSchema::OpenaiChatCompletions => "/chat/completions"@,
        CustomEndpointSchema::OpenaiResponses => "/responses"@,
        CustomEndpointSchema::AnthropicMessages => "/messages"@,
    }
}

/// Where requests of a schema go, given the base URL the user configured.
pub open spec fn target_url(base_url: Seq<char>, schema: CustomEndpointSchema) -> Seq<char> {
    let base = without_trailing_slashes(base_url);
    let path = schema_path(schema);
    if text::finishes_with(base, path) {
        base
    } else if schema == CustomEndpointSchema::AnthropicMessages && !text::finishes_with(
        base,
        "/v1"@,
    ) {
        base + "/v1"@ + path
    } else {
        base + path
    }
}

proof fn lemma_slashes_before(url: Seq<char>, end: int)
    requires
        0 <= end <= url.len(),
        forall|i: int| end <= i < url.len() ==> #[trigger] url[i] == '/',
        end == 0 || url[end - 1] != '/',
    ensures
        without_trailing_slashes(url) == url.take(end),
    decreases url.len() - end,
{
    if end == url.len() {
        assert(url.take(end) =~= url);
    } else {
        assert(url[url.len() - 1] == '/');
        let rest = url.drop_last();
        assert forall|i: int| end <= i < rest.len() implies #[trigger] rest[i] == '/' by {
            assert(rest[i] == url[i]);
        }
        lemma_slashes_before(rest, end);
        assert(rest.take(end) =~= url.take(end));
    }
}

/// `url` without the slashes at its end.
fn trim_end_slashes<'a>(url: &'a str) -> (base: &'a str)
    ensures
        base@ == without_trailing_slashes(url@),
{
    let chars = text::chars_of(url);
    let mut end: usize = chars.len();
    while end > 0 && chars[end - 1] == '/'
        invariant
            chars@ == url@,
            end <= chars@.len(),
            forall|i: int| end <= i < chars@.len() ==> #[trigger] chars@[i] == '/',
        ensures
            end == 0 || chars@[end - 1] != '/',
        decreases end,
    {
        end -= 1;
    }
    proof {
        lemma_slashes_before(url@, end as int);
    }
    url.substring_char(0, end)
}

/// Resolves the request URL for `schema` from a user-configured base URL, which may already
/// include the endpoint path.
pub fn request_url(base_url: &str, schema: CustomEndpointSchema) -> (url: String)
    ensures
        url@ == target_url(base_url@, schema),
{
    let base = trim_end_slashes(base_url);
    let path = match schema {
        CustomEndpointSchema::OpenaiChatCompletions => "/chat/completions",
        CustomEndpointSchema::OpenaiResponses => "/responses",
        CustomEndpointSchema::AnthropicMessages => "/messages",
    };
    let mut url = base.to_owned();
    if text::ends_with(base, path) {
        return url;
    }
    // The Messages API is versioned; a base URL that stops at the host needs the version segment.
    if schema == CustomEndpointSchema::AnthropicMessages && !text::ends_with(base, "/v1") {
        url.append("/v1");
    }
    url.append(path);
    url
}

proof fn lemma_schema_path(schema: CustomEndpointSchema)
    ensures
        schema_path(schema).len() > 0,
        schema_path(schema).last() != '/',
{
    reveal_strlit("/chat/completions");
    reveal_strlit("/responses");
    reveal_strlit("/messages");
}

/// Every request URL ends with the path of its schema.
pub proof fn request_urls_end_with_the_path(base_url: Seq<char>, schema: CustomEndpointSchema)
    ensures
        text::finishes_with(target_url(base_url, schema), schema_path(schema)),
{
    let url = target_url(base_url, schema);
    let path = schema_path(schema);
    assert(text::finishes_with(without_trailing_slashes(base_url), path) || url.subrange(
        url.len() - path.len(),
        url.len() as int,
    ) =~= path);
}

/// A URL that already includes the endpoint path is kept: the URL that requests go to is its own
/// request URL, with or without slashes after it.
pub proof fn request_urls_are_kept(base_url: Seq<char>, schema: CustomEndpointSchema)
    ensures
        target_url(target_url(base_url, schema), schema) == target_url(base_url, schema),
        target_url(target_url(base_url, schema).push('/'), schema) == target_url(base_url, schema),
{
    let url = target_url(base_url, schema);
    request_urls_end_with_the_path(base_url, schema);
    lemma_schema_path(schema);
    let path = schema_path(schema);
    assert(url.subrange(url.len() - path.len(), url.len() as int)[path.len() - 1]
        == url[url.len() - 1]);
    assert(without_trailing_slashes(url) == url);
    assert(url.push('/').drop_last() =~= url);
}

/// Slashes at the end of the configured URL make no difference.
pub proof fn trailing_slashes_make_no_difference(base_url: Seq<char>, schema: CustomEndpointSchema)
    ensures
        target_url(base_url.push('/'), schema) == target_url(base_url, schema),
{
    assert(base_url.push('/').drop_last() =~= base_url);
}

/// A request as it goes to the endpoint.
#[derive(Debug)]
pub struct CompletionRequest {
    pub url: String,
    /// The token of the bearer authorization, where the schema uses one.
    pub bearer_token: Option<String>,
    /// The further headers, by name and value.
    pub headers: Vec<(String, String)>,
    pub body: Json,
}

/// What a [`CompletionRequest`] says.
pub struct RequestView {
    pub url: Seq<char>,
    pub bearer_token: Option<Seq<char>>,
    pub headers: Seq<(Seq<char>, Seq<char>)>,
    pub body: JsonView,
}

impl CompletionRequest {
    pub open spec fn view(&self) -> RequestView {
        RequestView {
            url: self.url@,
            bearer_token: match self.bearer_token {
                Some(token) => Some(token@),
                None => None,
            },
            headers: self.headers@.map_values(|header: (String, String)| (header.0@, header.1@)),
            body: self.body@,
        }
    }
}

/// A chat message.
pub open spec fn message(role: Seq<char>, content: Seq<char>) -> JsonView {
    JsonView::Object(
        seq![("role"@, JsonView::Text(role)), ("content"@, JsonView::Text(content))],
    )
}

/// The body of a request in each schema.
pub open spec fn request_body(
    schema: CustomEndpointSchema,
    model: Seq<char>,
    system: Seq<char>,
    user: Seq<char>,
    max_tokens: nat,
) -> JsonView {
    let budget = JsonView::Number(text::decimal_digits(max_tokens));
    match schema {
        CustomEndpointSchema::OpenaiChatCompletions => JsonView::Object(
            seq![
                ("model"@, JsonView::Text(model)),
                (
                    "messages"@,
                    JsonView::List(seq![message("system"@, system), message("user"@, user)]),
                ),
                ("temperature"@, JsonView::Number(text::decimal_digits(0))),
                ("max_tokens"@, budget),
                ("stream"@, JsonView::Bool(false)),
            ],
        ),
        CustomEndpointSchema::OpenaiResponses => JsonView::Object(
            seq![
                ("model"@, JsonView::Text(model)),
                ("instructions"@, JsonView::Text(system)),
                ("input"@, JsonView::Text(user)),
                ("max_output_tokens"@, budget),
                ("stream"@, JsonView::Bool(false)),
            ],
        ),
        CustomEndpointSchema::AnthropicMessages => JsonView::Object(
            seq![
                ("model"@, JsonView::Text(model)),
                ("max_tokens"@, budget),
                ("system"@, JsonView::Text(system)),
                ("messages"@, JsonView::List(seq![message("user"@, user)])),
            ],
        ),
    }
}

/// The request that asks `endpoint`'s `model` for a completion.
pub open spec fn request_to(
    endpoint: EndpointView,
    model: Seq<char>,
    system: Seq<char>,
    user: Seq<char>,
    max_tokens: nat,
) -> RequestView {
    let key = text::trimmed(endpoint.api_key);
    let keyed_by_header = endpoint.schema == CustomEndpointSchema::AnthropicMessages;
    RequestView {
        url: target_url(endpoint.url, endpoint.schema),
        bearer_token: if keyed_by_header {
            None
        } else {
            Some(key)
        },
        headers: if keyed_by_header {
            seq![("x-api-key"@, key), ("anthropic-version"@, "2023-06-01"@)]
        } else {
            Seq::empty()
        },
        body: request_body(endpoint.schema, model, system, user, max_tokens),
    }
}

/// A JSON string.
fn json_text(content: &str) -> (value: Json)
    ensures
        value@ == JsonView::Text(content@),
{
    Json::Text(content.to_owned())
}

/// A chat message.
fn json_message(role: &str, content: &str) -> (value: Json)
    ensures
        value@ == message(role@, content@),
{
    let members: Vec<(String, Json)> = Vec::new();
    let members = json::with_member(members, "role", json_text(role));
    let members = json::with_member(members, "content", json_text(content));
    assert(json::members_view(members@) =~= message(role@, content@)->Object_0);
    Json::Object(members)
}

/// The body of a request in each schema.
fn json_body(
    schema: CustomEndpointSchema,
    model: &str,
    system: &str,
    user: &str,
    max_tokens: u32,
) -> (body: Json)
    ensures
        body@ == request_body(schema, model@, system@, user@, max_tokens as nat),
{
    let budget = Json::Number(text::decimal(max_tokens));
    let members: Vec<(String, Json)> = Vec::new();
    let members = json::with_member(members, "model", json_text(model));
    let members = match schema {
        CustomEndpointSchema::OpenaiChatCompletions => {
            let messages: Vec<Json> = Vec::new();
            let messages = json::with_item(messages, json_message("system", system));
            let messages = json::with_item(messages, json_message("user", user));
            assert(json::items_view(messages@) =~= seq![
                message("system"@, system@),
                message("user"@, user@),
            ]);
            let members = json::with_member(members, "messages", Json::List(messages));
            let members = json::with_member(
                members,
                "temperature",
                Json::Number(text::decimal(0)),
            );
            let members = json::with_member(members, "max_tokens", budget);
            json::with_member(members, "stream", Json::Bool(false))
        },
        CustomEndpointSchema::OpenaiResponses => {
            let members = json::with_member(members, "instructions", json_text(system));
            let members = json::with_member(members, "input", json_text(user));
            let members = json::with_member(members, "max_output_tokens", budget);
            json::with_member(members, "stream", Json::Bool(false))
        },
        CustomEndpointSchema::AnthropicMessages => {
            let members = json::with_member(members, "max_tokens", budget);
            let members = json::with_member(members, "system", json_text(system));
            let messages: Vec<Json> = Vec::new();
            let messages = json::with_item(messages, json_message("user", user));
            assert(json::items_view(messages@) =~= seq![message("user"@, user@)]);
            json::with_member(members, "messages", Json::List(messages))
        },
    };
    assert(json::members_view(members@) =~= request_body(
        schema,
        model@,
        system@,
        user@,
        max_tokens as nat,
    )->Object_0);
    Json::Object(members)
}

/// The request that asks the endpoint for a single completion.
pub fn completion_request(
    endpoint: &ByoEndpoint,
    system: &str,
    user: &str,
    max_tokens: u32,
) -> (request: CompletionRequest)
    ensures
        request@ == request_to(endpoint@.0, endpoint@.1, system@, user@, max_tokens as nat),
{
    let schema = endpoint.endpoint.schema;
    let key = text::trim(endpoint.endpoint.api_key.as_str());
    let mut headers: Vec<(String, String)> = Vec::new();
    let bearer_token = match schema {
        CustomEndpointSchema::AnthropicMessages => {
            headers.push(("x-api-key".to_owned(), key.to_owned()));
            headers.push(("anthropic-version".to_owned(), "2023-06-01".to_owned()));
            None
        },
        _ => Some(key.to_owned()),
    };
    let request = CompletionRequest {
        url: request_url(endpoint.endpoint.url.as_str(), schema),
        bearer_token,
        headers,
        body: json_body(schema, endpoint.model.as_str(), system, user, max_tokens),
    };
    assert(request@.headers =~= request_to(
        endpoint@.0,
        endpoint@.1,
        system@,
        user@,
        max_tokens as nat,
    ).headers);
    request
}

/// The texts of a reply's parts, one after the other; parts without text add nothing.
pub open spec fn part_texts(parts: Seq<JsonView>) -> Seq<char>
    decreases parts.len(),
{
    if parts.len() == 0 {
        Seq::empty()
    } else {
        part_texts(parts.drop_last()) + match parts.last().member("text"@).as_text() {
            Some(text) => text,
            None => Seq::empty(),
        }
    }
}

/// The texts of the parts of every output item, one after the other; items without a list of
/// parts add nothing.
pub open spec fn output_texts(items: Seq<JsonView>) -> Seq<char>
    decreases items.len(),
{
    if items.len() == 0 {
        Seq::empty()
    } else {
        output_texts(items.drop_last()) + match items.last().member("content"@).as_list() {
            Some(parts) => part_texts(parts),
            None => Seq::empty(),
        }
    }
}

/// The text that a reply carries in each schema, blank or not.
pub open spec fn carried_text(schema: CustomEndpointSchema, reply: JsonView) -> Option<Seq<char>> {
    match schema {
        CustomEndpointSchema::OpenaiChatCompletions => reply.member("choices"@).item(0).member(
            "message"@,
        ).member("content"@).as_text(),
        CustomEndpointSchema::OpenaiResponses => match reply.member("output_text"@).as_text() {
            Some(text) => Some(text),
            None => match reply.member("output"@).as_list() {
                Some(items) => Some(output_texts(items)),
                None => None,
            },
        },
        CustomEndpointSchema::AnthropicMessages => match reply.member("content"@).as_list() {
            Some(parts) => Some(part_texts(parts)),
            None => None,
        },
    }
}

/// The text that a reply carries, unless it is blank.
pub open spec fn reply_text(schema: CustomEndpointSchema, reply: JsonView) -> Option<Seq<char>> {
    match carried_text(schema, reply) {
        Some(text) => if text::trimmed(text).len() > 0 {
            Some(text)
        } else {
            None
        },
        None => None,
    }
}

/// The text that a reply's body carries: none when the body is no JSON document.
pub open spec fn body_text(schema: CustomEndpointSchema, body: Seq<char>) -> Option<Seq<char>> {
    match json::json_document(body) {
        Some(reply) => reply_text(schema, reply),
        None => None,
    }
}

/// The texts of a reply's parts, one after the other.
fn joined_part_texts(parts: &Vec<Json>) -> (joined: String)
    ensures
        joined@ == part_texts(json::items_view(parts@)),
{
    let ghost views = json::items_view(parts@);
    let mut joined = String::new();
    let mut i: usize = 0;
    proof {
        json::lemma_items_view(parts@);
        assert(views.take(0) =~= Seq::empty());
    }
    while i < parts.len()
        invariant
            i <= parts@.len() == views.len(),
            forall|k: int| 0 <= k < parts@.len() ==> #[trigger] views[k] == parts@[k]@,
            joined@ == part_texts(views.take(i as int)),
        decreases parts@.len() - i,
    {
        let ghost before = joined@;
        match parts[i].member("text").as_text() {
            Some(text) => {
                joined.append(text);
            },
            None => {
                assert(before + Seq::<char>::empty() =~= before);
            },
        }
        proof {
            assert(views.take(i + 1).drop_last() =~= views.take(i as int));
            assert(views.take(i + 1).last() == parts@[i as int]@);
        }
        i += 1;
    }
    assert(views.take(views.len() as int) =~= views);
    joined
}

/// The texts of the parts of every output item, one after the other.
fn joined_output_texts(items: &Vec<Json>) -> (joined: String)
    ensures
        joined@ == output_texts(json::items_view(items@)),
{
    let ghost views = json::items_view(items@);
    let mut joined = String::new();
    let mut i: usize = 0;
    proof {
        json::lemma_items_view(items@);
        assert(views.take(0) =~= Seq::empty());
    }
    while i < items.len()
        invariant
            i <= items@.len() == views.len(),
            forall|k: int| 0 <= k < items@.len() ==> #[trigger] views[k] == items@[k]@,
            joined@ == output_texts(views.take(i as int)),
        decreases items@.len() - i,
    {
        let ghost before = joined@;
        match items[i].member("content").as_list() {
            Some(parts) => {
                joined.append(joined_part_texts(parts).as_str());
            },
            None => {
                assert(before + Seq::<char>::empty() =~= before);
            },
        }
        proof {
            assert(views.take(i + 1).drop_last() =~= views.take(i as int));
            assert(views.take(i + 1).last() == items@[i as int]@);
        }
        i += 1;
    }
    assert(views.take(views.len() as int) =~= views);
    joined
}

/// The text that a reply carries, unless it is blank.
pub fn text_in_reply(schema: CustomEndpointSchema, reply: &Json) -> (text: Option<String>)
    ensures
        match text {
            Some(text) => reply_text(schema, reply@) == Some(text@),
            None => reply_text(schema, reply@) is None,
        },
{
    let text = match schema {
        CustomEndpointSchema::OpenaiChatCompletions => {
            match reply.member("choices").item(0).member("message").member("content").as_text() {
                Some(text) => text.to_owned(),
                None => {
                    return None;
                },
            }
        },
        CustomEndpointSchema::OpenaiResponses => match reply.member("output_text").as_text() {
            Some(text) => text.to_owned(),
            None => match reply.member("output").as_list() {
                Some(items) => joined_output_texts(items),
                None => {
                    return None;
                },
            },
        },
        CustomEndpointSchema::AnthropicMessages => match reply.member("content").as_list() {
            Some(parts) => joined_part_texts(parts),
            None => {
                return None;
            },
        },
    };
    if text::trim(text.as_str()).is_empty() {
        None
    } else {
        Some(text)
    }
}

/// The text that a reply's body carries: none when the body is no JSON document, has no text
/// where the schema puts it, or only blank text.
pub fn extract_text(schema: CustomEndpointSchema, body: &str) -> (text: Option<String>)
    ensures
        match text {
            Some(text) => body_text(schema, body@) == Some(text@),
            None => body_text(schema, body@) is None,
        },
{
    match json::parse_json(body) {
        Some(reply) => text_in_reply(schema, &reply),
        None => None,
    }
}

/// What came of sending a request.
#[derive(Debug)]
pub enum Reply {
    /// The request was not answered; why, in words.
    NotSent(String),
    /// The answer's body could not be read; why, in words.
    NotRead(String),
    /// The endpoint answered with a status code and a body.
    Received { status: u16, body: String },
}

/// Why there is no completion.
#[derive(Debug)]
pub enum CompletionError {
    /// The request was not answered; why, in words.
    NotSent(String),
    /// The answer's body could not be read; why, in words.
    NotRead(String),
    /// The endpoint answered with a status other than success.
    Status { status: u16, excerpt: String },
    /// The answer carries no text; the label of the schema it was read by.
    NoText { schema_label: String },
}

impl Reply {
    /// A status code has three digits.
    pub open spec fn is_valid(&self) -> bool {
        match *self {
            Reply::Received { status, .. } => 100 <= status <= 999,
            _ => true,
        }
    }
}

impl CompletionError {
    /// A status code has three digits.
    pub open spec fn is_valid(&self) -> bool {
        match *self {
            CompletionError::Status { status, .. } => 100 <= status <= 999,
            _ => true,
        }
    }
}

/// Whether a status code reports success.
pub open spec fn is_success(status: u16) -> bool {
    200 <= status < 300
}

/// What becomes of a request, as text.
pub enum OutcomeView {
    Text(Seq<char>),
    NotSent(Seq<char>),
    NotRead(Seq<char>),
    Status { status: u16, excerpt: Seq<char> },
    NoText { schema_label: Seq<char> },
}

/// What a completion or its failure says.
pub open spec fn outcome_view(completion: Result<String, CompletionError>) -> OutcomeView {
    match completion {
        Ok(text) => OutcomeView::Text(text@),
        Err(CompletionError::NotSent(cause)) => OutcomeView::NotSent(cause@),
        Err(CompletionError::NotRead(cause)) => OutcomeView::NotRead(cause@),
        Err(CompletionError::Status { status, excerpt }) => OutcomeView::Status {
            status,
            excerpt: excerpt@,
        },
        Err(CompletionError::NoText { schema_label }) => OutcomeView::NoText {
            schema_label: schema_label@,
        },
    }
}

/// What a reply comes to.
pub open spec fn outcome_of(
    schema: CustomEndpointSchema,
    schema_label: Seq<char>,
    reply: Reply,
) -> OutcomeView {
    match reply {
        Reply::NotSent(cause) => OutcomeView::NotSent(cause@),
        Reply::NotRead(cause) => OutcomeView::NotRead(cause@),
        Reply::Received { status, body } => if is_success(status) {
            match body_text(schema, body@) {
                Some(text) => OutcomeView::Text(text),
                None => OutcomeView::NoText { schema_label },
            }
        } else {
            OutcomeView::Status {
                status,
                excerpt: text::first_chars(text::trimmed(body@), ERROR_BODY_CHARS as int),
            }
        },
    }
}

/// The completion that a reply gives: its text when the status is a success and there is one.
pub fn completion_from_reply(
    schema: CustomEndpointSchema,
    schema_label: &str,
    reply: Reply,
) -> (completion: Result<String, CompletionError>)
    requires
        reply.is_valid(),
    ensures
        match reply {
            Reply::NotSent(cause) => completion == Err::<String, CompletionError>(
                CompletionError::NotSent(cause),
            ),
            Reply::NotRead(cause) => completion == Err::<String, CompletionError>(
                CompletionError::NotRead(cause),
            ),
            Reply::Received { status, body } => if !is_success(status) {
                completion matches Err(CompletionError::Status { status: reported, excerpt })
                    && reported == status && excerpt@ == text::first_chars(
                    text::trimmed(body@),
                    ERROR_BODY_CHARS as int,
                )
            } else {
                match body_text(schema, body@) {
                    Some(text) => completion matches Ok(given) && given@ == text,
                    None => completion matches Err(CompletionError::NoText { schema_label: label })
                        && label@ == schema_label@,
                }
            },
        },
        completion matches Err(error) ==> error.is_valid(),
        outcome_view(completion) == outcome_of(schema, schema_label@, reply),
{
    match reply {
        Reply::NotSent(cause) => Err(CompletionError::NotSent(cause)),
        Reply::NotRead(cause) => Err(CompletionError::NotRead(cause)),
        Reply::Received { status, body } => {
            if status < 200 || status >= 300 {
                let excerpt = text::truncate(text::trim(body.as_str()), ERROR_BODY_CHARS);
                return Err(CompletionError::Status { status, excerpt: excerpt.to_owned() });
            }
            match extract_text(schema, body.as_str()) {
                Some(text) => Ok(text),
                None => Err(CompletionError::NoText { schema_label: schema_label.to_owned() }),
            }
        },
    }
}

/// The reason phrase that `reqwest::StatusCode` shows for a status code.
pub uninterp spec fn status_reason(status: u16) -> Seq<char>;

/// `reqwest::StatusCode::from_u16`, shown with its `Display`: the code's digits, a space, and the
/// phrase that stands for the code. The function fails below 100 and above 999.
#[verifier::external_body]
fn shown_status(status: u16) -> (shown: String)
    requires
        100 <= status <= 999,
    ensures
        shown@ == text::decimal_digits(status as nat) + seq![' '] + status_reason(status),
{
    reqwest::StatusCode::from_u16(status).unwrap().to_string()
}

impl CompletionError {
    /// What the error says.
    pub open spec fn text(&self) -> Seq<char> {
        match *self {
            CompletionError::NotSent(_) => "custom endpoint request failed"@,
            CompletionError::NotRead(_) => "failed to read custom endpoint response"@,
            CompletionError::Status { status, excerpt } => "custom endpoint returned "@
                + text::decimal_digits(status as nat) + seq![' '] + status_reason(status) + ": "@
                + excerpt@,
            CompletionError::NoText {
                schema_label,
            } => "custom endpoint response contained no text for schema "@ + schema_label@,
        }
    }

    /// What the error says.
    pub fn message(&self) -> (message: String)
        requires
            self.is_valid(),
        ensures
            message@ == self.text(),
    {
        match self {
            CompletionError::NotSent(_) => "custom endpoint request failed".to_owned(),
            CompletionError::NotRead(_) => "failed to read custom endpoint response".to_owned(),
            CompletionError::Status { status, excerpt } => {
                let mut message = "custom endpoint returned ".to_owned();
                message.append(shown_status(*status).as_str());
                message.append(": ");
                message.append(excerpt.as_str());
                assert(message@ =~= self.text());
                message
            },
            CompletionError::NoText { schema_label } => {
                let mut message =
                    "custom endpoint response contained no text for schema ".to_owned();
                message.append(schema_label.as_str());
                message
            },
        }
    }
}

/// A completion is never blank.
pub proof fn completions_are_not_blank(schema: CustomEndpointSchema, reply: JsonView)
    ensures
        match reply_text(schema, reply) {
            Some(text) => !text::is_blank_text(text),
            None => true,
        },
{
    match reply_text(schema, reply) {
        Some(text) => {
            text::trimming_empties_blank_text(text);
        },
        None => {},
    }
}

/// The URL of a request is the base without the slashes at its end, and then the schema's path:
/// the base alone where it has that path already, and with a version segment between them where
/// the schema wants one and the base does not end with it.
pub proof fn request_urls_begin_with_the_base(
    base: Seq<char>,
    slashes: Seq<char>,
    schema: CustomEndpointSchema,
)
    requires
        base.len() == 0 || base.last() != '/',
        forall|i: int| 0 <= i < slashes.len() ==> #[trigger] slashes[i] == '/',
    ensures
        ({
            let path = match schema {
                CustomEndpointSchema::OpenaiChatCompletions => "/chat/completions"@,
                CustomEndpointSchema::OpenaiResponses => "/responses"@,
                CustomEndpointSchema::AnthropicMessages => "/messages"@,
            };
            let version = if schema is AnthropicMessages && !text::finishes_with(base, "/v1"@) {
                "/v1"@
            } else {
                Seq::empty()
            };
            target_url(base + slashes, schema) == if text::finishes_with(base, path) {
                base
            } else {
                base + version + path
            }
        }),
{
    let url = base + slashes;
    let end = base.len() as int;
    assert forall|i: int| end <= i < url.len() implies #[trigger] url[i] == '/' by {
        assert(url[i] == slashes[i - end]);
    }
    lemma_slashes_before(url, end);
    assert(url.take(end) =~= base);
    assert(base + Seq::empty() =~= base);
}

/// A request says what it is asked to say: the model, the two texts in full and the budget, each
/// under the name that the schema gives it, and the trimmed key.
pub proof fn requests_say_what_is_asked(
    endpoint: EndpointView,
    model: Seq<char>,
    system: Seq<char>,
    user: Seq<char>,
    max_tokens: nat,
)
    ensures
        ({
            let request = request_to(endpoint, model, system, user, max_tokens);
            let key = text::trimmed(endpoint.api_key);
            let body = request.body;
            let budget = text::integer_text(max_tokens as int);
            &&& request.url == target_url(endpoint.url, endpoint.schema)
            &&& body.member("model"@).as_text() == Some(model)
            &&& match endpoint.schema {
                CustomEndpointSchema::OpenaiChatCompletions => {
                    let messages = body.member("messages"@);
                    &&& request.bearer_token == Some(key)
                    &&& request.headers.len() == 0
                    &&& body->Object_0.len() == 5
                    &&& messages->List_0.len() == 2
                    &&& messages.item(0).member("role"@).as_text() == Some("system"@)
                    &&& messages.item(0).member("content"@).as_text() == Some(system)
                    &&& messages.item(1).member("role"@).as_text() == Some("user"@)
                    &&& messages.item(1).member("content"@).as_text() == Some(user)
                    &&& body.member("temperature"@) == JsonView::Number(text::integer_text(0))
                    &&& body.member("max_tokens"@) == JsonView::Number(budget)
                    &&& body.member("stream"@) == JsonView::Bool(false)
                },
                CustomEndpointSchema::OpenaiResponses => {
                    &&& request.bearer_token == Some(key)
                    &&& request.headers.len() == 0
                    &&& body->Object_0.len() == 5
                    &&& body.member("instructions"@).as_text() == Some(system)
                    &&& body.member("input"@).as_text() == Some(user)
                    &&& body.member("max_output_tokens"@) == JsonView::Number(budget)
                    &&& body.member("stream"@) == JsonView::Bool(false)
                },
                CustomEndpointSchema::AnthropicMessages => {
                    let messages = body.member("messages"@);
                    &&& request.bearer_token is None
                    &&& request.headers == seq![
                        ("x-api-key"@, key),
                        ("anthropic-version"@, "2023-06-01"@),
                    ]
                    &&& body->Object_0.len() == 4
                    &&& messages->List_0.len() == 1
                    &&& messages.item(0).member("role"@).as_text() == Some("user"@)
                    &&& messages.item(0).member("content"@).as_text() == Some(user)
                    &&& body.member("system"@).as_text() == Some(system)
                    &&& body.member("max_tokens"@) == JsonView::Number(budget)
                },
            }
        }),
{
    text::numbers_read_back(0);
    text::numbers_read_back(max_tokens as int);
    lemma_names_differ();
    let body = request_to(endpoint, model, system, user, max_tokens).body;
    lemma_members(body->Object_0);
    lemma_members(message("system"@, system)->Object_0);
    lemma_members(message("user"@, user)->Object_0);
}

/// The names in requests are told apart.
proof fn lemma_names_differ()
    ensures
        "role"@ != "content"@,
        "model"@ != "messages"@,
        "model"@ != "temperature"@,
        "model"@ != "max_tokens"@,
        "model"@ != "stream"@,
        "messages"@ != "temperature"@,
        "messages"@ != "max_tokens"@,
        "messages"@ != "stream"@,
        "messages"@ != "system"@,
        "temperature"@ != "max_tokens"@,
        "temperature"@ != "stream"@,
        "max_tokens"@ != "stream"@,
        "max_tokens"@ != "system"@,
        "model"@ != "instructions"@,
        "model"@ != "input"@,
        "model"@ != "max_output_tokens"@,
        "instructions"@ != "input"@,
        "instructions"@ != "max_output_tokens"@,
        "instructions"@ != "stream"@,
        "input"@ != "max_output_tokens"@,
        "input"@ != "stream"@,
        "max_output_tokens"@ != "stream"@,
        "model"@ != "system"@,
{
    reveal_strlit("role");
    reveal_strlit("content");
    reveal_strlit("model");
    reveal_strlit("messages");
    reveal_strlit("temperature");
    reveal_strlit("max_tokens");
    reveal_strlit("stream");
    reveal_strlit("instructions");
    reveal_strlit("input");
    reveal_strlit("max_output_tokens");
    reveal_strlit("system");
    assert("role"@[0] == 'r');
    assert("content"@[0] == 'c');
    assert("model"@[1] == 'o');
    assert("messages"@[1] == 'e');
    assert("temperature"@[0] == 't');
    assert("max_tokens"@[1] == 'a');
    assert("max_tokens"@[4] == 't');
    assert("max_output_tokens"@[1] == 'a');
    assert("stream"@[1] == 't');
    assert("system"@[1] == 'y');
    assert("instructions"@[2] == 's');
    assert("input"@[2] == 'p');
    assert("messages"@[0] == 'm');
    assert("model"@[0] == 'm');
    assert("max_tokens"@[0] == 'm');
    assert("max_output_tokens"@[0] == 'm');
    assert("stream"@[0] == 's');
    assert("system"@[0] == 's');
    assert("instructions"@[0] == 'i');
    assert("input"@[0] == 'i');
}

/// A member is found under its name where none before it has that name.
proof fn lemma_members(members: Seq<(Seq<char>, JsonView)>)
    ensures
        forall|at: int, name: Seq<char>|
            0 <= at < members.len() && (#[trigger] members[at]).0 == name && (forall|k: int|
                0 <= k < at ==> (#[trigger] members[k]).0 != name) ==> #[trigger] json::member_named(
                members,
                name,
            ) == members[at].1,
{
    assert forall|at: int, name: Seq<char>|
        0 <= at < members.len() && (#[trigger] members[at]).0 == name && (forall|k: int|
            0 <= k < at ==> (
            #[trigger] members[k]).0 != name) implies #[trigger] json::member_named(members, name)
        == members[at].1 by {
        json::the_first_member_counts(members, name, at);
    }
}

/// Replies are read in full: where the first choice of a chat completion has a text that is not
/// blank, that very text is read, of any length.
pub proof fn chat_replies_are_read_in_full(reply: JsonView, content: Seq<char>)
    requires
        reply.member("choices"@).item(0).member("message"@).member("content"@) == JsonView::Text(
            content,
        ),
    ensures
        reply_text(CustomEndpointSchema::OpenaiChatCompletions, reply) == (if text::is_blank_text(
            content,
        ) {
            None
        } else {
            Some(content)
        }),
{
    text::trimming_empties_blank_text(content);
}

/// Where the text of a chat completion is anything but a string, there is none.
pub proof fn chat_replies_without_a_string_have_no_text(reply: JsonView)
    requires
        !(reply.member("choices"@).item(0).member("message"@).member("content"@) is Text),
    ensures
        reply_text(CustomEndpointSchema::OpenaiChatCompletions, reply) is None,
{
}

/// The text of one part: the string under `text`, and nothing where there is none.
pub open spec fn text_of_part(part: JsonView) -> Seq<char> {
    match part.member("text"@) {
        JsonView::Text(text) => text,
        _ => Seq::empty(),
    }
}

/// The parts of one output item: the list under `content`, and nothing where there is none.
pub open spec fn parts_of_item(item: JsonView) -> Seq<JsonView> {
    match item.member("content"@) {
        JsonView::List(parts) => parts,
        _ => Seq::empty(),
    }
}

proof fn lemma_parts_go_on(front: Seq<JsonView>, back: Seq<JsonView>)
    ensures
        part_texts(front + back) == part_texts(front) + part_texts(back),
    decreases back.len(),
{
    let all = front + back;
    if back.len() == 0 {
        assert(all =~= front);
        assert(part_texts(front) + part_texts(back) =~= part_texts(front));
    } else {
        lemma_parts_go_on(front, back.drop_last());
        assert(all.drop_last() =~= front + back.drop_last());
        let text = match back.last().member("text"@).as_text() {
            Some(text) => text,
            None => Seq::empty(),
        };
        assert(part_texts(front) + part_texts(back.drop_last()) + text =~= part_texts(front) + (
        part_texts(back.drop_last()) + text));
    }
}

proof fn lemma_items_go_on(front: Seq<JsonView>, back: Seq<JsonView>)
    ensures
        output_texts(front + back) == output_texts(front) + output_texts(back),
    decreases back.len(),
{
    let all = front + back;
    if back.len() == 0 {
        assert(all =~= front);
        assert(output_texts(front) + output_texts(back) =~= output_texts(front));
    } else {
        lemma_items_go_on(front, back.drop_last());
        assert(all.drop_last() =~= front + back.drop_last());
        let text = match back.last().member("content"@).as_list() {
            Some(parts) => part_texts(parts),
            None => Seq::empty(),
        };
        assert(output_texts(front) + output_texts(back.drop_last()) + text =~= output_texts(front)
            + (output_texts(back.drop_last()) + text));
    }
}

/// The texts of parts follow one another, none of them cut: what two lists of parts say is what
/// the first says and then what the second says, and one part says its own text.
pub proof fn part_texts_follow_one_another(
    front: Seq<JsonView>,
    part: JsonView,
    back: Seq<JsonView>,
)
    ensures
        part_texts(front + seq![part] + back) == part_texts(front) + text_of_part(part)
            + part_texts(back),
        part_texts(Seq::empty()).len() == 0,
        part_texts(front + seq![part] + back).len() == part_texts(front).len() + text_of_part(
            part,
        ).len() + part_texts(back).len(),
{
    let one = seq![part];
    lemma_parts_go_on(front, one);
    lemma_parts_go_on(front + one, back);
    assert(one.drop_last() =~= Seq::empty());
    assert(part_texts(one.drop_last()) =~= Seq::empty());
    assert(part_texts(one) =~= text_of_part(part));
}

/// The texts of output items follow one another in the same way: one item says what its parts say.
pub proof fn output_texts_follow_one_another(
    front: Seq<JsonView>,
    item: JsonView,
    back: Seq<JsonView>,
)
    ensures
        output_texts(front + seq![item] + back) == output_texts(front) + part_texts(
            parts_of_item(item),
        ) + output_texts(back),
        output_texts(Seq::empty()).len() == 0,
{
    let one = seq![item];
    lemma_items_go_on(front, one);
    lemma_items_go_on(front + one, back);
    assert(one.drop_last() =~= Seq::empty());
    assert(output_texts(one.drop_last()) =~= Seq::empty());
    assert(output_texts(one) =~= part_texts(parts_of_item(item)));
}

/// The text of a reply in parts is all that its parts say, unless that is blank. In the Responses
/// schema a text that stands by itself comes before them.
pub proof fn replies_in_parts_are_read_in_full(reply: JsonView)
    ensures
        match reply.member("content"@) {
            JsonView::List(parts) => reply_text(CustomEndpointSchema::AnthropicMessages, reply)
                == (if text::is_blank_text(part_texts(parts)) {
                None
            } else {
                Some(part_texts(parts))
            }),
            _ => reply_text(CustomEndpointSchema::AnthropicMessages, reply) is None,
        },
        match (reply.member("output_text"@), reply.member("output"@)) {
            (JsonView::Text(text), _) => reply_text(CustomEndpointSchema::OpenaiResponses, reply)
                == (if text::is_blank_text(text) {
                None
            } else {
                Some(text)
            }),
            (_, JsonView::List(items)) => reply_text(CustomEndpointSchema::OpenaiResponses, reply)
                == (if text::is_blank_text(output_texts(items)) {
                None
            } else {
                Some(output_texts(items))
            }),
            _ => reply_text(CustomEndpointSchema::OpenaiResponses, reply) is None,
        },
{
    if let JsonView::List(parts) = reply.member("content"@) {
        text::trimming_empties_blank_text(part_texts(parts));
    }
    if let JsonView::Text(text) = reply.member("output_text"@) {
        text::trimming_empties_blank_text(text);
    }
    if let JsonView::List(items) = reply.member("output"@) {
        text::trimming_empties_blank_text(output_texts(items));
    }
}

/// A body is read as the JSON document that it is, and a body that is none carries no text.
pub proof fn bodies_are_read_as_documents(schema: CustomEndpointSchema, body: Seq<char>)
    ensures
        match json::json_document(body) {
            Some(reply) => body_text(schema, body) == reply_text(schema, reply),
            None => body_text(schema, body) is None,
        },
{
}

/// A reply of any status in the two hundreds is read for its text; any other is reported with its
/// own status and the first two hundred and forty characters of its trimmed body, or all of it
/// when it is shorter.
pub proof fn other_statuses_are_reported(
    schema: CustomEndpointSchema,
    schema_label: Seq<char>,
    status: u16,
    body: String,
    head: Seq<char>,
    tail: Seq<char>,
)
    requires
        text::trimmed(body@) == head + tail,
        tail.len() == 0 || head.len() == 240,
        head.len() <= 240,
    ensures
        status / 100 == 2 ==> outcome_of(schema, schema_label, Reply::Received { status, body })
            == (match body_text(schema, body@) {
            Some(text) => OutcomeView::Text(text),
            None => OutcomeView::NoText { schema_label },
        }),
        status / 100 != 2 ==> outcome_of(schema, schema_label, Reply::Received { status, body }) == (
        OutcomeView::Status { status, excerpt: head }),
        outcome_of(schema, schema_label, Reply::NotSent(body)) == OutcomeView::NotSent(body@),
        outcome_of(schema, schema_label, Reply::NotRead(body)) == OutcomeView::NotRead(body@),
{
    text::cutting_gives_the_beginning(head, tail, 240);
    if tail.len() == 0 {
        assert(head + tail =~= head);
    }
}

/// A request is seen as it is sent.
pub proof fn requests_are_seen_whole(request: CompletionRequest, i: int)
    ensures
        request@.url == request.url@,
        request@.body == request.body@,
        request@.headers.len() == request.headers@.len(),
        0 <= i < request.headers@.len() ==> request@.headers[i] == (
            request.headers@[i].0@,
            request.headers@[i].1@,
        ),
        match request.bearer_token {
            Some(token) => request@.bearer_token == Some(token@),
            None => request@.bearer_token is None,
        },
{
}

/// A completion, or the reason for none, is seen as it is.
pub proof fn outcomes_are_seen_whole(text: String, status: u16)
    ensures
        outcome_view(Ok(text)) == OutcomeView::Text(text@),
        outcome_view(Err(CompletionError::NotSent(text))) == OutcomeView::NotSent(text@),
        outcome_view(Err(CompletionError::NotRead(text))) == OutcomeView::NotRead(text@),
        outcome_view(Err(CompletionError::Status { status, excerpt: text })) == (
        OutcomeView::Status { status, excerpt: text@ }),
        outcome_view(Err(CompletionError::NoText { schema_label: text })) == (OutcomeView::NoText {
            schema_label: text@,
        }),
{
}

} // verus!
