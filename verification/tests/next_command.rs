use byo_inference::circuit::{ByoRankingMode, RankingPolicy};
use byo_inference::next_command::{
    parse_response, request_timeout, suggestions_from, user_prompt, BlockContext, ByoAutofillWait,
    GenerateAIInputSuggestionsRequest, RawSuggestions, SuggestionError, BLOCK_OUTPUT_CHARS,
    MAX_CONTEXT_CHARS,
};
use std::time::Duration;

fn request_with_prefix(prefix: Option<&str>) -> GenerateAIInputSuggestionsRequest {
    GenerateAIInputSuggestionsRequest {
        prefix: prefix.map(str::to_owned),
        ..Default::default()
    }
}

fn owned(items: &[&str]) -> Vec<String> {
    items.iter().map(|item| (*item).to_owned()).collect()
}

fn answer(commands: &[&str], most_likely_action: Option<&str>) -> RawSuggestions {
    RawSuggestions {
        commands: owned(commands),
        most_likely_action: most_likely_action.map(str::to_owned),
    }
}

fn read_suggestions(object: &str) -> Result<RawSuggestions, String> {
    let value: serde_json::Value =
        serde_json::from_str(object).map_err(|error| error.to_string())?;
    let commands = match value.get("commands") {
        Some(commands) => commands
            .as_array()
            .ok_or("commands is no list")?
            .iter()
            .map(|command| command.as_str().map(str::to_owned).ok_or("a command is no string"))
            .collect::<Result<Vec<String>, &str>>()?,
        None => Vec::new(),
    };
    let most_likely_action = value
        .get("most_likely_action")
        .and_then(|action| action.as_str())
        .map(str::to_owned);
    Ok(RawSuggestions {
        commands,
        most_likely_action,
    })
}

#[test]
fn parses_commands_and_most_likely_action_from_fenced_json() {
    let raw = "```json\n{\"commands\": [\"cargo test\", \"cargo build\"], \
\"most_likely_action\": \"cargo test\"}\n```";

    let response = parse_response(raw, None, &[], read_suggestions).expect("response parses");

    assert_eq!(response.commands, vec!["cargo test", "cargo build"]);
    assert_eq!(response.most_likely_action, "cargo test");
}

#[test]
fn rejects_suggestion_that_does_not_extend_typed_prefix() {
    let raw = "{\"commands\": [\"git status\"], \"most_likely_action\": \"git status\"}";

    let error = parse_response(raw, Some("cargo "), &[], read_suggestions)
        .expect_err("prefix mismatch is unusable")
        .message();

    assert!(
        error.contains("no usable suggestion"),
        "unexpected error: {error}"
    );
}

#[test]
fn falls_back_to_first_command_when_most_likely_action_is_missing() {
    let raw = "{\"commands\": [\"cargo check\", \"cargo test\"]}";

    let response = parse_response(raw, None, &[], read_suggestions).expect("response parses");

    assert_eq!(response.most_likely_action, "cargo check");
}

#[test]
fn drops_rejected_and_duplicate_commands() {
    let raw = "{\"commands\": [\"git diff\", \"git status\", \"git status\"], \
\"most_likely_action\": \"git status\"}";
    let rejected = vec!["git diff".to_owned()];

    let response = parse_response(raw, None, &rejected, read_suggestions).expect("response parses");

    assert_eq!(response.commands, vec!["git status"]);
}

#[test]
fn reports_error_when_response_has_no_json_object() {
    let error = parse_response("I cannot help with that.", None, &[], read_suggestions)
        .expect_err("prose without JSON is unusable")
        .message();

    assert!(
        error.contains("no JSON object"),
        "unexpected error: {error}"
    );
}

#[test]
fn zero_state_prompt_asks_for_a_suggestion_without_a_prefix() {
    let prompt = user_prompt(&request_with_prefix(None));

    assert!(prompt.contains("has not typed anything yet"));
}

#[test]
fn prefix_prompt_repeats_the_typed_text() {
    let prompt = user_prompt(&request_with_prefix(Some("cargo te")));

    assert!(prompt.contains("cargo te"));
}

#[test]
fn request_timeout_maps_every_wait_preset() {
    assert_eq!(
        request_timeout(ByoAutofillWait::Off),
        None,
        "the off preset keeps the endpoint out of autofill"
    );
    assert_eq!(
        request_timeout(ByoAutofillWait::TenSeconds),
        Some(Duration::from_secs(10))
    );
    assert_eq!(
        request_timeout(ByoAutofillWait::TwentySeconds),
        Some(Duration::from_secs(20)),
        "the longest preset gives a slow endpoint more room than the default"
    );
}

#[test]
fn an_answer_of_another_shape_is_an_error() {
    let error = parse_response("{\"commands\": 1}", None, &[], read_suggestions)
        .expect_err("a number is no list");
    assert!(
        matches!(&error, SuggestionError::UnexpectedShape(cause) if cause == "commands is no list")
    );
    assert_eq!(
        error.message(),
        "custom endpoint response was not the expected shape"
    );
}

#[test]
fn every_error_has_its_message() {
    assert_eq!(
        SuggestionError::NoJsonObject.message(),
        "custom endpoint response contained no JSON object"
    );
    assert_eq!(
        SuggestionError::NoUsableSuggestion.message(),
        "custom endpoint returned no usable suggestion"
    );
}

#[test]
fn commands_are_trimmed_capped_and_distinct() {
    let given = answer(&[" ls ", "ls", "", "pwd", "cd", "df"], None);
    let response = suggestions_from(given, None, &[]).expect("usable");
    assert_eq!(response.commands, vec!["ls", "pwd", "cd"]);
    assert_eq!(response.most_likely_action, "ls");
    assert!(response.ai_queries.is_empty());
}

#[test]
fn a_best_command_outside_the_list_is_put_in_front() {
    let given = answer(&["ls", "pwd", "cd"], Some(" git push "));
    let response = suggestions_from(given, None, &[]).expect("usable");
    assert_eq!(response.commands, vec!["git push", "ls", "pwd", "cd"]);
    assert_eq!(response.most_likely_action, "git push");
}

#[test]
fn an_unusable_best_command_gives_way_to_the_first() {
    let given = answer(&["git pull"], Some("rm -rf x"));
    let response = suggestions_from(given, Some("git"), &[]).expect("usable");
    assert_eq!(response.most_likely_action, "git pull");
    assert_eq!(response.commands, vec!["git pull"]);
}

#[test]
fn a_best_command_alone_is_enough() {
    let response = suggestions_from(answer(&[], Some("make")), None, &[]).expect("usable");
    assert_eq!(response.commands, vec!["make"]);
}

#[test]
fn every_offer_meets_the_terms() {
    let rejected = owned(&["git pull"]);
    let given = answer(&["git pull", "svn up", "git fetch"], Some("git pull"));
    let response = suggestions_from(given, Some("git "), &rejected).expect("usable");
    assert_eq!(response.commands, vec!["git fetch"]);
    assert_eq!(response.most_likely_action, "git fetch");

    let none = suggestions_from(answer(&["git pull"], None), Some("git "), &rejected);
    assert!(matches!(none, Err(SuggestionError::NoUsableSuggestion)));
}

#[test]
fn prompts_hold_everything_that_is_known() {
    let request = GenerateAIInputSuggestionsRequest {
        context_messages: owned(&["dropped", " first ", "second\n"]),
        history_context: " git log \n".to_owned(),
        prefix: Some("gi".to_owned()),
        rejected_suggestions: owned(&["ls", "pwd"]),
        system_context: Some("linux".to_owned()),
        block_context: Some(BlockContext {
            pwd: Some("/home".to_owned()),
            shell: Some("zsh".to_owned()),
            git_branch: Some("main".to_owned()),
            command: " make ".to_owned(),
            exit_code: -2,
            output: "\nfailed\n".to_owned(),
        }),
    };
    assert_eq!(
        user_prompt(&request),
        "linux\nworking directory: /home\nshell: zsh\ngit branch: main\nlast command: make\n\
exit code: -2\nlast command output:\nfailed\ncommands run in similar past sessions:\ngit log\n\
recent terminal blocks:\nfirst\n---\nsecond\nalready rejected: ls, pwd\n\
\nthe user has typed: \"gi\"\nComplete that command. `most_likely_action` must start with the \
typed text."
    );
}

#[test]
fn what_is_unknown_is_left_out() {
    let request = GenerateAIInputSuggestionsRequest {
        context_messages: owned(&["kept?", " ", "\n"]),
        history_context: "  ".to_owned(),
        prefix: Some(String::new()),
        rejected_suggestions: Vec::new(),
        system_context: Some(" \n".to_owned()),
        block_context: Some(BlockContext {
            pwd: None,
            shell: None,
            git_branch: None,
            command: "ls".to_owned(),
            exit_code: i32::MIN,
            output: " ".to_owned(),
        }),
    };
    assert_eq!(
        user_prompt(&request),
        "last command: ls\nexit code: -2147483648\n\nthe user has not typed anything yet. \
Suggest the single most likely next command."
    );
}

#[test]
fn typed_text_is_escaped() {
    let prompt = user_prompt(&request_with_prefix(Some("echo \"a\\b\"\té")));
    assert_eq!(
        prompt,
        "\nthe user has typed: \"echo \\\"a\\\\b\\\"\\té\"\nComplete that command. \
`most_likely_action` must start with the typed text."
    );
}

#[test]
fn short_escapes_are_written_out() {
    let prompt = user_prompt(&request_with_prefix(Some("git commit -m 'it\"s\\'\n\r\t\0~")));
    assert!(
        prompt.starts_with(
            "\nthe user has typed: \"git commit -m 'it\\\"s\\\\'\\n\\r\\t\\0~\"\nComplete"
        ),
        "{prompt}"
    );
    let every_plain: String = (' '..='~').filter(|c| *c != '"' && *c != '\\').collect();
    let prompt = user_prompt(&request_with_prefix(Some(&every_plain)));
    assert!(prompt.contains(&format!("\"{every_plain}\"\n")));
}

#[test]
fn the_context_is_cut_and_the_instruction_is_not() {
    let mut request = request_with_prefix(None);
    request.system_context = Some("é".repeat(MAX_CONTEXT_CHARS + 100));
    let prompt = user_prompt(&request);
    let instruction =
        "\nthe user has not typed anything yet. Suggest the single most likely next command.";
    assert_eq!(prompt, format!("{}{instruction}", "é".repeat(MAX_CONTEXT_CHARS)));
}

#[test]
fn block_output_is_cut_to_size() {
    let mut request = request_with_prefix(None);
    request.block_context = Some(BlockContext {
        pwd: None,
        shell: None,
        git_branch: None,
        command: "cat".to_owned(),
        exit_code: 0,
        output: format!("  {}", "z".repeat(BLOCK_OUTPUT_CHARS + 1)),
    });
    let prompt = user_prompt(&request);
    assert_eq!(prompt.matches('z').count(), BLOCK_OUTPUT_CHARS);
    assert!(prompt.starts_with("last command: cat\nexit code: 0\nlast command output:\nz"));
}

#[test]
fn ranking_never_waits_less_than_autofill() {
    for mode in [ByoRankingMode::Balanced, ByoRankingMode::Patient] {
        for wait in [ByoAutofillWait::TenSeconds, ByoAutofillWait::TwentySeconds] {
            let ranking = RankingPolicy::for_mode(mode).timeout;
            let autofill = request_timeout(wait).expect("the preset waits");
            assert!(ranking >= autofill, "{mode:?} against {wait:?}");
        }
    }
}
