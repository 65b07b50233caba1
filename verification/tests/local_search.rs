use byo_inference::circuit::{ByoRankingMode, RankingCircuit, RankingPolicy};
use byo_inference::local_search::{
    parse_ranking, plan_ranking, rank_candidates, ranking_from, ranking_prompt, score_file,
    settle_ranking, FileSymbols, RankingStep, RawRanking, MAX_CANDIDATES, MAX_RESULTS,
    MAX_SYMBOLS_CHARS,
};
use byo_inference::words::{query_tokens, split_identifiers};
use std::time::Duration;

fn file(path: &str, symbols: &str) -> FileSymbols {
    FileSymbols {
        path: path.to_owned(),
        symbols: symbols.to_owned(),
    }
}

fn owned(items: &[&str]) -> Vec<String> {
    items.iter().map(|item| (*item).to_owned()).collect()
}

fn read_ranking(object: &str) -> Option<RawRanking> {
    let value: serde_json::Value = serde_json::from_str(object).ok()?;
    let files = match value.get("files") {
        Some(files) => files
            .as_array()?
            .iter()
            .map(|file| file.as_str().map(str::to_owned))
            .collect::<Option<Vec<String>>>()?,
        None => Vec::new(),
    };
    Some(RawRanking { files })
}

#[test]
fn splits_camel_case_and_snake_case_into_tokens() {
    assert_eq!(
        split_identifiers("getUserToken refresh_auth_token"),
        vec!["get", "user", "token", "refresh", "auth", "token"]
    );
}

#[test]
fn query_tokens_drop_stopwords_and_duplicates() {
    let tokens = query_tokens("Where is the auth token handled in the auth code?");

    assert_eq!(tokens, vec!["auth", "token"]);
}

#[test]
fn prefilter_ranks_path_and_symbol_matches_above_unrelated_files() {
    let files = vec![
        file("src/ui/button.rs", "struct Button"),
        file("src/auth/token.rs", "fn refresh_token"),
        file("docs/readme.md", "intro"),
    ];

    let ranked = rank_candidates("how does refresh_token work", None, &files);

    assert_eq!(
        ranked.first().map(String::as_str),
        Some("src/auth/token.rs")
    );
    assert!(
        !ranked.contains(&"docs/readme.md".to_owned()),
        "unmatched files are dropped: {ranked:?}"
    );
}

#[test]
fn prefilter_boosts_files_matching_partial_path_segments() {
    let files = vec![
        file("src/other/thing.rs", "fn thing"),
        file("src/auth/thing.rs", "fn thing"),
    ];
    let segments = vec!["auth".to_owned()];

    let ranked = rank_candidates("thing", Some(&segments), &files);

    assert_eq!(
        ranked.first().map(String::as_str),
        Some("src/auth/thing.rs")
    );
}

#[test]
fn prefilter_falls_back_to_symbol_richest_files_when_nothing_matches() {
    let files = vec![
        file("a.rs", ""),
        file("b.rs", "fn one\nfn two\nfn three"),
        file("c.rs", "fn only"),
    ];

    let ranked = rank_candidates("zzz", None, &files);

    assert_eq!(ranked.first().map(String::as_str), Some("b.rs"));
    assert_eq!(ranked.len(), 3, "the model still gets candidates");
}

#[test]
fn parse_ranking_keeps_only_candidate_paths_in_order() {
    let candidates = vec!["src/a.rs".to_owned(), "src/b.rs".to_owned()];
    let raw =
        "```json\n{\"files\": [\"src/b.rs\", \"src/evil.rs\", \"src/a.rs\", \"src/b.rs\"]}\n```";

    let ranked = parse_ranking(raw, &candidates, read_ranking).expect("ranking parses");

    assert_eq!(ranked, vec!["src/b.rs", "src/a.rs"]);
}

#[test]
fn parse_ranking_rejects_responses_without_usable_paths() {
    let candidates = vec!["src/a.rs".to_owned()];

    assert!(parse_ranking("I cannot help with that", &candidates, read_ranking).is_none());
    assert!(
        parse_ranking("{\"files\": [\"src/other.rs\"]}", &candidates, read_ranking).is_none()
    );
}

#[test]
fn ranking_prompt_lists_candidates_with_truncated_symbols() {
    let files = vec![
        file("src/a.rs", "fn a"),
        file("src/b.rs", &"x".repeat(MAX_SYMBOLS_CHARS + 50)),
    ];
    let candidates = vec!["src/a.rs".to_owned(), "src/b.rs".to_owned()];

    let prompt = ranking_prompt("where is a", &candidates, &files);

    assert!(prompt.contains("where is a"));
    assert!(prompt.contains("src/a.rs\n  fn a"));
    assert!(
        prompt.len() < MAX_SYMBOLS_CHARS * 2,
        "symbols are truncated per candidate: {} chars",
        prompt.len()
    );
}

fn balanced_policy() -> RankingPolicy {
    RankingPolicy::for_mode(ByoRankingMode::Balanced)
}

#[test]
fn ranking_policy_presets_trade_latency_for_endpoint_use() {
    let lexical = RankingPolicy::for_mode(ByoRankingMode::LexicalOnly);
    assert!(!lexical.remote, "the local preset never calls the endpoint");

    let balanced = balanced_policy();
    let patient = RankingPolicy::for_mode(ByoRankingMode::Patient);
    assert!(
        balanced.remote && patient.remote,
        "both remote presets ask the endpoint"
    );
    assert!(
        patient.timeout > balanced.timeout,
        "the patient preset waits longer per call: {:?} vs {:?}",
        patient.timeout,
        balanced.timeout
    );
}

#[test]
fn ranking_circuit_suspends_only_after_consecutive_failures() {
    let policy = balanced_policy();
    let mut circuit = RankingCircuit::new();
    let now = 1_000;

    circuit.note_failure(&policy, now);
    assert!(
        !circuit.is_suspended(now),
        "a single failure keeps the endpoint in use"
    );

    circuit.note_failure(&policy, now);
    assert!(
        circuit.is_suspended(now),
        "consecutive failures suspend remote ranking"
    );
}

#[test]
fn ranking_circuit_resumes_after_the_cooldown() {
    let policy = balanced_policy();
    let mut circuit = RankingCircuit::new();
    circuit.note_failure(&policy, 0);
    circuit.note_failure(&policy, 0);
    let cooldown_ms = policy.cooldown.as_millis() as u64;

    assert!(circuit.is_suspended(cooldown_ms - 1));
    assert!(!circuit.is_suspended(cooldown_ms));
}

#[test]
fn ranking_circuit_success_clears_failures_and_suspension() {
    let policy = balanced_policy();
    let mut circuit = RankingCircuit::new();
    circuit.note_failure(&policy, 0);
    circuit.note_success();
    circuit.note_failure(&policy, 0);
    assert!(
        !circuit.is_suspended(0),
        "a success between failures resets the count"
    );

    circuit.note_failure(&policy, 0);
    assert!(circuit.is_suspended(0));
    circuit.note_success();
    assert!(!circuit.is_suspended(0));
}

#[test]
fn presets_have_their_exact_values() {
    let lexical = RankingPolicy::for_mode(ByoRankingMode::LexicalOnly);
    assert_eq!(lexical.timeout, Duration::ZERO);
    assert_eq!(lexical.failure_limit, u32::MAX);
    assert_eq!(lexical.cooldown, Duration::ZERO);

    let balanced = balanced_policy();
    assert_eq!(balanced.timeout, Duration::from_secs(20));
    assert_eq!(balanced.failure_limit, 2);
    assert_eq!(balanced.cooldown, Duration::from_secs(600));

    let patient = RankingPolicy::for_mode(ByoRankingMode::Patient);
    assert_eq!(patient.timeout, Duration::from_secs(60));
    assert_eq!(patient.failure_limit, 2);
    assert_eq!(patient.cooldown, Duration::from_secs(600));
}

#[test]
fn a_fresh_circuit_is_not_suspended_and_counts_anew_after_a_suspension() {
    let policy = balanced_policy();
    let mut circuit = RankingCircuit::new();
    assert!(!circuit.is_suspended(0));

    circuit.note_failure(&policy, 5);
    circuit.note_failure(&policy, 5);
    assert!(circuit.is_suspended(600_004));
    assert!(!circuit.is_suspended(600_005));

    circuit.note_failure(&policy, 700_000);
    assert!(!circuit.is_suspended(700_000));
    circuit.note_failure(&policy, 700_000);
    assert!(circuit.is_suspended(700_000));
}

#[test]
fn the_limit_is_one_failure_away() {
    let policy = balanced_policy();
    let mut circuit = RankingCircuit::new();
    assert!(!circuit.is_at_limit(&policy));
    circuit.note_failure(&policy, 0);
    assert!(circuit.is_at_limit(&policy));
    circuit.note_failure(&policy, 0);
    assert!(!circuit.is_at_limit(&policy), "the count starts over");
}

#[test]
fn a_copied_circuit_remembers_the_same() {
    let policy = balanced_policy();
    let mut circuit = RankingCircuit::new();
    circuit.note_failure(&policy, 0);
    let mut copy = circuit.clone();
    copy.note_failure(&policy, 0);
    assert!(copy.is_suspended(0) && !circuit.is_suspended(0));
}

#[test]
fn a_limit_of_one_suspends_at_once() {
    let policy = RankingPolicy {
        remote: true,
        timeout: Duration::from_secs(1),
        failure_limit: 1,
        cooldown: Duration::from_millis(1_500),
    };
    let mut circuit = RankingCircuit::new();
    circuit.note_failure(&policy, 10);
    assert!(circuit.is_suspended(1_509));
    assert!(!circuit.is_suspended(1_510));
}

#[test]
fn words_break_where_lower_case_meets_upper_case() {
    assert_eq!(split_identifiers("HTTPServer2Go"), vec!["httpserver2go"]);
    assert_eq!(split_identifiers("aBC dE"), vec!["a", "bc", "d", "e"]);
    assert_eq!(split_identifiers("a1B"), vec!["a1b"]);
    assert_eq!(split_identifiers("--__--"), Vec::<String>::new());
    assert_eq!(split_identifiers("größeÄnderung"), vec!["größe", "änderung"]);
    assert_eq!(split_identifiers("École"), vec!["école"]);
}

#[test]
fn single_characters_are_no_tokens() {
    assert_eq!(query_tokens("x yy é Z"), vec!["yy"]);
    assert_eq!(query_tokens("é b"), Vec::<String>::new());
    assert_eq!(query_tokens("Où École"), vec!["où", "école"]);
    assert_eq!(query_tokens("the THE The"), Vec::<String>::new());
    assert_eq!(query_tokens("parseArgs parse_args"), vec!["parse", "args"]);
}

#[test]
fn splitting_and_tokenizing_again_change_nothing() {
    let text = "parseHTTPResponse2 snake_case, the XMLHttpRequest x9Y parse";
    let words = split_identifiers(text);
    assert_eq!(
        words,
        vec!["parse", "httpresponse2", "snake", "case", "the", "xmlhttp", "request", "x9y", "parse"]
    );
    assert_eq!(split_identifiers(&words.join(" ")), words);

    let tokens = query_tokens(text);
    assert_eq!(
        tokens,
        vec!["parse", "httpresponse2", "snake", "case", "xmlhttp", "request", "x9y"]
    );
    assert_eq!(query_tokens(&tokens.join(" ")), tokens);
}

#[test]
fn tokens_stand_in_order_of_first_occurrence() {
    assert_eq!(
        query_tokens("zeta alpha the zeta beta alpha"),
        vec!["zeta", "alpha", "beta"]
    );
}

#[test]
fn capitals_outside_ascii_match() {
    let files = vec![file("docs/other.md", "notes"), file("docs/ÉCOLE.md", "")];
    assert_eq!(rank_candidates("École", None, &files), vec!["docs/ÉCOLE.md"]);
}

#[test]
fn scores_weigh_path_symbols_and_segments() {
    let tokens = owned(&["auth", "token"]);
    let both = file("src/Auth/token.rs", "fn TOKEN()");
    assert_eq!(score_file(&tokens, None, &both), 3 + 3 + 2);

    let segments = owned(&["src/", "Auth", "auth"]);
    assert_eq!(
        score_file(&tokens, Some(&segments), &both),
        8 + 10,
        "segments match the path as it is written"
    );
    assert_eq!(score_file(&tokens, None, &file("readme", "")), 0);
    assert_eq!(score_file(&owned(&["straße"]), None, &file("STRAßE", "")), 3);
}

#[test]
fn ties_go_to_richer_symbols_and_then_to_the_path() {
    let files = vec![
        file("c/match.rs", "fn a"),
        file("a/match.rs", "fn a"),
        file("b/match.rs", "fn ab"),
        file("other.rs", "struct Match; struct Other;"),
    ];
    assert_eq!(
        rank_candidates("match", None, &files),
        vec!["b/match.rs", "a/match.rs", "c/match.rs", "other.rs"]
    );
}

fn many_files(count: usize) -> Vec<FileSymbols> {
    (0..count).map(|i| file(&format!("src/{i:03}.rs"), "fn go")).collect()
}

#[test]
fn candidates_are_capped_and_keep_repeated_paths() {
    let ranked = rank_candidates("go", None, &many_files(50));
    assert_eq!(ranked.len(), MAX_CANDIDATES);
    assert_eq!(ranked[0], "src/000.rs");
    assert_eq!(ranked[29], "src/029.rs");

    let repeated = vec![file("a.rs", "go"), file("a.rs", "go")];
    assert_eq!(rank_candidates("go", None, &repeated), vec!["a.rs", "a.rs"]);
    assert_eq!(rank_candidates("go", None, &[]), Vec::<String>::new());
}

#[test]
fn the_order_of_the_files_makes_no_difference() {
    let forward = vec![file("a.rs", "go"), file("b/go.rs", "x"), file("c.rs", "fn go()")];
    let backward = vec![file("c.rs", "fn go()"), file("b/go.rs", "x"), file("a.rs", "go")];
    let ranked = rank_candidates("go", None, &forward);
    assert_eq!(ranked, vec!["b/go.rs", "c.rs", "a.rs"]);
    assert_eq!(rank_candidates("go", None, &backward), ranked);
}

#[test]
fn answers_are_full_and_hold_no_path_twice() {
    let policy = balanced_policy();
    let candidates = owned(&["a", "b", "c", "d", "e", "f", "g", "h", "i"]);
    for ranking in [None, Some(owned(&["i", "b"])), Some(owned(&["a", "a"]))] {
        let mut circuit = RankingCircuit::new();
        let mut answer = settle_ranking(&mut circuit, &policy, 0, &candidates, ranking);
        assert_eq!(answer.len(), MAX_RESULTS);
        answer.sort();
        answer.dedup();
        assert_eq!(answer.len(), MAX_RESULTS);
    }
    let mut circuit = RankingCircuit::new();
    let few = owned(&["a", "b"]);
    let answer = settle_ranking(&mut circuit, &policy, 0, &few, Some(owned(&["b"])));
    assert_eq!(answer, vec!["b", "a"]);
}

#[test]
fn prompts_are_written_out_exactly() {
    let files = vec![
        file("a.rs", "old"),
        file("a.rs", "  fn a\nfn b  "),
        file("blank.rs", " \n "),
    ];
    let candidates = owned(&["a.rs", "blank.rs", "unknown.rs"]);
    assert_eq!(
        ranking_prompt("  why? ", &candidates, &files),
        "Question about this repository:\nwhy?\n\nCandidate files:\n\
a.rs\n  fn a\nfn b\nblank.rs\nunknown.rs\n"
    );
}

#[test]
fn rankings_are_trimmed_and_distinct() {
    let candidates = owned(&["a", "b"]);
    let answer = RawRanking { files: owned(&[" b ", "b", "c", "a\n"]) };
    assert_eq!(ranking_from(answer, &candidates), Some(owned(&["b", "a"])));
    assert_eq!(ranking_from(RawRanking { files: vec![] }, &candidates), None);
}

#[test]
fn parse_ranking_rejects_an_answer_of_another_shape() {
    let candidates = owned(&["a"]);
    assert!(parse_ranking("{\"files\": \"a\"}", &candidates, read_ranking).is_none());
    assert!(parse_ranking("{}", &candidates, read_ranking).is_none());
    assert!(parse_ranking("{broken}", &candidates, read_ranking).is_none());
}

#[test]
fn few_candidates_are_the_answer() {
    let files = many_files(MAX_RESULTS);
    let step = plan_ranking(&balanced_policy(), &RankingCircuit::new(), 0, "go", None, &files);
    match step {
        RankingStep::Answer { paths, candidate_count } => {
            assert_eq!(paths, rank_candidates("go", None, &files));
            assert_eq!(candidate_count, MAX_RESULTS);
        }
        other => panic!("unexpected step: {other:?}"),
    }
}

#[test]
fn the_local_preset_answers_with_the_lexical_order() {
    let files = many_files(12);
    let lexical = RankingPolicy::for_mode(ByoRankingMode::LexicalOnly);
    match plan_ranking(&lexical, &RankingCircuit::new(), 0, "go", None, &files) {
        RankingStep::Answer { paths, candidate_count } => {
            assert_eq!(candidate_count, 12);
            assert_eq!(paths[..], rank_candidates("go", None, &files)[..MAX_RESULTS]);
        }
        other => panic!("unexpected step: {other:?}"),
    }
}

#[test]
fn a_suspended_endpoint_is_not_asked() {
    let files = many_files(12);
    let policy = balanced_policy();
    let mut circuit = RankingCircuit::new();
    circuit.note_failure(&policy, 0);
    circuit.note_failure(&policy, 0);
    match plan_ranking(&policy, &circuit, 599_999, "go", None, &files) {
        RankingStep::Answer { paths, candidate_count } => {
            assert_eq!(candidate_count, 12);
            assert_eq!(paths[..], rank_candidates("go", None, &files)[..MAX_RESULTS]);
        }
        other => panic!("unexpected step: {other:?}"),
    }
    assert!(matches!(
        plan_ranking(&policy, &circuit, 600_000, "go", None, &files),
        RankingStep::Ask { .. }
    ));
}

#[test]
fn the_endpoint_is_asked_about_the_candidates() {
    let files = many_files(12);
    match plan_ranking(&balanced_policy(), &RankingCircuit::new(), 0, "go", None, &files) {
        RankingStep::Ask { prompt, candidates } => {
            assert_eq!(candidates, rank_candidates("go", None, &files));
            assert_eq!(prompt, ranking_prompt("go", &candidates, &files));
        }
        other => panic!("unexpected step: {other:?}"),
    }
}

#[test]
fn a_terse_ranking_leads_and_is_filled_up() {
    let candidates = owned(&["a", "b", "c", "d", "e", "f", "g", "h", "i", "j"]);
    let policy = balanced_policy();
    let mut circuit = RankingCircuit::new();
    circuit.note_failure(&policy, 0);

    let answer = settle_ranking(&mut circuit, &policy, 0, &candidates, Some(owned(&["j", "c"])));
    assert_eq!(answer, vec!["j", "c", "a", "b", "d", "e", "f", "g"]);

    circuit.note_failure(&policy, 0);
    assert!(!circuit.is_suspended(0), "the success cleared the earlier failure");
}

#[test]
fn without_a_ranking_the_lexical_order_answers_and_the_failure_counts() {
    let candidates = owned(&["a", "b", "c", "d", "e", "f", "g", "h", "i"]);
    let policy = balanced_policy();
    let mut circuit = RankingCircuit::new();

    let answer = settle_ranking(&mut circuit, &policy, 10, &candidates, None);
    assert_eq!(answer, vec!["a", "b", "c", "d", "e", "f", "g", "h"]);
    assert!(!circuit.is_suspended(10));

    settle_ranking(&mut circuit, &policy, 10, &candidates, None);
    assert!(circuit.is_suspended(600_009));
    assert!(!circuit.is_suspended(600_010));
}
