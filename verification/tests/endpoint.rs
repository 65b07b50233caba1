use byo_inference::endpoint::{
    is_usable, resolve, resolve_for_team_uid, selectable_models, ByoAutofillChoice, ByoSettings,
    CustomEndpoint, CustomEndpointModel, CustomEndpointSchema, TeamScope,
};

fn model(name: &str, config_key: &str) -> CustomEndpointModel {
    CustomEndpointModel {
        name: name.to_owned(),
        config_key: config_key.to_owned(),
        display_label: name.to_owned(),
    }
}

fn endpoint(name: &str, key: &str, models: &[(&str, &str)]) -> CustomEndpoint {
    CustomEndpoint {
        name: name.to_owned(),
        url: "https://example.com/v1".to_owned(),
        url_is_valid: true,
        api_key: key.to_owned(),
        models: models.iter().map(|(name, key)| model(name, key)).collect(),
        schema: CustomEndpointSchema::OpenaiChatCompletions,
    }
}

fn settings(endpoints: Vec<CustomEndpoint>, configured_model: Option<&str>) -> ByoSettings {
    ByoSettings {
        feature_enabled: true,
        byo_endpoint_enabled: true,
        endpoints,
        configured_model: configured_model.map(str::to_owned),
    }
}

const SINGLE_MODEL: &[(&str, &str)] = &[("test-model", "test-model-key")];

#[test]
fn resolve_picks_configured_endpoint_for_teamless_scope() {
    let settings = settings(vec![endpoint("Test", "secret", SINGLE_MODEL)], None);

    let resolved = resolve(&settings, true).expect("configured endpoint resolves");
    assert_eq!(resolved.model(), "test-model");
    assert_eq!(resolved.endpoint_name(), "Test");
}

#[test]
fn resolve_skips_endpoint_without_a_key() {
    let settings = settings(vec![endpoint("Test", "", SINGLE_MODEL)], None);

    assert!(
        resolve(&settings, true).is_none(),
        "keyless endpoints cannot serve requests"
    );
}

#[test]
fn resolve_returns_none_when_feature_is_disabled() {
    let mut settings = settings(vec![endpoint("Test", "secret", SINGLE_MODEL)], None);
    settings.feature_enabled = false;

    assert!(resolve(&settings, true).is_none(), "the flag is the kill switch");
}

#[test]
fn resolve_uses_the_model_configured_for_autofill() {
    let models = &[("slow-model", "slow-key"), ("fast-model", "fast-key")];
    let settings = settings(vec![endpoint("Test", "secret", models)], Some("fast-key"));

    let resolved = resolve(&settings, true).expect("endpoint resolves");
    assert_eq!(resolved.model(), "fast-model");
}

#[test]
fn resolve_falls_back_to_first_model_when_configured_model_is_gone() {
    let models = &[("first-model", "first-key"), ("second-model", "second-key")];
    let settings = settings(vec![endpoint("Test", "secret", models)], Some("removed-key"));

    let resolved = resolve(&settings, true).expect("endpoint resolves");
    assert_eq!(resolved.model(), "first-model");
}

#[test]
fn selectable_models_lists_every_named_model() {
    let models = &[("slow-model", "slow-key"), ("fast-model", "fast-key")];
    let settings = settings(vec![endpoint("Test", "secret", models)], None);

    let choices = selectable_models(&settings, true);
    let labels: Vec<(&str, &str)> = choices
        .iter()
        .map(|choice| (choice.endpoint_name.as_str(), choice.model_label.as_str()))
        .collect();
    assert_eq!(labels, vec![("Test", "slow-model"), ("Test", "fast-model")]);
}

#[test]
fn resolve_for_team_uid_uses_the_personal_scope_when_no_team_is_selected() {
    let settings = settings(vec![endpoint("Test", "secret", SINGLE_MODEL)], None);

    let resolved =
        resolve_for_team_uid(&settings, None, |scope: &TeamScope| *scope == TeamScope::Personal)
            .expect("personal scope resolves the configured endpoint");
    assert_eq!(resolved.model(), "test-model");
}

#[test]
fn resolve_for_team_uid_returns_none_when_feature_is_disabled() {
    let mut settings = settings(vec![endpoint("Test", "secret", SINGLE_MODEL)], None);
    settings.feature_enabled = false;

    assert!(resolve_for_team_uid(&settings, None, |_: &TeamScope| true).is_none());
}

#[test]
fn resolve_for_team_uid_asks_for_the_policy_of_the_team() {
    let settings = settings(vec![endpoint("Test", "secret", SINGLE_MODEL)], None);
    let only_ours = |scope: &TeamScope| *scope == TeamScope::Team("ours".to_owned());

    assert!(resolve_for_team_uid(&settings, Some("ours".to_owned()), only_ours).is_some());
    assert!(resolve_for_team_uid(&settings, Some("theirs".to_owned()), only_ours).is_none());
    assert!(resolve_for_team_uid(&settings, None, only_ours).is_none());
}

#[test]
fn every_switch_keeps_endpoints_out() {
    let on = settings(vec![endpoint("Test", "secret", SINGLE_MODEL)], None);
    assert!(resolve(&on, true).is_some());
    assert!(resolve(&on, false).is_none());

    let mut unavailable = settings(vec![endpoint("Test", "secret", SINGLE_MODEL)], None);
    unavailable.byo_endpoint_enabled = false;
    assert!(resolve(&unavailable, true).is_none());
}

#[test]
fn without_endpoints_nothing_resolves() {
    assert!(resolve(&settings(vec![], Some("key")), true).is_none());
}

#[test]
fn unusable_endpoints_are_passed_over() {
    let mut badly_addressed = endpoint("Bad", "secret", SINGLE_MODEL);
    badly_addressed.url_is_valid = false;
    let nameless = endpoint("Nameless", "secret", &[("  ", "nameless-key")]);
    let keyless = endpoint("Keyless", " \t ", SINGLE_MODEL);
    assert!(!is_usable(&badly_addressed));
    assert!(!is_usable(&nameless));
    assert!(!is_usable(&keyless));

    let good = endpoint("Good", "secret", &[(" ", "blank"), (" padded ", "padded")]);
    assert!(is_usable(&good));

    let settings = settings(vec![badly_addressed, nameless, keyless, good], None);
    let resolved = resolve(&settings, true).expect("the usable endpoint resolves");
    assert_eq!(resolved.endpoint_name(), "Good");
    assert_eq!(resolved.model(), "padded", "the first named model, trimmed");
}

#[test]
fn the_configured_model_wins_in_a_later_endpoint() {
    let settings = settings(
        vec![
            endpoint("First", "secret", &[("one", "one-key")]),
            endpoint("Second", "secret", &[("two", "two-key"), ("three", "three-key")]),
        ],
        Some("three-key"),
    );

    let resolved = resolve(&settings, true).expect("endpoint resolves");
    assert_eq!(resolved.endpoint_name(), "Second");
    assert_eq!(resolved.model(), "three");
}

#[test]
fn a_configured_model_without_a_name_leaves_its_endpoint_to_the_first_named_one() {
    let settings = settings(
        vec![
            endpoint("First", "secret", &[("one", "one-key")]),
            endpoint("Second", "secret", &[("", "picked"), ("two", "two-key")]),
        ],
        Some("picked"),
    );

    let resolved = resolve(&settings, true).expect("endpoint resolves");
    assert_eq!(resolved.endpoint_name(), "Second");
    assert_eq!(resolved.model(), "two");
}

#[test]
fn choices_follow_endpoint_order_and_skip_what_cannot_be_used() {
    let mut labelled = endpoint("Labelled", "secret", &[("raw-name", "raw-key")]);
    labelled.models[0].display_label = "Shown".to_owned();
    let mut settings = settings(
        vec![
            endpoint("Keyless", "", SINGLE_MODEL),
            labelled,
            endpoint("Mixed", "secret", &[(" ", "blank"), ("named", "named-key")]),
        ],
        None,
    );

    let expected = vec![
        ByoAutofillChoice {
            config_key: "raw-key".to_owned(),
            endpoint_name: "Labelled".to_owned(),
            model_label: "Shown".to_owned(),
        },
        ByoAutofillChoice {
            config_key: "named-key".to_owned(),
            endpoint_name: "Mixed".to_owned(),
            model_label: "named".to_owned(),
        },
    ];
    assert_eq!(selectable_models(&settings, true), expected);
    assert_eq!(selectable_models(&settings, false), vec![]);

    settings.feature_enabled = false;
    settings.byo_endpoint_enabled = false;
    assert_eq!(
        selectable_models(&settings, true),
        expected,
        "the list is offered whether or not the feature is on"
    );
}

#[test]
fn resolved_endpoints_carry_everything_that_was_configured() {
    let mut configured = endpoint("Test", " secret ", SINGLE_MODEL);
    configured.schema = CustomEndpointSchema::AnthropicMessages;
    let settings = settings(vec![configured], None);

    let resolved = resolve(&settings, true).expect("endpoint resolves");
    assert_eq!(resolved.endpoint.url, "https://example.com/v1");
    assert_eq!(resolved.endpoint.api_key, " secret ");
    assert_eq!(resolved.endpoint.schema, CustomEndpointSchema::AnthropicMessages);
    assert_eq!(resolved.endpoint.models.len(), 1);
    assert_eq!(resolved.endpoint.models[0].config_key, "test-model-key");
}

#[test]
fn every_offered_model_can_be_picked() {
    let endpoints = || {
        vec![
            endpoint("First", "secret", &[("one", "one-key"), ("two", "two-key")]),
            endpoint("Second", "secret", &[("three", "three-key")]),
        ]
    };
    let offered = selectable_models(&settings(endpoints(), None), true);
    assert_eq!(offered.len(), 3);
    for choice in offered {
        let settings = settings(endpoints(), Some(&choice.config_key));
        let resolved = resolve(&settings, true).expect("the choice resolves");
        assert_eq!(resolved.endpoint_name(), choice.endpoint_name);
        assert_eq!(resolved.model(), choice.clone().model_label);
    }
}
