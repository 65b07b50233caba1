//! Client-side inference against a custom endpoint that the user configured: which endpoint and
//! model answer, what is sent to them, and what their reply says.

use crate::lists;
use crate::text;
use vstd::prelude::*;

verus! {

/// The request format an endpoint speaks.
#[derive(Clone, Copy, Debug, PartialEq, Eq, Structural)]
pub enum CustomEndpointSchema {
    OpenaiChatCompletions,
    OpenaiResponses,
    AnthropicMessages,
}

/// A model that an endpoint offers.
#[derive(Debug)]
pub struct CustomEndpointModel {
    pub name: String,
    pub config_key: String,
    /// The label the model is shown under.
    pub display_label: String,
}

/// An endpoint as the user configured it.
#[derive(Debug)]
pub struct CustomEndpoint {
    pub name: String,
    pub url: String,
    /// Whether `url` passes the host's check of endpoint URLs.
    pub url_is_valid: bool,
    pub api_key: String,
    pub models: Vec<CustomEndpointModel>,
    pub schema: CustomEndpointSchema,
}

/// What the choice of an endpoint depends on, apart from the team's policy.
#[derive(Debug)]
pub struct ByoSettings {
    /// Whether client-side inference is switched on at all.
    pub feature_enabled: bool,
    /// Whether custom endpoints are available to the user.
    pub byo_endpoint_enabled: bool,
    pub endpoints: Vec<CustomEndpoint>,
    /// The configuration key of the model picked for autofill.
    pub configured_model: Option<String>,
}

/// A custom endpoint together with the model requests against it are addressed to.
#[derive(Debug)]
pub struct ByoEndpoint {
    pub endpoint: CustomEndpoint,
    pub model: String,
}

/// A model autofill can be pointed at, as offered by [`selectable_models`].
#[derive(Debug, PartialEq, Eq)]
pub struct ByoAutofillChoice {
    pub config_key: String,
    pub endpoint_name: String,
    pub model_label: String,
}

/// Whose policy applies to a request.
#[derive(Debug, PartialEq, Eq)]
pub enum TeamScope {
    Team(String),
    Personal,
}

/// What a [`CustomEndpointModel`] says.
pub struct ModelView {
    pub name: Seq<char>,
    pub config_key: Seq<char>,
    pub display_label: Seq<char>,
}

/// What a [`CustomEndpoint`] says.
pub struct EndpointView {
    pub name: Seq<char>,
    pub url: Seq<char>,
    pub url_is_valid: bool,
    pub api_key: Seq<char>,
    pub models: Seq<ModelView>,
    pub schema: CustomEndpointSchema,
}

/// What a [`ByoAutofillChoice`] says.
pub struct ChoiceView {
    pub config_key: Seq<char>,
    pub endpoint_name: Seq<char>,
    pub model_label: Seq<char>,
}

impl CustomEndpointModel {
    pub open spec fn view(&self) -> ModelView {
        ModelView {
            name: self.name@,
            config_key: self.config_key@,
            display_label: self.display_label@,
        }
    }
}

impl CustomEndpoint {
    pub open spec fn view(&self) -> EndpointView {
        EndpointView {
            name: self.name@,
            url: self.url@,
            url_is_valid: self.url_is_valid,
            api_key: self.api_key@,
            models: self.models@.map_values(|model: CustomEndpointModel| model@),
            schema: self.schema,
        }
    }
}

impl ByoAutofillChoice {
    pub open spec fn view(&self) -> ChoiceView {
        ChoiceView {
            config_key: self.config_key@,
            endpoint_name: self.endpoint_name@,
            model_label: self.model_label@,
        }
    }
}

impl ModelView {
    /// Whether the model has a name to address requests to.
    pub open spec fn is_named(self) -> bool {
        text::trimmed(self.name).len() > 0
    }

    /// Whether the model is named and has the given configuration key.
    pub open spec fn is_named_with_key(self, key: Seq<char>) -> bool {
        self.is_named() && self.config_key == key
    }
}

impl EndpointView {
    /// Whether the endpoint can serve requests: it has a key, a valid URL and a named model.
    pub open spec fn is_usable(self) -> bool {
        &&& text::trimmed(self.api_key).len() > 0
        &&& self.url_is_valid
        &&& exists|i: int| 0 <= i < self.models.len() && (#[trigger] self.models[i]).is_named()
    }

    /// Whether one of the endpoint's models has the given configuration key.
    pub open spec fn lists_key(self, key: Seq<char>) -> bool {
        exists|i: int| 0 <= i < self.models.len() && (#[trigger] self.models[i]).config_key == key
    }

    /// Whether one of the endpoint's named models has the given configuration key.
    pub open spec fn names_key(self, key: Seq<char>) -> bool {
        exists|i: int|
            0 <= i < self.models.len() && (#[trigger] self.models[i]).is_named_with_key(key)
    }

    /// Whether the endpoint is usable and lists the given configuration key.
    pub open spec fn serves_key(self, key: Seq<char>) -> bool {
        self.is_usable() && self.lists_key(key)
    }

    /// The model that answers: the named one with the configured key, else the first named one.
    pub open spec fn answering_model(self, configured: Option<Seq<char>>) -> Option<ModelView> {
        let with_key = match configured {
            Some(key) => lists::first_where(
                self.models,
                |model: ModelView| model.is_named_with_key(key),
            ),
            None => None,
        };
        match with_key {
            Some(model) => Some(model),
            None => lists::first_where(self.models, |model: ModelView| model.is_named()),
        }
    }
}

/// The endpoint that answers: the first usable one that lists the configured key, else the first
/// usable one.
pub open spec fn answering_endpoint(
    endpoints: Seq<EndpointView>,
    configured: Option<Seq<char>>,
) -> Option<EndpointView> {
    let with_key = match configured {
        Some(key) => lists::first_where(
            endpoints,
            |endpoint: EndpointView| endpoint.serves_key(key),
        ),
        None => None,
    };
    match with_key {
        Some(endpoint) => Some(endpoint),
        None => lists::first_where(endpoints, |endpoint: EndpointView| endpoint.is_usable()),
    }
}

impl ByoSettings {
    /// What the configured endpoints say.
    pub open spec fn endpoint_views(&self) -> Seq<EndpointView> {
        self.endpoints@.map_values(|endpoint: CustomEndpoint| endpoint@)
    }

    /// The configured key, as text.
    pub open spec fn configured_key(&self) -> Option<Seq<char>> {
        match self.configured_model {
            Some(key) => Some(key@),
            None => None,
        }
    }

    /// The endpoint and the trimmed model name that answer, when the switches and the policy
    /// allow one.
    pub open spec fn resolution(&self, member_endpoints_allowed: bool) -> Option<
        (EndpointView, Seq<char>),
    > {
        if !self.feature_enabled || !self.byo_endpoint_enabled || !member_endpoints_allowed {
            None
        } else {
            match answering_endpoint(self.endpoint_views(), self.configured_key()) {
                Some(endpoint) => match endpoint.answering_model(self.configured_key()) {
                    Some(model) => Some((endpoint, text::trimmed(model.name))),
                    None => None,
                },
                None => None,
            }
        }
    }
}

impl ByoEndpoint {
    /// What the pair says.
    pub open spec fn view(&self) -> (EndpointView, Seq<char>) {
        (self.endpoint@, self.model@)
    }

    /// The endpoint's name.
    pub fn endpoint_name(&self) -> (name: &str)
        ensures
            name@ == self@.0.name,
    {
        self.endpoint.name.as_str()
    }

    /// The model that requests are addressed to.
    pub fn model(&self) -> (model: &str)
        ensures
            model@ == self@.1,
    {
        self.model.as_str()
    }
}

impl Clone for ByoAutofillChoice {
    fn clone(&self) -> (copy: Self)
        ensures
            copy@ == self@,
    {
        ByoAutofillChoice {
            config_key: self.config_key.clone(),
            endpoint_name: self.endpoint_name.clone(),
            model_label: self.model_label.clone(),
        }
    }
}

impl Clone for CustomEndpointModel {
    fn clone(&self) -> (copy: Self)
        ensures
            copy@ == self@,
    {
        CustomEndpointModel {
            name: self.name.clone(),
            config_key: self.config_key.clone(),
            display_label: self.display_label.clone(),
        }
    }
}

impl Clone for CustomEndpoint {
    fn clone(&self) -> (copy: Self)
        ensures
            copy@ == self@,
    {
        let mut models: Vec<CustomEndpointModel> = Vec::new();
        let mut i: usize = 0;
        while i < self.models.len()
            invariant
                i <= self.models@.len(),
                models@.len() == i,
                forall|k: int| 0 <= k < i ==> (#[trigger] models@[k])@ == self.models@[k]@,
            decreases self.models@.len() - i,
        {
            models.push(self.models[i].clone());
            i += 1;
        }
        let copy = CustomEndpoint {
            name: self.name.clone(),
            url: self.url.clone(),
            url_is_valid: self.url_is_valid,
            api_key: self.api_key.clone(),
            models,
            schema: self.schema,
        };
        assert(copy@.models =~= self@.models);
        copy
    }
}

impl Clone for ByoEndpoint {
    fn clone(&self) -> (copy: Self)
        ensures
            copy@ == self@,
    {
        ByoEndpoint { endpoint: self.endpoint.clone(), model: self.model.clone() }
    }
}

/// Whether the model has a name to address requests to.
fn is_named(model: &CustomEndpointModel) -> (named: bool)
    ensures
        named == model@.is_named(),
{
    !text::trim(model.name.as_str()).is_empty()
}

/// Whether the endpoint can serve requests: it has a key, a valid URL and a named model.
pub fn is_usable(endpoint: &CustomEndpoint) -> (usable: bool)
    ensures
        usable == endpoint@.is_usable(),
{
    if text::trim(endpoint.api_key.as_str()).is_empty() || !endpoint.url_is_valid {
        return false;
    }
    let mut i: usize = 0;
    while i < endpoint.models.len()
        invariant
            i <= endpoint.models@.len(),
            text::trimmed(endpoint.api_key@).len() > 0,
            endpoint.url_is_valid,
            forall|k: int| 0 <= k < i ==> !(#[trigger] endpoint@.models[k]).is_named(),
        decreases endpoint.models@.len() - i,
    {
        if is_named(&endpoint.models[i]) {
            assert(endpoint@.models[i as int].is_named());
            return true;
        }
        i += 1;
    }
    false
}

/// Whether one of the endpoint's models has the given configuration key.
fn lists_key(endpoint: &CustomEndpoint, key: &str) -> (found: bool)
    ensures
        found == endpoint@.lists_key(key@),
{
    let mut i: usize = 0;
    while i < endpoint.models.len()
        invariant
            i <= endpoint.models@.len(),
            forall|k: int| 0 <= k < i ==> (#[trigger] endpoint@.models[k]).config_key != key@,
        decreases endpoint.models@.len() - i,
    {
        if text::same_text(endpoint.models[i].config_key.as_str(), key) {
            assert(endpoint@.models[i as int].config_key == key@);
            return true;
        }
        i += 1;
    }
    false
}

/// The first usable endpoint, among those that list `key` where one is given.
fn find_endpoint<'a>(endpoints: &'a Vec<CustomEndpoint>, key: Option<&str>) -> (found: Option<
    &'a CustomEndpoint,
>)
    ensures
        ({
            let views = endpoints@.map_values(|endpoint: CustomEndpoint| endpoint@);
            let first = match key {
                Some(key) => lists::first_where(
                    views,
                    |endpoint: EndpointView| endpoint.serves_key(key@),
                ),
                None => lists::first_where(views, |endpoint: EndpointView| endpoint.is_usable()),
            };
            match found {
                Some(endpoint) => first == Some(endpoint@),
                None => first is None,
            }
        }),
{
    let ghost views = endpoints@.map_values(|endpoint: CustomEndpoint| endpoint@);
    let ghost wanted = match key {
        Some(key) => |endpoint: EndpointView| endpoint.serves_key(key@),
        None => |endpoint: EndpointView| endpoint.is_usable(),
    };
    let mut i: usize = 0;
    while i < endpoints.len()
        invariant
            i <= endpoints@.len(),
            views == endpoints@.map_values(|endpoint: CustomEndpoint| endpoint@),
            wanted == (match key {
                Some(key) => |endpoint: EndpointView| endpoint.serves_key(key@),
                None => |endpoint: EndpointView| endpoint.is_usable(),
            }),
            forall|k: int| 0 <= k < i ==> !wanted(#[trigger] views[k]),
        decreases endpoints@.len() - i,
    {
        let endpoint = &endpoints[i];
        let matched = is_usable(endpoint) && match key {
            Some(key) => lists_key(endpoint, key),
            None => true,
        };
        assert(views[i as int] == endpoint@);
        if matched {
            proof {
                lists::lemma_first_where(views, wanted, i as int);
            }
            return Some(endpoint);
        }
        i += 1;
    }
    proof {
        lists::lemma_first_where(views, wanted, i as int);
    }
    None
}

/// The first named model, among those with `key` where one is given.
fn find_model<'a>(endpoint: &'a CustomEndpoint, key: Option<&str>) -> (found: Option<
    &'a CustomEndpointModel,
>)
    ensures
        ({
            let first = match key {
                Some(key) => lists::first_where(
                    endpoint@.models,
                    |model: ModelView| model.is_named_with_key(key@),
                ),
                None => lists::first_where(
                    endpoint@.models,
                    |model: ModelView| model.is_named(),
                ),
            };
            match found {
                Some(model) => first == Some(model@),
                None => first is None,
            }
        }),
{
    let ghost wanted = match key {
        Some(key) => |model: ModelView| model.is_named_with_key(key@),
        None => |model: ModelView| model.is_named(),
    };
    let mut i: usize = 0;
    while i < endpoint.models.len()
        invariant
            i <= endpoint.models@.len(),
            wanted == (match key {
                Some(key) => |model: ModelView| model.is_named_with_key(key@),
                None => |model: ModelView| model.is_named(),
            }),
            forall|k: int| 0 <= k < i ==> !wanted(#[trigger] endpoint@.models[k]),
        decreases endpoint.models@.len() - i,
    {
        let model = &endpoint.models[i];
        let matched = is_named(model) && match key {
            Some(key) => text::same_text(model.config_key.as_str(), key),
            None => true,
        };
        assert(endpoint@.models[i as int] == model@);
        if matched {
            proof {
                lists::lemma_first_where(endpoint@.models, wanted, i as int);
            }
            return Some(model);
        }
        i += 1;
    }
    proof {
        lists::lemma_first_where(endpoint@.models, wanted, i as int);
    }
    None
}

/// Resolves the endpoint that client-side inference should use, or `None` when the feature is
/// off, the policy forbids member endpoints, or no usable endpoint is configured.
pub fn resolve(settings: &ByoSettings, member_endpoints_allowed: bool) -> (resolved: Option<
    ByoEndpoint,
>)
    ensures
        match resolved {
            Some(resolved) => settings.resolution(member_endpoints_allowed) == Some(resolved@),
            None => settings.resolution(member_endpoints_allowed) is None,
        },
{
    if !settings.feature_enabled || !settings.byo_endpoint_enabled || !member_endpoints_allowed {
        return None;
    }
    let key: Option<&str> = match &settings.configured_model {
        Some(key) => Some(key.as_str()),
        None => None,
    };
    // A model the user configured wins wherever it lives, unless the first usable endpoint that
    // lists its key lists it without a name: then that endpoint's first named model answers.
    // Otherwise the first usable endpoint's first named model answers.
    let with_key = match key {
        Some(_) => find_endpoint(&settings.endpoints, key),
        None => None,
    };
    let endpoint = match with_key {
        Some(endpoint) => endpoint,
        None => match find_endpoint(&settings.endpoints, None) {
            Some(endpoint) => endpoint,
            None => {
                return None;
            },
        },
    };
    let with_key = match key {
        Some(_) => find_model(endpoint, key),
        None => None,
    };
    let model = match with_key {
        Some(model) => model,
        None => match find_model(endpoint, None) {
            Some(model) => model,
            None => {
                return None;
            },
        },
    };
    Some(
        ByoEndpoint {
            endpoint: endpoint.clone(),
            model: text::trim(model.name.as_str()).to_owned(),
        },
    )
}

/// The scope of the team a request carries, or the personal one when it carries none.
pub open spec fn scope_of(team_uid: Option<String>) -> TeamScope {
    match team_uid {
        Some(team_uid) => TeamScope::Team(team_uid),
        None => TeamScope::Personal,
    }
}

/// Resolves the endpoint for a caller that only carries the request's team uid. The policy is
/// asked about the team's scope, or about the personal one when there is no team.
pub fn resolve_for_team_uid<F: Fn(&TeamScope) -> bool>(
    settings: &ByoSettings,
    team_uid: Option<String>,
    member_endpoints_allowed: F,
) -> (resolved: Option<ByoEndpoint>)
    requires
        call_requires(member_endpoints_allowed, (&scope_of(team_uid),)),
    ensures
        exists|allowed: bool|
            {
                &&& #[trigger] call_ensures(
                    member_endpoints_allowed,
                    (&scope_of(team_uid),),
                    allowed,
                )
                &&& match resolved {
                    Some(resolved) => settings.resolution(allowed) == Some(resolved@),
                    None => settings.resolution(allowed) is None,
                }
            },
{
    let scope = match team_uid {
        Some(team_uid) => TeamScope::Team(team_uid),
        None => TeamScope::Personal,
    };
    let allowed = member_endpoints_allowed(&scope);
    resolve(settings, allowed)
}

impl EndpointView {
    /// The choice that stands for one of the endpoint's models.
    pub open spec fn choice(self, model: ModelView) -> ChoiceView {
        ChoiceView {
            config_key: model.config_key,
            endpoint_name: self.name,
            model_label: model.display_label,
        }
    }

    /// The choices the endpoint offers: its named models, in order, when it is usable.
    pub open spec fn choices(self) -> Seq<ChoiceView> {
        if self.is_usable() {
            self.models.filter(|model: ModelView| model.is_named()).map_values(
                |model: ModelView| self.choice(model),
            )
        } else {
            Seq::empty()
        }
    }
}

/// The choices of every endpoint, in endpoint order.
pub open spec fn all_choices(endpoints: Seq<EndpointView>) -> Seq<ChoiceView>
    decreases endpoints.len(),
{
    if endpoints.len() == 0 {
        Seq::empty()
    } else {
        all_choices(endpoints.drop_last()) + endpoints.last().choices()
    }
}

/// What the choices say.
pub open spec fn choice_views(choices: Seq<ByoAutofillChoice>) -> Seq<ChoiceView> {
    choices.map_values(|choice: ByoAutofillChoice| choice@)
}

/// The choices of one endpoint.
fn endpoint_choices(endpoint: &CustomEndpoint) -> (choices: Vec<ByoAutofillChoice>)
    ensures
        choice_views(choices@) == endpoint@.choices(),
{
    let mut choices: Vec<ByoAutofillChoice> = Vec::new();
    if !is_usable(endpoint) {
        assert(choice_views(choices@) =~= Seq::empty());
        return choices;
    }
    let ghost named = |model: ModelView| model.is_named();
    let ghost shown = |model: ModelView| endpoint@.choice(model);
    let ghost models = endpoint@.models;
    let mut i: usize = 0;
    proof {
        assert(models.take(0).filter(named) =~= Seq::empty()) by {
            reveal(Seq::filter);
        }
        assert(choice_views(choices@) =~= models.take(0).filter(named).map_values(shown));
    }
    while i < endpoint.models.len()
        invariant
            i <= endpoint.models@.len(),
            models == endpoint@.models,
            named == (|model: ModelView| model.is_named()),
            shown == (|model: ModelView| endpoint@.choice(model)),
            choice_views(choices@) == models.take(i as int).filter(named).map_values(shown),
        decreases endpoint.models@.len() - i,
    {
        let model = &endpoint.models[i];
        let ghost before = choices@;
        if is_named(model) {
            choices.push(
                ByoAutofillChoice {
                    config_key: model.config_key.clone(),
                    endpoint_name: endpoint.name.clone(),
                    model_label: model.display_label.clone(),
                },
            );
        }
        proof {
            let kept = models.take(i as int).filter(named);
            assert(models[i as int] == model@);
            assert(models.take(i + 1) =~= models.take(i as int).push(model@));
            models.take(i as int).lemma_filter_push(model@, named);
            if model@.is_named() {
                assert(choice_views(choices@) =~= choice_views(before).push(shown(model@)));
                assert(kept.push(model@).map_values(shown) =~= kept.map_values(shown).push(
                    shown(model@),
                ));
            }
        }
        i += 1;
    }
    assert(models.take(models.len() as int) =~= models);
    choices
}

/// Every model autofill can be pointed at, in endpoint order; none when the policy forbids
/// member endpoints.
pub fn selectable_models(settings: &ByoSettings, member_endpoints_allowed: bool) -> (choices: Vec<
    ByoAutofillChoice,
>)
    ensures
        choice_views(choices@) == (if member_endpoints_allowed {
            all_choices(settings.endpoint_views())
        } else {
            Seq::empty()
        }),
{
    let mut choices: Vec<ByoAutofillChoice> = Vec::new();
    assert(choice_views(choices@) =~= Seq::empty());
    if !member_endpoints_allowed {
        return choices;
    }
    let ghost views = settings.endpoint_views();
    let mut i: usize = 0;
    assert(views.take(0) =~= Seq::empty());
    while i < settings.endpoints.len()
        invariant
            i <= settings.endpoints@.len(),
            views == settings.endpoint_views(),
            choice_views(choices@) == all_choices(views.take(i as int)),
        decreases settings.endpoints@.len() - i,
    {
        let mut more = endpoint_choices(&settings.endpoints[i]);
        let ghost before = choices@;
        let ghost added = more@;
        choices.append(&mut more);
        proof {
            let head = views.take(i + 1);
            assert(head.drop_last() =~= views.take(i as int));
            assert(head.last() == settings.endpoints@[i as int]@);
            assert(choice_views(choices@) =~= choice_views(before) + choice_views(added));
        }
        i += 1;
    }
    assert(views.take(views.len() as int) =~= views);
    choices
}

/// Where something wanted is in a list, the first such item is found; and what is found is in the
/// list and wanted.
proof fn lemma_found<A>(list: Seq<A>, wanted: spec_fn(A) -> bool)
    ensures
        match lists::first_where(list, wanted) {
            Some(item) => list.contains(item) && wanted(item),
            None => forall|i: int| 0 <= i < list.len() ==> !wanted(#[trigger] list[i]),
        },
    decreases list.len(),
{
    if list.len() > 0 && !wanted(list[0]) {
        let rest = list.drop_first();
        lemma_found(rest, wanted);
        match lists::first_where(rest, wanted) {
            Some(item) => {
                let i = choose|i: int| 0 <= i < rest.len() && rest[i] == item;
                assert(list[i + 1] == item);
            },
            None => {
                assert forall|i: int| 0 <= i < list.len() implies !wanted(#[trigger] list[i]) by {
                    if i > 0 {
                        assert(rest[i - 1] == list[i]);
                    }
                }
            },
        }
    } else if list.len() > 0 {
        assert(list.contains(list[0]));
    }
}

/// The switch, the user's access and the team's policy each keep every endpoint out.
pub proof fn any_switch_keeps_endpoints_out(settings: ByoSettings, member_endpoints_allowed: bool)
    requires
        !settings.feature_enabled || !settings.byo_endpoint_enabled || !member_endpoints_allowed,
    ensures
        settings.resolution(member_endpoints_allowed) is None,
{
}

/// What is resolved can be asked: the endpoint is one of those configured and usable, and the
/// model is the trimmed name of one of its models, not empty.
pub proof fn resolved_endpoints_are_usable(settings: ByoSettings, member_endpoints_allowed: bool)
    ensures
        match settings.resolution(member_endpoints_allowed) {
            Some((endpoint, model)) => {
                &&& settings.endpoint_views().contains(endpoint)
                &&& endpoint.is_usable()
                &&& model.len() > 0
                &&& text::trimmed(model) == model
                &&& exists|i: int|
                    0 <= i < endpoint.models.len() && text::trimmed(
                        (#[trigger] endpoint.models[i]).name,
                    ) == model
            },
            None => true,
        },
{
    let key = settings.configured_key();
    let endpoints = settings.endpoint_views();
    lemma_answering_endpoint(endpoints, key);
    if let Some(endpoint) = answering_endpoint(endpoints, key) {
        lemma_answering_model(endpoint, key);
        if let Some(model) = endpoint.answering_model(key) {
            text::trimming_settles(model.name);
            let i = choose|i: int| 0 <= i < endpoint.models.len() && endpoint.models[i] == model;
            assert(text::trimmed(endpoint.models[i].name) == text::trimmed(model.name));
        }
    }
}

proof fn lemma_answering_endpoint(endpoints: Seq<EndpointView>, configured: Option<Seq<char>>)
    ensures
        match answering_endpoint(endpoints, configured) {
            Some(endpoint) => endpoints.contains(endpoint) && endpoint.is_usable(),
            None => forall|i: int|
                0 <= i < endpoints.len() ==> !(#[trigger] endpoints[i]).is_usable(),
        },
        configured is Some && (exists|i: int|
            0 <= i < endpoints.len() && (#[trigger] endpoints[i]).serves_key(configured->0))
            ==> (answering_endpoint(endpoints, configured) matches Some(endpoint)
            && endpoint.serves_key(configured->0)),
{
    let usable = |endpoint: EndpointView| endpoint.is_usable();
    lemma_found(endpoints, usable);
    if let Some(key) = configured {
        let serves = |endpoint: EndpointView| endpoint.serves_key(key);
        lemma_found(endpoints, serves);
        if exists|i: int| 0 <= i < endpoints.len() && (#[trigger] endpoints[i]).serves_key(key) {
            let i = choose|i: int| 0 <= i < endpoints.len() && (#[trigger] endpoints[i]).serves_key(
                key,
            );
            assert(serves(endpoints[i]));
        }
    }
    if answering_endpoint(endpoints, configured) is None {
        assert forall|i: int| 0 <= i < endpoints.len() implies !(
        #[trigger] endpoints[i]).is_usable() by {
            assert(!usable(endpoints[i]));
        }
    }
}

proof fn lemma_answering_model(endpoint: EndpointView, configured: Option<Seq<char>>)
    ensures
        match endpoint.answering_model(configured) {
            Some(model) => endpoint.models.contains(model) && model.is_named(),
            None => !endpoint.is_usable(),
        },
        configured is Some && endpoint.names_key(configured->0) ==> (endpoint.answering_model(
            configured,
        ) matches Some(model) && model.config_key == configured->0),
{
    let named = |model: ModelView| model.is_named();
    lemma_found(endpoint.models, named);
    if let Some(key) = configured {
        let with_key = |model: ModelView| model.is_named_with_key(key);
        lemma_found(endpoint.models, with_key);
        if endpoint.names_key(key) {
            let i = choose|i: int|
                0 <= i < endpoint.models.len() && (
                #[trigger] endpoint.models[i]).is_named_with_key(key);
            assert(with_key(endpoint.models[i]));
        }
    }
    if endpoint.answering_model(configured) is None && endpoint.is_usable() {
        let i = choose|i: int|
            0 <= i < endpoint.models.len() && (#[trigger] endpoint.models[i]).is_named();
        assert(named(endpoint.models[i]));
    }
}

/// With the switches on, an endpoint is resolved exactly when one of those configured is usable.
pub proof fn a_usable_endpoint_is_resolved(settings: ByoSettings)
    requires
        settings.feature_enabled,
        settings.byo_endpoint_enabled,
    ensures
        settings.resolution(true) is Some <==> exists|i: int|
            0 <= i < settings.endpoint_views().len() && (
            #[trigger] settings.endpoint_views()[i]).is_usable(),
{
    let key = settings.configured_key();
    let endpoints = settings.endpoint_views();
    lemma_answering_endpoint(endpoints, key);
    if let Some(endpoint) = answering_endpoint(endpoints, key) {
        lemma_answering_model(endpoint, key);
        let i = choose|i: int| 0 <= i < endpoints.len() && endpoints[i] == endpoint;
        assert(endpoints[i].is_usable());
    }
}

/// A model the user configured wins wherever it lives: where the first usable endpoint that lists
/// its key, at `at`, has a named model under that key, that endpoint answers with such a model.
pub proof fn the_configured_model_wins(settings: ByoSettings, key: Seq<char>, at: int)
    requires
        settings.feature_enabled,
        settings.byo_endpoint_enabled,
        settings.configured_key() == Some(key),
        0 <= at < settings.endpoint_views().len(),
        settings.endpoint_views()[at].serves_key(key),
        forall|i: int|
            0 <= i < at ==> !(#[trigger] settings.endpoint_views()[i]).serves_key(key),
        settings.endpoint_views()[at].names_key(key),
    ensures
        settings.resolution(true) matches Some((endpoint, model)) && endpoint
            == settings.endpoint_views()[at] && exists|k: int|
            0 <= k < endpoint.models.len() && (#[trigger] endpoint.models[k]).is_named_with_key(key)
                && model == text::trimmed(endpoint.models[k].name),
{
    let endpoints = settings.endpoint_views();
    let endpoint = endpoints[at];
    let serves = |endpoint: EndpointView| endpoint.serves_key(key);
    assert forall|i: int| 0 <= i < at implies !serves(#[trigger] endpoints[i]) by {}
    lists::lemma_first_where(endpoints, serves, at);
    assert(answering_endpoint(endpoints, Some(key)) == Some(endpoint));
    lemma_answering_model(endpoint, Some(key));
    let model = endpoint.answering_model(Some(key))->0;
    let k = choose|k: int| 0 <= k < endpoint.models.len() && endpoint.models[k] == model;
    assert(endpoint.models[k].is_named_with_key(key));
}

/// Every choice on offer can be picked: once its key is configured, an endpoint answers that
/// lists the key, and where it has a named model under that key, it answers with such a model.
pub proof fn offered_models_can_be_picked(settings: ByoSettings, choice: ChoiceView)
    requires
        settings.feature_enabled,
        settings.byo_endpoint_enabled,
        all_choices(settings.endpoint_views()).contains(choice),
        settings.configured_key() == Some(choice.config_key),
    ensures
        settings.resolution(true) matches Some((endpoint, model)) && endpoint.serves_key(
            choice.config_key,
        ) && (endpoint.names_key(choice.config_key) ==> exists|k: int|
            0 <= k < endpoint.models.len() && (#[trigger] endpoint.models[k]).is_named_with_key(
                choice.config_key,
            ) && model == text::trimmed(endpoint.models[k].name)),
{
    let endpoints = settings.endpoint_views();
    let key = choice.config_key;
    choices_are_the_named_models(endpoints, choice);
    let (i, k) = choose|i: int, k: int|
        {
            &&& 0 <= i < endpoints.len()
            &&& 0 <= k < endpoints[i].models.len()
            &&& endpoints[i].is_usable()
            &&& (#[trigger] endpoints[i].models[k]).is_named()
            &&& choice == endpoints[i].choice(endpoints[i].models[k])
        };
    assert(endpoints[i].models[k].config_key == key);
    assert(endpoints[i].serves_key(key));
    lemma_answering_endpoint(endpoints, Some(key));
    let endpoint = answering_endpoint(endpoints, Some(key))->0;
    lemma_answering_model(endpoint, Some(key));
    if endpoint.names_key(key) {
        let model = endpoint.answering_model(Some(key))->0;
        let at = choose|at: int| 0 <= at < endpoint.models.len() && endpoint.models[at] == model;
        assert(endpoint.models[at].is_named_with_key(key));
    }
}

/// The choices are exactly the named models of the usable endpoints.
pub proof fn choices_are_the_named_models(endpoints: Seq<EndpointView>, choice: ChoiceView)
    ensures
        all_choices(endpoints).contains(choice) <==> exists|i: int, k: int|
            {
                &&& 0 <= i < endpoints.len()
                &&& 0 <= k < endpoints[i].models.len()
                &&& endpoints[i].is_usable()
                &&& (#[trigger] endpoints[i].models[k]).is_named()
                &&& choice == endpoints[i].choice(endpoints[i].models[k])
            },
    decreases endpoints.len(),
{
    if endpoints.len() > 0 {
        let rest = endpoints.drop_last();
        let last = endpoints.last();
        let named = |model: ModelView| model.is_named();
        let shown = |model: ModelView| last.choice(model);
        let kept = last.models.filter(named);
        let all = all_choices(endpoints);
        let before = all_choices(rest);
        choices_are_the_named_models(rest, choice);
        if all.contains(choice) {
            let at = choose|at: int| 0 <= at < all.len() && all[at] == choice;
            if at < before.len() {
                assert(before[at] == choice);
                let (i, k) = choose|i: int, k: int|
                    {
                        &&& 0 <= i < rest.len()
                        &&& 0 <= k < rest[i].models.len()
                        &&& rest[i].is_usable()
                        &&& (#[trigger] rest[i].models[k]).is_named()
                        &&& choice == rest[i].choice(rest[i].models[k])
                    };
                assert(endpoints[i] == rest[i]);
                assert(endpoints[i].models[k].is_named());
            } else {
                let model = kept[at - before.len()];
                assert(kept.contains(model));
                lists::lemma_filter_contains(last.models, named, model);
                let k = choose|k: int| 0 <= k < last.models.len() && last.models[k] == model;
                assert(endpoints[endpoints.len() - 1].models[k].is_named());
            }
        }
        if exists|i: int, k: int|
            {
                &&& 0 <= i < endpoints.len()
                &&& 0 <= k < endpoints[i].models.len()
                &&& endpoints[i].is_usable()
                &&& (#[trigger] endpoints[i].models[k]).is_named()
                &&& choice == endpoints[i].choice(endpoints[i].models[k])
            } {
            let (i, k) = choose|i: int, k: int|
                {
                    &&& 0 <= i < endpoints.len()
                    &&& 0 <= k < endpoints[i].models.len()
                    &&& endpoints[i].is_usable()
                    &&& (#[trigger] endpoints[i].models[k]).is_named()
                    &&& choice == endpoints[i].choice(endpoints[i].models[k])
                };
            if i < rest.len() {
                assert(rest[i].models[k].is_named());
                let at = choose|at: int| 0 <= at < before.len() && before[at] == choice;
                assert(all[at] == choice);
            } else {
                let model = last.models[k];
                assert(last.models.contains(model));
                lists::lemma_filter_contains(last.models, named, model);
                let at = choose|at: int| 0 <= at < kept.len() && kept[at] == model;
                assert(kept.map_values(shown)[at] == choice);
                assert(all[before.len() + at] == choice);
            }
        }
    }
}

/// Whether a model has a name to address requests to.
pub open spec fn has_a_name(model: ModelView) -> bool {
    !text::is_blank_text(model.name)
}

/// An endpoint can be used exactly when its key is not blank, its URL passed the check and one of
/// its models, whichever it is, has a name. A key is listed exactly when one of the models has
/// it, whichever it is.
pub proof fn what_makes_an_endpoint_usable(endpoint: EndpointView, key: Seq<char>)
    ensures
        endpoint.is_usable() <==> {
            &&& !text::is_blank_text(endpoint.api_key)
            &&& endpoint.url_is_valid
            &&& exists|i: int|
                0 <= i < endpoint.models.len() && has_a_name(#[trigger] endpoint.models[i])
        },
        endpoint.serves_key(key) <==> endpoint.is_usable() && exists|i: int|
            0 <= i < endpoint.models.len() && (#[trigger] endpoint.models[i]).config_key == key,
        endpoint.names_key(key) <==> exists|i: int|
            0 <= i < endpoint.models.len() && has_a_name(#[trigger] endpoint.models[i])
                && endpoint.models[i].config_key == key,
{
    text::trimming_empties_blank_text(endpoint.api_key);
    assert forall|i: int| 0 <= i < endpoint.models.len() implies has_a_name(
        #[trigger] endpoint.models[i],
    ) == endpoint.models[i].is_named() by {
        text::trimming_empties_blank_text(endpoint.models[i].name);
    }
}

/// Whether `at` is the model that answers for an endpoint: the first named one with the
/// configured key where there is one, and the first named one otherwise.
pub open spec fn model_answers(
    endpoint: EndpointView,
    configured: Option<Seq<char>>,
    at: int,
) -> bool {
    &&& 0 <= at < endpoint.models.len()
    &&& has_a_name(endpoint.models[at])
    &&& if configured is Some && endpoint.names_key(configured->0) {
        &&& endpoint.models[at].config_key == configured->0
        &&& forall|i: int|
            0 <= i < at ==> !(has_a_name(#[trigger] endpoint.models[i])
                && endpoint.models[i].config_key == configured->0)
    } else {
        forall|i: int| 0 <= i < at ==> !has_a_name(#[trigger] endpoint.models[i])
    }
}

proof fn lemma_model_answers(endpoint: EndpointView, configured: Option<Seq<char>>, at: int)
    requires
        model_answers(endpoint, configured, at),
    ensures
        endpoint.answering_model(configured) == Some(endpoint.models[at]),
{
    let models = endpoint.models;
    let named = |model: ModelView| model.is_named();
    assert forall|i: int| 0 <= i < models.len() implies has_a_name(#[trigger] models[i])
        == models[i].is_named() by {
        text::trimming_empties_blank_text(models[i].name);
    }
    if configured is Some && endpoint.names_key(configured->0) {
        let key = configured->0;
        let with_key = |model: ModelView| model.is_named_with_key(key);
        assert forall|i: int| 0 <= i < at implies !with_key(#[trigger] models[i]) by {}
        lists::lemma_first_where(models, with_key, at);
    } else {
        assert forall|i: int| 0 <= i < at implies !named(#[trigger] models[i]) by {}
        lists::lemma_first_where(models, named, at);
        if let Some(key) = configured {
            let with_key = |model: ModelView| model.is_named_with_key(key);
            assert forall|i: int| 0 <= i < models.len() implies !with_key(#[trigger] models[i]) by {
                if with_key(models[i]) {
                    assert(endpoint.names_key(key));
                }
            }
            lists::lemma_first_where(models, with_key, models.len() as int);
        }
    }
}

/// The first usable endpoint that lists the configured key answers, wherever it stands. It answers
/// as it is configured, with the trimmed name of its own model.
pub proof fn the_first_endpoint_with_the_key_answers(
    settings: ByoSettings,
    key: Seq<char>,
    at: int,
    model: int,
)
    requires
        settings.feature_enabled,
        settings.byo_endpoint_enabled,
        settings.configured_key() == Some(key),
        0 <= at < settings.endpoint_views().len(),
        settings.endpoint_views()[at].serves_key(key),
        forall|i: int|
            0 <= i < at ==> !(#[trigger] settings.endpoint_views()[i]).serves_key(key),
        model_answers(settings.endpoint_views()[at], Some(key), model),
    ensures
        settings.resolution(true) == Some(
            (
                settings.endpoint_views()[at],
                text::trimmed(settings.endpoint_views()[at].models[model].name),
            ),
        ),
{
    let endpoints = settings.endpoint_views();
    let serves = |endpoint: EndpointView| endpoint.serves_key(key);
    assert forall|i: int| 0 <= i < at implies !serves(#[trigger] endpoints[i]) by {}
    lists::lemma_first_where(endpoints, serves, at);
    lemma_model_answers(endpoints[at], Some(key), model);
}

/// Where no key is configured, or no usable endpoint lists it, the first usable endpoint answers,
/// wherever it stands, with the trimmed name of its own model.
pub proof fn the_first_usable_endpoint_answers(settings: ByoSettings, at: int, model: int)
    requires
        settings.feature_enabled,
        settings.byo_endpoint_enabled,
        settings.configured_key() matches Some(key) ==> forall|i: int|
            0 <= i < settings.endpoint_views().len() ==> !(
            #[trigger] settings.endpoint_views()[i]).serves_key(key),
        0 <= at < settings.endpoint_views().len(),
        settings.endpoint_views()[at].is_usable(),
        forall|i: int| 0 <= i < at ==> !(#[trigger] settings.endpoint_views()[i]).is_usable(),
        model_answers(settings.endpoint_views()[at], settings.configured_key(), model),
    ensures
        settings.resolution(true) == Some(
            (
                settings.endpoint_views()[at],
                text::trimmed(settings.endpoint_views()[at].models[model].name),
            ),
        ),
{
    let endpoints = settings.endpoint_views();
    let usable = |endpoint: EndpointView| endpoint.is_usable();
    assert forall|i: int| 0 <= i < at implies !usable(#[trigger] endpoints[i]) by {}
    lists::lemma_first_where(endpoints, usable, at);
    if let Some(key) = settings.configured_key() {
        let serves = |endpoint: EndpointView| endpoint.serves_key(key);
        assert forall|i: int| 0 <= i < endpoints.len() implies !serves(#[trigger] endpoints[i]) by {}
        lists::lemma_first_where(endpoints, serves, endpoints.len() as int);
    }
    lemma_model_answers(endpoints[at], settings.configured_key(), model);
}

/// Settings are seen as they are: every endpoint with all that is configured of it, and every one
/// of its models.
pub proof fn settings_are_seen_whole(settings: ByoSettings, i: int, k: int)
    requires
        0 <= i < settings.endpoints@.len(),
        0 <= k < settings.endpoints@[i].models@.len(),
    ensures
        ({
            let endpoint = settings.endpoints@[i];
            let seen = settings.endpoint_views()[i];
            let model = endpoint.models@[k];
            &&& settings.endpoint_views().len() == settings.endpoints@.len()
            &&& seen.name == endpoint.name@
            &&& seen.url == endpoint.url@
            &&& seen.url_is_valid == endpoint.url_is_valid
            &&& seen.api_key == endpoint.api_key@
            &&& seen.schema == endpoint.schema
            &&& seen.models.len() == endpoint.models@.len()
            &&& seen.models[k].name == model.name@
            &&& seen.models[k].config_key == model.config_key@
            &&& seen.models[k].display_label == model.display_label@
        }),
        match settings.configured_model {
            Some(key) => settings.configured_key() == Some(key@),
            None => settings.configured_key() is None,
        },
{
}

/// What is resolved is seen whole too: the endpoint with all that is configured of it, and the
/// model's name.
pub proof fn resolved_endpoints_are_seen_whole(resolved: ByoEndpoint)
    ensures
        resolved@.0 == resolved.endpoint@,
        resolved@.1 == resolved.model@,
        resolved.endpoint@.url == resolved.endpoint.url@,
        resolved.endpoint@.api_key == resolved.endpoint.api_key@,
        resolved.endpoint@.schema == resolved.endpoint.schema,
{
}

/// A team's own policy applies where there is a team, and the personal one where there is none.
pub proof fn the_policy_is_that_of_the_team(team_uid: String)
    ensures
        scope_of(Some(team_uid)) == TeamScope::Team(team_uid),
        scope_of(None) == TeamScope::Personal,
{
}

/// The choices come endpoint by endpoint, in their order, and within an endpoint that can be used
/// model by model: every model with a name is offered under its own key and label.
pub proof fn choices_come_endpoint_by_endpoint(
    front: Seq<EndpointView>,
    endpoint: EndpointView,
    back: Seq<EndpointView>,
)
    ensures
        all_choices(front + seq![endpoint] + back) == all_choices(front) + (
        if endpoint.is_usable() {
            endpoint.models.filter(|model: ModelView| has_a_name(model)).map_values(
                |model: ModelView|
                    ChoiceView {
                        config_key: model.config_key,
                        endpoint_name: endpoint.name,
                        model_label: model.display_label,
                    },
            )
        } else {
            Seq::empty()
        }) + all_choices(back),
        all_choices(Seq::empty()).len() == 0,
{
    let one = seq![endpoint];
    lemma_choices_go_on(front, one);
    lemma_choices_go_on(front + one, back);
    assert(one.drop_last() =~= Seq::empty());
    assert(all_choices(one.drop_last()) =~= Seq::empty());
    assert(all_choices(one) =~= endpoint.choices());
    let named = |model: ModelView| model.is_named();
    let with_name = |model: ModelView| has_a_name(model);
    assert forall|model: ModelView| #[trigger] named(model) == with_name(model) by {
        text::trimming_empties_blank_text(model.name);
    }
    lemma_same_filter(endpoint.models, named, with_name);
    assert(endpoint.models.filter(named).map_values(|model: ModelView| endpoint.choice(model))
        =~= endpoint.models.filter(with_name).map_values(
        |model: ModelView|
            ChoiceView {
                config_key: model.config_key,
                endpoint_name: endpoint.name,
                model_label: model.display_label,
            },
    ));
}

proof fn lemma_choices_go_on(front: Seq<EndpointView>, back: Seq<EndpointView>)
    ensures
        all_choices(front + back) == all_choices(front) + all_choices(back),
    decreases back.len(),
{
    let all = front + back;
    if back.len() == 0 {
        assert(all =~= front);
        assert(all_choices(front) + all_choices(back) =~= all_choices(front));
    } else {
        lemma_choices_go_on(front, back.drop_last());
        assert(all.drop_last() =~= front + back.drop_last());
        assert(all_choices(front) + all_choices(back.drop_last()) + back.last().choices()
            =~= all_choices(front) + (all_choices(back.drop_last()) + back.last().choices()));
    }
}

proof fn lemma_same_filter<A>(list: Seq<A>, one: spec_fn(A) -> bool, other: spec_fn(A) -> bool)
    requires
        forall|item: A| #[trigger] one(item) == other(item),
    ensures
        list.filter(one) == list.filter(other),
    decreases list.len(),
{
    reveal(Seq::filter);
    if list.len() > 0 {
        lemma_same_filter(list.drop_last(), one, other);
        assert(one(list.last()) == other(list.last()));
    } else {
        assert(list.filter(one) =~= list.filter(other));
    }
}

/// Choices are seen as they are, one for one.
pub proof fn choices_are_seen_whole(choices: Seq<ByoAutofillChoice>, i: int)
    requires
        0 <= i < choices.len(),
    ensures
        choice_views(choices).len() == choices.len(),
        choice_views(choices)[i].config_key == choices[i].config_key@,
        choice_views(choices)[i].endpoint_name == choices[i].endpoint_name@,
        choice_views(choices)[i].model_label == choices[i].model_label@,
{
}

} // verus!
