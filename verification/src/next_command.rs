//! Next-command autofill answered by the user's own endpoint: what it is asked, and which of its
//! suggestions are offered.

use crate::circuit;
use crate::circuit::ByoRankingMode;
use crate::durations;
use crate::json;
use crate::lists;
use crate::text;
use vstd::prelude::*;

verus! {

/// Ceiling on the terminal context sent per request, so suggestions stay inside the autofill
/// latency budget.
pub const MAX_CONTEXT_CHARS: usize = 2_500;

/// How many of the endpoint's commands are kept.
pub const MAX_COMMANDS: usize = 3;

/// How long the endpoint's answer may be.
pub const MAX_TOKENS: u32 = 200;

/// How many of the recent terminal blocks are sent.
pub const RECENT_BLOCK_LIMIT: usize = 2;

/// How much of the last command's output is sent.
pub const BLOCK_OUTPUT_CHARS: usize = 400;

/// What the endpoint is told about its task.
pub const SYSTEM_PROMPT: &'static str =
    "You predict the next shell command a developer will run in an interactive terminal session.\nReply with one JSON object and nothing else:\n{\"commands\": [\"<command>\", ...], \"most_likely_action\": \"<command>\"}\nRules:\n- At most 3 commands, most likely first; `most_likely_action` is the single best one.\n- Every command is a single line, directly runnable in the user's shell, and does not wrap.\n- When a typed prefix is given, `most_likely_action` and every command must start with it verbatim.\n- Ground suggestions in the working directory, shell, git branch, recent commands and their output.\n- Never suggest a command listed as already rejected.\n- Answer immediately with the JSON; no explanations, no markdown, no extra keys.";

/// How long the user wants autofill to wait for the endpoint.
#[derive(Clone, Copy, Debug, PartialEq, Eq, Structural)]
pub enum ByoAutofillWait {
    Off,
    TenSeconds,
    TwentySeconds,
}

/// How many seconds a preset waits, where it waits at all.
pub open spec fn wait_seconds(wait: ByoAutofillWait) -> Option<nat> {
    match wait {
        ByoAutofillWait::Off => None,
        ByoAutofillWait::TenSeconds => Some(10),
        ByoAutofillWait::TwentySeconds => Some(20),
    }
}

/// How long a single autofill call may wait on the endpoint, or `None` when the endpoint is left
/// out of autofill entirely.
pub fn request_timeout(wait: ByoAutofillWait) -> (timeout: Option<std::time::Duration>)
    ensures
        match timeout {
            Some(timeout) => wait_seconds(wait) matches Some(seconds) && durations::nanoseconds(
                timeout,
            ) == seconds * 1_000_000_000,
            None => wait_seconds(wait) is None,
        },
{
    match wait {
        ByoAutofillWait::Off => None,
        ByoAutofillWait::TenSeconds => Some(std::time::Duration::from_secs(10)),
        ByoAutofillWait::TwentySeconds => Some(std::time::Duration::from_secs(20)),
    }
}

/// The endpoint's answer, as it was read.
#[derive(Debug)]
pub struct RawSuggestions {
    pub commands: Vec<String>,
    pub most_likely_action: Option<String>,
}

/// The suggestions that autofill offers.
#[derive(Debug)]
pub struct GenerateAIInputSuggestionsResponseV2 {
    pub commands: Vec<String>,
    pub ai_queries: Vec<String>,
    pub most_likely_action: String,
}

/// Why an answer gives no suggestions.
#[derive(Debug)]
pub enum SuggestionError {
    /// The answer holds no JSON object.
    NoJsonObject,
    /// The object could not be read; why, in words.
    UnexpectedShape(String),
    /// Nothing in the answer can be suggested.
    NoUsableSuggestion,
}

/// What is typed and what is off the table.
pub struct Terms {
    pub prefix: Option<Seq<char>>,
    pub rejected: Seq<Seq<char>>,
}

impl Terms {
    /// Whether a trimmed command can be suggested: it is not empty, was not rejected before, and
    /// extends what is typed.
    pub open spec fn allow(self, command: Seq<char>) -> bool {
        &&& command.len() > 0
        &&& !self.rejected.contains(command)
        &&& match self.prefix {
            Some(prefix) => text::begins_with(command, prefix),
            None => true,
        }
    }

    /// The commands that are kept: the first few that can be suggested, trimmed, each once.
    pub open spec fn kept(self, commands: Seq<Seq<char>>) -> Seq<Seq<char>> {
        lists::first_items(
            lists::without_repeats(
                commands.map_values(|command: Seq<char>| text::trimmed(command)).filter(
                    |command: Seq<char>| self.allow(command),
                ),
            ),
            MAX_COMMANDS as int,
        )
    }

    /// The suggestion that is offered first: the most likely action where it can be suggested,
    /// else the first command kept.
    pub open spec fn best(
        self,
        commands: Seq<Seq<char>>,
        most_likely: Option<Seq<char>>,
    ) -> Option<Seq<char>> {
        if most_likely matches Some(action) && self.allow(text::trimmed(action)) {
            Some(text::trimmed(most_likely->0))
        } else if self.kept(commands).len() > 0 {
            Some(self.kept(commands)[0])
        } else {
            None
        }
    }

    /// The commands that are offered: those kept, behind the best one if it is not among them.
    pub open spec fn offered(
        self,
        commands: Seq<Seq<char>>,
        most_likely: Option<Seq<char>>,
    ) -> Seq<Seq<char>> {
        match self.best(commands, most_likely) {
            Some(best) => if self.kept(commands).contains(best) {
                self.kept(commands)
            } else {
                seq![best] + self.kept(commands)
            },
            None => Seq::empty(),
        }
    }
}

/// The terms that a prefix and a list of rejected suggestions set.
pub open spec fn terms(prefix: Option<&str>, rejected: Seq<String>) -> Terms {
    Terms {
        prefix: match prefix {
            Some(prefix) => Some(prefix@),
            None => None,
        },
        rejected: lists::texts(rejected),
    }
}

/// What an optional text spells.
pub open spec fn optional_text(given: Option<String>) -> Option<Seq<char>> {
    match given {
        Some(given) => Some(given@),
        None => None,
    }
}

/// Whether `outcome` is what an answer gives on the given terms.
pub open spec fn answers(
    outcome: Result<GenerateAIInputSuggestionsResponseV2, SuggestionError>,
    answer: RawSuggestions,
    terms: Terms,
) -> bool {
    let commands = lists::texts(answer.commands@);
    let most_likely = optional_text(answer.most_likely_action);
    match terms.best(commands, most_likely) {
        Some(best) => {
            &&& outcome matches Ok(response)
            &&& response.most_likely_action@ == best
            &&& lists::texts(response.commands@) == terms.offered(commands, most_likely)
            &&& response.ai_queries@.len() == 0
        },
        None => outcome == Err::<GenerateAIInputSuggestionsResponseV2, SuggestionError>(
            SuggestionError::NoUsableSuggestion,
        ),
    }
}

/// Whether a trimmed command can be suggested.
fn is_allowed(command: &str, prefix: Option<&str>, rejected: &[String]) -> (allowed: bool)
    ensures
        allowed == terms(prefix, rejected@).allow(command@),
{
    !command.is_empty() && !lists::holds_text(rejected, command) && match prefix {
        Some(prefix) => text::starts_with(command, prefix),
        None => true,
    }
}

/// The commands of an answer that are kept.
fn kept_commands(commands: &[String], prefix: Option<&str>, rejected: &[String]) -> (kept: Vec<
    String,
>)
    ensures
        lists::texts(kept@) == terms(prefix, rejected@).kept(lists::texts(commands@)),
{
    let ghost terms = terms(prefix, rejected@);
    let ghost trims = |command: Seq<char>| text::trimmed(command);
    let ghost allowed = |command: Seq<char>| terms.allow(command);
    let ghost given = lists::texts(commands@).map_values(trims);
    let mut kept: Vec<String> = Vec::new();
    let mut i: usize = 0;
    proof {
        reveal(Seq::filter);
        assert(given.take(0).filter(allowed) =~= Seq::empty());
        assert(lists::texts(kept@) =~= Seq::empty());
    }
    while i < commands.len()
        invariant
            i <= commands@.len(),
            terms == self::terms(prefix, rejected@),
            trims == (|command: Seq<char>| text::trimmed(command)),
            allowed == (|command: Seq<char>| terms.allow(command)),
            given == lists::texts(commands@).map_values(trims),
            lists::texts(kept@) == given.take(i as int).filter(allowed),
        decreases commands@.len() - i,
    {
        let command = text::trim(commands[i].as_str());
        let ghost before = lists::texts(kept@);
        if is_allowed(command, prefix, rejected) {
            kept.push(command.to_owned());
            assert(lists::texts(kept@) =~= before.push(command@));
        }
        proof {
            assert(given[i as int] == command@);
            assert(given.take(i + 1) =~= given.take(i as int).push(command@));
            given.take(i as int).lemma_filter_push(command@, allowed);
        }
        i += 1;
    }
    assert(given.take(given.len() as int) =~= given);
    lists::first_of(lists::unique(kept), MAX_COMMANDS)
}

/// The suggestions that an answer gives: its commands that can be suggested, and the most likely
/// action, or the first command in its place.
pub fn suggestions_from(
    answer: RawSuggestions,
    prefix: Option<&str>,
    rejected: &[String],
) -> (outcome: Result<GenerateAIInputSuggestionsResponseV2, SuggestionError>)
    ensures
        answers(outcome, answer, terms(prefix, rejected@)),
{
    let mut commands = kept_commands(answer.commands.as_slice(), prefix, rejected);
    let ghost kept = lists::texts(commands@);
    assert(kept.len() == commands@.len());
    let action: Option<String> = match &answer.most_likely_action {
        Some(action) => {
            let action = text::trim(action.as_str());
            if is_allowed(action, prefix, rejected) {
                Some(action.to_owned())
            } else {
                None
            }
        },
        None => None,
    };
    let most_likely_action = match action {
        Some(action) => action,
        None => {
            if commands.len() == 0 {
                return Err(SuggestionError::NoUsableSuggestion);
            }
            commands[0].clone()
        },
    };
    if !lists::holds_text(commands.as_slice(), most_likely_action.as_str()) {
        commands.insert(0, most_likely_action.clone());
        assert(lists::texts(commands@) =~= seq![most_likely_action@] + kept);
    }
    let ai_queries: Vec<String> = Vec::new();
    Ok(GenerateAIInputSuggestionsResponseV2 { commands, ai_queries, most_likely_action })
}

/// Reads suggestions out of the endpoint's reply: `read` reads the JSON object in it, and what
/// can be suggested is kept.
pub fn parse_response<F: FnOnce(&str) -> Result<RawSuggestions, String>>(
    raw: &str,
    prefix: Option<&str>,
    rejected: &[String],
    read: F,
) -> (outcome: Result<GenerateAIInputSuggestionsResponseV2, SuggestionError>)
    requires
        forall|object: &str|
            json::json_object(raw@) == Some(object@) ==> call_requires(read, (object,)),
    ensures
        json::json_object(raw@) is None ==> outcome == Err::<
            GenerateAIInputSuggestionsResponseV2,
            SuggestionError,
        >(SuggestionError::NoJsonObject),
        json::json_object(raw@) is Some ==> exists|
            object: &str,
            answer: Result<RawSuggestions, String>,
        |
            {
                &&& json::json_object(raw@) == Some(object@)
                &&& #[trigger] call_ensures(read, (object,), answer)
                &&& match answer {
                    Ok(answer) => answers(outcome, answer, terms(prefix, rejected@)),
                    Err(cause) => outcome == Err::<
                        GenerateAIInputSuggestionsResponseV2,
                        SuggestionError,
                    >(SuggestionError::UnexpectedShape(cause)),
                }
            },
{
    match json::extract_json_object(raw) {
        Some(object) => match read(object) {
            Ok(answer) => suggestions_from(answer, prefix, rejected),
            Err(cause) => Err(SuggestionError::UnexpectedShape(cause)),
        },
        None => Err(SuggestionError::NoJsonObject),
    }
}

impl SuggestionError {
    /// What the error says.
    pub open spec fn text(&self) -> Seq<char> {
        match *self {
            SuggestionError::NoJsonObject => "custom endpoint response contained no JSON object"@,
            SuggestionError::UnexpectedShape(
                _,
            ) => "custom endpoint response was not the expected shape"@,
            SuggestionError::NoUsableSuggestion => "custom endpoint returned no usable suggestion"@,
        }
    }

    /// What the error says.
    pub fn message(&self) -> (message: &'static str)
        ensures
            message@ == self.text(),
    {
        match self {
            SuggestionError::NoJsonObject => "custom endpoint response contained no JSON object",
            SuggestionError::UnexpectedShape(
                _,
            ) => "custom endpoint response was not the expected shape",
            SuggestionError::NoUsableSuggestion => "custom endpoint returned no usable suggestion",
        }
    }
}

/// The block of the last command.
#[derive(Debug)]
pub struct BlockContext {
    pub pwd: Option<String>,
    pub shell: Option<String>,
    pub git_branch: Option<String>,
    pub command: String,
    pub exit_code: i32,
    pub output: String,
}

/// What autofill knows when it asks for suggestions.
#[derive(Debug)]
pub struct GenerateAIInputSuggestionsRequest {
    /// The recent terminal blocks, oldest first.
    pub context_messages: Vec<String>,
    pub history_context: String,
    /// What the user has typed so far.
    pub prefix: Option<String>,
    pub rejected_suggestions: Vec<String>,
    pub system_context: Option<String>,
    pub block_context: Option<BlockContext>,
}

impl Default for GenerateAIInputSuggestionsRequest {
    fn default() -> (request: Self)
        ensures
            request.context_messages@.len() == 0,
            request.history_context@.len() == 0,
            request.prefix is None,
            request.rejected_suggestions@.len() == 0,
            request.system_context is None,
            request.block_context is None,
    {
        GenerateAIInputSuggestionsRequest {
            context_messages: Vec::new(),
            history_context: String::new(),
            prefix: None,
            rejected_suggestions: Vec::new(),
            system_context: None,
            block_context: None,
        }
    }
}

/// A line of the context: a label and what it labels.
pub open spec fn labelled(label: Seq<char>, value: Seq<char>) -> Seq<char> {
    label + value + "\n"@
}

/// A labelled line, where there is something to label.
pub open spec fn labelled_if_given(label: Seq<char>, value: Option<Seq<char>>) -> Seq<char> {
    match value {
        Some(value) => labelled(label, value),
        None => Seq::empty(),
    }
}

/// A labelled line, where the value is not empty.
pub open spec fn labelled_unless_empty(label: Seq<char>, value: Seq<char>) -> Seq<char> {
    if value.len() > 0 {
        labelled(label, value)
    } else {
        Seq::empty()
    }
}

impl BlockContext {
    /// What is said of the last command.
    pub open spec fn text(&self) -> Seq<char> {
        labelled_if_given("working directory: "@, optional_text(self.pwd)) + labelled_if_given(
            "shell: "@,
            optional_text(self.shell),
        ) + labelled_if_given("git branch: "@, optional_text(self.git_branch)) + labelled(
            "last command: "@,
            text::trimmed(self.command@),
        ) + labelled("exit code: "@, text::integer_text(self.exit_code as int))
            + labelled_unless_empty(
            "last command output:\n"@,
            text::first_chars(text::trimmed(self.output@), BLOCK_OUTPUT_CHARS as int),
        )
    }
}

/// The terminal blocks that are sent: of the last few, those that are not blank, trimmed.
pub open spec fn recent_blocks(messages: Seq<Seq<char>>) -> Seq<Seq<char>> {
    lists::last_items(messages, RECENT_BLOCK_LIMIT as int).map_values(
        |message: Seq<char>| text::trimmed(message),
    ).filter(|message: Seq<char>| message.len() > 0)
}

impl GenerateAIInputSuggestionsRequest {
    /// What is said of the system, where there is something to say.
    pub open spec fn system_text(&self) -> Seq<char> {
        match self.system_context {
            Some(context) => if text::trimmed(context@).len() > 0 {
                context@ + "\n"@
            } else {
                Seq::empty()
            },
            None => Seq::empty(),
        }
    }

    /// What is said of the last command, where there is one.
    pub open spec fn block_text(&self) -> Seq<char> {
        match self.block_context {
            Some(block) => block.text(),
            None => Seq::empty(),
        }
    }

    /// What is said of the recent terminal blocks, where there are any.
    pub open spec fn recent_text(&self) -> Seq<char> {
        let blocks = recent_blocks(lists::texts(self.context_messages@));
        if blocks.len() > 0 {
            labelled("recent terminal blocks:\n"@, lists::joined(blocks, "\n---\n"@))
        } else {
            Seq::empty()
        }
    }

    /// What is said of rejected suggestions, where there are any.
    pub open spec fn rejected_text(&self) -> Seq<char> {
        if self.rejected_suggestions@.len() > 0 {
            labelled(
                "already rejected: "@,
                lists::joined(lists::texts(self.rejected_suggestions@), ", "@),
            )
        } else {
            Seq::empty()
        }
    }

    /// Everything that is known, before it is cut to size.
    pub open spec fn context(&self) -> Seq<char> {
        self.system_text() + self.block_text() + labelled_unless_empty(
            "commands run in similar past sessions:\n"@,
            text::trimmed(self.history_context@),
        ) + self.recent_text() + self.rejected_text()
    }

    /// What is asked for, given what is typed.
    pub open spec fn instruction(&self) -> Seq<char> {
        match self.prefix {
            Some(prefix) => if prefix@.len() > 0 {
                "\nthe user has typed: "@ + quoted_text(prefix@)
                    + "\nComplete that command. `most_likely_action` must start with the typed text."@
            } else {
                nothing_typed()
            },
            None => nothing_typed(),
        }
    }

    /// What the endpoint is asked: the context, cut to size, and then the whole instruction.
    pub open spec fn question(&self) -> Seq<char> {
        text::first_chars(self.context(), MAX_CONTEXT_CHARS as int) + self.instruction()
    }
}

/// What is asked for when nothing is typed.
pub open spec fn nothing_typed() -> Seq<char> {
    "\nthe user has not typed anything yet. Suggest the single most likely next command."@
}

/// Whether a character stands for itself between quotes: it is a printable ASCII character other
/// than a double quote or a backslash.
pub open spec fn is_plain(c: char) -> bool {
    ' ' <= c <= '~' && c != '"' && c != '\\'
}

/// Whether all of a text stands for itself between quotes.
pub open spec fn is_plain_text(text: Seq<char>) -> bool {
    forall|i: int| 0 <= i < text.len() ==> is_plain(#[trigger] text[i])
}

/// The letter that stands behind a backslash for a character that has a short escape.
pub open spec fn short_escape(c: char) -> Option<char> {
    if c == '"' {
        Some('"')
    } else if c == '\\' {
        Some('\\')
    } else if c == '\n' {
        Some('n')
    } else if c == '\r' {
        Some('r')
    } else if c == '\t' {
        Some('t')
    } else if c == '\0' {
        Some('0')
    } else {
        None
    }
}

/// Whether every character of a text stands for itself between quotes or has a short escape.
pub open spec fn is_simple_text(text: Seq<char>) -> bool {
    forall|i: int|
        0 <= i < text.len() ==> is_plain(#[trigger] text[i]) || short_escape(text[i]) is Some
}

/// A text with short escapes written out.
pub open spec fn with_short_escapes(text: Seq<char>) -> Seq<char>
    decreases text.len(),
{
    if text.len() == 0 {
        text
    } else {
        with_short_escapes(text.drop_last()) + match short_escape(text.last()) {
            Some(letter) => seq!['\\', letter],
            None => seq![text.last()],
        }
    }
}

/// How `str`'s `Debug` writes a text with a character outside printable ASCII that has no short
/// escape.
pub uninterp spec fn escaped_text(text: Seq<char>) -> Seq<char>;

/// A text between quotes, with escapes where it needs them.
pub open spec fn quoted_text(text: Seq<char>) -> Seq<char> {
    if is_simple_text(text) {
        seq!['"'] + with_short_escapes(text) + seq!['"']
    } else {
        escaped_text(text)
    }
}

/// `str`'s `Debug`, through `format!`: the text between double quotes. Printable ASCII characters
/// are written as they are, but for a backslash before a double quote or a backslash; line feed,
/// carriage return, tab and NUL have their short escapes. What is written for a text with any
/// other character is a function of the text alone.
#[verifier::external_body]
fn quoted(text: &str) -> (written: String)
    ensures
        written@ == (if is_simple_text(text@) {
            seq!['"'] + with_short_escapes(text@) + seq!['"']
        } else {
            escaped_text(text@)
        }),
{
    format!("{:?}", text)
}

/// Adds a labelled line.
fn add_line(context: &mut String, label: &str, value: &str)
    ensures
        final(context)@ == old(context)@ + labelled(label@, value@),
{
    let ghost before = context@;
    context.append(label);
    context.append(value);
    context.append("\n");
    assert(context@ =~= before + labelled(label@, value@));
}

/// Adds a labelled line, where there is something to label.
fn add_line_if_given(context: &mut String, label: &str, value: &Option<String>)
    ensures
        final(context)@ == old(context)@ + labelled_if_given(label@, optional_text(*value)),
{
    match value {
        Some(value) => {
            add_line(context, label, value.as_str());
        },
        None => {
            assert(context@ + Seq::<char>::empty() =~= context@);
        },
    }
}

/// Adds a labelled line, where the value is not empty.
fn add_line_unless_empty(context: &mut String, label: &str, value: &str)
    ensures
        final(context)@ == old(context)@ + labelled_unless_empty(label@, value@),
{
    if value.is_empty() {
        assert(context@ + Seq::<char>::empty() =~= context@);
    } else {
        add_line(context, label, value);
    }
}

/// Adds what is said of the last command.
fn add_block(context: &mut String, block: &BlockContext)
    ensures
        final(context)@ == old(context)@ + block.text(),
{
    let ghost before = context@;
    add_line_if_given(context, "working directory: ", &block.pwd);
    add_line_if_given(context, "shell: ", &block.shell);
    add_line_if_given(context, "git branch: ", &block.git_branch);
    add_line(context, "last command: ", text::trim(block.command.as_str()));
    add_line(context, "exit code: ", text::integer(block.exit_code).as_str());
    let output = text::truncate(text::trim(block.output.as_str()), BLOCK_OUTPUT_CHARS);
    add_line_unless_empty(context, "last command output:\n", output);
    assert(context@ =~= before + block.text());
}

/// The terminal blocks that are sent.
fn blocks_to_send(messages: &[String]) -> (blocks: Vec<String>)
    ensures
        lists::texts(blocks@) == recent_blocks(lists::texts(messages@)),
{
    let start: usize = if messages.len() > RECENT_BLOCK_LIMIT {
        messages.len() - RECENT_BLOCK_LIMIT
    } else {
        0
    };
    let ghost trims = |message: Seq<char>| text::trimmed(message);
    let ghost filled = |message: Seq<char>| message.len() > 0;
    let ghost recent = lists::last_items(lists::texts(messages@), RECENT_BLOCK_LIMIT as int);
    let ghost given = recent.map_values(trims);
    let mut blocks: Vec<String> = Vec::new();
    let mut i: usize = start;
    proof {
        reveal(Seq::filter);
        assert(given.take(0).filter(filled) =~= Seq::empty());
        assert(lists::texts(blocks@) =~= Seq::empty());
        assert(forall|k: int|
            start <= k < messages@.len() ==> (#[trigger] messages@[k])@ == recent[k - start]);
    }
    while i < messages.len()
        invariant
            start <= i <= messages@.len(),
            recent.len() == messages@.len() - start,
            forall|k: int|
                start <= k < messages@.len() ==> (#[trigger] messages@[k])@ == recent[k - start],
            trims == (|message: Seq<char>| text::trimmed(message)),
            filled == (|message: Seq<char>| message.len() > 0),
            given == recent.map_values(trims),
            lists::texts(blocks@) == given.take(i - start).filter(filled),
        decreases messages@.len() - i,
    {
        let message = text::trim(messages[i].as_str());
        let ghost before = lists::texts(blocks@);
        if !message.is_empty() {
            blocks.push(message.to_owned());
            assert(lists::texts(blocks@) =~= before.push(message@));
        }
        proof {
            assert(messages@[i as int]@ == recent[i - start]);
            assert(given[i - start] == message@);
            assert(given.take(i + 1 - start) =~= given.take(i - start).push(message@));
            given.take(i - start).lemma_filter_push(message@, filled);
        }
        i += 1;
    }
    assert(given.take(given.len() as int) =~= given);
    blocks
}

/// What the endpoint is asked for next-command suggestions.
pub fn user_prompt(request: &GenerateAIInputSuggestionsRequest) -> (prompt: String)
    ensures
        prompt@ == request.question(),
{
    let mut context = String::new();
    if let Some(system_context) = &request.system_context {
        if !text::trim(system_context.as_str()).is_empty() {
            context.append(system_context.as_str());
            context.append("\n");
        }
    }
    assert(context@ =~= request.system_text());
    if let Some(block) = &request.block_context {
        add_block(&mut context, block);
    }
    assert(context@ =~= request.system_text() + request.block_text());
    add_line_unless_empty(
        &mut context,
        "commands run in similar past sessions:\n",
        text::trim(request.history_context.as_str()),
    );
    let ghost so_far = context@;
    let blocks = blocks_to_send(request.context_messages.as_slice());
    assert(lists::texts(blocks@).len() == blocks@.len());
    if blocks.len() > 0 {
        add_line(
            &mut context,
            "recent terminal blocks:\n",
            lists::join(blocks.as_slice(), "\n---\n").as_str(),
        );
    }
    assert(context@ =~= so_far + request.recent_text());
    if request.rejected_suggestions.len() > 0 {
        add_line(
            &mut context,
            "already rejected: ",
            lists::join(request.rejected_suggestions.as_slice(), ", ").as_str(),
        );
    }
    assert(context@ =~= request.context());
    let mut prompt = text::truncate(context.as_str(), MAX_CONTEXT_CHARS).to_owned();
    let ghost cut = prompt@;
    let typed: &str = match &request.prefix {
        Some(prefix) => prefix.as_str(),
        None => "",
    };
    proof {
        reveal_strlit("");
    }
    if !typed.is_empty() {
        prompt.append("\nthe user has typed: ");
        prompt.append(quoted(typed).as_str());
        prompt.append(
            "\nComplete that command. `most_likely_action` must start with the typed text.",
        );
    } else {
        prompt.append(
            "\nthe user has not typed anything yet. Suggest the single most likely next command.",
        );
    }
    assert(prompt@ =~= cut + request.instruction());
    prompt
}

proof fn lemma_kept_commands(terms: Terms, commands: Seq<Seq<char>>)
    ensures
        terms.kept(commands).len() <= MAX_COMMANDS,
        terms.kept(commands).no_duplicates(),
        forall|i: int|
            0 <= i < terms.kept(commands).len() ==> terms.allow(
                #[trigger] terms.kept(commands)[i],
            ) && text::trimmed(terms.kept(commands)[i]) == terms.kept(commands)[i],
        terms.kept(commands).len() == 0 ==> forall|k: int|
            0 <= k < commands.len() ==> !terms.allow(text::trimmed(#[trigger] commands[k])),
{
    let trims = |command: Seq<char>| text::trimmed(command);
    let allowed = |command: Seq<char>| terms.allow(command);
    let given = commands.map_values(trims);
    let usable = given.filter(allowed);
    let distinct = lists::without_repeats(usable);
    let kept = terms.kept(commands);
    lists::repeats_are_dropped(usable);
    assert forall|i: int| 0 <= i < kept.len() implies terms.allow(#[trigger] kept[i])
        && text::trimmed(kept[i]) == kept[i] by {
        assert(distinct[i] == kept[i]);
        assert(distinct.contains(kept[i]));
        lists::lemma_filter_contains(given, allowed, kept[i]);
        let k = choose|k: int| 0 <= k < given.len() && given[k] == kept[i];
        text::trimming_settles(commands[k]);
    }
    if kept.len() == 0 {
        assert forall|k: int| 0 <= k < commands.len() implies !terms.allow(
            text::trimmed(#[trigger] commands[k]),
        ) by {
            let command = text::trimmed(commands[k]);
            if terms.allow(command) {
                assert(given[k] == command);
                assert(given.contains(command));
                lists::lemma_filter_contains(given, allowed, command);
                assert(distinct.contains(command));
            }
        }
    }
}

/// Ranking never waits less for the endpoint than autofill, and it waits longer but for the
/// shortest ranking budget against the longest autofill wait.
pub proof fn ranking_outwaits_autofill(mode: ByoRankingMode, wait: ByoAutofillWait)
    requires
        circuit::asks_endpoint(mode),
        wait_seconds(wait) is Some,
    ensures
        circuit::ranking_seconds(mode) >= wait_seconds(wait)->0,
        mode != ByoRankingMode::Balanced || wait != ByoAutofillWait::TwentySeconds
            ==> circuit::ranking_seconds(mode) > wait_seconds(wait)->0,
{
}

/// Everything that is offered can be suggested: it is trimmed, was not rejected before, and
/// extends what is typed. Nothing is offered twice.
pub proof fn offers_meet_the_terms(
    terms: Terms,
    commands: Seq<Seq<char>>,
    most_likely: Option<Seq<char>>,
)
    ensures
        forall|i: int|
            0 <= i < terms.offered(commands, most_likely).len() ==> terms.allow(
                #[trigger] terms.offered(commands, most_likely)[i],
            ) && text::trimmed(terms.offered(commands, most_likely)[i]) == terms.offered(
                commands,
                most_likely,
            )[i],
        terms.offered(commands, most_likely).no_duplicates(),
        terms.offered(commands, most_likely).len() <= MAX_COMMANDS + 1,
{
    lemma_kept_commands(terms, commands);
    let kept = terms.kept(commands);
    if let Some(action) = most_likely {
        text::trimming_settles(action);
    }
    match terms.best(commands, most_likely) {
        Some(best) => {
            if !kept.contains(best) {
                let offered = seq![best] + kept;
                assert forall|i: int, j: int|
                    0 <= i < offered.len() && 0 <= j < offered.len() && i != j implies offered[i]
                    != offered[j] by {
                    if i > 0 {
                        assert(offered[i] == kept[i - 1]);
                        assert(kept.contains(kept[i - 1]));
                    }
                    if j > 0 {
                        assert(offered[j] == kept[j - 1]);
                        assert(kept.contains(kept[j - 1]));
                    }
                }
                assert forall|i: int| 0 < i < offered.len() implies #[trigger] offered[i]
                    == kept[i - 1] by {}
            }
        },
        None => {},
    }
}

/// The most likely action is always one of the commands offered, and can be suggested.
pub proof fn the_best_is_among_the_offers(
    terms: Terms,
    commands: Seq<Seq<char>>,
    most_likely: Option<Seq<char>>,
)
    ensures
        match terms.best(commands, most_likely) {
            Some(best) => terms.allow(best) && terms.offered(commands, most_likely).contains(best),
            None => terms.offered(commands, most_likely).len() == 0,
        },
{
    lemma_kept_commands(terms, commands);
    match terms.best(commands, most_likely) {
        Some(best) => {
            let kept = terms.kept(commands);
            if !kept.contains(best) {
                assert((seq![best] + kept)[0] == best);
            } else {
                assert(terms.offered(commands, most_likely) == kept);
            }
            if !(most_likely matches Some(action) && terms.allow(text::trimmed(action))) {
                assert(best == kept[0]);
            }
        },
        None => {},
    }
}

/// There is a suggestion exactly when something in the answer can be suggested.
pub proof fn usable_answers_give_suggestions(
    terms: Terms,
    commands: Seq<Seq<char>>,
    most_likely: Option<Seq<char>>,
)
    ensures
        terms.best(commands, most_likely) is Some <==> {
            ||| most_likely matches Some(action) && terms.allow(text::trimmed(action))
            ||| exists|k: int|
                0 <= k < commands.len() && terms.allow(text::trimmed(#[trigger] commands[k]))
        },
{
    lemma_kept_commands(terms, commands);
    let kept = terms.kept(commands);
    let allowed = |command: Seq<char>| terms.allow(command);
    let given = commands.map_values(|command: Seq<char>| text::trimmed(command));
    if kept.len() > 0 {
        let distinct = lists::without_repeats(given.filter(allowed));
        lists::repeats_are_dropped(given.filter(allowed));
        assert(distinct.contains(distinct[0]));
        lists::lemma_filter_contains(given, allowed, distinct[0]);
        let k = choose|k: int| 0 <= k < given.len() && given[k] == distinct[0];
        assert(terms.allow(text::trimmed(commands[k])));
    }
}

/// However much context there is, the prompt closes with the whole instruction and stays within
/// the context budget and the length of that instruction.
pub proof fn the_instruction_closes_the_prompt(request: GenerateAIInputSuggestionsRequest)
    ensures
        text::finishes_with(request.question(), request.instruction()),
        request.question().len() <= MAX_CONTEXT_CHARS + request.instruction().len(),
{
    let question = request.question();
    let instruction = request.instruction();
    assert(question.subrange(question.len() - instruction.len(), question.len() as int)
        =~= instruction);
}

/// Plain text is written as it is.
proof fn lemma_plain_text_has_no_escapes(text: Seq<char>)
    requires
        is_plain_text(text),
    ensures
        is_simple_text(text),
        with_short_escapes(text) == text,
    decreases text.len(),
{
    if text.len() > 0 {
        let rest = text.drop_last();
        assert forall|i: int| 0 <= i < rest.len() implies is_plain(#[trigger] rest[i]) by {
            assert(rest[i] == text[i]);
        }
        lemma_plain_text_has_no_escapes(rest);
        assert(is_plain(text[text.len() - 1]));
        assert(rest + seq![text.last()] =~= text);
    }
}

/// The prompt repeats the typed text, where that needs no escapes.
pub proof fn the_prompt_repeats_the_typed_text(request: GenerateAIInputSuggestionsRequest)
    requires
        request.prefix is Some,
        request.prefix->0@.len() > 0,
        is_plain_text(request.prefix->0@),
    ensures
        text::contains_text(request.question(), request.prefix->0@),
{
    let typed = request.prefix->0@;
    lemma_plain_text_has_no_escapes(typed);
    let lead = "\nthe user has typed: "@;
    let cut = text::first_chars(request.context(), MAX_CONTEXT_CHARS as int);
    let at = (cut.len() + lead.len() + 1) as int;
    assert(request.question().subrange(at, at + typed.len()) =~= typed);
    assert(text::stands_at(request.question(), typed, at));
}

/// A command can be suggested exactly when it is not empty, is none of the suggestions rejected
/// before, however many there are, and goes on from what is typed.
pub proof fn what_can_be_suggested(terms: Terms, command: Seq<char>)
    ensures
        terms.allow(command) <==> {
            &&& command.len() > 0
            &&& forall|k: int|
                0 <= k < terms.rejected.len() ==> #[trigger] terms.rejected[k] != command
            &&& match terms.prefix {
                Some(prefix) => exists|rest: Seq<char>| command == #[trigger] (prefix + rest),
                None => true,
            }
        },
{
    if terms.rejected.contains(command) {
        let k = choose|k: int| 0 <= k < terms.rejected.len() && terms.rejected[k] == command;
        assert(terms.rejected[k] == command);
    }
    if let Some(prefix) = terms.prefix {
        text::parts_have_surroundings(Seq::empty(), prefix, Seq::empty());
        if exists|rest: Seq<char>| command == #[trigger] (prefix + rest) {
            let rest = choose|rest: Seq<char>| command == #[trigger] (prefix + rest);
            text::parts_have_surroundings(Seq::empty(), prefix, rest);
        }
    }
}

/// The terms are those of the request: what is typed, and every suggestion rejected before.
pub proof fn the_terms_are_those_given(prefix: Option<&str>, rejected: Seq<String>, i: int)
    ensures
        terms(prefix, rejected).rejected.len() == rejected.len(),
        0 <= i < rejected.len() ==> terms(prefix, rejected).rejected[i] == rejected[i]@,
        match prefix {
            Some(prefix_text) => terms(prefix, rejected).prefix == Some(prefix_text@),
            None => terms(prefix, rejected).prefix is None,
        },
{
}

/// The endpoint's own best pick is offered first wherever it can be suggested, whether or not it
/// is among the commands.
pub proof fn the_best_pick_is_kept(terms: Terms, commands: Seq<Seq<char>>, action: Seq<char>)
    requires
        terms.allow(text::trimmed(action)),
    ensures
        terms.best(commands, Some(action)) == Some(text::trimmed(action)),
{
}

/// Only where the best pick is missing or cannot be suggested, the first command that can be
/// stands in for it.
pub proof fn the_first_usable_command_stands_in(
    terms: Terms,
    commands: Seq<Seq<char>>,
    most_likely: Option<Seq<char>>,
    at: int,
)
    requires
        most_likely matches Some(action) ==> !terms.allow(text::trimmed(action)),
        0 <= at <= commands.len(),
        forall|k: int| 0 <= k < at ==> !terms.allow(text::trimmed(#[trigger] commands[k])),
        at < commands.len() ==> terms.allow(text::trimmed(commands[at])),
    ensures
        terms.best(commands, most_likely) == (if at < commands.len() {
            Some(text::trimmed(commands[at]))
        } else {
            None
        }),
{
    let trims = |command: Seq<char>| text::trimmed(command);
    let allowed = |command: Seq<char>| terms.allow(command);
    let given = commands.map_values(trims);
    let passing = given.filter(allowed);
    let distinct = lists::without_repeats(passing);
    assert forall|k: int| 0 <= k < at implies !allowed(#[trigger] given[k]) by {
        assert(given[k] == text::trimmed(commands[k]));
    }
    lemma_first_that_passes(given, allowed, at);
    lists::repeats_are_dropped(passing);
    if at < commands.len() {
        lists::leading_items_lead(passing.take(1), passing.skip(1));
        assert(passing.take(1) + passing.skip(1) =~= passing);
        let first = passing.take(1);
        assert(first.drop_last() =~= Seq::empty());
        assert(lists::without_repeats(first.drop_last()) =~= Seq::empty());
        assert(lists::without_repeats(first) =~= first);
        assert(distinct[0] == passing[0]);
    } else {
        assert(distinct.len() == 0);
    }
}

proof fn lemma_first_that_passes<A>(list: Seq<A>, pass: spec_fn(A) -> bool, at: int)
    requires
        0 <= at <= list.len(),
        forall|k: int| 0 <= k < at ==> !pass(#[trigger] list[k]),
        at < list.len() ==> pass(list[at]),
    ensures
        at == list.len() ==> list.filter(pass).len() == 0,
        at < list.len() ==> list.filter(pass).len() > 0 && list.filter(pass)[0] == list[at],
    decreases list.len(),
{
    reveal(Seq::filter);
    if list.len() > 0 {
        let rest = list.drop_last();
        let upto = if at < rest.len() {
            at
        } else {
            rest.len() as int
        };
        assert forall|k: int| 0 <= k < upto implies !pass(#[trigger] rest[k]) by {
            assert(list[k] == rest[k]);
        }
        lemma_first_that_passes(rest, pass, upto);
        if at == list.len() {
            assert(!pass(list[list.len() - 1]));
        }
    }
}

/// Of the commands, those that can be suggested are kept, trimmed, each once, in the order in
/// which the answer gives them: all of them, or the first three where there are more.
pub proof fn the_first_commands_are_kept(terms: Terms, commands: Seq<Seq<char>>)
    ensures
        terms.kept(commands).no_duplicates(),
        terms.kept(commands).len() <= 3,
        forall|command: Seq<char>| #[trigger]
            terms.kept(commands).contains(command) ==> terms.allow(command) && exists|k: int|
                0 <= k < commands.len() && text::trimmed(#[trigger] commands[k]) == command,
        forall|k: int|
            0 <= k < commands.len() && terms.allow(text::trimmed(#[trigger] commands[k]))
                ==> terms.kept(commands).contains(text::trimmed(commands[k])) || terms.kept(
                commands,
            ).len() == 3,
{
    let trims = |command: Seq<char>| text::trimmed(command);
    let allowed = |command: Seq<char>| terms.allow(command);
    let given = commands.map_values(trims);
    let passing = given.filter(allowed);
    let distinct = lists::without_repeats(passing);
    let kept = terms.kept(commands);
    lists::repeats_are_dropped(passing);
    assert forall|command: Seq<char>| #[trigger] kept.contains(command) implies terms.allow(
        command,
    ) && exists|k: int|
        0 <= k < commands.len() && text::trimmed(#[trigger] commands[k]) == command by {
        let i = choose|i: int| 0 <= i < kept.len() && kept[i] == command;
        assert(distinct[i] == command);
        assert(distinct.contains(command));
        lists::lemma_filter_contains(given, allowed, command);
        let k = choose|k: int| 0 <= k < given.len() && given[k] == command;
        assert(text::trimmed(commands[k]) == command);
    }
    assert forall|k: int|
        0 <= k < commands.len() && terms.allow(
            text::trimmed(#[trigger] commands[k]),
        ) implies kept.contains(text::trimmed(commands[k])) || kept.len() == 3 by {
        let command = text::trimmed(commands[k]);
        assert(given[k] == command);
        assert(given.contains(command));
        lists::lemma_filter_contains(given, allowed, command);
        assert(distinct.contains(command));
    }
}

/// Whether `at` is where the commands first give `command`, up to white space around it.
pub open spec fn is_first_given_at(
    commands: Seq<Seq<char>>,
    command: Seq<char>,
    at: int,
) -> bool {
    &&& 0 <= at < commands.len()
    &&& text::trimmed(commands[at]) == command
    &&& forall|k: int| 0 <= k < at ==> text::trimmed(#[trigger] commands[k]) != command
}

/// The commands that are kept stand in the order in which the answer first gives them.
pub proof fn kept_commands_keep_their_order(
    terms: Terms,
    commands: Seq<Seq<char>>,
    i: int,
    j: int,
    a: int,
    b: int,
)
    requires
        0 <= i < j < terms.kept(commands).len(),
        is_first_given_at(commands, terms.kept(commands)[i], a),
        is_first_given_at(commands, terms.kept(commands)[j], b),
    ensures
        a < b,
{
    let trims = |command: Seq<char>| text::trimmed(command);
    let allowed = |command: Seq<char>| terms.allow(command);
    let given = commands.map_values(trims);
    let kept = terms.kept(commands);
    let distinct = lists::without_repeats(given.filter(allowed));
    lists::first_occurrences_keep_their_order(given, allowed);
    assert(kept[i] == distinct[i] && kept[j] == distinct[j]);
    assert(lists::occurs_first(given, distinct[i], a)) by {
        assert forall|k: int| 0 <= k < a implies #[trigger] given[k] != distinct[i] by {
            assert(text::trimmed(commands[k]) != kept[i]);
        }
    }
    assert(lists::occurs_first(given, distinct[j], b)) by {
        assert forall|k: int| 0 <= k < b implies #[trigger] given[k] != distinct[j] by {
            assert(text::trimmed(commands[k]) != kept[j]);
        }
    }
}

/// A command that can be suggested and was left out comes behind every command that was kept.
pub proof fn later_commands_are_left_out(
    terms: Terms,
    commands: Seq<Seq<char>>,
    i: int,
    a: int,
    b: int,
)
    requires
        0 <= i < terms.kept(commands).len(),
        0 <= b < commands.len(),
        terms.allow(text::trimmed(commands[b])),
        !terms.kept(commands).contains(text::trimmed(commands[b])),
        is_first_given_at(commands, terms.kept(commands)[i], a),
    ensures
        a < b,
{
    let trims = |command: Seq<char>| text::trimmed(command);
    let allowed = |command: Seq<char>| terms.allow(command);
    let given = commands.map_values(trims);
    let kept = terms.kept(commands);
    let passing = given.filter(allowed);
    let distinct = lists::without_repeats(passing);
    let command = text::trimmed(commands[b]);
    assert(given[b] == command);
    assert(given.contains(command));
    lists::lemma_filter_contains(given, allowed, command);
    lists::repeats_are_dropped(passing);
    assert(distinct.contains(command));
    let j = choose|j: int| 0 <= j < distinct.len() && distinct[j] == command;
    assert(i < j) by {
        if j < kept.len() {
            assert(kept[j] == command);
        }
    }
    lists::first_occurrences_keep_their_order(given, allowed);
    let first = lemma_first_given(commands, command, b);
    assert(lists::occurs_first(given, distinct[i], a)) by {
        assert forall|k: int| 0 <= k < a implies #[trigger] given[k] != distinct[i] by {
            assert(text::trimmed(commands[k]) != kept[i]);
        }
    }
    assert(lists::occurs_first(given, distinct[j], first)) by {
        assert forall|k: int| 0 <= k < first implies #[trigger] given[k] != distinct[j] by {
            assert(text::trimmed(commands[k]) != command);
        }
    }
}

proof fn lemma_first_given(commands: Seq<Seq<char>>, command: Seq<char>, at: int) -> (first: int)
    requires
        0 <= at < commands.len(),
        text::trimmed(commands[at]) == command,
    ensures
        first <= at,
        is_first_given_at(commands, command, first),
    decreases at,
{
    if exists|k: int| 0 <= k < at && text::trimmed(#[trigger] commands[k]) == command {
        let k = choose|k: int| 0 <= k < at && text::trimmed(#[trigger] commands[k]) == command;
        lemma_first_given(commands, command, k)
    } else {
        at
    }
}

/// The commands that are kept are offered, with the best one put before them where it is not
/// among them.
pub proof fn the_best_leads_where_it_is_not_listed(
    terms: Terms,
    commands: Seq<Seq<char>>,
    most_likely: Option<Seq<char>>,
    best: Seq<char>,
)
    requires
        terms.best(commands, most_likely) == Some(best),
    ensures
        terms.kept(commands).contains(best) ==> terms.offered(commands, most_likely) == terms.kept(
            commands,
        ),
        !terms.kept(commands).contains(best) ==> terms.offered(commands, most_likely)[0] == best
            && terms.offered(commands, most_likely).drop_first() == terms.kept(commands),
{
    if !terms.kept(commands).contains(best) {
        assert((seq![best] + terms.kept(commands)).drop_first() =~= terms.kept(commands));
    }
}

/// An answer gives suggestions exactly when there is a best one: that one, and the commands that
/// are offered.
pub proof fn answers_give_the_best_and_the_offers(
    outcome: Result<GenerateAIInputSuggestionsResponseV2, SuggestionError>,
    answer: RawSuggestions,
    terms: Terms,
)
    requires
        answers(outcome, answer, terms),
    ensures
        ({
            let commands = Seq::new(answer.commands@.len(), |i: int| answer.commands@[i]@);
            let most_likely = match answer.most_likely_action {
                Some(action) => Some(action@),
                None => None,
            };
            match outcome {
                Ok(response) => {
                    &&& terms.best(commands, most_likely) == Some(response.most_likely_action@)
                    &&& Seq::new(response.commands@.len(), |i: int| response.commands@[i]@)
                        == terms.offered(commands, most_likely)
                    &&& response.ai_queries@.len() == 0
                },
                Err(error) => error is NoUsableSuggestion && terms.best(
                    commands,
                    most_likely,
                ) is None,
            }
        }),
{
    let commands = Seq::new(answer.commands@.len(), |i: int| answer.commands@[i]@);
    assert(commands =~= lists::texts(answer.commands@));
    if let Ok(response) = outcome {
        assert(Seq::new(response.commands@.len(), |i: int| response.commands@[i]@)
            =~= lists::texts(response.commands@));
    }
}

/// A line that reports a value under a label, where there is a value.
pub open spec fn reported(label: Seq<char>, value: Option<String>) -> Seq<char> {
    match value {
        Some(value) => label + value@ + seq!['\n'],
        None => Seq::empty(),
    }
}

/// The last command is told line by line: where it ran, the command itself, trimmed, its exit code
/// as a decimal number, and the first four hundred characters of its trimmed output, or all of it
/// when it is shorter.
pub proof fn the_last_command_is_told_line_by_line(
    block: BlockContext,
    head: Seq<char>,
    tail: Seq<char>,
)
    requires
        text::trimmed(block.output@) == head + tail,
        tail.len() == 0 || head.len() == 400,
        head.len() <= 400,
    ensures
        block.text() == reported("working directory: "@, block.pwd) + reported(
            "shell: "@,
            block.shell,
        ) + reported("git branch: "@, block.git_branch) + ("last command: "@ + text::trimmed(
            block.command@,
        ) + seq!['\n'] + "exit code: "@ + text::integer_text(block.exit_code as int) + seq!['\n'])
            + (if head.len() > 0 {
            "last command output:\n"@ + head + seq!['\n']
        } else {
            Seq::empty()
        }),
{
    reveal_strlit("\n");
    assert("\n"@ =~= seq!['\n']);
    text::cutting_gives_the_beginning(head, tail, 400);
    if tail.len() == 0 {
        assert(head + tail =~= head);
    }
    let place = reported("working directory: "@, block.pwd) + reported("shell: "@, block.shell)
        + reported("git branch: "@, block.git_branch);
    let command = "last command: "@ + text::trimmed(block.command@) + seq!['\n'];
    let code = "exit code: "@ + text::integer_text(block.exit_code as int) + seq!['\n'];
    assert(command + code =~= "last command: "@ + text::trimmed(block.command@) + seq!['\n']
        + "exit code: "@ + text::integer_text(block.exit_code as int) + seq!['\n']);
    assert(place + command + code =~= place + (command + code));
}

/// How a text splits at a length.
proof fn lemma_split(text: Seq<char>, max: int) -> (parts: (Seq<char>, Seq<char>))
    requires
        max >= 0,
    ensures
        text == parts.0 + parts.1,
        parts.1.len() == 0 || parts.0.len() == max,
        parts.0.len() <= max,
{
    if text.len() <= max {
        assert(text =~= text + Seq::empty());
        (text, Seq::empty())
    } else {
        assert(text =~= text.take(max) + text.skip(max));
        (text.take(max), text.skip(max))
    }
}

/// The context holds, in this order and nothing else: the system's description as it is given,
/// the last command, the trimmed history, the recent blocks and every suggestion rejected before.
/// What is blank or missing is left out.
pub proof fn the_context_holds_every_section(request: GenerateAIInputSuggestionsRequest)
    ensures
        request.context() == (match request.system_context {
            Some(system) => if text::is_blank_text(system@) {
                Seq::empty()
            } else {
                system@ + seq!['\n']
            },
            None => Seq::empty(),
        }) + (match request.block_context {
            Some(block) => block.text(),
            None => Seq::empty(),
        }) + (if text::is_blank_text(request.history_context@) {
            Seq::empty()
        } else {
            "commands run in similar past sessions:\n"@ + text::trimmed(request.history_context@)
                + seq!['\n']
        }) + (if recent_blocks(lists::texts(request.context_messages@)).len() == 0 {
            Seq::empty()
        } else {
            "recent terminal blocks:\n"@ + lists::joined(
                recent_blocks(lists::texts(request.context_messages@)),
                "\n---\n"@,
            ) + seq!['\n']
        }) + (if request.rejected_suggestions@.len() == 0 {
            Seq::empty()
        } else {
            "already rejected: "@ + lists::joined(
                lists::texts(request.rejected_suggestions@),
                ", "@,
            ) + seq!['\n']
        }),
{
    reveal_strlit("\n");
    assert("\n"@ =~= seq!['\n']);
    text::trimming_empties_blank_text(request.history_context@);
    if let Some(system) = request.system_context {
        text::trimming_empties_blank_text(system@);
    }
}

/// Of the messages, the last two are sent, trimmed, unless they are blank, in their order.
pub proof fn the_last_two_blocks_are_recent(
    earlier: Seq<Seq<char>>,
    before_last: Seq<char>,
    last: Seq<char>,
)
    ensures
        recent_blocks(earlier + seq![before_last, last]) == (if text::is_blank_text(before_last) {
            Seq::empty()
        } else {
            seq![text::trimmed(before_last)]
        }) + (if text::is_blank_text(last) {
            Seq::empty()
        } else {
            seq![text::trimmed(last)]
        }),
        recent_blocks(seq![last]) == (if text::is_blank_text(last) {
            Seq::empty()
        } else {
            seq![text::trimmed(last)]
        }),
        recent_blocks(Seq::empty()).len() == 0,
{
    reveal(Seq::filter);
    let trims = |message: Seq<char>| text::trimmed(message);
    let stays = |message: Seq<char>| message.len() > 0;
    let two = seq![before_last, last];
    let one = seq![last];
    let none = Seq::<Seq<char>>::empty();
    text::trimming_empties_blank_text(before_last);
    text::trimming_empties_blank_text(last);
    lists::cutting_a_list_gives_its_ends(earlier, two, earlier.len() as int);
    assert(two.map_values(trims) =~= seq![trims(before_last), trims(last)]);
    assert(two.map_values(trims).drop_last() =~= seq![trims(before_last)]);
    assert(one.map_values(trims) =~= seq![trims(last)]);
    assert(seq![trims(before_last)].drop_last() =~= none);
    assert(seq![trims(last)].drop_last() =~= none);
    assert(none.filter(stays) =~= none);
    assert(none.map_values(trims) =~= none);
    assert(seq![trims(before_last)].filter(stays) =~= (if text::is_blank_text(before_last) {
        none
    } else {
        seq![trims(before_last)]
    }));
    assert(seq![trims(last)].filter(stays) =~= (if text::is_blank_text(last) {
        none
    } else {
        seq![trims(last)]
    }));
    assert(recent_blocks(earlier + two) =~= seq![trims(before_last)].filter(stays) + (
    if text::is_blank_text(last) {
        none
    } else {
        seq![trims(last)]
    }));
}

/// The prompt is the first two thousand and five hundred characters of the context, or all of it
/// when it is shorter, and then the whole instruction.
pub proof fn the_prompt_is_context_and_instruction(
    request: GenerateAIInputSuggestionsRequest,
    head: Seq<char>,
    tail: Seq<char>,
)
    requires
        request.context() == head + tail,
        tail.len() == 0 || head.len() == 2_500,
        head.len() <= 2_500,
    ensures
        request.question() == head + request.instruction(),
{
    text::cutting_gives_the_beginning(head, tail, 2_500);
    if tail.len() == 0 {
        assert(head + tail =~= head);
    }
}

/// The instruction quotes what is typed, and asks for a command out of nothing where nothing is.
pub proof fn the_instruction_goes_by_what_is_typed(request: GenerateAIInputSuggestionsRequest)
    ensures
        match request.prefix {
            Some(prefix) => if prefix@.len() > 0 {
                request.instruction() == "\nthe user has typed: "@ + quoted_text(prefix@)
                    + "\nComplete that command. `most_likely_action` must start with the typed text."@
            } else {
                request.instruction()
                    == "\nthe user has not typed anything yet. Suggest the single most likely next command."@
            },
            None => request.instruction()
                == "\nthe user has not typed anything yet. Suggest the single most likely next command."@,
        },
{
}

/// Text that can be written with short escapes is quoted character by character: a backslash comes
/// before a double quote, a backslash and the letter of a short escape, and before nothing else.
pub proof fn quoting_goes_character_by_character(text: Seq<char>, c: char)
    requires
        is_simple_text(text.push(c)),
    ensures
        ({
            let inner = quoted_text(text).subrange(1, quoted_text(text).len() - 1);
            let written = if c == '"' || c == '\\' {
                seq!['\\', c]
            } else if c == '\n' {
                seq!['\\', 'n']
            } else if c == '\r' {
                seq!['\\', 'r']
            } else if c == '\t' {
                seq!['\\', 't']
            } else if c == '\0' {
                seq!['\\', '0']
            } else {
                seq![c]
            };
            &&& is_simple_text(text)
            &&& quoted_text(text.push(c)) == seq!['"'] + inner + written + seq!['"']
        }),
        quoted_text(Seq::empty()) == seq!['"', '"'],
{
    let longer = text.push(c);
    assert(longer.drop_last() =~= text);
    assert forall|i: int| 0 <= i < text.len() implies is_plain(#[trigger] text[i]) || short_escape(
        text[i],
    ) is Some by {
        assert(longer[i] == text[i]);
    }
    assert(longer[text.len() as int] == c);
    let quoted = quoted_text(text);
    assert(quoted.subrange(1, quoted.len() - 1) =~= with_short_escapes(text));
    let written = match short_escape(c) {
        Some(letter) => seq!['\\', letter],
        None => seq![c],
    };
    assert(with_short_escapes(longer) == with_short_escapes(text) + written);
    assert(quoted_text(longer) =~= seq!['"'] + with_short_escapes(text) + written + seq!['"']);
    assert(quoted_text(Seq::empty()) =~= seq!['"', '"']);
}

/// As long as the context fits its budget, the prompt reports the last command and its exit code.
pub proof fn the_prompt_reports_the_exit_code(
    request: GenerateAIInputSuggestionsRequest,
    block: BlockContext,
)
    requires
        request.block_context == Some(block),
        request.context().len() <= 2_500,
    ensures
        text::contains_text(
            request.question(),
            "last command: "@ + text::trimmed(block.command@) + seq!['\n'] + "exit code: "@
                + text::integer_text(block.exit_code as int) + seq!['\n'],
        ),
{
    let lines = "last command: "@ + text::trimmed(block.command@) + seq!['\n'] + "exit code: "@
        + text::integer_text(block.exit_code as int) + seq!['\n'];
    let (before, after) = lemma_around_the_exit_code(request, block);
    text::parts_have_surroundings(before, lines, after);
}

/// What stands before and behind the lines on the last command and its exit code: it does not
/// depend on the exit code.
spec fn around_the_exit_code(
    request: GenerateAIInputSuggestionsRequest,
    block: BlockContext,
) -> (Seq<char>, Seq<char>) {
    let place = reported("working directory: "@, block.pwd) + reported("shell: "@, block.shell)
        + reported("git branch: "@, block.git_branch);
    let output = labelled_unless_empty(
        "last command output:\n"@,
        text::first_chars(text::trimmed(block.output@), BLOCK_OUTPUT_CHARS as int),
    );
    let rest = labelled_unless_empty(
        "commands run in similar past sessions:\n"@,
        text::trimmed(request.history_context@),
    ) + request.recent_text() + request.rejected_text();
    (request.system_text() + place, output + rest + request.instruction())
}

proof fn lemma_around_the_exit_code(
    request: GenerateAIInputSuggestionsRequest,
    block: BlockContext,
) -> (around: (Seq<char>, Seq<char>))
    requires
        request.block_context == Some(block),
        request.context().len() <= 2_500,
    ensures
        around == around_the_exit_code(request, block),
        request.question() == around.0 + ("last command: "@ + text::trimmed(block.command@) + seq![
            '\n',
        ] + "exit code: "@ + text::integer_text(block.exit_code as int) + seq!['\n']) + around.1,
{
    reveal_strlit("\n");
    assert("\n"@ =~= seq!['\n']);
    let (head, tail) = lemma_split(text::trimmed(block.output@), 400);
    the_last_command_is_told_line_by_line(block, head, tail);
    text::cutting_gives_the_beginning(head, tail, 400);
    if tail.len() == 0 {
        assert(head + tail =~= head);
    }
    assert(request.context() + Seq::empty() =~= request.context());
    the_prompt_is_context_and_instruction(request, request.context(), Seq::empty());
    let place = reported("working directory: "@, block.pwd) + reported("shell: "@, block.shell)
        + reported("git branch: "@, block.git_branch);
    let output = labelled_unless_empty(
        "last command output:\n"@,
        text::first_chars(text::trimmed(block.output@), BLOCK_OUTPUT_CHARS as int),
    );
    let lines = "last command: "@ + text::trimmed(block.command@) + seq!['\n'] + "exit code: "@
        + text::integer_text(block.exit_code as int) + seq!['\n'];
    let history = labelled_unless_empty(
        "commands run in similar past sessions:\n"@,
        text::trimmed(request.history_context@),
    );
    assert(request.block_text() == place + lines + output);
    lemma_regroup(
        request.system_text(),
        place,
        lines,
        output,
        history,
        request.recent_text(),
        request.rejected_text(),
        request.instruction(),
    );
    around_the_exit_code(request, block)
}

proof fn lemma_regroup(
    system: Seq<char>,
    place: Seq<char>,
    lines: Seq<char>,
    output: Seq<char>,
    history: Seq<char>,
    recent: Seq<char>,
    rejected: Seq<char>,
    instruction: Seq<char>,
)
    ensures
        system + (place + lines + output) + history + recent + rejected + instruction == (system
            + place) + lines + (output + (history + recent + rejected) + instruction),
{
    let rest = history + recent + rejected;
    assert(system + (place + lines + output) =~= system + place + lines + output);
    assert(system + place + lines + output + history + recent + rejected =~= system + place + lines
        + output + rest);
    assert(system + place + lines + output + rest + instruction =~= (system + place) + lines + (
    output + rest + instruction));
}

/// Between the same surroundings, the same text stands.
proof fn lemma_same_between(
    before: Seq<char>,
    lead: Seq<char>,
    code: Seq<char>,
    other: Seq<char>,
    end: Seq<char>,
    after: Seq<char>,
)
    requires
        before + (lead + code + end) + after == before + (lead + other + end) + after,
    ensures
        code == other,
{
    let left = before + (lead + code + end) + after;
    let right = before + (lead + other + end) + after;
    assert(left.len() == before.len() + lead.len() + code.len() + end.len() + after.len());
    assert(right.len() == before.len() + lead.len() + other.len() + end.len() + after.len());
    let at = (before.len() + lead.len()) as int;
    assert(left.subrange(at, at + code.len()) =~= code);
    assert(right.subrange(at, at + other.len()) =~= other);
}

/// Prompts tell exit codes apart: of two requests that differ only in the exit code of the last
/// command, and whose contexts fit the budget, the prompts differ.
pub proof fn exit_codes_are_told_apart(
    request: GenerateAIInputSuggestionsRequest,
    block: BlockContext,
    exit_code: i32,
)
    requires
        request.block_context == Some(block),
        request.context().len() <= 2_500,
        (GenerateAIInputSuggestionsRequest {
            block_context: Some(BlockContext { exit_code, ..block }),
            ..request
        }).context().len() <= 2_500,
        exit_code != block.exit_code,
    ensures
        request.question() != (GenerateAIInputSuggestionsRequest {
            block_context: Some(BlockContext { exit_code, ..block }),
            ..request
        }).question(),
{
    let other_block = BlockContext { exit_code, ..block };
    let other = GenerateAIInputSuggestionsRequest { block_context: Some(other_block), ..request };
    let (before, after) = lemma_around_the_exit_code(request, block);
    let (_, _) = lemma_around_the_exit_code(other, other_block);
    assert(around_the_exit_code(other, other_block) == (before, after));
    let lead = "last command: "@ + text::trimmed(block.command@) + seq!['\n'] + "exit code: "@;
    let code = text::integer_text(block.exit_code as int);
    let other_code = text::integer_text(exit_code as int);
    text::numbers_are_told_apart(block.exit_code as int, exit_code as int);
    if request.question() == other.question() {
        lemma_same_between(before, lead, code, other_code, seq!['\n'], after);
    }
}

/// The task tells the endpoint as many commands as are kept, and its answer is budgeted.
pub proof fn the_task_names_the_limit()
    ensures
        text::contains_text(
            SYSTEM_PROMPT@,
            "At most "@ + text::integer_text(MAX_COMMANDS as int) + " commands"@,
        ),
        MAX_TOKENS == 200,
{
    reveal_strlit("At most ");
    reveal_strlit(" commands");
    reveal_strlit("You predict the next shell command a developer will run in an interactive terminal session.\nReply with one JSON object and nothing else:\n{\"commands\": [\"<command>\", ...], \"most_likely_action\": \"<command>\"}\nRules:\n- At most 3 commands, most likely first; `most_likely_action` is the single best one.\n- Every command is a single line, directly runnable in the user's shell, and does not wrap.\n- When a typed prefix is given, `most_likely_action` and every command must start with it verbatim.\n- Ground suggestions in the working directory, shell, git branch, recent commands and their output.\n- Never suggest a command listed as already rejected.\n- Answer immediately with the JSON; no explanations, no markdown, no extra keys.");
    reveal_with_fuel(text::decimal_digits, 2);
    let named = "At most "@ + text::integer_text(MAX_COMMANDS as int) + " commands"@;
    assert(text::integer_text(3) =~= seq!['3']);
    assert(SYSTEM_PROMPT@.subrange(214, 232) =~= named);
    assert(text::stands_at(SYSTEM_PROMPT@, named, 214));
}

} // verus!
