//! JSON documents, as far as requests and replies need them.

use crate::json_grammar;
use crate::text;
use vstd::prelude::*;

verus! {

/// A JSON value. A number is kept as text: what `serde_json` writes for the number it read.
#[derive(Debug)]
pub enum Json {
    Null,
    Bool(bool),
    Number(String),
    Text(String),
    List(Vec<Json>),
    Object(Vec<(String, Json)>),
}

/// What a [`Json`] value says.
pub enum JsonView {
    Null,
    Bool(bool),
    Number(Seq<char>),
    Text(Seq<char>),
    List(Seq<JsonView>),
    Object(Seq<(Seq<char>, JsonView)>),
}

impl JsonView {
    /// The value of the first member named `name`; null where there is none.
    pub open spec fn member(self, name: Seq<char>) -> JsonView {
        match self {
            JsonView::Object(members) => member_named(members, name),
            _ => JsonView::Null,
        }
    }

    /// The item at `index` of a list; null where there is none.
    pub open spec fn item(self, index: int) -> JsonView {
        match self {
            JsonView::List(items) => if 0 <= index < items.len() {
                items[index]
            } else {
                JsonView::Null
            },
            _ => JsonView::Null,
        }
    }

    /// What a string spells.
    pub open spec fn as_text(self) -> Option<Seq<char>> {
        match self {
            JsonView::Text(text) => Some(text),
            _ => None,
        }
    }

    /// The items of a list.
    pub open spec fn as_list(self) -> Option<Seq<JsonView>> {
        match self {
            JsonView::List(items) => Some(items),
            _ => None,
        }
    }
}

/// The value of the first member named `name`; null where there is none.
pub open spec fn member_named(members: Seq<(Seq<char>, JsonView)>, name: Seq<char>) -> JsonView
    decreases members.len(),
{
    if members.len() == 0 {
        JsonView::Null
    } else if members[0].0 == name {
        members[0].1
    } else {
        member_named(members.drop_first(), name)
    }
}

impl Json {
    pub open spec fn view(&self) -> JsonView
        decreases self,
    {
        match *self {
            Json::Null => JsonView::Null,
            Json::Bool(flag) => JsonView::Bool(flag),
            Json::Number(digits) => JsonView::Number(digits@),
            Json::Text(text) => JsonView::Text(text@),
            Json::List(items) => JsonView::List(items_view(items@)),
            Json::Object(members) => JsonView::Object(members_view(members@)),
        }
    }
}

/// What a list's items say.
pub open spec fn items_view(items: Seq<Json>) -> Seq<JsonView>
    decreases items,
{
    if items.len() == 0 {
        Seq::empty()
    } else {
        items_view(items.drop_last()).push(items.last().view())
    }
}

/// What an object's members say.
pub open spec fn members_view(members: Seq<(String, Json)>) -> Seq<(Seq<char>, JsonView)>
    decreases members,
{
    if members.len() == 0 {
        Seq::empty()
    } else {
        members_view(members.drop_last()).push((members.last().0@, members.last().1.view()))
    }
}

pub proof fn lemma_items_view(items: Seq<Json>)
    ensures
        items_view(items).len() == items.len(),
        forall|i: int| 0 <= i < items.len() ==> #[trigger] items_view(items)[i] == items[i].view(),
    decreases items.len(),
{
    if items.len() > 0 {
        lemma_items_view(items.drop_last());
    }
}

pub proof fn lemma_members_view(members: Seq<(String, Json)>)
    ensures
        members_view(members).len() == members.len(),
        forall|i: int|
            0 <= i < members.len() ==> #[trigger] members_view(members)[i] == (
                members[i].0@,
                members[i].1.view(),
            ),
    decreases members.len(),
{
    if members.len() > 0 {
        lemma_members_view(members.drop_last());
    }
}

/// The first member of the given name is the one at `at`, where none before it has that name.
proof fn lemma_member_at(members: Seq<(Seq<char>, JsonView)>, name: Seq<char>, at: int)
    requires
        0 <= at <= members.len(),
        forall|i: int| 0 <= i < at ==> (#[trigger] members[i]).0 != name,
    ensures
        at == members.len() ==> member_named(members, name) == JsonView::Null,
        at < members.len() && members[at].0 == name ==> member_named(members, name)
            == members[at].1,
    decreases at,
{
    if at > 0 {
        assert(members[0].0 != name);
        let rest = members.drop_first();
        assert forall|i: int| 0 <= i < at - 1 implies (#[trigger] rest[i]).0 != name by {
            assert(rest[i] == members[i + 1]);
        }
        lemma_member_at(rest, name, at - 1);
    }
}

impl Json {
    /// The value of the first member named `name`; null where there is none.
    pub fn member<'a>(&'a self, name: &str) -> (value: &'a Json)
        ensures
            value@ == self@.member(name@),
    {
        match self {
            Json::Object(members) => {
                proof {
                    lemma_members_view(members@);
                }
                let mut i: usize = 0;
                while i < members.len()
                    invariant
                        i <= members@.len(),
                        self@ == JsonView::Object(members_view(members@)),
                        members_view(members@).len() == members@.len(),
                        forall|k: int|
                            0 <= k < members@.len() ==> #[trigger] members_view(members@)[k] == (
                                members@[k].0@,
                                members@[k].1.view(),
                            ),
                        forall|k: int|
                            0 <= k < i ==> (#[trigger] members_view(members@)[k]).0 != name@,
                    decreases members@.len() - i,
                {
                    if text::same_text(members[i].0.as_str(), name) {
                        proof {
                            lemma_member_at(members_view(members@), name@, i as int);
                        }
                        return &members[i].1;
                    }
                    i += 1;
                }
                proof {
                    lemma_member_at(members_view(members@), name@, i as int);
                }
                &Json::Null
            },
            _ => &Json::Null,
        }
    }

    /// The item at `index` of a list; null where there is none.
    pub fn item<'a>(&'a self, index: usize) -> (value: &'a Json)
        ensures
            value@ == self@.item(index as int),
    {
        match self {
            Json::List(items) => {
                proof {
                    lemma_items_view(items@);
                }
                if index < items.len() {
                    &items[index]
                } else {
                    &Json::Null
                }
            },
            _ => &Json::Null,
        }
    }

    /// What a string spells.
    pub fn as_text<'a>(&'a self) -> (text: Option<&'a str>)
        ensures
            match text {
                Some(text) => self@.as_text() == Some(text@),
                None => self@.as_text() is None,
            },
    {
        match self {
            Json::Text(text) => Some(text.as_str()),
            _ => None,
        }
    }

    /// The items of a list.
    pub fn as_list<'a>(&'a self) -> (items: Option<&'a Vec<Json>>)
        ensures
            match items {
                Some(items) => self@.as_list() == Some(items_view(items@)),
                None => self@.as_list() is None,
            },
    {
        match self {
            Json::List(items) => Some(items),
            _ => None,
        }
    }
}

/// Of members with the same name the first one counts; where none has the name, the value is null.
pub proof fn the_first_member_counts(
    members: Seq<(Seq<char>, JsonView)>,
    name: Seq<char>,
    at: int,
)
    requires
        0 <= at <= members.len(),
        forall|i: int| 0 <= i < at ==> (#[trigger] members[i]).0 != name,
        at < members.len() ==> members[at].0 == name,
    ensures
        JsonView::Object(members).member(name) == (if at < members.len() {
            members[at].1
        } else {
            JsonView::Null
        }),
{
    lemma_member_at(members, name, at);
}

/// A list's items are found by their places, and nothing has members or items that is no object
/// or no list.
pub proof fn items_are_found_by_their_places(items: Seq<JsonView>, index: int, name: Seq<char>)
    ensures
        JsonView::List(items).item(index) == (if 0 <= index < items.len() {
            items[index]
        } else {
            JsonView::Null
        }),
        JsonView::List(items).member(name) is Null,
        JsonView::List(items).as_list() == Some(items),
        JsonView::List(items).as_text() is None,
        JsonView::Text(name).as_text() == Some(name),
        JsonView::Text(name).as_list() is None,
        JsonView::Text(name).item(index) is Null,
        JsonView::Text(name).member(name) is Null,
        JsonView::Object(Seq::empty()).item(index) is Null,
{
}

/// `members` with one more at the end.
pub fn with_member(members: Vec<(String, Json)>, name: &str, value: Json) -> (all: Vec<
    (String, Json),
>)
    ensures
        members_view(all@) == members_view(members@).push((name@, value@)),
{
    let mut all = members;
    all.push((name.to_owned(), value));
    assert(all@.drop_last() =~= members@);
    all
}

/// `items` with one more at the end.
pub fn with_item(items: Vec<Json>, item: Json) -> (all: Vec<Json>)
    ensures
        items_view(all@) == items_view(items@).push(item@),
{
    let mut all = items;
    all.push(item);
    assert(all@.drop_last() =~= items@);
    all
}

/// `serde_json::Value`.
#[verifier::external_type_specification]
#[verifier::external_body]
pub struct ExValue(serde_json::Value);

/// What a `serde_json::Value` holds.
pub uninterp spec fn value_content(value: serde_json::Value) -> JsonView;

/// What `serde_json::from_str` reads a text as, when it is a JSON document.
pub uninterp spec fn json_document(text: Seq<char>) -> Option<JsonView>;

/// `serde_json::from_str` into a `serde_json::Value`: a function of the text alone, which is
/// `None` here exactly when it reports an error.
#[verifier::external_body]
fn parse_value(text: &str) -> (value: Option<serde_json::Value>)
    ensures
        match value {
            Some(value) => json_document(text@) == Some(value_content(value)),
            None => json_document(text@) is None,
        },
{
    serde_json::from_str::<serde_json::Value>(text).ok()
}

/// One layer of a `serde_json::Value`.
enum Layer<'a> {
    Null,
    Bool(bool),
    Number(String),
    Text(&'a String),
    List(&'a Vec<serde_json::Value>),
    Object(Vec<(&'a String, &'a serde_json::Value)>),
}

/// What the values in a list hold.
spec fn contents(values: Seq<serde_json::Value>) -> Seq<JsonView> {
    values.map_values(|value: serde_json::Value| value_content(value))
}

/// What the named values hold.
spec fn named_contents(members: Seq<(&String, &serde_json::Value)>) -> Seq<
    (Seq<char>, JsonView),
> {
    members.map_values(|member: (&String, &serde_json::Value)| (member.0@, value_content(*member.1)))
}

/// Tells the variants of `serde_json::Value` apart and hands out what each holds: a string's
/// text, an array's values in order, an object's entries in the order of `serde_json::Map::iter`,
/// and a number as its `Display` writes it.
#[verifier::external_body]
fn layer_of<'a>(value: &'a serde_json::Value) -> (layer: Layer<'a>)
    ensures
        value_content(*value) == (match layer {
            Layer::Null => JsonView::Null,
            Layer::Bool(flag) => JsonView::Bool(flag),
            Layer::Number(digits) => JsonView::Number(digits@),
            Layer::Text(text) => JsonView::Text(text@),
            Layer::List(items) => JsonView::List(contents(items@)),
            Layer::Object(members) => JsonView::Object(named_contents(members@)),
        }),
{
    match value {
        serde_json::Value::Null => Layer::Null,
        serde_json::Value::Bool(flag) => Layer::Bool(*flag),
        serde_json::Value::Number(number) => Layer::Number(number.to_string()),
        serde_json::Value::String(text) => Layer::Text(text),
        serde_json::Value::Array(items) => Layer::List(items),
        serde_json::Value::Object(members) => Layer::Object(members.iter().collect()),
    }
}

/// Reads a `serde_json::Value` out.
fn json_of(value: &serde_json::Value) -> (json: Json)
    ensures
        json@ == value_content(*value),
    decreases value_content(*value),
{
    match layer_of(value) {
        Layer::Null => Json::Null,
        Layer::Bool(flag) => Json::Bool(flag),
        Layer::Number(digits) => Json::Number(digits),
        Layer::Text(text) => Json::Text(text.clone()),
        Layer::List(values) => {
            let ghost all = contents(values@);
            let mut items: Vec<Json> = Vec::new();
            let mut i: usize = 0;
            assert(items_view(items@) =~= all.take(0));
            while i < values.len()
                invariant
                    i <= values@.len(),
                    all == contents(values@),
                    value_content(*value) == JsonView::List(all),
                    items_view(items@) == all.take(i as int),
                decreases values@.len() - i,
            {
                assert(all[i as int] == value_content(values@[i as int]));
                assert(decreases_to!(value_content(*value) => value_content(*value)->List_0));
                assert(decreases_to!(all => all[i as int]));
                let item = json_of(&values[i]);
                items = with_item(items, item);
                assert(all.take(i as int).push(all[i as int]) =~= all.take(i + 1));
                i += 1;
            }
            assert(all.take(all.len() as int) =~= all);
            Json::List(items)
        },
        Layer::Object(entries) => {
            let ghost all = named_contents(entries@);
            let mut members: Vec<(String, Json)> = Vec::new();
            let mut i: usize = 0;
            assert(members_view(members@) =~= all.take(0));
            while i < entries.len()
                invariant
                    i <= entries@.len(),
                    all == named_contents(entries@),
                    value_content(*value) == JsonView::Object(all),
                    members_view(members@) == all.take(i as int),
                decreases entries@.len() - i,
            {
                let name = entries[i].0;
                assert(all[i as int] == (name@, value_content(*entries@[i as int].1)));
                assert(decreases_to!(value_content(*value) => value_content(*value)->Object_0));
                assert(decreases_to!(all => all[i as int]));
                assert(decreases_to!(all[i as int] => all[i as int].1));
                let member = json_of(entries[i].1);
                members = with_member(members, name.as_str(), member);
                assert(all.take(i as int).push(all[i as int]) =~= all.take(i + 1));
                i += 1;
            }
            assert(all.take(all.len() as int) =~= all);
            Json::Object(members)
        },
    }
}

/// Reads `text` as a JSON document.
pub fn parse_json(text: &str) -> (json: Option<Json>)
    ensures
        match json {
            Some(json) => json_document(text@) == Some(json@),
            None => json_document(text@) is None,
        },
{
    match parse_value(text) {
        Some(value) => Some(json_of(&value)),
        None => None,
    }
}

/// Where a scan for braces stands: how many are open, and whether it is within a string
/// literal, or behind a backslash in one.
pub struct Scan {
    pub depth: int,
    pub in_string: bool,
    pub escaped: bool,
}

impl Scan {
    /// Where the scan stands one character on. Braces count outside string literals only.
    pub open spec fn after(self, c: char) -> Scan {
        if self.in_string {
            Scan {
                depth: self.depth,
                in_string: self.escaped || c != '"',
                escaped: !self.escaped && c == '\\',
            }
        } else if c == '"' {
            Scan { depth: self.depth, in_string: true, escaped: false }
        } else if c == '{' {
            Scan { depth: self.depth + 1, in_string: false, escaped: false }
        } else if c == '}' {
            Scan { depth: self.depth - 1, in_string: false, escaped: false }
        } else {
            self
        }
    }
}

/// Where a scan stands at the end of `text`.
pub open spec fn scanned(text: Seq<char>) -> Scan
    decreases text.len(),
{
    if text.len() == 0 {
        Scan { depth: 0, in_string: false, escaped: false }
    } else {
        scanned(text.drop_last()).after(text.last())
    }
}

/// Whether a JSON object stands in `text` from `first` to `last`.
pub open spec fn object_stands_at(text: Seq<char>, first: int, last: int) -> bool {
    0 <= first <= last < text.len() && json_grammar::is_json_object(
        text.subrange(first, last + 1),
    )
}

/// Whether a JSON object begins in `text` at `first`.
pub open spec fn object_begins_at(text: Seq<char>, first: int) -> bool {
    exists|last: int| object_stands_at(text, first, last)
}

/// Whether the first JSON object in `text` stands from `first` to `last`.
pub open spec fn first_object_stands_at(text: Seq<char>, first: int, last: int) -> bool {
    &&& object_stands_at(text, first, last)
    &&& forall|i: int| 0 <= i < first ==> !#[trigger] object_begins_at(text, i)
}

/// Whether `first` is where `text` has its first `{`, `last` is where it has its last `}`, and the
/// first `{` closes.
pub open spec fn outer_braces(text: Seq<char>, first: int, last: int) -> bool {
    &&& 0 <= first < text.len()
    &&& 0 <= last < text.len()
    &&& text[first] == '{'
    &&& text[last] == '}'
    &&& forall|i: int| 0 <= i < first ==> #[trigger] text[i] != '{'
    &&& forall|i: int| last < i < text.len() ==> #[trigger] text[i] != '}'
    &&& exists|end: int|
        first < end <= text.len() && scanned(#[trigger] text.subrange(first, end)).depth == 0
}

/// The first JSON object in `text`. Where there is none, but the first brace closes, it is what
/// stands from that brace to the last one: an object that is not well formed.
pub open spec fn json_object(text: Seq<char>) -> Option<Seq<char>> {
    if exists|first: int, last: int| first_object_stands_at(text, first, last) {
        let (first, last) = choose|first: int, last: int|
            first_object_stands_at(text, first, last);
        Some(text.subrange(first, last + 1))
    } else if exists|first: int, last: int| outer_braces(text, first, last) {
        let (first, last) = choose|first: int, last: int| outer_braces(text, first, last);
        Some(text.subrange(first, last + 1))
    } else {
        None
    }
}

/// The first JSON object stands in one place only: `first` and `last` delimit it.
pub proof fn the_first_object_is_found(text: Seq<char>, first: int, last: int)
    requires
        first_object_stands_at(text, first, last),
    ensures
        json_object(text) == Some(text.subrange(first, last + 1)),
{
    let (f, l) = choose|f: int, l: int| first_object_stands_at(text, f, l);
    assert(object_begins_at(text, f) && object_begins_at(text, first));
    assert(f == first);
    let object = text.subrange(first, last + 1);
    let found = text.subrange(f, l + 1);
    if last < l {
        let rest = text.subrange(last + 1, l + 1);
        assert(found =~= object + rest);
        json_grammar::objects_end_once(object, rest);
    } else if l < last {
        let rest = text.subrange(l + 1, last + 1);
        assert(object =~= found + rest);
        json_grammar::objects_end_once(found, rest);
    }
}

/// Where no JSON object stands in the text and its first brace closes, the outer braces delimit
/// what is found.
pub proof fn a_broken_object_is_found(text: Seq<char>, first: int, last: int)
    requires
        forall|i: int| 0 <= i < text.len() ==> !#[trigger] object_begins_at(text, i),
        outer_braces(text, first, last),
    ensures
        json_object(text) == Some(text.subrange(first, last + 1)),
{
    assert forall|f: int, l: int| !first_object_stands_at(text, f, l) by {
        if first_object_stands_at(text, f, l) {
            assert(object_begins_at(text, f));
        }
    }
    let (f, l) = choose|f: int, l: int| outer_braces(text, f, l);
    assert(f == first && l == last);
}

/// Where the first JSON object in `chars` stands: the position of its first character and the one
/// behind its last.
fn first_object(chars: &Vec<char>) -> (found: Option<(usize, usize)>)
    ensures
        match found {
            Some((first, end)) => first_object_stands_at(chars@, first as int, end - 1),
            None => forall|i: int| 0 <= i < chars@.len() ==> !#[trigger] object_begins_at(chars@, i),
        },
{
    let mut first: usize = 0;
    while first < chars.len()
        invariant
            first <= chars@.len(),
            forall|i: int| 0 <= i < first ==> !#[trigger] object_begins_at(chars@, i),
        decreases chars@.len() - first,
    {
        match json_grammar::object_end(chars, first) {
            Some(end) => {
                assert(object_stands_at(chars@, first as int, end - 1));
                return Some((first, end));
            },
            None => {
                assert forall|last: int| !object_stands_at(chars@, first as int, last) by {
                    if object_stands_at(chars@, first as int, last) {
                        assert(!json_grammar::is_json_object(
                            chars@.subrange(first as int, last + 1),
                        ));
                    }
                }
                assert(!object_begins_at(chars@, first as int));
            },
        }
        first += 1;
    }
    None
}

/// Whether the brace at `first` closes.
fn brace_closes(chars: &Vec<char>, first: usize) -> (closes: bool)
    requires
        first < chars@.len(),
        chars@[first as int] == '{',
    ensures
        closes == exists|end: int|
            first < end <= chars@.len() && scanned(
                #[trigger] chars@.subrange(first as int, end),
            ).depth == 0,
{
    let mut depth: usize = 0;
    let mut in_string = false;
    let mut escaped = false;
    let mut i: usize = first;
    assert(chars@.subrange(first as int, first as int) =~= Seq::empty());
    while i < chars.len()
        invariant
            first <= i <= chars@.len(),
            first < chars@.len(),
            chars@[first as int] == '{',
            depth <= i - first,
            i > first ==> depth > 0,
            escaped ==> in_string,
            scanned(chars@.subrange(first as int, i as int)) == (Scan {
                depth: depth as int,
                in_string,
                escaped,
            }),
            forall|end: int|
                first < end <= i ==> scanned(
                    #[trigger] chars@.subrange(first as int, end),
                ).depth > 0,
        decreases chars@.len() - i,
    {
        let c = chars[i];
        let ghost read = chars@.subrange(first as int, i + 1);
        assert(read.drop_last() =~= chars@.subrange(first as int, i as int));
        assert(read.last() == c);
        if in_string {
            if escaped {
                escaped = false;
            } else if c == '\\' {
                escaped = true;
            } else if c == '"' {
                in_string = false;
            }
        } else if c == '"' {
            in_string = true;
        } else if c == '{' {
            depth += 1;
        } else if c == '}' {
            depth -= 1;
        }
        i += 1;
        if depth == 0 {
            assert(scanned(chars@.subrange(first as int, i as int)).depth == 0);
            return true;
        }
    }
    false
}

/// Finds the first JSON object in `text`, tolerating markdown fences and surrounding prose. Where
/// there is none, but the first brace closes, what stands from that brace to the last one is
/// given for the object that was meant.
pub fn extract_json_object<'a>(text: &'a str) -> (object: Option<&'a str>)
    ensures
        match object {
            Some(object) => json_object(text@) == Some(object@),
            None => json_object(text@) is None,
        },
{
    let chars = text::chars_of(text);
    match first_object(&chars) {
        Some((first, end)) => {
            proof {
                the_first_object_is_found(text@, first as int, end - 1);
            }
            return Some(text.substring_char(first, end));
        },
        None => {},
    }
    proof {
        assert forall|f: int, l: int| !first_object_stands_at(text@, f, l) by {
            if first_object_stands_at(text@, f, l) {
                assert(object_begins_at(text@, f));
            }
        }
    }
    let mut first: usize = 0;
    while first < chars.len() && chars[first] != '{'
        invariant
            first <= chars@.len(),
            forall|i: int| 0 <= i < first ==> #[trigger] chars@[i] != '{',
        ensures
            first == chars@.len() || chars@[first as int] == '{',
        decreases chars@.len() - first,
    {
        first += 1;
    }
    let mut end: usize = chars.len();
    while end > 0 && chars[end - 1] != '}'
        invariant
            end <= chars@.len(),
            forall|i: int| end <= i < chars@.len() ==> #[trigger] chars@[i] != '}',
        ensures
            end == 0 || chars@[end - 1] == '}',
        decreases end,
    {
        end -= 1;
    }
    if first < chars.len() && end > 0 && brace_closes(&chars, first) {
        proof {
            assert(outer_braces(text@, first as int, end - 1));
            a_broken_object_is_found(text@, first as int, end - 1);
            lemma_closing_brace(text@, first as int, end - 1);
        }
        Some(text.substring_char(first, end))
    } else {
        proof {
            assert forall|f: int, l: int| !outer_braces(text@, f, l) by {
                if outer_braces(text@, f, l) {
                    assert(f == first && l == end - 1);
                }
            }
        }
        None
    }
}

/// Braces that do not close do not lower the depth.
proof fn lemma_depth_without_closing(text: Seq<char>)
    requires
        !text.contains('}'),
    ensures
        scanned(text).depth >= 0,
        text.len() > 0 && text[0] == '{' ==> scanned(text).depth > 0,
    decreases text.len(),
{
    if text.len() > 0 {
        let rest = text.drop_last();
        assert(!rest.contains('}')) by {
            if rest.contains('}') {
                let i = choose|i: int| 0 <= i < rest.len() && rest[i] == '}';
                assert(text[i] == '}');
            }
        }
        assert(text.last() != '}') by {
            assert(text[text.len() - 1] == text.last());
        }
        lemma_depth_without_closing(rest);
        if rest.len() == 0 {
            assert(scanned(rest) == (Scan { depth: 0, in_string: false, escaped: false }));
        }
    }
}

/// A brace that closes has a closing brace behind it.
proof fn lemma_closing_brace(text: Seq<char>, first: int, last: int)
    requires
        outer_braces(text, first, last),
    ensures
        first < last,
{
    let end = choose|end: int|
        first < end <= text.len() && scanned(#[trigger] text.subrange(first, end)).depth == 0;
    let read = text.subrange(first, end);
    assert(read[0] == '{');
    if last < first {
        assert(!read.contains('}')) by {
            if read.contains('}') {
                let i = choose|i: int| 0 <= i < read.len() && read[i] == '}';
                assert(text[first + i] == '}');
            }
        }
        lemma_depth_without_closing(read);
    }
}

/// What is found stands in the text. It is a JSON object wherever one stands there.
pub proof fn found_objects_stand_in_the_text(text: Seq<char>)
    ensures
        match json_object(text) {
            Some(object) => text::contains_text(text, object),
            None => true,
        },
        (exists|i: int| 0 <= i < text.len() && object_begins_at(text, i)) ==> (json_object(
            text,
        ) matches Some(object) && json_grammar::is_json_object(object)),
{
    if exists|i: int| 0 <= i < text.len() && object_begins_at(text, i) {
        let i = choose|i: int| 0 <= i < text.len() && object_begins_at(text, i);
        let first = lemma_least_beginning(text, i);
        let last = choose|last: int| object_stands_at(text, first, last);
        assert(first_object_stands_at(text, first, last));
        the_first_object_is_found(text, first, last);
        assert(text::stands_at(text, text.subrange(first, last + 1), first));
    } else {
        assert forall|f: int, l: int| !first_object_stands_at(text, f, l) by {
            if first_object_stands_at(text, f, l) {
                assert(object_begins_at(text, f));
            }
        }
        if exists|first: int, last: int| outer_braces(text, first, last) {
            let (first, last) = choose|first: int, last: int| outer_braces(text, first, last);
            lemma_closing_brace(text, first, last);
            assert(text::stands_at(text, text.subrange(first, last + 1), first));
        }
    }
}

/// Of the places where an object begins there is a first.
proof fn lemma_least_beginning(text: Seq<char>, at: int) -> (first: int)
    requires
        0 <= at,
        object_begins_at(text, at),
    ensures
        0 <= first <= at,
        object_begins_at(text, first),
        forall|i: int| 0 <= i < first ==> !#[trigger] object_begins_at(text, i),
    decreases at,
{
    if exists|i: int| 0 <= i < at && #[trigger] object_begins_at(text, i) {
        let i = choose|i: int| 0 <= i < at && #[trigger] object_begins_at(text, i);
        lemma_least_beginning(text, i)
    } else {
        at
    }
}

/// A JSON object is found through the prose around it, whatever follows it, as long as no JSON
/// object begins before it. Where the prose before it has no opening brace, none does.
pub proof fn object_is_found_through_prose(before: Seq<char>, object: Seq<char>, after: Seq<char>)
    requires
        json_grammar::is_json_object(object),
        forall|i: int|
            0 <= i < before.len() ==> before[i] != '{' || !#[trigger] object_begins_at(
                before + object + after,
                i,
            ),
    ensures
        json_object(before + object + after) == Some(object),
{
    let text = before + object + after;
    let first = before.len() as int;
    let last = before.len() + object.len() - 1;
    assert(text.subrange(first, last + 1) =~= object);
    assert forall|i: int| 0 <= i < first implies !#[trigger] object_begins_at(text, i) by {
        if object_begins_at(text, i) {
            let l = choose|l: int| object_stands_at(text, i, l);
            assert(text.subrange(i, l + 1)[0] == before[i]);
        }
    }
    the_first_object_is_found(text, first, last);
}

/// Outside strings every brace counts and nothing else does.
pub proof fn braces_count_outside_strings(text: Seq<char>, c: char)
    requires
        !scanned(text).in_string,
        c != '"',
    ensures
        !scanned(text.push(c)).in_string,
        scanned(text.push(c)).depth == scanned(text).depth + (if c == '{' {
            1int
        } else if c == '}' {
            -1int
        } else {
            0int
        }),
        scanned(Seq::empty()).depth == 0,
        !scanned(Seq::empty()).in_string,
{
    assert(text.push(c).drop_last() =~= text);
}

/// A string, with whatever escapes and braces it is written, counts for nothing.
pub proof fn braces_in_strings_do_not_count(text: Seq<char>, units: Seq<json_grammar::Unit>)
    requires
        !scanned(text).in_string,
        json_grammar::units_are_valid(units),
    ensures
        scanned(text + json_grammar::string_text(units)).depth == scanned(text).depth,
        !scanned(text + json_grammar::string_text(units)).in_string,
{
    let opened = text + seq!['"'];
    let inner = json_grammar::units_text(units);
    let all = text + json_grammar::string_text(units);
    assert(opened.drop_last() =~= text);
    lemma_scan_units(opened, units);
    assert(all.drop_last() =~= opened + inner);
    assert(all.last() == '"');
}

proof fn lemma_scan_units(text: Seq<char>, units: Seq<json_grammar::Unit>)
    requires
        scanned(text).in_string,
        !scanned(text).escaped,
        json_grammar::units_are_valid(units),
    ensures
        scanned(text + json_grammar::units_text(units)) == scanned(text),
    decreases units.len(),
{
    let all = text + json_grammar::units_text(units);
    if units.len() == 0 {
        assert(all =~= text);
    } else {
        let rest = units.drop_last();
        assert forall|i: int| 0 <= i < rest.len() implies (#[trigger] rest[i]).is_valid() by {
            assert(rest[i] == units[i]);
        }
        lemma_scan_units(text, rest);
        let before = text + json_grammar::units_text(rest);
        let unit = units.last();
        assert(units[units.len() - 1].is_valid());
        assert(all =~= before + unit.text());
        lemma_scan_unit(before, unit);
    }
}

proof fn lemma_scan_unit(text: Seq<char>, unit: json_grammar::Unit)
    requires
        scanned(text).in_string,
        !scanned(text).escaped,
        unit.is_valid(),
    ensures
        scanned(text + unit.text()) == scanned(text),
{
    let all = text + unit.text();
    match unit {
        json_grammar::Unit::Plain(_) => {
            assert(all.drop_last() =~= text);
        },
        json_grammar::Unit::Short(c) => {
            let one = text.push('\\');
            assert(all.drop_last() =~= one);
            assert(one.drop_last() =~= text);
            assert(scanned(one) == scanned(text).after('\\'));
        },
        json_grammar::Unit::Hex(a, b, c, d) => {
            let one = text.push('\\');
            let two = one.push('u');
            let three = two.push(a);
            let four = three.push(b);
            let five = four.push(c);
            assert(all.drop_last() =~= five);
            assert(five.drop_last() =~= four);
            assert(four.drop_last() =~= three);
            assert(three.drop_last() =~= two);
            assert(two.drop_last() =~= one);
            assert(one.drop_last() =~= text);
            assert(scanned(one) == scanned(text).after('\\'));
            assert(scanned(two) == scanned(one).after('u'));
            assert(scanned(three) == scanned(two).after(a));
            assert(scanned(four) == scanned(three).after(b));
            assert(scanned(five) == scanned(four).after(c));
        },
    }
}

} // verus!
