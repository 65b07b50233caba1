//! The grammar of JSON, read one character at a time.

use vstd::prelude::*;

verus! {

/// What a reader of JSON has just read, and so what may follow.
#[derive(Clone, Copy, Debug, PartialEq, Eq, Structural)]
pub enum Place {
    /// A value is due.
    Value,
    /// Behind `[`: a value or the end of the list is due.
    FirstItem,
    /// Behind `{`: a name or the end of the object is due.
    FirstName,
    /// Behind a comma in an object: a name is due.
    Name,
    /// Behind a name: a colon is due.
    Colon,
    /// Behind a value in a list or an object: a comma or the end is due.
    Next,
    /// In a string.
    Text { is_name: bool },
    /// Behind a backslash in a string.
    Escape { is_name: bool },
    /// In an escape with as many hexadecimal digits still due.
    Hex { is_name: bool, left: u8 },
    /// Behind the sign of a number.
    Minus,
    /// Behind a number's leading zero.
    Zero,
    /// In the digits before the point.
    Digits,
    /// Behind the point.
    Point,
    /// In the digits behind the point.
    Fraction,
    /// Behind the letter of an exponent.
    Exponent,
    /// Behind the sign of an exponent.
    Sign,
    /// In the digits of an exponent.
    Power,
    /// In `true`, with `rue` still due.
    Rue,
    /// In `true`, with `ue` still due.
    Ue,
    /// In `true` or `false`, with `e` still due.
    E,
    /// In `false`, with `alse` still due.
    Alse,
    /// In `false`, with `lse` still due.
    Lse,
    /// In `false`, with `se` still due.
    Se,
    /// In `null`, with `ull` still due.
    Ull,
    /// In `null`, with `ll` still due.
    Ll,
    /// In `null`, with `l` still due.
    L,
    /// Behind the bracket that closes the whole document.
    Done,
    /// Behind a character that JSON does not have there.
    Failed,
}

/// What a character does to the brackets that are open.
#[derive(Clone, Copy, Debug, PartialEq, Eq, Structural)]
pub enum Motion {
    Stay,
    /// Opens an object, or a list.
    Open { object: bool },
    /// Closes the innermost bracket.
    Close,
}

/// Whether JSON allows `c` between tokens.
pub open spec fn is_blank(c: char) -> bool {
    c == ' ' || c == '\t' || c == '\n' || c == '\r'
}

/// Whether `c` is a decimal digit.
pub open spec fn is_digit(c: char) -> bool {
    '0' <= c <= '9'
}

/// Whether `c` is a hexadecimal digit.
pub open spec fn is_hex_digit(c: char) -> bool {
    '0' <= c <= '9' || 'a' <= c <= 'f' || 'A' <= c <= 'F'
}

/// Whether `c` may stand alone behind a backslash.
pub open spec fn is_escape(c: char) -> bool {
    c == '"' || c == '\\' || c == '/' || c == 'b' || c == 'f' || c == 'n' || c == 'r' || c == 't'
}

/// Where the first character of a value leads.
pub open spec fn value_begins(c: char) -> (Place, Motion) {
    if c == '"' {
        (Place::Text { is_name: false }, Motion::Stay)
    } else if c == '{' {
        (Place::FirstName, Motion::Open { object: true })
    } else if c == '[' {
        (Place::FirstItem, Motion::Open { object: false })
    } else if c == '-' {
        (Place::Minus, Motion::Stay)
    } else if c == '0' {
        (Place::Zero, Motion::Stay)
    } else if is_digit(c) {
        (Place::Digits, Motion::Stay)
    } else if c == 't' {
        (Place::Rue, Motion::Stay)
    } else if c == 'f' {
        (Place::Alse, Motion::Stay)
    } else if c == 'n' {
        (Place::Ull, Motion::Stay)
    } else {
        (Place::Failed, Motion::Stay)
    }
}

/// Where a character behind a value leads, in an object, in a list or in neither.
pub open spec fn value_ended(inside: Option<bool>, c: char) -> (Place, Motion) {
    if is_blank(c) {
        (Place::Next, Motion::Stay)
    } else if c == ',' && inside == Some(true) {
        (Place::Name, Motion::Stay)
    } else if c == ',' && inside == Some(false) {
        (Place::Value, Motion::Stay)
    } else if c == '}' && inside == Some(true) || c == ']' && inside == Some(false) {
        (Place::Next, Motion::Close)
    } else {
        (Place::Failed, Motion::Stay)
    }
}

/// `place` where `c` is the one character that is due, and failure otherwise.
pub open spec fn due(c: char, wanted: char, place: Place) -> (Place, Motion) {
    if c == wanted {
        (place, Motion::Stay)
    } else {
        (Place::Failed, Motion::Stay)
    }
}

/// Where `c` leads from `place`, given whether the innermost open bracket is an object's.
pub open spec fn moved(place: Place, inside: Option<bool>, c: char) -> (Place, Motion) {
    let failed = (Place::Failed, Motion::Stay);
    match place {
        Place::Value => if is_blank(c) {
            (place, Motion::Stay)
        } else {
            value_begins(c)
        },
        Place::FirstItem => if is_blank(c) {
            (place, Motion::Stay)
        } else if c == ']' {
            (Place::Next, Motion::Close)
        } else {
            value_begins(c)
        },
        Place::FirstName => if is_blank(c) {
            (place, Motion::Stay)
        } else if c == '}' {
            (Place::Next, Motion::Close)
        } else {
            due(c, '"', Place::Text { is_name: true })
        },
        Place::Name => if is_blank(c) {
            (place, Motion::Stay)
        } else {
            due(c, '"', Place::Text { is_name: true })
        },
        Place::Colon => if is_blank(c) {
            (place, Motion::Stay)
        } else {
            due(c, ':', Place::Value)
        },
        Place::Next => value_ended(inside, c),
        Place::Text { is_name } => if c == '"' {
            (
                if is_name {
                    Place::Colon
                } else {
                    Place::Next
                },
                Motion::Stay,
            )
        } else if c == '\\' {
            (Place::Escape { is_name }, Motion::Stay)
        } else if !(' ' <= c) {
            failed
        } else {
            (place, Motion::Stay)
        },
        Place::Escape { is_name } => if is_escape(c) {
            (Place::Text { is_name }, Motion::Stay)
        } else {
            due(c, 'u', Place::Hex { is_name, left: 4 })
        },
        Place::Hex { is_name, left } => if !is_hex_digit(c) {
            failed
        } else if left <= 1 {
            (Place::Text { is_name }, Motion::Stay)
        } else {
            (Place::Hex { is_name, left: (left - 1) as u8 }, Motion::Stay)
        },
        Place::Minus => if c == '0' {
            (Place::Zero, Motion::Stay)
        } else if is_digit(c) {
            (Place::Digits, Motion::Stay)
        } else {
            failed
        },
        Place::Zero | Place::Digits => if c == '.' {
            (Place::Point, Motion::Stay)
        } else if c == 'e' || c == 'E' {
            (Place::Exponent, Motion::Stay)
        } else if place == Place::Digits && is_digit(c) {
            (place, Motion::Stay)
        } else {
            value_ended(inside, c)
        },
        Place::Point => if is_digit(c) {
            (Place::Fraction, Motion::Stay)
        } else {
            failed
        },
        Place::Fraction => if is_digit(c) {
            (place, Motion::Stay)
        } else if c == 'e' || c == 'E' {
            (Place::Exponent, Motion::Stay)
        } else {
            value_ended(inside, c)
        },
        Place::Exponent => if c == '+' || c == '-' {
            (Place::Sign, Motion::Stay)
        } else if is_digit(c) {
            (Place::Power, Motion::Stay)
        } else {
            failed
        },
        Place::Sign => if is_digit(c) {
            (Place::Power, Motion::Stay)
        } else {
            failed
        },
        Place::Power => if is_digit(c) {
            (place, Motion::Stay)
        } else {
            value_ended(inside, c)
        },
        Place::Rue => due(c, 'r', Place::Ue),
        Place::Ue => due(c, 'u', Place::E),
        Place::E => due(c, 'e', Place::Next),
        Place::Alse => due(c, 'a', Place::Lse),
        Place::Lse => due(c, 'l', Place::Se),
        Place::Se => due(c, 's', Place::E),
        Place::Ull => due(c, 'u', Place::Ll),
        Place::Ll => due(c, 'l', Place::L),
        Place::L => due(c, 'l', Place::Next),
        Place::Done => failed,
        Place::Failed => failed,
    }
}

/// Where a reader stands, and the brackets open there: of each, whether it is an object's.
pub struct Reading {
    pub place: Place,
    pub open: Seq<bool>,
}

impl Reading {
    /// Where a reader stands that is given an object or a list.
    pub open spec fn start() -> Reading {
        Reading { place: Place::Value, open: Seq::empty() }
    }

    /// Whether the innermost open bracket is an object's.
    pub open spec fn inside(self) -> Option<bool> {
        if self.open.len() > 0 {
            Some(self.open.last())
        } else {
            None
        }
    }

    /// Where the reader stands one character on.
    pub open spec fn after(self, c: char) -> Reading {
        let (place, motion) = moved(self.place, self.inside(), c);
        match motion {
            Motion::Stay => Reading { place, open: self.open },
            Motion::Open { object } => Reading { place, open: self.open.push(object) },
            Motion::Close => if self.open.len() > 1 {
                Reading { place, open: self.open.drop_last() }
            } else {
                Reading { place: Place::Done, open: Seq::empty() }
            },
        }
    }
}

/// Where a reader stands behind `text`.
pub open spec fn reading(text: Seq<char>) -> Reading
    decreases text.len(),
{
    if text.len() == 0 {
        Reading::start()
    } else {
        reading(text.drop_last()).after(text.last())
    }
}

/// Whether `text` is a JSON object, from its opening brace to its closing one.
pub open spec fn is_json_object(text: Seq<char>) -> bool {
    text.len() > 0 && text[0] == '{' && reading(text).place == Place::Done
}

/// Whether a reader has come to the end, one way or the other.
pub open spec fn is_over(place: Place) -> bool {
    place == Place::Done || place == Place::Failed
}

/// Behind its end, a reader fails on whatever follows.
pub proof fn nothing_follows_the_end(text: Seq<char>, rest: Seq<char>)
    requires
        is_over(reading(text).place),
        rest.len() > 0,
    ensures
        reading(text + rest).place == Place::Failed,
    decreases rest.len(),
{
    let all = text + rest;
    assert(all.drop_last() =~= text + rest.drop_last());
    assert(all.last() == rest.last());
    if rest.len() == 1 {
        assert(text + rest.drop_last() =~= text);
    } else {
        nothing_follows_the_end(text, rest.drop_last());
    }
}

/// No JSON object begins with another one.
pub proof fn objects_end_once(object: Seq<char>, rest: Seq<char>)
    requires
        is_json_object(object),
        is_json_object(object + rest),
    ensures
        rest.len() == 0,
{
    if rest.len() > 0 {
        nothing_follows_the_end(object, rest);
    }
}

fn blank(c: char) -> (found: bool)
    ensures
        found == is_blank(c),
{
    c == ' ' || c == '\t' || c == '\n' || c == '\r'
}

fn digit(c: char) -> (found: bool)
    ensures
        found == is_digit(c),
{
    '0' <= c && c <= '9'
}

fn hex_digit(c: char) -> (found: bool)
    ensures
        found == is_hex_digit(c),
{
    '0' <= c && c <= '9' || 'a' <= c && c <= 'f' || 'A' <= c && c <= 'F'
}

fn escape(c: char) -> (found: bool)
    ensures
        found == is_escape(c),
{
    c == '"' || c == '\\' || c == '/' || c == 'b' || c == 'f' || c == 'n' || c == 'r' || c == 't'
}

/// Stays among the same brackets.
fn to(place: Place) -> (step: (Place, Motion))
    ensures
        step == (place, Motion::Stay),
{
    (place, Motion::Stay)
}

/// Goes to `place` where `found` holds, and fails otherwise.
fn to_if(found: bool, place: Place) -> (step: (Place, Motion))
    ensures
        step == (if found {
            (place, Motion::Stay)
        } else {
            (Place::Failed, Motion::Stay)
        }),
{
    if found {
        (place, Motion::Stay)
    } else {
        (Place::Failed, Motion::Stay)
    }
}

fn begin_value(c: char) -> (step: (Place, Motion))
    ensures
        step == value_begins(c),
{
    match c {
        '"' => to(Place::Text { is_name: false }),
        '{' => (Place::FirstName, Motion::Open { object: true }),
        '[' => (Place::FirstItem, Motion::Open { object: false }),
        '-' => to(Place::Minus),
        '0' => to(Place::Zero),
        't' => to(Place::Rue),
        'f' => to(Place::Alse),
        'n' => to(Place::Ull),
        _ => to_if(digit(c), Place::Digits),
    }
}

fn end_value(inside: Option<bool>, c: char) -> (step: (Place, Motion))
    ensures
        step == value_ended(inside, c),
{
    if blank(c) {
        return to(Place::Next);
    }
    match inside {
        Some(true) => match c {
            ',' => to(Place::Name),
            '}' => (Place::Next, Motion::Close),
            _ => to(Place::Failed),
        },
        Some(false) => match c {
            ',' => to(Place::Value),
            ']' => (Place::Next, Motion::Close),
            _ => to(Place::Failed),
        },
        None => to(Place::Failed),
    }
}

/// Where `c` leads from `place`, given whether the innermost open bracket is an object's.
fn step(place: Place, inside: Option<bool>, c: char) -> (step: (Place, Motion))
    ensures
        step == moved(place, inside, c),
{
    match place {
        Place::Value => if blank(c) {
            to(place)
        } else {
            begin_value(c)
        },
        Place::FirstItem => if blank(c) {
            to(place)
        } else if c == ']' {
            (Place::Next, Motion::Close)
        } else {
            begin_value(c)
        },
        Place::FirstName => if blank(c) {
            to(place)
        } else if c == '}' {
            (Place::Next, Motion::Close)
        } else {
            to_if(c == '"', Place::Text { is_name: true })
        },
        Place::Name => if blank(c) {
            to(place)
        } else {
            to_if(c == '"', Place::Text { is_name: true })
        },
        Place::Colon => if blank(c) {
            to(place)
        } else {
            to_if(c == ':', Place::Value)
        },
        Place::Next => end_value(inside, c),
        Place::Text { is_name } => if c == '"' {
            if is_name {
                to(Place::Colon)
            } else {
                to(Place::Next)
            }
        } else if c == '\\' {
            to(Place::Escape { is_name })
        } else {
            to_if(' ' <= c, place)
        },
        Place::Escape { is_name } => if escape(c) {
            to(Place::Text { is_name })
        } else {
            to_if(c == 'u', Place::Hex { is_name, left: 4 })
        },
        Place::Hex { is_name, left } => if left <= 1 {
            to_if(hex_digit(c), Place::Text { is_name })
        } else {
            to_if(hex_digit(c), Place::Hex { is_name, left: left - 1 })
        },
        Place::Minus => if c == '0' {
            to(Place::Zero)
        } else {
            to_if(digit(c), Place::Digits)
        },
        Place::Zero => if c == '.' {
            to(Place::Point)
        } else if c == 'e' || c == 'E' {
            to(Place::Exponent)
        } else {
            end_value(inside, c)
        },
        Place::Digits => if c == '.' {
            to(Place::Point)
        } else if c == 'e' || c == 'E' {
            to(Place::Exponent)
        } else if digit(c) {
            to(place)
        } else {
            end_value(inside, c)
        },
        Place::Point => to_if(digit(c), Place::Fraction),
        Place::Fraction => if digit(c) {
            to(place)
        } else if c == 'e' || c == 'E' {
            to(Place::Exponent)
        } else {
            end_value(inside, c)
        },
        Place::Exponent => if c == '+' || c == '-' {
            to(Place::Sign)
        } else {
            to_if(digit(c), Place::Power)
        },
        Place::Sign => to_if(digit(c), Place::Power),
        Place::Power => if digit(c) {
            to(place)
        } else {
            end_value(inside, c)
        },
        Place::Rue => to_if(c == 'r', Place::Ue),
        Place::Ue => to_if(c == 'u', Place::E),
        Place::E => to_if(c == 'e', Place::Next),
        Place::Alse => to_if(c == 'a', Place::Lse),
        Place::Lse => to_if(c == 'l', Place::Se),
        Place::Se => to_if(c == 's', Place::E),
        Place::Ull => to_if(c == 'u', Place::Ll),
        Place::Ll => to_if(c == 'l', Place::L),
        Place::L => to_if(c == 'l', Place::Next),
        Place::Done => to(Place::Failed),
        Place::Failed => to(Place::Failed),
    }
}

/// Where the JSON object that begins at `first` ends: the position behind its closing brace.
pub fn object_end(chars: &Vec<char>, first: usize) -> (end: Option<usize>)
    requires
        first <= chars@.len(),
    ensures
        match end {
            Some(end) => first < end <= chars@.len() && is_json_object(
                chars@.subrange(first as int, end as int),
            ),
            None => forall|end: int|
                first <= end <= chars@.len() ==> !is_json_object(
                    #[trigger] chars@.subrange(first as int, end),
                ),
        },
{
    if first == chars.len() || chars[first] != '{' {
        assert forall|end: int| first <= end <= chars@.len() implies !is_json_object(
            #[trigger] chars@.subrange(first as int, end),
        ) by {
            if end > first {
                assert(chars@.subrange(first as int, end)[0] == chars@[first as int]);
            }
        }
        return None;
    }
    let mut place = Place::Value;
    let mut open: Vec<bool> = Vec::new();
    let mut i: usize = first;
    assert(chars@.subrange(first as int, first as int) =~= Seq::empty());
    assert(open@ =~= Seq::empty());
    while i < chars.len()
        invariant
            first <= i <= chars@.len(),
            first < chars@.len(),
            chars@[first as int] == '{',
            reading(chars@.subrange(first as int, i as int)) == (Reading { place, open: open@ }),
            !is_over(place),
            forall|end: int|
                first <= end <= i ==> !is_over(
                    reading(#[trigger] chars@.subrange(first as int, end)).place,
                ),
        decreases chars@.len() - i,
    {
        let ghost read = chars@.subrange(first as int, i + 1);
        let ghost before = open@;
        let c = chars[i];
        assert(read.drop_last() =~= chars@.subrange(first as int, i as int));
        assert(read.last() == c);
        let inside = if open.len() > 0 {
            Some(open[open.len() - 1])
        } else {
            None
        };
        let (next, motion) = step(place, inside, c);
        place = next;
        match motion {
            Motion::Stay => {},
            Motion::Open { object } => {
                open.push(object);
            },
            Motion::Close => {
                if open.len() > 1 {
                    open.pop();
                    assert(open@ =~= before.drop_last());
                } else {
                    open.clear();
                    place = Place::Done;
                    assert(open@ =~= Seq::empty());
                }
            },
        }
        i += 1;
        assert(reading(read) == (Reading { place, open: open@ }));
        match place {
            Place::Done => {
                assert(read[0] == chars@[first as int]);
                return Some(i);
            },
            Place::Failed => {
                assert forall|end: int| first <= end <= chars@.len() implies !is_json_object(
                    #[trigger] chars@.subrange(first as int, end),
                ) by {
                    let longer = chars@.subrange(first as int, end);
                    if end > i {
                        let rest = chars@.subrange(i as int, end);
                        assert(longer =~= read + rest);
                        nothing_follows_the_end(read, rest);
                    }
                }
                return None;
            },
            _ => {},
        }
    }
    None
}

/// A character of a string as it may be written.
pub enum Unit {
    /// As it is.
    Plain(char),
    /// Behind a backslash.
    Short(char),
    /// By its code, in four hexadecimal digits.
    Hex(char, char, char, char),
}

/// A number as it may be written.
pub struct Numeral {
    pub negative: bool,
    pub whole: Seq<char>,
    /// The digits behind the point; there is no point where there are none.
    pub fraction: Seq<char>,
    /// The letter and the sign of the exponent, and its digits; there is no exponent where there
    /// are none.
    pub letter: char,
    pub sign: Option<char>,
    pub power: Seq<char>,
}

/// A JSON value as it may be written.
pub enum Written {
    Null,
    Bool(bool),
    Number(Numeral),
    Text(Seq<Unit>),
    List(Seq<Written>),
    Object(Seq<(Seq<Unit>, Written)>),
}

impl Unit {
    pub open spec fn is_valid(self) -> bool {
        match self {
            Unit::Plain(c) => ' ' <= c && c != '"' && c != '\\',
            Unit::Short(c) => seq!['"', '\\', '/', 'b', 'f', 'n', 'r', 't'].contains(c),
            Unit::Hex(a, b, c, d) => is_hex(a) && is_hex(b) && is_hex(c) && is_hex(d),
        }
    }

    pub open spec fn text(self) -> Seq<char> {
        match self {
            Unit::Plain(c) => seq![c],
            Unit::Short(c) => seq!['\\', c],
            Unit::Hex(a, b, c, d) => seq!['\\', 'u', a, b, c, d],
        }
    }
}

/// Whether `c` is a hexadecimal digit.
pub open spec fn is_hex(c: char) -> bool {
    '0' <= c <= '9' || 'a' <= c <= 'f' || 'A' <= c <= 'F'
}

/// Whether a text has decimal digits only.
pub open spec fn are_digits(digits: Seq<char>) -> bool {
    forall|i: int| 0 <= i < digits.len() ==> '0' <= #[trigger] digits[i] <= '9'
}

impl Numeral {
    pub open spec fn is_valid(self) -> bool {
        &&& self.whole.len() > 0
        &&& are_digits(self.whole)
        &&& self.whole[0] == '0' ==> self.whole.len() == 1
        &&& are_digits(self.fraction)
        &&& are_digits(self.power)
        &&& self.letter == 'e' || self.letter == 'E'
        &&& self.sign matches Some(sign) ==> sign == '+' || sign == '-'
    }

    pub open spec fn text(self) -> Seq<char> {
        (if self.negative {
            seq!['-']
        } else {
            Seq::empty()
        }) + self.whole + (if self.fraction.len() > 0 {
            seq!['.'] + self.fraction
        } else {
            Seq::empty()
        }) + (if self.power.len() > 0 {
            seq![self.letter] + (match self.sign {
                Some(sign) => seq![sign],
                None => Seq::empty(),
            }) + self.power
        } else {
            Seq::empty()
        })
    }
}

/// What the characters of a string are written with.
pub open spec fn units_text(units: Seq<Unit>) -> Seq<char>
    decreases units.len(),
{
    if units.len() == 0 {
        Seq::empty()
    } else {
        units_text(units.drop_last()) + units.last().text()
    }
}

pub open spec fn units_are_valid(units: Seq<Unit>) -> bool {
    forall|i: int| 0 <= i < units.len() ==> (#[trigger] units[i]).is_valid()
}

/// A string between its quotes.
pub open spec fn string_text(units: Seq<Unit>) -> Seq<char> {
    seq!['"'] + units_text(units) + seq!['"']
}

impl Written {
    pub open spec fn is_valid(self) -> bool
        decreases self,
    {
        match self {
            Written::Null => true,
            Written::Bool(_) => true,
            Written::Number(numeral) => numeral.is_valid(),
            Written::Text(units) => units_are_valid(units),
            Written::List(items) => items_are_valid(items),
            Written::Object(members) => members_are_valid(members),
        }
    }

    /// The value in characters, with `gap` between its tokens.
    pub open spec fn text(self, gap: Seq<char>) -> Seq<char>
        decreases self,
    {
        match self {
            Written::Null => seq!['n', 'u', 'l', 'l'],
            Written::Bool(true) => seq!['t', 'r', 'u', 'e'],
            Written::Bool(false) => seq!['f', 'a', 'l', 's', 'e'],
            Written::Number(numeral) => numeral.text(),
            Written::Text(units) => string_text(units),
            Written::List(items) => seq!['['] + gap + items_text(items, gap) + seq![']'],
            Written::Object(members) => seq!['{'] + gap + members_text(members, gap) + seq!['}'],
        }
    }
}

pub open spec fn items_are_valid(items: Seq<Written>) -> bool
    decreases items,
{
    items.len() == 0 || items_are_valid(items.drop_last()) && items.last().is_valid()
}

pub open spec fn members_are_valid(members: Seq<(Seq<Unit>, Written)>) -> bool
    decreases members,
{
    members.len() == 0 || members_are_valid(members.drop_last()) && units_are_valid(
        members.last().0,
    ) && members.last().1.is_valid()
}

/// The items of a list, with commas between them.
pub open spec fn items_text(items: Seq<Written>, gap: Seq<char>) -> Seq<char>
    decreases items,
{
    if items.len() == 0 {
        Seq::empty()
    } else if items.len() == 1 {
        items.last().text(gap) + gap
    } else {
        items_text(items.drop_last(), gap) + seq![','] + gap + items.last().text(gap) + gap
    }
}

/// The members of an object, with commas between them.
pub open spec fn members_text(members: Seq<(Seq<Unit>, Written)>, gap: Seq<char>) -> Seq<char>
    decreases members,
{
    if members.len() == 0 {
        Seq::empty()
    } else {
        (if members.len() == 1 {
            Seq::empty()
        } else {
            members_text(members.drop_last(), gap) + seq![','] + gap
        }) + string_text(members.last().0) + gap + seq![':'] + gap + members.last().1.text(gap)
            + gap
    }
}

/// Where a reader that stands at `from` stands behind `text`.
pub open spec fn reading_on(from: Reading, text: Seq<char>) -> Reading
    decreases text.len(),
{
    if text.len() == 0 {
        from
    } else {
        reading_on(from, text.drop_last()).after(text.last())
    }
}

proof fn lemma_reading_on(from: Reading, front: Seq<char>, back: Seq<char>)
    ensures
        reading_on(from, front + back) == reading_on(reading_on(from, front), back),
    decreases back.len(),
{
    let all = front + back;
    if back.len() == 0 {
        assert(all =~= front);
    } else {
        lemma_reading_on(from, front, back.drop_last());
        assert(all.drop_last() =~= front + back.drop_last());
    }
}

proof fn lemma_reading_starts(text: Seq<char>)
    ensures
        reading(text) == reading_on(Reading::start(), text),
    decreases text.len(),
{
    if text.len() > 0 {
        lemma_reading_starts(text.drop_last());
    }
}

proof fn lemma_one(from: Reading, c: char)
    ensures
        reading_on(from, seq![c]) == from.after(c),
{
    assert(seq![c].drop_last() =~= Seq::empty());
    assert(reading_on(from, Seq::empty()) == from);
}

/// Whether a value has ended at `place`, but for digits that might follow.
spec fn has_ended(place: Place) -> bool {
    place == Place::Next || place == Place::Zero || place == Place::Digits || place
        == Place::Fraction || place == Place::Power
}

/// Whether a token is due at `place`.
spec fn is_waiting(place: Place) -> bool {
    place == Place::Value || place == Place::FirstItem || place == Place::FirstName || place
        == Place::Name || place == Place::Colon
}

proof fn lemma_gap(from: Reading, gap: Seq<char>)
    requires
        forall|i: int| 0 <= i < gap.len() ==> is_blank(#[trigger] gap[i]),
        is_waiting(from.place) || has_ended(from.place),
    ensures
        reading_on(from, gap).open == from.open,
        is_waiting(from.place) ==> reading_on(from, gap) == from,
        has_ended(from.place) ==> has_ended(reading_on(from, gap).place),
    decreases gap.len(),
{
    if gap.len() > 0 {
        let rest = gap.drop_last();
        assert forall|i: int| 0 <= i < rest.len() implies is_blank(#[trigger] rest[i]) by {
            assert(rest[i] == gap[i]);
        }
        assert(is_blank(gap[gap.len() - 1]));
        lemma_gap(from, rest);
    }
}

proof fn lemma_unit(from: Reading, unit: Unit)
    requires
        unit.is_valid(),
        from.place is Text,
    ensures
        reading_on(from, unit.text()) == from,
{
    match unit {
        Unit::Plain(c) => {
            lemma_one(from, c);
        },
        Unit::Short(c) => {
            let behind = from.after('\\');
            assert(seq!['\\', c] =~= seq!['\\'] + seq![c]);
            lemma_reading_on(from, seq!['\\'], seq![c]);
            lemma_one(from, '\\');
            lemma_one(behind, c);
            let known = seq!['"', '\\', '/', 'b', 'f', 'n', 'r', 't'];
            let k = choose|k: int| 0 <= k < known.len() && known[k] == c;
            assert(is_escape(c));
        },
        Unit::Hex(a, b, c, d) => {
            let one = from.after('\\');
            let two = one.after('u');
            let three = two.after(a);
            let four = three.after(b);
            let five = four.after(c);
            assert(seq!['\\', 'u', a, b, c, d] =~= seq!['\\'] + seq!['u'] + seq![a] + seq![b]
                + seq![c] + seq![d]);
            lemma_reading_on(from, seq!['\\'], seq!['u']);
            lemma_reading_on(from, seq!['\\'] + seq!['u'], seq![a]);
            lemma_reading_on(from, seq!['\\'] + seq!['u'] + seq![a], seq![b]);
            lemma_reading_on(from, seq!['\\'] + seq!['u'] + seq![a] + seq![b], seq![c]);
            lemma_reading_on(
                from,
                seq!['\\'] + seq!['u'] + seq![a] + seq![b] + seq![c],
                seq![d],
            );
            lemma_one(from, '\\');
            lemma_one(one, 'u');
            lemma_one(two, a);
            lemma_one(three, b);
            lemma_one(four, c);
            lemma_one(five, d);
        },
    }
}

proof fn lemma_units(from: Reading, units: Seq<Unit>)
    requires
        units_are_valid(units),
        from.place is Text,
    ensures
        reading_on(from, units_text(units)) == from,
    decreases units.len(),
{
    if units.len() > 0 {
        let rest = units.drop_last();
        assert forall|i: int| 0 <= i < rest.len() implies (#[trigger] rest[i]).is_valid() by {
            assert(rest[i] == units[i]);
        }
        assert(units[units.len() - 1].is_valid());
        lemma_units(from, rest);
        lemma_reading_on(from, units_text(rest), units.last().text());
        lemma_unit(from, units.last());
    }
}

/// A string is read from where it may begin to where it ends.
proof fn lemma_string(from: Reading, units: Seq<Unit>)
    requires
        units_are_valid(units),
        from.place == Place::Value || from.place == Place::FirstItem || from.place
            == Place::FirstName || from.place == Place::Name,
    ensures
        reading_on(from, string_text(units)).open == from.open,
        from.place == Place::Value || from.place == Place::FirstItem ==> reading_on(
            from,
            string_text(units),
        ).place == Place::Next,
        from.place == Place::FirstName || from.place == Place::Name ==> reading_on(
            from,
            string_text(units),
        ).place == Place::Colon,
{
    let inner = from.after('"');
    lemma_one(from, '"');
    lemma_reading_on(from, seq!['"'], units_text(units));
    lemma_units(inner, units);
    lemma_reading_on(from, seq!['"'] + units_text(units), seq!['"']);
    lemma_one(inner, '"');
}

proof fn lemma_digits(from: Reading, digits: Seq<char>)
    requires
        are_digits(digits),
        from.place == Place::Digits || from.place == Place::Fraction || from.place
            == Place::Power,
    ensures
        reading_on(from, digits) == from,
    decreases digits.len(),
{
    if digits.len() > 0 {
        let rest = digits.drop_last();
        assert forall|i: int| 0 <= i < rest.len() implies '0' <= #[trigger] rest[i] <= '9' by {
            assert(rest[i] == digits[i]);
        }
        assert('0' <= digits[digits.len() - 1] <= '9');
        lemma_digits(from, rest);
    }
}

/// Digits behind a place where the first of them leads to where the others stay.
proof fn lemma_digits_begin(from: Reading, digits: Seq<char>)
    requires
        are_digits(digits),
        digits.len() > 0,
        from.place == Place::Point || from.place == Place::Exponent || from.place == Place::Sign,
    ensures
        reading_on(from, digits).open == from.open,
        reading_on(from, digits).place == (if from.place == Place::Point {
            Place::Fraction
        } else {
            Place::Power
        }),
{
    let rest = digits.drop_first();
    assert(digits =~= seq![digits[0]] + rest);
    assert forall|i: int| 0 <= i < rest.len() implies '0' <= #[trigger] rest[i] <= '9' by {
        assert(rest[i] == digits[i + 1]);
    }
    lemma_reading_on(from, seq![digits[0]], rest);
    lemma_one(from, digits[0]);
    lemma_digits(from.after(digits[0]), rest);
}

/// The whole part of a number, with its sign.
proof fn lemma_whole(from: Reading, numeral: Numeral)
    requires
        numeral.is_valid(),
        from.place == Place::Value || from.place == Place::FirstItem,
    ensures
        ({
            let sign = if numeral.negative {
                seq!['-']
            } else {
                Seq::empty()
            };
            let r = reading_on(from, sign + numeral.whole);
            r.open == from.open && (r.place == Place::Zero || r.place == Place::Digits)
        }),
{
    let sign = if numeral.negative {
        seq!['-']
    } else {
        Seq::empty()
    };
    let whole = numeral.whole;
    let first = whole[0];
    let rest = whole.drop_first();
    let begun = reading_on(from, sign);
    assert(reading_on(from, Seq::empty()) == from);
    if numeral.negative {
        lemma_one(from, '-');
    }
    lemma_reading_on(from, sign, whole);
    assert(whole =~= seq![first] + rest);
    lemma_reading_on(begun, seq![first], rest);
    lemma_one(begun, first);
    let after_first = begun.after(first);
    if first == '0' {
        assert(rest =~= Seq::empty());
        assert(reading_on(after_first, Seq::empty()) == after_first);
    } else {
        assert forall|i: int| 0 <= i < rest.len() implies '0' <= #[trigger] rest[i] <= '9' by {
            assert(rest[i] == whole[i + 1]);
        }
        assert(after_first.place == Place::Digits);
        lemma_digits(after_first, rest);
    }
}

proof fn lemma_number(from: Reading, numeral: Numeral)
    requires
        numeral.is_valid(),
        from.place == Place::Value || from.place == Place::FirstItem,
    ensures
        reading_on(from, numeral.text()).open == from.open,
        has_ended(reading_on(from, numeral.text()).place),
{
    let sign = if numeral.negative {
        seq!['-']
    } else {
        Seq::empty()
    };
    let fraction = if numeral.fraction.len() > 0 {
        seq!['.'] + numeral.fraction
    } else {
        Seq::empty()
    };
    let exponent_sign = match numeral.sign {
        Some(sign) => seq![sign],
        None => Seq::empty(),
    };
    let exponent = if numeral.power.len() > 0 {
        seq![numeral.letter] + exponent_sign + numeral.power
    } else {
        Seq::empty()
    };
    let one = reading_on(from, sign + numeral.whole);
    lemma_whole(from, numeral);
    let two = reading_on(one, fraction);
    lemma_reading_on(from, sign + numeral.whole, fraction);
    if numeral.fraction.len() > 0 {
        lemma_reading_on(one, seq!['.'], numeral.fraction);
        lemma_one(one, '.');
        lemma_digits_begin(one.after('.'), numeral.fraction);
    } else {
        assert(two == one);
    }
    lemma_reading_on(from, sign + numeral.whole + fraction, exponent);
    if numeral.power.len() > 0 {
        let lead = seq![numeral.letter] + exponent_sign;
        lemma_reading_on(two, lead, numeral.power);
        lemma_reading_on(two, seq![numeral.letter], exponent_sign);
        lemma_one(two, numeral.letter);
        let three = two.after(numeral.letter);
        assert(three.place == Place::Exponent);
        if let Some(c) = numeral.sign {
            lemma_one(three, c);
        } else {
            assert(reading_on(three, Seq::empty()) == three);
        }
        lemma_digits_begin(reading_on(three, exponent_sign), numeral.power);
    } else {
        assert(reading_on(two, exponent) == two);
    }
}

proof fn lemma_literal(from: Reading, value: Written)
    requires
        value is Null || value is Bool,
        from.place == Place::Value || from.place == Place::FirstItem,
    ensures
        reading_on(from, value.text(Seq::empty())).open == from.open,
        reading_on(from, value.text(Seq::empty())).place == Place::Next,
{
    let text = value.text(Seq::empty());
    let t1 = text.take(1);
    let t2 = text.take(2);
    let t3 = text.take(3);
    let t4 = text.take(4);
    assert(t1.drop_last() =~= Seq::empty());
    assert(t2.drop_last() =~= t1);
    assert(t3.drop_last() =~= t2);
    assert(t4.drop_last() =~= t3);
    assert(reading_on(from, Seq::empty()) == from);
    assert(reading_on(from, t1) == from.after(text[0]));
    assert(reading_on(from, t2) == reading_on(from, t1).after(text[1]));
    assert(reading_on(from, t3) == reading_on(from, t2).after(text[2]));
    assert(reading_on(from, t4) == reading_on(from, t3).after(text[3]));
    if value == Written::Bool(false) {
        assert(text.drop_last() =~= t4);
        assert(reading_on(from, text) == reading_on(from, t4).after('e'));
    } else {
        assert(text =~= t4);
    }
}

/// Behind a value, a comma or a closing bracket leads on whatever the value was.
proof fn lemma_behind_value(from: Reading, c: char)
    requires
        has_ended(from.place),
        c == ',' || c == ']' || c == '}',
    ensures
        moved(from.place, from.inside(), c) == value_ended(from.inside(), c),
{
}

proof fn lemma_value(from: Reading, value: Written, gap: Seq<char>)
    requires
        value.is_valid(),
        forall|i: int| 0 <= i < gap.len() ==> is_blank(#[trigger] gap[i]),
        from.place == Place::Value || from.place == Place::FirstItem,
        from.open.len() > 0,
    ensures
        reading_on(from, value.text(gap)).open == from.open,
        has_ended(reading_on(from, value.text(gap)).place),
    decreases value, 0int,
{
    match value {
        Written::Null => {
            lemma_literal(from, value);
        },
        Written::Bool(_) => {
            lemma_literal(from, value);
        },
        Written::Number(numeral) => {
            lemma_number(from, numeral);
        },
        Written::Text(units) => {
            lemma_string(from, units);
        },
        Written::List(items) => {
            let inner = from.after('[');
            let text = items_text(items, gap);
            lemma_one(from, '[');
            lemma_reading_on(from, seq!['['], gap);
            lemma_gap(inner, gap);
            lemma_reading_on(from, seq!['['] + gap, text);
            lemma_items(inner, items, gap);
            lemma_reading_on(from, seq!['['] + gap + text, seq![']']);
            let last = reading_on(inner, text);
            lemma_one(last, ']');
            if items.len() > 0 {
                lemma_behind_value(last, ']');
            }
            assert(last.open.drop_last() =~= from.open);
        },
        Written::Object(members) => {
            lemma_object(from, members, gap);
        },
    }
}

proof fn lemma_items(from: Reading, items: Seq<Written>, gap: Seq<char>)
    requires
        items_are_valid(items),
        forall|i: int| 0 <= i < gap.len() ==> is_blank(#[trigger] gap[i]),
        from.place == Place::FirstItem,
        from.open.len() > 0,
        !from.open.last(),
    ensures
        reading_on(from, items_text(items, gap)).open == from.open,
        items.len() == 0 ==> reading_on(from, items_text(items, gap)) == from,
        items.len() > 0 ==> has_ended(reading_on(from, items_text(items, gap)).place),
    decreases items, 0int,
{
    if items.len() == 1 {
        let value = items.last().text(gap);
        lemma_value(from, items.last(), gap);
        lemma_reading_on(from, value, gap);
        lemma_gap(reading_on(from, value), gap);
    } else if items.len() > 1 {
        let before = items_text(items.drop_last(), gap);
        let value = items.last().text(gap);
        lemma_items(from, items.drop_last(), gap);
        let one = reading_on(from, before);
        lemma_behind_value(one, ',');
        lemma_one(one, ',');
        lemma_reading_on(from, before, seq![',']);
        let two = one.after(',');
        lemma_reading_on(from, before + seq![','], gap);
        lemma_gap(two, gap);
        lemma_reading_on(from, before + seq![','] + gap, value);
        lemma_value(two, items.last(), gap);
        lemma_reading_on(from, before + seq![','] + gap + value, gap);
        lemma_gap(reading_on(two, value), gap);
    }
}

proof fn lemma_object(from: Reading, members: Seq<(Seq<Unit>, Written)>, gap: Seq<char>)
    requires
        members_are_valid(members),
        forall|i: int| 0 <= i < gap.len() ==> is_blank(#[trigger] gap[i]),
        from.place == Place::Value || from.place == Place::FirstItem,
    ensures
        ({
            let r = reading_on(from, Written::Object(members).text(gap));
            &&& from.open.len() > 0 ==> r == (Reading { place: Place::Next, open: from.open })
            &&& from.open.len() == 0 ==> r.place == Place::Done
        }),
    decreases members, 1int,
{
    let inner = from.after('{');
    let text = members_text(members, gap);
    lemma_one(from, '{');
    lemma_reading_on(from, seq!['{'], gap);
    lemma_gap(inner, gap);
    lemma_reading_on(from, seq!['{'] + gap, text);
    lemma_member_texts(inner, members, gap);
    lemma_reading_on(from, seq!['{'] + gap + text, seq!['}']);
    let last = reading_on(inner, text);
    lemma_one(last, '}');
    if members.len() > 0 {
        lemma_behind_value(last, '}');
    }
    assert(last.open.drop_last() =~= from.open);
}

proof fn lemma_member_texts(
    from: Reading,
    members: Seq<(Seq<Unit>, Written)>,
    gap: Seq<char>,
)
    requires
        members_are_valid(members),
        forall|i: int| 0 <= i < gap.len() ==> is_blank(#[trigger] gap[i]),
        from.place == Place::FirstName,
        from.open.len() > 0,
        from.open.last(),
    ensures
        reading_on(from, members_text(members, gap)).open == from.open,
        members.len() == 0 ==> reading_on(from, members_text(members, gap)) == from,
        members.len() > 0 ==> has_ended(reading_on(from, members_text(members, gap)).place),
    decreases members, 0int,
{
    if members.len() > 0 {
        let (name, value) = members.last();
        let lead = if members.len() == 1 {
            Seq::empty()
        } else {
            members_text(members.drop_last(), gap) + seq![','] + gap
        };
        let one = reading_on(from, lead);
        if members.len() == 1 {
            assert(one == from);
        } else {
            let before = members_text(members.drop_last(), gap);
            lemma_member_texts(from, members.drop_last(), gap);
            let zero = reading_on(from, before);
            lemma_behind_value(zero, ',');
            lemma_one(zero, ',');
            lemma_reading_on(from, before, seq![',']);
            lemma_reading_on(from, before + seq![','], gap);
            lemma_gap(zero.after(','), gap);
        }
        let named = string_text(name);
        lemma_reading_on(from, lead, named);
        lemma_string(one, name);
        let two = reading_on(one, named);
        lemma_reading_on(from, lead + named, gap);
        lemma_gap(two, gap);
        lemma_reading_on(from, lead + named + gap, seq![':']);
        lemma_one(two, ':');
        let three = two.after(':');
        lemma_reading_on(from, lead + named + gap + seq![':'], gap);
        lemma_gap(three, gap);
        assert(decreases_to!(members => members.last()));
        assert(decreases_to!(members.last() => members.last().1));
        lemma_reading_on(from, lead + named + gap + seq![':'] + gap, value.text(gap));
        lemma_value(three, value, gap);
        lemma_reading_on(
            from,
            lead + named + gap + seq![':'] + gap + value.text(gap),
            gap,
        );
        lemma_gap(reading_on(three, value.text(gap)), gap);
    }
}

/// Every object is read, however it is written: with any members, nested as deep as they may be,
/// with any escapes and any numbers, and any blanks between its tokens.
pub proof fn every_object_is_read(members: Seq<(Seq<Unit>, Written)>, gap: Seq<char>)
    requires
        members_are_valid(members),
        forall|i: int|
            0 <= i < gap.len() ==> #[trigger] gap[i] == ' ' || gap[i] == '\t' || gap[i] == '\n'
                || gap[i] == '\r',
    ensures
        is_json_object(Written::Object(members).text(gap)),
{
    let text = Written::Object(members).text(gap);
    assert forall|i: int| 0 <= i < gap.len() implies is_blank(#[trigger] gap[i]) by {}
    lemma_reading_starts(text);
    lemma_object(Reading::start(), members, gap);
    assert(text[0] == '{');
}

/// Nothing but JSON is read: at each place only these characters lead on.
pub proof fn only_json_is_read(place: Place, inside: Option<bool>, c: char)
    requires
        moved(place, inside, c).0 != Place::Failed,
    ensures
        ({
            let blank = c == ' ' || c == '\t' || c == '\n' || c == '\r';
            let digit = '0' <= c <= '9';
            let value = digit || c == '"' || c == '{' || c == '[' || c == '-' || c == 't' || c
                == 'f' || c == 'n';
            let behind = blank || c == ',' && inside is Some || c == '}' && inside == Some(true)
                || c == ']' && inside == Some(false);
            let power = c == 'e' || c == 'E';
            match place {
                Place::Value => blank || value,
                Place::FirstItem => blank || value || c == ']',
                Place::FirstName => blank || c == '"' || c == '}',
                Place::Name => blank || c == '"',
                Place::Colon => blank || c == ':',
                Place::Next => behind,
                Place::Text { .. } => c >= ' ',
                Place::Escape { .. } => seq!['"', '\\', '/', 'b', 'f', 'n', 'r', 't', 'u'].contains(
                    c,
                ),
                Place::Hex { .. } => is_hex(c),
                Place::Minus => digit,
                Place::Zero => behind || power || c == '.',
                Place::Digits => behind || power || c == '.' || digit,
                Place::Point => digit,
                Place::Fraction => behind || power || digit,
                Place::Exponent => digit || c == '+' || c == '-',
                Place::Sign => digit,
                Place::Power => behind || digit,
                Place::Rue => c == 'r',
                Place::Ue => c == 'u',
                Place::E => c == 'e',
                Place::Alse => c == 'a',
                Place::Lse => c == 'l',
                Place::Se => c == 's',
                Place::Ull => c == 'u',
                Place::Ll => c == 'l',
                Place::L => c == 'l',
                Place::Done => false,
                Place::Failed => false,
            }
        }),
        moved(place, inside, c).1 is Close ==> c == '}' || c == ']',
        moved(place, inside, c).1 is Open <==> (place == Place::Value || place == Place::FirstItem)
            && (c == '{' || c == '['),
{
    let known = seq!['"', '\\', '/', 'b', 'f', 'n', 'r', 't', 'u'];
    assert(known[0] == '"' && known[1] == '\\' && known[2] == '/' && known[3] == 'b' && known[4]
        == 'f' && known[5] == 'n' && known[6] == 'r' && known[7] == 't' && known[8] == 'u');
}

/// A document is over only where its last open bracket closes.
pub proof fn documents_end_with_their_last_bracket(text: Seq<char>, c: char)
    requires
        reading(text.push(c)).place == Place::Done,
    ensures
        c == '}' || c == ']',
        reading(text).open.len() <= 1,
{
    assert(text.push(c).drop_last() =~= text);
    let before = reading(text);
    if moved(before.place, before.inside(), c).0 != Place::Failed {
        only_json_is_read(before.place, before.inside(), c);
    }
}

} // verus!
