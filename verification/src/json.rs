//! JSON values: what they hold, how they are read from text, and their canonical text.

use vstd::prelude::*;

use crate::text::same;

verus! {

/// A JSON value. The members of an object are listed in any order; where a key is
/// listed twice, the later member counts.
#[derive(Debug)]
pub enum JsonValue {
    Null,
    Bool(bool),
    /// A number, as it is written.
    Number(String),
    Text(String),
    Array(Vec<JsonValue>),
    Object(Vec<(String, JsonValue)>),
}

/// What a JSON value holds: an object is a map, so the order of its members is no part
/// of it.
pub enum JsonModel {
    Null,
    Bool(bool),
    Number(Seq<char>),
    Text(Seq<char>),
    Array(Seq<JsonModel>),
    Object(Map<Seq<char>, JsonModel>),
}

/// What each of a row of values holds.
pub open spec fn array_model(items: Seq<JsonValue>) -> Seq<JsonModel>
    decreases items,
{
    if items.len() == 0 {
        Seq::empty()
    } else {
        array_model(items.drop_last()).push(items.last().model())
    }
}

/// What a list of members holds: the later of two members with one key counts.
pub open spec fn object_model(members: Seq<(String, JsonValue)>) -> Map<Seq<char>, JsonModel>
    decreases members,
{
    if members.len() == 0 {
        Map::empty()
    } else {
        object_model(members.drop_last()).insert(members.last().0@, members.last().1.model())
    }
}

impl JsonValue {
    /// What the value holds.
    pub open spec fn model(self) -> JsonModel
        decreases self,
    {
        match self {
            JsonValue::Null => JsonModel::Null,
            JsonValue::Bool(b) => JsonModel::Bool(b),
            JsonValue::Number(text) => JsonModel::Number(text@),
            JsonValue::Text(text) => JsonModel::Text(text@),
            JsonValue::Array(items) => JsonModel::Array(array_model(items@)),
            JsonValue::Object(members) => JsonModel::Object(object_model(members@)),
        }
    }
}

impl View for JsonValue {
    type V = JsonModel;

    open spec fn view(&self) -> JsonModel {
        self.model()
    }
}

/// `serde_json::Value`, which holds a parsed JSON document.
#[verifier::external_type_specification]
#[verifier::external_body]
pub struct ExValue(serde_json::Value);

/// What `serde_json::from_str` reads in a text: the JSON value that the text is, or
/// `None` where it is none.
pub uninterp spec fn parsed_json(text: Seq<char>) -> Option<JsonModel>;

/// What an optional value holds.
pub open spec fn optional_model(value: Option<JsonValue>) -> Option<JsonModel> {
    match value {
        Some(value) => Some(value@),
        None => None,
    }
}

/// Turns a `serde_json::Value` into a [`JsonValue`], variant by variant; a number is
/// taken over by its `Display` text. Nothing is claimed of the result.
#[verifier::external_body]
fn json_value(value: serde_json::Value) -> (json: JsonValue) {
    match value {
        serde_json::Value::Null => JsonValue::Null,
        serde_json::Value::Bool(b) => JsonValue::Bool(b),
        serde_json::Value::Number(n) => JsonValue::Number(n.to_string()),
        serde_json::Value::String(s) => JsonValue::Text(s),
        serde_json::Value::Array(items) => JsonValue::Array(
            items.into_iter().map(json_value).collect(),
        ),
        serde_json::Value::Object(map) => JsonValue::Object(
            map.into_iter().map(|(key, item)| (key, json_value(item))).collect(),
        ),
    }
}

/// Calls `serde_json::from_str`, which reads a JSON document and returns an error for a
/// text that is none. The result is named by [`parsed_json`]; nothing more is claimed
/// of it.
#[verifier::external_body]
fn from_str(text: &str) -> (json: Option<JsonValue>)
    ensures
        optional_model(json) == parsed_json(text@),
{
    serde_json::from_str::<serde_json::Value>(text).ok().map(json_value)
}

/// The text for one character inside a JSON string.
pub open spec fn escaped_char(c: char) -> Seq<char> {
    if c == '"' {
        seq!['\\', '"']
    } else if c == '\\' {
        seq!['\\', '\\']
    } else if c == '\u{8}' {
        seq!['\\', 'b']
    } else if c == '\u{9}' {
        seq!['\\', 't']
    } else if c == '\u{a}' {
        seq!['\\', 'n']
    } else if c == '\u{c}' {
        seq!['\\', 'f']
    } else if c == '\u{d}' {
        seq!['\\', 'r']
    } else if (c as nat) < 16 {
        seq!['\\', 'u', '0', '0', '0', hex_digit(c as nat)]
    } else if (c as nat) < 32 {
        seq!['\\', 'u', '0', '0', '1', hex_digit((c as nat - 16) as nat)]
    } else {
        seq![c]
    }
}

/// The hexadecimal digit for a number below sixteen.
pub open spec fn hex_digit(n: nat) -> char {
    if n < 10 {
        (n + '0' as nat) as char
    } else {
        (n - 10 + 'a' as nat) as char
    }
}

/// The text for the characters inside a JSON string.
pub open spec fn escaped(text: Seq<char>) -> Seq<char>
    decreases text.len(),
{
    if text.len() == 0 {
        Seq::empty()
    } else {
        escaped(text.drop_last()) + escaped_char(text.last())
    }
}

/// A text as a JSON string: between quotes, with the quote, the backslash and the
/// control characters escaped.
pub open spec fn quoted(text: Seq<char>) -> Seq<char> {
    seq!['"'] + escaped(text) + seq!['"']
}

/// Calls `serde_json::to_string` on a text, which writes it as a JSON string: quotes
/// around it; `"`, `\` and the control characters below U+0020 escaped, those without a
/// short escape as `\u00` and two lowercase hexadecimal digits; all else as it is.
#[verifier::external_body]
pub(crate) fn quote(text: &str) -> (json: String)
    ensures
        json@ == quoted(text@),
{
    serde_json::to_string(text).unwrap_or_default()
}

impl JsonValue {
    /// Reads a JSON document.
    pub fn parse(text: &str) -> (json: Option<JsonValue>)
        ensures
            optional_model(json) == parsed_json(text@),
    {
        from_str(text)
    }
}

/// Each item of an array stands at its own place in what the array holds.
pub proof fn lemma_array_model(items: Seq<JsonValue>)
    ensures
        array_model(items).len() == items.len(),
        forall|i: int| 0 <= i < items.len() ==> #[trigger] array_model(items)[i] == items[i].model(),
    decreases items.len(),
{
    if items.len() > 0 {
        lemma_array_model(items.drop_last());
    }
}

/// An object has finitely many keys: those of its members.
pub proof fn lemma_object_model(members: Seq<(String, JsonValue)>)
    ensures
        object_model(members).dom().finite(),
        forall|key: Seq<char>| #[trigger]
            object_model(members).contains_key(key) <==> exists|i: int|
                0 <= i < members.len() && #[trigger] members[i].0@ == key,
    decreases members.len(),
{
    if members.len() > 0 {
        let front = members.drop_last();
        lemma_object_model(front);
        assert forall|key: Seq<char>| #[trigger] object_model(members).contains_key(key) implies exists|
            i: int,
        | 0 <= i < members.len() && #[trigger] members[i].0@ == key by {
            if key == members.last().0@ {
                assert(members[members.len() - 1].0@ == key);
            } else {
                let i = choose|i: int| 0 <= i < front.len() && #[trigger] front[i].0@ == key;
                assert(members[i].0@ == key);
            }
        }
        assert forall|key: Seq<char>|
            (exists|i: int| 0 <= i < members.len() && #[trigger] members[i].0@ == key)
            implies #[trigger] object_model(members).contains_key(key) by {
            let i = choose|i: int| 0 <= i < members.len() && #[trigger] members[i].0@ == key;
            if i < front.len() {
                assert(front[i].0@ == key);
            }
        }
    }
}

/// The value that an object holds under a key; anything else holds none.
pub open spec fn member(json: JsonModel, key: Seq<char>) -> Option<JsonModel> {
    match json {
        JsonModel::Object(members) => if members.contains_key(key) {
            Some(members[key])
        } else {
            None
        },
        _ => None,
    }
}

/// The text of a JSON string; anything else has none.
pub open spec fn text_of(json: Option<JsonModel>) -> Option<Seq<char>> {
    match json {
        Some(JsonModel::Text(text)) => Some(text),
        _ => None,
    }
}

/// What a borrowed optional value holds.
pub open spec fn borrowed_model(value: Option<&JsonValue>) -> Option<JsonModel> {
    match value {
        Some(value) => Some(value@),
        None => None,
    }
}

/// The characters of a borrowed optional text.
pub open spec fn borrowed_text(text: Option<&str>) -> Option<Seq<char>> {
    match text {
        Some(text) => Some(text@),
        None => None,
    }
}

/// The text of a JSON string, where the value is one.
pub fn as_text(value: Option<&JsonValue>) -> (text: Option<&str>)
    ensures
        borrowed_text(text) == text_of(borrowed_model(value)),
{
    match value {
        Some(JsonValue::Text(text)) => Some(text.as_str()),
        _ => None,
    }
}

/// The value that an object's members hold under a key.
fn find<'a>(members: &'a Vec<(String, JsonValue)>, key: &str) -> (value: Option<&'a JsonValue>)
    ensures
        borrowed_model(value) == member(JsonModel::Object(object_model(members@)), key@),
{
    let mut i: usize = members.len();
    proof {
        assert(members@.take(i as int) == members@);
    }
    while i > 0
        invariant
            i <= members.len(),
            member(JsonModel::Object(object_model(members@.take(i as int))), key@) == member(
                JsonModel::Object(object_model(members@)),
                key@,
            ),
        decreases i,
    {
        proof {
            assert(members@.take(i as int).drop_last() == members@.take(i - 1));
            assert(members@.take(i as int).last() == members@[i - 1]);
        }
        i -= 1;
        if same(members[i].0.as_str(), key) {
            return Some(&members[i].1);
        }
    }
    None
}

impl JsonValue {
    /// The value that an object holds under a key.
    pub fn get(&self, key: &str) -> (value: Option<&JsonValue>)
        ensures
            borrowed_model(value) == member(self@, key@),
    {
        match self {
            JsonValue::Object(members) => find(members, key),
            _ => None,
        }
    }

    /// A second value that holds the same.
    pub fn duplicate(&self) -> (copy: JsonValue)
        ensures
            copy@ == self@,
        decreases self,
    {
        match self {
            JsonValue::Null => JsonValue::Null,
            JsonValue::Bool(b) => JsonValue::Bool(*b),
            JsonValue::Number(text) => JsonValue::Number(text.clone()),
            JsonValue::Text(text) => JsonValue::Text(text.clone()),
            JsonValue::Array(items) => {
                let mut copies: Vec<JsonValue> = Vec::new();
                let mut i: usize = 0;
                while i < items.len()
                    invariant
                        i <= items.len(),
                        *self == JsonValue::Array(*items),
                        array_model(copies@) == array_model(items@.take(i as int)),
                    decreases items.len() - i,
                {
                    proof {
                        assert(decreases_to!(self => self->Array_0));
                        assert(decreases_to!(items => items@));
                        assert(decreases_to!(items@ => items@[i as int]));
                    }
                    let copy = items[i].duplicate();
                    let ghost before = copies@;
                    copies.push(copy);
                    proof {
                        assert(copies@.drop_last() == before);
                        assert(items@.take(i + 1).drop_last() == items@.take(i as int));
                    }
                    i += 1;
                }
                proof {
                    assert(items@.take(i as int) == items@);
                }
                JsonValue::Array(copies)
            },
            JsonValue::Object(members) => {
                let mut copies: Vec<(String, JsonValue)> = Vec::new();
                let mut i: usize = 0;
                while i < members.len()
                    invariant
                        i <= members.len(),
                        *self == JsonValue::Object(*members),
                        object_model(copies@) == object_model(members@.take(i as int)),
                    decreases members.len() - i,
                {
                    proof {
                        assert(decreases_to!(self => self->Object_0));
                        assert(decreases_to!(members => members@));
                        assert(decreases_to!(members@ => members@[i as int]));
                        assert(decreases_to!(members@[i as int] => members@[i as int].1));
                    }
                    let copy = members[i].1.duplicate();
                    let ghost before = copies@;
                    copies.push((members[i].0.clone(), copy));
                    proof {
                        assert(copies@.drop_last() == before);
                        assert(members@.take(i + 1).drop_last() == members@.take(i as int));
                    }
                    i += 1;
                }
                proof {
                    assert(members@.take(i as int) == members@);
                }
                JsonValue::Object(copies)
            },
        }
    }
}

/// Adds a member to an object under construction.
pub fn with_member(members: Vec<(String, JsonValue)>, key: &str, value: JsonValue) -> (grown: Vec<
    (String, JsonValue),
>)
    ensures
        object_model(grown@) == object_model(members@).insert(key@, value@),
{
    let ghost before = members@;
    let mut grown: Vec<(String, JsonValue)> = members;
    grown.push((key.to_owned(), value));
    proof {
        assert(grown@.drop_last() == before);
    }
    grown
}

/// Equal rows stay equal without an equal beginning.
pub proof fn lemma_after_prefix(p: Seq<char>, x: Seq<char>, y: Seq<char>)
    requires
        p + x == p + y,
    ensures
        x == y,
{
    assert((p + x).skip(p.len() as int) == x);
    assert((p + y).skip(p.len() as int) == y);
}

/// The text for the characters of a string begins with that for the first one.
proof fn lemma_escaped_first(text: Seq<char>)
    requires
        text.len() > 0,
    ensures
        escaped(text) == escaped_char(text[0]) + escaped(text.drop_first()),
    decreases text.len(),
{
    if text.len() == 1 {
        assert(text.drop_last() == Seq::<char>::empty());
        assert(text.drop_first() == Seq::<char>::empty());
        assert(escaped(text.drop_last()) == Seq::<char>::empty());
        assert(escaped(text) =~= escaped_char(text[0]) + escaped(text.drop_first()));
    } else {
        lemma_escaped_first(text.drop_last());
        assert(text.drop_last().drop_first() == text.drop_first().drop_last());
        assert(text.drop_first().last() == text.last());
        assert(escaped(text) =~= escaped_char(text[0]) + escaped(text.drop_first()));
    }
}

/// The text for a character tells which character it is, and where it ends.
proof fn lemma_char_apart(c: char, x: Seq<char>, d: char, y: Seq<char>)
    requires
        escaped_char(c) + x == escaped_char(d) + y,
    ensures
        c == d,
        x == y,
{
    let left = escaped_char(c) + x;
    let right = escaped_char(d) + y;
    assert(left[0] == escaped_char(c)[0]);
    assert(right[0] == escaped_char(d)[0]);
    if escaped_char(c).len() > 1 {
        assert(left[1] == escaped_char(c)[1]);
    }
    if escaped_char(d).len() > 1 {
        assert(right[1] == escaped_char(d)[1]);
    }
    if escaped_char(c).len() == 6 {
        assert(left[4] == escaped_char(c)[4]);
        assert(left[5] == escaped_char(c)[5]);
    }
    if escaped_char(d).len() == 6 {
        assert(right[4] == escaped_char(d)[4]);
        assert(right[5] == escaped_char(d)[5]);
    }
    assert(c == d);
    lemma_after_prefix(escaped_char(c), x, y);
}

proof fn lemma_escaped_apart(s: Seq<char>, x: Seq<char>, t: Seq<char>, y: Seq<char>)
    requires
        escaped(s) + seq!['"'] + x == escaped(t) + seq!['"'] + y,
    ensures
        s == t,
        x == y,
    decreases s.len(),
{
    let left = escaped(s) + seq!['"'] + x;
    let right = escaped(t) + seq!['"'] + y;
    if s.len() == 0 && t.len() == 0 {
        assert(s == t);
        assert(left == seq!['"'] + x);
        assert(right == seq!['"'] + y);
        lemma_after_prefix(seq!['"'], x, y);
    } else if s.len() == 0 {
        lemma_escaped_first(t);
        assert(left[0] == '"');
        assert(right[0] == escaped_char(t[0])[0]);
    } else if t.len() == 0 {
        lemma_escaped_first(s);
        assert(right[0] == '"');
        assert(left[0] == escaped_char(s[0])[0]);
    } else {
        lemma_escaped_first(s);
        lemma_escaped_first(t);
        let u = escaped(s.drop_first()) + seq!['"'] + x;
        let v = escaped(t.drop_first()) + seq!['"'] + y;
        assert(left =~= escaped_char(s[0]) + u);
        assert(right =~= escaped_char(t[0]) + v);
        lemma_char_apart(s[0], u, t[0], v);
        lemma_escaped_apart(s.drop_first(), x, t.drop_first(), y);
        assert(s == seq![s[0]] + s.drop_first());
        assert(t == seq![t[0]] + t.drop_first());
    }
}

/// A JSON string tells which text it is for, and where it ends, whatever follows it.
pub proof fn law_strings_are_unambiguous(
    s: Seq<char>,
    x: Seq<char>,
    t: Seq<char>,
    y: Seq<char>,
)
    requires
        quoted(s) + x == quoted(t) + y,
    ensures
        s == t,
        x == y,
{
    let u = escaped(s) + seq!['"'] + x;
    let v = escaped(t) + seq!['"'] + y;
    assert(quoted(s) + x =~= seq!['"'] + u);
    assert(quoted(t) + y =~= seq!['"'] + v);
    lemma_after_prefix(seq!['"'], u, v);
    lemma_escaped_apart(s, x, t, y);
}

/// An object holds under a key what its last member with that key holds, and nothing under a
/// key that no member has.
pub proof fn law_the_last_member_counts(members: Seq<(String, JsonValue)>, key: Seq<char>)
    ensures
        (forall|i: int| 0 <= i < members.len() ==> #[trigger] members[i].0@ != key) ==> member(
            JsonModel::Object(object_model(members)),
            key,
        ) is None,
        forall|at: int|
            0 <= at < members.len() && #[trigger] members[at].0@ == key && (forall|j: int|
                at < j < members.len() ==> #[trigger] members[j].0@ != key) ==> member(
                JsonModel::Object(object_model(members)),
                key,
            ) == Some(members[at].1.model()),
    decreases members.len(),
{
    if members.len() > 0 {
        let front = members.drop_last();
        let n = members.len() - 1;
        law_the_last_member_counts(front, key);
        if forall|i: int| 0 <= i < members.len() ==> #[trigger] members[i].0@ != key {
            assert forall|i: int| 0 <= i < front.len() implies #[trigger] front[i].0@ != key by {
                assert(members[i].0@ != key);
            }
            assert(members[n].0@ != key);
        }
        assert forall|at: int|
            0 <= at < members.len() && #[trigger] members[at].0@ == key && (forall|j: int|
                at < j < members.len() ==> #[trigger] members[j].0@ != key) implies member(
            JsonModel::Object(object_model(members)),
            key,
        ) == Some(members[at].1.model()) by {
            if at < n {
                assert(members[n].0@ != key);
                assert(front[at].0@ == key);
                assert forall|j: int| at < j < front.len() implies #[trigger] front[j].0@ != key by {
                    assert(members[j].0@ != key);
                }
            }
        }
    }
}

/// Only an object holds members, and only a string has a text.
pub proof fn law_only_objects_have_members(json: JsonModel, key: Seq<char>)
    ensures
        member(json, key) is Some <==> json is Object && json->Object_0.contains_key(key),
        member(json, key) is Some ==> member(json, key)->0 == json->Object_0[key],
        text_of(Some(json)) is Some <==> json is Text,
        json is Text ==> text_of(Some(json)) == Some(json->Text_0),
        text_of(None) is None,
{
}

/// An array holds what its items hold, each at its place.
pub proof fn law_items_keep_their_place(items: Seq<JsonValue>)
    ensures
        array_model(items).len() == items.len(),
        forall|i: int| 0 <= i < items.len() ==> #[trigger] array_model(items)[i] == items[i].model(),
{
    lemma_array_model(items);
}

/// A value is seen as it is, whatever it is, and so is an optional one.
pub proof fn law_values_are_seen_whole(value: JsonValue, text: &str)
    ensures
        value is Null ==> value@ is Null,
        value matches JsonValue::Bool(b) ==> value@ == JsonModel::Bool(b),
        value matches JsonValue::Number(number) ==> value@ == JsonModel::Number(number@),
        value matches JsonValue::Text(text) ==> value@ == JsonModel::Text(text@),
        value matches JsonValue::Array(items) ==> value@ == JsonModel::Array(array_model(items@)),
        value matches JsonValue::Object(members) ==> value@ == JsonModel::Object(
            object_model(members@),
        ),
        optional_model(Some(value)) == Some(value@),
        optional_model(None) is None,
        borrowed_model(Some(&value)) == Some(value@),
        borrowed_model(None) is None,
        borrowed_text(Some(text)) == Some(text@),
        borrowed_text(None) is None,
{
}

}
