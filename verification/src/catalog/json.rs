//! JSON documents as plain values.

use crate::digest::hex_digit;
use crate::lists::{greatest, lemma_greatest_member};
use crate::text::same_text;
use vstd::prelude::*;
use vstd::string::*;

verus! {

/// A JSON value.
#[derive(Debug)]
pub enum Json {
    Null,
    Bool(bool),
    Number(JsonNumber),
    Text(String),
    List(Vec<Json>),
    Object(Vec<JsonMember>),
}

/// A JSON number: its value, where that is a natural number of at most 64 bits,
/// and how it is written.
#[derive(Debug)]
pub struct JsonNumber {
    pub natural: Option<u64>,
    pub text: String,
}

/// A member of a JSON object.
#[derive(Debug)]
pub struct JsonMember {
    pub key: String,
    pub value: Json,
}

/// What a JSON value says itself, apart from the values it is made of.
pub enum JsonShape {
    Null,
    Bool(bool),
    Number(Option<u64>, Seq<char>),
    Text(Seq<char>),
    List,
    Object(Seq<Seq<char>>),
}

/// The content of a [`Json`]: what it says itself, and the values it is made of.
pub struct JsonTerm {
    pub shape: JsonShape,
    pub parts: Seq<JsonTerm>,
}

/// The content of a JSON value.
pub open spec fn json_term(json: Json) -> JsonTerm
    decreases json,
{
    match json {
        Json::Null => JsonTerm { shape: JsonShape::Null, parts: Seq::empty() },
        Json::Bool(value) => JsonTerm { shape: JsonShape::Bool(value), parts: Seq::empty() },
        Json::Number(number) => JsonTerm {
            shape: JsonShape::Number(number.natural, number.text@),
            parts: Seq::empty(),
        },
        Json::Text(text) => JsonTerm { shape: JsonShape::Text(text@), parts: Seq::empty() },
        Json::List(items) => JsonTerm { shape: JsonShape::List, parts: json_terms(items@) },
        Json::Object(members) => JsonTerm {
            shape: JsonShape::Object(member_keys(members@)),
            parts: member_terms(members@),
        },
    }
}

/// The contents of JSON values.
pub open spec fn json_terms(items: Seq<Json>) -> Seq<JsonTerm>
    decreases items,
{
    Seq::new(
        items.len(),
        |i: int|
            if 0 <= i < items.len() {
                json_term(items[i])
            } else {
                arbitrary()
            },
    )
}

/// The keys of members.
pub open spec fn member_keys(members: Seq<JsonMember>) -> Seq<Seq<char>> {
    Seq::new(members.len(), |i: int| members[i].key@)
}

/// The contents of the values of members.
pub open spec fn member_terms(members: Seq<JsonMember>) -> Seq<JsonTerm>
    decreases members,
{
    Seq::new(
        members.len(),
        |i: int|
            if 0 <= i < members.len() {
                json_term(members[i].value)
            } else {
                arbitrary()
            },
    )
}

impl View for Json {
    type V = JsonTerm;

    open spec fn view(&self) -> JsonTerm {
        json_term(*self)
    }
}

/// How many levels a JSON value has.
pub open spec fn json_height(json: JsonTerm) -> nat
    decreases json,
{
    1 + greatest(json_heights(json.parts))
}

/// How many levels each of several JSON values has.
pub open spec fn json_heights(items: Seq<JsonTerm>) -> Seq<nat>
    decreases items,
{
    Seq::new(
        items.len(),
        |i: int|
            if 0 <= i < items.len() {
                json_height(items[i])
            } else {
                0
            },
    )
}

/// A part has fewer levels than the whole.
pub proof fn lemma_json_part(json: JsonTerm, i: int)
    requires
        0 <= i < json.parts.len(),
    ensures
        json_height(json.parts[i]) < json_height(json),
{
    assert(json_heights(json.parts)[i] == json_height(json.parts[i]));
    lemma_greatest_member(json_heights(json.parts), i);
}

/// Where a key first stands, from a place on.
pub open spec fn key_from(keys: Seq<Seq<char>>, key: Seq<char>, i: int) -> Option<int>
    decreases keys.len() - i,
{
    if i < 0 || i >= keys.len() {
        None
    } else if keys[i] == key {
        Some(i)
    } else {
        key_from(keys, key, i + 1)
    }
}

/// Where the member of a key stands.
pub open spec fn member_place(json: JsonTerm, key: Seq<char>) -> Option<int> {
    match json.shape {
        JsonShape::Object(keys) => if keys.len() == json.parts.len() {
            key_from(keys, key, 0)
        } else {
            None
        },
        _ => None,
    }
}

/// The member of a key, of an object that has it.
pub open spec fn member(json: JsonTerm, key: Seq<char>) -> Option<JsonTerm> {
    match member_place(json, key) {
        Some(i) => Some(json.parts[i]),
        None => None,
    }
}

/// The member of a key, where there is a value and it has one.
pub open spec fn member_of(json: Option<JsonTerm>, key: Seq<char>) -> Option<JsonTerm> {
    match json {
        Some(json) => member(json, key),
        None => None,
    }
}

/// Whether a value is an object.
pub open spec fn is_object(json: Option<JsonTerm>) -> bool {
    json matches Some(json) && json.shape is Object
}

/// Whether a value is a list.
pub open spec fn is_list(json: Option<JsonTerm>) -> bool {
    json matches Some(json) && json.shape is List
}

/// The items of a list, or none.
pub open spec fn items_of(json: Option<JsonTerm>) -> Seq<JsonTerm> {
    match json {
        Some(json) => if json.shape is List {
            json.parts
        } else {
            Seq::empty()
        },
        None => Seq::empty(),
    }
}

/// The text that a value is.
pub open spec fn string_of(json: Option<JsonTerm>) -> Option<Seq<char>> {
    match json {
        Some(json) => match json.shape {
            JsonShape::Text(text) => Some(text),
            _ => None,
        },
        None => None,
    }
}

/// The natural number that a value is.
pub open spec fn natural_of(json: Option<JsonTerm>) -> Option<u64> {
    match json {
        Some(json) => match json.shape {
            JsonShape::Number(natural, _) => natural,
            _ => None,
        },
        None => None,
    }
}

/// A found member is one of the parts.
pub proof fn lemma_member(json: JsonTerm, key: Seq<char>)
    ensures
        member_place(json, key) matches Some(i) ==> 0 <= i < json.parts.len() && member(json, key)
            == Some(json.parts[i]) && json_height(json.parts[i]) < json_height(json)
            && json.shape is Object,
{
    if let JsonShape::Object(keys) = json.shape {
        if keys.len() == json.parts.len() {
            lemma_key_from(keys, key, 0);
            if let Some(i) = key_from(keys, key, 0) {
                lemma_json_part(json, i);
            }
        }
    }
}

/// A found key is one of the keys.
proof fn lemma_key_from(keys: Seq<Seq<char>>, key: Seq<char>, i: int)
    requires
        0 <= i,
    ensures
        key_from(keys, key, i) matches Some(found) ==> i <= found < keys.len() && keys[found] == key,
    decreases keys.len() - i,
{
    if i < keys.len() && keys[i] != key {
        lemma_key_from(keys, key, i + 1);
    }
}

/// What a JSON document holds, or what is wrong with it.
pub uninterp spec fn parsed_json(bytes: Seq<u8>) -> Result<JsonTerm, Seq<char>>;

/// What a `serde_json::Value` holds.
pub uninterp spec fn value_content(value: serde_json::Value) -> JsonTerm;

#[verifier::external_type_specification]
#[verifier::external_body]
pub struct ExValue(serde_json::Value);

/// `serde_json::from_slice` reads a document: what it holds, or the message of
/// the error, is a function of the bytes.
#[verifier::external_body]
fn parsed_value(bytes: &Vec<u8>) -> (value: Result<serde_json::Value, String>)
    ensures
        match value {
            Ok(value) => parsed_json(bytes@) == Ok::<JsonTerm, Seq<char>>(value_content(value)),
            Err(message) => parsed_json(bytes@) == Err::<JsonTerm, Seq<char>>(message@),
        },
{
    serde_json::from_slice(bytes).map_err(|error| error.to_string())
}

/// The variants of `serde_json::Value` one for one: numbers with `as_u64` and
/// their text, arrays and objects item by item in the order they are held in.
#[verifier::external_body]
fn plain_value(value: serde_json::Value) -> (json: Json)
    ensures
        json@ == value_content(value),
{
    match value {
        serde_json::Value::Null => Json::Null,
        serde_json::Value::Bool(value) => Json::Bool(value),
        serde_json::Value::Number(number) => Json::Number(
            JsonNumber { natural: number.as_u64(), text: number.to_string() },
        ),
        serde_json::Value::String(text) => Json::Text(text),
        serde_json::Value::Array(items) => Json::List(items.into_iter().map(plain_value).collect()),
        serde_json::Value::Object(members) => Json::Object(
            members.into_iter().map(
                |(key, value)| JsonMember { key, value: plain_value(value) },
            ).collect(),
        ),
    }
}

/// Reads a JSON document.
pub fn parse_json(bytes: &Vec<u8>) -> (json: Result<Json, String>)
    ensures
        match json {
            Ok(json) => parsed_json(bytes@) == Ok::<JsonTerm, Seq<char>>(json@),
            Err(message) => parsed_json(bytes@) == Err::<JsonTerm, Seq<char>>(message@),
        },
{
    match parsed_value(bytes) {
        Ok(value) => Ok(plain_value(value)),
        Err(message) => Err(message),
    }
}

/// How a character is written in a JSON text: quotes, backslashes and control
/// characters are escaped, and any other stands for itself.
pub open spec fn escaped_char(c: char) -> Seq<char> {
    let code = c as int;
    if c == '"' || c == '\\' {
        seq!['\\', c]
    } else if code >= 0x20 {
        seq![c]
    } else if code == 0x08 {
        seq!['\\', 'b']
    } else if code == 0x09 {
        seq!['\\', 't']
    } else if code == 0x0a {
        seq!['\\', 'n']
    } else if code == 0x0c {
        seq!['\\', 'f']
    } else if code == 0x0d {
        seq!['\\', 'r']
    } else {
        seq!['\\', 'u', '0', '0', hex_digit((code / 16) as nat), hex_digit((code % 16) as nat)]
    }
}

/// How characters are written in a JSON text, one after the other.
pub open spec fn escaped_text(text: Seq<char>) -> Seq<char>
    decreases text.len(),
{
    if text.len() == 0 {
        Seq::empty()
    } else {
        escaped_text(text.drop_last()) + escaped_char(text.last())
    }
}

/// How a text is written in JSON.
pub open spec fn quoted_text(text: Seq<char>) -> Seq<char> {
    seq!['"'] + escaped_text(text) + seq!['"']
}

/// Writing a `serde_json::Value` made from a text puts it between quotes, with
/// quotes, backslashes and control characters escaped.
#[verifier::external_body]
fn quoted(text: &str) -> (written: String)
    ensures
        written@ == quoted_text(text@),
{
    serde_json::Value::from(text).to_string()
}

/// How a value is written in JSON, without white space.
pub open spec fn compact(json: JsonTerm) -> Seq<char>
    decreases json_height(json), 1int, 0int,
{
    match json.shape {
        JsonShape::Null => "null"@,
        JsonShape::Bool(value) => if value {
            "true"@
        } else {
            "false"@
        },
        JsonShape::Number(_, text) => text,
        JsonShape::Text(text) => quoted_text(text),
        JsonShape::List => "["@ + compact_items(json, json.parts.len() as int) + "]"@,
        JsonShape::Object(keys) => "{"@ + compact_members(json, keys, json.parts.len() as int)
            + "}"@,
    }
}

/// How the first so many items of a list are written, with commas between.
pub open spec fn compact_items(json: JsonTerm, n: int) -> Seq<char>
    decreases json_height(json), 0int, n,
{
    if n <= 0 || n > json.parts.len() {
        Seq::empty()
    } else {
        proof {
            lemma_json_part(json, n - 1);
        }
        let before = compact_items(json, n - 1);
        let item = compact(json.parts[n - 1]);
        if n == 1 {
            item
        } else {
            before + ","@ + item
        }
    }
}

/// How the first so many members of an object are written, with commas between.
pub open spec fn compact_members(json: JsonTerm, keys: Seq<Seq<char>>, n: int) -> Seq<char>
    decreases json_height(json), 0int, n,
{
    if n <= 0 || n > json.parts.len() {
        Seq::empty()
    } else {
        proof {
            lemma_json_part(json, n - 1);
        }
        let before = compact_members(json, keys, n - 1);
        let written = quoted_text(keys[n - 1]) + ":"@ + compact(json.parts[n - 1]);
        if n == 1 {
            written
        } else {
            before + ","@ + written
        }
    }
}

impl Json {
    /// The member of a key, of an object that has it.
    #[verifier::loop_isolation(false)]
    pub fn get(&self, key: &str) -> (found: Option<&Json>)
        ensures
            match found {
                Some(found) => member(self@, key@) == Some(found@) && json_height(found@)
                    < json_height(self@),
                None => member(self@, key@) is None,
            },
    {
        proof {
            lemma_member(self@, key@);
        }
        match self {
            Json::Object(members) => {
                let ghost keys = member_keys(members@);
                let mut i: usize = 0;
                while i < members.len()
                    invariant
                        i <= members@.len(),
                        keys == member_keys(members@),
                        key_from(keys, key@, 0) == key_from(keys, key@, i as int),
                    decreases members@.len() - i,
                {
                    assert(keys[i as int] == members@[i as int].key@);
                    if same_text(members[i].key.as_str(), key) {
                        assert(self@.parts[i as int] == json_term(members@[i as int].value));
                        return Some(&members[i].value);
                    }
                    i += 1;
                }
                None
            },
            _ => None,
        }
    }

    /// Whether this is an object.
    pub fn is_object(&self) -> (is: bool)
        ensures
            is == is_object(Some(self@)),
    {
        matches!(self, Json::Object(_))
    }

    /// The items of a list.
    pub fn as_list(&self) -> (items: Option<&Vec<Json>>)
        ensures
            match items {
                Some(items) => self@.shape is List && self@.parts == json_terms(items@),
                None => !(self@.shape is List),
            },
    {
        match self {
            Json::List(items) => Some(items),
            _ => None,
        }
    }

    /// The text that this is.
    pub fn as_str(&self) -> (text: Option<&str>)
        ensures
            match text {
                Some(text) => string_of(Some(self@)) == Some(text@),
                None => string_of(Some(self@)) is None,
            },
    {
        match self {
            Json::Text(text) => Some(text.as_str()),
            _ => None,
        }
    }

    /// The natural number that this is.
    pub fn natural(&self) -> (number: Option<u64>)
        ensures
            number == natural_of(Some(self@)),
    {
        match self {
            Json::Number(number) => number.natural,
            _ => None,
        }
    }

    /// How this is written in JSON, without white space.
    #[verifier::loop_isolation(false)]
    pub fn compact(&self) -> (text: String)
        ensures
            text@ == compact(self@),
        decreases json_height(self@),
    {
        let ghost term = self@;
        match self {
            Json::Null => "null".to_owned(),
            Json::Bool(value) => if *value {
                "true".to_owned()
            } else {
                "false".to_owned()
            },
            Json::Number(number) => number.text.clone(),
            Json::Text(text) => quoted(text.as_str()),
            Json::List(items) => {
                let mut text = String::new();
                let mut i: usize = 0;
                while i < items.len()
                    invariant
                        i <= items@.len(),
                        text@ == compact_items(term, i as int),
                    decreases items@.len() - i,
                {
                    proof {
                        assert(term.parts[i as int] == items@[i as int]@);
                        lemma_json_part(term, i as int);
                    }
                    if i > 0 {
                        text.append(",");
                    }
                    let item = items[i].compact();
                    text.append(item.as_str());
                    proof {
                        if i == 0 {
                            assert(text@ =~= item@);
                        } else {
                            assert(text@ =~= compact_items(term, i as int) + ","@ + item@);
                        }
                    }
                    i += 1;
                }
                let mut whole = "[".to_owned();
                whole.append(text.as_str());
                whole.append("]");
                whole
            },
            Json::Object(members) => {
                let ghost keys = member_keys(members@);
                let mut text = String::new();
                let mut i: usize = 0;
                while i < members.len()
                    invariant
                        i <= members@.len(),
                        text@ == compact_members(term, keys, i as int),
                    decreases members@.len() - i,
                {
                    proof {
                        assert(term.parts[i as int] == members@[i as int].value@);
                        lemma_json_part(term, i as int);
                    }
                    if i > 0 {
                        text.append(",");
                    }
                    let mut written = quoted(members[i].key.as_str());
                    written.append(":");
                    let value = members[i].value.compact();
                    written.append(value.as_str());
                    text.append(written.as_str());
                    proof {
                        if i == 0 {
                            assert(text@ =~= written@);
                        } else {
                            assert(text@ =~= compact_members(term, keys, i as int) + ","@
                                + written@);
                        }
                    }
                    i += 1;
                }
                let mut whole = "{".to_owned();
                whole.append(text.as_str());
                whole.append("}");
                whole
            },
        }
    }
}

/// The member of a key, where there is a value and it has one.
pub(crate) fn get_in<'a>(json: Option<&'a Json>, key: &str) -> (found: Option<&'a Json>)
    ensures
        optional_json(found) == member_of(optional_json(json), key@),
        found is Some ==> json is Some && json_height((found->0)@) < json_height((json->0)@),
{
    match json {
        Some(json) => json.get(key),
        None => None,
    }
}

/// The content of a value, where there is one.
pub open spec fn optional_json(json: Option<&Json>) -> Option<JsonTerm> {
    match json {
        Some(json) => Some(json@),
        None => None,
    }
}

/// A value, where it is an object.
pub(crate) fn object_in<'a>(json: Option<&'a Json>) -> (found: Option<&'a Json>)
    ensures
        optional_json(found) == only_object(optional_json(json)),
        found is Some ==> found == json,
{
    match json {
        Some(json) => if json.is_object() {
            Some(json)
        } else {
            None
        },
        None => None,
    }
}

/// A value, where it is an object.
pub open spec fn only_object(json: Option<JsonTerm>) -> Option<JsonTerm> {
    if is_object(json) {
        json
    } else {
        None
    }
}

/// The text that a value is, where there is one.
pub(crate) fn string_in<'a>(json: Option<&'a Json>) -> (text: Option<&'a str>)
    ensures
        match text {
            Some(text) => string_of(optional_json(json)) == Some(text@),
            None => string_of(optional_json(json)) is None,
        },
{
    match json {
        Some(json) => json.as_str(),
        None => None,
    }
}

/// The items of a list, where there is one.
pub(crate) fn list_in<'a>(json: Option<&'a Json>) -> (items: Option<&'a Vec<Json>>)
    ensures
        match items {
            Some(items) => is_list(optional_json(json)) && json_terms(items@) == items_of(
                optional_json(json),
            ),
            None => !is_list(optional_json(json)),
        },
{
    match json {
        Some(json) => json.as_list(),
        None => None,
    }
}

} // verus!
