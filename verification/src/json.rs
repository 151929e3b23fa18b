//! JSON values as `serde_json` reads and writes them.

use crate::seqs;
use vstd::prelude::*;

verus! {

/// A value of `serde_json`, seen only through the functions below.
#[verifier::external_type_specification]
#[verifier::external_body]
pub struct ExValue(serde_json::Value);

/// What a JSON value is.
#[verifier::ext_equal]
pub enum JsonView {
    Null,
    Bool(bool),
    Integer(int),
    /// A number that is stored as a float, in the notation in which it is written.
    Fraction(Seq<char>),
    Text(Seq<char>),
    List(Seq<JsonView>),
    Object(Map<Seq<char>, JsonView>),
}

/// What a value of `serde_json` holds.
pub uninterp spec fn json_contents(value: serde_json::Value) -> JsonView;

/// What `serde_json::from_str` makes of a text: a JSON value, or the message of
/// its error.
pub uninterp spec fn json_parse(text: Seq<char>) -> Result<JsonView, Seq<char>>;

/// How the errors of `serde_json::from_value` describe a value that is not the
/// expected one, such as "integer `3`".
pub uninterp spec fn json_unexpected(value: JsonView) -> Seq<char>;

/// How a character is written in a JSON string: quotes, backslashes and control
/// characters are escaped, all others stand for themselves.
pub open spec fn escaped(c: char) -> Seq<char> {
    let code = c as u32;
    if c == '"' {
        seq!['\\', '"']
    } else if c == '\\' {
        seq!['\\', '\\']
    } else if code == 0x08 {
        seq!['\\', 'b']
    } else if code == 0x09 {
        seq!['\\', 't']
    } else if code == 0x0a {
        seq!['\\', 'n']
    } else if code == 0x0c {
        seq!['\\', 'f']
    } else if code == 0x0d {
        seq!['\\', 'r']
    } else if code < 0x20 {
        seq!['\\', 'u', '0', '0', hex_digit(code as int / 16), hex_digit(code as int % 16)]
    } else {
        seq![c]
    }
}

/// A digit below 16 as it is written.
pub open spec fn hex_digit(n: int) -> char {
    seq!['0', '1', '2', '3', '4', '5', '6', '7', '8', '9', 'a', 'b', 'c', 'd', 'e', 'f'][n]
}

/// The JSON string of a text, with its quotes.
pub open spec fn json_quoted(text: Seq<char>) -> Seq<char> {
    seq!['"'] + text.map_values(|c: char| escaped(c)).flatten() + seq!['"']
}

/// The contents of several values.
pub open spec fn all_contents(values: Seq<serde_json::Value>) -> Seq<JsonView> {
    values.map_values(|v: serde_json::Value| json_contents(v))
}

/// The message of an error about a value of the wrong type.
pub open spec fn wrong_type(value: JsonView, expected: Seq<char>) -> Seq<char> {
    "invalid type: "@ + json_unexpected(value) + ", expected "@ + expected
}

/// The message of an error about a value of the right type that is out of range.
pub open spec fn wrong_value(value: JsonView, expected: Seq<char>) -> Seq<char> {
    "invalid value: "@ + json_unexpected(value) + ", expected "@ + expected
}

/// Calls `serde_json::from_str` for a `serde_json::Value`. Claims that the value,
/// or the message of the error, depends on the text alone.
#[verifier::external_body]
pub(crate) fn parse(text: &str) -> (r: Result<serde_json::Value, String>)
    ensures
        match r {
            Ok(value) => json_parse(text@) == Ok::<JsonView, Seq<char>>(json_contents(value)),
            Err(message) => json_parse(text@) == Err::<JsonView, Seq<char>>(message@),
        },
{
    serde_json::from_str(text).map_err(|error| error.to_string())
}

/// Calls `serde_json::from_value` for a `serde_json::Map`. Claims that exactly the
/// objects are accepted, and what the error says of any other value.
#[verifier::external_body]
pub(crate) fn check_object(value: &serde_json::Value) -> (r: Result<(), String>)
    ensures
        match r {
            Ok(_) => json_contents(*value) is Object,
            Err(message) => !(json_contents(*value) is Object) && message@ == "invalid type: "@
                + json_unexpected(json_contents(*value)) + ", expected "@ + "a map"@,
        },
{
    match serde_json::from_value::<serde_json::Map<String, serde_json::Value>>(value.clone()) {
        Ok(_) => Ok(()),
        Err(error) => Err(error.to_string()),
    }
}

/// Calls `serde_json::Value::get` with a text. Claims that it finds the value of
/// that name in an object, and nothing in any other value.
#[verifier::external_body]
pub(crate) fn member<'a>(value: &'a serde_json::Value, name: &str) -> (r: Option<
    &'a serde_json::Value,
>)
    ensures
        match json_contents(*value) {
            JsonView::Object(members) => match r {
                Some(v) => members.contains_key(name@) && json_contents(*v) == members[name@],
                None => !members.contains_key(name@),
            },
            _ => r is None,
        },
{
    value.get(name)
}

/// Calls `serde_json::Value::as_array`. Claims that it gives the elements of a
/// list, and nothing for any other value.
#[verifier::external_body]
pub(crate) fn elements(value: &serde_json::Value) -> (r: Option<&Vec<serde_json::Value>>)
    ensures
        match r {
            Some(items) => json_contents(*value) == JsonView::List(all_contents(items@)),
            None => !(json_contents(*value) is List),
        },
{
    value.as_array()
}

/// Calls `serde_json::Value::as_str`. Claims that it gives the text of a JSON
/// string, and nothing for any other value.
#[verifier::external_body]
pub(crate) fn as_text(value: &serde_json::Value) -> (r: Option<&str>)
    ensures
        match r {
            Some(text) => json_contents(*value) == JsonView::Text(text@),
            None => !(json_contents(*value) is Text),
        },
{
    value.as_str()
}

/// Calls `serde_json::from_value` for a `String`. Claims that it gives the text of
/// a JSON string, and what the error says of any other value.
#[verifier::external_body]
pub(crate) fn to_text(value: &serde_json::Value) -> (r: Result<String, String>)
    ensures
        seqs::result_view(r) == text_of(json_contents(*value)),
{
    serde_json::from_value::<String>(value.clone()).map_err(|error| error.to_string())
}

/// The text that a value is, or what is said of a value that is none.
pub open spec fn text_of(value: JsonView) -> Result<Seq<char>, Seq<char>> {
    match value {
        JsonView::Text(text) => Ok(text),
        _ => Err(wrong_type(value, "a string"@)),
    }
}

/// Calls `serde_json::from_value` for an `Option<u8>`. Claims that null is nothing,
/// that an integer below 256 is itself, and what the error says of any other value.
#[verifier::external_body]
pub(crate) fn to_optional_byte(value: &serde_json::Value) -> (r: Result<Option<u8>, String>)
    ensures
        seqs::result_view(r) == optional_byte_of(json_contents(*value)),
{
    serde_json::from_value::<Option<u8>>(value.clone()).map_err(|error| error.to_string())
}

/// The small number that a value is, if any, or what is said of a value that is
/// none.
pub open spec fn optional_byte_of(value: JsonView) -> Result<Option<u8>, Seq<char>> {
    match value {
        JsonView::Null => Ok(None),
        JsonView::Integer(n) => if 0 <= n <= 255 {
            Ok(Some(n as u8))
        } else {
            Err(wrong_value(value, "u8"@))
        },
        _ => Err(wrong_type(value, "u8"@)),
    }
}

/// Calls `serde_json::to_string` for a text. Claims that it gives the text in
/// quotes, with the escapes of a JSON string, five of them by a letter and the
/// other control characters by four hexadecimal digits.
#[verifier::external_body]
pub(crate) fn quote(text: &str) -> (r: String)
    ensures
        r@ == json_quoted(text@),
{
    serde_json::to_string(text).unwrap_or_default()
}

} // verus!
