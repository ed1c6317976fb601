//! JSON values, as far as a project file has to be looked into before its
//! document is read.
use crate::double::Double;
use crate::whole::int_double;
use vstd::prelude::*;

verus! {

/// A JSON value of the `serde_json` crate.
#[verifier::external_type_specification]
#[verifier::external_body]
pub struct ExValue(serde_json::Value);

/// Why a text is no JSON.
#[verifier::external_type_specification]
#[verifier::external_body]
pub struct ExJsonError(serde_json::Error);

/// A number of a JSON value. An integer that fits is kept as one.
#[verifier::ext_equal]
pub enum JsonNumber {
    Natural(u64),
    Negative(i64),
    Fraction(Double),
}

/// What a JSON value holds.
#[verifier::ext_equal]
pub enum Json {
    Null,
    Bool(bool),
    Number(JsonNumber),
    Text(Seq<char>),
    List(Seq<Json>),
    Object(Map<Seq<char>, Json>),
}

/// What a value of the `serde_json` crate holds.
pub uninterp spec fn tree(value: serde_json::Value) -> Json;

/// What a text says as JSON; nothing if it is none.
pub uninterp spec fn parsed(text: Seq<char>) -> Option<Json>;

impl Json {
    /// Whether this is an object with a key.
    pub open spec fn has(self, key: Seq<char>) -> bool {
        self matches Json::Object(map) && map.dom().contains(key)
    }

    /// What an object holds under a key.
    pub open spec fn at(self, key: Seq<char>) -> Json {
        self->Object_0[key]
    }

    /// The boolean that this is, if it is one.
    pub open spec fn truth(self) -> Option<bool> {
        match self {
            Json::Bool(b) => Some(b),
            _ => None,
        }
    }

    /// The text that this is, if it is one.
    pub open spec fn text(self) -> Option<Seq<char>> {
        match self {
            Json::Text(s) => Some(s),
            _ => None,
        }
    }

    /// The number that this is, if it is one; an integer as the double nearest
    /// to it.
    pub open spec fn number(self) -> Option<Double> {
        match self {
            Json::Number(JsonNumber::Natural(n)) => Some(int_double(n as int)),
            Json::Number(JsonNumber::Negative(n)) => Some(int_double(n as int)),
            Json::Number(JsonNumber::Fraction(d)) => Some(d),
            _ => None,
        }
    }
}

/// `serde_json::from_str` into a value: what the text says, or an error if it
/// is no JSON. Which texts are JSON is left to the crate.
#[verifier::external_body]
pub(crate) fn parse_text(text: &str) -> (res: Result<serde_json::Value, serde_json::Error>)
    ensures
        res.is_ok() == parsed(text@).is_some(),
        res.is_ok() ==> tree(res.unwrap()) == parsed(text@).unwrap(),
{
    serde_json::from_str(text)
}

/// `serde_json::Value::get` with a key: a copy of what an object holds under
/// it. There is nothing under a key that the object does not have, nor in a
/// value that is no object.
#[verifier::external_body]
pub(crate) fn value_at(value: &serde_json::Value, key: &str) -> (res: Option<serde_json::Value>)
    ensures
        res.is_some() == tree(*value).has(key@),
        res.is_some() ==> tree(res.unwrap()) == tree(*value).at(key@),
{
    value.get(key).cloned()
}

/// `serde_json::Value::as_bool`: the boolean that a value is.
#[verifier::external_body]
pub(crate) fn value_truth(value: &serde_json::Value) -> (res: Option<bool>)
    ensures
        res == tree(*value).truth(),
{
    value.as_bool()
}

/// `serde_json::Value::as_str`: the text that a value is.
#[verifier::external_body]
pub(crate) fn value_text(value: &serde_json::Value) -> (res: Option<String>)
    ensures
        res.is_some() == tree(*value).text().is_some(),
        res.is_some() ==> res.unwrap()@ == tree(*value).text().unwrap(),
{
    value.as_str().map(|text| text.to_string())
}

/// `serde_json::Value::as_f64`: the number that a value is, by its bits. An
/// integer gives the nearest double.
#[verifier::external_body]
pub(crate) fn value_number(value: &serde_json::Value) -> (res: Option<Double>)
    ensures
        res == tree(*value).number(),
{
    value.as_f64().map(|number| Double::from_bits(number.to_bits()))
}

} // verus!
