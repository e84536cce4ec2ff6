//! JSON text, as the crate `serde_json` reads it.

use crate::json::{Json, JsonValue};
use crate::utils::{output_value, output_value_of};
use serde_json::Value;
use vstd::prelude::*;

verus! {

#[verifier::external_type_specification]
#[verifier::external_body]
pub struct ExValue(serde_json::Value);

/// What a value of `serde_json` holds: null, a truth value, a number, a
/// string, a list of values, or fields with their values in the order in
/// which the value gives them. A number is held as an integer where it is
/// one of 64 bits, and else by its text.
pub uninterp spec fn value_contents(v: serde_json::Value) -> JsonValue;

/// What the text holds as `serde_json::from_str` reads it, and `None` where
/// the text is no JSON.
pub uninterp spec fn json_parsed(text: Seq<char>) -> Option<JsonValue>;

/// The character is white space.
pub open spec fn is_white_space(c: char) -> bool {
    let u = c as u32;
    (0x09 <= u <= 0x0D) || u == 0x20 || u == 0x85 || u == 0xA0 || u == 0x1680 || (0x2000 <= u
        <= 0x200A) || u == 0x2028 || u == 0x2029 || u == 0x202F || u == 0x205F || u == 0x3000
}

/// `k` is where the white space at the end of the text begins.
pub open spec fn is_end_of_text(text: Seq<char>, k: int) -> bool {
    &&& 0 <= k <= text.len()
    &&& k > 0 ==> !is_white_space(text[k - 1])
    &&& forall|j: int| k <= j < text.len() ==> is_white_space(text[j])
}

/// The text without the white space at its end.
pub open spec fn trimmed_end(text: Seq<char>) -> Seq<char> {
    text.subrange(0, choose|k: int| is_end_of_text(text, k))
}

proof fn lemma_end_of_text(text: Seq<char>, k: int)
    requires
        is_end_of_text(text, k),
    ensures
        (choose|k: int| is_end_of_text(text, k)) == k,
{
    let c = choose|c: int| is_end_of_text(text, c);
    assert(is_end_of_text(text, c));
    if c < k {
        assert(is_white_space(text[k - 1]));
    }
    if k < c {
        assert(is_white_space(text[c - 1]));
    }
}

/// `serde_json::from_str` to a `serde_json::Value`; `None` where it fails.
#[verifier::external_body]
fn parse_value(text: &str) -> (r: Option<serde_json::Value>)
    ensures
        match r {
            Some(v) => json_parsed(text@) == Some(value_contents(v)),
            None => json_parsed(text@) is None,
        },
{
    serde_json::from_str::<serde_json::Value>(text).ok()
}

/// Takes a `serde_json::Value` apart, variant by variant, into the value of
/// this library that holds the same. `Number::as_u64` and `Number::as_i64`
/// tell the integers from the other numbers, which are kept by their text.
#[verifier::external_body]
fn json_of_value(v: &serde_json::Value) -> (r: Json)
    ensures
        r@ == value_contents(*v),
{
    match v {
        Value::Null => Json::Null,
        Value::Bool(b) => Json::Bool(*b),
        Value::Number(n) => match (n.as_u64(), n.as_i64()) {
            (Some(u), _) => Json::Unsigned(u),
            (None, Some(i)) => Json::Signed(i),
            (None, None) => Json::Decimal(n.to_string()),
        },
        Value::String(s) => Json::Str(s.clone()),
        Value::Array(a) => Json::Array(a.iter().map(json_of_value).collect()),
        Value::Object(o) => Json::Object(
            o.iter().map(|(k, x)| (k.clone(), json_of_value(x))).collect(),
        ),
    }
}

/// Whether the character is white space.
pub fn white_space(c: char) -> (r: bool)
    ensures
        r == is_white_space(c),
{
    let u = c as u32;
    (0x09 <= u && u <= 0x0D) || u == 0x20 || u == 0x85 || u == 0xA0 || u == 0x1680 || (0x2000 <= u
        && u <= 0x200A) || u == 0x2028 || u == 0x2029 || u == 0x202F || u == 0x205F || u == 0x3000
}

/// The text without the white space at its end.
pub fn trim_end(text: &str) -> (r: &str)
    ensures
        r@ == trimmed_end(text@),
{
    let n = text.unicode_len();
    let mut k: usize = n;
    while k > 0 && white_space(text.get_char(k - 1))
        invariant
            k <= n,
            n == text@.len(),
            forall|j: int| k <= j < n ==> is_white_space(text@[j]),
        decreases k,
    {
        k -= 1;
    }
    proof {
        lemma_end_of_text(text@, k as int);
    }
    text.substring_char(0, k)
}

/// The value that the text holds, where it is JSON.
pub fn parse_json(text: &str) -> (r: Option<Json>)
    ensures
        match r {
            Some(j) => json_parsed(text@) == Some(j@),
            None => json_parsed(text@) is None,
        },
{
    match parse_value(text) {
        Some(v) => Some(json_of_value(&v)),
        None => None,
    }
}

/// The value that a command results in, given what it wrote: the output
/// without the white space at its end, read as JSON where that is asked for
/// and the output is JSON, and taken as a string otherwise.
pub fn command_output(raw: &str, parse_output_as_json: bool) -> (r: Json)
    ensures
        r@ == output_value_of(
            trimmed_end(raw@),
            json_parsed(trimmed_end(raw@)),
            parse_output_as_json,
        ),
{
    let trimmed = trim_end(raw);
    let parsed = parse_json(trimmed);
    output_value(trimmed, parsed, parse_output_as_json)
}

} // verus!
