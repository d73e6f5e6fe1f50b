//! The JSON reading of document metadata. Parsing and inspection are done
//! by `serde_json`; this module states what is taken on trust about it and
//! builds the title lookup on top.

use vstd::prelude::*;

verus! {

#[verifier::external_type_specification]
#[verifier::external_body]
pub struct ExValue(serde_json::Value);

#[verifier::external_type_specification]
#[verifier::external_body]
pub struct ExError(serde_json::Error);

/// What `serde_json::from_str` gives for a text: the parsed value, or the
/// error that describes why the text is not JSON.
pub uninterp spec fn json_parse(text: Seq<char>) -> Result<serde_json::Value, serde_json::Error>;

/// The members that a JSON value holds, by key, if it is an object.
pub uninterp spec fn json_object(value: serde_json::Value) -> Option<
    Map<Seq<char>, serde_json::Value>,
>;

/// The member that a JSON value holds under a key: a value that is no
/// object holds none.
pub open spec fn json_member(value: serde_json::Value, key: Seq<char>) -> Option<
    serde_json::Value,
> {
    match json_object(value) {
        Some(members) => if members.contains_key(key) {
            Some(members[key])
        } else {
            None
        },
        None => None,
    }
}

/// The text of a JSON value, if it is a string.
pub uninterp spec fn json_string(value: serde_json::Value) -> Option<Seq<char>>;

/// The diagnostic that a parse error renders to.
pub uninterp spec fn json_error_text(error: serde_json::Error) -> Seq<char>;

/// Calls `serde_json::from_str` for a `serde_json::Value`. Trusted: the
/// outcome depends on the text alone, and is what `json_parse` names.
#[verifier::external_body]
pub(crate) fn parse(text: &str) -> (r: Result<serde_json::Value, serde_json::Error>)
    ensures
        r == json_parse(text@),
{
    serde_json::from_str::<serde_json::Value>(text)
}

/// Calls `serde_json::Value::get` with a string key. Trusted: the outcome
/// is the member that an object holds under the key, and `None` where the
/// value is no object or has no such member.
#[verifier::external_body]
pub(crate) fn member<'a>(value: &'a serde_json::Value, key: &str) -> (r: Option<
    &'a serde_json::Value,
>)
    ensures
        match r {
            Some(m) => json_object(*value) is Some && json_object(*value)->0.contains_key(key@)
                && json_object(*value)->0[key@] == *m,
            None => json_object(*value) is None || !json_object(*value)->0.contains_key(key@),
        },
{
    value.get(key)
}

/// `serde_json::Value::as_str`. Trusted: the outcome is the text that
/// `json_string` names, and `None` where the value is not a string.
pub assume_specification<'a>[ serde_json::Value::as_str ](value: &'a serde_json::Value) -> (r:
    Option<&'a str>)
    ensures
        match r {
            Some(s) => json_string(*value) == Some(s@),
            None => json_string(*value) is None,
        },
;

/// Renders a `serde_json::Error` through its `Display` impl. Trusted: the
/// text depends on the error alone, and is what `json_error_text` names.
#[verifier::external_body]
pub(crate) fn error_text(error: &serde_json::Error) -> (r: String)
    ensures
        r@ == json_error_text(*error),
{
    error.to_string()
}

/// Builds `serde_json::Value::Object` over an empty `serde_json::Map`.
/// Trusted: the value is an object and holds no member.
#[verifier::external_body]
pub(crate) fn empty_object() -> (object: serde_json::Value)
    ensures
        json_object(object) == Some(Map::<Seq<char>, serde_json::Value>::empty()),
{
    serde_json::Value::Object(serde_json::Map::new())
}

/// Whether a JSON value is the object without members.
pub open spec fn is_empty_object(value: serde_json::Value) -> bool {
    json_object(value) == Some(Map::<Seq<char>, serde_json::Value>::empty())
}

/// The key under which metadata declares a display title.
pub open spec fn title_key() -> Seq<char> {
    "title"@
}

/// The display title that a metadata text declares: the string under the
/// key `title` of the object that the text parses to. Metadata that does
/// not parse, is no object, has no such member, or holds something other
/// than a string there declares none.
pub open spec fn metadata_title(metadata: Seq<char>) -> Option<Seq<char>> {
    match json_parse(metadata) {
        Ok(value) => match json_member(value, title_key()) {
            Some(member) => json_string(member),
            None => None,
        },
        Err(_) => None,
    }
}

/// The text of an optional string.
pub open spec fn opt_text(s: Option<String>) -> Option<Seq<char>> {
    match s {
        Some(t) => Some(t@),
        None => None,
    }
}

/// Looks up the display title that a metadata text declares.
pub fn declared_title(metadata: &str) -> (title: Option<String>)
    ensures
        opt_text(title) == metadata_title(metadata@),
{
    match parse(metadata) {
        Ok(value) => match member(&value, "title") {
            Some(found) => match found.as_str() {
                Some(text) => Some(text.to_owned()),
                None => None,
            },
            None => None,
        },
        Err(_) => None,
    }
}

/// The title of a leaf: the declared title where there is one, else the
/// last segment of the document's path.
pub open spec fn title_or_segment(segment: Seq<char>, declared: Option<Seq<char>>) -> Seq<char> {
    match declared {
        Some(title) => title,
        None => segment,
    }
}

/// Chooses the title of a leaf from its path segment and the title that
/// its metadata declares.
pub fn leaf_title(segment: &str, declared: Option<String>) -> (title: String)
    ensures
        title@ == title_or_segment(segment@, opt_text(declared)),
{
    match declared {
        Some(title) => title,
        None => segment.to_owned(),
    }
}

} // verus!
