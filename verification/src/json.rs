//! Trusted bindings to `serde_json` and to `std::str::from_utf8`.
//!
//! The JSON text of a record (and of an envelope) and the result of parsing a
//! candidate frame are functions of the bytes alone, so each is given a name
//! here; the wrappers state, over those names, only what `serde_json`'s
//! documented behaviour supports: serialized output is non-empty valid UTF-8
//! with every control character escaped (so it holds no `\n` or `\r` byte),
//! and parsing the serialized text of a value yields that value back.

use vstd::prelude::*;
use crate::record::User;

verus! {

/// The serialized JSON text of a record with the given fields.
pub uninterp spec fn json_of_user(id: u32, name: Seq<char>) -> Seq<u8>;

/// The record fields encoded by the given bytes, if they are JSON of the
/// record shape; `None` otherwise.
pub uninterp spec fn user_of_json(bytes: Seq<u8>) -> Option<(u32, Seq<char>)>;

/// The serialized JSON text of an envelope `{ "data": ..., "done": ... }`.
pub uninterp spec fn json_of_envelope(id: u32, name: Seq<char>, done: bool) -> Seq<u8>;

/// The envelope encoded by the given bytes, if they are JSON of the envelope
/// shape (`done` absent counts as `false`); `None` otherwise.
pub uninterp spec fn envelope_of_json(bytes: Seq<u8>) -> Option<(u32, Seq<char>, bool)>;

/// Whether the bytes are valid UTF-8.
pub uninterp spec fn is_utf8(bytes: Seq<u8>) -> bool;

/// Relies on `serde_json::Value::to_string` (`Display` on `Value`): the text
/// depends on the value alone, is non-empty valid UTF-8, escapes every
/// control character inside strings, and parses back to the same value.
#[verifier::external_body]
pub(crate) fn user_to_json(u: &User) -> (r: Vec<u8>)
    ensures
        r@ == json_of_user(u.id, u.name@),
        r@.len() > 0,
        forall|i: int| 0 <= i < r@.len() ==> r@[i] != 10u8 && r@[i] != 13u8,
        is_utf8(r@),
        user_of_json(r@) == Some((u.id, u.name@)),
{
    let mut m = serde_json::Map::new();
    m.insert("id".to_string(), serde_json::Value::from(u.id));
    m.insert("name".to_string(), serde_json::Value::from(u.name.clone()));
    serde_json::Value::Object(m).to_string().into_bytes()
}

/// Relies on `serde_json::Value::to_string`, as `user_to_json` does.
#[verifier::external_body]
pub(crate) fn envelope_to_json(u: &User, done: bool) -> (r: Vec<u8>)
    ensures
        r@ == json_of_envelope(u.id, u.name@, done),
        r@.len() > 0,
        forall|i: int| 0 <= i < r@.len() ==> r@[i] != 10u8 && r@[i] != 13u8,
        is_utf8(r@),
        envelope_of_json(r@) == Some((u.id, u.name@, done)),
{
    let mut d = serde_json::Map::new();
    d.insert("id".to_string(), serde_json::Value::from(u.id));
    d.insert("name".to_string(), serde_json::Value::from(u.name.clone()));
    let mut m = serde_json::Map::new();
    m.insert("data".to_string(), serde_json::Value::Object(d));
    m.insert("done".to_string(), serde_json::Value::from(done));
    serde_json::Value::Object(m).to_string().into_bytes()
}

/// Relies on `serde_json::from_slice` and the `Value` accessors `get`,
/// `as_u64`, `as_str`: together they decide whether the bytes are JSON of the
/// record shape and, if so, recover its fields.
#[verifier::external_body]
pub(crate) fn user_from_json(line: &Vec<u8>) -> (r: Option<User>)
    ensures
        match r {
            Some(u) => user_of_json(line@) == Some((u.id, u.name@)),
            None => user_of_json(line@) is None,
        },
{
    let v: serde_json::Value = serde_json::from_slice(line.as_slice()).ok()?;
    let id = u32::try_from(v.get("id")?.as_u64()?).ok()?;
    let name = v.get("name")?.as_str()?.to_string();
    Some(User { id, name })
}

/// Relies on `serde_json::from_slice` and the `Value` accessors `get`,
/// `as_u64`, `as_str`, `as_bool`: together they decide whether the bytes are
/// JSON of the envelope shape and, if so, recover the record and the `done`
/// flag (absent `done` reads as `false`).
#[verifier::external_body]
pub(crate) fn envelope_from_json(line: &Vec<u8>) -> (r: Option<(User, bool)>)
    ensures
        match r {
            Some(p) => envelope_of_json(line@) == Some((p.0.id, p.0.name@, p.1)),
            None => envelope_of_json(line@) is None,
        },
{
    let v: serde_json::Value = serde_json::from_slice(line.as_slice()).ok()?;
    let data = v.get("data")?;
    let id = u32::try_from(data.get("id")?.as_u64()?).ok()?;
    let name = data.get("name")?.as_str()?.to_string();
    let done = match v.get("done") {
        Some(d) => d.as_bool()?,
        None => false,
    };
    Some((User { id, name }, done))
}

/// Relies on `std::str::from_utf8`: it returns `Ok` exactly when the bytes
/// are valid UTF-8.
#[verifier::external_body]
pub(crate) fn utf8_check(line: &Vec<u8>) -> (r: bool)
    ensures
        r == is_utf8(line@),
{
    std::str::from_utf8(line.as_slice()).is_ok()
}

} // verus!
