//! Bounds and charset checks for bridge payload fields.
use vstd::prelude::*;
use crate::text::{all_slug, chars_of, char_is_slug};

verus! {

/// Longest storage key, in characters.
pub const MAX_KEY_LEN: usize = 256;
/// Largest serialized storage value, in bytes.
pub const MAX_VALUE_BYTES_LIMIT: usize = 1048576;
/// Longest window title, in characters.
pub const MAX_TITLE_LEN: usize = 256;
/// Longest log message, in characters.
pub const MAX_MESSAGE_LEN: usize = 2000;
/// Longest event type or action name, in characters.
pub const MAX_EVENT_TYPE_LEN: usize = 128;

/// A length-bounded field: between 1 and `max` characters.
pub open spec fn bounded(s: Seq<char>, max: int) -> bool {
    1 <= s.len() <= max
}

/// A length-bounded field over the slug alphabet `[A-Za-z0-9._-]`.
pub open spec fn bounded_slug(s: Seq<char>, max: int) -> bool {
    bounded(s, max) && all_slug(s)
}

fn slug_chars(v: &Vec<char>) -> (b: bool)
    ensures
        b == all_slug(v@),
{
    let n = v.len();
    for i in 0..n
        invariant
            n == v@.len(),
            all_slug(v@.take(i as int)),
    {
        if !char_is_slug(v[i]) {
            assert(v@[i as int] == v@[i as int]);
            return false;
        }
        assert(v@.take(i + 1) == v@.take(i as int).push(v@[i as int]));
    }
    assert(v@.take(n as int) == v@);
    true
}

/// Storage key: 1..=256 characters.
pub fn validate_key(key: &str) -> (r: Result<(), String>)
    ensures
        r is Ok <==> bounded(key@, MAX_KEY_LEN as int),
        r matches Err(e) ==> e@ == "InvalidPayload: key must be 1..=256 chars"@,
{
    let n = chars_of(key).len();
    if n == 0 || n > MAX_KEY_LEN {
        Err("InvalidPayload: key must be 1..=256 chars".to_owned())
    } else {
        Ok(())
    }
}

/// Event type: 1..=128 characters of `[A-Za-z0-9._-]`.
pub fn validate_event_type(event_type: &str) -> (r: Result<(), String>)
    ensures
        r is Ok <==> bounded_slug(event_type@, MAX_EVENT_TYPE_LEN as int),
        r matches Err(e) ==> e@ == "InvalidPayload: event type must be 1..=128 chars of [A-Za-z0-9._-]"@,
{
    let v = chars_of(event_type);
    let n = v.len();
    if n > 0 && n <= MAX_EVENT_TYPE_LEN && slug_chars(&v) {
        Ok(())
    } else {
        Err("InvalidPayload: event type must be 1..=128 chars of [A-Za-z0-9._-]".to_owned())
    }
}

/// Log message: 1..=2000 characters.
pub fn validate_message(message: &str) -> (r: Result<(), String>)
    ensures
        r is Ok <==> bounded(message@, MAX_MESSAGE_LEN as int),
        r matches Err(e) ==> e@ == "InvalidPayload: message must be 1..=2000 chars"@,
{
    let n = chars_of(message).len();
    if n == 0 || n > MAX_MESSAGE_LEN {
        Err("InvalidPayload: message must be 1..=2000 chars".to_owned())
    } else {
        Ok(())
    }
}

/// Window title: 1..=256 characters.
pub fn validate_title(title: &str) -> (r: Result<(), String>)
    ensures
        r is Ok <==> bounded(title@, MAX_TITLE_LEN as int),
        r matches Err(e) ==> e@ == "InvalidPayload: title must be 1..=256 chars"@,
{
    let n = chars_of(title).len();
    if n == 0 || n > MAX_TITLE_LEN {
        Err("InvalidPayload: title must be 1..=256 chars".to_owned())
    } else {
        Ok(())
    }
}

/// Action name: 1..=128 characters of `[A-Za-z0-9._-]`.
pub fn validate_action(action: &str) -> (r: Result<(), String>)
    ensures
        r is Ok <==> bounded_slug(action@, MAX_EVENT_TYPE_LEN as int),
        r matches Err(e) ==> e@ == "InvalidPayload: action must be 1..=128 chars of [A-Za-z0-9._-]"@,
{
    let v = chars_of(action);
    let n = v.len();
    if n > 0 && n <= MAX_EVENT_TYPE_LEN && slug_chars(&v) {
        Ok(())
    } else {
        Err("InvalidPayload: action must be 1..=128 chars of [A-Za-z0-9._-]".to_owned())
    }
}

} // verus!
