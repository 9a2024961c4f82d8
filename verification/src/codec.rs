//! Conversions that the library takes from std, serde_json and hex: UTF-8
//! decoding, JSON documents and lowercase hex.

use vstd::prelude::*;
use vstd::utf8::{valid_utf8, decode_utf8};

verus! {

/// What a JSON object says of one member: absent (`None`), present but not a
/// string (`Some(None)`), or a string (`Some(Some(text))`).
pub type Member = Option<Option<String>>;

/// The view of a `Member`.
pub open spec fn member_view(m: Member) -> Option<Option<Seq<char>>> {
    match m {
        None => None,
        Some(None) => Some(None),
        Some(Some(s)) => Some(Some(s@)),
    }
}

/// The view of the members read for a list of keys.
pub open spec fn members_view(ms: Seq<Member>) -> Seq<Option<Option<Seq<char>>>> {
    ms.map_values(|m: Member| member_view(m))
}

/// The views of a list of keys.
pub open spec fn keys_view(keys: Seq<&str>) -> Seq<Seq<char>> {
    keys.map_values(|k: &str| k@)
}

/// The views of rows read from a JSON array: `None` for an element that is
/// not an object.
pub open spec fn rows_view(rows: Seq<Option<Vec<Member>>>) -> Seq<Option<Seq<Option<Option<Seq<char>>>>>> {
    rows.map_values(|r: Option<Vec<Member>>| match r {
        None => None,
        Some(ms) => Some(members_view(ms@)),
    })
}

/// What serde_json reads from `bytes` as a `serde_json::Value`, seen through
/// `keys`: the parse error's message; or `None` when the value is not an
/// object; or, for each key in order, the member of that object.
pub uninterp spec fn json_bytes_members(bytes: Seq<u8>, keys: Seq<Seq<char>>) -> Result<
    Option<Seq<Option<Option<Seq<char>>>>>,
    Seq<char>,
>;

/// What serde_json reads from `text` as a `serde_json::Value`, seen through
/// `keys`: `None` when it does not parse or is not an array; else, for each
/// element in order, `None` when it is not an object and otherwise its
/// members for the keys in order.
pub uninterp spec fn json_text_rows(text: Seq<char>, keys: Seq<Seq<char>>) -> Option<
    Seq<Option<Seq<Option<Option<Seq<char>>>>>>,
>;

/// Calls `serde_json::from_slice::<serde_json::Value>` on `bytes` and moves
/// what the value holds under `keys` into plain values. The contract claims
/// only that the result is a function of `bytes` and `keys` (the name
/// `json_bytes_members`); the JSON grammar is serde_json's.
#[verifier::external_body]
pub(crate) fn decode_json_object(bytes: &[u8], keys: &[&str]) -> (r: Result<Option<Vec<Member>>, String>)
    ensures
        match r {
            Err(e) => json_bytes_members(bytes@, keys_view(keys@)) == Err::<Option<Seq<Option<Option<Seq<char>>>>>, Seq<char>>(e@),
            Ok(None) => json_bytes_members(bytes@, keys_view(keys@)) == Ok::<Option<Seq<Option<Option<Seq<char>>>>>, Seq<char>>(None),
            Ok(Some(ms)) => json_bytes_members(bytes@, keys_view(keys@)) == Ok::<Option<Seq<Option<Option<Seq<char>>>>>, Seq<char>>(Some(members_view(ms@))),
        },
        r matches Ok(Some(ms)) ==> ms@.len() == keys@.len(),
{
    let value: serde_json::Value = match serde_json::from_slice(bytes) {
        Ok(v) => v,
        Err(e) => return Err(e.to_string()),
    };
    Ok(value.as_object().map(|o| keys.iter().map(|k| o.get(*k).map(|v| v.as_str().map(|s| s.to_string()))).collect()))
}

/// Calls `serde_json::from_str::<serde_json::Value>` on `text` and moves the
/// elements of the array it holds, seen through `keys`, into plain values.
/// The contract claims only that the result is a function of `text` and
/// `keys` (the name `json_text_rows`).
#[verifier::external_body]
pub(crate) fn decode_json_rows(text: &str, keys: &[&str]) -> (r: Option<Vec<Option<Vec<Member>>>>)
    ensures
        match r {
            None => json_text_rows(text@, keys_view(keys@)) is None,
            Some(rows) => json_text_rows(text@, keys_view(keys@)) == Some(rows_view(rows@)),
        },
        r matches Some(rows) ==> forall|i: int| 0 <= i < rows@.len() ==> (#[trigger] rows@[i] matches Some(ms) ==> ms@.len() == keys@.len()),
{
    let value: serde_json::Value = serde_json::from_str(text).ok()?;
    let items = value.as_array()?;
    Some(items.iter().map(|item| item.as_object().map(|o| keys.iter().map(|k| o.get(*k).map(|v| v.as_str().map(|s| s.to_string()))).collect())).collect())
}

/// The hex digit for `n < 16`, lowercase.
pub open spec fn hex_digit(n: nat) -> char {
    if n < 10 {
        ((48 + n) as u8) as char
    } else {
        ((87 + n) as u8) as char
    }
}

/// How serde_json writes one character inside a string: `"` and `\` are
/// escaped with a backslash, the control characters 8, 9, 10, 12 and 13 as
/// `\b \t \n \f \r`, other characters below 32 as `\u00xx` (lowercase hex),
/// and every other character as itself.
pub open spec fn json_escape(c: char) -> Seq<char> {
    let x = c as u32;
    if c == '"' {
        seq!['\\', '"']
    } else if c == '\\' {
        seq!['\\', '\\']
    } else if x == 8 {
        seq!['\\', 'b']
    } else if x == 9 {
        seq!['\\', 't']
    } else if x == 10 {
        seq!['\\', 'n']
    } else if x == 12 {
        seq!['\\', 'f']
    } else if x == 13 {
        seq!['\\', 'r']
    } else if x < 32 {
        seq!['\\', 'u', '0', '0', hex_digit((x / 16) as nat), hex_digit((x % 16) as nat)]
    } else {
        seq![c]
    }
}

/// The escaped characters of `s`.
pub open spec fn json_escaped(s: Seq<char>) -> Seq<char>
    decreases s.len(),
{
    if s.len() == 0 {
        seq![]
    } else {
        json_escaped(s.drop_last()) + json_escape(s.last())
    }
}

/// `s` as a JSON string literal.
pub open spec fn json_quoted(s: Seq<char>) -> Seq<char> {
    seq!['"'] + json_escaped(s) + seq!['"']
}

/// `serde_json::to_string` of a string: the JSON string literal that holds
/// it, escaped as `json_escape` says (as serde_json's `format_escaped_str`
/// writes it). Serialising a `str` into memory does not fail; the `Err` arm
/// only satisfies the type.
#[verifier::external_body]
pub(crate) fn json_quote(s: &str) -> (r: String)
    ensures
        r@ == json_quoted(s@),
{
    match serde_json::to_string(s) {
        Ok(t) => t,
        Err(_) => String::new(),
    }
}

/// Lowercase hex of `b`, two digits per byte, high nibble first.
pub open spec fn hex_lower(b: Seq<u8>) -> Seq<char>
    decreases b.len(),
{
    if b.len() == 0 {
        seq![]
    } else {
        hex_lower(b.drop_last()) + seq![hex_digit((b.last() / 16) as nat), hex_digit((b.last() % 16) as nat)]
    }
}

/// `hex::encode`: each byte as two lowercase hex digits, high nibble first
/// (hex's `BytesToHexChars` over `HEX_CHARS_LOWER`).
#[verifier::external_body]
pub(crate) fn hex_encode(bytes: &[u8]) -> (r: String)
    ensures
        r@ == hex_lower(bytes@),
{
    hex::encode(bytes)
}

/// std's `str::from_utf8`: the text that `bytes` encodes when they are valid
/// UTF-8, `None` otherwise.
#[verifier::external_body]
pub(crate) fn utf8_text(bytes: &[u8]) -> (r: Option<String>)
    ensures
        r is Some <==> valid_utf8(bytes@),
        r matches Some(s) ==> s@ == decode_utf8(bytes@),
{
    match std::str::from_utf8(bytes) {
        Ok(s) => Some(s.to_string()),
        Err(_) => None,
    }
}

} // verus!
