//! The JSON the API answers with. String values are quoted by serde_json;
//! objects are written with their keys in sorted order, as serde_json's
//! default map orders them.

use vstd::prelude::*;
use crate::decimal::{decimal, decimal_chars};
use crate::text::chars_of;

verus! {

pub open spec fn hex_digit(d: nat) -> char {
    if d < 10 {
        (('0' as u32) + d) as char
    } else {
        (('a' as u32) + (d - 10)) as char
    }
}

/// How serde_json writes one character inside a string: `"` and `\`
/// backslashed, the short escapes `\b \t \n \f \r`, other control
/// characters as `\u00XX` (lowercase hex), everything else as is.
pub open spec fn json_escape(c: char) -> Seq<char> {
    if c == '"' {
        seq!['\\', '"']
    } else if c == '\\' {
        seq!['\\', '\\']
    } else if c == '\u{08}' {
        seq!['\\', 'b']
    } else if c == '\t' {
        seq!['\\', 't']
    } else if c == '\n' {
        seq!['\\', 'n']
    } else if c == '\u{0C}' {
        seq!['\\', 'f']
    } else if c == '\r' {
        seq!['\\', 'r']
    } else if (c as u32) < 0x20 {
        seq!['\\', 'u', '0', '0', hex_digit((c as u32 / 16) as nat), hex_digit((c as u32 % 16) as nat)]
    } else {
        seq![c]
    }
}

pub open spec fn json_escaped(s: Seq<char>) -> Seq<char>
    decreases s.len(),
{
    if s.len() == 0 {
        Seq::empty()
    } else {
        json_escaped(s.drop_last()) + json_escape(s.last())
    }
}

/// A JSON string literal holding `s`.
pub open spec fn json_quoted(s: Seq<char>) -> Seq<char> {
    seq!['"'] + json_escaped(s) + seq!['"']
}

/// `serde_json::Value::String(s).to_string()`: `s` as a JSON string
/// literal. Claimed: the result is `json_quoted(s)`, the escaping that
/// serde_json's compact formatter applies (its `format_escaped_str` and
/// `ESCAPE` table).
#[verifier::external_body]
pub(crate) fn json_string(s: &str) -> (r: String)
    ensures
        r@ == json_quoted(s@),
{
    serde_json::Value::String(s.to_owned()).to_string()
}

/// `null`, or the quoted string.
pub open spec fn json_opt_string(o: Option<Seq<char>>) -> Seq<char> {
    match o {
        Some(s) => json_quoted(s),
        None => "null"@,
    }
}

pub open spec fn json_bool(b: bool) -> Seq<char> {
    if b {
        "true"@
    } else {
        "false"@
    }
}

pub open spec fn json_opt_number(o: Option<usize>) -> Seq<char> {
    match o {
        Some(n) => decimal(n as nat),
        None => "null"@,
    }
}

pub fn json_opt_string_exec(o: &Option<String>) -> (r: Vec<char>)
    ensures
        r@ == json_opt_string(crate::state::opt_view(*o)),
{
    match o {
        Some(s) => chars_of(json_string(s.as_str()).as_str()),
        None => chars_of("null"),
    }
}

pub fn json_bool_exec(b: bool) -> (r: Vec<char>)
    ensures
        r@ == json_bool(b),
{
    if b {
        chars_of("true")
    } else {
        chars_of("false")
    }
}

pub fn json_opt_number_exec(o: Option<usize>) -> (r: Vec<char>)
    ensures
        r@ == json_opt_number(o),
{
    match o {
        Some(n) => decimal_chars(n as u64),
        None => chars_of("null"),
    }
}

} // verus!
