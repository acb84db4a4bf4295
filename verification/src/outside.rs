//! The calls this crate makes into other crates and into parts of `std` that
//! carry no specification of their own. Each item states what the callee's
//! documentation or source promises; nothing here is proved.

use vstd::prelude::*;

use crate::json::{built_view, distinct_keys, entry_views, keys_ascending, shape_view, JsonView, ValueShape};

verus! {

/// `c` is an ASCII digit.
pub open spec fn is_digit(c: char) -> bool {
    '0' <= c && c <= '9'
}

/// Every character of `s` is an ASCII digit.
pub open spec fn all_digits(s: Seq<char>) -> bool {
    forall|i: int| 0 <= i < s.len() ==> is_digit(#[trigger] s[i])
}

/// A year as `chrono` writes one from 1970 on: four digits up to 9999, and
/// after that a `+` and the five or six digits of the year.
pub open spec fn year_text(y: Seq<char>) -> bool {
    ||| y.len() == 4 && all_digits(y)
    ||| (y.len() == 6 || y.len() == 7) && y[0] == '+' && all_digits(y.drop_first())
}

/// `YYYYMMDDTHHMMSS.nnnnnnnnn`: a year, four digits of month and day, `T`,
/// six digits of time, `.` and nine digits of nanoseconds.
pub open spec fn stamp_shape(s: Seq<char>) -> bool {
    let n = s.len() - 21;
    &&& s.len() >= 21
    &&& year_text(s.take(n))
    &&& all_digits(s.subrange(n, n + 4))
    &&& s[n + 4] == 'T'
    &&& all_digits(s.subrange(n + 5, n + 11))
    &&& s[n + 11] == '.'
    &&& all_digits(s.skip(n + 12))
}

/// The seconds fraction of an RFC 3339 time: none, or `.` and three, six or
/// nine digits.
pub open spec fn fraction_text(f: Seq<char>) -> bool {
    ||| f.len() == 0
    ||| (f.len() == 4 || f.len() == 7 || f.len() == 10) && f[0] == '.' && all_digits(f.drop_first())
}

/// `-MM-DDTHH:MM:SS`, the part of an RFC 3339 time between the year and the
/// seconds fraction.
pub open spec fn date_time_text(d: Seq<char>) -> bool {
    &&& d.len() == 15
    &&& d[0] == '-' && d[3] == '-' && d[6] == 'T' && d[9] == ':' && d[12] == ':'
    &&& all_digits(d.subrange(1, 3)) && all_digits(d.subrange(4, 6)) && all_digits(d.subrange(7, 9))
    &&& all_digits(d.subrange(10, 12)) && all_digits(d.subrange(13, 15))
}

/// An RFC 3339 UTC time as `chrono` writes it: year, `-MM-DDTHH:MM:SS`, a
/// seconds fraction, and the offset `+00:00`.
pub open spec fn rfc3339_utc_shape(s: Seq<char>) -> bool {
    exists|y: Seq<char>, d: Seq<char>, f: Seq<char>|
        #![trigger y + d + f]
        year_text(y) && date_time_text(d) && fraction_text(f) && s == y + d + f + "+00:00"@
}

/// The current UTC time in RFC 3339 form, from
/// `chrono::Utc::now().to_rfc3339()`. The time depends on the clock; the
/// shape does not: `to_rfc3339` writes the year (four digits, or a sign and
/// more digits past 9999), `-MM-DDTHH:MM:SS`, the non-zero sub-second digits
/// by three, six or nine, and the offset `+00:00` of UTC. `Utc::now` panics
/// on a clock before 1970, which no input controls.
#[verifier::external_body]
pub(crate) fn now_rfc3339() -> (r: String)
    ensures
        rfc3339_utc_shape(r@),
{
    chrono::Utc::now().to_rfc3339()
}

/// The current UTC time as a file-name stamp, from
/// `chrono::Utc::now().format("%Y%m%dT%H%M%S%.9f")`. The time depends on the
/// clock; the shape does not: `%Y` writes four digits, or a sign and more
/// digits past 9999, the other numeric fields two digits each, and `%.9f` a
/// `.` and nine digits.
#[verifier::external_body]
pub(crate) fn now_stamp() -> (r: String)
    ensures
        stamp_shape(r@),
{
    chrono::Utc::now().format("%Y%m%dT%H%M%S%.9f").to_string()
}

/// What `similar::TextDiff::from_lines(before, after).unified_diff()
/// .context_radius(3).to_string()` returns: a unified line diff with three
/// lines of context and no file header.
pub uninterp spec fn unified_line_diff(before: Seq<char>, after: Seq<char>) -> Seq<char>;

/// The unified diff of two texts, by lines, computed by the `similar` crate
/// (no deadline is set, so the result depends on the two texts alone).
#[verifier::external_body]
pub(crate) fn unified_diff(before: &str, after: &str) -> (r: String)
    ensures
        r@ == unified_line_diff(before@, after@),
{
    similar::TextDiff::from_lines(before, after).unified_diff().context_radius(3).to_string()
}

/// What `char::is_alphanumeric` says of `c`: the Unicode `Alphabetic` or
/// `Numeric` property.
pub uninterp spec fn char_alphanumeric(c: char) -> bool;

/// `char::is_alphanumeric`. Its documentation defines it as `Alphabetic` or
/// `Numeric`; among ASCII characters these are exactly the letters and
/// digits, which the contract states.
#[verifier::external_body]
pub(crate) fn is_alphanumeric(c: char) -> (b: bool)
    ensures
        b == char_alphanumeric(c),
        (c as u32) < 128 ==> (b <==> (('a' <= c && c <= 'z') || ('A' <= c && c <= 'Z') || ('0'
            <= c && c <= '9'))),
{
    c.is_alphanumeric()
}

// ---------------------------------------------------------------------------
// serde_json.

/// `serde_json::Value`, held opaquely.
#[verifier::external_type_specification]
#[verifier::external_body]
pub struct ExValue(serde_json::Value);

/// `serde_json::Number`, held opaquely.
#[verifier::external_type_specification]
#[verifier::external_body]
pub struct ExNumber(serde_json::Number);

/// What a `serde_json::Value` holds: its kind, and its items, or its entries
/// in the order its map walks them.
pub uninterp spec fn value_view(v: serde_json::Value) -> JsonView;

/// What `serde_json::from_str::<serde_json::Value>` makes of a text: the
/// value, or the message of the error.
pub uninterp spec fn json_parse(text: Seq<char>) -> Result<JsonView, Seq<char>>;

/// What `serde_json::to_string_pretty` makes of a value: its text, or the
/// message of the error.
pub uninterp spec fn json_pretty(v: JsonView) -> Result<Seq<char>, Seq<char>>;

/// `serde_json::from_str::<serde_json::Value>(text)`, the error given by its
/// message. The contract names the outcome and nothing more.
#[verifier::external_body]
pub(crate) fn parse_value(text: &str) -> (r: Result<serde_json::Value, String>)
    ensures
        match r {
            Ok(v) => json_parse(text@) == Ok::<JsonView, Seq<char>>(value_view(v)),
            Err(m) => json_parse(text@) == Err::<JsonView, Seq<char>>(m@),
        },
{
    match serde_json::from_str::<serde_json::Value>(text) {
        Ok(v) => Ok(v),
        Err(e) => Err(e.to_string()),
    }
}

/// `serde_json::to_string_pretty(v)`, the error given by its message.
#[verifier::external_body]
pub(crate) fn pretty(v: &serde_json::Value) -> (r: Result<String, String>)
    ensures
        match r {
            Ok(s) => json_pretty(value_view(*v)) == Ok::<Seq<char>, Seq<char>>(s@),
            Err(m) => json_pretty(value_view(*v)) == Err::<Seq<char>, Seq<char>>(m@),
        },
{
    match serde_json::to_string_pretty(v) {
        Ok(s) => Ok(s),
        Err(e) => Err(e.to_string()),
    }
}

/// Takes a `serde_json::Value` apart one level: the variant, with its field.
/// A map (a `BTreeMap<String, Value>`, the crate being built without
/// `preserve_order`) becomes the list of its entries in the order it walks
/// them: by increasing key, in the order of `String`, which compares the
/// UTF-8 bytes and so the characters' code points.
#[verifier::external_body]
pub(crate) fn take_value(v: serde_json::Value) -> (r: ValueShape)
    ensures
        shape_view(r) == value_view(v),
        r matches ValueShape::Object(es) ==> keys_ascending(entry_views(es@)),
{
    match v {
        serde_json::Value::Null => ValueShape::Null,
        serde_json::Value::Bool(b) => ValueShape::Bool(b),
        serde_json::Value::Number(n) => ValueShape::Number(n),
        serde_json::Value::String(s) => ValueShape::Str(s),
        serde_json::Value::Array(items) => ValueShape::Array(items),
        serde_json::Value::Object(m) => ValueShape::Object(m.into_iter().collect()),
    }
}

/// Builds a `serde_json::Value` of one level. Entries are collected into a
/// map, which walks them in key order; of entries with equal keys it keeps
/// one, and which one its documentation leaves open, so for an object the
/// contract speaks only of distinct keys.
#[verifier::external_body]
pub(crate) fn build_value(s: ValueShape) -> (r: serde_json::Value)
    ensures
        (s matches ValueShape::Object(es) ==> distinct_keys(entry_views(es@))) ==> value_view(r)
            == built_view(s),
{
    match s {
        ValueShape::Null => serde_json::Value::Null,
        ValueShape::Bool(b) => serde_json::Value::Bool(b),
        ValueShape::Number(n) => serde_json::Value::Number(n),
        ValueShape::Str(t) => serde_json::Value::String(t),
        ValueShape::Array(items) => serde_json::Value::Array(items),
        ValueShape::Object(es) => serde_json::Value::Object(es.into_iter().collect()),
    }
}

/// `Clone` of `serde_json::Number`, derived: an equal number.
#[verifier::external_body]
pub(crate) fn copy_number(n: &serde_json::Number) -> (r: serde_json::Number)
    ensures
        r == *n,
{
    n.clone()
}

} // verus!
