//! Trusted declarations for functions of std and of outside crates that the
//! library calls in the middle of its logic. Each wrapper's contract states
//! what the underlying function is documented to return; Verus believes the
//! contract and verifies the rest of the library against it.
use base64::Engine;
use vstd::prelude::*;

verus! {

/// Whether a character has the Unicode `White_Space` property.
pub uninterp spec fn is_space(c: char) -> bool;

/// Relies on char::is_whitespace: true exactly for characters with the
/// Unicode `White_Space` property.
#[verifier::external_body]
pub fn is_whitespace_char(c: char) -> (r: bool)
    ensures
        r == is_space(c),
{
    c.is_whitespace()
}

/// Whether a character is alphanumeric (Unicode `Alphabetic` or a number).
pub uninterp spec fn is_alnum(c: char) -> bool;

/// Relies on char::is_alphanumeric: true exactly for characters that are
/// Unicode alphabetic or numeric.
#[verifier::external_body]
pub fn is_alnum_char(c: char) -> (r: bool)
    ensures
        r == is_alnum(c),
{
    c.is_alphanumeric()
}

/// The Unicode-lowercased form of the text.
pub uninterp spec fn lower_of(s: Seq<char>) -> Seq<char>;

/// Relies on str::to_lowercase: the lowercased text depends on the
/// characters alone.
#[verifier::external_body]
pub fn lowercase(s: &str) -> (r: String)
    ensures
        r@ == lower_of(s@),
{
    s.to_lowercase()
}

/// Relies on String::push: appends one character at the end of the string.
#[verifier::external_body]
pub fn push_char(s: &mut String, c: char)
    ensures
        final(s)@ == old(s)@.push(c),
{
    s.push(c)
}

/// Relies on uuid::Uuid::new_v4 and its Display form: a freshly drawn random
/// identifier, rendered in the hyphenated form of 36 characters.
#[verifier::external_body]
pub fn fresh_id() -> (r: String)
    ensures
        r@.len() == 36,
{
    uuid::Uuid::new_v4().to_string()
}

/// Relies on chrono::Utc::now and DateTime::timestamp_micros: the moment of
/// the call in microseconds since the Unix epoch. chrono represents dates
/// within about 262,000 years of the common era, so the magnitude stays well
/// below the stated bound.
#[verifier::external_body]
pub fn now_micros() -> (r: i64)
    ensures
        -8_300_000_000_000_000_000 < r < 8_300_000_000_000_000_000,
{
    chrono::Utc::now().timestamp_micros()
}

/// The text that the timestamp renders to in the fixed human-readable
/// "%Y-%m-%d %H:%M:%S" form.
pub uninterp spec fn ts_display_of(t: i64) -> Seq<char>;

/// Relies on chrono's DateTime::from_timestamp_micros and format: the
/// rendered text depends on the timestamp alone. A timestamp outside
/// chrono's representable range yields the empty string.
#[verifier::external_body]
pub fn format_timestamp(t: i64) -> (r: String)
    ensures
        r@ == ts_display_of(t),
{
    match chrono::DateTime::<chrono::Utc>::from_timestamp_micros(t) {
        Some(dt) => format!("{}", dt.format("%Y-%m-%d %H:%M:%S")),
        None => String::new(),
    }
}

/// The text that the timestamp renders to in RFC 3339 form.
pub uninterp spec fn ts_rfc3339_of(t: i64) -> Seq<char>;

/// Relies on chrono's DateTime::from_timestamp_micros and to_rfc3339: the
/// rendered text depends on the timestamp alone. A timestamp outside
/// chrono's representable range yields the empty string.
#[verifier::external_body]
pub fn rfc3339_timestamp(t: i64) -> (r: String)
    ensures
        r@ == ts_rfc3339_of(t),
{
    match chrono::DateTime::<chrono::Utc>::from_timestamp_micros(t) {
        Some(dt) => dt.to_rfc3339(),
        None => String::new(),
    }
}

/// Relies on char::from_u32: a scalar value converts to the character that
/// carries it, and a surrogate or out-of-range value converts to nothing.
#[verifier::external_body]
pub fn char_from_u32(u: u32) -> (r: Option<char>)
    ensures
        r == (if u < 0xD800 || (0xE000 <= u && u <= 0x10FFFF) {
            Some(u as char)
        } else {
            None
        }),
{
    char::from_u32(u)
}

/// The standard padded base64 rendering of the bytes.
pub uninterp spec fn base64_of(bytes: Seq<u8>) -> Seq<char>;

/// Relies on base64's STANDARD engine: the text depends on the bytes alone,
/// and padding makes every 3-byte group exactly 4 characters.
#[verifier::external_body]
pub fn encode_base64(bytes: &Vec<u8>) -> (r: String)
    ensures
        r@ == base64_of(bytes@),
        r@.len() == 4 * ((bytes@.len() + 2) / 3),
{
    base64::engine::general_purpose::STANDARD.encode(bytes)
}

/// The tag list held in the text, when the text is a JSON array of strings.
pub uninterp spec fn parsed_tags(s: Seq<char>) -> Option<Seq<Seq<char>>>;

/// Relies on serde_json::from_str::<Vec<String>>: whether the text parses as
/// a JSON array of strings, and which strings it holds, depend on the text
/// alone.
#[verifier::external_body]
pub fn parse_tags(s: &str) -> (r: Option<Vec<String>>)
    ensures
        r is Some <==> parsed_tags(s@) is Some,
        r matches Some(v) ==> Some(v.deep_view()) == parsed_tags(s@),
{
    match serde_json::from_str::<Vec<String>>(s) {
        Ok(v) => Some(v),
        Err(_) => None,
    }
}

} // verus!
