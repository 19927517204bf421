//! Items of outside crates that the library's types carry.

use vstd::prelude::*;

verus! {

/// An error of the anyhow crate, carried through as it is.
#[verifier::external_type_specification]
#[verifier::external_body]
pub struct ExAnyhowError(anyhow::Error);

/// The message of an anyhow error: `anyhow::Error`'s `Display`, through
/// `to_string`. Nothing is stated of the text.
#[verifier::external_body]
pub(crate) fn error_message(e: &anyhow::Error) -> (r: String) {
    e.to_string()
}

/// The current time in seconds since the Unix epoch, from
/// `chrono::Utc::now().timestamp()`. It depends on the clock, so nothing is
/// stated of it.
#[verifier::external_body]
pub(crate) fn current_unix_timestamp() -> (r: i64) {
    chrono::Utc::now().timestamp()
}

/// The current time in RFC 3339 form, from
/// `chrono::Utc::now().to_rfc3339()`. It depends on the clock, so nothing is
/// stated of it.
#[verifier::external_body]
pub(crate) fn current_rfc3339() -> (r: String) {
    chrono::Utc::now().to_rfc3339()
}

/// A moment of std's monotonic clock.
#[verifier::external_type_specification]
#[verifier::external_body]
pub struct ExInstant(std::time::Instant);

/// `std::time::Instant::now`: the current moment. It depends on the clock,
/// so nothing is stated of it.
#[verifier::external_body]
pub(crate) fn instant_now() -> (r: std::time::Instant) {
    std::time::Instant::now()
}

/// `std::time::Instant::elapsed`: the time since `start`. It depends on the
/// clock, so nothing is stated of it.
#[verifier::external_body]
pub(crate) fn elapsed_since(start: &std::time::Instant) -> (r: std::time::Duration) {
    start.elapsed()
}

/// `std::time::Duration::as_millis`: the whole milliseconds of a span.
/// The span is opaque here, so nothing is stated of the number.
#[verifier::external_body]
pub(crate) fn whole_millis(d: &std::time::Duration) -> (r: u128) {
    d.as_millis()
}

/// The whole milliseconds since `start`, cut to 64 bits as a cast cuts
/// them.
pub(crate) fn millis_since(start: &std::time::Instant) -> (r: u64) {
    let d = elapsed_since(start);
    let ms = whole_millis(&d);
    #[verifier::truncate] (ms as u64)
}

/// A compiled regular expression of the regex crate.
#[verifier::external_type_specification]
#[verifier::external_body]
pub struct ExRegex(regex::Regex);

/// Whether `regex::Regex::new` accepts the pattern.
pub uninterp spec fn regex_accepts(pattern: Seq<char>) -> bool;

/// Whether the regular expression `pattern` matches somewhere in
/// `haystack`, as `regex::Regex::is_match` decides.
pub uninterp spec fn regex_matches(pattern: Seq<char>, haystack: Seq<char>) -> bool;

/// A regular expression together with the text it was compiled from.
/// Only `compile_pattern` and `copy_pattern` build one, so the expression
/// is always the compiled form of the text.
#[derive(Debug)]
pub struct CompiledPattern {
    source: String,
    regex: regex::Regex,
}

impl CompiledPattern {
    /// The text the expression was compiled from.
    pub closed spec fn source_view(&self) -> Seq<char> {
        self.source@
    }
}

/// `regex::Regex::new`: the pattern compiled, or `None` where the crate
/// refuses it (a syntax error or a compiled size over its limit); which
/// patterns those are is named, not stated.
#[verifier::external_body]
pub(crate) fn compile_pattern(source: &str) -> (r: Option<CompiledPattern>)
    ensures
        r is Some <==> regex_accepts(source@),
        r matches Some(p) ==> p.source_view() == source@,
{
    match regex::Regex::new(source) {
        Ok(regex) => Some(CompiledPattern { source: source.to_string(), regex }),
        Err(_) => None,
    }
}

/// `regex::Regex::is_match`: whether the compiled pattern matches somewhere
/// in the text.
#[verifier::external_body]
pub(crate) fn pattern_is_match(p: &CompiledPattern, text: &str) -> (r: bool)
    ensures
        r == regex_matches(p.source_view(), text@),
{
    p.regex.is_match(text)
}

/// `regex::Regex::clone`: a second handle on the same compiled pattern.
#[verifier::external_body]
pub(crate) fn copy_pattern(p: &CompiledPattern) -> (r: CompiledPattern)
    ensures
        r.source_view() == p.source_view(),
{
    CompiledPattern { source: p.source.clone(), regex: p.regex.clone() }
}

/// What `format!("{:?}", s)` gives for a string: its `Debug` text.
pub uninterp spec fn debug_quoted(s: Seq<char>) -> Seq<char>;

/// The `Debug` text of a string, through `format!("{:?}", ..)`: the text
/// in double quotes with special characters escaped; the text itself is
/// named, not stated.
#[verifier::external_body]
pub(crate) fn debug_text(s: &str) -> (r: String)
    ensures
        r@ == debug_quoted(s@),
{
    format!("{:?}", s)
}

/// The words that `shell_words::split` finds in a line, or `None` where it
/// fails with its `ParseError` (an unclosed quote).
pub uninterp spec fn shell_split(line: Seq<char>) -> Option<Seq<Seq<char>>>;

/// `shell_words::split`: the line cut into words as a POSIX shell would,
/// with quotes, backslashes and comments; its error becomes `None`. The
/// words are named, not stated: they depend on the line alone.
#[verifier::external_body]
pub(crate) fn split_words(line: &str) -> (r: Option<Vec<String>>)
    ensures
        match r {
            Some(v) => shell_split(line@) == Some(v@.map_values(|w: String| w@)),
            None => shell_split(line@) is None,
        },
{
    match shell_words::split(line) {
        Ok(words) => Some(words),
        Err(_) => None,
    }
}

} // verus!
