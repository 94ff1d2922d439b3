use vstd::prelude::*;

use crate::error::Error;
use crate::error::ErrorSource;

verus! {

// ---------------------------------------------------------------------------
// Pattern capture, behind trusted items
//
// Compiling a pattern and capturing its named group are the outside crate's
// work; both results get names, since they depend on their text arguments
// alone, and the extractor's contract is exact over those names.
// ---------------------------------------------------------------------------

#[verifier::external_type_specification]
#[verifier::external_body]
pub struct ExRegex(regex::Regex);

/// Whether a pattern text compiles.
pub uninterp spec fn regex_ok(pattern: Seq<char>) -> bool;

/// The pattern text a compiled value was built from.
pub uninterp spec fn regex_pattern(r: regex::Regex) -> Seq<char>;

/// What the named group `ip` of a pattern captures on a text, when the
/// pattern matches and carries that group at all.
pub uninterp spec fn capture_ip(pattern: Seq<char>, text: Seq<char>) -> Option<Seq<char>>;

/// Relies on regex::Regex::new: whether a pattern compiles depends on its
/// text alone.
#[verifier::external_body]
fn regex_new(pattern: &str) -> (r: Result<regex::Regex, String>)
    ensures
        match r {
            Ok(rx) => regex_ok(pattern@) && regex_pattern(rx) == pattern@,
            Err(_) => !regex_ok(pattern@),
        },
{
    match regex::Regex::new(pattern) {
        Ok(rx) => Ok(rx),
        Err(e) => Err(e.to_string()),
    }
}

/// Relies on regex::Regex::captures and regex::Captures::name: what the
/// group named `ip` captures depends on the pattern and the text alone.
#[verifier::external_body]
fn regex_capture_ip(rx: &regex::Regex, text: &str) -> (r: Option<String>)
    ensures
        match r {
            Some(t) => capture_ip(regex_pattern(*rx), text@) == Some(t@),
            None => capture_ip(regex_pattern(*rx), text@) is None,
        },
{
    rx.captures(text).and_then(|c| c.name("ip")).map(|m| m.as_str().to_owned())
}

/// What pattern extraction yields on a candidate text: the text itself for
/// an empty pattern, else the capture of the group named `ip`.
pub open spec fn extract_spec(text: Seq<char>, pattern: Seq<char>) -> Option<Seq<char>> {
    if pattern.len() == 0 {
        Some(text)
    } else if !regex_ok(pattern) {
        None
    } else {
        capture_ip(pattern, text)
    }
}

/// Applies a source's pattern to its candidate text. An empty pattern hands
/// the text back unchanged; a pattern that does not compile is a
/// configuration failure; a pattern that does not match, or matches without
/// a group named `ip`, is a capture failure.
pub fn extract_ip(s: &str, re: &str) -> (r: Result<String, Error>)
    ensures
        match r {
            Ok(t) => extract_spec(s@, re@) == Some(t@),
            Err(e) => extract_spec(s@, re@) is None && (e.source == ErrorSource::Regex <==> !regex_ok(
                re@,
            )) && (e.source == ErrorSource::Regex || e.source == ErrorSource::General),
        },
{
    if re.is_empty() {
        return Ok(s.to_owned());
    }
    let rx = match regex_new(re) {
        Ok(rx) => rx,
        Err(msg) => {
            let mut m = "extract_ip: Invalid regular expression - ".to_owned();
            m.append(msg.as_str());
            return Err(Error::new(m, ErrorSource::Regex));
        },
    };
    match regex_capture_ip(&rx, s) {
        Some(t) => Ok(t),
        None => Err(
            Error::new("extract_ip: Failed to capture the group named ip".to_owned(), ErrorSource::General),
        ),
    }
}

} // verus!
