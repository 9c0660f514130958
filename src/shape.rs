//! The shape a token must have to be admitted as a hostname.
use vstd::prelude::*;

verus! {

pub open spec fn is_letter(b: u8) -> bool {
    (0x41 <= b && b <= 0x5A) || (0x61 <= b && b <= 0x7A)
}

pub open spec fn is_digit(b: u8) -> bool {
    0x30 <= b && b <= 0x39
}

/// A byte that may stand inside a hostname: a letter, a digit, `.` or `-`.
pub open spec fn is_hostname_byte(b: u8) -> bool {
    is_letter(b) || is_digit(b) || b == 0x2E || b == 0x2D
}

/// A hostname begins with an ASCII letter, holds only letters, digits, dots
/// and hyphens, and ends with a letter or a digit.
pub open spec fn hostname_shape(t: Seq<u8>) -> bool {
    &&& t.len() >= 1
    &&& is_letter(t[0])
    &&& is_letter(t.last()) || is_digit(t.last())
    &&& forall|i: int| 0 <= i < t.len() ==> is_hostname_byte(#[trigger] t[i])
}

/// The regular expression whose matches are exactly the hostname-shaped
/// byte strings: anchored at both ends, one letter, then optionally any
/// hostname bytes closed by a letter or digit.
pub const HOSTNAME_PATTERN: &'static str = "^[A-Za-z](?:[A-Za-z0-9.-]*[A-Za-z0-9])?$";

/// The `regex` crate's compiled regular expression over bytes, carried as an
/// opaque value.
#[verifier::external_type_specification]
#[verifier::external_body]
pub struct ExBytesRegex(regex::bytes::Regex);

/// Relies on `regex::bytes::Regex::new`: the hostname pattern is a valid
/// regular expression, so compiling it does not fail.
#[verifier::external_body]
fn compile_pattern(pattern: &str) -> (r: regex::bytes::Regex)
    requires
        pattern@ == HOSTNAME_PATTERN@,
{
    regex::bytes::Regex::new(pattern).unwrap()
}

/// A compiled hostname rule. The regular expression inside is always the one
/// compiled from `HOSTNAME_PATTERN`: `new` is the only way to make one.
pub struct HostnameMatcher {
    re: regex::bytes::Regex,
}

impl HostnameMatcher {
    /// Compiles the hostname rule once, to be shared by every token of a parse.
    pub(crate) fn new() -> (m: HostnameMatcher) {
        HostnameMatcher { re: compile_pattern(HOSTNAME_PATTERN) }
    }

    /// Relies on `regex::bytes::Regex::is_match` on the regular expression
    /// compiled from `HOSTNAME_PATTERN`: with `^` and `$` anchoring the whole
    /// haystack and only ASCII classes, it matches exactly the bytes of
    /// `hostname_shape`.
    #[verifier::external_body]
    pub(crate) fn is_hostname(&self, tok: &[u8]) -> (r: bool)
        ensures
            r == hostname_shape(tok@),
    {
        self.re.is_match(tok)
    }
}

/// Hostname-shaped bytes are ASCII.
pub proof fn lemma_hostname_ascii(t: Seq<u8>)
    requires
        hostname_shape(t),
    ensures
        forall|i: int| 0 <= i < t.len() ==> #[trigger] t[i] < 0x80,
{
    assert forall|i: int| 0 <= i < t.len() implies #[trigger] t[i] < 0x80 by {
        assert(is_hostname_byte(t[i]));
    }
}

} // verus!
