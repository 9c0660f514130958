//! Whether a token is an IP address.
use vstd::prelude::*;

verus! {

/// Whether the text is an IPv4 address in dotted-quad form or an IPv6
/// address in its standard textual form, as std's address parser decides.
pub uninterp spec fn ip_address_text(s: Seq<char>) -> bool;

/// A character that may stand in an address text: a hexadecimal digit
/// (`0-9`, `a-f`, `A-F`), `.` or `:`.
pub open spec fn is_address_char(c: char) -> bool {
    ('0' <= c && c <= '9') || ('a' <= c && c <= 'f') || ('A' <= c && c <= 'F') || c == '.' || c
        == ':'
}

/// Relies on `<core::net::IpAddr as core::str::FromStr>::from_str`: whether
/// it accepts the text depends on the text alone, and an accepted text is
/// non-empty and made only of the characters of the address syntax (decimal
/// octets and dots for IPv4; hexadecimal groups, colons and an optional
/// dotted IPv4 tail for IPv6).
#[verifier::external_body]
pub(crate) fn is_ip_address(s: &str) -> (r: bool)
    ensures
        r == ip_address_text(s@),
        r ==> s@.len() > 0 && forall|i: int| 0 <= i < s@.len() ==> is_address_char(#[trigger] s@[i]),
{
    s.parse::<core::net::IpAddr>().is_ok()
}

} // verus!
