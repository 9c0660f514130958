//! One record of a hosts file: an IP address and its hostnames.
use vstd::prelude::*;
use vstd::utf8::*;
use vstd::string::StringSliceAdditionalSpecFns;
use crate::address::{ip_address_text, is_address_char, is_ip_address};
use crate::shape::{hostname_shape, lemma_hostname_ascii, HostnameMatcher};
use crate::text::{
    is_blank,
    lemma_ascii_valid_utf8, lemma_text_of_bytes, split_tokens, tokens, utf8_text, views_of,
};

verus! {

/// Why a line could not be read as a record.
#[derive(Debug, Clone, Copy, PartialEq, Eq, Structural)]
pub enum ParseError {
    /// The line has no first token, or it is not an IP address.
    MalformedIp,
    /// No hostname-shaped token follows the IP address.
    MalformedHostname,
    /// The line is not well-formed UTF-8.
    BadEncoding,
}

impl ParseError {
    /// A short tag naming the kind of error.
    pub fn tag(&self) -> (r: &'static str)
        ensures
            *self == ParseError::MalformedIp ==> r@ == "malformed ip"@,
            *self == ParseError::MalformedHostname ==> r@ == "malformed hostname"@,
            *self == ParseError::BadEncoding ==> r@ == "bad encoding"@,
    {
        match self {
            ParseError::MalformedIp => "malformed ip",
            ParseError::MalformedHostname => "malformed hostname",
            ParseError::BadEncoding => "bad encoding",
        }
    }
}

/// A record as bytes: the IP token and the hostname tokens, in order.
pub type Record = (Seq<u8>, Seq<Seq<u8>>);

/// A token that is well-formed UTF-8 whose text is an IP address.
pub open spec fn ip_token(t: Seq<u8>) -> bool {
    valid_utf8(t) && ip_address_text(decode_utf8(t)) && address_syntax(decode_utf8(t))
}

/// What every accepted address text is: non-empty, and made only of
/// address characters.
pub open spec fn address_syntax(c: Seq<char>) -> bool {
    c.len() > 0 && forall|i: int| 0 <= i < c.len() ==> is_address_char(#[trigger] c[i])
}

/// An IP token is a single non-empty token that does not start a comment.
pub proof fn lemma_ip_token_is_word(t: Seq<u8>)
    requires
        ip_token(t),
    ensures
        t.len() > 0,
        t[0] != 0x23,
        forall|i: int| 0 <= i < t.len() ==> !is_blank(#[trigger] t[i]),
{
    let c = decode_utf8(t);
    decode_utf8_encode_utf8(t);
    assert(is_ascii_chars(c)) by {
        assert forall|i: int| 0 <= i < c.len() implies '\0' <= #[trigger] c[i] <= '\u{7f}' by {
            assert(is_address_char(c[i]));
        }
    }
    is_ascii_chars_encode_utf8(c);
    assert forall|i: int| 0 <= i < t.len() implies !is_blank(#[trigger] t[i]) && t[i] != 0x23 by {
        assert(is_address_char(c[i]));
        assert(t[i] == c[i] as u8);
    }
    assert(t[0] != 0x23);
}

/// The longest prefix of `ts` whose tokens are all hostname-shaped.
pub open spec fn admitted(ts: Seq<Seq<u8>>) -> Seq<Seq<u8>>
    decreases ts.len(),
{
    if ts.len() > 0 && hostname_shape(ts[0]) {
        seq![ts[0]] + admitted(ts.drop_first())
    } else {
        seq![]
    }
}

/// The record that a line's tokens make: the first is the IP address, and
/// the hostnames are taken from the rest while they have hostname shape.
pub open spec fn record_of(ts: Seq<Seq<u8>>) -> Result<Record, ParseError> {
    if ts.len() == 0 || !ip_token(ts[0]) {
        Err(ParseError::MalformedIp)
    } else if admitted(ts.drop_first()).len() == 0 {
        Err(ParseError::MalformedHostname)
    } else {
        Ok((ts[0], admitted(ts.drop_first())))
    }
}

/// The record that a line's tokens make once it is known whether the first
/// token's text is an IP address (`ip_is_address`). The first token must
/// also be well-formed UTF-8.
pub open spec fn record_given(ts: Seq<Seq<u8>>, ip_is_address: bool) -> Result<Record, ParseError> {
    if ts.len() == 0 || !ip_is_address || !valid_utf8(ts[0]) {
        Err(ParseError::MalformedIp)
    } else if admitted(ts.drop_first()).len() == 0 {
        Err(ParseError::MalformedHostname)
    } else {
        Ok((ts[0], admitted(ts.drop_first())))
    }
}

/// A line is skipped when it has no token or its first token (its first
/// non-blank byte) starts with `#`.
pub open spec fn is_skipped(ts: Seq<Seq<u8>>) -> bool {
    ts.len() == 0 || (ts[0].len() > 0 && ts[0][0] == 0x23)
}

/// What one line of a hosts file gives: an error, nothing (a blank or
/// comment line), or a record.
pub open spec fn line_outcome(l: Seq<u8>) -> Result<Option<Record>, ParseError> {
    if !valid_utf8(l) {
        Err(ParseError::BadEncoding)
    } else if is_skipped(tokens(l)) {
        Ok(None)
    } else {
        match record_of(tokens(l)) {
            Ok(r) => Ok(Some(r)),
            Err(e) => Err(e),
        }
    }
}

/// A record as a hosts file can hold it: its IP parses as an address, and
/// it has one or more hostname-shaped names.
pub open spec fn well_formed_record(r: Record) -> bool {
    &&& ip_token(r.0)
    &&& r.1.len() >= 1
    &&& forall|i: int| 0 <= i < r.1.len() ==> hostname_shape(#[trigger] r.1[i])
}

/// The UTF-8 bytes of each string.
pub open spec fn texts_of(v: Seq<String>) -> Seq<Seq<u8>> {
    v.map_values(|h: String| encode_utf8(h@))
}

/// One record: an IP address and one or more hostnames, in input order.
#[derive(Debug, Clone)]
pub struct HostEntry {
    pub ip: String,
    pub hostname: Vec<String>,
}

impl View for HostEntry {
    type V = Record;

    open spec fn view(&self) -> Record {
        (encode_utf8(self.ip@), texts_of(self.hostname@))
    }
}

pub open spec fn entry_result(r: Result<HostEntry, ParseError>) -> Result<Record, ParseError> {
    match r {
        Ok(e) => Ok(e@),
        Err(x) => Err(x),
    }
}

pub open spec fn line_result(r: Result<Option<HostEntry>, ParseError>) -> Result<
    Option<Record>,
    ParseError,
> {
    match r {
        Ok(Some(e)) => Ok(Some(e@)),
        Ok(None) => Ok(None),
        Err(x) => Err(x),
    }
}

impl Default for HostEntry {
    /// An entry with an empty IP and no hostnames.
    fn default() -> (r: HostEntry)
        ensures
            r.ip@ == Seq::<char>::empty(),
            r.hostname@ == Seq::<String>::empty(),
    {
        HostEntry { ip: String::new(), hostname: Vec::new() }
    }
}

impl core::str::FromStr for HostEntry {
    type Err = ParseError;

    /// Reads a record from a line, as `HostEntry::from_line` does on its bytes.
    fn from_str(s: &str) -> (r: Result<HostEntry, ParseError>)
        ensures
            entry_result(r) == record_of(tokens(s.spec_bytes())),
    {
        HostEntry::from_line(s.as_bytes())
    }
}

impl HostEntry {
    pub fn new(ip: String, hostname: Vec<String>) -> (r: HostEntry)
        ensures
            r.ip == ip,
            r.hostname == hostname,
    {
        HostEntry { ip, hostname }
    }

    pub fn ip(&self) -> (r: &str)
        ensures
            r@ == self.ip@,
    {
        self.ip.as_str()
    }

    pub fn hostnames(&self) -> (r: &Vec<String>)
        ensures
            r == &self.hostname,
    {
        &self.hostname
    }

    /// Reads a record from a line's tokens.
    fn from_tokens(toks: &Vec<Vec<u8>>, m: &HostnameMatcher) -> (r: Result<HostEntry, ParseError>)
        ensures
            entry_result(r) == record_of(views_of(toks@)),
    {
        let ghost ts = views_of(toks@);
        let mut verdict = false;
        if toks.len() > 0 {
            assert(ts[0] == toks@[0]@);
            match utf8_text(toks[0].as_slice()) {
                Some(t) => {
                    proof {
                        lemma_text_of_bytes(t);
                    }
                    verdict = is_ip_address(t);
                },
                None => {},
            }
        }
        HostEntry::build(toks, verdict, m)
    }

    /// Reads a record from a line's tokens, given whether the text of the
    /// first token is an IP address: the hostnames are the hostname-shaped
    /// tokens after it, up to the first token of another shape.
    pub fn from_checked_tokens(toks: &Vec<Vec<u8>>, ip_is_address: bool) -> (r: Result<
        HostEntry,
        ParseError,
    >)
        ensures
            entry_result(r) == record_given(views_of(toks@), ip_is_address),
    {
        let m = HostnameMatcher::new();
        HostEntry::build(toks, ip_is_address, &m)
    }

    fn build(toks: &Vec<Vec<u8>>, ip_is_address: bool, m: &HostnameMatcher) -> (r: Result<
        HostEntry,
        ParseError,
    >)
        ensures
            entry_result(r) == record_given(views_of(toks@), ip_is_address),
    {
        let ghost ts = views_of(toks@);
        if toks.len() == 0 || !ip_is_address {
            return Err(ParseError::MalformedIp);
        }
        assert(ts[0] == toks@[0]@);
        let ip_text = match utf8_text(toks[0].as_slice()) {
            None => return Err(ParseError::MalformedIp),
            Some(t) => t,
        };
        let ip = ip_text.to_owned();
        let mut hosts: Vec<String> = Vec::new();
        let mut j: usize = 1;
        let mut done = false;
        assert(ts.subrange(1, ts.len() as int) =~= ts.drop_first());
        assert(texts_of(hosts@) =~= Seq::<Seq<u8>>::empty());
        while j < toks.len() && !done
            invariant
                ts == views_of(toks@),
                1 <= j <= toks@.len(),
                admitted(ts.drop_first()) == texts_of(hosts@) + (if done {
                    seq![]
                } else {
                    admitted(ts.subrange(j as int, ts.len() as int))
                }),
            decreases toks@.len() - j + (if done { 0int } else { 1int }),
        {
            let ghost rest = ts.subrange(j as int, ts.len() as int);
            assert(rest.drop_first() =~= ts.subrange(j + 1, ts.len() as int));
            assert(rest[0] == toks@[j as int]@);
            if m.is_hostname(toks[j].as_slice()) {
                proof {
                    lemma_hostname_ascii(toks@[j as int]@);
                    lemma_ascii_valid_utf8(toks@[j as int]@);
                }
                match utf8_text(toks[j].as_slice()) {
                    Some(t) => {
                        let ghost before = hosts@;
                        hosts.push(t.to_owned());
                        assert(texts_of(hosts@) =~= texts_of(before) + seq![rest[0]]);
                    },
                    None => {},
                }
                j = j + 1;
            } else {
                done = true;
            }
        }
        if !done {
            assert(ts.subrange(j as int, ts.len() as int).len() == 0);
        }
        assert(admitted(ts.drop_first()) =~= texts_of(hosts@));
        if hosts.len() == 0 {
            return Err(ParseError::MalformedHostname);
        }
        Ok(HostEntry { ip, hostname: hosts })
    }

    /// Reads a record from a line: its first token must be an IP address, and
    /// the hostnames are the hostname-shaped tokens that follow it, up to the
    /// first token of another shape.
    pub fn from_line(line: &[u8]) -> (r: Result<HostEntry, ParseError>)
        ensures
            entry_result(r) == record_of(tokens(line@)),
    {
        let m = HostnameMatcher::new();
        let toks = split_tokens(line);
        HostEntry::from_tokens(&toks, &m)
    }
}

pub(crate) fn parse_line_with(line: &[u8], m: &HostnameMatcher) -> (r: Result<
    Option<HostEntry>,
    ParseError,
>)
    ensures
        line_result(r) == line_outcome(line@),
{
    if utf8_text(line).is_none() {
        return Err(ParseError::BadEncoding);
    }
    let toks = split_tokens(line);
    if toks.len() == 0 {
        return Ok(None);
    }
    assert(tokens(line@)[0] == toks@[0]@);
    if toks[0].len() > 0 && toks[0][0] == 0x23 {
        return Ok(None);
    }
    match HostEntry::from_tokens(&toks, m) {
        Ok(e) => Ok(Some(e)),
        Err(e) => Err(e),
    }
}

/// Reads one line of a hosts file (without its line feed): an error, `None`
/// for a blank or comment line, or the record it holds.
pub fn parse_line(line: &[u8]) -> (r: Result<Option<HostEntry>, ParseError>)
    ensures
        line_result(r) == line_outcome(line@),
{
    let m = HostnameMatcher::new();
    parse_line_with(line, &m)
}

} // verus!
