//! A whole hosts file: its records in order, read from bytes and written as text.
use vstd::prelude::*;
use vstd::utf8::*;
use vstd::string::StringExecFns;
use crate::entry::{line_outcome, line_result, parse_line_with, HostEntry, ParseError, Record};
use crate::shape::HostnameMatcher;
use crate::text::{lemma_encode_concat, lines, split_lines, views_of};

verus! {

/// Puts `acc` in front of the records of a successful parse; an error stays.
pub open spec fn prepend(acc: Seq<Record>, r: Result<Seq<Record>, ParseError>) -> Result<
    Seq<Record>,
    ParseError,
> {
    match r {
        Ok(rs) => Ok(acc + rs),
        Err(e) => Err(e),
    }
}

/// The records of a sequence of lines, in order; the first line that fails
/// decides the error.
pub open spec fn parse_lines(ls: Seq<Seq<u8>>) -> Result<Seq<Record>, ParseError>
    decreases ls.len(),
{
    if ls.len() == 0 {
        Ok(seq![])
    } else {
        match line_outcome(ls[0]) {
            Err(e) => Err(e),
            Ok(None) => parse_lines(ls.drop_first()),
            Ok(Some(r)) => prepend(seq![r], parse_lines(ls.drop_first())),
        }
    }
}

/// The records of a hosts file held in a buffer.
pub open spec fn parse_document(b: Seq<u8>) -> Result<Seq<Record>, ParseError> {
    parse_lines(lines(b))
}

/// The hostnames of a record as written: each one after a single space.
pub open spec fn hosts_text(hs: Seq<Seq<u8>>) -> Seq<u8>
    decreases hs.len(),
{
    if hs.len() == 0 {
        seq![]
    } else {
        hosts_text(hs.drop_last()) + seq![0x20u8] + hs.last()
    }
}

/// A record as written: the IP, its hostnames, and a line feed.
pub open spec fn record_text(r: Record) -> Seq<u8> {
    r.0 + hosts_text(r.1) + seq![0x0Au8]
}

/// A document as written: each record on its own line, in order.
pub open spec fn document_text(rs: Seq<Record>) -> Seq<u8>
    decreases rs.len(),
{
    if rs.len() == 0 {
        seq![]
    } else {
        document_text(rs.drop_last()) + record_text(rs.last())
    }
}

/// The records of a hosts file, in input order.
#[derive(Debug, Clone)]
pub struct HostFile {
    pub entries: Vec<HostEntry>,
}

impl View for HostFile {
    type V = Seq<Record>;

    open spec fn view(&self) -> Seq<Record> {
        self.entries@.map_values(|e: HostEntry| e@)
    }
}

pub open spec fn file_result(r: Result<HostFile, ParseError>) -> Result<Seq<Record>, ParseError> {
    match r {
        Ok(f) => Ok(f@),
        Err(x) => Err(x),
    }
}

proof fn lemma_prepend_push(acc: Seq<Record>, r: Record, x: Result<Seq<Record>, ParseError>)
    ensures
        prepend(acc, prepend(seq![r], x)) == prepend(acc.push(r), x),
{
    match x {
        Ok(rs) => {
            assert(acc + (seq![r] + rs) =~= acc.push(r) + rs);
        },
        Err(_) => {},
    }
}

proof fn lemma_encode_ascii_char(s: &str, c: char)
    requires
        s@ =~= seq![c],
        '\0' <= c <= '\u{7f}',
    ensures
        encode_utf8(s@) == seq![c as u8],
{
    assert(is_ascii_chars(s@));
    is_ascii_chars_encode_utf8(s@);
    assert(encode_utf8(s@) =~= seq![c as u8]);
}

impl Default for HostFile {
    fn default() -> (r: HostFile)
        ensures
            r@ == Seq::<Record>::empty(),
    {
        HostFile::new()
    }
}

impl HostFile {
    pub fn new() -> (r: HostFile)
        ensures
            r@ == Seq::<Record>::empty(),
    {
        let r = HostFile { entries: Vec::new() };
        assert(r@ =~= Seq::<Record>::empty());
        r
    }

    /// Appends a record at the end.
    pub fn push(&mut self, e: HostEntry)
        ensures
            final(self).entries@ == old(self).entries@.push(e),
            final(self)@ == old(self)@.push(e@),
    {
        self.entries.push(e);
        assert(self@ =~= old(self)@.push(e@));
    }

    /// Renders the records in order, one per line: the IP, then each
    /// hostname after a single space, then a line feed.
    pub fn write_to_string(&self) -> (r: String)
        ensures
            encode_utf8(r@) == document_text(self@),
            r@ == decode_utf8(document_text(self@)),
    {
        let ghost rs = self@;
        let mut out = String::new();
        let mut i: usize = 0;
        let sp: &str = " ";
        let lf: &str = "\n";
        proof {
            reveal_strlit(" ");
            reveal_strlit("\n");
            lemma_encode_ascii_char(sp, ' ');
            lemma_encode_ascii_char(lf, '\n');
            assert(rs.take(0) =~= Seq::<Record>::empty());
        }
        while i < self.entries.len()
            invariant
                rs == self@,
                i <= rs.len(),
                encode_utf8(sp@) == seq![0x20u8],
                encode_utf8(lf@) == seq![0x0Au8],
                encode_utf8(out@) == document_text(rs.take(i as int)),
            decreases rs.len() - i,
        {
            let e = &self.entries[i];
            let ghost hs = e@.1;
            let mut line = String::new();
            line.append(e.ip.as_str());
            let mut k: usize = 0;
            assert(hs.take(0) =~= Seq::<Seq<u8>>::empty());
            assert(encode_utf8(line@) == e@.0 + hosts_text(hs.take(0))) by {
                assert(e@.0 + hosts_text(hs.take(0)) =~= e@.0);
            }
            while k < e.hostname.len()
                invariant
                    e == &self.entries@[i as int],
                    hs == e@.1,
                    k <= hs.len(),
                    encode_utf8(sp@) == seq![0x20u8],
                    encode_utf8(line@) == e@.0 + hosts_text(hs.take(k as int)),
                decreases hs.len() - k,
            {
                let ghost before = line@;
                line.append(sp);
                line.append(e.hostname[k].as_str());
                proof {
                    let h = e.hostname@[k as int]@;
                    lemma_encode_concat(before, sp@);
                    lemma_encode_concat(before + sp@, h);
                    assert(line@ == before + sp@ + h);
                    assert(hs.take(k + 1).drop_last() =~= hs.take(k as int));
                    assert(hs[k as int] == encode_utf8(h));
                    assert(encode_utf8(line@) =~= e@.0 + hosts_text(hs.take(k + 1)));
                }
                k = k + 1;
            }
            let ghost before = line@;
            line.append(lf);
            let ghost prev = out@;
            out.append(line.as_str());
            proof {
                assert(hs.take(k as int) =~= hs);
                lemma_encode_concat(before, lf@);
                lemma_encode_concat(prev, line@);
                assert(rs.take(i + 1).drop_last() =~= rs.take(i as int));
                assert(rs[i as int] == e@);
                assert(encode_utf8(out@) =~= document_text(rs.take(i + 1)));
            }
            i = i + 1;
        }
        proof {
            assert(rs.take(i as int) =~= rs);
            encode_utf8_decode_utf8(out@);
        }
        out
    }
}

/// Reads a hosts file held in a buffer. Lines end at line feeds; blank lines
/// and lines whose first non-blank byte is `#` are skipped; every other line
/// must hold a record, and the first that does not ends the parse with its
/// error. A line that is not well-formed UTF-8 fails with `BadEncoding`.
pub fn parse_hosts_buffer(bytes: &[u8]) -> (r: Result<HostFile, ParseError>)
    ensures
        file_result(r) == parse_document(bytes@),
{
    let ls = split_lines(bytes);
    let ghost lv = views_of(ls@);
    let m = HostnameMatcher::new();
    let mut file = HostFile::new();
    let mut j: usize = 0;
    assert(lv.subrange(0, lv.len() as int) =~= lv);
    assert(prepend(file@, parse_lines(lv)) == parse_lines(lv)) by {
        match parse_lines(lv) {
            Ok(rs) => {
                assert(file@ + rs =~= rs);
            },
            Err(_) => {},
        }
    }
    while j < ls.len()
        invariant
            lv == views_of(ls@),
            lv == lines(bytes@),
            j <= lv.len(),
            parse_document(bytes@) == prepend(file@, parse_lines(lv.subrange(j as int, lv.len() as int))),
        decreases lv.len() - j,
    {
        let ghost rest = lv.subrange(j as int, lv.len() as int);
        assert(rest.drop_first() =~= lv.subrange(j + 1, lv.len() as int));
        assert(rest[0] == ls@[j as int]@);
        match parse_line_with(ls[j].as_slice(), &m) {
            Err(e) => {
                return Err(e);
            },
            Ok(None) => {},
            Ok(Some(e)) => {
                let ghost before = file@;
                proof {
                    lemma_prepend_push(before, e@, parse_lines(rest.drop_first()));
                }
                file.push(e);
            },
        }
        j = j + 1;
    }
    proof {
        assert(lv.subrange(j as int, lv.len() as int) =~= Seq::<Seq<u8>>::empty());
        assert(file@ + Seq::<Record>::empty() =~= file@);
    }
    Ok(file)
}

} // verus!
