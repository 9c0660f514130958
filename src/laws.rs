//! Laws that relate the parser and the serializer.
use vstd::prelude::*;
use vstd::utf8::*;
use crate::document::{document_text, hosts_text, parse_document, parse_lines, prepend, record_text};
use crate::entry::{lemma_ip_token_is_word, well_formed_record, admitted, ip_token, is_skipped, line_outcome, record_of, ParseError, Record};
use crate::shape::{hostname_shape, is_hostname_byte};
use crate::text::{lemma_ascii_valid_utf8, is_blank, is_line_feed, lines, lines_from, tokens, tokens_from};

verus! {

broadcast use vstd::utf8::group_utf8_lib;

/// Serializing depends on the document alone: two texts whose bytes are
/// both the rendering of the same records are the same text.
pub proof fn lemma_serialize_deterministic(d: Seq<Record>, s1: Seq<char>, s2: Seq<char>)
    requires
        encode_utf8(s1) == document_text(d),
        encode_utf8(s2) == document_text(d),
    ensures
        s1 == s2,
{
    assert(decode_utf8(encode_utf8(s1)) == s1);
    assert(decode_utf8(encode_utf8(s2)) == s2);
}

/// The admitted hostnames are a prefix of the tokens, in their order, and
/// each has hostname shape.
pub proof fn lemma_admitted_prefix(ts: Seq<Seq<u8>>)
    ensures
        admitted(ts).len() <= ts.len(),
        admitted(ts) == ts.take(admitted(ts).len() as int),
        forall|i: int| 0 <= i < admitted(ts).len() ==> hostname_shape(#[trigger] admitted(ts)[i]),
    decreases ts.len(),
{
    if ts.len() > 0 && hostname_shape(ts[0]) {
        lemma_admitted_prefix(ts.drop_first());
        let a = admitted(ts.drop_first());
        assert(admitted(ts) =~= ts.take(a.len() as int + 1));
        assert forall|i: int| 0 <= i < admitted(ts).len() implies hostname_shape(
            #[trigger] admitted(ts)[i],
        ) by {
            if i > 0 {
                assert(admitted(ts)[i] == a[i - 1]);
            }
        }
    } else {
        assert(admitted(ts) =~= ts.take(0));
    }
}

/// Hostname-shaped tokens followed by a token of another shape: exactly the
/// hostname-shaped ones are admitted, whatever comes after.
pub proof fn lemma_admitted_stops(hs: Seq<Seq<u8>>, rest: Seq<Seq<u8>>)
    requires
        forall|i: int| 0 <= i < hs.len() ==> hostname_shape(#[trigger] hs[i]),
        rest.len() == 0 || !hostname_shape(rest[0]),
    ensures
        admitted(hs + rest) == hs,
    decreases hs.len(),
{
    if hs.len() == 0 {
        assert(hs + rest =~= rest);
    } else {
        assert((hs + rest).drop_first() =~= hs.drop_first() + rest);
        lemma_admitted_stops(hs.drop_first(), rest);
        assert((hs + rest)[0] == hs[0]);
        assert(admitted(hs + rest) =~= hs);
    }
}

/// A line `IP H1 .. Hk X ..` where the Hi have hostname shape and X does not
/// gives the record of IP with exactly the hostnames H1 .. Hk.
pub proof fn lemma_first_bad_token_ends_hostnames(
    ip: Seq<u8>,
    hs: Seq<Seq<u8>>,
    x: Seq<u8>,
    more: Seq<Seq<u8>>,
)
    requires
        ip_token(ip),
        hs.len() >= 1,
        forall|i: int| 0 <= i < hs.len() ==> hostname_shape(#[trigger] hs[i]),
        !hostname_shape(x),
    ensures
        record_of(seq![ip] + hs + seq![x] + more) == Ok::<Record, ParseError>((ip, hs)),
{
    let ts = seq![ip] + hs + seq![x] + more;
    assert(ts.drop_first() =~= hs + (seq![x] + more));
    lemma_admitted_stops(hs, seq![x] + more);
    assert(ts[0] == ip);
}

/// A line whose IP is followed by no hostname-shaped token is rejected with
/// `MalformedHostname`.
pub proof fn lemma_no_hostname_rejected(ip: Seq<u8>, rest: Seq<Seq<u8>>)
    requires
        ip_token(ip),
        rest.len() == 0 || !hostname_shape(rest[0]),
    ensures
        record_of(seq![ip] + rest) == Err::<Record, ParseError>(ParseError::MalformedHostname),
{
    let ts = seq![ip] + rest;
    assert(ts.drop_first() =~= rest);
    assert(ts[0] == ip);
}

/// Parsing keeps the order of lines: the records of two runs of lines, one
/// after the other, are those of the first run followed by those of the second.
pub proof fn lemma_parse_lines_concat(a: Seq<Seq<u8>>, b: Seq<Seq<u8>>)
    ensures
        parse_lines(a + b) == match parse_lines(a) {
            Ok(ra) => prepend(ra, parse_lines(b)),
            Err(e) => Err(e),
        },
    decreases a.len(),
{
    if a.len() == 0 {
        assert(a + b =~= b);
        match parse_lines(b) {
            Ok(rb) => {
                assert(Seq::<Record>::empty() + rb =~= rb);
            },
            Err(_) => {},
        }
    } else {
        assert((a + b).drop_first() =~= a.drop_first() + b);
        assert((a + b)[0] == a[0]);
        lemma_parse_lines_concat(a.drop_first(), b);
        match line_outcome(a[0]) {
            Err(_) => {},
            Ok(None) => {},
            Ok(Some(r)) => {
                match parse_lines(a.drop_first()) {
                    Ok(ra) => {
                        match parse_lines(b) {
                            Ok(rb) => {
                                assert(seq![r] + (ra + rb) =~= (seq![r] + ra) + rb);
                            },
                            Err(_) => {},
                        }
                    },
                    Err(_) => {},
                }
            },
        }
    }
}

/// Lines split at a line feed: the lines of `p + q`, where `p` ends with a
/// line feed, are those of `p` followed by those of `q`.
pub proof fn lemma_lines_from_concat(p: Seq<u8>, q: Seq<u8>, cur: Seq<u8>)
    requires
        p.len() > 0,
        is_line_feed(p.last()),
    ensures
        lines_from(p + q, cur) == lines_from(p, cur) + lines(q),
    decreases p.len(),
{
    assert((p + q)[0] == p[0]);
    assert((p + q).drop_first() =~= p.drop_first() + q);
    if is_line_feed(p[0]) {
        if p.len() == 1 {
            assert(p.drop_first() + q =~= q);
            assert(lines_from(p.drop_first(), seq![]) =~= Seq::<Seq<u8>>::empty());
            assert(lines_from(p, cur) + lines(q) =~= seq![cur] + lines(q));
        } else {
            assert(p.drop_first().last() == p.last());
            lemma_lines_from_concat(p.drop_first(), q, seq![]);
            assert(lines_from(p + q, cur) =~= lines_from(p, cur) + lines(q));
        }
    } else {
        assert(p.drop_first().last() == p.last());
        lemma_lines_from_concat(p.drop_first(), q, cur.push(p[0]));
    }
}

/// A run of bytes without a line feed, then a line feed: one line.
pub proof fn lemma_line_then(c: Seq<u8>, q: Seq<u8>, cur: Seq<u8>)
    requires
        forall|i: int| 0 <= i < c.len() ==> !is_line_feed(#[trigger] c[i]),
    ensures
        lines_from(c + seq![0x0Au8] + q, cur) == seq![cur + c] + lines(q),
    decreases c.len(),
{
    let s = c + seq![0x0Au8] + q;
    if c.len() == 0 {
        assert(s[0] == 0x0A);
        assert(s.drop_first() =~= q);
        assert(cur + c =~= cur);
    } else {
        assert(s[0] == c[0]);
        assert(!is_line_feed(c[0]));
        assert(s.drop_first() =~= c.drop_first() + seq![0x0Au8] + q);
        lemma_line_then(c.drop_first(), q, cur.push(c[0]));
        assert(cur.push(c[0]) + c.drop_first() =~= cur + c);
    }
}

/// A skipped line among others changes nothing.
pub proof fn lemma_skipped_line(a: Seq<Seq<u8>>, c: Seq<u8>, b: Seq<Seq<u8>>)
    requires
        line_outcome(c) == Ok::<Option<Record>, ParseError>(None),
    ensures
        parse_lines(a + seq![c] + b) == parse_lines(a + b),
{
    let cb = seq![c] + b;
    assert(cb[0] == c);
    assert(cb.drop_first() =~= b);
    assert(a + seq![c] + b =~= a + cb);
    lemma_parse_lines_concat(a, cb);
    lemma_parse_lines_concat(a, b);
}

/// Inserting a blank line, or a line whose first non-blank byte is `#`, at a
/// line boundary of the input does not change the parsed document (when the
/// inserted line is well-formed UTF-8).
pub proof fn lemma_comment_line_ignored(x: Seq<u8>, c: Seq<u8>, y: Seq<u8>)
    requires
        x.len() == 0 || is_line_feed(x.last()),
        forall|i: int| 0 <= i < c.len() ==> !is_line_feed(#[trigger] c[i]),
        valid_utf8(c),
        is_skipped(tokens(c)),
    ensures
        parse_document(x + c + seq![0x0Au8] + y) == parse_document(x + y),
{
    let tail = c + seq![0x0Au8] + y;
    lemma_line_then(c, y, seq![]);
    assert(Seq::<u8>::empty() + c =~= c);
    assert(lines(tail) == seq![c] + lines(y));
    if x.len() == 0 {
        assert(x + c + seq![0x0Au8] + y =~= tail);
        assert(x + y =~= y);
        lemma_skipped_line(Seq::empty(), c, lines(y));
        assert(Seq::<Seq<u8>>::empty() + seq![c] + lines(y) =~= seq![c] + lines(y));
        assert(Seq::<Seq<u8>>::empty() + lines(y) =~= lines(y));
    } else {
        assert(x + c + seq![0x0Au8] + y =~= x + tail);
        lemma_lines_from_concat(x, tail, seq![]);
        lemma_lines_from_concat(x, y, seq![]);
        assert(lines(x) + (seq![c] + lines(y)) =~= lines(x) + seq![c] + lines(y));
        lemma_skipped_line(lines(x), c, lines(y));
    }
}

/// The hostnames as written, seen from the front: a space, the first name,
/// then the rest.
pub proof fn lemma_hosts_text_front(hs: Seq<Seq<u8>>)
    requires
        hs.len() >= 1,
    ensures
        hosts_text(hs) == seq![0x20u8] + hs[0] + hosts_text(hs.drop_first()),
    decreases hs.len(),
{
    if hs.len() == 1 {
        assert(hs.drop_last() =~= Seq::<Seq<u8>>::empty());
        assert(hs.drop_first() =~= Seq::<Seq<u8>>::empty());
        assert(hosts_text(hs) =~= seq![0x20u8] + hs[0] + hosts_text(hs.drop_first()));
    } else {
        lemma_hosts_text_front(hs.drop_last());
        assert(hs.drop_last().drop_first() =~= hs.drop_first().drop_last());
        assert(hs.drop_last()[0] == hs[0]);
        assert(hs.drop_first().last() == hs.last());
        assert(hosts_text(hs) =~= seq![0x20u8] + hs[0] + hosts_text(hs.drop_first()));
    }
}

/// Every byte of the written hostnames is a space or a hostname byte.
pub proof fn lemma_hosts_text_bytes(hs: Seq<Seq<u8>>)
    requires
        forall|i: int| 0 <= i < hs.len() ==> hostname_shape(#[trigger] hs[i]),
    ensures
        forall|j: int|
            0 <= j < hosts_text(hs).len() ==> #[trigger] hosts_text(hs)[j] == 0x20
                || is_hostname_byte(hosts_text(hs)[j]),
    decreases hs.len(),
{
    if hs.len() > 0 {
        lemma_hosts_text_bytes(hs.drop_last());
        let a = hosts_text(hs.drop_last());
        let h = hs.last();
        assert(hostname_shape(hs[hs.len() - 1]));
        assert forall|j: int| 0 <= j < hosts_text(hs).len() implies #[trigger] hosts_text(hs)[j]
            == 0x20 || is_hostname_byte(hosts_text(hs)[j]) by {
            if j < a.len() {
                assert(hosts_text(hs)[j] == a[j]);
            } else if j == a.len() {
            } else {
                assert(hosts_text(hs)[j] == h[j - a.len() - 1]);
            }
        }
    }
}

/// A word of non-blank bytes followed by nothing or a blank is one token.
pub proof fn lemma_tokens_word(w: Seq<u8>, rest: Seq<u8>, cur: Seq<u8>)
    requires
        forall|i: int| 0 <= i < w.len() ==> !is_blank(#[trigger] w[i]),
        (cur + w).len() > 0,
        rest.len() == 0 || is_blank(rest[0]),
    ensures
        tokens_from(w + rest, cur) == seq![cur + w] + tokens(rest),
    decreases w.len(),
{
    if w.len() == 0 {
        assert(w + rest =~= rest);
        assert(cur + w =~= cur);
        if rest.len() == 0 {
            assert(tokens(rest) =~= Seq::<Seq<u8>>::empty());
            assert(seq![cur] + tokens(rest) =~= seq![cur]);
        }
    } else {
        assert((w + rest)[0] == w[0]);
        assert((w + rest).drop_first() =~= w.drop_first() + rest);
        lemma_tokens_word(w.drop_first(), rest, cur.push(w[0]));
        assert(cur.push(w[0]) + w.drop_first() =~= cur + w);
    }
}

/// The written hostnames read back as tokens are the hostnames.
pub proof fn lemma_tokens_hosts(hs: Seq<Seq<u8>>)
    requires
        forall|i: int| 0 <= i < hs.len() ==> hostname_shape(#[trigger] hs[i]),
    ensures
        tokens(hosts_text(hs)) == hs,
    decreases hs.len(),
{
    if hs.len() == 0 {
        assert(tokens(hosts_text(hs)) =~= hs);
    } else {
        lemma_hosts_text_front(hs);
        let rest = hosts_text(hs.drop_first());
        let x = hs[0] + rest;
        let s = seq![0x20u8] + x;
        assert(s[0] == 0x20);
        assert(s.drop_first() =~= x);
        assert(hosts_text(hs) == s);
        assert(hostname_shape(hs[0]));
        assert forall|i: int| 0 <= i < hs[0].len() implies !is_blank(#[trigger] hs[0][i]) by {
            assert(is_hostname_byte(hs[0][i]));
        }
        if hs.drop_first().len() > 0 {
            lemma_hosts_text_front(hs.drop_first());
            assert(rest[0] == 0x20);
        }
        assert(Seq::<u8>::empty() + hs[0] =~= hs[0]);
        lemma_tokens_word(hs[0], rest, Seq::empty());
        assert forall|i: int| 0 <= i < hs.drop_first().len() implies hostname_shape(
            #[trigger] hs.drop_first()[i],
        ) by {
            assert(hs.drop_first()[i] == hs[i + 1]);
        }
        lemma_tokens_hosts(hs.drop_first());
        assert(seq![hs[0]] + hs.drop_first() =~= hs);
    }
}

/// The line that a record is written as, without its line feed.
pub open spec fn record_line(r: Record) -> Seq<u8> {
    r.0 + hosts_text(r.1)
}

/// A well-formed record written as a line reads back as itself.
pub proof fn lemma_record_line(r: Record)
    requires
        well_formed_record(r),
    ensures
        line_outcome(record_line(r)) == Ok::<Option<Record>, ParseError>(Some(r)),
        forall|i: int| 0 <= i < record_line(r).len() ==> !is_line_feed(#[trigger] record_line(r)[i]),
        record_text(r) == record_line(r) + seq![0x0Au8],
{
    let l = record_line(r);
    let ht = hosts_text(r.1);
    lemma_ip_token_is_word(r.0);
    lemma_hosts_text_bytes(r.1);
    lemma_hosts_text_front(r.1);
    assert(ht[0] == 0x20);
    assert forall|j: int| 0 <= j < ht.len() implies #[trigger] ht[j] < 0x80 by {
        assert(ht[j] == 0x20 || is_hostname_byte(ht[j]));
    }
    lemma_ascii_valid_utf8(ht);
    assert(valid_utf8(l));
    assert(r.0 + Seq::<u8>::empty() =~= r.0);
    assert(Seq::<u8>::empty() + r.0 =~= r.0);
    lemma_tokens_word(r.0, ht, Seq::empty());
    lemma_tokens_hosts(r.1);
    let ts = tokens(l);
    assert(ts == seq![r.0] + r.1);
    assert(ts[0] == r.0);
    assert(ts.drop_first() =~= r.1);
    lemma_admitted_stops(r.1, Seq::empty());
    assert(r.1 + Seq::<Seq<u8>>::empty() =~= r.1);
    assert forall|i: int| 0 <= i < l.len() implies !is_line_feed(#[trigger] l[i]) by {
        if i < r.0.len() {
            assert(l[i] == r.0[i]);
        } else {
            assert(l[i] == ht[i - r.0.len()]);
            assert(ht[i - r.0.len()] == 0x20 || is_hostname_byte(ht[i - r.0.len()]));
        }
    }
}

/// The lines of each record as written, in order.
pub open spec fn record_lines(d: Seq<Record>) -> Seq<Seq<u8>> {
    d.map_values(|r: Record| record_line(r))
}

proof fn lemma_document_lines(d: Seq<Record>)
    requires
        forall|i: int| 0 <= i < d.len() ==> well_formed_record(#[trigger] d[i]),
    ensures
        lines(document_text(d)) == record_lines(d),
        parse_lines(record_lines(d)) == Ok::<Seq<Record>, ParseError>(d),
        d.len() > 0 ==> document_text(d).len() > 0 && is_line_feed(document_text(d).last()),
    decreases d.len(),
{
    if d.len() == 0 {
        assert(record_lines(d) =~= Seq::<Seq<u8>>::empty());
        assert(lines(document_text(d)) =~= Seq::<Seq<u8>>::empty());
        assert(d =~= Seq::<Record>::empty());
    } else {
        let p = d.drop_last();
        let r = d.last();
        assert forall|i: int| 0 <= i < p.len() implies well_formed_record(#[trigger] p[i]) by {
            assert(p[i] == d[i]);
        }
        assert(well_formed_record(d[d.len() - 1]));
        lemma_document_lines(p);
        lemma_record_line(r);
        let l = record_line(r);
        let pt = document_text(p);
        assert(document_text(d) == pt + record_text(r));
        lemma_line_then(l, Seq::empty(), Seq::empty());
        assert(l + seq![0x0Au8] + Seq::<u8>::empty() =~= record_text(r));
        assert(Seq::<u8>::empty() + l =~= l);
        assert(lines(Seq::<u8>::empty()) =~= Seq::<Seq<u8>>::empty());
        assert(lines(record_text(r)) =~= seq![l]);
        assert(record_lines(d) =~= record_lines(p) + seq![l]);
        if p.len() == 0 {
            assert(pt =~= Seq::<u8>::empty());
            assert(document_text(d) =~= record_text(r));
        } else {
            lemma_lines_from_concat(pt, record_text(r), Seq::empty());
        }
        assert(lines(document_text(d)) == record_lines(d));
        lemma_parse_lines_concat(record_lines(p), seq![l]);
        let one = seq![l];
        assert(one[0] == l);
        assert(one.drop_first() =~= Seq::<Seq<u8>>::empty());
        assert(line_outcome(one[0]) == Ok::<Option<Record>, ParseError>(Some(r)));
        assert(parse_lines(one.drop_first()) == Ok::<Seq<Record>, ParseError>(Seq::empty()));
        assert(seq![r] + Seq::<Record>::empty() =~= seq![r]);
        assert(parse_lines(one) == Ok::<Seq<Record>, ParseError>(seq![r]));
        assert(p + seq![r] =~= d);
        assert(record_text(r).last() == 0x0A);
        assert(document_text(d).last() == record_text(r).last());
        assert(parse_lines(record_lines(p) + one) == Ok::<Seq<Record>, ParseError>(p + seq![r]));
    }
}

/// Writing a document of well-formed records and reading the text back
/// gives the same records.
pub proof fn lemma_round_trip(d: Seq<Record>)
    requires
        forall|i: int| 0 <= i < d.len() ==> well_formed_record(#[trigger] d[i]),
    ensures
        parse_document(document_text(d)) == Ok::<Seq<Record>, ParseError>(d),
{
    lemma_document_lines(d);
}

/// A non-empty run of non-blank bytes.
pub open spec fn is_word(t: Seq<u8>) -> bool {
    t.len() > 0 && forall|i: int| 0 <= i < t.len() ==> !is_blank(#[trigger] t[i])
}

/// Every token is a non-empty run of non-blank bytes.
pub proof fn lemma_tokens_are_words(s: Seq<u8>, cur: Seq<u8>)
    requires
        forall|i: int| 0 <= i < cur.len() ==> !is_blank(#[trigger] cur[i]),
    ensures
        forall|k: int| 0 <= k < tokens_from(s, cur).len() ==> is_word(#[trigger] tokens_from(s, cur)[k]),
    decreases s.len(),
{
    if s.len() == 0 {
        assert forall|k: int| 0 <= k < tokens_from(s, cur).len() implies is_word(
            #[trigger] tokens_from(s, cur)[k],
        ) by {
            assert(tokens_from(s, cur) == seq![cur]);
            assert(tokens_from(s, cur)[k] == cur);
        }
    } else if is_blank(s[0]) {
        lemma_tokens_are_words(s.drop_first(), Seq::empty());
        if cur.len() == 0 {
            lemma_tokens_are_words(s.drop_first(), cur);
            assert(tokens_from(s, cur) == tokens_from(s.drop_first(), cur));
        } else {
            let rest = tokens_from(s.drop_first(), Seq::empty());
            assert(tokens_from(s, cur) == seq![cur] + rest);
            assert forall|k: int| 0 <= k < tokens_from(s, cur).len() implies is_word(
                #[trigger] tokens_from(s, cur)[k],
            ) by {
                if k > 0 {
                    assert(tokens_from(s, cur)[k] == rest[k - 1]);
                } else {
                    assert(tokens_from(s, cur)[k] == cur);
                    assert(is_word(cur));
                }
            }
        }
    } else {
        let c2 = cur.push(s[0]);
        assert forall|i: int| 0 <= i < c2.len() implies !is_blank(#[trigger] c2[i]) by {
            if i < cur.len() {
                assert(c2[i] == cur[i]);
            }
        }
        lemma_tokens_are_words(s.drop_first(), c2);
        assert(tokens_from(s, cur) == tokens_from(s.drop_first(), c2));
    }
}

/// A record read from a line is well-formed.
pub proof fn lemma_line_record_well_formed(l: Seq<u8>, r: Record)
    requires
        line_outcome(l) == Ok::<Option<Record>, ParseError>(Some(r)),
    ensures
        well_formed_record(r),
{
    let ts = tokens(l);
    lemma_tokens_are_words(l, Seq::empty());
    assert(is_word(ts[0]));
    lemma_admitted_prefix(ts.drop_first());
    assert(r.0 == ts[0]);
    assert(r.1 == admitted(ts.drop_first()));
}

/// Every record of a parsed document is well-formed.
pub proof fn lemma_parsed_well_formed(ls: Seq<Seq<u8>>)
    requires
        parse_lines(ls) is Ok,
    ensures
        forall|i: int|
            0 <= i < parse_lines(ls)->Ok_0.len() ==> well_formed_record(
                #[trigger] parse_lines(ls)->Ok_0[i],
            ),
    decreases ls.len(),
{
    if ls.len() > 0 {
        lemma_parsed_well_formed(ls.drop_first());
        match line_outcome(ls[0]) {
            Ok(Some(r)) => {
                lemma_line_record_well_formed(ls[0], r);
                let rest = parse_lines(ls.drop_first())->Ok_0;
                assert(parse_lines(ls)->Ok_0 == seq![r] + rest);
                assert forall|i: int| 0 <= i < parse_lines(ls)->Ok_0.len() implies well_formed_record(
                    #[trigger] parse_lines(ls)->Ok_0[i],
                ) by {
                    if i > 0 {
                        assert(parse_lines(ls)->Ok_0[i] == rest[i - 1]);
                    }
                }
            },
            _ => {},
        }
    }
}

/// Reading, writing and reading again gives what the first reading gave.
pub proof fn lemma_reparse(b: Seq<u8>)
    requires
        parse_document(b) is Ok,
    ensures
        parse_document(document_text(parse_document(b)->Ok_0)) == parse_document(b),
{
    lemma_parsed_well_formed(lines(b));
    lemma_round_trip(parse_document(b)->Ok_0);
}

/// Lines written one after the other, each closed by a line feed.
pub open spec fn joined_lines(cs: Seq<Seq<u8>>) -> Seq<u8>
    decreases cs.len(),
{
    if cs.len() == 0 {
        seq![]
    } else {
        cs[0] + seq![0x0Au8] + joined_lines(cs.drop_first())
    }
}

/// A line that parsing skips: well-formed UTF-8, without a line feed, and
/// blank or starting (after blanks) with `#`.
pub open spec fn is_comment_or_blank_line(c: Seq<u8>) -> bool {
    &&& forall|i: int| 0 <= i < c.len() ==> !is_line_feed(#[trigger] c[i])
    &&& valid_utf8(c)
    &&& is_skipped(tokens(c))
}

/// Inserting any number of blank or comment lines at a line boundary of the
/// input does not change the parsed document.
pub proof fn lemma_comment_lines_ignored(x: Seq<u8>, cs: Seq<Seq<u8>>, y: Seq<u8>)
    requires
        x.len() == 0 || is_line_feed(x.last()),
        forall|k: int| 0 <= k < cs.len() ==> is_comment_or_blank_line(#[trigger] cs[k]),
    ensures
        parse_document(x + joined_lines(cs) + y) == parse_document(x + y),
    decreases cs.len(),
{
    if cs.len() == 0 {
        assert(x + joined_lines(cs) + y =~= x + y);
    } else {
        let rest = cs.drop_first();
        let y2 = joined_lines(rest) + y;
        assert(is_comment_or_blank_line(cs[0]));
        assert(x + joined_lines(cs) + y =~= x + cs[0] + seq![0x0Au8] + y2);
        lemma_comment_line_ignored(x, cs[0], y2);
        assert forall|k: int| 0 <= k < rest.len() implies is_comment_or_blank_line(
            #[trigger] rest[k],
        ) by {
            assert(rest[k] == cs[k + 1]);
        }
        lemma_comment_lines_ignored(x, rest, y);
        assert(x + y2 =~= x + joined_lines(rest) + y);
    }
}

/// The pieces of an input, each followed by the lines inserted after it.
pub open spec fn interleaved(xs: Seq<Seq<u8>>, gs: Seq<Seq<Seq<u8>>>) -> Seq<u8>
    decreases xs.len(),
{
    if xs.len() == 0 || gs.len() == 0 {
        seq![]
    } else {
        xs[0] + joined_lines(gs[0]) + interleaved(xs.drop_first(), gs.drop_first())
    }
}

/// The pieces of an input, one after the other.
pub open spec fn concat_pieces(xs: Seq<Seq<u8>>) -> Seq<u8>
    decreases xs.len(),
{
    if xs.len() == 0 {
        seq![]
    } else {
        xs[0] + concat_pieces(xs.drop_first())
    }
}

/// Inserting blank or comment lines at any number of line boundaries leaves
/// the parsed document unchanged. The input is `pre`, then the pieces `xs`,
/// then `tail`; every piece ends at a line boundary, and after piece `k` the
/// lines `gs[k]` are inserted.
pub proof fn lemma_comment_lines_ignored_everywhere(
    pre: Seq<u8>,
    xs: Seq<Seq<u8>>,
    gs: Seq<Seq<Seq<u8>>>,
    tail: Seq<u8>,
)
    requires
        pre.len() == 0 || is_line_feed(pre.last()),
        gs.len() == xs.len(),
        forall|k: int| 0 <= k < xs.len() ==> (#[trigger] xs[k]).len() == 0 || is_line_feed(xs[k].last()),
        forall|k: int, j: int|
            0 <= k < gs.len() && 0 <= j < gs[k].len() ==> is_comment_or_blank_line(#[trigger] gs[k][j]),
    ensures
        parse_document(pre + interleaved(xs, gs) + tail) == parse_document(pre + concat_pieces(xs) + tail),
    decreases xs.len(),
{
    if xs.len() == 0 {
        assert(interleaved(xs, gs) =~= concat_pieces(xs));
    } else {
        let p2 = pre + xs[0];
        let ri = interleaved(xs.drop_first(), gs.drop_first());
        let rc = concat_pieces(xs.drop_first());
        assert(xs[0].len() == 0 || is_line_feed(xs[0].last()));
        if xs[0].len() == 0 {
            assert(p2 =~= pre);
        } else {
            assert(p2.last() == xs[0].last());
        }
        assert forall|j: int| 0 <= j < gs[0].len() implies is_comment_or_blank_line(
            #[trigger] gs[0][j],
        ) by {
            assert(is_comment_or_blank_line(gs[0][j]));
        }
        assert(pre + interleaved(xs, gs) + tail =~= p2 + joined_lines(gs[0]) + (ri + tail));
        lemma_comment_lines_ignored(p2, gs[0], ri + tail);
        assert(p2 + (ri + tail) =~= p2 + ri + tail);
        assert forall|k: int| 0 <= k < xs.drop_first().len() implies (#[trigger] xs.drop_first()[k]).len()
            == 0 || is_line_feed(xs.drop_first()[k].last()) by {
            assert(xs.drop_first()[k] == xs[k + 1]);
        }
        assert forall|k: int, j: int|
            0 <= k < gs.drop_first().len() && 0 <= j < gs.drop_first()[k].len() implies is_comment_or_blank_line(
            #[trigger] gs.drop_first()[k][j],
        ) by {
            assert(gs.drop_first()[k] == gs[k + 1]);
        }
        lemma_comment_lines_ignored_everywhere(p2, xs.drop_first(), gs.drop_first(), tail);
        assert(p2 + rc + tail =~= pre + concat_pieces(xs) + tail);
    }
}

/// The candidate record lines: those that parsing does not skip, in order.
pub open spec fn candidate_lines(ls: Seq<Seq<u8>>) -> Seq<Seq<u8>>
    decreases ls.len(),
{
    if ls.len() == 0 {
        seq![]
    } else if is_skipped(tokens(ls[0])) {
        candidate_lines(ls.drop_first())
    } else {
        seq![ls[0]] + candidate_lines(ls.drop_first())
    }
}

/// Records keep the order of the lines: after a successful parse, the `i`-th
/// record is the one read from the `i`-th candidate line, and its IP is that
/// line's first token.
pub proof fn lemma_records_follow_lines(ls: Seq<Seq<u8>>)
    requires
        parse_lines(ls) is Ok,
    ensures
        parse_lines(ls)->Ok_0.len() == candidate_lines(ls).len(),
        forall|i: int|
            0 <= i < candidate_lines(ls).len() ==> record_of(tokens(#[trigger] candidate_lines(ls)[i]))
                == Ok::<Record, ParseError>(parse_lines(ls)->Ok_0[i]),
        forall|i: int|
            0 <= i < candidate_lines(ls).len() ==> (#[trigger] parse_lines(ls)->Ok_0[i]).0 == tokens(
                candidate_lines(ls)[i],
            )[0],
    decreases ls.len(),
{
    if ls.len() > 0 {
        let rest = ls.drop_first();
        lemma_records_follow_lines(rest);
        let rs = parse_lines(ls)->Ok_0;
        let rr = parse_lines(rest)->Ok_0;
        let cs = candidate_lines(ls);
        let cr = candidate_lines(rest);
        match line_outcome(ls[0]) {
            Ok(Some(r)) => {
                assert(!is_skipped(tokens(ls[0])));
                assert(record_of(tokens(ls[0])) == Ok::<Record, ParseError>(r));
                assert(rs == seq![r] + rr);
                assert(cs == seq![ls[0]] + cr);
                assert forall|i: int| 0 <= i < cs.len() implies record_of(tokens(#[trigger] cs[i]))
                    == Ok::<Record, ParseError>(rs[i]) && rs[i].0 == tokens(cs[i])[0] by {
                    if i > 0 {
                        assert(cs[i] == cr[i - 1]);
                        assert(rs[i] == rr[i - 1]);
                    } else {
                        assert(cs[0] == ls[0]);
                        assert(rs[0] == r);
                    }
                }
            },
            Ok(None) => {
                assert(is_skipped(tokens(ls[0])));
                assert(cs == cr);
                assert(rs == rr);
            },
            Err(_) => {},
        }
    } else {
        assert(candidate_lines(ls) =~= Seq::<Seq<u8>>::empty());
    }
}

/// The same for a whole buffer: the records of a successful parse come from
/// its candidate lines, one each, in input order.
pub proof fn lemma_order_preserved(b: Seq<u8>)
    requires
        parse_document(b) is Ok,
    ensures
        parse_document(b)->Ok_0.len() == candidate_lines(lines(b)).len(),
        forall|i: int|
            0 <= i < candidate_lines(lines(b)).len() ==> record_of(
                tokens(#[trigger] candidate_lines(lines(b))[i]),
            ) == Ok::<Record, ParseError>(parse_document(b)->Ok_0[i]),
        forall|i: int|
            0 <= i < candidate_lines(lines(b)).len() ==> (#[trigger] parse_document(b)->Ok_0[i]).0
                == tokens(candidate_lines(lines(b))[i])[0],
{
    lemma_records_follow_lines(lines(b));
}

} // verus!
