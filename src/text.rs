//! Byte-level structure of a hosts file: lines, blanks and tokens.
use vstd::prelude::*;
use vstd::utf8::*;
use vstd::string::StringSliceAdditionalSpecFns;

verus! {

broadcast use vstd::utf8::group_utf8_lib;

/// The line feed that ends a line.
pub open spec fn is_line_feed(b: u8) -> bool {
    b == 0x0A
}

/// ASCII whitespace: space, tab, line feed, vertical tab, form feed, carriage return.
pub open spec fn is_blank(b: u8) -> bool {
    b == 0x20 || b == 0x09 || b == 0x0A || b == 0x0B || b == 0x0C || b == 0x0D
}

/// The lines of `s`, where `cur` holds the line read so far.
/// The last line is kept only when it is not empty, so a final line feed
/// adds no empty line.
pub open spec fn lines_from(s: Seq<u8>, cur: Seq<u8>) -> Seq<Seq<u8>>
    decreases s.len(),
{
    if s.len() == 0 {
        if cur.len() == 0 {
            seq![]
        } else {
            seq![cur]
        }
    } else if is_line_feed(s[0]) {
        seq![cur] + lines_from(s.drop_first(), seq![])
    } else {
        lines_from(s.drop_first(), cur.push(s[0]))
    }
}

/// The lines of a buffer: its pieces between line feeds.
pub open spec fn lines(s: Seq<u8>) -> Seq<Seq<u8>> {
    lines_from(s, seq![])
}

/// The tokens of `s`, where `cur` holds the token read so far.
pub open spec fn tokens_from(s: Seq<u8>, cur: Seq<u8>) -> Seq<Seq<u8>>
    decreases s.len(),
{
    if s.len() == 0 {
        if cur.len() == 0 {
            seq![]
        } else {
            seq![cur]
        }
    } else if is_blank(s[0]) {
        if cur.len() == 0 {
            tokens_from(s.drop_first(), cur)
        } else {
            seq![cur] + tokens_from(s.drop_first(), seq![])
        }
    } else {
        tokens_from(s.drop_first(), cur.push(s[0]))
    }
}

/// The maximal runs of non-blank bytes of `s`, in order.
pub open spec fn tokens(s: Seq<u8>) -> Seq<Seq<u8>> {
    tokens_from(s, seq![])
}

/// The byte sequences held by a vector of byte vectors.
pub open spec fn views_of(v: Seq<Vec<u8>>) -> Seq<Seq<u8>> {
    v.map_values(|x: Vec<u8>| x@)
}

/// Splits a buffer into its lines.
pub fn split_lines(b: &[u8]) -> (r: Vec<Vec<u8>>)
    ensures
        views_of(r@) == lines(b@),
{
    let mut out: Vec<Vec<u8>> = Vec::new();
    let mut cur: Vec<u8> = Vec::new();
    let mut i: usize = 0;
    assert(b@.subrange(0, b@.len() as int) =~= b@);
    while i < b.len()
        invariant
            i <= b@.len(),
            views_of(out@) + lines_from(b@.subrange(i as int, b@.len() as int), cur@) == lines(
                b@,
            ),
        decreases b@.len() - i,
    {
        let ghost rest = b@.subrange(i as int, b@.len() as int);
        assert(rest.drop_first() =~= b@.subrange(i + 1, b@.len() as int));
        if b[i] == 0x0A {
            let ghost old_out = views_of(out@);
            let line = cur;
            cur = Vec::new();
            out.push(line);
            assert(views_of(out@) =~= old_out.push(line@));
            assert(views_of(out@) + lines_from(rest.drop_first(), cur@) =~= old_out + (seq![
                line@,
            ] + lines_from(rest.drop_first(), seq![])));
        } else {
            cur.push(b[i]);
        }
        i = i + 1;
    }
    assert(b@.subrange(i as int, b@.len() as int) =~= Seq::<u8>::empty());
    if cur.len() > 0 {
        let ghost old_out = views_of(out@);
        out.push(cur);
        assert(views_of(out@) =~= old_out + seq![cur@]);
    } else {
        assert(views_of(out@) =~= views_of(out@) + Seq::<Seq<u8>>::empty());
    }
    out
}

/// Splits a line into its tokens.
pub fn split_tokens(s: &[u8]) -> (r: Vec<Vec<u8>>)
    ensures
        views_of(r@) == tokens(s@),
{
    let mut out: Vec<Vec<u8>> = Vec::new();
    let mut cur: Vec<u8> = Vec::new();
    let mut i: usize = 0;
    assert(s@.subrange(0, s@.len() as int) =~= s@);
    while i < s.len()
        invariant
            i <= s@.len(),
            views_of(out@) + tokens_from(s@.subrange(i as int, s@.len() as int), cur@) == tokens(
                s@,
            ),
        decreases s@.len() - i,
    {
        let ghost rest = s@.subrange(i as int, s@.len() as int);
        assert(rest.drop_first() =~= s@.subrange(i + 1, s@.len() as int));
        let c = s[i];
        if c == 0x20 || c == 0x09 || c == 0x0A || c == 0x0B || c == 0x0C || c == 0x0D {
            if cur.len() > 0 {
                let ghost old_out = views_of(out@);
                let tok = cur;
                cur = Vec::new();
                out.push(tok);
                assert(views_of(out@) =~= old_out.push(tok@));
                assert(views_of(out@) + tokens_from(rest.drop_first(), cur@) =~= old_out + (seq![
                    tok@,
                ] + tokens_from(rest.drop_first(), seq![])));
            }
        } else {
            cur.push(c);
        }
        i = i + 1;
    }
    assert(s@.subrange(i as int, s@.len() as int) =~= Seq::<u8>::empty());
    if cur.len() > 0 {
        let ghost old_out = views_of(out@);
        out.push(cur);
        assert(views_of(out@) =~= old_out + seq![cur@]);
    } else {
        assert(views_of(out@) =~= views_of(out@) + Seq::<Seq<u8>>::empty());
    }
    out
}

/// Relies on `std::str::from_utf8`: it succeeds exactly on well-formed UTF-8,
/// and the text it returns is made of the given bytes.
#[verifier::external_body]
pub(crate) fn utf8_text(b: &[u8]) -> (r: Option<&str>)
    ensures
        r is Some <==> valid_utf8(b@),
        r matches Some(t) ==> t.spec_bytes() == b@,
{
    std::str::from_utf8(b).ok()
}

/// Bytes below 0x80 alone always form well-formed UTF-8.
pub proof fn lemma_ascii_valid_utf8(t: Seq<u8>)
    requires
        forall|i: int| 0 <= i < t.len() ==> #[trigger] t[i] < 0x80,
    ensures
        valid_utf8(t),
{
    assert(t.subrange(0, 0) =~= Seq::<u8>::empty());
    assert(valid_utf8(Seq::<u8>::empty()));
    assert(forall|i: int| 0 <= i < t.len() ==> #[trigger] is_leading_byte_width_1(t[i]));
    partial_valid_utf8_extend_ascii_block(t, 0, t.len() as int);
    assert(t.subrange(0, t.len() as int) =~= t);
}

/// The encoding of a concatenation is the concatenation of the encodings.
pub proof fn lemma_encode_concat(a: Seq<char>, b: Seq<char>)
    ensures
        encode_utf8(a + b) == encode_utf8(a) + encode_utf8(b),
    decreases a.len(),
{
    if a.len() == 0 {
        assert(a + b =~= b);
        assert(encode_utf8(a) =~= Seq::<u8>::empty());
        assert(encode_utf8(a) + encode_utf8(b) =~= encode_utf8(b));
    } else {
        assert((a + b).drop_first() =~= a.drop_first() + b);
        lemma_encode_concat(a.drop_first(), b);
        assert((a + b)[0] == a[0]);
        assert(encode_utf8(a + b) =~= encode_utf8(a) + encode_utf8(b));
    }
}

/// The text of a string's bytes is the string itself.
pub proof fn lemma_text_of_bytes(t: &str)
    ensures
        decode_utf8(t.spec_bytes()) == t@,
        valid_utf8(t.spec_bytes()),
{
}

} // verus!
