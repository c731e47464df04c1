//! Byte-level wire format for stored values.
//!
//! A value is laid out as a sequence of *fields*. A byte-string field is an
//! 8-byte little-endian length followed by that many bytes; a string field is
//! the UTF-8 encoding of the string laid out as a byte-string field. The
//! parsing functions consume a prefix of the input and return the rest, so
//! that field parsers compose by sequencing.

use vstd::prelude::*;

verus! {

use vstd::bytes::{
    lemma_auto_spec_u64_to_from_le_bytes,
    spec_u64_from_le_bytes,
    spec_u64_to_le_bytes,
    u64_from_le_bytes,
    u64_to_le_bytes,
};
use vstd::slice::{slice_subrange, slice_to_vec};
use vstd::utf8::{decode_utf8, encode_utf8, encode_utf8_decode_utf8, valid_utf8};

/// A type that can be stored: it fixes a lossless byte encoding of its
/// abstract values. `spec_decode` is a left inverse of `spec_encode`, so a
/// stored encoding always reads back as the value that was written.
pub trait Codec: View + Sized {
    /// The bytes that stand for the abstract value `v`.
    spec fn spec_encode(v: Self::V) -> Seq<u8>;

    /// The abstract value that the bytes `b` stand for, if they are well formed.
    spec fn spec_decode(b: Seq<u8>) -> Option<Self::V>;

    /// Whether `v` is small enough for its encoding's length prefixes; the
    /// abstract value of any value held in memory always is.
    spec fn encodable(v: Self::V) -> bool;

    /// The encoding is lossless: decoding an encoded value yields the value.
    proof fn lemma_round_trip(v: Self::V)
        requires
            Self::encodable(v),
        ensures
            Self::spec_decode(Self::spec_encode(v)) == Some(v),
    ;

    fn encode(&self) -> (r: Vec<u8>)
        ensures
            r@ == Self::spec_encode(self@),
            Self::encodable(self@),
    ;

    fn decode(b: &[u8]) -> (r: Option<Self>)
        ensures
            match r {
                Some(v) => Self::spec_decode(b@) == Some(v@),
                None => Self::spec_decode(b@) is None,
            },
    ;
}

// ---------------------------------------------------------------------------
// Encoding of the primitive fields
// ---------------------------------------------------------------------------

/// A byte-string field: 8-byte little-endian length, then the bytes.
pub open spec fn enc_chunk(b: Seq<u8>) -> Seq<u8> {
    spec_u64_to_le_bytes(b.len() as u64) + b
}

/// A string field: its UTF-8 bytes as a byte-string field.
pub open spec fn enc_str(s: Seq<char>) -> Seq<u8> {
    enc_chunk(encode_utf8(s))
}

pub open spec fn chunk_fits(b: Seq<u8>) -> bool {
    b.len() <= u64::MAX
}

pub open spec fn str_fits(s: Seq<char>) -> bool {
    chunk_fits(encode_utf8(s))
}

// ---------------------------------------------------------------------------
// Parsing of the primitive fields
// ---------------------------------------------------------------------------

pub open spec fn parse_u64(b: Seq<u8>) -> Option<(u64, Seq<u8>)> {
    if b.len() < 8 {
        None
    } else {
        Some((spec_u64_from_le_bytes(b.take(8)), b.skip(8)))
    }
}

pub open spec fn parse_chunk(b: Seq<u8>) -> Option<(Seq<u8>, Seq<u8>)> {
    match parse_u64(b) {
        None => None,
        Some((n, rest)) => if rest.len() < n {
            None
        } else {
            Some((rest.take(n as int), rest.skip(n as int)))
        },
    }
}

pub open spec fn parse_str(b: Seq<u8>) -> Option<(Seq<char>, Seq<u8>)> {
    match parse_chunk(b) {
        None => None,
        Some((c, rest)) => if valid_utf8(c) {
            Some((decode_utf8(c), rest))
        } else {
            None
        },
    }
}

// ---------------------------------------------------------------------------
// Round trips of the primitive fields
// ---------------------------------------------------------------------------

pub proof fn lemma_parse_u64(x: u64, rest: Seq<u8>)
    ensures
        parse_u64(spec_u64_to_le_bytes(x) + rest) == Some((x, rest)),
{
    lemma_auto_spec_u64_to_from_le_bytes();
    let b = spec_u64_to_le_bytes(x) + rest;
    assert(b.take(8) =~= spec_u64_to_le_bytes(x));
    assert(b.skip(8) =~= rest);
}

pub proof fn lemma_parse_chunk(c: Seq<u8>, rest: Seq<u8>)
    requires
        chunk_fits(c),
    ensures
        parse_chunk(enc_chunk(c) + rest) == Some((c, rest)),
{
    lemma_auto_spec_u64_to_from_le_bytes();
    let b = enc_chunk(c) + rest;
    assert(b =~= spec_u64_to_le_bytes(c.len() as u64) + (c + rest));
    lemma_parse_u64(c.len() as u64, c + rest);
    assert((c + rest).take(c.len() as int) =~= c);
    assert((c + rest).skip(c.len() as int) =~= rest);
}

pub proof fn lemma_parse_str(s: Seq<char>, rest: Seq<u8>)
    requires
        str_fits(s),
    ensures
        parse_str(enc_str(s) + rest) == Some((s, rest)),
{
    lemma_parse_chunk(encode_utf8(s), rest);
    vstd::utf8::encode_utf8_valid_utf8(s);
    encode_utf8_decode_utf8(s);
}

// ---------------------------------------------------------------------------
// Composite fields: optional strings, optional counters, string lists
// ---------------------------------------------------------------------------

/// An optional string: a tag byte (0 absent, 1 present), then the string.
pub open spec fn enc_opt_str(o: Option<Seq<char>>) -> Seq<u8> {
    match o {
        None => seq![0u8],
        Some(s) => seq![1u8] + enc_str(s),
    }
}

pub open spec fn opt_str_fits(o: Option<Seq<char>>) -> bool {
    match o {
        None => true,
        Some(s) => str_fits(s),
    }
}

pub open spec fn parse_opt_str(b: Seq<u8>) -> Option<(Option<Seq<char>>, Seq<u8>)> {
    if b.len() < 1 {
        None
    } else if b[0] == 0u8 {
        Some((None, b.skip(1)))
    } else if b[0] == 1u8 {
        match parse_str(b.skip(1)) {
            None => None,
            Some((s, rest)) => Some((Some(s), rest)),
        }
    } else {
        None
    }
}

/// An optional signed counter: a tag byte (0 absent, 1 non-negative,
/// 2 negative), then the magnitude. A negative value `n` is stored as
/// `-1 - n`, which is non-negative and within `i32` range.
pub open spec fn enc_opt_count(o: Option<i32>) -> Seq<u8> {
    match o {
        None => seq![0u8],
        Some(n) => if n >= 0 {
            seq![1u8] + spec_u64_to_le_bytes(n as u64)
        } else {
            seq![2u8] + spec_u64_to_le_bytes((-1 - n) as u64)
        },
    }
}

pub open spec fn parse_opt_count(b: Seq<u8>) -> Option<(Option<i32>, Seq<u8>)> {
    if b.len() < 1 {
        None
    } else if b[0] == 0u8 {
        Some((None, b.skip(1)))
    } else if b[0] == 1u8 {
        match parse_u64(b.skip(1)) {
            None => None,
            Some((m, rest)) => if m <= i32::MAX as u64 {
                Some((Some(m as i32), rest))
            } else {
                None
            },
        }
    } else if b[0] == 2u8 {
        match parse_u64(b.skip(1)) {
            None => None,
            Some((m, rest)) => if m <= i32::MAX as u64 {
                Some((Some((-1 - (m as int)) as i32), rest))
            } else {
                None
            },
        }
    } else {
        None
    }
}

/// A string list, one string field per element; its length is carried
/// separately, in the field before it.
pub open spec fn enc_str_list(tags: Seq<Seq<char>>) -> Seq<u8>
    decreases tags.len(),
{
    if tags.len() == 0 {
        Seq::empty()
    } else {
        enc_str(tags[0]) + enc_str_list(tags.drop_first())
    }
}

pub open spec fn str_list_fits(tags: Seq<Seq<char>>) -> bool {
    tags.len() <= u64::MAX && (forall|i: int| 0 <= i < tags.len() ==> str_fits(#[trigger] tags[i]))
}

pub open spec fn parse_str_list(b: Seq<u8>, n: nat) -> Option<(Seq<Seq<char>>, Seq<u8>)>
    decreases n,
{
    if n == 0 {
        Some((Seq::empty(), b))
    } else {
        match parse_str(b) {
            None => None,
            Some((s, r1)) => match parse_str_list(r1, (n - 1) as nat) {
                None => None,
                Some((ss, r2)) => Some((seq![s] + ss, r2)),
            },
        }
    }
}

pub proof fn lemma_parse_opt_str(o: Option<Seq<char>>, rest: Seq<u8>)
    requires
        opt_str_fits(o),
    ensures
        parse_opt_str(enc_opt_str(o) + rest) == Some((o, rest)),
{
    match o {
        None => {
            let b = seq![0u8] + rest;
            assert(b[0] == 0u8);
            assert(b.skip(1) =~= rest);
        },
        Some(s) => {
            let b = (seq![1u8] + enc_str(s)) + rest;
            assert(enc_opt_str(o) + rest =~= b);
            assert(b[0] == 1u8);
            assert(b.skip(1) =~= enc_str(s) + rest);
            lemma_parse_str(s, rest);
        },
    }
}

pub proof fn lemma_parse_opt_count(o: Option<i32>, rest: Seq<u8>)
    ensures
        parse_opt_count(enc_opt_count(o) + rest) == Some((o, rest)),
{
    match o {
        None => {
            let b = seq![0u8] + rest;
            assert(b[0] == 0u8);
            assert(b.skip(1) =~= rest);
        },
        Some(n) => {
            if n >= 0 {
                let b = (seq![1u8] + spec_u64_to_le_bytes(n as u64)) + rest;
                assert(enc_opt_count(o) + rest =~= b);
                assert(b[0] == 1u8);
                assert(b.skip(1) =~= spec_u64_to_le_bytes(n as u64) + rest);
                lemma_parse_u64(n as u64, rest);
            } else {
                let m = (-1 - n) as u64;
                let b = (seq![2u8] + spec_u64_to_le_bytes(m)) + rest;
                assert(enc_opt_count(o) + rest =~= b);
                assert(b[0] == 2u8);
                assert(b.skip(1) =~= spec_u64_to_le_bytes(m) + rest);
                lemma_parse_u64(m, rest);
                assert((-1 - (m as int)) as i32 == n);
            }
        },
    }
}

pub proof fn lemma_parse_str_list(tags: Seq<Seq<char>>, rest: Seq<u8>)
    requires
        forall|i: int| 0 <= i < tags.len() ==> str_fits(#[trigger] tags[i]),
    ensures
        parse_str_list(enc_str_list(tags) + rest, tags.len() as nat) == Some((tags, rest)),
    decreases tags.len(),
{
    if tags.len() == 0 {
        assert(enc_str_list(tags) + rest =~= rest);
        assert(Seq::<Seq<char>>::empty() =~= tags);
    } else {
        let t0 = tags[0];
        let tl = tags.drop_first();
        assert(enc_str_list(tags) + rest =~= enc_str(t0) + (enc_str_list(tl) + rest));
        lemma_parse_str(t0, enc_str_list(tl) + rest);
        assert(forall|i: int| 0 <= i < tl.len() ==> str_fits(#[trigger] tl[i])) by {
            assert(forall|i: int| 0 <= i < tl.len() ==> tl[i] == tags[i + 1]);
        }
        lemma_parse_str_list(tl, rest);
        assert(seq![t0] + tl =~= tags);
    }
}

/// Appending one string extends the list's encoding at its end.
pub proof fn lemma_enc_str_list_push(tags: Seq<Seq<char>>, t: Seq<char>)
    ensures
        enc_str_list(tags.push(t)) == enc_str_list(tags) + enc_str(t),
    decreases tags.len(),
{
    if tags.len() == 0 {
        assert(tags.push(t).drop_first() =~= Seq::<Seq<char>>::empty());
        assert(tags.push(t)[0] == t);
        assert(enc_str_list(Seq::<Seq<char>>::empty()) == Seq::<u8>::empty());
        assert(enc_str_list(tags.push(t)) == enc_str(t) + Seq::<u8>::empty());
        assert(enc_str(t) + Seq::<u8>::empty() =~= Seq::<u8>::empty() + enc_str(t));
    } else {
        assert(tags.push(t).drop_first() =~= tags.drop_first().push(t));
        lemma_enc_str_list_push(tags.drop_first(), t);
        assert(enc_str(tags[0]) + (enc_str_list(tags.drop_first()) + enc_str(t)) =~= (enc_str(
            tags[0],
        ) + enc_str_list(tags.drop_first())) + enc_str(t));
    }
}

// ---------------------------------------------------------------------------
// Executable writers
// ---------------------------------------------------------------------------

pub fn push_u64(out: &mut Vec<u8>, x: u64)
    ensures
        final(out)@ == old(out)@ + spec_u64_to_le_bytes(x),
{
    let mut bs = u64_to_le_bytes(x);
    out.append(&mut bs);
}

pub fn push_chunk(out: &mut Vec<u8>, b: &[u8])
    ensures
        final(out)@ == old(out)@ + enc_chunk(b@),
{
    push_u64(out, b.len() as u64);
    let mut tail = slice_to_vec(b);
    out.append(&mut tail);
    assert(out@ =~= old(out)@ + enc_chunk(b@));
}

pub fn push_str_field(out: &mut Vec<u8>, s: &str)
    ensures
        final(out)@ == old(out)@ + enc_str(s@),
        str_fits(s@),
{
    let bs = s.as_bytes();
    let n = bs.len();
    assert(encode_utf8(s@).len() == n);
    push_chunk(out, bs);
}

pub fn push_opt_str(out: &mut Vec<u8>, o: &Option<String>)
    ensures
        final(out)@ == old(out)@ + enc_opt_str(o.deep_view()),
        opt_str_fits(o.deep_view()),
{
    match o {
        None => {
            out.push(0u8);
            assert(out@ =~= old(out)@ + enc_opt_str(o.deep_view()));
        },
        Some(s) => {
            out.push(1u8);
            push_str_field(out, s.as_str());
            assert(out@ =~= old(out)@ + enc_opt_str(o.deep_view()));
        },
    }
}

pub fn push_opt_count(out: &mut Vec<u8>, o: Option<i32>)
    ensures
        final(out)@ == old(out)@ + enc_opt_count(o),
{
    match o {
        None => {
            out.push(0u8);
            assert(out@ =~= old(out)@ + enc_opt_count(o));
        },
        Some(n) => {
            if n >= 0 {
                out.push(1u8);
                push_u64(out, n as u64);
                assert(out@ =~= old(out)@ + enc_opt_count(o));
            } else {
                out.push(2u8);
                let m: u64 = (-1i64 - (n as i64)) as u64;
                assert(m == (-1 - n) as u64);
                push_u64(out, m);
                assert(out@ =~= old(out)@ + enc_opt_count(o));
            }
        },
    }
}

// ---------------------------------------------------------------------------
// Executable readers: each reads the field at `pos` and returns the value and
// the position after it, mirroring the parsing functions on `b@.skip(pos)`.
// ---------------------------------------------------------------------------

pub fn read_u64(b: &[u8], pos: usize) -> (r: Option<(u64, usize)>)
    requires
        pos <= b@.len(),
    ensures
        match r {
            Some(p) => pos <= p.1 <= b@.len() && parse_u64(b@.skip(pos as int)) == Some(
                (p.0, b@.skip(p.1 as int)),
            ),
            None => parse_u64(b@.skip(pos as int)) is None,
        },
{
    if b.len() - pos < 8 {
        None
    } else {
        let s = slice_subrange(b, pos, pos + 8);
        let x = u64_from_le_bytes(s);
        proof {
            assert(b@.skip(pos as int).take(8) =~= b@.subrange(pos as int, pos as int + 8));
            assert(b@.skip(pos as int).skip(8) =~= b@.skip(pos as int + 8));
        }
        Some((x, pos + 8))
    }
}

pub fn read_chunk<'a>(b: &'a [u8], pos: usize) -> (r: Option<(&'a [u8], usize)>)
    requires
        pos <= b@.len(),
    ensures
        match r {
            Some(p) => pos <= p.1 <= b@.len() && parse_chunk(b@.skip(pos as int)) == Some(
                (p.0@, b@.skip(p.1 as int)),
            ),
            None => parse_chunk(b@.skip(pos as int)) is None,
        },
{
    match read_u64(b, pos) {
        None => None,
        Some((n, p1)) => {
            if ((b.len() - p1) as u64) < n {
                assert(b@.skip(p1 as int).len() < n);
                None
            } else {
                let len = n as usize;
                let c = slice_subrange(b, p1, p1 + len);
                proof {
                    assert(b@.skip(p1 as int).take(n as int) =~= b@.subrange(
                        p1 as int,
                        p1 as int + n,
                    ));
                    assert(b@.skip(p1 as int).skip(n as int) =~= b@.skip(p1 as int + n));
                }
                Some((c, p1 + len))
            }
        },
    }
}

/// Relies on std's `String::from_utf8`: it succeeds exactly on valid UTF-8
/// input, and the returned string's bytes are the input bytes.
#[verifier::external_body]
fn bytes_to_string(b: &[u8]) -> (r: Option<String>)
    ensures
        r is Some <==> valid_utf8(b@),
        r matches Some(s) ==> encode_utf8(s@) == b@,
{
    String::from_utf8(b.to_vec()).ok()
}

pub fn read_string(b: &[u8], pos: usize) -> (r: Option<(String, usize)>)
    requires
        pos <= b@.len(),
    ensures
        match r {
            Some(p) => pos <= p.1 <= b@.len() && parse_str(b@.skip(pos as int)) == Some(
                (p.0@, b@.skip(p.1 as int)),
            ),
            None => parse_str(b@.skip(pos as int)) is None,
        },
{
    match read_chunk(b, pos) {
        None => None,
        Some((c, p1)) => match bytes_to_string(c) {
            None => None,
            Some(s) => {
                proof {
                    encode_utf8_decode_utf8(s@);
                }
                Some((s, p1))
            },
        },
    }
}

pub fn read_opt_str(b: &[u8], pos: usize) -> (r: Option<(Option<String>, usize)>)
    requires
        pos <= b@.len(),
    ensures
        match r {
            Some(p) => pos <= p.1 <= b@.len() && parse_opt_str(b@.skip(pos as int)) == Some(
                (p.0.deep_view(), b@.skip(p.1 as int)),
            ),
            None => parse_opt_str(b@.skip(pos as int)) is None,
        },
{
    if pos == b.len() {
        return None;
    }
    let tag = *vstd::slice::slice_index_get(b, pos);
    assert(b@.skip(pos as int)[0] == tag);
    proof {
        assert(b@.skip(pos as int).skip(1) =~= b@.skip(pos as int + 1));
    }
    if tag == 0 {
        Some((None, pos + 1))
    } else if tag == 1 {
        match read_string(b, pos + 1) {
            None => None,
            Some((s, p2)) => Some((Some(s), p2)),
        }
    } else {
        None
    }
}

pub fn read_opt_count(b: &[u8], pos: usize) -> (r: Option<(Option<i32>, usize)>)
    requires
        pos <= b@.len(),
    ensures
        match r {
            Some(p) => pos <= p.1 <= b@.len() && parse_opt_count(b@.skip(pos as int)) == Some(
                (p.0, b@.skip(p.1 as int)),
            ),
            None => parse_opt_count(b@.skip(pos as int)) is None,
        },
{
    if pos == b.len() {
        return None;
    }
    let tag = *vstd::slice::slice_index_get(b, pos);
    assert(b@.skip(pos as int)[0] == tag);
    proof {
        assert(b@.skip(pos as int).skip(1) =~= b@.skip(pos as int + 1));
    }
    if tag == 0 {
        Some((None, pos + 1))
    } else if tag == 1 {
        match read_u64(b, pos + 1) {
            None => None,
            Some((m, p2)) => if m <= i32::MAX as u64 {
                Some((Some(m as i32), p2))
            } else {
                None
            },
        }
    } else if tag == 2 {
        match read_u64(b, pos + 1) {
            None => None,
            Some((m, p2)) => if m <= i32::MAX as u64 {
                let c: i32 = -1 - (m as i32);
                Some((Some(c), p2))
            } else {
                None
            },
        }
    } else {
        None
    }
}

pub fn read_str_list(b: &[u8], pos: usize, n: u64) -> (r: Option<(Vec<String>, usize)>)
    requires
        pos <= b@.len(),
    ensures
        match r {
            Some(p) => pos <= p.1 <= b@.len() && parse_str_list(b@.skip(pos as int), n as nat)
                == Some((p.0.deep_view(), b@.skip(p.1 as int))),
            None => parse_str_list(b@.skip(pos as int), n as nat) is None,
        },
{
    let mut acc: Vec<String> = Vec::new();
    let mut i: u64 = 0;
    let mut p = pos;
    assert(acc.deep_view() =~= Seq::<Seq<char>>::empty());
    while i < n
        invariant
            pos <= p <= b@.len(),
            i <= n,
            parse_str_list(b@.skip(pos as int), n as nat) == (match parse_str_list(
                b@.skip(p as int),
                (n - i) as nat,
            ) {
                None => None::<(Seq<Seq<char>>, Seq<u8>)>,
                Some((ss, r2)) => Some((acc.deep_view() + ss, r2)),
            }),
        decreases n - i,
    {
        match read_string(b, p) {
            None => {
                return None;
            },
            Some((s, p2)) => {
                let ghost sv = s@;
                let ghost accdv = acc.deep_view();
                acc.push(s);
                proof {
                    assert(acc.deep_view() =~= accdv.push(sv));
                    match parse_str_list(b@.skip(p2 as int), (n - i - 1) as nat) {
                        None => {},
                        Some((ss, r2)) => {
                            assert(accdv + (seq![sv] + ss) =~= acc.deep_view() + ss);
                        },
                    }
                }
                p = p2;
                i = i + 1;
            },
        }
    }
    proof {
        assert(acc.deep_view() + Seq::<Seq<char>>::empty() =~= acc.deep_view());
    }
    Some((acc, p))
}

} // verus!
