//! Primitive wire encodings: LEB128 integers, length-prefixed byte
//! strings and UTF-8 text.
use vstd::prelude::*;
use vstd::slice::{slice_subrange, slice_to_vec};
use vstd::utf8::{decode_utf8, encode_utf8, valid_utf8};

verus! {

/// The LEB128 form of an unsigned integer: seven bits per byte, least
/// significant group first, the high bit set on every byte but the last.
pub open spec fn varint(v: u64) -> Seq<u8>
    decreases v,
{
    if v < 128 {
        seq![v as u8]
    } else {
        seq![(v % 128 + 128) as u8] + varint(v / 128)
    }
}

/// `p` stands at the front of `s`.
pub open spec fn starts_with(s: Seq<u8>, p: Seq<u8>) -> bool {
    p.len() <= s.len() && s.subrange(0, p.len() as int) == p
}

/// Relies on prost::encoding::encode_varint: appends the LEB128 form of `v`.
#[verifier::external_body]
pub(crate) fn put_varint(buf: &mut Vec<u8>, v: u64)
    ensures
        final(buf)@ == old(buf)@ + varint(v),
{
    prost::encoding::encode_varint(v, buf)
}

/// Relies on prost::encoding::decode_varint: reads a LEB128 integer at the
/// front of `b`; gives the value and how many bytes are left after it.
#[verifier::external_body]
fn take_varint_raw(b: &[u8]) -> (r: Option<(u64, usize)>)
    ensures
        r matches Some((v, rest)) ==> rest <= b@.len(),
        forall|v: u64|
            #[trigger] starts_with(b@, varint(v)) ==> r == Some(
                (v, (b@.len() - varint(v).len()) as usize),
            ),
{
    let mut rest: &[u8] = b;
    match prost::encoding::decode_varint(&mut rest) {
        Ok(v) => Some((v, rest.len())),
        Err(_) => None,
    }
}

pub proof fn lemma_varint_len(v: u64)
    ensures
        varint(v).len() >= 1,
    decreases v,
{
    if v >= 128 {
        lemma_varint_len(v / 128);
    }
}

/// No two integers have LEB128 forms that both stand at the front of one
/// byte string.
pub proof fn lemma_varint_unique(s: Seq<u8>, a: u64, b: u64)
    requires
        starts_with(s, varint(a)),
        starts_with(s, varint(b)),
    ensures
        a == b,
    decreases a,
{
    lemma_varint_len(a);
    lemma_varint_len(b);
    assert(varint(a)[0] == s[0]);
    assert(varint(b)[0] == s[0]);
    if a < 128 {
        if b >= 128 {
            assert(varint(b)[0] == (b % 128 + 128) as u8);
        }
    } else {
        assert(varint(a)[0] == (a % 128 + 128) as u8);
        if b < 128 {
            assert(varint(b)[0] == b as u8);
        } else {
            assert(varint(b)[0] == (b % 128 + 128) as u8);
            let t = s.subrange(1, s.len() as int);
            let ta = varint(a / 128);
            let tb = varint(b / 128);
            assert(varint(a) == seq![(a % 128 + 128) as u8] + ta);
            assert(t.subrange(0, ta.len() as int) =~= s.subrange(0, varint(a).len() as int).subrange(1, varint(a).len() as int));
            assert(t.subrange(0, tb.len() as int) =~= s.subrange(0, varint(b).len() as int).subrange(1, varint(b).len() as int));
            assert(varint(a).subrange(1, varint(a).len() as int) =~= ta);
            assert(varint(b).subrange(1, varint(b).len() as int) =~= tb);
            lemma_varint_unique(t, a / 128, b / 128);
        }
    }
}

/// The bytes of `b` from `pos` on.
pub open spec fn rest(b: Seq<u8>, pos: int) -> Seq<u8> {
    b.subrange(pos, b.len() as int)
}

/// Moves a parse result on `rest(b, pos)` to positions in `b`.
pub open spec fn shifted<T>(r: Option<(T, int)>, pos: int) -> Option<(T, usize)> {
    match r {
        Some((v, n)) => Some((v, (pos + n) as usize)),
        None => None,
    }
}

/// The integer whose LEB128 form stands at the front of `s`, with its length.
pub open spec fn parse_varint(s: Seq<u8>) -> Option<(u64, int)> {
    if exists|v: u64| #[trigger] starts_with(s, varint(v)) {
        let v = choose|v: u64| #[trigger] starts_with(s, varint(v));
        Some((v, varint(v).len() as int))
    } else {
        None
    }
}

/// A byte string written as its length, then its bytes.
pub open spec fn blob(b: Seq<u8>) -> Seq<u8> {
    varint(b.len() as u64) + b
}

pub open spec fn parse_blob(s: Seq<u8>) -> Option<(Seq<u8>, int)> {
    match parse_varint(s) {
        Some((n, k)) => if k + n <= s.len() {
            Some((s.subrange(k, k + n), k + n))
        } else {
            None
        },
        None => None,
    }
}

/// Text written as the blob of its UTF-8 bytes.
pub open spec fn text(c: Seq<char>) -> Seq<u8> {
    blob(encode_utf8(c))
}

pub open spec fn parse_text(s: Seq<u8>) -> Option<(Seq<char>, int)> {
    match parse_blob(s) {
        Some((b, n)) => if valid_utf8(b) {
            Some((decode_utf8(b), n))
        } else {
            None
        },
        None => None,
    }
}

pub proof fn lemma_parse_varint(v: u64, tail: Seq<u8>)
    ensures
        parse_varint(varint(v) + tail) == Some((v, varint(v).len() as int)),
{
    let s = varint(v) + tail;
    assert(s.subrange(0, varint(v).len() as int) =~= varint(v));
    assert(starts_with(s, varint(v)));
    let w = choose|w: u64| #[trigger] starts_with(s, varint(w));
    lemma_varint_unique(s, v, w);
}

pub proof fn lemma_parse_varint_bounds(s: Seq<u8>)
    ensures
        parse_varint(s) matches Some((v, n)) ==> 1 <= n <= s.len() && starts_with(s, varint(v)),
{
    if exists|v: u64| #[trigger] starts_with(s, varint(v)) {
        let v = choose|v: u64| #[trigger] starts_with(s, varint(v));
        lemma_varint_len(v);
    }
}

pub proof fn lemma_parse_blob(b: Seq<u8>, tail: Seq<u8>)
    requires
        b.len() <= u64::MAX,
    ensures
        parse_blob(blob(b) + tail) == Some((b, blob(b).len() as int)),
{
    let h = varint(b.len() as u64);
    lemma_parse_varint(b.len() as u64, b + tail);
    assert(blob(b) + tail =~= h + (b + tail));
    assert((h + (b + tail)).subrange(h.len() as int, (h.len() + b.len()) as int) =~= b);
}

pub proof fn lemma_parse_text(c: Seq<char>, tail: Seq<u8>)
    requires
        encode_utf8(c).len() <= u64::MAX,
    ensures
        parse_text(text(c) + tail) == Some((c, text(c).len() as int)),
{
    lemma_parse_blob(encode_utf8(c), tail);
    vstd::utf8::encode_utf8_valid_utf8(c);
    vstd::utf8::encode_utf8_decode_utf8(c);
}

/// Reads the LEB128 integer at `pos`.
pub fn read_varint(b: &[u8], pos: usize) -> (r: Option<(u64, usize)>)
    requires
        pos <= b@.len(),
    ensures
        r == shifted(parse_varint(rest(b@, pos as int)), pos as int),
        r matches Some((v, e)) ==> pos < e <= b@.len() && parse_varint(rest(b@, pos as int))
            == Some((v, e - pos)),
{
    let tail = slice_subrange(b, pos, b.len());
    let ghost s = tail@;
    proof {
        lemma_parse_varint_bounds(s);
    }
    assert(s == rest(b@, pos as int));
    match take_varint_raw(tail) {
        None => {
            assert(!exists|v: u64| #[trigger] starts_with(s, varint(v)));
            None
        },
        Some((v, left)) => {
            let n = tail.len() - left;
            let mut enc: Vec<u8> = Vec::new();
            put_varint(&mut enc, v);
            assert(enc@ =~= varint(v));
            if enc.len() != n {
                assert(!exists|w: u64| #[trigger] starts_with(s, varint(w)));
                return None;
            }
            let mut i: usize = 0;
            while i < n
                invariant
                    i <= n,
                    n == enc@.len(),
                    n <= s.len(),
                    tail@ == s,
                    s == rest(b@, pos as int),
                    enc@ == varint(v),
                    forall|j: int| 0 <= j < i ==> s[j] == enc@[j],
                    forall|w: u64| #[trigger] starts_with(s, varint(w)) ==> w == v,
                decreases n - i,
            {
                if tail[i] != enc[i] {
                    proof {
                        if exists|w: u64| #[trigger] starts_with(s, varint(w)) {
                            let w = choose|w: u64| #[trigger] starts_with(s, varint(w));
                            assert(w == v);
                            assert(s.subrange(0, n as int)[i as int] == s[i as int]);
                            assert(false);
                        }
                    }
                    assert(!exists|w: u64| #[trigger] starts_with(s, varint(w)));
                    return None;
                }
                i = i + 1;
            }
            assert(s.subrange(0, n as int) =~= varint(v));
            assert(starts_with(s, varint(v)));
            proof {
                lemma_parse_varint(v, s.subrange(n as int, s.len() as int));
                assert(varint(v) + s.subrange(n as int, s.len() as int) =~= s);
            }
            Some((v, pos + n))
        },
    }
}

/// Relies on String::from_utf8: it succeeds exactly on valid UTF-8 and
/// then holds the characters that the bytes spell.
#[verifier::external_body]
pub(crate) fn string_from_utf8(v: Vec<u8>) -> (r: Option<String>)
    ensures
        r is Some <==> valid_utf8(v@),
        r matches Some(s) ==> s@ == decode_utf8(v@),
{
    String::from_utf8(v).ok()
}

/// Reads the length-prefixed byte string at `pos`.
pub fn read_blob(b: &[u8], pos: usize) -> (r: Option<(Vec<u8>, usize)>)
    requires
        pos <= b@.len(),
    ensures
        match parse_blob(rest(b@, pos as int)) {
            Some((x, n)) => r matches Some((v, e)) && v@ == x && e == pos + n,
            None => r is None,
        },
        r matches Some((v, e)) ==> pos < e <= b@.len(),
{
    match read_varint(b, pos) {
        None => None,
        Some((n, k)) => {
            if n > (b.len() - k) as u64 {
                return None;
            }
            let end = k + n as usize;
            let v = slice_to_vec(slice_subrange(b, k, end));
            proof {
                let s = rest(b@, pos as int);
                assert(s.subrange(k - pos, end - pos) =~= b@.subrange(k as int, end as int));
            }
            Some((v, end))
        },
    }
}

/// Reads the UTF-8 text at `pos`.
pub fn read_text(b: &[u8], pos: usize) -> (r: Option<(String, usize)>)
    requires
        pos <= b@.len(),
    ensures
        match parse_text(rest(b@, pos as int)) {
            Some((x, n)) => r matches Some((v, e)) && v@ == x && e == pos + n,
            None => r is None,
        },
        r matches Some((v, e)) ==> pos < e <= b@.len(),
{
    match read_blob(b, pos) {
        None => None,
        Some((v, end)) => match string_from_utf8(v) {
            Some(t) => Some((t, end)),
            None => None,
        },
    }
}

/// Appends the length-prefixed form of `b`.
pub fn write_blob(out: &mut Vec<u8>, b: &[u8])
    ensures
        final(out)@ == old(out)@ + blob(b@),
        b@.len() <= u64::MAX,
{
    put_varint(out, b.len() as u64);
    let mut v = slice_to_vec(b);
    out.append(&mut v);
    assert(final(out)@ =~= old(out)@ + blob(b@));
}

/// Appends the UTF-8 text form of `t`.
pub fn write_text(out: &mut Vec<u8>, t: &str)
    ensures
        final(out)@ == old(out)@ + text(t@),
        encode_utf8(t@).len() <= u64::MAX,
{
    write_blob(out, t.as_bytes());
}

} // verus!
