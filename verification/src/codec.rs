//! The binary wire format shared by snapshots and commands: big-endian
//! fixed-width integers, and variable-length fields written as a `u32` length
//! followed by exactly that many raw bytes.

use vstd::prelude::*;
use vstd::utf8::{decode_utf8, encode_utf8, valid_utf8};

verus! {

/// The four big-endian bytes of a 32-bit integer.
pub open spec fn be_bytes(n: u32) -> Seq<u8> {
    seq![
        ((n >> 24) & 0xff) as u8,
        ((n >> 16) & 0xff) as u8,
        ((n >> 8) & 0xff) as u8,
        (n & 0xff) as u8,
    ]
}

/// The 32-bit integer read big-endian from four bytes.
pub open spec fn be_value(s: Seq<u8>) -> u32
    recommends
        s.len() == 4,
{
    (((s[0] as u32) << 24) | ((s[1] as u32) << 16) | ((s[2] as u32) << 8) | (s[3] as u32)) as u32
}

pub proof fn lemma_be_value_of_be_bytes(n: u32)
    ensures
        be_value(be_bytes(n)) == n,
{
    let s = be_bytes(n);
    assert(((((((n >> 24) & 0xff) as u8) as u32) << 24) | (((((n >> 16) & 0xff) as u8) as u32)
        << 16) | (((((n >> 8) & 0xff) as u8) as u32) << 8) | (((n & 0xff) as u8) as u32)) as u32
        == n) by (bit_vector);
}

/// Appends the big-endian bytes of `n`.
pub fn push_be_u32(out: &mut Vec<u8>, n: u32)
    ensures
        final(out)@ == old(out)@ + be_bytes(n),
{
    proof {
        assert((n >> 24) & 0xff <= 0xff && (n >> 16) & 0xff <= 0xff && (n >> 8) & 0xff <= 0xff && n
            & 0xff <= 0xff) by (bit_vector);
    }
    out.push(((n >> 24) & 0xff) as u8);
    out.push(((n >> 16) & 0xff) as u8);
    out.push(((n >> 8) & 0xff) as u8);
    out.push((n & 0xff) as u8);
    assert(out@ =~= old(out)@ + be_bytes(n));
}

/// Reads the big-endian 32-bit integer at `pos`.
pub fn read_be_u32(bytes: &[u8], pos: usize) -> (r: u32)
    requires
        pos + 4 <= bytes@.len(),
    ensures
        r == be_value(bytes@.subrange(pos as int, pos as int + 4)),
{
    let b0 = bytes[pos];
    let b1 = bytes[pos + 1];
    let b2 = bytes[pos + 2];
    let b3 = bytes[pos + 3];
    let r = (((b0 as u32) << 24) | ((b1 as u32) << 16) | ((b2 as u32) << 8) | (b3 as u32)) as u32;
    proof {
        let s = bytes@.subrange(pos as int, pos as int + 4);
        assert(s[0] == b0 && s[1] == b1 && s[2] == b2 && s[3] == b3);
    }
    r
}

/// A length-prefixed field: the `u32` byte count, then the bytes themselves.
pub open spec fn enc_blob(b: Seq<u8>) -> Seq<u8>
    recommends
        b.len() <= u32::MAX,
{
    be_bytes(b.len() as u32) + b
}

/// Reads one length-prefixed field at `pos`: the field's bytes and the
/// position just past them, or nothing if the input is too short.
pub open spec fn dec_blob(b: Seq<u8>, pos: int) -> Option<(Seq<u8>, int)>
    recommends
        0 <= pos,
{
    if pos + 4 <= b.len() {
        let n = be_value(b.subrange(pos, pos + 4)) as int;
        if pos + 4 + n <= b.len() {
            Some((b.subrange(pos + 4, pos + 4 + n), pos + 4 + n))
        } else {
            None
        }
    } else {
        None
    }
}

/// Every field of every pair fits the wire's 32-bit length prefix.
pub open spec fn valid_pairs(ps: Seq<(Seq<u8>, Seq<u8>)>) -> bool {
    forall|i: int|
        0 <= i < ps.len() ==> (#[trigger] ps[i]).0.len() <= u32::MAX && ps[i].1.len() <= u32::MAX
}

pub open spec fn enc_pair(p: (Seq<u8>, Seq<u8>)) -> Seq<u8> {
    enc_blob(p.0) + enc_blob(p.1)
}

/// The pairs one after another, each as two length-prefixed fields.
pub open spec fn enc_pairs(ps: Seq<(Seq<u8>, Seq<u8>)>) -> Seq<u8>
    decreases ps.len(),
{
    if ps.len() == 0 {
        Seq::empty()
    } else {
        enc_pair(ps[0]) + enc_pairs(ps.drop_first())
    }
}

/// A mapping: the `u32` pair count, then the pairs.
pub open spec fn enc_map(ps: Seq<(Seq<u8>, Seq<u8>)>) -> Seq<u8>
    recommends
        ps.len() <= u32::MAX,
        valid_pairs(ps),
{
    be_bytes(ps.len() as u32) + enc_pairs(ps)
}

/// Reads `count` pairs starting at `pos`.
pub open spec fn dec_pairs(b: Seq<u8>, pos: int, count: int) -> Option<
    (Seq<(Seq<u8>, Seq<u8>)>, int),
>
    decreases count,
{
    if count <= 0 {
        Some((Seq::empty(), pos))
    } else {
        match dec_blob(b, pos) {
            None => None,
            Some((k, p1)) => match dec_blob(b, p1) {
                None => None,
                Some((v, p2)) => match dec_pairs(b, p2, count - 1) {
                    None => None,
                    Some((rest, p3)) => Some((seq![(k, v)] + rest, p3)),
                },
            },
        }
    }
}

/// Reads a whole mapping from the front of `b`; trailing bytes are ignored.
pub open spec fn dec_map(b: Seq<u8>) -> Option<(Seq<(Seq<u8>, Seq<u8>)>, int)> {
    if b.len() >= 4 {
        dec_pairs(b, 4, be_value(b.subrange(0, 4)) as int)
    } else {
        None
    }
}

proof fn lemma_dec_blob_of_enc(b: Seq<u8>, pos: int, blob: Seq<u8>)
    requires
        blob.len() <= u32::MAX,
        0 <= pos,
        pos + 4 + blob.len() <= b.len(),
        b.subrange(pos, pos + 4 + blob.len()) == enc_blob(blob),
    ensures
        dec_blob(b, pos) == Some((blob, pos + 4 + blob.len())),
{
    let e = enc_blob(blob);
    assert(b.subrange(pos, pos + 4) =~= e.subrange(0, 4));
    assert(e.subrange(0, 4) =~= be_bytes(blob.len() as u32));
    lemma_be_value_of_be_bytes(blob.len() as u32);
    assert(b.subrange(pos + 4, pos + 4 + blob.len()) =~= e.subrange(4, e.len() as int));
    assert(e.subrange(4, e.len() as int) =~= blob);
}

/// Decoding reads back exactly the pairs that were encoded, from any buffer
/// that holds the encoding at `pos`, whatever lies around it.
proof fn lemma_dec_pairs_of_enc(b: Seq<u8>, pos: int, ps: Seq<(Seq<u8>, Seq<u8>)>)
    requires
        valid_pairs(ps),
        0 <= pos,
        pos + enc_pairs(ps).len() <= b.len(),
        b.subrange(pos, pos + enc_pairs(ps).len()) == enc_pairs(ps),
    ensures
        dec_pairs(b, pos, ps.len() as int) == Some((ps, pos + enc_pairs(ps).len())),
    decreases ps.len(),
{
    if ps.len() == 0 {
    } else {
        let k = ps[0].0;
        let v = ps[0].1;
        let e = enc_pairs(ps);
        let ek = enc_blob(k);
        let ev = enc_blob(v);
        let rest = enc_pairs(ps.drop_first());
        assert(e == (ek + ev) + rest);
        let p1 = pos + 4 + k.len();
        let p2 = p1 + 4 + v.len();
        assert(b.subrange(pos, pos + ek.len()) =~= ek) by {
            assert(forall|i: int|
                0 <= i < ek.len() ==> e[i] == ((ek + ev) + rest)[i] && ((ek + ev) + rest)[i]
                    == ek[i]);
        }
        lemma_dec_blob_of_enc(b, pos, k);
        assert(b.subrange(p1, p1 + ev.len()) =~= ev) by {
            assert(forall|i: int|
                0 <= i < ev.len() ==> e[ek.len() + i] == ((ek + ev) + rest)[ek.len() + i] && ((ek
                    + ev) + rest)[ek.len() + i] == ev[i]);
        }
        lemma_dec_blob_of_enc(b, p1, v);
        assert(b.subrange(p2, p2 + rest.len()) =~= rest) by {
            assert(forall|i: int|
                0 <= i < rest.len() ==> e[ek.len() + ev.len() + i] == ((ek + ev) + rest)[ek.len()
                    + ev.len() + i] && ((ek + ev) + rest)[ek.len() + ev.len() + i] == rest[i]);
        }
        lemma_dec_pairs_of_enc(b, p2, ps.drop_first());
        assert(seq![(k, v)] + ps.drop_first() =~= ps);
    }
}

/// Round trip at the wire level: decoding an encoded mapping yields exactly
/// the pairs that were encoded, consuming the whole encoding, even when
/// trailing bytes follow it.
pub proof fn lemma_dec_map_of_enc(b: Seq<u8>, ps: Seq<(Seq<u8>, Seq<u8>)>)
    requires
        valid_pairs(ps),
        ps.len() <= u32::MAX,
        enc_map(ps).len() <= b.len(),
        b.subrange(0, enc_map(ps).len() as int) == enc_map(ps),
    ensures
        dec_map(b) == Some((ps, enc_map(ps).len() as int)),
{
    let e = enc_map(ps);
    let rest = enc_pairs(ps);
    assert(b.subrange(0, 4) =~= be_bytes(ps.len() as u32)) by {
        assert(forall|i: int| 0 <= i < 4 ==> e[i] == be_bytes(ps.len() as u32)[i]);
    }
    lemma_be_value_of_be_bytes(ps.len() as u32);
    assert(b.subrange(4, 4 + rest.len() as int) =~= rest) by {
        assert(forall|i: int| 0 <= i < rest.len() ==> e[4 + i] == rest[i]);
    }
    lemma_dec_pairs_of_enc(b, 4, ps);
}

proof fn lemma_dec_pairs_of_enc_prefix(b: Seq<u8>, pos: int, ps: Seq<(Seq<u8>, Seq<u8>)>)
    requires
        valid_pairs(ps),
        0 <= pos <= b.len(),
        b.len() < pos + enc_pairs(ps).len(),
        b.subrange(pos, b.len() as int) == enc_pairs(ps).take(b.len() - pos),
    ensures
        dec_pairs(b, pos, ps.len() as int) is None,
    decreases ps.len(),
{
    let e = enc_pairs(ps);
    let avail = b.len() - pos;
    assert(forall|j: int|
        pos <= j < b.len() ==> #[trigger] b[j] == e[j - pos]) by {
        assert(forall|j: int|
            pos <= j < b.len() ==> #[trigger] b[j] == b.subrange(pos, b.len() as int)[j - pos]);
        assert(forall|i: int|
            0 <= i < avail ==> #[trigger] e.take(avail)[i] == e[i]);
    }
    assert(ps.len() > 0);
    let k = ps[0].0;
    let v = ps[0].1;
    let ek = enc_blob(k);
    let ev = enc_blob(v);
    let rest = enc_pairs(ps.drop_first());
    assert(e == (ek + ev) + rest);
    if avail < 4 {
    } else {
        assert(b.subrange(pos, pos + 4) =~= be_bytes(k.len() as u32));
        lemma_be_value_of_be_bytes(k.len() as u32);
        if avail < 4 + k.len() {
        } else {
            let p1 = pos + 4 + k.len();
            if avail < ek.len() + 4 {
            } else {
                assert(b.subrange(p1, p1 + 4) =~= be_bytes(v.len() as u32));
                lemma_be_value_of_be_bytes(v.len() as u32);
                if avail < ek.len() + ev.len() {
                } else {
                    let p2 = pos + ek.len() + ev.len();
                    assert(b.subrange(p2 as int, b.len() as int) =~= rest.take(b.len() - p2));
                    lemma_dec_pairs_of_enc_prefix(b, p2 as int, ps.drop_first());
                }
            }
        }
    }
}

/// A strict prefix of an encoded mapping never decodes: some length field
/// always points past the truncated end.
pub proof fn lemma_dec_map_of_enc_prefix(ps: Seq<(Seq<u8>, Seq<u8>)>, m: int)
    requires
        valid_pairs(ps),
        ps.len() <= u32::MAX,
        0 <= m < enc_map(ps).len(),
    ensures
        dec_map(enc_map(ps).take(m)) is None,
{
    let e = enc_map(ps);
    let b = e.take(m);
    if m >= 4 {
        assert(b.subrange(0, 4) =~= be_bytes(ps.len() as u32)) by {
            assert(forall|i: int| 0 <= i < 4 ==> b[i] == be_bytes(ps.len() as u32)[i]);
        }
        lemma_be_value_of_be_bytes(ps.len() as u32);
        assert(b.subrange(4, b.len() as int) =~= enc_pairs(ps).take(b.len() - 4)) by {
            assert(forall|i: int| 0 <= i < b.len() - 4 ==> b[4 + i] == enc_pairs(ps)[i]);
        }
        lemma_dec_pairs_of_enc_prefix(b, 4, ps);
    }
}

/// Appending a pair to a sequence appends its encoding to the wire bytes.
pub proof fn lemma_enc_pairs_push(ps: Seq<(Seq<u8>, Seq<u8>)>, p: (Seq<u8>, Seq<u8>))
    ensures
        enc_pairs(ps.push(p)) == enc_pairs(ps) + enc_pair(p),
    decreases ps.len(),
{
    if ps.len() == 0 {
        assert(ps.push(p).drop_first() =~= Seq::<(Seq<u8>, Seq<u8>)>::empty());
        assert(ps.push(p)[0] == p);
        assert(enc_pairs(Seq::<(Seq<u8>, Seq<u8>)>::empty()) == Seq::<u8>::empty());
        assert(enc_pairs(ps.push(p)) =~= enc_pairs(ps) + enc_pair(p));
    } else {
        assert(ps.push(p).drop_first() =~= ps.drop_first().push(p));
        lemma_enc_pairs_push(ps.drop_first(), p);
        assert(enc_pair(ps[0]) + (enc_pairs(ps.drop_first()) + enc_pair(p)) =~= (enc_pair(ps[0])
            + enc_pairs(ps.drop_first())) + enc_pair(p));
    }
}

/// A length-prefixed field holding UTF-8 text.
pub open spec fn enc_str(s: Seq<char>) -> Seq<u8>
    recommends
        str_fits(s),
{
    enc_blob(encode_utf8(s))
}

/// The text's UTF-8 form fits the wire's 32-bit length prefix.
pub open spec fn str_fits(s: Seq<char>) -> bool {
    encode_utf8(s).len() <= u32::MAX
}

/// Reads one length-prefixed UTF-8 field at `pos`; nothing if the input is
/// too short or the field is not valid UTF-8.
pub open spec fn dec_str(b: Seq<u8>, pos: int) -> Option<(Seq<char>, int)>
    recommends
        0 <= pos,
{
    match dec_blob(b, pos) {
        None => None,
        Some((bs, p)) => if valid_utf8(bs) {
            Some((decode_utf8(bs), p))
        } else {
            None
        },
    }
}

/// Decoding reads back exactly the text that was encoded at `pos`.
pub proof fn lemma_dec_str_of_enc(b: Seq<u8>, pos: int, s: Seq<char>)
    requires
        str_fits(s),
        0 <= pos,
        pos + enc_str(s).len() <= b.len(),
        b.subrange(pos, pos + enc_str(s).len()) == enc_str(s),
    ensures
        dec_str(b, pos) == Some((s, pos + enc_str(s).len())),
{
    broadcast use vstd::utf8::encode_utf8_valid_utf8, vstd::utf8::encode_utf8_decode_utf8;

    lemma_dec_blob_of_enc(b, pos, encode_utf8(s));
}

/// Appends every byte of `data`.
pub fn push_bytes(out: &mut Vec<u8>, data: &[u8])
    ensures
        final(out)@ == old(out)@ + data@,
{
    for i in 0..data.len()
        invariant
            out@ == old(out)@ + data@.take(i as int),
    {
        out.push(data[i]);
        assert(out@ =~= old(out)@ + data@.take(i + 1));
    }
    assert(out@ =~= old(out)@ + data@);
}

/// Appends a length-prefixed UTF-8 field, or appends nothing and fails when
/// the text's byte length overflows the 32-bit length prefix.
pub fn push_str_blob(out: &mut Vec<u8>, s: &String) -> (ok: bool)
    ensures
        ok <==> str_fits(s@),
        ok ==> final(out)@ == old(out)@ + enc_str(s@),
        !ok ==> final(out)@ == old(out)@,
{
    let bs = s.as_str().as_bytes();
    if bs.len() > u32::MAX as usize {
        return false;
    }
    push_be_u32(out, bs.len() as u32);
    push_bytes(out, bs);
    assert(out@ =~= old(out)@ + enc_str(s@));
    true
}

/// Reads one length-prefixed field at `pos`.
pub fn read_blob(bytes: &[u8], pos: usize) -> (r: Option<(Vec<u8>, usize)>)
    ensures
        match r {
            Some(p) => dec_blob(bytes@, pos as int) == Some((p.0@, p.1 as int)) && pos <= p.1
                <= bytes@.len(),
            None => dec_blob(bytes@, pos as int) is None,
        },
{
    if bytes.len() < 4 || pos > bytes.len() - 4 {
        return None;
    }
    let n = read_be_u32(bytes, pos) as usize;
    if n > bytes.len() - (pos + 4) {
        return None;
    }
    let data = vstd::slice::slice_to_vec(vstd::slice::slice_subrange(bytes, pos + 4, pos + 4 + n));
    Some((data, pos + 4 + n))
}

/// Relies on str::from_utf8 (with str::to_owned): it succeeds exactly on
/// valid UTF-8 input, and returns the text the bytes encode.
#[verifier::external_body]
pub(crate) fn bytes_to_string(bytes: &[u8]) -> (r: Option<String>)
    ensures
        r is Some <==> valid_utf8(bytes@),
        r matches Some(s) ==> s@ == decode_utf8(bytes@),
{
    core::str::from_utf8(bytes).ok().map(|s| s.to_owned())
}

/// Reads one length-prefixed UTF-8 field at `pos`.
pub fn read_string(bytes: &[u8], pos: usize) -> (r: Option<(String, usize)>)
    ensures
        match r {
            Some(p) => dec_str(bytes@, pos as int) == Some((p.0@, p.1 as int)) && pos <= p.1
                <= bytes@.len(),
            None => dec_str(bytes@, pos as int) is None,
        },
{
    match read_blob(bytes, pos) {
        None => None,
        Some((data, newpos)) => match bytes_to_string(data.as_slice()) {
            None => None,
            Some(s) => Some((s, newpos)),
        },
    }
}

} // verus!
