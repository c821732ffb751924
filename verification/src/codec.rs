//! Canonical binary encoding shared by state-channel snapshots and ledger
//! transaction records: little-endian 64-bit integers, length-prefixed byte
//! blocks, and length-prefixed UTF-8 strings.

use vstd::bytes::{
    lemma_auto_spec_u64_to_from_le_bytes, spec_u64_from_le_bytes, spec_u64_to_le_bytes,
    u64_from_le_bytes, u64_to_le_bytes,
};
use vstd::prelude::*;
use vstd::slice::{slice_subrange, slice_to_vec};
use vstd::utf8::{encode_utf8, encode_utf8_decode_utf8, encode_utf8_valid_utf8, valid_utf8};

verus! {

/// The canonical 8-byte little-endian encoding of a 64-bit integer.
pub open spec fn enc_u64(x: u64) -> Seq<u8> {
    spec_u64_to_le_bytes(x)
}

/// The canonical encoding of a byte block: 8-byte length, then the bytes.
pub open spec fn enc_bytes(b: Seq<u8>) -> Seq<u8> {
    enc_u64(b.len() as u64) + b
}

/// The canonical encoding of a string: its UTF-8 bytes as a block.
pub open spec fn enc_str(s: Seq<char>) -> Seq<u8> {
    enc_bytes(encode_utf8(s))
}

/// Relies on String::from_utf8: it succeeds exactly on valid UTF-8 input and
/// returns the string those bytes encode.
#[verifier::external_body]
fn bytes_to_string(b: Vec<u8>) -> (r: Option<String>)
    ensures
        r is Some <==> valid_utf8(b@),
        r matches Some(s) ==> encode_utf8(s@) == b@,
{
    match String::from_utf8(b) {
        Ok(s) => Some(s),
        Err(_) => None,
    }
}

/// Two integers with the same canonical encoding are equal.
pub proof fn lemma_enc_u64_injective(a: u64, c: u64)
    requires
        enc_u64(a) == enc_u64(c),
    ensures
        a == c,
{
    lemma_auto_spec_u64_to_from_le_bytes();
    assert(spec_u64_from_le_bytes(enc_u64(a)) == a);
    assert(spec_u64_from_le_bytes(enc_u64(c)) == c);
}

/// Append the 8-byte encoding of `x`.
pub fn write_u64(out: &mut Vec<u8>, x: u64)
    ensures
        final (out)@ == old(out)@ + enc_u64(x),
{
    proof {
        lemma_auto_spec_u64_to_from_le_bytes();
    }
    let mut b = u64_to_le_bytes(x);
    out.append(&mut b);
}

/// Append the length-prefixed encoding of a byte block.
pub fn write_bytes(out: &mut Vec<u8>, b: &[u8])
    ensures
        final (out)@ == old(out)@ + enc_bytes(b@),
{
    write_u64(out, b.len() as u64);
    out.extend_from_slice(b);
    assert(final (out)@ == old(out)@ + enc_bytes(b@)) by {
        assert(old(out)@ + enc_u64(b@.len() as u64) + b@ =~= old(out)@ + enc_bytes(b@));
    }
}

/// Append the length-prefixed UTF-8 encoding of a string.
pub fn write_str(out: &mut Vec<u8>, s: &str)
    ensures
        final (out)@ == old(out)@ + enc_str(s@),
{
    let b = s.as_bytes();
    write_bytes(out, b);
}

/// Read the 8-byte integer at `pos`; fails exactly when fewer than 8 bytes
/// remain.
pub fn read_u64_at(data: &[u8], pos: usize) -> (r: Option<(u64, usize)>)
    ensures
        r is Some <==> pos + 8 <= data@.len(),
        r matches Some((x, np)) ==> np == pos + 8 && enc_u64(x) == data@.subrange(
            pos as int,
            pos as int + 8,
        ),
{
    proof {
        lemma_auto_spec_u64_to_from_le_bytes();
    }
    if data.len() < 8 || pos > data.len() - 8 {
        return None;
    }
    let s = slice_subrange(data, pos, pos + 8);
    let x = u64_from_le_bytes(s);
    Some((x, pos + 8))
}

/// Read the length-prefixed byte block at `pos`; fails exactly when the length
/// prefix is missing or promises more bytes than remain.
pub fn read_bytes_at(data: &[u8], pos: usize) -> (r: Option<(Vec<u8>, usize)>)
    ensures
        r matches Some((b, np)) ==> pos + 8 + b@.len() == np && np <= data@.len()
            && data@.subrange(pos as int, np as int) == enc_bytes(b@),
        forall|b: Seq<u8>|
            pos + 8 + b.len() <= data@.len() && data@.subrange(
                pos as int,
                pos as int + 8 + b.len(),
            ) == #[trigger] enc_bytes(b) ==> (r matches Some((rb, np)) && rb@ == b && np == pos + 8
                + b.len()),
{
    proof {
        lemma_auto_spec_u64_to_from_le_bytes();
    }
    let dlen = data.len();
    let head = read_u64_at(data, pos);
    match head {
        None => {
            assert forall|b: Seq<u8>|
                pos + 8 + b.len() <= data@.len() && data@.subrange(
                    pos as int,
                    pos as int + 8 + b.len(),
                ) == #[trigger] enc_bytes(b) implies false by {
                assert(pos + 8 <= data@.len());
            }
            None
        },
        Some((n, mid)) => {
            if n > u64::MAX - (mid as u64) || (mid as u64) + n > dlen as u64 {
                assert forall|b: Seq<u8>|
                    pos + 8 + b.len() <= data@.len() && data@.subrange(
                        pos as int,
                        pos as int + 8 + b.len(),
                    ) == #[trigger] enc_bytes(b) implies false by {
                    let whole = data@.subrange(pos as int, pos as int + 8 + b.len());
                    assert(whole.subrange(0, 8) =~= data@.subrange(pos as int, pos as int + 8));
                    assert(whole.subrange(0, 8) =~= enc_u64(b.len() as u64));
                    assert(b.len() + 8 <= data@.len());
                    assert(data@.len() <= usize::MAX);
                    lemma_enc_u64_injective(n, b.len() as u64);
                    assert(n == b.len());
                }
                return None;
            }
            let np = mid + (n as usize);
            let body = slice_subrange(data, mid, np);
            let b = slice_to_vec(body);
            proof {
                assert(data@.subrange(pos as int, np as int) =~= enc_bytes(b@)) by {
                    assert(data@.subrange(pos as int, np as int).subrange(0, 8) =~= data@.subrange(
                        pos as int,
                        pos as int + 8,
                    ));
                    assert(data@.subrange(pos as int, np as int).subrange(8, 8 + b@.len() as int)
                        =~= data@.subrange(mid as int, np as int));
                }
                assert forall|bb: Seq<u8>|
                    pos + 8 + bb.len() <= data@.len() && data@.subrange(
                        pos as int,
                        pos as int + 8 + bb.len(),
                    ) == #[trigger] enc_bytes(bb) implies (bb == b@ && pos + 8 + bb.len()
                    == np) by {
                    let whole = data@.subrange(pos as int, pos as int + 8 + bb.len());
                    assert(whole.subrange(0, 8) =~= data@.subrange(pos as int, pos as int + 8));
                    assert(whole.subrange(0, 8) =~= enc_u64(bb.len() as u64));
                    assert(bb.len() + 8 <= data@.len());
                    assert(data@.len() <= usize::MAX);
                    lemma_enc_u64_injective(n, bb.len() as u64);
                    assert(n == bb.len());
                    assert(whole.subrange(8, 8 + bb.len() as int) =~= data@.subrange(
                        mid as int,
                        np as int,
                    ));
                    assert(whole.subrange(8, 8 + bb.len() as int) =~= bb);
                    assert(bb =~= b@);
                }
            }
            Some((b, np))
        },
    }
}

/// Read the length-prefixed UTF-8 string at `pos`; fails exactly when the
/// block is missing or is not valid UTF-8.
pub fn read_str_at(data: &[u8], pos: usize) -> (r: Option<(String, usize)>)
    ensures
        r matches Some((s, np)) ==> pos + 8 + encode_utf8(s@).len() == np && np <= data@.len()
            && data@.subrange(pos as int, np as int) == enc_str(s@),
        forall|t: Seq<char>|
            pos + 8 + encode_utf8(t).len() <= data@.len() && data@.subrange(
                pos as int,
                pos as int + 8 + encode_utf8(t).len(),
            ) == #[trigger] enc_str(t) ==> (r matches Some((s, np)) && s@ == t && np == pos + 8
                + encode_utf8(t).len()),
{
    let block = read_bytes_at(data, pos);
    match block {
        None => {
            assert forall|t: Seq<char>|
                pos + 8 + encode_utf8(t).len() <= data@.len() && data@.subrange(
                    pos as int,
                    pos as int + 8 + encode_utf8(t).len(),
                ) == #[trigger] enc_str(t) implies false by {
                assert(enc_str(t) == enc_bytes(encode_utf8(t)));
            }
            None
        },
        Some((b, np)) => {
            let ghost bytes = b@;
            match bytes_to_string(b) {
                None => {
                    assert forall|t: Seq<char>|
                        pos + 8 + encode_utf8(t).len() <= data@.len() && data@.subrange(
                            pos as int,
                            pos as int + 8 + encode_utf8(t).len(),
                        ) == #[trigger] enc_str(t) implies false by {
                        assert(enc_str(t) == enc_bytes(encode_utf8(t)));
                        assert(bytes == encode_utf8(t));
                        encode_utf8_valid_utf8(t);
                    }
                    None
                },
                Some(s) => {
                    proof {
                        assert forall|t: Seq<char>|
                            pos + 8 + encode_utf8(t).len() <= data@.len() && data@.subrange(
                                pos as int,
                                pos as int + 8 + encode_utf8(t).len(),
                            ) == #[trigger] enc_str(t) implies (s@ == t && np == pos + 8
                            + encode_utf8(t).len()) by {
                            assert(enc_str(t) == enc_bytes(encode_utf8(t)));
                            assert(bytes == encode_utf8(t));
                            encode_utf8_decode_utf8(t);
                            encode_utf8_decode_utf8(s@);
                        }
                    }
                    Some((s, np))
                },
            }
        },
    }
}

} // verus!
