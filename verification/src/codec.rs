//! The record codec: one log record to and from its byte payload.
//!
//! A payload is `[tag][4-byte LE key length][key bytes]` for a tombstone
//! (tag 0) and `[tag][4-byte LE key length][key bytes][4-byte LE value
//! length][value bytes]` for a live write (tag 1), with key and value held
//! as UTF-8. The encoding is deterministic and self-describing, and
//! `decode` is its exact inverse.

use vstd::bytes::lemma_auto_spec_u32_to_from_le_bytes;
use vstd::bytes::spec_u32_from_le_bytes;
use vstd::bytes::spec_u32_to_le_bytes;
use vstd::bytes::u32_from_le_bytes;
use vstd::bytes::u32_to_le_bytes;
use vstd::prelude::*;
use vstd::slice::slice_subrange;
use vstd::slice::slice_to_vec;
use vstd::string::StrSliceExecFns;
use vstd::utf8::decode_utf8;
use vstd::utf8::decode_utf8_encode_utf8;
use vstd::utf8::encode_utf8;
use vstd::utf8::encode_utf8_decode_utf8;
use vstd::utf8::encode_utf8_valid_utf8;
use vstd::utf8::valid_utf8;

use crate::error::KvsError;

verus! {

/// Tag byte of a live record.
pub const LIVE_TAG: u8 = 1;

/// Tag byte of a tombstone record.
pub const TOMB_TAG: u8 = 0;

/// The largest payload the 4-byte length prefix of a frame can describe.
pub const MAX_PAYLOAD: u64 = 0xFFFF_FFFF;

/// A single log record: a key with a live value, or, when `value` is
/// absent, a tombstone marking the logical deletion of `key`.
#[derive(Debug)]
pub struct KvPair {
    pub key: String,
    pub value: Option<String>,
}

/// The mathematical content of a record.
#[verifier::ext_equal]
pub ghost struct PairView {
    pub key: Seq<char>,
    pub value: Option<Seq<char>>,
}

impl View for KvPair {
    type V = PairView;

    open spec fn view(&self) -> PairView {
        PairView {
            key: self.key@,
            value: match self.value {
                Option::Some(v) => Option::Some(v@),
                Option::None => Option::None,
            },
        }
    }
}

/// The 4-byte little-endian image of a length.
pub open spec fn len_bytes(n: nat) -> Seq<u8> {
    spec_u32_to_le_bytes(n as u32)
}

/// The byte payload that encodes a record.
pub open spec fn encoded(p: PairView) -> Seq<u8> {
    let kb = encode_utf8(p.key);
    match p.value {
        Option::Some(v) => {
            let vb = encode_utf8(v);
            seq![LIVE_TAG] + len_bytes(kb.len()) + kb + len_bytes(vb.len()) + vb
        },
        Option::None => seq![TOMB_TAG] + len_bytes(kb.len()) + kb,
    }
}

/// Whether a record's payload fits the frame format: the 4-byte length
/// prefix must describe it exactly.
pub open spec fn fits(p: PairView) -> bool {
    encoded(p).len() <= MAX_PAYLOAD
}

/// The lengths of the two UTF-8 images of a record that fits.
pub proof fn lemma_fits_bounds(p: PairView)
    requires
        fits(p),
    ensures
        encode_utf8(p.key).len() < 0x1_0000_0000,
        p.value matches Some(v) ==> encode_utf8(v).len() < 0x1_0000_0000,
        encoded(p).len() >= 5,
{
    lemma_auto_spec_u32_to_from_le_bytes();
}

/// Two records that fit never share a payload: the encoding is injective.
/// This is the round-trip law of the codec, stated at the level of the
/// mathematical records.
pub proof fn lemma_encoded_injective(p: PairView, q: PairView)
    requires
        fits(p),
        fits(q),
        encoded(p) == encoded(q),
    ensures
        p == q,
{
    lemma_auto_spec_u32_to_from_le_bytes();
    lemma_fits_bounds(p);
    lemma_fits_bounds(q);
    let pk = encode_utf8(p.key);
    let qk = encode_utf8(q.key);
    match (p.value, q.value) {
        (Some(pv), Some(qv)) => {
            let e = encoded(p);
            assert(e.subrange(1, 5) =~= len_bytes(pk.len()));
            assert(e.subrange(1, 5) =~= len_bytes(qk.len()));
            assert(spec_u32_from_le_bytes(len_bytes(pk.len())) == pk.len() as u32);
            assert(spec_u32_from_le_bytes(len_bytes(qk.len())) == qk.len() as u32);
            assert(pk.len() == qk.len());
            let kl = pk.len() as int;
            assert(pk =~= e.subrange(5, 5 + kl));
            assert(qk =~= e.subrange(5, 5 + kl));
            encode_utf8_decode_utf8(p.key);
            encode_utf8_decode_utf8(q.key);
            assert(p.key == q.key);
            let pb = encode_utf8(pv);
            let qb = encode_utf8(qv);
            assert(e.subrange(5 + kl, 9 + kl) =~= len_bytes(pb.len()));
            assert(e.subrange(5 + kl, 9 + kl) =~= len_bytes(qb.len()));
            assert(spec_u32_from_le_bytes(len_bytes(pb.len())) == pb.len() as u32);
            assert(spec_u32_from_le_bytes(len_bytes(qb.len())) == qb.len() as u32);
            assert(pb.len() == qb.len());
            let vl = pb.len() as int;
            assert(pb =~= e.subrange(9 + kl, 9 + kl + vl));
            assert(qb =~= e.subrange(9 + kl, 9 + kl + vl));
            encode_utf8_decode_utf8(pv);
            encode_utf8_decode_utf8(qv);
            assert(pv == qv);
            assert(p =~= q);
        },
        (None, None) => {
            let e = encoded(p);
            assert(e.subrange(1, 5) =~= len_bytes(pk.len()));
            assert(e.subrange(1, 5) =~= len_bytes(qk.len()));
            assert(spec_u32_from_le_bytes(len_bytes(pk.len())) == pk.len() as u32);
            assert(spec_u32_from_le_bytes(len_bytes(qk.len())) == qk.len() as u32);
            assert(pk.len() == qk.len());
            let kl = pk.len() as int;
            assert(pk =~= e.subrange(5, 5 + kl));
            assert(qk =~= e.subrange(5, 5 + kl));
            encode_utf8_decode_utf8(p.key);
            encode_utf8_decode_utf8(q.key);
            assert(p =~= q);
        },
        (Some(_), None) => {
            assert(encoded(p)[0] == LIVE_TAG);
            assert(encoded(q)[0] == TOMB_TAG);
        },
        (None, Some(_)) => {
            assert(encoded(p)[0] == TOMB_TAG);
            assert(encoded(q)[0] == LIVE_TAG);
        },
    }
}

/// Serialize a record into its byte payload. Fails exactly when the record
/// is too large for the frame format.
pub fn encode(p: &KvPair) -> (r: Result<Vec<u8>, KvsError>)
    ensures
        r matches Ok(b) ==> b@ == encoded(p@) && fits(p@),
        r is Err ==> r == Err::<Vec<u8>, KvsError>(KvsError::SerdeError) && !fits(p@),
{
    proof {
        lemma_auto_spec_u32_to_from_le_bytes();
    }
    let mut kb: Vec<u8> = p.key.as_str().as_bytes_vec();
    let mut out: Vec<u8> = Vec::new();
    match &p.value {
        Some(value) => {
            if kb.len() as u64 > MAX_PAYLOAD - 9 {
                assert(encoded(p@).len() > MAX_PAYLOAD);
                return Err(KvsError::SerdeError);
            }
            let mut vb: Vec<u8> = value.as_str().as_bytes_vec();
            if vb.len() as u64 > MAX_PAYLOAD - 9 - kb.len() as u64 {
                assert(encoded(p@).len() > MAX_PAYLOAD);
                return Err(KvsError::SerdeError);
            }
            out.push(LIVE_TAG);
            let mut klb = u32_to_le_bytes(kb.len() as u32);
            out.append(&mut klb);
            out.append(&mut kb);
            let mut vlb = u32_to_le_bytes(vb.len() as u32);
            out.append(&mut vlb);
            out.append(&mut vb);
            assert(out@ =~= encoded(p@));
        },
        None => {
            if kb.len() as u64 > MAX_PAYLOAD - 5 {
                assert(encoded(p@).len() > MAX_PAYLOAD);
                return Err(KvsError::SerdeError);
            }
            out.push(TOMB_TAG);
            let mut klb = u32_to_le_bytes(kb.len() as u32);
            out.append(&mut klb);
            out.append(&mut kb);
            assert(out@ =~= encoded(p@));
        },
    }
    Ok(out)
}

/// Relies on `String::from_utf8`: it returns the string whose UTF-8
/// encoding is the given bytes, and fails exactly when the bytes are not
/// valid UTF-8.
#[verifier::external_body]
fn bytes_to_string(bytes: Vec<u8>) -> (r: Option<String>)
    ensures
        r matches Some(s) ==> valid_utf8(bytes@) && s@ == decode_utf8(bytes@),
        r is None ==> !valid_utf8(bytes@),
{
    match String::from_utf8(bytes) {
        Ok(s) => Some(s),
        Err(_) => None,
    }
}

/// Whether some record that fits encodes to this payload.
pub open spec fn decodable(payload: Seq<u8>) -> bool {
    exists|q: PairView| fits(q) && encoded(q) == payload
}

/// Deserialize a byte payload back into the one record that encodes to it.
/// Fails exactly when no record does.
pub fn decode(bytes: &Vec<u8>) -> (r: Result<KvPair, KvsError>)
    ensures
        r matches Ok(p) ==> bytes@ == encoded(p@) && fits(p@),
        r is Err ==> r == Err::<KvPair, KvsError>(KvsError::SerdeError) && !decodable(bytes@),
{
    proof {
        lemma_auto_spec_u32_to_from_le_bytes();
        assert forall|q: PairView| fits(q) implies encoded(q).len() >= 5 by {
            lemma_fits_bounds(q);
        }
    }
    let n = bytes.len();
    if n < 5 || n as u64 > MAX_PAYLOAD {
        return Err(KvsError::SerdeError);
    }
    let tag = bytes[0];
    let klen32 = u32_from_le_bytes(slice_subrange(bytes.as_slice(), 1, 5));
    let klen = klen32 as usize;
    if tag == TOMB_TAG {
        if n - 5 != klen {
            proof {
                assert forall|q: PairView| fits(q) implies encoded(q) != bytes@ by {
                    lemma_fits_bounds(q);
                    if encoded(q) == bytes@ && q.value is None {
                        assert(encoded(q).subrange(1, 5) =~= len_bytes(encode_utf8(q.key).len()));
                    }
                }
            }
            return Err(KvsError::SerdeError);
        }
        let kbytes = slice_to_vec(slice_subrange(bytes.as_slice(), 5, n));
        match bytes_to_string(kbytes) {
            Some(key) => {
                let pair = KvPair { key, value: None };
                proof {
                    decode_utf8_encode_utf8(bytes@.subrange(5, n as int));
                    assert(bytes@ =~= encoded(pair@));
                }
                Ok(pair)
            },
            None => {
                proof {
                    assert forall|q: PairView| fits(q) implies encoded(q) != bytes@ by {
                        lemma_fits_bounds(q);
                        encode_utf8_valid_utf8(q.key);
                        if encoded(q) == bytes@ && q.value is None {
                            assert(encode_utf8(q.key) =~= bytes@.subrange(5, n as int));
                        }
                    }
                }
                Err(KvsError::SerdeError)
            },
        }
    } else if tag == LIVE_TAG {
        if n < 9 || klen > n - 9 {
            proof {
                assert forall|q: PairView| fits(q) implies encoded(q) != bytes@ by {
                    lemma_fits_bounds(q);
                    if encoded(q) == bytes@ && q.value is Some {
                        assert(encoded(q).subrange(1, 5) =~= len_bytes(encode_utf8(q.key).len()));
                    }
                }
            }
            return Err(KvsError::SerdeError);
        }
        let vstart = 5 + klen;
        let vlen32 = u32_from_le_bytes(slice_subrange(bytes.as_slice(), vstart, vstart + 4));
        let vlen = vlen32 as usize;
        if n - (vstart + 4) != vlen {
            proof {
                assert forall|q: PairView| fits(q) implies encoded(q) != bytes@ by {
                    lemma_fits_bounds(q);
                    if encoded(q) == bytes@ && q.value is Some {
                        let kb = encode_utf8(q.key);
                        assert(encoded(q).subrange(1, 5) =~= len_bytes(kb.len()));
                        assert(encoded(q).subrange(
                            5 + kb.len() as int,
                            9 + kb.len() as int,
                        ) =~= len_bytes(
                            encode_utf8(q.value->0).len(),
                        ));
                    }
                }
            }
            return Err(KvsError::SerdeError);
        }
        let kbytes = slice_to_vec(slice_subrange(bytes.as_slice(), 5, vstart));
        let vbytes = slice_to_vec(slice_subrange(bytes.as_slice(), vstart + 4, n));
        let key = match bytes_to_string(kbytes) {
            Some(key) => key,
            None => {
                proof {
                    lemma_live_utf8_regions(bytes@, klen as int, vlen as int);
                }
                return Err(KvsError::SerdeError);
            },
        };
        match bytes_to_string(vbytes) {
            Some(value) => {
                let pair = KvPair { key, value: Some(value) };
                proof {
                    decode_utf8_encode_utf8(bytes@.subrange(5, vstart as int));
                    decode_utf8_encode_utf8(bytes@.subrange(vstart + 4, n as int));
                    assert(bytes@ =~= encoded(pair@));
                }
                Ok(pair)
            },
            None => {
                proof {
                    lemma_live_utf8_regions(bytes@, klen as int, vlen as int);
                }
                Err(KvsError::SerdeError)
            },
        }
    } else {
        proof {
            assert forall|q: PairView| fits(q) implies encoded(q) != bytes@ by {
                lemma_fits_bounds(q);
                assert(encoded(q)[0] == LIVE_TAG || encoded(q)[0] == TOMB_TAG);
            }
        }
        Err(KvsError::SerdeError)
    }
}

/// In a live payload whose lengths agree with its prefixes, the key and
/// value regions hold UTF-8 images of the record's strings.
proof fn lemma_live_utf8_regions(bytes: Seq<u8>, klen: int, vlen: int)
    requires
        bytes.len() == 9 + klen + vlen,
        0 <= klen,
        0 <= vlen,
        bytes[0] == LIVE_TAG,
        spec_u32_from_le_bytes(bytes.subrange(1, 5)) == klen,
        spec_u32_from_le_bytes(bytes.subrange(5 + klen, 9 + klen)) == vlen,
        !valid_utf8(bytes.subrange(5, 5 + klen)) || !valid_utf8(
            bytes.subrange(9 + klen, bytes.len() as int),
        ),
    ensures
        !decodable(bytes),
{
    lemma_auto_spec_u32_to_from_le_bytes();
    assert forall|q: PairView| fits(q) implies encoded(q) != bytes by {
        lemma_fits_bounds(q);
        encode_utf8_valid_utf8(q.key);
        if encoded(q) == bytes && q.value is Some {
            let kb = encode_utf8(q.key);
            encode_utf8_valid_utf8(q.value->0);
            assert(encoded(q).subrange(1, 5) =~= len_bytes(kb.len()));
            assert(kb.len() == klen);
            assert(kb =~= bytes.subrange(5, 5 + klen));
            assert(encode_utf8(q.value->0) =~= bytes.subrange(9 + klen, bytes.len() as int));
        }
    }
}

} // verus!
