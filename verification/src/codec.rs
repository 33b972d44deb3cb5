//! The persistence format: a self-describing byte encoding of a whole game
//! sequence. Each entry is a tagged record — a tag byte naming the kind, an
//! 8-byte little-endian payload length, and the payload itself: a phrase's
//! UTF-8 bytes or a drawing's raw bytes. Records are concatenated with no
//! header, no version field and no checksum; decoding consumes the whole
//! input and rejects anything truncated, mistagged or not valid UTF-8 where
//! a phrase is announced.

use vstd::prelude::*;
use vstd::bytes::lemma_auto_spec_u64_to_from_le_bytes;
use vstd::bytes::spec_u64_from_le_bytes;
use vstd::bytes::spec_u64_to_le_bytes;
use vstd::bytes::u64_from_le_bytes;
use vstd::bytes::u64_to_le_bytes;
use vstd::slice::slice_index_get;
use vstd::slice::slice_subrange;
use vstd::slice::slice_to_vec;
use vstd::utf8::decode_utf8;
use vstd::utf8::encode_utf8;
use vstd::utf8::encode_utf8_decode_utf8;
use vstd::utf8::encode_utf8_valid_utf8;
use vstd::utf8::valid_utf8;
use crate::game::models;
use crate::game::Entry;
use crate::game::EntryModel;
use crate::game::GameError;

verus! {

/// Record tag announcing a phrase payload.
pub const TAG_PHRASE: u8 = 0;

/// Record tag announcing a drawing payload.
pub const TAG_DRAWING: u8 = 1;

/// The payload bytes an entry is persisted with: a phrase's UTF-8 encoding
/// or a drawing's raw bytes.
pub open spec fn payload_of(e: EntryModel) -> Seq<u8> {
    match e {
        EntryModel::Phrase(cs) => encode_utf8(cs),
        EntryModel::Drawing(bs) => bs,
    }
}

/// The tag byte an entry is persisted with.
pub open spec fn tag_of(e: EntryModel) -> u8 {
    match e {
        EntryModel::Phrase(_) => TAG_PHRASE,
        EntryModel::Drawing(_) => TAG_DRAWING,
    }
}

/// One persisted record: tag, 8-byte little-endian payload length, payload.
pub open spec fn encode_entry(e: EntryModel) -> Seq<u8> {
    seq![tag_of(e)] + spec_u64_to_le_bytes(payload_of(e).len() as u64) + payload_of(e)
}

/// The whole encoding: every entry's record, concatenated in order.
pub open spec fn encode_seq(s: Seq<EntryModel>) -> Seq<u8>
    decreases s.len(),
{
    if s.len() == 0 {
        Seq::empty()
    } else {
        encode_entry(s.first()) + encode_seq(s.drop_first())
    }
}

/// Whether an entry's payload length fits the 8-byte length field. Every
/// entry held in memory does: a vector or string is never longer than
/// `usize::MAX`.
pub open spec fn entry_fits(e: EntryModel) -> bool {
    payload_of(e).len() <= u64::MAX
}

/// Whether every entry of `s` satisfies [`entry_fits`].
pub open spec fn all_fit(s: Seq<EntryModel>) -> bool {
    forall|i: int| 0 <= i < s.len() ==> entry_fits(#[trigger] s[i])
}

/// Reads one record off the front of `b`: the entry it denotes and the
/// remaining bytes. `None` when the record is truncated, its tag is
/// unknown, or a phrase payload is not valid UTF-8.
pub open spec fn decode_entry(b: Seq<u8>) -> Option<(EntryModel, Seq<u8>)> {
    if b.len() < 9 {
        None
    } else {
        let tag = b[0];
        let n = spec_u64_from_le_bytes(b.subrange(1, 9)) as nat;
        if 9 + n > b.len() {
            None
        } else {
            let payload = b.subrange(9, 9 + n as int);
            let rest = b.subrange(9 + n as int, b.len() as int);
            if tag == TAG_PHRASE {
                if valid_utf8(payload) {
                    Some((EntryModel::Phrase(decode_utf8(payload)), rest))
                } else {
                    None
                }
            } else if tag == TAG_DRAWING {
                Some((EntryModel::Drawing(payload), rest))
            } else {
                None
            }
        }
    }
}

/// Decodes a whole input: records until the bytes run out, `None` on the
/// first malformed record. The empty input is the empty sequence.
pub open spec fn decode_seq(b: Seq<u8>) -> Option<Seq<EntryModel>>
    decreases b.len(),
{
    if b.len() == 0 {
        Some(Seq::empty())
    } else {
        match decode_entry(b) {
            None => None,
            Some((e, rest)) => {
                if rest.len() < b.len() {
                    match decode_seq(rest) {
                        None => None,
                        Some(s) => Some(seq![e] + s),
                    }
                } else {
                    None
                }
            },
        }
    }
}

/// Reading one record off an encoding gives back the encoded entry and
/// leaves exactly the trailing bytes.
proof fn lemma_decode_encode_entry(e: EntryModel, rest: Seq<u8>)
    requires
        entry_fits(e),
    ensures
        encode_entry(e).len() >= 9,
        decode_entry(encode_entry(e) + rest) == Some((e, rest)),
{
    lemma_auto_spec_u64_to_from_le_bytes();
    let payload = payload_of(e);
    let lenb = spec_u64_to_le_bytes(payload.len() as u64);
    assert(lenb.len() == 8);
    let b = encode_entry(e) + rest;
    assert(b.len() == 9 + payload.len() + rest.len());
    assert(b[0] == tag_of(e));
    assert(b.subrange(1, 9) =~= lenb);
    assert(spec_u64_from_le_bytes(lenb) == payload.len() as u64);
    let n = spec_u64_from_le_bytes(b.subrange(1, 9)) as nat;
    assert(n == payload.len());
    assert(b.subrange(9, 9 + n as int) =~= payload);
    assert(b.subrange(9 + n as int, b.len() as int) =~= rest);
    match e {
        EntryModel::Phrase(cs) => {
            encode_utf8_valid_utf8(cs);
            encode_utf8_decode_utf8(cs);
        },
        EntryModel::Drawing(_) => {},
    }
}

/// Appending one entry to a sequence appends its record to the encoding.
proof fn lemma_encode_seq_push(s: Seq<EntryModel>, e: EntryModel)
    ensures
        encode_seq(s.push(e)) == encode_seq(s) + encode_entry(e),
    decreases s.len(),
{
    if s.len() == 0 {
        assert(s.push(e).drop_first() =~= Seq::<EntryModel>::empty());
        assert(s.push(e).first() == e);
        assert(encode_seq(Seq::<EntryModel>::empty()) =~= Seq::<u8>::empty());
        assert(encode_seq(s.push(e)) == encode_entry(e) + encode_seq(Seq::<EntryModel>::empty()));
        assert(encode_seq(s.push(e)) =~= encode_seq(s) + encode_entry(e));
    } else {
        lemma_encode_seq_push(s.drop_first(), e);
        assert(s.push(e).drop_first() =~= s.drop_first().push(e));
        assert(s.push(e).first() == s.first());
        assert(encode_entry(s.first()) + (encode_seq(s.drop_first()) + encode_entry(e)) =~= (
        encode_entry(s.first()) + encode_seq(s.drop_first())) + encode_entry(e));
    }
}

/// Round trip: decoding what [`encode_seq`] produced gives back exactly the
/// sequence that was encoded, byte-for-byte in every phrase and drawing,
/// for every sequence whose payload lengths fit the 8-byte length fields —
/// which every sequence held in memory does.
pub proof fn lemma_round_trip(s: Seq<EntryModel>)
    requires
        all_fit(s),
    ensures
        decode_seq(encode_seq(s)) == Some(s),
    decreases s.len(),
{
    if s.len() == 0 {
    } else {
        let e = s.first();
        let tail = s.drop_first();
        assert(entry_fits(s[0]));
        lemma_decode_encode_entry(e, encode_seq(tail));
        assert(all_fit(tail)) by {
            assert forall|i: int| 0 <= i < tail.len() implies entry_fits(#[trigger] tail[i]) by {
                assert(tail[i] == s[i + 1]);
            }
        }
        lemma_round_trip(tail);
        let b = encode_seq(s);
        assert(b == encode_entry(e) + encode_seq(tail));
        assert(decode_entry(b) == Some((e, encode_seq(tail))));
        assert(encode_seq(tail).len() < b.len());
        assert(seq![e] + tail =~= s);
    }
}

/// Relies on `String::from_utf8`: it succeeds exactly when the bytes are
/// valid UTF-8, and then returns the string those bytes encode.
#[verifier::external_body]
fn string_from_utf8(bytes: Vec<u8>) -> (r: Option<String>)
    ensures
        r is Some <==> valid_utf8(bytes@),
        r matches Some(s) ==> s@ == decode_utf8(bytes@),
{
    String::from_utf8(bytes).ok()
}

/// Serializes a whole sequence of entries. Total: every in-memory sequence
/// encodes, and the result decodes back to exactly the same sequence.
pub fn encode(entries: &Vec<Entry>) -> (r: Vec<u8>)
    ensures
        r@ == encode_seq(models(entries@)),
        decode_seq(r@) == Some(models(entries@)),
{
    let ghost ms = models(entries@);
    let mut out: Vec<u8> = Vec::new();
    let n = entries.len();
    proof {
        assert(ms.take(0) =~= Seq::<EntryModel>::empty());
    }
    for idx in 0..n
        invariant
            n == entries@.len(),
            ms == models(entries@),
            ms.len() == n,
            out@ == encode_seq(ms.take(idx as int)),
            all_fit(ms.take(idx as int)),
    {
        let ghost prev = out@;
        match &entries[idx] {
            Entry::Phrase(s) => {
                out.push(TAG_PHRASE);
                let bs: &[u8] = s.as_str().as_bytes();
                let len = bs.len();
                let mut lenb = u64_to_le_bytes(len as u64);
                out.append(&mut lenb);
                let mut pv = slice_to_vec(bs);
                out.append(&mut pv);
                proof {
                    assert(entry_fits(ms[idx as int]));
                    assert(out@ =~= prev + encode_entry(ms[idx as int]));
                }
            },
            Entry::Drawing(v) => {
                out.push(TAG_DRAWING);
                let len = v.len();
                let mut lenb = u64_to_le_bytes(len as u64);
                out.append(&mut lenb);
                let mut pv = slice_to_vec(v.as_slice());
                out.append(&mut pv);
                proof {
                    assert(entry_fits(ms[idx as int]));
                    assert(out@ =~= prev + encode_entry(ms[idx as int]));
                }
            },
        }
        proof {
            assert(ms.take(idx as int + 1) =~= ms.take(idx as int).push(ms[idx as int]));
            lemma_encode_seq_push(ms.take(idx as int), ms[idx as int]);
        }
    }
    proof {
        assert(ms.take(n as int) =~= ms);
        lemma_round_trip(ms);
    }
    out
}

/// Reads one record at offset `i`, returning the entry and the offset just
/// past it; `DecodeFailure` exactly when the record there is malformed.
fn decode_one(bytes: &[u8], i: usize) -> (r: Result<(Entry, usize), GameError>)
    requires
        i < bytes@.len(),
    ensures
        match r {
            Ok(p) => {
                &&& i < p.1 <= bytes@.len()
                &&& decode_entry(bytes@.skip(i as int)) == Some((p.0@, bytes@.skip(p.1 as int)))
            },
            Err(err) => {
                &&& decode_entry(bytes@.skip(i as int)) is None
                &&& err == GameError::DecodeFailure
            },
        },
{
    let ghost tail = bytes@.skip(i as int);
    let len = bytes.len();
    if len - i < 9 {
        return Err(GameError::DecodeFailure);
    }
    let tag = *slice_index_get(bytes, i);
    proof {
        assert(tail[0] == bytes@[i as int]);
    }
    let lenb = slice_subrange(bytes, i + 1, i + 9);
    proof {
        assert(lenb@ =~= tail.subrange(1, 9));
    }
    let n64 = u64_from_le_bytes(lenb);
    let rem = len - (i + 9);
    if n64 > rem as u64 {
        return Err(GameError::DecodeFailure);
    }
    let n = n64 as usize;
    let payload = slice_subrange(bytes, i + 9, i + 9 + n);
    let j = i + 9 + n;
    proof {
        assert(payload@ =~= tail.subrange(9, 9 + n as int));
        assert(bytes@.skip(j as int) =~= tail.subrange(9 + n as int, tail.len() as int));
    }
    if tag == TAG_PHRASE {
        match string_from_utf8(slice_to_vec(payload)) {
            Some(s) => Ok((Entry::Phrase(s), j)),
            None => Err(GameError::DecodeFailure),
        }
    } else if tag == TAG_DRAWING {
        Ok((Entry::Drawing(slice_to_vec(payload)), j))
    } else {
        Err(GameError::DecodeFailure)
    }
}

/// Deserializes a whole input back into a sequence of entries. Succeeds
/// exactly when the bytes are a well-formed encoding, and then returns
/// exactly the sequence they encode; truncated, mistagged or otherwise
/// corrupt input is `DecodeFailure`.
pub fn decode(bytes: &[u8]) -> (r: Result<Vec<Entry>, GameError>)
    ensures
        match r {
            Ok(v) => decode_seq(bytes@) == Some(models(v@)),
            Err(e) => decode_seq(bytes@) is None && e == GameError::DecodeFailure,
        },
{
    let len = bytes.len();
    let mut out: Vec<Entry> = Vec::new();
    let mut i: usize = 0;
    proof {
        assert(bytes@.skip(0) =~= bytes@);
        assert(models(out@) =~= Seq::<EntryModel>::empty());
    }
    while i < len
        invariant
            i <= len == bytes@.len(),
            ({
                let tail = bytes@.skip(i as int);
                match decode_seq(tail) {
                    None => decode_seq(bytes@) is None,
                    Some(rest) => decode_seq(bytes@) == Some(models(out@) + rest),
                }
            }),
        decreases len - i,
    {
        let ghost tail = bytes@.skip(i as int);
        match decode_one(bytes, i) {
            Ok((e, j)) => {
                proof {
                    let rest_b = bytes@.skip(j as int);
                    assert(rest_b.len() < tail.len());
                    match decode_seq(rest_b) {
                        None => {
                            assert(decode_seq(tail) is None);
                        },
                        Some(s) => {
                            assert(decode_seq(tail) == Some(seq![e@] + s));
                            assert(models(out@.push(e)) =~= models(out@).push(e@));
                            assert(models(out@) + (seq![e@] + s) =~= models(out@).push(e@) + s);
                        },
                    }
                }
                out.push(e);
                i = j;
            },
            Err(_) => {
                proof {
                    assert(tail.len() > 0);
                }
                return Err(GameError::DecodeFailure);
            },
        }
    }
    proof {
        assert(bytes@.skip(i as int).len() == 0);
        assert(models(out@) + Seq::<EntryModel>::empty() =~= models(out@));
    }
    Ok(out)
}

} // verus!
