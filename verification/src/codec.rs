//! Binary wire codec for stream listings.
//!
//! A listing payload is a run of records, each laid out as
//! `id:u32 LE | topic_count:u32 LE | name_length:u32 LE | name bytes`,
//! so a record occupies `12 + name_length` bytes. Decoding walks a
//! cursor across the payload and must consume it exactly; a partial
//! trailing record or a name that is not valid UTF-8 is a
//! `MalformedPayload` error, never a panic or an out-of-bounds read.

use vstd::prelude::*;
use vstd::bytes::{spec_u32_to_le_bytes, spec_u32_from_le_bytes, lemma_auto_spec_u32_to_from_le_bytes, u32_from_le_bytes, u32_to_le_bytes};
use vstd::multiset::Multiset;
use vstd::utf8::valid_utf8;
use vstd::slice::{slice_subrange, slice_to_vec};
use crate::error::CoreError;

verus! {

/// One stream-listing record: a stream's id, how many topics it holds,
/// and its name as UTF-8 bytes.
#[derive(Debug)]
pub struct StreamInfo {
    pub id: u32,
    pub topic_count: u32,
    pub name: Vec<u8>,
}

/// The mathematical value of a record: the same triple over a byte sequence.
pub ghost struct StreamRecord {
    pub id: u32,
    pub topic_count: u32,
    pub name: Seq<u8>,
}

impl View for StreamInfo {
    type V = StreamRecord;

    open spec fn view(&self) -> StreamRecord {
        StreamRecord { id: self.id, topic_count: self.topic_count, name: self.name@ }
    }
}

impl StreamRecord {
    /// A record can be carried on the wire: its name length fits the
    /// u32 length prefix and the name is UTF-8.
    pub open spec fn wire_valid(self) -> bool {
        &&& self.name.len() <= u32::MAX
        &&& valid_utf8(self.name)
    }
}

/// The bytes of one encoded record.
pub open spec fn spec_encode_record(r: StreamRecord) -> Seq<u8> {
    spec_u32_to_le_bytes(r.id) + spec_u32_to_le_bytes(r.topic_count)
        + spec_u32_to_le_bytes(r.name.len() as u32) + r.name
}

/// The bytes of an encoded listing: the records back to back.
pub open spec fn spec_encode(rs: Seq<StreamRecord>) -> Seq<u8>
    decreases rs.len(),
{
    if rs.len() == 0 {
        Seq::empty()
    } else {
        spec_encode_record(rs[0]) + spec_encode(rs.drop_first())
    }
}

/// What decoding a payload means: consume whole records until the bytes
/// run out; any leftover shorter than the next record is malformed, and
/// so is a name that is not valid UTF-8.
pub open spec fn spec_decode(b: Seq<u8>) -> Result<Seq<StreamRecord>, CoreError>
    decreases b.len(),
{
    if b.len() == 0 {
        Ok(Seq::empty())
    } else if b.len() < 12 {
        Err(CoreError::MalformedPayload)
    } else {
        let id = spec_u32_from_le_bytes(b.subrange(0, 4));
        let topic_count = spec_u32_from_le_bytes(b.subrange(4, 8));
        let name_len = spec_u32_from_le_bytes(b.subrange(8, 12)) as int;
        if b.len() < 12 + name_len {
            Err(CoreError::MalformedPayload)
        } else {
            let name = b.subrange(12, 12 + name_len);
            if !valid_utf8(name) {
                Err(CoreError::MalformedPayload)
            } else {
                match spec_decode(b.subrange(12 + name_len, b.len() as int)) {
                    Ok(rest) => Ok(seq![StreamRecord { id, topic_count, name }] + rest),
                    Err(e) => Err(e),
                }
            }
        }
    }
}

/// The views of a vector of records.
pub open spec fn records_of(v: Seq<StreamInfo>) -> Seq<StreamRecord> {
    v.map_values(|s: StreamInfo| s@)
}

/// Relies on core::str::from_utf8: it returns `Ok` exactly when the bytes
/// are a valid UTF-8 encoding, which is what vstd's `valid_utf8` states.
#[verifier::external_body]
pub(crate) fn utf8_check(bytes: &[u8]) -> (r: bool)
    ensures
        r == valid_utf8(bytes@),
{
    core::str::from_utf8(bytes).is_ok()
}

/// Appends the four little-endian bytes of `x`.
fn push_u32_le(out: &mut Vec<u8>, x: u32)
    ensures
        final(out)@ == old(out)@ + spec_u32_to_le_bytes(x),
{
    let mut b = u32_to_le_bytes(x);
    out.append(&mut b);
}

/// Encodes a listing: each record's fixed 12-byte prefix followed by its
/// name bytes, records back to back in the given order.
pub fn encode_streams(streams: &Vec<StreamInfo>) -> (out: Vec<u8>)
    requires
        forall|i: int| 0 <= i < streams@.len() ==> streams@[i].name@.len() <= u32::MAX,
    ensures
        out@ == spec_encode(records_of(streams@)),
{
    let mut out: Vec<u8> = Vec::new();
    let mut i: usize = 0;
    proof {
        assert(records_of(streams@.subrange(0, 0)) =~= Seq::<StreamRecord>::empty());
        assert(out@ =~= spec_encode(records_of(streams@.subrange(0, 0))));
    }
    while i < streams.len()
        invariant
            0 <= i <= streams@.len(),
            forall|k: int| 0 <= k < streams@.len() ==> streams@[k].name@.len() <= u32::MAX,
            out@ == spec_encode(records_of(streams@.subrange(0, i as int))),
        decreases streams@.len() - i,
    {
        let s = &streams[i];
        push_u32_le(&mut out, s.id);
        push_u32_le(&mut out, s.topic_count);
        push_u32_le(&mut out, s.name.len() as u32);
        let mut name = slice_to_vec(s.name.as_slice());
        out.append(&mut name);
        proof {
            lemma_encode_push(records_of(streams@.subrange(0, i as int)), streams@[i as int]@);
            assert(records_of(streams@.subrange(0, i as int)).push(streams@[i as int]@)
                =~= records_of(streams@.subrange(0, i as int + 1)));
        }
        i = i + 1;
    }
    proof {
        assert(streams@.subrange(0, streams@.len() as int) =~= streams@);
    }
    out
}

/// Encoding one more record appends its bytes.
proof fn lemma_encode_push(rs: Seq<StreamRecord>, r: StreamRecord)
    ensures
        spec_encode(rs.push(r)) == spec_encode(rs) + spec_encode_record(r),
    decreases rs.len(),
{
    if rs.len() == 0 {
        assert(rs.push(r).drop_first() =~= Seq::<StreamRecord>::empty());
        assert(rs.push(r)[0] == r);
        assert(spec_encode(Seq::<StreamRecord>::empty()) == Seq::<u8>::empty());
        assert(spec_encode(rs.push(r)) == spec_encode_record(r) + Seq::<u8>::empty());
        assert(spec_encode_record(r) + Seq::<u8>::empty() =~= spec_encode_record(r));
        assert(spec_encode(rs) + spec_encode_record(r) =~= spec_encode_record(r));
    } else {
        lemma_encode_push(rs.drop_first(), r);
        assert(rs.push(r).drop_first() =~= rs.drop_first().push(r));
        assert(rs.push(r)[0] == rs[0]);
        assert(spec_encode(rs.push(r)) == spec_encode_record(rs[0]) + spec_encode(rs.drop_first().push(r)));
        assert(spec_encode_record(rs[0]) + (spec_encode(rs.drop_first()) + spec_encode_record(r))
            =~= (spec_encode_record(rs[0]) + spec_encode(rs.drop_first())) + spec_encode_record(r));
    }
}

/// Decodes a listing payload. Succeeds exactly when the bytes are a run
/// of whole records with UTF-8 names; a trailing partial record or a bad
/// name yields `MalformedPayload`.
pub fn decode_streams(payload: &[u8]) -> (r: Result<Vec<StreamInfo>, CoreError>)
    ensures
        match r {
            Ok(v) => spec_decode(payload@) == Ok::<_, CoreError>(records_of(v@)),
            Err(e) => spec_decode(payload@) == Err::<Seq<StreamRecord>, _>(e),
        },
{
    let mut out: Vec<StreamInfo> = Vec::new();
    let mut pos: usize = 0;
    let len: usize = payload.len();
    proof {
        assert(records_of(out@) =~= Seq::<StreamRecord>::empty());
        lemma_decode_prefix_frame(payload@, 0, records_of(out@));
    }
    while pos < len
        invariant
            0 <= pos <= len,
            len == payload@.len(),
            spec_decode(payload@) == (match spec_decode(payload@.subrange(pos as int, len as int)) {
                Ok(rest) => Ok::<_, CoreError>(records_of(out@) + rest),
                Err(e) => Err::<Seq<StreamRecord>, _>(e),
            }),
        decreases len - pos,
    {
        let ghost tail = payload@.subrange(pos as int, len as int);
        if len - pos < 12 {
            proof {
                assert(tail.len() == len - pos);
                assert(spec_decode(tail) == Err::<Seq<StreamRecord>, _>(CoreError::MalformedPayload));
            }
            return Err(CoreError::MalformedPayload);
        }
        let id = u32_from_le_bytes(slice_subrange(payload, pos, pos + 4));
        let topic_count = u32_from_le_bytes(slice_subrange(payload, pos + 4, pos + 8));
        let name_len_u32 = u32_from_le_bytes(slice_subrange(payload, pos + 8, pos + 12));
        proof {
            assert(payload@.subrange(pos as int, pos as int + 4) =~= tail.subrange(0, 4));
            assert(payload@.subrange(pos as int + 4, pos as int + 8) =~= tail.subrange(4, 8));
            assert(payload@.subrange(pos as int + 8, pos as int + 12) =~= tail.subrange(8, 12));
        }
        if name_len_u32 as usize > len - pos - 12 {
            proof {
                assert(tail.len() < 12 + name_len_u32 as int);
                assert(spec_decode(tail) == Err::<Seq<StreamRecord>, _>(CoreError::MalformedPayload));
            }
            return Err(CoreError::MalformedPayload);
        }
        let name_len: usize = name_len_u32 as usize;
        let name_slice = slice_subrange(payload, pos + 12, pos + 12 + name_len);
        proof {
            assert(name_slice@ =~= tail.subrange(12, 12 + name_len as int));
        }
        if !utf8_check(name_slice) {
            proof {
                assert(spec_decode(tail) == Err::<Seq<StreamRecord>, _>(CoreError::MalformedPayload));
            }
            return Err(CoreError::MalformedPayload);
        }
        let name: Vec<u8> = slice_to_vec(name_slice);
        let rec = StreamInfo { id, topic_count, name };
        let ghost out0 = out@;
        let ghost rec_v = StreamRecord { id, topic_count, name: name_slice@ };
        out.push(rec);
        let ghost new_tail = payload@.subrange(pos as int + 12 + name_len as int, len as int);
        proof {
            assert(rec_v == rec@);
            assert(tail.subrange(12 + name_len as int, tail.len() as int) =~= new_tail);
            // one unfolding of spec_decode on `tail`
            assert(spec_decode(tail) == (match spec_decode(new_tail) {
                Ok(rest) => Ok::<_, CoreError>(seq![rec_v] + rest),
                Err(e) => Err::<Seq<StreamRecord>, _>(e),
            }));
            assert(out@ == out0.push(rec));
            if spec_decode(new_tail) is Ok {
                let rest = spec_decode(new_tail)->Ok_0;
                assert(spec_decode(tail) == Ok::<_, CoreError>(seq![rec_v] + rest));
                assert(spec_decode(payload@) == Ok::<_, CoreError>(records_of(out0) + (seq![rec_v] + rest)));
                assert(records_of(out0) + (seq![rec_v] + rest) =~= records_of(out@) + rest);
            }
        }
        pos = pos + 12 + name_len;
    }
    proof {
        assert(payload@.subrange(pos as int, len as int) =~= Seq::<u8>::empty());
        assert(spec_decode(payload@.subrange(pos as int, len as int)) == Ok::<_, CoreError>(Seq::<StreamRecord>::empty()));
        assert(records_of(out@) + Seq::<StreamRecord>::empty() =~= records_of(out@));
    }
    Ok(out)
}

/// Helper: the loop invariant of `decode_streams` holds at entry.
proof fn lemma_decode_prefix_frame(b: Seq<u8>, pos: int, acc: Seq<StreamRecord>)
    requires
        pos == 0,
        acc == Seq::<StreamRecord>::empty(),
    ensures
        spec_decode(b) == (match spec_decode(b.subrange(pos, b.len() as int)) {
            Ok(rest) => Ok::<_, CoreError>(acc + rest),
            Err(e) => Err::<Seq<StreamRecord>, _>(e),
        }),
{
    assert(b.subrange(0, b.len() as int) =~= b);
    match spec_decode(b) {
        Ok(rest) => {
            assert(acc + rest =~= rest);
        },
        Err(_) => {},
    }
}

/// Listing records in ascending id order.
pub open spec fn sorted_by_id(s: Seq<StreamInfo>) -> bool {
    forall|i: int, j: int| 0 <= i < j < s.len() ==> s[i].id <= s[j].id
}

/// Sorts decoded records by ascending id for deterministic presentation:
/// the result holds exactly the given records, in id order.
pub fn sort_streams_by_id(streams: Vec<StreamInfo>) -> (out: Vec<StreamInfo>)
    ensures
        sorted_by_id(out@),
        out@.to_multiset() == streams@.to_multiset(),
{
    broadcast use vstd::seq_lib::group_to_multiset_ensures;

    let mut rest = streams;
    let mut out: Vec<StreamInfo> = Vec::new();
    proof {
        assert(out@.to_multiset().add(rest@.to_multiset()) =~= streams@.to_multiset());
    }
    while rest.len() > 0
        invariant
            sorted_by_id(out@),
            forall|i: int, j: int|
                0 <= i < out@.len() && 0 <= j < rest@.len() ==> (#[trigger] out@[i]).id
                    <= (#[trigger] rest@[j]).id,
            out@.to_multiset().add(rest@.to_multiset()) == streams@.to_multiset(),
        decreases rest@.len(),
    {
        let mut m: usize = 0;
        let mut k: usize = 1;
        while k < rest.len()
            invariant
                0 <= m < k <= rest@.len(),
                rest@.len() > 0,
                forall|j: int| 0 <= j < k ==> (#[trigger] rest@[j]).id >= rest@[m as int].id,
            decreases rest@.len() - k,
        {
            if rest[k].id < rest[m].id {
                m = k;
            }
            k = k + 1;
        }
        let ghost out0 = out@;
        let ghost rest0 = rest@;
        let x = rest.remove(m);
        out.push(x);
        proof {
            assert(rest0[m as int] == x);
            assert(rest0.contains(x));
            out0.to_multiset_ensures();
            rest0.to_multiset_ensures();
            assert(out@ == out0.push(x));
            assert(out0.push(x).to_multiset() =~= out0.to_multiset().insert(x));
            assert(rest@ == rest0.remove(m as int));
            assert(rest0.remove(m as int).to_multiset() =~= rest0.to_multiset().remove(
                rest0[m as int],
            ));
            assert(out@.to_multiset() =~= out0.to_multiset().insert(x));
            assert(rest@.to_multiset() =~= rest0.to_multiset().remove(x));
            assert(rest0.to_multiset().count(x) > 0);
            assert(out@.to_multiset().add(rest@.to_multiset()) =~= out0.to_multiset().add(
                rest0.to_multiset(),
            ));
            assert forall|i: int, j: int|
                0 <= i < out@.len() && 0 <= j < rest@.len() implies (#[trigger] out@[i]).id
                <= (#[trigger] rest@[j]).id by {
                let j0 = if j < m as int { j } else { j + 1 };
                assert(rest@[j] == rest0[j0]);
                if i < out0.len() {
                    assert(out@[i] == out0[i]);
                } else {
                    assert(out@[i] == x);
                    assert(rest0[j0].id >= rest0[m as int].id);
                }
            }
            assert forall|i: int, j: int| 0 <= i < j < out@.len() implies out@[i].id <= out@[j].id by {
                if j < out0.len() {
                } else {
                    assert(out@[j] == x);
                    assert(out@[i] == out0[i]);
                }
            }
        }
    }
    proof {
        assert(rest@.to_multiset() =~= Multiset::<StreamInfo>::empty());
        assert(out@.to_multiset().add(Multiset::<StreamInfo>::empty()) =~= out@.to_multiset());
    }
    out
}

/// Checks a response status byte: zero is success, anything else is the
/// typed protocol error carrying that code.
pub fn check_status(status: u8) -> (r: Result<(), CoreError>)
    ensures
        status == 0 <==> r is Ok,
        status != 0 ==> r == Err::<(), _>(CoreError::ProtocolStatus(status)),
{
    if status == 0 {
        Ok(())
    } else {
        Err(CoreError::ProtocolStatus(status))
    }
}

/// Codec round trip: a listing of wire-valid records decodes, after
/// encoding, to exactly the records that were encoded, in their order.
pub proof fn lemma_codec_round_trip(rs: Seq<StreamRecord>)
    requires
        forall|i: int| 0 <= i < rs.len() ==> (#[trigger] rs[i]).wire_valid(),
    ensures
        spec_decode(spec_encode(rs)) == Ok::<_, CoreError>(rs),
    decreases rs.len(),
{
    lemma_auto_spec_u32_to_from_le_bytes();
    if rs.len() == 0 {
        assert(spec_encode(rs).len() == 0);
        assert(Ok::<_, CoreError>(Seq::<StreamRecord>::empty()) == Ok::<_, CoreError>(rs)) by {
            assert(Seq::<StreamRecord>::empty() =~= rs);
        }
    } else {
        let r0 = rs[0];
        let rest = rs.drop_first();
        let b = spec_encode(rs);
        let head = spec_encode_record(r0);
        let tail = spec_encode(rest);
        let nl = r0.name.len() as int;
        assert(b == head + tail);
        assert(head.len() == 12 + nl);
        assert(b.len() >= 12);
        assert(b.subrange(0, 4) =~= spec_u32_to_le_bytes(r0.id));
        assert(b.subrange(4, 8) =~= spec_u32_to_le_bytes(r0.topic_count));
        assert(b.subrange(8, 12) =~= spec_u32_to_le_bytes(r0.name.len() as u32));
        assert(spec_u32_from_le_bytes(b.subrange(0, 4)) == r0.id);
        assert(spec_u32_from_le_bytes(b.subrange(4, 8)) == r0.topic_count);
        assert(spec_u32_from_le_bytes(b.subrange(8, 12)) as int == nl);
        assert(b.len() >= 12 + nl);
        assert(b.subrange(12, 12 + nl) =~= r0.name);
        assert(valid_utf8(r0.name));
        assert(b.subrange(12 + nl, b.len() as int) =~= tail);
        assert(forall|i: int| 0 <= i < rest.len() ==> (#[trigger] rest[i]).wire_valid());
        lemma_codec_round_trip(rest);
        assert(spec_decode(tail) == Ok::<_, CoreError>(rest));
        assert(seq![r0] + rest =~= rs);
    }
}

/// The length of an encoded listing is at least that of its last record.
proof fn lemma_encode_len(rs: Seq<StreamRecord>)
    requires
        rs.len() > 0,
    ensures
        spec_encode(rs).len() >= 12 + rs.last().name.len(),
    decreases rs.len(),
{
    lemma_auto_spec_u32_to_from_le_bytes();
    if rs.len() == 1 {
        assert(spec_encode(rs.drop_first()).len() >= 0);
        assert(rs.last() == rs[0]);
    } else {
        lemma_encode_len(rs.drop_first());
        assert(rs.drop_first().last() == rs.last());
    }
}

/// Codec truncation: cutting an encoded listing short by fewer bytes than
/// the last record's full length leaves a partial trailing record, and
/// decoding reports `MalformedPayload`.
pub proof fn lemma_codec_truncation(rs: Seq<StreamRecord>, cut: int)
    requires
        rs.len() > 0,
        forall|i: int| 0 <= i < rs.len() ==> (#[trigger] rs[i]).wire_valid(),
        1 <= cut < 12 + rs.last().name.len(),
    ensures
        spec_decode(spec_encode(rs).subrange(0, spec_encode(rs).len() - cut))
            == Err::<Seq<StreamRecord>, _>(CoreError::MalformedPayload),
    decreases rs.len(),
{
    lemma_auto_spec_u32_to_from_le_bytes();
    lemma_encode_len(rs);
    let b = spec_encode(rs);
    let t = b.subrange(0, b.len() - cut);
    let r0 = rs[0];
    let head = spec_encode_record(r0);
    let nl = r0.name.len() as int;
    assert(head.len() == 12 + nl);
    if rs.len() == 1 {
        assert(rs.last() == r0);
        assert(spec_encode(rs.drop_first()) =~= Seq::<u8>::empty());
        assert(b =~= head);
        assert(t.len() == 12 + nl - cut);
        if t.len() < 12 {
            assert(t.len() > 0) by {
                assert(cut < 12 + nl);
            }
            assert(spec_decode(t) == Err::<Seq<StreamRecord>, _>(CoreError::MalformedPayload));
        } else {
            assert(t.subrange(0, 4) =~= b.subrange(0, 4));
            assert(t.subrange(4, 8) =~= b.subrange(4, 8));
            assert(t.subrange(8, 12) =~= b.subrange(8, 12));
            assert(b.subrange(8, 12) =~= spec_u32_to_le_bytes(r0.name.len() as u32));
            assert(spec_u32_from_le_bytes(t.subrange(8, 12)) as int == nl);
            assert(t.len() < 12 + nl);
            assert(spec_decode(t) == Err::<Seq<StreamRecord>, _>(CoreError::MalformedPayload));
        }
    } else {
        let rest = rs.drop_first();
        let tail = spec_encode(rest);
        assert(b == head + tail);
        lemma_encode_len(rest);
        assert(rest.last() == rs.last());
        assert(tail.len() >= 12 + rs.last().name.len());
        assert(tail.len() > cut);
        // the first record is untouched by the cut
        assert(t.len() == head.len() + tail.len() - cut);
        assert(t.len() >= 12 + nl);
        assert(t.subrange(0, 4) =~= head.subrange(0, 4));
        assert(t.subrange(4, 8) =~= head.subrange(4, 8));
        assert(t.subrange(8, 12) =~= head.subrange(8, 12));
        assert(head.subrange(0, 4) =~= spec_u32_to_le_bytes(r0.id));
        assert(head.subrange(4, 8) =~= spec_u32_to_le_bytes(r0.topic_count));
        assert(head.subrange(8, 12) =~= spec_u32_to_le_bytes(r0.name.len() as u32));
        assert(spec_u32_from_le_bytes(t.subrange(8, 12)) as int == nl);
        assert(t.subrange(12, 12 + nl) =~= r0.name);
        assert(valid_utf8(r0.name));
        let t_rest = t.subrange(12 + nl, t.len() as int);
        assert(t_rest =~= tail.subrange(0, tail.len() - cut));
        lemma_codec_truncation(rest, cut);
        assert(spec_decode(t_rest) == Err::<Seq<StreamRecord>, _>(CoreError::MalformedPayload));
        assert(spec_decode(t) == Err::<Seq<StreamRecord>, _>(CoreError::MalformedPayload));
    }
}

} // verus!
