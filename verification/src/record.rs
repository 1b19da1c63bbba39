use crate::endian::{be_u64_bytes, be_u64_value, lemma_be_u64_round_trip, u64_from_be, u64_to_be};
use crate::error::ErrorKind;
use vstd::prelude::*;

verus! {

/// The unit appended to the log: an opaque byte value plus the logical
/// offset the engine assigned to it. An offset supplied by a caller is
/// overwritten on append.
#[derive(Clone, Debug, PartialEq)]
pub struct Record {
    pub value: Vec<u8>,
    pub offset: u64,
}

/// The byte image of a record: its offset, big-endian, then its value.
pub open spec fn record_bytes(offset: u64, value: Seq<u8>) -> Seq<u8> {
    be_u64_bytes(offset) + value
}

/// Encodes a record for storage.
pub fn encode_record(r: &Record) -> (v: Vec<u8>)
    requires
        r.value@.len() + 8 <= usize::MAX,
    ensures
        v@ == record_bytes(r.offset, r.value@),
{
    let mut v = u64_to_be(r.offset);
    let mut i: usize = 0;
    while i < r.value.len()
        invariant
            i <= r.value@.len(),
            v@ == be_u64_bytes(r.offset) + r.value@.subrange(0, i as int),
        decreases r.value@.len() - i,
    {
        v.push(r.value[i]);
        i = i + 1;
        proof {
            assert(be_u64_bytes(r.offset) + r.value@.subrange(0, i as int) =~= (be_u64_bytes(
                r.offset,
            ) + r.value@.subrange(0, i - 1)).push(r.value@[i - 1]));
        }
    }
    proof {
        assert(r.value@.subrange(0, r.value@.len() as int) =~= r.value@);
    }
    v
}

/// Decodes a stored byte image back to a record. Fails with
/// `decode-error` on an image too short to hold an offset.
pub fn decode_record(buf: &Vec<u8>) -> (r: Result<Record, ErrorKind>)
    ensures
        match r {
            Ok(rec) => buf@.len() >= 8 && rec.offset == be_u64_value(buf@.subrange(0, 8))
                && rec.value@ == buf@.skip(8),
            Err(e) => e == ErrorKind::DecodeError && buf@.len() < 8,
        },
{
    if buf.len() < 8 {
        return Err(ErrorKind::DecodeError);
    }
    let offset = u64_from_be(buf, 0);
    let mut value: Vec<u8> = Vec::new();
    let mut i: usize = 8;
    while i < buf.len()
        invariant
            8 <= i <= buf@.len(),
            value@ == buf@.subrange(8, i as int),
        decreases buf@.len() - i,
    {
        value.push(buf[i]);
        i = i + 1;
        proof {
            assert(buf@.subrange(8, i as int) =~= buf@.subrange(8, i - 1).push(buf@[i - 1]));
        }
    }
    proof {
        assert(buf@.subrange(8, buf@.len() as int) =~= buf@.skip(8));
        assert(buf@.subrange(0, 8) =~= buf@.subrange(0int, 8int));
    }
    Ok(Record { value, offset })
}

/// A record's byte image decodes back to the record: the codec round
/// trips on every offset and value.
pub proof fn lemma_record_round_trip(offset: u64, value: Seq<u8>)
    ensures
        be_u64_value(record_bytes(offset, value).subrange(0, 8)) == offset,
        record_bytes(offset, value).skip(8) == value,
{
    lemma_be_u64_round_trip(offset);
    assert(record_bytes(offset, value).subrange(0, 8) =~= be_u64_bytes(offset));
    assert(record_bytes(offset, value).skip(8) =~= value);
}

} // verus!
