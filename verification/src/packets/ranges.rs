//! The records that acknowledgements and negative acknowledgements share:
//! ranges of sequence numbers.

use crate::bytes::{be_bytes, be_value, le_bytes, le_value, lemma_pow256_values};
use crate::error::CodecError;
use crate::reader::{fits, lemma_uint_at_bound, slice_at, Endian, Reader};
use crate::writer::{lemma_concat4, put_uint};
use vstd::prelude::*;

verus! {

/// One record on the wire: a byte that is 1 where the record names one
/// number and 0 where it names more, the least number in three bytes, least
/// significant first, and, where there are more, the greatest likewise.
pub open spec fn record_wire(r: (u32, u32)) -> Seq<u8> {
    if r.0 == r.1 {
        seq![1u8] + le_bytes(r.0 as nat, 3)
    } else {
        seq![0u8] + le_bytes(r.0 as nat, 3) + le_bytes(r.1 as nat, 3)
    }
}

/// How many bytes a record takes.
pub open spec fn record_len(r: (u32, u32)) -> nat {
    if r.0 == r.1 {
        4
    } else {
        7
    }
}

/// The records on the wire, one behind the other.
pub open spec fn records_wire(records: Seq<(u32, u32)>) -> Seq<u8>
    decreases records.len(),
{
    if records.len() == 0 {
        Seq::<u8>::empty()
    } else {
        record_wire(records[0]) + records_wire(records.skip(1))
    }
}

/// The count of records, big-endian in two bytes, then the records.
pub open spec fn ranges_body(records: Seq<(u32, u32)>) -> Seq<u8> {
    be_bytes(records.len(), 2) + records_wire(records)
}

/// The count fits 16 bits and every number 24.
pub open spec fn ranges_writable(records: Seq<(u32, u32)>) -> bool {
    &&& records.len() <= 0xffff
    &&& forall|i: int|
        0 <= i < records.len() ==> (#[trigger] records[i]).0 < 0x100_0000 && records[i].1
            < 0x100_0000
}

/// `rest` with `front` before it, where `rest` is no error.
pub open spec fn behind(front: Seq<(u32, u32)>, rest: Result<Seq<(u32, u32)>, CodecError>) -> Result<
    Seq<(u32, u32)>,
    CodecError,
> {
    match rest {
        Ok(records) => Ok(front + records),
        Err(e) => Err(e),
    }
}

/// The `count` records that stand at `pos`. A record whose first byte is
/// not zero names one number.
pub open spec fn records_at(bytes: Seq<u8>, pos: nat, count: nat) -> Result<
    Seq<(u32, u32)>,
    CodecError,
>
    decreases count,
{
    if count == 0 {
        Ok(Seq::<(u32, u32)>::empty())
    } else if !fits(bytes, pos, 4) {
        Err(CodecError::UnexpectedEof)
    } else {
        let least = le_value(slice_at(bytes, pos + 1, 3)) as u32;
        if bytes[pos as int] != 0 {
            behind(seq![(least, least)], records_at(bytes, pos + 4, (count - 1) as nat))
        } else if !fits(bytes, pos, 7) {
            Err(CodecError::UnexpectedEof)
        } else {
            behind(
                seq![(least, le_value(slice_at(bytes, pos + 4, 3)) as u32)],
                records_at(bytes, pos + 7, (count - 1) as nat),
            )
        }
    }
}

/// The records that `body` spells: as many as its first two bytes say.
/// Bytes behind the last record are not looked at.
pub open spec fn ranges_parse(body: Seq<u8>) -> Result<Seq<(u32, u32)>, CodecError> {
    if !fits(body, 0, 2) {
        Err(CodecError::UnexpectedEof)
    } else {
        records_at(body, 2, be_value(slice_at(body, 0, 2)))
    }
}

/// The numbers from `least` to `greatest`, both included, in rising order;
/// none where `least` is above `greatest`.
pub open spec fn numbers(least: u32, greatest: u32) -> Seq<u32> {
    if least <= greatest {
        Seq::new((greatest - least + 1) as nat, |k: int| (least + k) as u32)
    } else {
        Seq::<u32>::empty()
    }
}

/// The numbers that the records name, record by record.
pub open spec fn numbers_of(records: Seq<(u32, u32)>) -> Seq<u32>
    decreases records.len(),
{
    if records.len() == 0 {
        Seq::<u32>::empty()
    } else {
        numbers_of(records.drop_last()) + numbers(records.last().0, records.last().1)
    }
}

/// The numbers from `least` to `greatest`.
pub fn range_numbers(least: u32, greatest: u32) -> (r: Vec<u32>)
    ensures
        r@ == numbers(least, greatest),
{
    let mut ret: Vec<u32> = Vec::new();
    if least > greatest {
        return ret;
    }
    let mut i: u32 = least;
    while i < greatest
        invariant
            least <= i <= greatest,
            ret@ == Seq::new((i - least) as nat, |k: int| (least + k) as u32),
        decreases greatest - i,
    {
        ret.push(i);
        i += 1;
        assert(ret@ =~= Seq::new((i - least) as nat, |k: int| (least + k) as u32));
    }
    ret.push(greatest);
    assert(ret@ =~= numbers(least, greatest));
    ret
}

/// The numbers that the records name, record by record.
pub fn all_numbers(records: &Vec<(u32, u32)>) -> (r: Vec<u32>)
    ensures
        r@ == numbers_of(records@),
{
    let mut ret: Vec<u32> = Vec::new();
    let mut i: usize = 0;
    assert(records@.take(0) =~= Seq::<(u32, u32)>::empty());
    while i < records.len()
        invariant
            i <= records@.len(),
            ret@ == numbers_of(records@.take(i as int)),
        decreases records@.len() - i,
    {
        proof {
            assert(records@.take(i as int + 1).drop_last() =~= records@.take(i as int));
        }
        let mut more: Vec<u32> = range_numbers(records[i].0, records[i].1);
        ret.append(&mut more);
        i += 1;
    }
    assert(records@.take(i as int) =~= records@);
    ret
}

/// A copy of the records.
pub fn copy_records(records: &Vec<(u32, u32)>) -> (r: Vec<(u32, u32)>)
    ensures
        r@ == records@,
{
    let mut out: Vec<(u32, u32)> = Vec::new();
    let mut i: usize = 0;
    while i < records.len()
        invariant
            i <= records@.len(),
            out@ == records@.take(i as int),
        decreases records@.len() - i,
    {
        out.push(records[i]);
        i += 1;
        assert(out@ =~= records@.take(i as int));
    }
    assert(records@.take(i as int) =~= records@);
    out
}

/// Reads the count and the records.
pub fn read_records(payload: &[u8]) -> (r: Result<Vec<(u32, u32)>, CodecError>)
    ensures
        match r {
            Ok(v) => ranges_parse(payload@) == Ok::<Seq<(u32, u32)>, CodecError>(v@),
            Err(e) => ranges_parse(payload@) == Err::<Seq<(u32, u32)>, CodecError>(e),
        },
{
    let mut cursor = Reader::new(payload);
    proof {
        lemma_uint_at_bound(payload@, 0, 2, Endian::Big);
    }
    let count: u16 = cursor.read_u16(Endian::Big)?;
    let mut records: Vec<(u32, u32)> = Vec::new();
    let mut i: u16 = 0;
    assert(behind(records@, records_at(payload@, 2, count as nat)) == records_at(
        payload@,
        2,
        count as nat,
    )) by {
        let rest = records_at(payload@, 2, count as nat);
        if rest is Ok {
            assert(records@ + rest.unwrap() =~= rest.unwrap());
        }
    }
    while i < count
        invariant
            i <= count,
            cursor.bytes() == payload@,
            2 <= cursor.position(),
            ranges_parse(payload@) == records_at(payload@, 2, count as nat),
            records_at(payload@, 2, count as nat) == behind(
                records@,
                records_at(payload@, cursor.position(), (count - i) as nat),
            ),
        decreases count - i,
    {
        let ghost pos = cursor.position();
        let ghost before = records@;
        proof {
            lemma_uint_at_bound(payload@, pos + 1, 3, Endian::Little);
            lemma_uint_at_bound(payload@, pos + 4, 3, Endian::Little);
            let rest = records_at(payload@, pos, (count - i) as nat);
            assert(!fits(payload@, pos, 4) ==> rest == Err::<Seq<(u32, u32)>, CodecError>(
                CodecError::UnexpectedEof,
            ));
            assert(fits(payload@, pos, 4) && payload@[pos as int] == 0 && !fits(payload@, pos, 7)
                ==> rest == Err::<Seq<(u32, u32)>, CodecError>(CodecError::UnexpectedEof));
        }
        let single: bool = cursor.read_u8()? != 0;
        let least: u32 = cursor.read_u24(Endian::Little)?;
        let record: (u32, u32) = if single {
            (least, least)
        } else {
            (least, cursor.read_u24(Endian::Little)?)
        };
        records.push(record);
        i += 1;
        proof {
            let rest = records_at(payload@, cursor.position(), (count - i) as nat);
            if rest is Ok {
                assert(before + (seq![record] + rest.unwrap()) =~= before.push(record)
                    + rest.unwrap());
            }
        }
    }
    proof {
        assert(records@ + Seq::<(u32, u32)>::empty() =~= records@);
    }
    Ok(records)
}

/// Writes the count and the records, or nothing where a number does not
/// fit its field.
pub fn write_records(records: &Vec<(u32, u32)>) -> (r: Result<Vec<u8>, CodecError>)
    ensures
        match r {
            Ok(b) => ranges_writable(records@) && b@ == ranges_body(records@),
            Err(e) => !ranges_writable(records@) && e == CodecError::OutOfRange,
        },
{
    if records.len() > 0xffff {
        return Err(CodecError::OutOfRange);
    }
    proof {
        lemma_pow256_values();
    }
    let mut out: Vec<u8> = Vec::new();
    put_uint(&mut out, records.len() as u64, 2, Endian::Big);
    let ghost head = out@;
    let mut i: usize = 0;
    assert(out@ =~= head + records_wire(records@.take(0)));
    while i < records.len()
        invariant
            i <= records@.len(),
            out@ == head + records_wire(records@.take(i as int)),
            forall|j: int|
                0 <= j < i ==> (#[trigger] records@[j]).0 < 0x100_0000 && records@[j].1
                    < 0x100_0000,
        decreases records@.len() - i,
    {
        let record: (u32, u32) = records[i];
        if record.0 >= 0x100_0000 || record.1 >= 0x100_0000 {
            return Err(CodecError::OutOfRange);
        }
        proof {
            lemma_pow256_values();
            lemma_records_wire_push(records@.take(i as int), record);
            assert(records@.take(i as int).push(record) =~= records@.take(i as int + 1));
        }
        let ghost sofar = out@;
        if record.0 == record.1 {
            out.push(1);
            put_uint(&mut out, record.0 as u64, 3, Endian::Little);
        } else {
            out.push(0);
            put_uint(&mut out, record.0 as u64, 3, Endian::Little);
            put_uint(&mut out, record.1 as u64, 3, Endian::Little);
        }
        assert(out@ =~= sofar + record_wire(record));
        assert(out@ =~= head + records_wire(records@.take(i as int + 1)));
        i += 1;
    }
    assert(records@.take(i as int) =~= records@);
    Ok(out)
}

/// A record takes on the wire as many bytes as `record_len` says.
pub proof fn lemma_record_len(r: (u32, u32))
    ensures
        record_wire(r).len() == record_len(r),
{
    crate::bytes::lemma_le_bytes_len(r.0 as nat, 3);
    crate::bytes::lemma_le_bytes_len(r.1 as nat, 3);
}

/// A record more at the end of the records is its bytes more at the end
/// of theirs.
pub proof fn lemma_records_wire_push(records: Seq<(u32, u32)>, r: (u32, u32))
    ensures
        records_wire(records.push(r)) == records_wire(records) + record_wire(r),
    decreases records.len(),
{
    reveal_with_fuel(records_wire, 2);
    if records.len() == 0 {
        assert(records.push(r).skip(1) =~= Seq::<(u32, u32)>::empty());
        assert(records_wire(records.push(r)) =~= records_wire(records) + record_wire(r));
    } else {
        lemma_records_wire_push(records.skip(1), r);
        assert(records.push(r).skip(1) =~= records.skip(1).push(r));
        assert(records_wire(records.push(r)) =~= records_wire(records) + record_wire(r));
    }
}

/// A record that was written reads back as itself, whatever stands before
/// and behind it.
proof fn lemma_record_field(pre: Seq<u8>, r: (u32, u32), post: Seq<u8>)
    requires
        r.0 < 0x100_0000,
        r.1 < 0x100_0000,
    ensures
        ({
            let w = pre + record_wire(r) + post;
            let p = pre.len();
            &&& fits(w, p, record_len(r))
            &&& (w[p as int] != 0) == (r.0 == r.1)
            &&& le_value(slice_at(w, p + 1, 3)) == r.0
            &&& r.0 != r.1 ==> le_value(slice_at(w, p + 4, 3)) == r.1
        }),
{
    let w = pre + record_wire(r) + post;
    let p = pre.len();
    let least = le_bytes(r.0 as nat, 3);
    let greatest = le_bytes(r.1 as nat, 3);
    lemma_pow256_values();
    crate::bytes::lemma_le_bytes_len(r.0 as nat, 3);
    crate::bytes::lemma_le_bytes_len(r.1 as nat, 3);
    crate::bytes::lemma_le_value_of_bytes(r.0 as nat, 3);
    crate::bytes::lemma_le_value_of_bytes(r.1 as nat, 3);
    if r.0 == r.1 {
        lemma_concat4(pre, seq![1u8], least, post);
        assert(w =~= pre + seq![1u8] + least + post);
        assert(slice_at(w, p, 1)[0] == w[p as int]);
    } else {
        crate::writer::lemma_concat5(pre, seq![0u8], least, greatest, post);
        assert(w =~= pre + seq![0u8] + least + greatest + post);
        assert(slice_at(w, p, 1)[0] == w[p as int]);
    }
}

/// Records that were written one behind the other read back as themselves.
pub proof fn lemma_records_round_trip(pre: Seq<u8>, records: Seq<(u32, u32)>)
    requires
        forall|i: int|
            0 <= i < records.len() ==> (#[trigger] records[i]).0 < 0x100_0000 && records[i].1
                < 0x100_0000,
    ensures
        records_at(pre + records_wire(records), pre.len(), records.len()) == Ok::<
            Seq<(u32, u32)>,
            CodecError,
        >(records),
    decreases records.len(),
{
    let bytes = pre + records_wire(records);
    if records.len() == 0 {
        assert(records =~= Seq::<(u32, u32)>::empty());
    } else {
        let first = records[0];
        let rest = records.skip(1);
        assert forall|i: int| 0 <= i < rest.len() implies (#[trigger] rest[i]).0 < 0x100_0000
            && rest[i].1 < 0x100_0000 by {
            assert(rest[i] == records[i + 1]);
        }
        lemma_record_len(first);
        lemma_record_field(pre, first, records_wire(rest));
        assert(bytes =~= pre + record_wire(first) + records_wire(rest));
        lemma_records_round_trip(pre + record_wire(first), rest);
        assert(bytes =~= (pre + record_wire(first)) + records_wire(rest));
        assert(seq![first] + rest =~= records);
    }
}

/// Records that were written with their count read back as themselves.
pub proof fn lemma_ranges_round_trip(records: Seq<(u32, u32)>)
    requires
        ranges_writable(records),
    ensures
        ranges_parse(ranges_body(records)) == Ok::<Seq<(u32, u32)>, CodecError>(records),
{
    let count = be_bytes(records.len(), 2);
    lemma_pow256_values();
    crate::bytes::lemma_be_bytes_len(records.len(), 2);
    crate::bytes::lemma_be_value_of_bytes(records.len(), 2);
    lemma_records_round_trip(count, records);
    lemma_concat4(count, records_wire(records), Seq::<u8>::empty(), Seq::<u8>::empty());
    assert(ranges_body(records) =~= count + records_wire(records) + Seq::<u8>::empty() + Seq::<
        u8,
    >::empty());
}

} // verus!
