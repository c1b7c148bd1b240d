use crate::error::CodecError;
use crate::packets::ranges::{
    all_numbers, copy_records, lemma_ranges_round_trip, numbers_of, ranges_body, ranges_parse, ranges_writable,
    read_records, write_records,
};
use crate::packets::Packet;
use vstd::prelude::*;

verus! {

/// A negative acknowledgement: the datagrams with these sequence numbers are
/// missing.
/// Each record names the numbers from its first to its second.
#[derive(Debug, PartialEq, Eq)]
pub struct Nack {
    pub records: Vec<(u32, u32)>,
}

impl View for Nack {
    type V = Seq<(u32, u32)>;

    open spec fn view(&self) -> Seq<(u32, u32)> {
        self.records@
    }
}

impl Clone for Nack {
    fn clone(&self) -> (r: Self)
        ensures
            r@ == self@,
    {
        Self { records: copy_records(&self.records) }
    }
}

impl Nack {
    /// The byte that names the packet on the wire.
    pub const ID: u8 = 0xa0;

    /// One record for the numbers from `sequences.0` to `sequences.1`.
    pub fn new(sequences: (u32, u32)) -> (r: Self)
        ensures
            r@ == seq![sequences],
    {
        let mut records: Vec<(u32, u32)> = Vec::new();
        records.push(sequences);
        assert(records@ =~= seq![sequences]);
        Self { records }
    }

    /// Every sequence number that the records name, record by record, each
    /// record in rising order.
    pub fn get_all(&self) -> (r: Vec<u32>)
        ensures
            r@ == numbers_of(self@),
    {
        all_numbers(&self.records)
    }
}

impl Packet for Nack {
    open spec fn packet_id() -> u8 {
        0xa0
    }

    fn id() -> (r: u8) {
        Nack::ID
    }

    open spec fn writable(v: Seq<(u32, u32)>) -> bool {
        ranges_writable(v)
    }

    open spec fn canonical(v: Seq<(u32, u32)>) -> bool {
        true
    }

    open spec fn body(v: Seq<(u32, u32)>) -> Seq<u8> {
        ranges_body(v)
    }

    open spec fn parse(body: Seq<u8>) -> Result<Seq<(u32, u32)>, CodecError> {
        ranges_parse(body)
    }

    fn read(payload: &[u8]) -> (r: Result<Self, CodecError>) {
        match read_records(payload) {
            Ok(records) => Ok(Self { records }),
            Err(e) => Err(e),
        }
    }

    fn write(&self) -> (r: Result<Vec<u8>, CodecError>) {
        write_records(&self.records)
    }

    proof fn lemma_round_trip(v: Seq<(u32, u32)>) {
        lemma_ranges_round_trip(v);
    }
}

} // verus!
