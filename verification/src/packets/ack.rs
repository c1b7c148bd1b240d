use crate::error::CodecError;
use crate::packets::ranges::{
    all_numbers, copy_records, lemma_ranges_round_trip, numbers_of, ranges_body, ranges_parse, ranges_writable,
    read_records, write_records,
};
use crate::packets::Packet;
use vstd::prelude::*;

verus! {

/// An acknowledgement: the datagrams with these sequence numbers arrived.
/// Each record names the numbers from its first to its second.
#[derive(Debug, PartialEq, Eq)]
pub struct ACK {
    pub records: Vec<(u32, u32)>,
}

impl View for ACK {
    type V = Seq<(u32, u32)>;

    open spec fn view(&self) -> Seq<(u32, u32)> {
        self.records@
    }
}

impl Clone for ACK {
    fn clone(&self) -> (r: Self)
        ensures
            r@ == self@,
    {
        Self { records: copy_records(&self.records) }
    }
}

impl ACK {
    /// The byte that names the packet on the wire.
    pub const ID: u8 = 0xc0;

    /// One record for the numbers from `sequences.0` to `sequences.1`.
    pub fn new(sequences: (u32, u32)) -> (r: Self)
        ensures
            r@ == seq![sequences],
    {
        let mut records: Vec<(u32, u32)> = Vec::new();
        records.push(sequences);
        assert(records@ =~= seq![sequences]);
        Self { records }
    }

    /// The whole datagram: the byte `0xc0`, then the records.
    pub fn encode(&self) -> (r: Result<Vec<u8>, CodecError>)
        ensures
            match r {
                Ok(b) => ranges_writable(self@) && b@ == seq![0xc0u8] + ranges_body(self@),
                Err(e) => !ranges_writable(self@) && e == CodecError::OutOfRange,
            },
    {
        match write_records(&self.records) {
            Ok(body) => {
                let mut out: Vec<u8> = vec![0xc0u8];
                crate::bytes::append_bytes(&mut out, body.as_slice());
                Ok(out)
            },
            Err(e) => Err(e),
        }
    }

    /// Reads the records; `payload` starts behind the byte `0xc0`.
    pub fn decode(payload: &[u8]) -> (r: Result<Self, CodecError>)
        ensures
            match r {
                Ok(p) => ranges_parse(payload@) == Ok::<Seq<(u32, u32)>, CodecError>(p@),
                Err(e) => ranges_parse(payload@) == Err::<Seq<(u32, u32)>, CodecError>(e),
            },
    {
        match read_records(payload) {
            Ok(records) => Ok(Self { records }),
            Err(e) => Err(e),
        }
    }

    /// Every sequence number that the records name, record by record, each
    /// record in rising order.
    pub fn get_all(&self) -> (r: Vec<u32>)
        ensures
            r@ == numbers_of(self@),
    {
        all_numbers(&self.records)
    }
}

impl Packet for ACK {
    open spec fn packet_id() -> u8 {
        0xc0
    }

    fn id() -> (r: u8) {
        ACK::ID
    }

    open spec fn writable(v: Seq<(u32, u32)>) -> bool {
        ranges_writable(v)
    }

    open spec fn canonical(v: Seq<(u32, u32)>) -> bool {
        true
    }

    open spec fn body(v: Seq<(u32, u32)>) -> Seq<u8> {
        ranges_body(v)
    }

    open spec fn parse(body: Seq<u8>) -> Result<Seq<(u32, u32)>, CodecError> {
        ranges_parse(body)
    }

    fn read(payload: &[u8]) -> (r: Result<Self, CodecError>) {
        Self::decode(payload)
    }

    fn write(&self) -> (r: Result<Vec<u8>, CodecError>) {
        write_records(&self.records)
    }

    proof fn lemma_round_trip(v: Seq<(u32, u32)>) {
        lemma_ranges_round_trip(v);
    }
}

} // verus!
