use crate::bytes::{be_bytes, be_value, lemma_pow256_values, magic};
use crate::error::CodecError;
use crate::packets::{expect_magic, magic_at, Packet};
use crate::reader::{fits, i64_of_bits, slice_at, string_at, uint_at, Endian, Reader};
use crate::writer::{
    i64_bits, lemma_concat4, lemma_i64_field, lemma_string_field, lemma_uint_bytes_len,
    string_wire, uint_bytes, Writer,
};
use vstd::prelude::*;
use vstd::utf8::{decode_utf8, encode_utf8};

verus! {

/// The server's answer to a probe: the probe's clock, the server's
/// identifier and the line that describes the server.
#[derive(Debug, PartialEq, Eq)]
pub struct UnconnectedPong {
    pub time: i64,
    pub guid: u64,
    pub motd: String,
}

/// An answer to a probe with its line as characters.
pub ghost struct UnconnectedPongView {
    pub time: i64,
    pub guid: u64,
    pub motd: Seq<char>,
}

impl View for UnconnectedPong {
    type V = UnconnectedPongView;

    open spec fn view(&self) -> UnconnectedPongView {
        UnconnectedPongView { time: self.time, guid: self.guid, motd: self.motd@ }
    }
}

impl Clone for UnconnectedPong {
    fn clone(&self) -> (r: Self)
        ensures
            r@ == self@,
    {
        Self { time: self.time, guid: self.guid, motd: self.motd.clone() }
    }
}

impl UnconnectedPong {
    /// The byte that names the packet on the wire.
    pub const ID: u8 = 0x1c;

    pub fn new(time: i64, guid: u64, motd: String) -> (r: Self)
        ensures
            r@ == (UnconnectedPongView { time, guid, motd: motd@ }),
    {
        Self { time, guid, motd }
    }
}

impl Packet for UnconnectedPong {
    open spec fn packet_id() -> u8 {
        0x1c
    }

    fn id() -> (r: u8) {
        UnconnectedPong::ID
    }


    /// The line takes at most 65535 bytes.
    open spec fn writable(v: UnconnectedPongView) -> bool {
        encode_utf8(v.motd).len() <= 0xffff
    }

    open spec fn canonical(v: UnconnectedPongView) -> bool {
        true
    }

    /// The clock and the identifier, big-endian, the offline marker, and
    /// the line as a string with its length in front.
    open spec fn body(v: UnconnectedPongView) -> Seq<u8> {
        uint_bytes(i64_bits(v.time), 8, Endian::Big) + be_bytes(v.guid as nat, 8) + magic()
            + string_wire(encode_utf8(v.motd))
    }

    open spec fn parse(body: Seq<u8>) -> Result<UnconnectedPongView, CodecError> {
        if !fits(body, 0, 16) {
            Err(CodecError::UnexpectedEof)
        } else {
            match magic_at(body, 16) {
                Err(e) => Err(e),
                Ok(_) => match string_at(body, 32) {
                    Err(e) => Err(e),
                    Ok(found) => Ok(
                        UnconnectedPongView {
                            time: i64_of_bits(uint_at(body, 0, 8, Endian::Big)),
                            guid: be_value(slice_at(body, 8, 8)) as u64,
                            motd: decode_utf8(found.0),
                        },
                    ),
                },
            }
        }
    }

    fn read(payload: &[u8]) -> (r: Result<Self, CodecError>) {
        let mut cursor = Reader::new(payload);
        let time: i64 = cursor.read_i64(Endian::Big)?;
        let guid: u64 = cursor.read_u64(Endian::Big)?;
        expect_magic(&mut cursor)?;
        let motd: String = cursor.read_string()?;
        proof {
            vstd::utf8::encode_utf8_decode_utf8(motd@);
        }
        Ok(Self { time, guid, motd })
    }

    fn write(&self) -> (r: Result<Vec<u8>, CodecError>) {
        let mut cursor = Writer::new(Vec::new());
        let _ = cursor.write_i64(self.time, Endian::Big);
        let _ = cursor.write_u64(self.guid, Endian::Big);
        let _ = cursor.write_magic();
        cursor.write_string(self.motd.as_str())?;
        let out: Vec<u8> = cursor.get_raw_payload();
        assert(out@ =~= Self::body(self@));
        Ok(out)
    }

    proof fn lemma_round_trip(v: UnconnectedPongView) {
        let time = uint_bytes(i64_bits(v.time), 8, Endian::Big);
        let guid = be_bytes(v.guid as nat, 8);
        let line = string_wire(encode_utf8(v.motd));
        lemma_pow256_values();
        lemma_uint_bytes_len(i64_bits(v.time), 8, Endian::Big);
        crate::bytes::lemma_be_bytes_len(v.guid as nat, 8);
        crate::bytes::lemma_be_value_of_bytes(v.guid as nat, 8);
        crate::bytes::lemma_be_bytes_len(encode_utf8(v.motd).len(), 2);
        lemma_concat4(time, guid, magic(), line);
        lemma_i64_field(Self::body(v), 0, v.time, Endian::Big);
        lemma_string_field(Self::body(v), 32, v.motd);
        vstd::utf8::encode_utf8_decode_utf8(v.motd);
    }
}

} // verus!
