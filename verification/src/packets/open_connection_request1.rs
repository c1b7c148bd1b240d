use crate::bytes::{lemma_pow256_values, magic};
use crate::error::CodecError;
use crate::packets::{expect_magic, filler, magic_at, Packet};
use crate::reader::{fits, slice_at, Reader};
use crate::writer::{lemma_concat4, Writer};
use vstd::prelude::*;

verus! {

/// The first request of the handshake. The packet is padded so that its
/// size tells the size of datagram the client asks for.
#[derive(Clone, Copy, Debug, PartialEq, Eq, Structural)]
pub struct OpenConnectionRequest1 {
    pub protocol_version: u8,
    pub mtu_size: u16,
}

impl OpenConnectionRequest1 {
    /// The byte that names the packet on the wire.
    pub const ID: u8 = 0x05;

    pub fn new(protocol_version: u8, mtu_size: u16) -> (r: Self)
        ensures
            r.protocol_version == protocol_version,
            r.mtu_size == mtu_size,
    {
        Self { protocol_version, mtu_size }
    }
}

impl View for OpenConnectionRequest1 {
    type V = OpenConnectionRequest1;

    open spec fn view(&self) -> OpenConnectionRequest1 {
        *self
    }
}

impl Packet for OpenConnectionRequest1 {
    open spec fn packet_id() -> u8 {
        0x05
    }

    fn id() -> (r: u8) {
        OpenConnectionRequest1::ID
    }


    /// The size asked for leaves room for the marker and the version.
    open spec fn writable(v: OpenConnectionRequest1) -> bool {
        v.mtu_size >= 46
    }

    open spec fn canonical(v: OpenConnectionRequest1) -> bool {
        true
    }

    /// The offline marker, the version, then zero bytes until the body is 29
    /// bytes short of the size asked for.
    open spec fn body(v: OpenConnectionRequest1) -> Seq<u8> {
        magic() + seq![v.protocol_version] + filler((v.mtu_size - 46) as nat, 0)
    }

    /// The size asked for is the length of the body and 29; the padding is
    /// not looked at. A body so long that the size does not fit 16 bits is
    /// out of range.
    open spec fn parse(body: Seq<u8>) -> Result<OpenConnectionRequest1, CodecError> {
        match magic_at(body, 0) {
            Err(e) => Err(e),
            Ok(_) => if !fits(body, 16, 1) {
                Err(CodecError::UnexpectedEof)
            } else if body.len() + 29 > 0xffff {
                Err(CodecError::OutOfRange)
            } else {
                Ok(
                    OpenConnectionRequest1 {
                        protocol_version: body[16],
                        mtu_size: (body.len() + 29) as u16,
                    },
                )
            },
        }
    }

    fn read(payload: &[u8]) -> (r: Result<Self, CodecError>) {
        let mut cursor = Reader::new(payload);
        expect_magic(&mut cursor)?;
        let protocol_version: u8 = cursor.read_u8()?;
        if payload.len() > 0xffff - 29 {
            return Err(CodecError::OutOfRange);
        }
        Ok(Self { protocol_version, mtu_size: (payload.len() + 29) as u16 })
    }

    fn write(&self) -> (r: Result<Vec<u8>, CodecError>) {
        if self.mtu_size < 46 {
            return Err(CodecError::OutOfRange);
        }
        let mut cursor = Writer::new(Vec::new());
        let _ = cursor.write_magic();
        let _ = cursor.write_u8(self.protocol_version);
        let padding: Vec<u8> = vec![0u8; (self.mtu_size - 46) as usize];
        assert(padding@ =~= filler((self.mtu_size - 46) as nat, 0));
        let _ = cursor.write(padding.as_slice());
        let out: Vec<u8> = cursor.get_raw_payload();
        assert(out@ =~= Self::body(self@));
        Ok(out)
    }

    proof fn lemma_round_trip(v: OpenConnectionRequest1) {
        let padding = filler((v.mtu_size - 46) as nat, 0);
        lemma_pow256_values();
        lemma_concat4(magic(), seq![v.protocol_version], padding, Seq::<u8>::empty());
        assert(Self::body(v) =~= magic() + seq![v.protocol_version] + padding + Seq::<
            u8,
        >::empty());
        assert(slice_at(Self::body(v), 16, 1)[0] == Self::body(v)[16]);
    }
}

} // verus!
