//! A cursor that reads integers, strings and addresses from a byte buffer.

use crate::address::Address;
use crate::bytes::{
    be_value, le_value, lemma_be_value_bound, lemma_le_value_bound, lemma_pow256_values, magic, pow256,
    read_uint_be, read_uint_le, MAGIC,
};
use crate::error::CodecError;
use vstd::prelude::*;
use vstd::string::StringSliceAdditionalSpecFns;
use vstd::utf8::{encode_utf8, valid_utf8};

verus! {

#[derive(Clone, Copy, Debug, PartialEq, Eq, Structural)]
pub enum Endian {
    Big,
    Little,
}

/// `n` bytes can be read at `pos`.
pub open spec fn fits(bytes: Seq<u8>, pos: nat, n: nat) -> bool {
    pos + n <= bytes.len()
}

/// The `n` bytes at `pos`.
pub open spec fn slice_at(bytes: Seq<u8>, pos: nat, n: nat) -> Seq<u8> {
    bytes.subrange(pos as int, (pos + n) as int)
}

/// The unsigned number that the `n` bytes at `pos` spell in byte order `e`.
pub open spec fn uint_at(bytes: Seq<u8>, pos: nat, n: nat, e: Endian) -> nat {
    match e {
        Endian::Big => be_value(slice_at(bytes, pos, n)),
        Endian::Little => le_value(slice_at(bytes, pos, n)),
    }
}

/// The signed 64-bit number whose two's complement pattern is `n`.
pub open spec fn i64_of_bits(n: nat) -> i64 {
    if n < 0x8000_0000_0000_0000 {
        n as i64
    } else {
        (n - 0x1_0000_0000_0000_0000) as i64
    }
}

/// A string on the wire: a big-endian 16-bit count, then that many bytes of
/// UTF-8. Gives the bytes of the string and how many bytes the field takes.
pub open spec fn string_at(bytes: Seq<u8>, pos: nat) -> Result<(Seq<u8>, nat), CodecError> {
    if !fits(bytes, pos, 2) {
        Err(CodecError::UnexpectedEof)
    } else {
        let len = be_value(slice_at(bytes, pos, 2));
        if !fits(bytes, pos + 2, len) {
            Err(CodecError::UnexpectedEof)
        } else if !valid_utf8(slice_at(bytes, pos + 2, len)) {
            Err(CodecError::InvalidString)
        } else {
            Ok((slice_at(bytes, pos + 2, len), 2 + len))
        }
    }
}

/// An address on the wire, and how many bytes it takes. Version 4 is followed
/// by the four octets, each taken from 255, and the port, big-endian. Version
/// 6 is followed by a two-byte family, the port, big-endian, four bytes of
/// flow information, the sixteen octets and four bytes of scope; family, flow
/// and scope are passed over.
pub open spec fn address_at(bytes: Seq<u8>, pos: nat) -> Result<(Address, nat), CodecError> {
    if !fits(bytes, pos, 1) {
        Err(CodecError::UnexpectedEof)
    } else if bytes[pos as int] == 4 {
        if !fits(bytes, pos, 7) {
            Err(CodecError::UnexpectedEof)
        } else {
            Ok(
                (
                    Address::V4 {
                        ip: (0xffff_ffff - be_value(slice_at(bytes, pos + 1, 4))) as u32,
                        port: be_value(slice_at(bytes, pos + 5, 2)) as u16,
                    },
                    7,
                ),
            )
        }
    } else if bytes[pos as int] == 6 {
        if !fits(bytes, pos, 29) {
            Err(CodecError::UnexpectedEof)
        } else {
            Ok(
                (
                    Address::V6 {
                        ip: (be_value(slice_at(bytes, pos + 9, 8)) * 0x1_0000_0000_0000_0000
                            + be_value(slice_at(bytes, pos + 17, 8))) as u128,
                        port: be_value(slice_at(bytes, pos + 3, 2)) as u16,
                    },
                    29,
                ),
            )
        }
    } else {
        Err(CodecError::UnknownAddressVersion(bytes[pos as int]))
    }
}

/// Calls `std::str::from_utf8`: the bytes as a string slice where they are
/// UTF-8, nothing where they are not.
#[verifier::external_body]
fn utf8_str(bytes: &[u8]) -> (r: Option<&str>)
    ensures
        match r {
            Some(s) => valid_utf8(bytes@) && s.spec_bytes() == bytes@,
            None => !valid_utf8(bytes@),
        },
{
    std::str::from_utf8(bytes).ok()
}

/// A read position in a borrowed buffer. The position may stand past the end
/// of the buffer; every read there fails. A read that fails leaves the
/// position where it was.
pub struct Reader<'a> {
    buf: &'a [u8],
    pos: u64,
}

impl<'a> Reader<'a> {
    /// The buffer being read.
    pub closed spec fn bytes(&self) -> Seq<u8> {
        self.buf@
    }

    /// How many bytes from the start of the buffer the next read begins.
    pub closed spec fn position(&self) -> nat {
        self.pos as nat
    }

    /// The same buffer, `n` bytes further on than `before`.
    pub open spec fn advanced(&self, before: &Self, n: nat) -> bool {
        self.bytes() == before.bytes() && self.position() == before.position() + n
    }

    pub fn new(buf: &'a [u8]) -> (r: Self)
        ensures
            r.bytes() == buf@,
            r.position() == 0,
    {
        Reader { buf, pos: 0 }
    }

    /// The next `n` bytes, where the buffer has them.
    fn take(&mut self, n: usize) -> (r: Option<&'a [u8]>)
        ensures
            match r {
                Some(s) => fits(old(self).bytes(), old(self).position(), n as nat) && s@ == slice_at(
                    old(self).bytes(),
                    old(self).position(),
                    n as nat,
                ) && final(self).advanced(old(self), n as nat),
                None => !fits(old(self).bytes(), old(self).position(), n as nat)
                    && final(self).advanced(old(self), 0),
            },
    {
        let len: usize = self.buf.len();
        if self.pos > len as u64 {
            return None;
        }
        let start: usize = self.pos as usize;
        if len - start < n {
            return None;
        }
        let whole: &'a [u8] = self.buf;
        let s: &'a [u8] = &whole[start..start + n];
        self.pos = self.pos + n as u64;
        Some(s)
    }

    /// Fills `out` with the next bytes of the buffer.
    pub fn read(&mut self, out: &mut [u8]) -> (r: Result<(), CodecError>)
        ensures
            final(out)@.len() == old(out)@.len(),
            fits(old(self).bytes(), old(self).position(), old(out)@.len()) ==> r == Ok::<
                (),
                CodecError,
            >(()) && final(out)@ == slice_at(
                old(self).bytes(),
                old(self).position(),
                old(out)@.len(),
            ) && final(self).advanced(old(self), old(out)@.len()),
            !fits(old(self).bytes(), old(self).position(), old(out)@.len()) ==> r == Err::<
                (),
                CodecError,
            >(CodecError::UnexpectedEof) && final(out)@ == old(out)@ && final(self).advanced(
                old(self),
                0,
            ),
    {
        let n: usize = out.len();
        match self.take(n) {
            None => Err(CodecError::UnexpectedEof),
            Some(s) => {
                let mut i: usize = 0;
                while i < n
                    invariant
                        i <= n,
                        out@.len() == n,
                        s@.len() == n,
                        forall|j: int| 0 <= j < i ==> out@[j] == s@[j],
                    decreases n - i,
                {
                    out[i] = s[i];
                    i += 1;
                }
                assert(out@ =~= s@);
                Ok(())
            },
        }
    }

    pub fn read_u8(&mut self) -> (r: Result<u8, CodecError>)
        ensures
            fits(old(self).bytes(), old(self).position(), 1) ==> r == Ok::<u8, CodecError>(
                old(self).bytes()[old(self).position() as int],
            ) && final(self).advanced(old(self), 1),
            !fits(old(self).bytes(), old(self).position(), 1) ==> r == Err::<u8, CodecError>(
                CodecError::UnexpectedEof,
            ) && final(self).advanced(old(self), 0),
    {
        match self.take(1) {
            None => Err(CodecError::UnexpectedEof),
            Some(s) => Ok(s[0]),
        }
    }

    /// An unsigned number of `n` bytes in byte order `e`.
    fn read_uint(&mut self, n: usize, e: Endian) -> (r: Result<u64, CodecError>)
        requires
            1 <= n <= 8,
        ensures
            fits(old(self).bytes(), old(self).position(), n as nat) ==> r == Ok::<u64, CodecError>(
                uint_at(old(self).bytes(), old(self).position(), n as nat, e) as u64,
            ) && uint_at(old(self).bytes(), old(self).position(), n as nat, e) <= u64::MAX
                && final(self).advanced(old(self), n as nat),
            !fits(old(self).bytes(), old(self).position(), n as nat) ==> r == Err::<u64, CodecError>(
                CodecError::UnexpectedEof,
            ) && final(self).advanced(old(self), 0),
    {
        match self.take(n) {
            None => Err(CodecError::UnexpectedEof),
            Some(s) => {
                assert(s@.subrange(0, n as int) =~= s@);
                match e {
                    Endian::Big => Ok(read_uint_be(s, n)),
                    Endian::Little => Ok(read_uint_le(s, n)),
                }
            },
        }
    }

    pub fn read_u16(&mut self, n: Endian) -> (r: Result<u16, CodecError>)
        ensures
            fits(old(self).bytes(), old(self).position(), 2) ==> r == Ok::<u16, CodecError>(
                uint_at(old(self).bytes(), old(self).position(), 2, n) as u16,
            ) && final(self).advanced(old(self), 2),
            !fits(old(self).bytes(), old(self).position(), 2) ==> r == Err::<u16, CodecError>(
                CodecError::UnexpectedEof,
            ) && final(self).advanced(old(self), 0),
    {
        proof {
            lemma_uint_at_bound(self.bytes(), self.position(), 2, n);
        }
        match self.read_uint(2, n) {
            Ok(v) => Ok(v as u16),
            Err(e) => Err(e),
        }
    }

    /// A 24-bit number, in the low bits of the result.
    pub fn read_u24(&mut self, n: Endian) -> (r: Result<u32, CodecError>)
        ensures
            fits(old(self).bytes(), old(self).position(), 3) ==> r == Ok::<u32, CodecError>(
                uint_at(old(self).bytes(), old(self).position(), 3, n) as u32,
            ) && uint_at(old(self).bytes(), old(self).position(), 3, n) < 0x100_0000
                && final(self).advanced(old(self), 3),
            !fits(old(self).bytes(), old(self).position(), 3) ==> r == Err::<u32, CodecError>(
                CodecError::UnexpectedEof,
            ) && final(self).advanced(old(self), 0),
    {
        proof {
            lemma_uint_at_bound(self.bytes(), self.position(), 3, n);
        }
        match self.read_uint(3, n) {
            Ok(v) => Ok(v as u32),
            Err(e) => Err(e),
        }
    }

    pub fn read_u32(&mut self, n: Endian) -> (r: Result<u32, CodecError>)
        ensures
            fits(old(self).bytes(), old(self).position(), 4) ==> r == Ok::<u32, CodecError>(
                uint_at(old(self).bytes(), old(self).position(), 4, n) as u32,
            ) && final(self).advanced(old(self), 4),
            !fits(old(self).bytes(), old(self).position(), 4) ==> r == Err::<u32, CodecError>(
                CodecError::UnexpectedEof,
            ) && final(self).advanced(old(self), 0),
    {
        proof {
            lemma_uint_at_bound(self.bytes(), self.position(), 4, n);
        }
        match self.read_uint(4, n) {
            Ok(v) => Ok(v as u32),
            Err(e) => Err(e),
        }
    }

    pub fn read_u64(&mut self, n: Endian) -> (r: Result<u64, CodecError>)
        ensures
            fits(old(self).bytes(), old(self).position(), 8) ==> r == Ok::<u64, CodecError>(
                uint_at(old(self).bytes(), old(self).position(), 8, n) as u64,
            ) && final(self).advanced(old(self), 8),
            !fits(old(self).bytes(), old(self).position(), 8) ==> r == Err::<u64, CodecError>(
                CodecError::UnexpectedEof,
            ) && final(self).advanced(old(self), 0),
    {
        self.read_uint(8, n)
    }

    /// A signed number in two's complement.
    pub fn read_i64(&mut self, n: Endian) -> (r: Result<i64, CodecError>)
        ensures
            fits(old(self).bytes(), old(self).position(), 8) ==> r == Ok::<i64, CodecError>(
                i64_of_bits(uint_at(old(self).bytes(), old(self).position(), 8, n)),
            ) && final(self).advanced(old(self), 8),
            !fits(old(self).bytes(), old(self).position(), 8) ==> r == Err::<i64, CodecError>(
                CodecError::UnexpectedEof,
            ) && final(self).advanced(old(self), 0),
    {
        match self.read_uint(8, n) {
            Ok(v) => {
                if v < 0x8000_0000_0000_0000 {
                    Ok(v as i64)
                } else {
                    Ok((v - 0x8000_0000_0000_0000) as i64 + i64::MIN)
                }
            },
            Err(e) => Err(e),
        }
    }

    /// A string with its 16-bit length in front.
    pub fn read_string(&mut self) -> (r: Result<String, CodecError>)
        ensures
            match r {
                Ok(s) => string_at(old(self).bytes(), old(self).position()) matches Ok(found)
                    && encode_utf8(s@) == found.0 && final(self).advanced(
                    old(self),
                    found.1,
                ),
                Err(e) => string_at(old(self).bytes(), old(self).position()) == Err::<
                    (Seq<u8>, nat),
                    CodecError,
                >(e) && final(self).advanced(old(self), 0),
            },
    {
        let start: u64 = self.pos;
        proof {
            lemma_uint_at_bound(self.bytes(), self.position(), 2, Endian::Big);
        }
        let len: usize = match self.read_uint(2, Endian::Big) {
            Ok(v) => v as usize,
            Err(e) => {
                return Err(e);
            },
        };
        let body: &[u8] = match self.take(len) {
            Some(s) => s,
            None => {
                self.pos = start;
                return Err(CodecError::UnexpectedEof);
            },
        };
        match utf8_str(body) {
            Some(s) => Ok(s.to_owned()),
            None => {
                self.pos = start;
                Err(CodecError::InvalidString)
            },
        }
    }

    /// Whether the next sixteen bytes are the offline marker.
    pub fn read_magic(&mut self) -> (r: Result<bool, CodecError>)
        ensures
            fits(old(self).bytes(), old(self).position(), 16) ==> r == Ok::<bool, CodecError>(
                slice_at(old(self).bytes(), old(self).position(), 16) == magic(),
            ) && final(self).advanced(old(self), 16),
            !fits(old(self).bytes(), old(self).position(), 16) ==> r == Err::<bool, CodecError>(
                CodecError::UnexpectedEof,
            ) && final(self).advanced(old(self), 0),
    {
        match self.take(16) {
            None => Err(CodecError::UnexpectedEof),
            Some(s) => {
                let mut same: bool = true;
                let mut i: usize = 0;
                while i < 16
                    invariant
                        i <= 16,
                        s@.len() == 16,
                        same <==> forall|j: int| 0 <= j < i ==> s@[j] == magic()[j],
                    decreases 16 - i,
                {
                    if s[i] != MAGIC[i] {
                        same = false;
                    }
                    i += 1;
                }
                assert(same <==> s@ =~= magic());
                Ok(same)
            },
        }
    }

    pub fn read_address(&mut self) -> (r: Result<Address, CodecError>)
        ensures
            match r {
                Ok(a) => address_at(old(self).bytes(), old(self).position()) matches Ok(found)
                    && a == found.0 && final(self).advanced(old(self), found.1),
                Err(e) => address_at(old(self).bytes(), old(self).position()) == Err::<
                    (Address, nat),
                    CodecError,
                >(e) && final(self).advanced(old(self), 0),
            },
    {
        let start: u64 = self.pos;
        let ghost bytes = self.bytes();
        let ghost pos = self.position();
        proof {
            lemma_pow256_values();
            lemma_be_value_bound(slice_at(bytes, pos + 1, 4));
            lemma_be_value_bound(slice_at(bytes, pos + 5, 2));
            lemma_be_value_bound(slice_at(bytes, pos + 3, 2));
            lemma_be_value_bound(slice_at(bytes, pos + 9, 8));
            lemma_be_value_bound(slice_at(bytes, pos + 17, 8));
        }
        let version: u8 = match self.read_u8() {
            Ok(v) => v,
            Err(e) => {
                return Err(e);
            },
        };
        if version == 4 {
            let head: &[u8] = match self.take(6) {
                Some(s) => s,
                None => {
                    self.pos = start;
                    return Err(CodecError::UnexpectedEof);
                },
            };
            assert(head@.subrange(0, 4) =~= slice_at(bytes, pos + 1, 4));
            assert(head@.subrange(4, 6).subrange(0, 2) =~= slice_at(bytes, pos + 5, 2));
            let flipped: u64 = read_uint_be(head, 4);
            let port: u64 = read_uint_be(&head[4..6], 2);
            Ok(Address::V4 { ip: (0xffff_ffff - flipped) as u32, port: port as u16 })
        } else if version == 6 {
            let head: &[u8] = match self.take(28) {
                Some(s) => s,
                None => {
                    self.pos = start;
                    return Err(CodecError::UnexpectedEof);
                },
            };
            assert(head@.subrange(2, 4).subrange(0, 2) =~= slice_at(bytes, pos + 3, 2));
            assert(head@.subrange(8, 16).subrange(0, 8) =~= slice_at(bytes, pos + 9, 8));
            assert(head@.subrange(16, 24).subrange(0, 8) =~= slice_at(bytes, pos + 17, 8));
            let port: u64 = read_uint_be(&head[2..4], 2);
            let high: u64 = read_uint_be(&head[8..16], 8);
            let low: u64 = read_uint_be(&head[16..24], 8);
            Ok(
                Address::V6 {
                    ip: high as u128 * 0x1_0000_0000_0000_0000 + low as u128,
                    port: port as u16,
                },
            )
        } else {
            self.pos = start;
            Err(CodecError::UnknownAddressVersion(version))
        }
    }

    /// Moves the position `n` bytes on without reading. The position stops
    /// at the greatest there is.
    pub fn next(&mut self, n: u64)
        ensures
            final(self).bytes() == old(self).bytes(),
            final(self).position() == if old(self).position() + n <= u64::MAX {
                old(self).position() + n
            } else {
                u64::MAX as int
            },
    {
        if n > u64::MAX - self.pos {
            self.pos = u64::MAX;
        } else {
            self.pos = self.pos + n;
        }
    }

    /// Puts the position `pos` bytes from the start of the buffer.
    pub fn seek(&mut self, pos: u64)
        ensures
            final(self).bytes() == old(self).bytes(),
            final(self).position() == pos,
    {
        self.pos = pos;
    }

    pub fn pos(&self) -> (r: u64)
        ensures
            r == self.position(),
    {
        self.pos
    }
}

/// A field of `n` bytes spells a number below 256 to the `n`.
pub proof fn lemma_uint_at_bound(bytes: Seq<u8>, pos: nat, n: nat, e: Endian)
    ensures
        fits(bytes, pos, n) ==> uint_at(bytes, pos, n, e) < pow256(n),
        pow256(2) == 0x1_0000,
        pow256(3) == 0x100_0000,
        pow256(4) == 0x1_0000_0000,
        pow256(8) == 0x1_0000_0000_0000_0000,
{
    lemma_be_value_bound(slice_at(bytes, pos, n));
    lemma_le_value_bound(slice_at(bytes, pos, n));
    lemma_pow256_values();
}

} // verus!
