//! A cursor that writes integers, strings and addresses into a byte buffer.

use crate::address::Address;
use crate::bytes::{
    append_bytes, be_bytes, le_bytes, lemma_pow256_values, magic, pow256, write_uint_be,
    write_uint_le, MAGIC,
};
use crate::error::CodecError;
use crate::reader::{address_at, fits, i64_of_bits, slice_at, string_at, uint_at, Endian};
use vstd::prelude::*;
use vstd::utf8::encode_utf8;

verus! {

/// The `len` low bytes of `n` in byte order `e`.
pub open spec fn uint_bytes(n: nat, len: nat, e: Endian) -> Seq<u8> {
    match e {
        Endian::Big => be_bytes(n, len),
        Endian::Little => le_bytes(n, len),
    }
}

/// The two's complement pattern of `v` as an unsigned number.
pub open spec fn i64_bits(v: i64) -> nat {
    if v >= 0 {
        v as nat
    } else {
        (v + 0x1_0000_0000_0000_0000) as nat
    }
}

/// A string on the wire: the count of its bytes, big-endian in two bytes, then
/// the bytes.
pub open spec fn string_wire(body: Seq<u8>) -> Seq<u8> {
    be_bytes(body.len(), 2) + body
}

/// An address on the wire. Version 4: the byte 4, the four octets, each taken
/// from 255, and the port, big-endian. Version 6: the byte 6, the family 23
/// little-endian, the port big-endian, four zero bytes, the sixteen octets and
/// four zero bytes.
pub open spec fn address_wire(a: Address) -> Seq<u8> {
    match a {
        Address::V4 { ip, port } => seq![4u8] + be_bytes((0xffff_ffff - ip) as nat, 4) + be_bytes(
            port as nat,
            2,
        ),
        Address::V6 { ip, port } => seq![6u8] + le_bytes(23, 2) + be_bytes(port as nat, 2)
            + be_bytes(0, 4) + be_bytes((ip / 0x1_0000_0000_0000_0000) as nat, 8) + be_bytes(
            (ip % 0x1_0000_0000_0000_0000) as nat,
            8,
        ) + be_bytes(0, 4),
    }
}

/// Puts `v`, in `len` bytes, behind the bytes of `out`.
pub(crate) fn put_uint(out: &mut Vec<u8>, v: u64, len: usize, n: Endian)
    requires
        1 <= len <= 8,
        (v as nat) < pow256(len as nat),
    ensures
        final(out)@ == old(out)@ + uint_bytes(v as nat, len as nat, n),
{
    let bytes: Vec<u8> = match n {
        Endian::Big => write_uint_be(v, len),
        Endian::Little => write_uint_le(v, len),
    };
    append_bytes(out, bytes.as_slice());
}

/// A write position in an owned buffer. Writing starts at the front of the
/// buffer it was made with: bytes written replace what stood there and then
/// lengthen the buffer.
pub struct Writer {
    written: Vec<u8>,
    rest: Vec<u8>,
}

impl Writer {
    /// Everything written so far.
    pub closed spec fn written(&self) -> Seq<u8> {
        self.written@
    }

    /// What is left of the buffer the writer was made with, behind the write
    /// position.
    pub closed spec fn rest(&self) -> Seq<u8> {
        self.rest@
    }

    /// The whole buffer.
    pub open spec fn payload(&self) -> Seq<u8> {
        self.written() + self.rest()
    }

    /// `bytes` were written at the position of `before`.
    pub open spec fn wrote(&self, before: &Self, bytes: Seq<u8>) -> bool {
        &&& self.written() == before.written() + bytes
        &&& self.rest() == if bytes.len() <= before.rest().len() {
            before.rest().skip(bytes.len() as int)
        } else {
            Seq::<u8>::empty()
        }
    }

    pub fn new(buf: Vec<u8>) -> (r: Self)
        ensures
            r.written() == Seq::<u8>::empty(),
            r.rest() == buf@,
    {
        Writer { written: Vec::new(), rest: buf }
    }

    pub fn write(&mut self, v: &[u8]) -> (r: Result<(), CodecError>)
        ensures
            r == Ok::<(), CodecError>(()),
            final(self).wrote(old(self), v@),
    {
        append_bytes(&mut self.written, v);
        let covered: usize = self.rest.len();
        if covered > 0 {
            if v.len() <= covered {
                let tail: Vec<u8> = self.rest.split_off(v.len());
                self.rest = tail;
            } else {
                self.rest = Vec::new();
            }
        }
        assert(final(self).rest() =~= if v@.len() <= old(self).rest().len() {
            old(self).rest().skip(v@.len() as int)
        } else {
            Seq::<u8>::empty()
        });
        Ok(())
    }

    pub fn write_u8(&mut self, v: u8) -> (r: Result<(), CodecError>)
        ensures
            r == Ok::<(), CodecError>(()),
            final(self).wrote(old(self), seq![v]),
    {
        let one: Vec<u8> = vec![v];
        assert(one@ =~= seq![v]);
        self.write(one.as_slice())
    }

    /// Writes `v` in `len` bytes.
    fn write_uint(&mut self, v: u64, len: usize, n: Endian)
        requires
            1 <= len <= 8,
            (v as nat) < pow256(len as nat),
        ensures
            final(self).wrote(old(self), uint_bytes(v as nat, len as nat, n)),
    {
        let mut bytes: Vec<u8> = Vec::new();
        put_uint(&mut bytes, v, len, n);
        assert(bytes@ =~= uint_bytes(v as nat, len as nat, n));
        let _ = self.write(bytes.as_slice());
    }

    pub fn write_u16(&mut self, v: u16, n: Endian) -> (r: Result<(), CodecError>)
        ensures
            r == Ok::<(), CodecError>(()),
            final(self).wrote(old(self), uint_bytes(v as nat, 2, n)),
    {
        proof {
            lemma_pow256_values();
        }
        self.write_uint(v as u64, 2, n);
        Ok(())
    }

    pub fn write_u32(&mut self, v: u32, n: Endian) -> (r: Result<(), CodecError>)
        ensures
            r == Ok::<(), CodecError>(()),
            final(self).wrote(old(self), uint_bytes(v as nat, 4, n)),
    {
        proof {
            lemma_pow256_values();
        }
        self.write_uint(v as u64, 4, n);
        Ok(())
    }

    /// Writes the low 24 bits of `v`, and nothing where `v` has more.
    pub fn write_u24(&mut self, v: u32, n: Endian) -> (r: Result<(), CodecError>)
        ensures
            v < 0x100_0000 ==> r == Ok::<(), CodecError>(()) && final(self).wrote(
                old(self),
                uint_bytes(v as nat, 3, n),
            ),
            v >= 0x100_0000 ==> r == Err::<(), CodecError>(CodecError::OutOfRange)
                && final(self).wrote(old(self), Seq::<u8>::empty()),
    {
        proof {
            lemma_pow256_values();
        }
        if v >= 0x100_0000 {
            assert(old(self).rest().skip(0) =~= old(self).rest());
            assert(old(self).written() + Seq::<u8>::empty() =~= old(self).written());
            return Err(CodecError::OutOfRange);
        }
        self.write_uint(v as u64, 3, n);
        Ok(())
    }

    pub fn write_u64(&mut self, v: u64, n: Endian) -> (r: Result<(), CodecError>)
        ensures
            r == Ok::<(), CodecError>(()),
            final(self).wrote(old(self), uint_bytes(v as nat, 8, n)),
    {
        proof {
            lemma_pow256_values();
        }
        self.write_uint(v, 8, n);
        Ok(())
    }

    /// Writes `v` in two's complement.
    pub fn write_i64(&mut self, v: i64, n: Endian) -> (r: Result<(), CodecError>)
        ensures
            r == Ok::<(), CodecError>(()),
            final(self).wrote(old(self), uint_bytes(i64_bits(v), 8, n)),
    {
        proof {
            lemma_pow256_values();
        }
        let bits: u64 = if v >= 0 {
            v as u64
        } else {
            (v - i64::MIN) as u64 + 0x8000_0000_0000_0000
        };
        self.write_uint(bits, 8, n);
        Ok(())
    }

    /// Writes a string with its 16-bit length in front, and nothing where the
    /// string has more than 65535 bytes.
    pub fn write_string(&mut self, body: &str) -> (r: Result<(), CodecError>)
        ensures
            encode_utf8(body@).len() <= 0xffff ==> r == Ok::<(), CodecError>(())
                && final(self).wrote(old(self), string_wire(encode_utf8(body@))),
            encode_utf8(body@).len() > 0xffff ==> r == Err::<(), CodecError>(
                CodecError::OutOfRange,
            ) && final(self).wrote(old(self), Seq::<u8>::empty()),
    {
        let raw: &[u8] = body.as_bytes();
        if raw.len() > 0xffff {
            assert(old(self).rest().skip(0) =~= old(self).rest());
            assert(old(self).written() + Seq::<u8>::empty() =~= old(self).written());
            return Err(CodecError::OutOfRange);
        }
        proof {
            lemma_pow256_values();
        }
        let ghost before = *self;
        self.write_uint(raw.len() as u64, 2, Endian::Big);
        let ghost middle = *self;
        let _ = self.write(raw);
        proof {
            lemma_wrote_twice(&before, &middle, final(self), be_bytes(raw@.len(), 2), raw@);
        }
        Ok(())
    }

    pub fn write_address(&mut self, address: Address) -> (r: Result<(), CodecError>)
        ensures
            r == Ok::<(), CodecError>(()),
            final(self).wrote(old(self), address_wire(address)),
    {
        proof {
            lemma_pow256_values();
        }
        let mut bytes: Vec<u8> = Vec::new();
        match address {
            Address::V4 { ip, port } => {
                bytes.push(4);
                put_uint(&mut bytes, (0xffff_ffff - ip) as u64, 4, Endian::Big);
                put_uint(&mut bytes, port as u64, 2, Endian::Big);
            },
            Address::V6 { ip, port } => {
                bytes.push(6);
                put_uint(&mut bytes, 23, 2, Endian::Little);
                put_uint(&mut bytes, port as u64, 2, Endian::Big);
                put_uint(&mut bytes, 0, 4, Endian::Big);
                put_uint(&mut bytes, (ip / 0x1_0000_0000_0000_0000) as u64, 8, Endian::Big);
                put_uint(&mut bytes, (ip % 0x1_0000_0000_0000_0000) as u64, 8, Endian::Big);
                put_uint(&mut bytes, 0, 4, Endian::Big);
            },
        }
        assert(bytes@ =~= address_wire(address));
        self.write(bytes.as_slice())
    }

    /// Writes the offline marker and says how many bytes that took.
    pub fn write_magic(&mut self) -> (r: Result<usize, CodecError>)
        ensures
            r == Ok::<usize, CodecError>(16),
            final(self).wrote(old(self), magic()),
    {
        let _ = self.write(MAGIC.as_slice());
        Ok(16)
    }

    pub fn get_raw_payload(self) -> (r: Vec<u8>)
        ensures
            r@ == self.payload(),
    {
        let mut out: Vec<u8> = self.written;
        append_bytes(&mut out, self.rest.as_slice());
        out
    }

    pub fn pos(&self) -> (r: u64)
        ensures
            r == self.written().len(),
    {
        self.written.len() as u64
    }
}

/// The part `x` of `before + x + after` stands where `before` ends.
pub proof fn lemma_slice_mid(before: Seq<u8>, x: Seq<u8>, after: Seq<u8>)
    ensures
        fits(before + x + after, before.len(), x.len()),
        slice_at(before + x + after, before.len(), x.len()) == x,
{
    assert(slice_at(before + x + after, before.len(), x.len()) =~= x);
}

/// Where the four parts of `a + b + c + d` stand.
pub proof fn lemma_concat4(a: Seq<u8>, b: Seq<u8>, c: Seq<u8>, d: Seq<u8>)
    ensures
        (a + b + c + d).len() == a.len() + b.len() + c.len() + d.len(),
        slice_at(a + b + c + d, 0, a.len()) == a,
        slice_at(a + b + c + d, a.len(), b.len()) == b,
        slice_at(a + b + c + d, a.len() + b.len(), c.len()) == c,
        slice_at(a + b + c + d, a.len() + b.len() + c.len(), d.len()) == d,
{
    let s = a + b + c + d;
    assert(slice_at(s, 0, a.len()) =~= a);
    assert(slice_at(s, a.len(), b.len()) =~= b);
    assert(slice_at(s, a.len() + b.len(), c.len()) =~= c);
    assert(slice_at(s, a.len() + b.len() + c.len(), d.len()) =~= d);
}

/// Where the five parts of `a + b + c + d + e` stand.
pub proof fn lemma_concat5(a: Seq<u8>, b: Seq<u8>, c: Seq<u8>, d: Seq<u8>, e: Seq<u8>)
    ensures
        (a + b + c + d + e).len() == a.len() + b.len() + c.len() + d.len() + e.len(),
        slice_at(a + b + c + d + e, 0, a.len()) == a,
        slice_at(a + b + c + d + e, a.len(), b.len()) == b,
        slice_at(a + b + c + d + e, a.len() + b.len(), c.len()) == c,
        slice_at(a + b + c + d + e, a.len() + b.len() + c.len(), d.len()) == d,
        slice_at(a + b + c + d + e, a.len() + b.len() + c.len() + d.len(), e.len()) == e,
{
    let s = a + b + c + d + e;
    assert(slice_at(s, 0, a.len()) =~= a);
    assert(slice_at(s, a.len(), b.len()) =~= b);
    assert(slice_at(s, a.len() + b.len(), c.len()) =~= c);
    assert(slice_at(s, a.len() + b.len() + c.len(), d.len()) =~= d);
    assert(slice_at(s, a.len() + b.len() + c.len() + d.len(), e.len()) =~= e);
}

/// A slice of a slice is a slice of the whole.
pub proof fn lemma_slice_slice(s: Seq<u8>, i: nat, n: nat, j: nat, m: nat)
    requires
        fits(s, i, n),
        j + m <= n,
    ensures
        slice_at(slice_at(s, i, n), j, m) == slice_at(s, i + j, m),
        fits(s, i + j, m),
{
    assert(slice_at(slice_at(s, i, n), j, m) =~= slice_at(s, i + j, m));
}

/// A number written in `len` bytes takes `len` bytes.
pub proof fn lemma_uint_bytes_len(n: nat, len: nat, e: Endian)
    ensures
        uint_bytes(n, len, e).len() == len,
{
    crate::bytes::lemma_be_bytes_len(n, len);
    crate::bytes::lemma_le_bytes_len(n, len);
}

/// Where the eight bytes at `pos` are those of `v`, they spell `v`.
pub proof fn lemma_i64_field(bytes: Seq<u8>, pos: nat, v: i64, e: Endian)
    requires
        slice_at(bytes, pos, 8) == uint_bytes(i64_bits(v), 8, e),
    ensures
        fits(bytes, pos, 8) ==> i64_of_bits(uint_at(bytes, pos, 8, e)) == v,
{
    lemma_pow256_values();
    crate::bytes::lemma_be_value_of_bytes(i64_bits(v), 8);
    crate::bytes::lemma_le_value_of_bytes(i64_bits(v), 8);
}

/// How many bytes an address takes on the wire.
pub open spec fn address_len(a: Address) -> nat {
    match a {
        Address::V4 { .. } => 7,
        Address::V6 { .. } => 29,
    }
}

/// The parts of a version 6 address behind the port.
proof fn lemma_address_tail(ip: u128)
    ensures
        ({
            let high = be_bytes((ip / 0x1_0000_0000_0000_0000) as nat, 8);
            let low = be_bytes((ip % 0x1_0000_0000_0000_0000) as nat, 8);
            let tail = be_bytes(0, 4) + high + low + be_bytes(0, 4);
            &&& tail.len() == 24
            &&& slice_at(tail, 4, 8) == high
            &&& slice_at(tail, 12, 8) == low
        }),
{
    let high = be_bytes((ip / 0x1_0000_0000_0000_0000) as nat, 8);
    let low = be_bytes((ip % 0x1_0000_0000_0000_0000) as nat, 8);
    crate::bytes::lemma_be_bytes_len(0, 4);
    crate::bytes::lemma_be_bytes_len((ip / 0x1_0000_0000_0000_0000) as nat, 8);
    crate::bytes::lemma_be_bytes_len((ip % 0x1_0000_0000_0000_0000) as nat, 8);
    lemma_concat4(be_bytes(0, 4), high, low, be_bytes(0, 4));
}

/// An address takes on the wire as many bytes as `address_len` says.
pub proof fn lemma_address_len(a: Address)
    ensures
        address_wire(a).len() == address_len(a),
{
    match a {
        Address::V4 { ip, port } => {
            crate::bytes::lemma_be_bytes_len((0xffff_ffff - ip) as nat, 4);
            crate::bytes::lemma_be_bytes_len(port as nat, 2);
        },
        Address::V6 { ip, port } => {
            crate::bytes::lemma_le_bytes_len(23, 2);
            crate::bytes::lemma_be_bytes_len(port as nat, 2);
            lemma_address_tail(ip);
            assert(address_wire(a) =~= seq![6u8] + le_bytes(23, 2) + be_bytes(port as nat, 2) + (
            be_bytes(0, 4) + be_bytes((ip / 0x1_0000_0000_0000_0000) as nat, 8) + be_bytes(
                (ip % 0x1_0000_0000_0000_0000) as nat,
                8,
            ) + be_bytes(0, 4)));
        },
    }
}

/// Where the bytes at `pos` are those of an address, they spell the address.
pub proof fn lemma_address_field(bytes: Seq<u8>, pos: nat, a: Address)
    requires
        fits(bytes, pos, address_len(a)),
        slice_at(bytes, pos, address_len(a)) == address_wire(a),
    ensures
        address_wire(a).len() == address_len(a),
        address_at(bytes, pos) == Ok::<(Address, nat), CodecError>((a, address_len(a))),
{
    lemma_pow256_values();
    let w = address_wire(a);
    match a {
        Address::V4 { ip, port } => {
            let flipped = be_bytes((0xffff_ffff - ip) as nat, 4);
            let port_bytes = be_bytes(port as nat, 2);
            crate::bytes::lemma_be_bytes_len((0xffff_ffff - ip) as nat, 4);
            crate::bytes::lemma_be_bytes_len(port as nat, 2);
            crate::bytes::lemma_be_value_of_bytes((0xffff_ffff - ip) as nat, 4);
            crate::bytes::lemma_be_value_of_bytes(port as nat, 2);
            lemma_concat4(seq![4u8], flipped, port_bytes, Seq::<u8>::empty());
            assert(w =~= seq![4u8] + flipped + port_bytes + Seq::<u8>::empty());
            lemma_slice_slice(bytes, pos, 7, 0, 1);
            lemma_slice_slice(bytes, pos, 7, 1, 4);
            lemma_slice_slice(bytes, pos, 7, 5, 2);
            assert(slice_at(bytes, pos, 1)[0] == bytes[pos as int]);
            assert(slice_at(w, 0, 1)[0] == 4u8);
        },
        Address::V6 { ip, port } => {
            let family = le_bytes(23, 2);
            let port_bytes = be_bytes(port as nat, 2);
            let high = be_bytes((ip / 0x1_0000_0000_0000_0000) as nat, 8);
            let low = be_bytes((ip % 0x1_0000_0000_0000_0000) as nat, 8);
            let tail = be_bytes(0, 4) + high + low + be_bytes(0, 4);
            crate::bytes::lemma_le_bytes_len(23, 2);
            crate::bytes::lemma_be_bytes_len(port as nat, 2);
            crate::bytes::lemma_be_value_of_bytes(port as nat, 2);
            crate::bytes::lemma_be_value_of_bytes((ip / 0x1_0000_0000_0000_0000) as nat, 8);
            crate::bytes::lemma_be_value_of_bytes((ip % 0x1_0000_0000_0000_0000) as nat, 8);
            lemma_address_tail(ip);
            lemma_concat4(seq![6u8], family, port_bytes, tail);
            assert(w =~= seq![6u8] + family + port_bytes + tail);
            lemma_slice_slice(bytes, pos, 29, 0, 1);
            lemma_slice_slice(bytes, pos, 29, 3, 2);
            lemma_slice_slice(bytes, pos, 29, 5, 24);
            lemma_slice_slice(bytes, pos + 5, 24, 4, 8);
            lemma_slice_slice(bytes, pos + 5, 24, 12, 8);
            assert(slice_at(bytes, pos, 1)[0] == bytes[pos as int]);
            assert(slice_at(w, 0, 1)[0] == 6u8);
        },
    }
}

/// Where the bytes at `pos` are those of a string, they spell the string.
pub proof fn lemma_string_field(bytes: Seq<u8>, pos: nat, chars: Seq<char>)
    requires
        encode_utf8(chars).len() <= 0xffff,
        fits(bytes, pos, 2 + encode_utf8(chars).len()),
        slice_at(bytes, pos, 2 + encode_utf8(chars).len()) == string_wire(encode_utf8(chars)),
    ensures
        string_wire(encode_utf8(chars)).len() == 2 + encode_utf8(chars).len(),
        string_at(bytes, pos) == Ok::<(Seq<u8>, nat), CodecError>(
            (encode_utf8(chars), 2 + encode_utf8(chars).len()),
        ),
{
    let body = encode_utf8(chars);
    let count = be_bytes(body.len(), 2);
    lemma_pow256_values();
    crate::bytes::lemma_be_bytes_len(body.len(), 2);
    crate::bytes::lemma_be_value_of_bytes(body.len(), 2);
    vstd::utf8::encode_utf8_valid_utf8(chars);
    lemma_concat4(count, body, Seq::<u8>::empty(), Seq::<u8>::empty());
    assert(string_wire(body) =~= count + body + Seq::<u8>::empty() + Seq::<u8>::empty());
    lemma_slice_slice(bytes, pos, 2 + body.len(), 0, 2);
    lemma_slice_slice(bytes, pos, 2 + body.len(), 2, body.len());
}

/// Two writes in a row are one write of both.
pub proof fn lemma_wrote_twice(a: &Writer, b: &Writer, c: &Writer, x: Seq<u8>, y: Seq<u8>)
    requires
        b.wrote(a, x),
        c.wrote(b, y),
    ensures
        c.wrote(a, x + y),
{
    assert(c.written() =~= a.written() + (x + y));
    assert(c.rest() =~= if (x + y).len() <= a.rest().len() {
        a.rest().skip((x + y).len() as int)
    } else {
        Seq::<u8>::empty()
    });
}

} // verus!
