use crate::bytes::{be_bytes, be_value, le_bytes, le_value, lemma_pow256_values};
use crate::error::CodecError;
use crate::packets::Reliability;
use crate::reader::{fits, lemma_uint_at_bound, slice_at, Endian, Reader};
use crate::writer::{lemma_concat4, lemma_slice_mid, lemma_slice_slice, put_uint, Writer};
use vstd::prelude::*;

verus! {

/// One message with the mode of its delivery.
#[derive(Debug)]
pub struct Frame {
    pub reliability: Reliability,
    pub message_index: u32,
    pub sequence_index: u32,
    pub order_index: u32,
    pub split: bool,
    pub split_count: u32,
    pub split_index: u32,
    pub split_id: u16,
    pub data: Vec<u8>,
}

/// A frame with its payload as a sequence.
pub ghost struct FrameView {
    pub reliability: Reliability,
    pub message_index: u32,
    pub sequence_index: u32,
    pub order_index: u32,
    pub split: bool,
    pub split_count: u32,
    pub split_index: u32,
    pub split_id: u16,
    pub data: Seq<u8>,
}

impl View for Frame {
    type V = FrameView;

    open spec fn view(&self) -> FrameView {
        FrameView {
            reliability: self.reliability,
            message_index: self.message_index,
            sequence_index: self.sequence_index,
            order_index: self.order_index,
            split: self.split,
            split_count: self.split_count,
            split_index: self.split_index,
            split_id: self.split_id,
            data: self.data@,
        }
    }
}

impl Clone for Frame {
    fn clone(&self) -> (r: Self)
        ensures
            r@ == self@,
    {
        Frame {
            reliability: self.reliability,
            message_index: self.message_index,
            sequence_index: self.sequence_index,
            order_index: self.order_index,
            split: self.split,
            split_count: self.split_count,
            split_index: self.split_index,
            split_id: self.split_id,
            data: self.data.clone(),
        }
    }
}

impl FrameView {
    /// The first byte of the frame: the mode in the three high bits, the
    /// split flag in the bit worth 16.
    pub open spec fn header(self) -> u8 {
        (self.reliability.spec_to_byte() * 32 + if self.split {
            16int
        } else {
            0int
        }) as u8
    }

    /// The message index, where the mode is reliable: three bytes, least
    /// significant first.
    pub open spec fn message_part(self) -> Seq<u8> {
        if self.reliability.spec_reliable() {
            le_bytes(self.message_index as nat, 3)
        } else {
            Seq::<u8>::empty()
        }
    }

    /// The sequence index, where the mode is sequenced.
    pub open spec fn sequence_part(self) -> Seq<u8> {
        if self.reliability.spec_sequenced() {
            le_bytes(self.sequence_index as nat, 3)
        } else {
            Seq::<u8>::empty()
        }
    }

    /// The order index and a zero byte for its channel, where the mode is
    /// sequenced or ordered.
    pub open spec fn order_part(self) -> Seq<u8> {
        if self.reliability.spec_sequenced_or_ordered() {
            le_bytes(self.order_index as nat, 3) + seq![0u8]
        } else {
            Seq::<u8>::empty()
        }
    }

    /// Count, id and index of a split, most significant byte first.
    pub open spec fn split_part(self) -> Seq<u8> {
        if self.split {
            be_bytes(self.split_count as nat, 4) + be_bytes(self.split_id as nat, 2) + be_bytes(
                self.split_index as nat,
                4,
            )
        } else {
            Seq::<u8>::empty()
        }
    }

    /// The bytes between the length field and the payload.
    pub open spec fn fields(self) -> Seq<u8> {
        self.message_part() + self.sequence_part() + self.order_part() + self.split_part()
    }

    /// The frame on the wire: header, the payload's length in bits in two
    /// bytes, the fields, the payload.
    pub open spec fn wire(self) -> Seq<u8> {
        seq![self.header()] + be_bytes(self.data.len() * 8, 2) + self.fields() + self.data
    }

    /// How many bytes the fields take.
    pub open spec fn fields_len(self) -> nat {
        ((if self.reliability.spec_reliable() {
            3int
        } else {
            0int
        }) + (if self.reliability.spec_sequenced() {
            3int
        } else {
            0int
        }) + (if self.reliability.spec_sequenced_or_ordered() {
            4int
        } else {
            0int
        }) + (if self.split {
            10int
        } else {
            0int
        })) as nat
    }

    /// How many bytes the frame takes on the wire.
    pub open spec fn length(self) -> nat {
        3 + self.fields_len() + self.data.len()
    }

    /// Every number that goes on the wire fits its field: the payload's
    /// length in bits fits 16 bits, each index that is written fits 24.
    pub open spec fn encodable(self) -> bool {
        &&& self.data.len() * 8 <= 0xffff
        &&& self.reliability.spec_reliable() ==> self.message_index < 0x100_0000
        &&& self.reliability.spec_sequenced() ==> self.sequence_index < 0x100_0000
        &&& self.reliability.spec_sequenced_or_ordered() ==> self.order_index < 0x100_0000
    }

    /// What the wire does not carry is zero.
    pub open spec fn canonical(self) -> bool {
        &&& !self.reliability.spec_reliable() ==> self.message_index == 0
        &&& !self.reliability.spec_sequenced() ==> self.sequence_index == 0
        &&& !self.reliability.spec_sequenced_or_ordered() ==> self.order_index == 0
        &&& !self.split ==> self.split_count == 0 && self.split_id == 0 && self.split_index == 0
    }
}

/// The frame that starts at `pos`, and how many bytes it takes.
pub open spec fn frame_at(bytes: Seq<u8>, pos: nat) -> Result<(FrameView, nat), CodecError> {
    if !fits(bytes, pos, 3) {
        Err(CodecError::UnexpectedEof)
    } else {
        let header = bytes[pos as int];
        let reliability = Reliability::of_byte(header / 32).unwrap();
        let split = (header / 16) % 2 == 1;
        let len = be_value(slice_at(bytes, pos + 1, 2)) / 8;
        let at_message = pos + 3;
        let at_sequence = at_message + if reliability.spec_reliable() {
            3nat
        } else {
            0nat
        };
        let at_order = at_sequence + if reliability.spec_sequenced() {
            3nat
        } else {
            0nat
        };
        let at_split = at_order + if reliability.spec_sequenced_or_ordered() {
            4nat
        } else {
            0nat
        };
        let at_data = at_split + if split {
            10nat
        } else {
            0nat
        };
        if !fits(bytes, at_data, len) {
            Err(CodecError::UnexpectedEof)
        } else {
            Ok(
                (
                    FrameView {
                        reliability,
                        message_index: if reliability.spec_reliable() {
                            le_value(slice_at(bytes, at_message, 3)) as u32
                        } else {
                            0
                        },
                        sequence_index: if reliability.spec_sequenced() {
                            le_value(slice_at(bytes, at_sequence, 3)) as u32
                        } else {
                            0
                        },
                        order_index: if reliability.spec_sequenced_or_ordered() {
                            le_value(slice_at(bytes, at_order, 3)) as u32
                        } else {
                            0
                        },
                        split,
                        split_count: if split {
                            be_value(slice_at(bytes, at_split, 4)) as u32
                        } else {
                            0
                        },
                        split_id: if split {
                            be_value(slice_at(bytes, at_split + 4, 2)) as u16
                        } else {
                            0
                        },
                        split_index: if split {
                            be_value(slice_at(bytes, at_split + 6, 4)) as u32
                        } else {
                            0
                        },
                        data: slice_at(bytes, at_data, len),
                    },
                    (at_data + len - pos) as nat,
                ),
            )
        }
    }
}

impl Frame {
    /// An unsplit frame with every index zero.
    pub fn new(reliability: Reliability, data: &[u8]) -> (r: Self)
        ensures
            r@ == (FrameView {
                reliability,
                message_index: 0,
                sequence_index: 0,
                order_index: 0,
                split: false,
                split_count: 0,
                split_index: 0,
                split_id: 0,
                data: data@,
            }),
    {
        let mut copy: Vec<u8> = Vec::new();
        crate::bytes::append_bytes(&mut copy, data);
        assert(copy@ =~= data@);
        Self {
            reliability,
            message_index: 0,
            sequence_index: 0,
            order_index: 0,
            split: false,
            split_count: 0,
            split_index: 0,
            split_id: 0,
            data: copy,
        }
    }

    /// How many bytes the frame takes on the wire; the greatest number
    /// there is where the bytes are more than numbers count.
    pub fn length(&self) -> (r: usize)
        ensures
            r == if self@.length() <= usize::MAX {
                self@.length()
            } else {
                usize::MAX as nat
            },
            self@.length() == self@.wire().len(),
    {
        proof {
            lemma_frame_wire_len(self@);
        }
        let mut ret: usize = 0;
        ret += 1;
        ret += 2;
        if self.reliability.reliable() {
            ret += 3;
        }
        if self.reliability.sequenced() {
            ret += 3;
        }
        if self.reliability.sequenced_or_ordered() {
            ret += 4;
        }
        if self.split {
            ret += 10;
        }
        if self.data.len() > usize::MAX - ret {
            usize::MAX
        } else {
            ret + self.data.len()
        }
    }

    /// Reads one frame at the cursor. A buffer that ends inside the frame
    /// gives an error and leaves the cursor where it was.
    pub fn decode(cursor: &mut Reader<'_>) -> (r: Result<Self, CodecError>)
        ensures
            match r {
                Ok(f) => frame_at(old(cursor).bytes(), old(cursor).position()) matches Ok(found)
                    && f@ == found.0 && final(cursor).advanced(old(cursor), found.1),
                Err(e) => frame_at(old(cursor).bytes(), old(cursor).position()) == Err::<
                    (FrameView, nat),
                    CodecError,
                >(e) && final(cursor).advanced(old(cursor), 0),
            },
    {
        let start: u64 = cursor.pos();
        let ghost bytes = cursor.bytes();
        let ghost pos = cursor.position();
        proof {
            lemma_uint_at_bound(bytes, pos + 1, 2, Endian::Big);
        }
        let header: u8 = match cursor.read_u8() {
            Ok(v) => v,
            Err(e) => {
                return Err(e);
            },
        };
        let split: bool = (header / 16) % 2 == 1;
        let reliability: Reliability = match Reliability::new(header / 32) {
            Ok(v) => v,
            Err(e) => {
                cursor.seek(start);
                return Err(e);
            },
        };
        let len: usize = match cursor.read_u16(Endian::Big) {
            Ok(v) => (v / 8) as usize,
            Err(e) => {
                cursor.seek(start);
                return Err(e);
            },
        };
        let mut message_index: u32 = 0;
        let mut sequence_index: u32 = 0;
        let mut order_index: u32 = 0;
        let mut split_count: u32 = 0;
        let mut split_id: u16 = 0;
        let mut split_index: u32 = 0;
        if reliability.reliable() {
            match cursor.read_u24(Endian::Little) {
                Ok(v) => {
                    message_index = v;
                },
                Err(e) => {
                    cursor.seek(start);
                    return Err(e);
                },
            }
        }
        if reliability.sequenced() {
            match cursor.read_u24(Endian::Little) {
                Ok(v) => {
                    sequence_index = v;
                },
                Err(e) => {
                    cursor.seek(start);
                    return Err(e);
                },
            }
        }
        if reliability.sequenced_or_ordered() {
            match cursor.read_u24(Endian::Little) {
                Ok(v) => {
                    order_index = v;
                },
                Err(e) => {
                    cursor.seek(start);
                    return Err(e);
                },
            }
            match cursor.read_u8() {
                Ok(_) => {},
                Err(e) => {
                    cursor.seek(start);
                    return Err(e);
                },
            }
        }
        if split {
            match cursor.read_u32(Endian::Big) {
                Ok(v) => {
                    split_count = v;
                },
                Err(e) => {
                    cursor.seek(start);
                    return Err(e);
                },
            }
            match cursor.read_u16(Endian::Big) {
                Ok(v) => {
                    split_id = v;
                },
                Err(e) => {
                    cursor.seek(start);
                    return Err(e);
                },
            }
            match cursor.read_u32(Endian::Big) {
                Ok(v) => {
                    split_index = v;
                },
                Err(e) => {
                    cursor.seek(start);
                    return Err(e);
                },
            }
        }
        let mut data: Vec<u8> = vec![0u8; len];
        match cursor.read(data.as_mut_slice()) {
            Ok(_) => {},
            Err(e) => {
                cursor.seek(start);
                return Err(e);
            },
        }
        Ok(
            Self {
                reliability,
                message_index,
                sequence_index,
                order_index,
                split,
                split_count,
                split_index,
                split_id,
                data,
            },
        )
    }

    /// Puts the indices that the mode calls for behind the bytes of `out`.
    fn put_indices(&self, out: &mut Vec<u8>)
        requires
            self@.encodable(),
        ensures
            final(out)@ == old(out)@ + self@.message_part() + self@.sequence_part()
                + self@.order_part(),
    {
        proof {
            lemma_pow256_values();
        }
        if self.reliability.reliable() {
            put_uint(out, self.message_index as u64, 3, Endian::Little);
        }
        assert(out@ =~= old(out)@ + self@.message_part());
        if self.reliability.sequenced() {
            put_uint(out, self.sequence_index as u64, 3, Endian::Little);
        }
        assert(out@ =~= old(out)@ + self@.message_part() + self@.sequence_part());
        if self.reliability.sequenced_or_ordered() {
            put_uint(out, self.order_index as u64, 3, Endian::Little);
            out.push(0);
        }
        assert(out@ =~= old(out)@ + self@.message_part() + self@.sequence_part()
            + self@.order_part());
    }

    /// Puts the numbers of a split behind the bytes of `out`.
    fn put_split(&self, out: &mut Vec<u8>)
        ensures
            final(out)@ == old(out)@ + self@.split_part(),
    {
        proof {
            lemma_pow256_values();
        }
        if self.split {
            put_uint(out, self.split_count as u64, 4, Endian::Big);
            put_uint(out, self.split_id as u64, 2, Endian::Big);
            put_uint(out, self.split_index as u64, 4, Endian::Big);
        }
        assert(out@ =~= old(out)@ + self@.split_part());
    }

    /// Writes the frame at the cursor, and nothing where a number does not
    /// fit its field.
    pub fn encode(&self, cursor: &mut Writer) -> (r: Result<(), CodecError>)
        ensures
            self@.encodable() ==> r == Ok::<(), CodecError>(()) && final(cursor).wrote(
                old(cursor),
                self@.wire(),
            ),
            !self@.encodable() ==> r == Err::<(), CodecError>(CodecError::OutOfRange)
                && final(cursor).wrote(old(cursor), Seq::<u8>::empty()),
    {
        let fits_fields: bool = self.data.len() <= 0x1fff && (!self.reliability.reliable()
            || self.message_index < 0x100_0000) && (!self.reliability.sequenced()
            || self.sequence_index < 0x100_0000) && (!self.reliability.sequenced_or_ordered()
            || self.order_index < 0x100_0000);
        if !fits_fields {
            assert(old(cursor).rest().skip(0) =~= old(cursor).rest());
            assert(old(cursor).written() + Seq::<u8>::empty() =~= old(cursor).written());
            return Err(CodecError::OutOfRange);
        }
        let mut header: u8 = self.reliability.to_byte() * 32;
        if self.split {
            header += 16;
        }
        proof {
            lemma_pow256_values();
        }
        let mut bytes: Vec<u8> = vec![header];
        put_uint(&mut bytes, (self.data.len() * 8) as u64, 2, Endian::Big);
        let ghost head = bytes@;
        assert(head =~= seq![self@.header()] + be_bytes(self@.data.len() * 8, 2));
        self.put_indices(&mut bytes);
        self.put_split(&mut bytes);
        crate::bytes::append_bytes(&mut bytes, self.data.as_slice());
        assert(bytes@ =~= self@.wire());
        cursor.write(bytes.as_slice())
    }
}

/// A frame takes on the wire as many bytes as `length` says.
pub proof fn lemma_frame_wire_len(f: FrameView)
    ensures
        f.wire().len() == f.length(),
        f.fields().len() == f.fields_len(),
{
    crate::bytes::lemma_be_bytes_len(f.data.len() * 8, 2);
    crate::bytes::lemma_le_bytes_len(f.message_index as nat, 3);
    crate::bytes::lemma_le_bytes_len(f.sequence_index as nat, 3);
    crate::bytes::lemma_le_bytes_len(f.order_index as nat, 3);
    crate::bytes::lemma_be_bytes_len(f.split_count as nat, 4);
    crate::bytes::lemma_be_bytes_len(f.split_id as nat, 2);
    crate::bytes::lemma_be_bytes_len(f.split_index as nat, 4);
}

/// The lengths of the parts of a frame.
proof fn lemma_part_lens(f: FrameView)
    ensures
        f.message_part().len() == if f.reliability.spec_reliable() {
            3nat
        } else {
            0nat
        },
        f.sequence_part().len() == if f.reliability.spec_sequenced() {
            3nat
        } else {
            0nat
        },
        f.order_part().len() == if f.reliability.spec_sequenced_or_ordered() {
            4nat
        } else {
            0nat
        },
        f.split_part().len() == if f.split {
            10nat
        } else {
            0nat
        },
        be_bytes(f.data.len() * 8, 2).len() == 2,
{
    crate::bytes::lemma_be_bytes_len(f.data.len() * 8, 2);
    crate::bytes::lemma_le_bytes_len(f.message_index as nat, 3);
    crate::bytes::lemma_le_bytes_len(f.sequence_index as nat, 3);
    crate::bytes::lemma_le_bytes_len(f.order_index as nat, 3);
    crate::bytes::lemma_be_bytes_len(f.split_count as nat, 4);
    crate::bytes::lemma_be_bytes_len(f.split_id as nat, 2);
    crate::bytes::lemma_be_bytes_len(f.split_index as nat, 4);
}

/// Where each part of a written frame stands.
proof fn lemma_frame_layout(pre: Seq<u8>, f: FrameView, post: Seq<u8>)
    ensures
        ({
            let w = pre + f.wire() + post;
            let at_message = pre.len() + 3;
            let at_sequence = at_message + f.message_part().len();
            let at_order = at_sequence + f.sequence_part().len();
            let at_split = at_order + f.order_part().len();
            let at_data = at_split + f.split_part().len();
            &&& w.len() == pre.len() + f.length() + post.len()
            &&& w[pre.len() as int] == f.header()
            &&& slice_at(w, pre.len() + 1, 2) == be_bytes(f.data.len() * 8, 2)
            &&& slice_at(w, at_message, f.message_part().len()) == f.message_part()
            &&& slice_at(w, at_sequence, f.sequence_part().len()) == f.sequence_part()
            &&& slice_at(w, at_order, f.order_part().len()) == f.order_part()
            &&& slice_at(w, at_split, f.split_part().len()) == f.split_part()
            &&& slice_at(w, at_data, f.data.len()) == f.data
        }),
{
    let w = pre + f.wire() + post;
    let p = pre.len();
    let h = seq![f.header()];
    let l = be_bytes(f.data.len() * 8, 2);
    let a = f.message_part();
    let b = f.sequence_part();
    let c = f.order_part();
    let d = f.split_part();
    let x = f.data;
    let wire = f.wire();
    let fields = f.fields();
    lemma_frame_wire_len(f);
    lemma_part_lens(f);
    lemma_slice_mid(pre, wire, post);
    lemma_concat4(h, l, fields, x);
    lemma_concat4(a, b, c, d);
    // inside the frame
    lemma_slice_slice(w, p, wire.len(), 0, 1);
    assert(slice_at(w, p, 1)[0] == w[p as int]);
    assert(slice_at(wire, 0, 1)[0] == f.header());
    lemma_slice_slice(w, p, wire.len(), 1, 2);
    lemma_slice_slice(w, p, wire.len(), 3, fields.len());
    lemma_slice_slice(w, p, wire.len(), 3 + fields.len(), x.len());
    // inside the fields
    lemma_slice_slice(w, p + 3, fields.len(), 0, a.len());
    lemma_slice_slice(w, p + 3, fields.len(), a.len(), b.len());
    lemma_slice_slice(w, p + 3, fields.len(), a.len() + b.len(), c.len());
    lemma_slice_slice(w, p + 3, fields.len(), a.len() + b.len() + c.len(), d.len());
}

/// A frame that was written reads back as itself, whatever stands before and
/// behind it, provided its numbers fit their fields and what the wire does
/// not carry is zero.
pub proof fn lemma_frame_round_trip(pre: Seq<u8>, f: FrameView, post: Seq<u8>)
    requires
        f.encodable(),
        f.canonical(),
    ensures
        frame_at(pre + f.wire() + post, pre.len()) == Ok::<(FrameView, nat), CodecError>(
            (f, f.length()),
        ),
{
    let w = pre + f.wire() + post;
    let p = pre.len();
    let len = f.data.len();
    lemma_frame_layout(pre, f, post);
    lemma_part_lens(f);
    lemma_pow256_values();
    crate::packets::lemma_reliability_byte(f.reliability, 0);
    let at_message = p + 3;
    let at_sequence = at_message + f.message_part().len();
    let at_order = at_sequence + f.sequence_part().len();
    let at_split = at_order + f.order_part().len();
    let at_data = at_split + f.split_part().len();
    crate::bytes::lemma_be_value_of_bytes(len * 8, 2);
    if f.reliability.spec_reliable() {
        crate::bytes::lemma_le_value_of_bytes(f.message_index as nat, 3);
    }
    if f.reliability.spec_sequenced() {
        crate::bytes::lemma_le_value_of_bytes(f.sequence_index as nat, 3);
    }
    if f.reliability.spec_sequenced_or_ordered() {
        crate::bytes::lemma_le_bytes_len(f.order_index as nat, 3);
        assert(slice_at(w, at_order, 3) =~= slice_at(w, at_order, 4).subrange(0, 3));
        assert(f.order_part().subrange(0, 3) =~= le_bytes(f.order_index as nat, 3));
        crate::bytes::lemma_le_value_of_bytes(f.order_index as nat, 3);
    }
    if f.split {
        crate::bytes::lemma_be_bytes_len(f.split_count as nat, 4);
        crate::bytes::lemma_be_bytes_len(f.split_id as nat, 2);
        crate::bytes::lemma_be_bytes_len(f.split_index as nat, 4);
        assert(slice_at(w, at_split, 4) =~= slice_at(w, at_split, 10).subrange(0, 4));
        assert(slice_at(w, at_split + 4, 2) =~= slice_at(w, at_split, 10).subrange(4, 6));
        assert(slice_at(w, at_split + 6, 4) =~= slice_at(w, at_split, 10).subrange(6, 10));
        assert(f.split_part().subrange(0, 4) =~= be_bytes(f.split_count as nat, 4));
        assert(f.split_part().subrange(4, 6) =~= be_bytes(f.split_id as nat, 2));
        assert(f.split_part().subrange(6, 10) =~= be_bytes(f.split_index as nat, 4));
        crate::bytes::lemma_be_value_of_bytes(f.split_count as nat, 4);
        crate::bytes::lemma_be_value_of_bytes(f.split_id as nat, 2);
        crate::bytes::lemma_be_value_of_bytes(f.split_index as nat, 4);
    }
    let got = frame_at(w, p);
    assert(got is Ok);
    assert(got.unwrap().0 == f);
}

} // verus!
