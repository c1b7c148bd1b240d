use crate::bytes::{le_bytes, le_value, lemma_pow256_values};
use crate::error::CodecError;
use crate::packets::frame::{
    frame_at, lemma_frame_round_trip, lemma_frame_wire_len, Frame, FrameView,
};
use crate::reader::{fits, slice_at, Endian, Reader};
use crate::writer::{lemma_concat4, Writer};
use vstd::prelude::*;

verus! {

/// The frames of one datagram, under the datagram's sequence number.
#[derive(Debug)]
pub struct FrameSet {
    pub header: u8,
    pub sequence_number: u32,
    pub datas: Vec<Frame>,
}

/// A frame set with its frames as a sequence of views.
pub ghost struct FrameSetView {
    pub header: u8,
    pub sequence_number: u32,
    pub datas: Seq<FrameView>,
}

/// The views of the frames of `frames`.
pub open spec fn frame_views(frames: Seq<Frame>) -> Seq<FrameView> {
    frames.map_values(|f: Frame| f@)
}

impl View for FrameSet {
    type V = FrameSetView;

    open spec fn view(&self) -> FrameSetView {
        FrameSetView {
            header: self.header,
            sequence_number: self.sequence_number,
            datas: frame_views(self.datas@),
        }
    }
}

/// A copy of `frames`.
pub fn clone_frames(frames: &Vec<Frame>) -> (r: Vec<Frame>)
    ensures
        frame_views(r@) == frame_views(frames@),
{
    let mut out: Vec<Frame> = Vec::new();
    let mut i: usize = 0;
    while i < frames.len()
        invariant
            i <= frames@.len(),
            out@.len() == i,
            forall|j: int| 0 <= j < i ==> out@[j]@ == frames@[j]@,
        decreases frames@.len() - i,
    {
        out.push(frames[i].clone());
        i += 1;
    }
    assert(frame_views(out@) =~= frame_views(frames@));
    out
}

impl Clone for FrameSet {
    fn clone(&self) -> (r: Self)
        ensures
            r@ == self@,
    {
        FrameSet {
            header: self.header,
            sequence_number: self.sequence_number,
            datas: clone_frames(&self.datas),
        }
    }
}

/// The frames on the wire, one behind the other.
pub open spec fn frames_wire(frames: Seq<FrameView>) -> Seq<u8>
    decreases frames.len(),
{
    if frames.len() == 0 {
        Seq::<u8>::empty()
    } else {
        frames[0].wire() + frames_wire(frames.skip(1))
    }
}

/// `rest` with `front` before it, where `rest` is no error.
pub open spec fn after(front: Seq<FrameView>, rest: Result<Seq<FrameView>, CodecError>) -> Result<
    Seq<FrameView>,
    CodecError,
> {
    match rest {
        Ok(frames) => Ok(front + frames),
        Err(e) => Err(e),
    }
}

/// The frames that fill the buffer from `pos` to its end.
pub open spec fn frames_at(bytes: Seq<u8>, pos: nat) -> Result<Seq<FrameView>, CodecError>
    decreases bytes.len() - pos,
{
    if pos >= bytes.len() {
        Ok(Seq::<FrameView>::empty())
    } else {
        match frame_at(bytes, pos) {
            Err(e) => Err(e),
            Ok(found) => if found.1 == 0 {
                Err(CodecError::UnexpectedEof)
            } else {
                after(seq![found.0], frames_at(bytes, pos + found.1))
            },
        }
    }
}

impl FrameSetView {
    /// The datagram: the header byte, the sequence number in three bytes,
    /// least significant first, then the frames.
    pub open spec fn wire(self) -> Seq<u8> {
        seq![self.header] + le_bytes(self.sequence_number as nat, 3) + frames_wire(self.datas)
    }

    /// The sequence number fits 24 bits and every frame can be written.
    pub open spec fn encodable(self) -> bool {
        &&& self.sequence_number < 0x100_0000
        &&& forall|i: int| 0 <= i < self.datas.len() ==> (#[trigger] self.datas[i]).encodable()
    }

    /// Every frame is zero where the wire carries nothing.
    pub open spec fn canonical(self) -> bool {
        forall|i: int| 0 <= i < self.datas.len() ==> (#[trigger] self.datas[i]).canonical()
    }

    /// The frame set that a datagram spells.
    pub open spec fn parse(bytes: Seq<u8>) -> Result<FrameSetView, CodecError> {
        if !fits(bytes, 0, 4) {
            Err(CodecError::UnexpectedEof)
        } else {
            match frames_at(bytes, 4) {
                Err(e) => Err(e),
                Ok(datas) => Ok(
                    FrameSetView {
                        header: bytes[0],
                        sequence_number: le_value(slice_at(bytes, 1, 3)) as u32,
                        datas,
                    },
                ),
            }
        }
    }
}

impl FrameSet {
    /// Reads a datagram of frames.
    pub fn decode(payload: &[u8]) -> (r: Result<Self, CodecError>)
        ensures
            match r {
                Ok(set) => FrameSetView::parse(payload@) == Ok::<FrameSetView, CodecError>(set@),
                Err(e) => FrameSetView::parse(payload@) == Err::<FrameSetView, CodecError>(e),
            },
    {
        let size: usize = payload.len();
        let mut cursor = Reader::new(payload);
        let header: u8 = match cursor.read_u8() {
            Ok(v) => v,
            Err(e) => {
                return Err(e);
            },
        };
        let sequence_number: u32 = match cursor.read_u24(Endian::Little) {
            Ok(v) => v,
            Err(e) => {
                return Err(e);
            },
        };
        let mut datas: Vec<Frame> = Vec::new();
        assert(after(frame_views(datas@), frames_at(payload@, 4)) == frames_at(payload@, 4)) by {
            let rest = frames_at(payload@, 4);
            if rest is Ok {
                assert(frame_views(datas@) + rest.unwrap() =~= rest.unwrap());
            }
        }
        while cursor.pos() < size as u64
            invariant
                cursor.bytes() == payload@,
                size == payload@.len(),
                4 <= cursor.position(),
                frames_at(payload@, 4) == after(
                    frame_views(datas@),
                    frames_at(payload@, cursor.position()),
                ),
            decreases size - cursor.position(),
        {
            let ghost pos = cursor.position();
            let ghost before = frame_views(datas@);
            match Frame::decode(&mut cursor) {
                Ok(frame) => {
                    proof {
                        let found = frame_at(payload@, pos).unwrap();
                        let rest = frames_at(payload@, pos + found.1);
                        assert(found.1 >= 3);
                        assert(frame_views(datas@.push(frame)) =~= before.push(frame@));
                        if rest is Ok {
                            assert(before + (seq![found.0] + rest.unwrap()) =~= before.push(
                                frame@,
                            ) + rest.unwrap());
                        }
                    }
                    datas.push(frame);
                },
                Err(e) => {
                    return Err(e);
                },
            }
        }
        proof {
            assert(frame_views(datas@) + Seq::<FrameView>::empty() =~= frame_views(datas@));
        }
        Ok(FrameSet { header, sequence_number, datas })
    }

    /// Writes the datagram, or nothing where a number does not fit its field.
    pub fn encode(&self) -> (r: Result<Vec<u8>, CodecError>)
        ensures
            match r {
                Ok(bytes) => self@.encodable() && bytes@ == self@.wire(),
                Err(e) => !self@.encodable() && e == CodecError::OutOfRange,
            },
    {
        let mut cursor = Writer::new(Vec::new());
        let _ = cursor.write_u8(self.header);
        match cursor.write_u24(self.sequence_number, Endian::Little) {
            Ok(_) => {},
            Err(e) => {
                return Err(e);
            },
        }
        let ghost head = seq![self.header] + le_bytes(self.sequence_number as nat, 3);
        let ghost views = frame_views(self.datas@);
        assert(cursor.written() =~= head + frames_wire(views.take(0)));
        let mut i: usize = 0;
        while i < self.datas.len()
            invariant
                i <= self.datas@.len(),
                views == frame_views(self.datas@),
                cursor.rest().len() == 0,
                cursor.written() == head + frames_wire(views.take(i as int)),
                forall|j: int| 0 <= j < i ==> (#[trigger] views[j]).encodable(),
            decreases self.datas@.len() - i,
        {
            match self.datas[i].encode(&mut cursor) {
                Ok(_) => {},
                Err(e) => {
                    assert(!views[i as int].encodable());
                    assert(self@.datas[i as int] == views[i as int]);
                    return Err(e);
                },
            }
            proof {
                lemma_frames_wire_push(views.take(i as int), views[i as int]);
                assert(views.take(i as int).push(views[i as int]) =~= views.take(i as int + 1));
                assert(cursor.written() =~= head + frames_wire(views.take(i as int + 1)));
            }
            i += 1;
        }
        assert(views.take(i as int) =~= views);
        let out: Vec<u8> = cursor.get_raw_payload();
        assert(out@ =~= self@.wire());
        Ok(out)
    }
}

/// A frame more at the end of the frames is its bytes more at the end of
/// theirs.
pub proof fn lemma_frames_wire_push(frames: Seq<FrameView>, f: FrameView)
    ensures
        frames_wire(frames.push(f)) == frames_wire(frames) + f.wire(),
    decreases frames.len(),
{
    reveal_with_fuel(frames_wire, 2);
    if frames.len() == 0 {
        assert(frames.push(f).skip(1) =~= Seq::<FrameView>::empty());
        assert(frames_wire(frames.push(f)) =~= frames_wire(frames) + f.wire());
    } else {
        lemma_frames_wire_push(frames.skip(1), f);
        assert(frames.push(f).skip(1) =~= frames.skip(1).push(f));
        assert(frames_wire(frames.push(f)) =~= frames_wire(frames) + f.wire());
    }
}

/// Frames that were written one behind the other read back as themselves.
pub proof fn lemma_frames_round_trip(pre: Seq<u8>, frames: Seq<FrameView>)
    requires
        forall|i: int| 0 <= i < frames.len() ==> (#[trigger] frames[i]).encodable(),
        forall|i: int| 0 <= i < frames.len() ==> (#[trigger] frames[i]).canonical(),
    ensures
        frames_at(pre + frames_wire(frames), pre.len()) == Ok::<Seq<FrameView>, CodecError>(frames),
    decreases frames.len(),
{
    let bytes = pre + frames_wire(frames);
    if frames.len() == 0 {
        assert(frames =~= Seq::<FrameView>::empty());
    } else {
        let first = frames[0];
        let rest = frames.skip(1);
        assert(first.encodable() && first.canonical());
        assert forall|i: int| 0 <= i < rest.len() implies (#[trigger] rest[i]).encodable()
            && rest[i].canonical() by {
            assert(rest[i] == frames[i + 1]);
        }
        lemma_frame_wire_len(first);
        lemma_frame_round_trip(pre, first, frames_wire(rest));
        assert(bytes =~= pre + first.wire() + frames_wire(rest));
        lemma_frames_round_trip(pre + first.wire(), rest);
        assert(bytes =~= (pre + first.wire()) + frames_wire(rest));
        assert(seq![first] + rest =~= frames);
    }
}

/// A frame set that was written reads back as itself, provided its numbers
/// fit their fields and its frames are zero where the wire carries nothing.
pub proof fn lemma_frame_set_round_trip(set: FrameSetView)
    requires
        set.encodable(),
        set.canonical(),
    ensures
        FrameSetView::parse(set.wire()) == Ok::<FrameSetView, CodecError>(set),
{
    let head = seq![set.header] + le_bytes(set.sequence_number as nat, 3);
    let number = le_bytes(set.sequence_number as nat, 3);
    lemma_pow256_values();
    crate::bytes::lemma_le_bytes_len(set.sequence_number as nat, 3);
    crate::bytes::lemma_le_value_of_bytes(set.sequence_number as nat, 3);
    lemma_frames_round_trip(head, set.datas);
    lemma_concat4(seq![set.header], number, frames_wire(set.datas), Seq::<u8>::empty());
    assert(set.wire() =~= seq![set.header] + number + frames_wire(set.datas) + Seq::<u8>::empty());
    assert(slice_at(set.wire(), 0, 1)[0] == set.wire()[0]);
}

} // verus!
