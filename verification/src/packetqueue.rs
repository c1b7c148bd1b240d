//! The sending side: frames are gathered into datagrams, each datagram gets
//! the next sequence number, and every datagram is kept until the peer has
//! acknowledged it.

use crate::packets::frame::{Frame, FrameView};
use crate::packets::frame_set::{clone_frames, frame_views, FrameSet, FrameSetView};
use vstd::prelude::*;

verus! {

/// A datagram's header: a datagram of frames that asks for acknowledgement.
pub const HEADER_FRAMES: u8 = 0x84;

/// The header of a datagram that holds one piece of a split message.
pub const HEADER_SPLIT: u8 = 0x8c;

/// What the protocols below take of each datagram, in bytes.
pub const DATAGRAM_OVERHEAD: usize = 42;

/// After so many milliseconds without acknowledgement a datagram is sent
/// again.
pub const RESEND_INTERVAL: u128 = 1000;

/// A datagram that is kept, and when it was last sent.
pub struct Retained {
    pub set: FrameSet,
    pub sent_at: u128,
}

/// A kept datagram with its frames as views.
pub ghost struct RetainedView {
    pub set: FrameSetView,
    pub sent_at: u128,
}

impl View for Retained {
    type V = RetainedView;

    open spec fn view(&self) -> RetainedView {
        RetainedView { set: self.set@, sent_at: self.sent_at }
    }
}

/// The views of kept datagrams.
pub open spec fn retained_views(sets: Seq<Retained>) -> Seq<RetainedView> {
    sets.map_values(|e: Retained| e@)
}

/// The bytes that frames take on the wire, all together.
pub open spec fn total_length(frames: Seq<FrameView>) -> nat
    decreases frames.len(),
{
    if frames.len() == 0 {
        0
    } else {
        total_length(frames.drop_last()) + frames.last().length()
    }
}

/// Some kept datagram has the sequence number `sequence`.
pub open spec fn holds(sets: Seq<RetainedView>, sequence: u32) -> bool {
    exists|i: int| 0 <= i < sets.len() && (#[trigger] sets[i]).set.sequence_number == sequence
}

/// Where the datagram with the sequence number `sequence` is kept.
pub open spec fn place(sets: Seq<RetainedView>, sequence: u32) -> int {
    choose|i: int| 0 <= i < sets.len() && (#[trigger] sets[i]).set.sequence_number == sequence
}

/// The sequence numbers rise from each kept datagram to the next.
pub open spec fn rising(sets: Seq<RetainedView>) -> bool {
    forall|i: int, j: int|
        0 <= i < j < sets.len() ==> (#[trigger] sets[i]).set.sequence_number < (
        #[trigger] sets[j]).set.sequence_number
}

/// The sequence numbers of the datagrams that were sent more than the
/// resend interval before `now`, in rising order. A datagram was sent where
/// its number is below `send_min`.
pub open spec fn due(sets: Seq<RetainedView>, send_min: u32, now: u128) -> Seq<u32>
    decreases sets.len(),
{
    if sets.len() == 0 {
        Seq::<u32>::empty()
    } else if is_due(sets.last(), send_min, now) {
        due(sets.drop_last(), send_min, now).push(sets.last().set.sequence_number)
    } else {
        due(sets.drop_last(), send_min, now)
    }
}

/// The datagram was sent, more than the resend interval before `now`.
pub open spec fn is_due(e: RetainedView, send_min: u32, now: u128) -> bool {
    e.set.sequence_number < send_min && now - e.sent_at > RESEND_INTERVAL
}

/// The sequence numbers from `least` to `greatest` under which a datagram
/// is kept, in rising order.
pub open spec fn between(sets: Seq<RetainedView>, least: u32, greatest: u32) -> Seq<u32>
    decreases sets.len(),
{
    if sets.len() == 0 {
        Seq::<u32>::empty()
    } else if least <= sets.last().set.sequence_number <= greatest {
        between(sets.drop_last(), least, greatest).push(sets.last().set.sequence_number)
    } else {
        between(sets.drop_last(), least, greatest)
    }
}

/// The datagrams that have not been sent, in rising order.
pub open spec fn unsent(sets: Seq<RetainedView>, send_min: u32) -> Seq<FrameSetView>
    decreases sets.len(),
{
    if sets.len() == 0 {
        Seq::<FrameSetView>::empty()
    } else if sets.last().set.sequence_number >= send_min {
        unsent(sets.drop_last(), send_min).push(sets.last().set)
    } else {
        unsent(sets.drop_last(), send_min)
    }
}

/// The kept datagrams after those that had not been sent were sent at
/// `now`.
pub open spec fn stamped(sets: Seq<RetainedView>, send_min: u32, now: u128) -> Seq<RetainedView> {
    Seq::new(
        sets.len(),
        |i: int|
            if sets[i].set.sequence_number >= send_min {
                RetainedView { sent_at: now, ..sets[i] }
            } else {
                sets[i]
            },
    )
}

/// Each frame can be written, and is zero where the wire carries nothing:
/// each reads back as it is.
pub open spec fn frames_sound(frames: Seq<FrameView>) -> bool {
    forall|i: int|
        0 <= i < frames.len() ==> (#[trigger] frames[i]).encodable() && frames[i].canonical()
}

/// The frames of each kept datagram read back as they are.
pub open spec fn sets_sound(sets: Seq<RetainedView>) -> bool {
    forall|i: int| 0 <= i < sets.len() ==> frames_sound((#[trigger] sets[i]).set.datas)
}

/// The later of two times.
pub open spec fn later(a: u128, b: u128) -> u128 {
    if a >= b {
        a
    } else {
        b
    }
}

/// The sending side with its frames as views.
pub ghost struct PacketQueueView {
    /// The datagrams not yet acknowledged, by rising sequence number.
    pub sets: Seq<RetainedView>,
    /// The sequence number that the next datagram gets.
    pub max: u32,
    /// The least sequence number that has not been sent.
    pub send_min: u32,
    /// The sequence numbers found due and not yet sent again.
    pub resend: Seq<u32>,
    /// The frames gathered for the next datagram.
    pub batch: Seq<FrameView>,
    pub mtu: u16,
    /// The latest time the queue has been told.
    pub last_tick: u128,
}

impl PacketQueueView {
    /// The kept datagrams are in order and below `max`, those that were sent
    /// were sent in the past, and the frames gathered leave room in a
    /// datagram.
    pub open spec fn wf(self) -> bool {
        &&& rising(self.sets)
        &&& forall|i: int|
            0 <= i < self.sets.len() ==> (#[trigger] self.sets[i]).set.sequence_number < self.max
        &&& forall|i: int|
            0 <= i < self.sets.len() ==> (#[trigger] self.sets[i]).sent_at <= self.last_tick
        &&& self.send_min <= self.max
        &&& self.batch.len() > 0 ==> total_length(self.batch) + DATAGRAM_OVERHEAD < self.mtu
    }

    /// Every frame in the queue reads back as it is.
    pub open spec fn sound(self) -> bool {
        frames_sound(self.batch) && sets_sound(self.sets)
    }

    /// The queue after `set` was handed to it: the datagram is kept where
    /// its sequence number is the next; any other is dropped, as is every
    /// one once the sequence numbers are used up.
    pub open spec fn enqueued(self, set: FrameSetView) -> PacketQueueView {
        if set.sequence_number == self.max && self.max < u32::MAX {
            PacketQueueView {
                sets: self.sets.push(RetainedView { set, sent_at: 0 }),
                max: (self.max + 1) as u32,
                ..self
            }
        } else {
            self
        }
    }

    /// The frame joins the frames gathered where it is no piece of a split
    /// message and the datagram keeps room.
    pub open spec fn gathers(self, frame: FrameView) -> bool {
        !frame.split && total_length(self.batch) + frame.length() + DATAGRAM_OVERHEAD < self.mtu
    }

    /// The queue after `frame` was handed to it. A frame that joins the
    /// frames gathered waits with them. For any other, the frames gathered
    /// become a datagram at once, and the frame becomes the next datagram,
    /// alone.
    pub open spec fn with_frame(self, frame: FrameView) -> PacketQueueView {
        if self.gathers(frame) {
            PacketQueueView { batch: self.batch.push(frame), ..self }
        } else {
            let flushed = self.flushed();
            flushed.enqueued(
                FrameSetView {
                    header: if frame.split {
                        HEADER_SPLIT
                    } else {
                        HEADER_FRAMES
                    },
                    sequence_number: flushed.max,
                    datas: seq![frame],
                },
            )
        }
    }

    /// The queue after the datagram `sequence` was acknowledged.
    pub open spec fn acknowledged(self, sequence: u32) -> PacketQueueView {
        if holds(self.sets, sequence) {
            PacketQueueView { sets: self.sets.remove(place(self.sets, sequence)), ..self }
        } else {
            self
        }
    }

    /// The queue after the datagram `sequence` was queued again: it leaves
    /// its place, takes the next sequence number and waits to be sent. A
    /// datagram that is not kept changes nothing.
    pub open spec fn renumbered(self, sequence: u32) -> PacketQueueView {
        if holds(self.sets, sequence) && self.max < u32::MAX {
            let at = place(self.sets, sequence);
            PacketQueueView {
                sets: self.sets.remove(at).push(
                    RetainedView {
                        set: FrameSetView { sequence_number: self.max, ..self.sets[at].set },
                        sent_at: 0,
                    },
                ),
                max: (self.max + 1) as u32,
                ..self
            }
        } else {
            self
        }
    }

    /// The queue after each datagram of `sequences` was queued again, in
    /// the order of `sequences`.
    pub open spec fn renumbered_all(self, sequences: Seq<u32>) -> PacketQueueView
        decreases sequences.len(),
    {
        if sequences.len() == 0 {
            self
        } else {
            self.renumbered_all(sequences.drop_last()).renumbered(sequences.last())
        }
    }

    /// The queue after the frames gathered became a datagram.
    pub open spec fn flushed(self) -> PacketQueueView {
        if self.batch.len() > 0 {
            PacketQueueView {
                batch: Seq::<FrameView>::empty(),
                ..self.enqueued(
                    FrameSetView {
                        header: HEADER_FRAMES,
                        sequence_number: self.max,
                        datas: self.batch,
                    },
                )
            }
        } else {
            self
        }
    }

    /// The queue after it was told the time: the frames gathered become a
    /// datagram, and the datagrams that are due are noted for resending.
    /// The clock of the queue does not run backwards.
    pub open spec fn ticked(self, time: u128) -> PacketQueueView {
        let now = later(time, self.last_tick);
        let flushed = self.flushed();
        PacketQueueView {
            resend: flushed.resend + due(flushed.sets, flushed.send_min, now),
            last_tick: now,
            ..flushed
        }
    }

    /// The queue after the datagrams noted for resending were queued again.
    pub open spec fn readded(self) -> PacketQueueView {
        PacketQueueView { resend: Seq::<u32>::empty(), ..self.renumbered_all(self.resend) }
    }

    /// The queue ready to send at `time`: told the time, with the due
    /// datagrams queued again.
    pub open spec fn prepared(self, time: u128) -> PacketQueueView {
        self.ticked(time).readded()
    }

    /// The queue after everything that waited was sent at `time`.
    pub open spec fn sent(self, time: u128) -> PacketQueueView {
        let ready = self.prepared(time);
        PacketQueueView {
            sets: stamped(ready.sets, ready.send_min, ready.last_tick),
            send_min: ready.max,
            ..ready
        }
    }
}

/// The datagrams sent and not yet acknowledged, and the frames gathered for
/// the next datagram.
pub struct PacketQueue {
    sets: Vec<Retained>,
    max: u32,
    send_min: u32,
    resend: Vec<u32>,
    set_size: usize,
    set_queue: Vec<Frame>,
    mtu: u16,
    last_tick: u128,
}

impl View for PacketQueue {
    type V = PacketQueueView;

    closed spec fn view(&self) -> PacketQueueView {
        PacketQueueView {
            sets: retained_views(self.sets@),
            max: self.max,
            send_min: self.send_min,
            resend: self.resend@,
            batch: frame_views(self.set_queue@),
            mtu: self.mtu,
            last_tick: self.last_tick,
        }
    }
}

impl PacketQueue {
    /// The views agree, and the size kept of the frames gathered is theirs.
    pub closed spec fn wf(&self) -> bool {
        &&& self@.wf()
        &&& self.set_size == total_length(self@.batch)
    }

    pub fn new(mtu: u16, last_tick: u128) -> (r: Self)
        ensures
            r@ == (PacketQueueView {
                sets: Seq::<RetainedView>::empty(),
                max: 0,
                send_min: 0,
                resend: Seq::<u32>::empty(),
                batch: Seq::<FrameView>::empty(),
                mtu,
                last_tick,
            }),
            r.wf(),
    {
        let r = Self {
            sets: Vec::new(),
            max: 0,
            send_min: 0,
            resend: Vec::new(),
            set_size: 0,
            set_queue: Vec::new(),
            mtu,
            last_tick,
        };
        assert(r@.sets =~= Seq::<RetainedView>::empty());
        assert(r@.batch =~= Seq::<FrameView>::empty());
        r
    }

    /// The sequence number that the next datagram gets.
    pub fn max(&self) -> (r: u32)
        ensures
            r == self@.max,
    {
        self.max
    }

    /// How many datagrams are kept.
    pub fn len(&self) -> (r: usize)
        ensures
            r == self@.sets.len(),
    {
        self.sets.len()
    }

    /// Takes a frame to send.
    pub fn add_frame(&mut self, frame: Frame)
        requires
            old(self).wf(),
        ensures
            final(self)@ == old(self)@.with_frame(frame@),
            final(self).wf(),
    {
        let ghost view = frame@;
        let ghost before = self@;
        let gathers: bool = !frame.split && frame.data.len() < 0x1_0000 && self.set_size
            + frame.length() + DATAGRAM_OVERHEAD < self.mtu as usize;
        assert(gathers == before.gathers(view));
        if gathers {
            self.set_size += frame.length();
            self.set_queue.push(frame);
            proof {
                assert(self@.batch =~= before.batch.push(view));
                assert(self@.batch.drop_last() =~= before.batch);
            }
        } else {
            self.flush();
            let header: u8 = if frame.split {
                HEADER_SPLIT
            } else {
                HEADER_FRAMES
            };
            let mut datas: Vec<Frame> = Vec::new();
            datas.push(frame);
            assert(frame_views(datas@) =~= seq![view]);
            let set = FrameSet { header, sequence_number: self.max, datas };
            self.add(set);
        }
    }

    /// Makes a datagram of the frames gathered.
    fn flush(&mut self)
        requires
            old(self).wf(),
        ensures
            final(self)@ == old(self)@.flushed(),
            final(self).wf(),
    {
        let ghost before = self@;
        if self.set_queue.len() > 0 {
            let mut datas: Vec<Frame> = Vec::new();
            datas.append(&mut self.set_queue);
            assert(frame_views(datas@) =~= before.batch);
            let set = FrameSet { header: HEADER_FRAMES, sequence_number: self.max, datas };
            self.set_size = 0;
            assert(self@.batch =~= Seq::<FrameView>::empty());
            self.add(set);
        }
    }

    /// Takes a datagram to send, where its sequence number is the next.
    pub fn add(&mut self, frame_set: FrameSet)
        requires
            old(self).wf(),
        ensures
            final(self)@ == old(self)@.enqueued(frame_set@),
            final(self).wf(),
    {
        let ghost before = self@;
        let ghost view = frame_set@;
        if frame_set.sequence_number == self.max && self.max < u32::MAX {
            self.max += 1;
            self.sets.push(Retained { set: frame_set, sent_at: 0 });
            proof {
                assert(self@.sets =~= before.sets.push(RetainedView { set: view, sent_at: 0 }));
                lemma_push_rising(before.sets, RetainedView { set: view, sent_at: 0 });
            }
        }
    }

    /// Where the datagram `sequence` is kept, or the number of datagrams
    /// kept where it is not.
    fn find(&self, sequence: u32) -> (r: usize)
        requires
            self.wf(),
        ensures
            r <= self@.sets.len(),
            r < self@.sets.len() <==> holds(self@.sets, sequence),
            r < self@.sets.len() ==> r == place(self@.sets, sequence)
                && self@.sets[r as int].set.sequence_number == sequence,
    {
        let ghost sets = self@.sets;
        let mut i: usize = 0;
        while i < self.sets.len() && self.sets[i].set.sequence_number != sequence
            invariant
                i <= self.sets@.len(),
                sets == self@.sets,
                sets.len() == self.sets@.len(),
                forall|j: int| 0 <= j < i ==> (#[trigger] sets[j]).set.sequence_number != sequence,
            decreases self.sets@.len() - i,
        {
            assert(sets[i as int].set.sequence_number == self.sets@[i as int].set.sequence_number);
            i += 1;
        }
        proof {
            if i < self.sets.len() {
                assert(sets[i as int].set.sequence_number
                    == self.sets@[i as int].set.sequence_number);
                let at = place(sets, sequence);
                if at < i {
                    assert(sets[at].set.sequence_number != sequence);
                } else if at > i {
                    assert(sets[i as int].set.sequence_number < sets[at].set.sequence_number);
                }
            }
        }
        i
    }

    /// The sequence numbers from `least` to `greatest` under which a
    /// datagram is kept.
    pub fn kept_between(&self, least: u32, greatest: u32) -> (r: Vec<u32>)
        ensures
            r@ == between(self@.sets, least, greatest),
    {
        let ghost sets = self@.sets;
        let mut out: Vec<u32> = Vec::new();
        let mut i: usize = 0;
        assert(sets.take(0) =~= Seq::<RetainedView>::empty());
        while i < self.sets.len()
            invariant
                i <= self.sets@.len(),
                sets == self@.sets,
                sets.len() == self.sets@.len(),
                out@ == between(sets.take(i as int), least, greatest),
            decreases self.sets@.len() - i,
        {
            proof {
                assert(sets.take(i as int + 1).drop_last() =~= sets.take(i as int));
                assert(sets.take(i as int + 1).last() == self.sets@[i as int]@);
            }
            let sequence: u32 = self.sets[i].set.sequence_number;
            if least <= sequence && sequence <= greatest {
                out.push(sequence);
            }
            i += 1;
        }
        assert(sets.take(i as int) =~= sets);
        out
    }

    /// Forgets the datagram `sequence`: the peer has it.
    pub fn received(&mut self, sequence: u32)
        requires
            old(self).wf(),
        ensures
            final(self)@ == old(self)@.acknowledged(sequence),
            final(self).wf(),
    {
        let ghost before = self@;
        let at: usize = self.find(sequence);
        if at < self.sets.len() {
            self.sets.remove(at);
            proof {
                assert(self@.sets =~= before.sets.remove(at as int));
                lemma_remove_rising(before.sets, at as int);
                assert forall|i: int| 0 <= i < self@.sets.len() implies (
                #[trigger] self@.sets[i]).set.sequence_number < self@.max && self@.sets[i].sent_at
                    <= self@.last_tick by {
                    if i < at {
                        assert(self@.sets[i] == before.sets[i]);
                    } else {
                        assert(self@.sets[i] == before.sets[i + 1]);
                    }
                }
            }
        }
    }

    /// Tells the queue the time.
    pub fn tick(&mut self, time: u128)
        requires
            old(self).wf(),
        ensures
            final(self)@ == old(self)@.ticked(time),
            final(self).wf(),
    {
        self.flush();
        let ghost flushed = self@;
        let now: u128 = if time >= self.last_tick {
            time
        } else {
            self.last_tick
        };
        let mut i: usize = 0;
        assert(flushed.sets.take(0) =~= Seq::<RetainedView>::empty());
        assert(self.resend@ =~= flushed.resend + due(flushed.sets.take(0), flushed.send_min, now));
        while i < self.sets.len()
            invariant
                i <= self.sets@.len(),
                self@.sets == flushed.sets,
                self.sets@.len() == flushed.sets.len(),
                self.send_min == flushed.send_min,
                self.resend@ == flushed.resend + due(
                    flushed.sets.take(i as int),
                    flushed.send_min,
                    now,
                ),
                self@ == (PacketQueueView { resend: self.resend@, ..flushed }),
                self.set_size == total_length(flushed.batch),
                forall|j: int|
                    0 <= j < flushed.sets.len() ==> (#[trigger] flushed.sets[j]).sent_at <= now,
            decreases self.sets@.len() - i,
        {
            proof {
                assert(flushed.sets.take(i as int + 1).drop_last() =~= flushed.sets.take(i as int));
                assert(flushed.sets.take(i as int + 1).last() == flushed.sets[i as int]);
                assert(flushed.sets[i as int] == self.sets@[i as int]@);
            }
            let entry = &self.sets[i];
            if entry.set.sequence_number < self.send_min && now - entry.sent_at > RESEND_INTERVAL {
                let sequence: u32 = entry.set.sequence_number;
                self.resend.push(sequence);
                assert(self.resend@ =~= flushed.resend + due(
                    flushed.sets.take(i as int + 1),
                    flushed.send_min,
                    now,
                ));
            }
            i += 1;
        }
        assert(flushed.sets.take(i as int) =~= flushed.sets);
        self.last_tick = now;
    }

    /// Queues the datagram `sequence` again under the next sequence number.
    fn renumber(&mut self, sequence: u32)
        requires
            old(self).wf(),
        ensures
            final(self)@ == old(self)@.renumbered(sequence),
            final(self).wf(),
    {
        let ghost before = self@;
        let at: usize = self.find(sequence);
        if at < self.sets.len() && self.max < u32::MAX {
            let mut added: Retained = self.sets.remove(at);
            let ghost kept = self@.sets;
            added.set.sequence_number = self.max;
            added.sent_at = 0;
            let ghost view = added@;
            self.sets.push(added);
            self.max += 1;
            proof {
                assert(kept =~= before.sets.remove(at as int));
                assert(self@.sets =~= kept.push(view));
                lemma_remove_rising(before.sets, at as int);
                assert forall|i: int| 0 <= i < kept.len() implies (
                #[trigger] kept[i]).set.sequence_number < before.max && kept[i].sent_at
                    <= before.last_tick by {
                    if i < at {
                        assert(kept[i] == before.sets[i]);
                    } else {
                        assert(kept[i] == before.sets[i + 1]);
                    }
                }
                lemma_push_rising(kept, view);
            }
        }
    }

    /// Queues again the datagrams noted for resending.
    pub fn readd(&mut self)
        requires
            old(self).wf(),
        ensures
            final(self)@ == old(self)@.readded(),
            final(self).wf(),
    {
        let ghost before = self@;
        let mut noted: Vec<u32> = Vec::new();
        noted.append(&mut self.resend);
        assert(noted@ =~= before.resend);
        let ghost cleared = self@;
        assert(cleared == (PacketQueueView { resend: Seq::<u32>::empty(), ..before }));
        let mut i: usize = 0;
        assert(noted@.take(0) =~= Seq::<u32>::empty());
        while i < noted.len()
            invariant
                i <= noted@.len(),
                self.wf(),
                self@ == cleared.renumbered_all(noted@.take(i as int)),
            decreases noted@.len() - i,
        {
            proof {
                assert(noted@.take(i as int + 1).drop_last() =~= noted@.take(i as int));
            }
            self.renumber(noted[i]);
            i += 1;
        }
        proof {
            assert(noted@.take(i as int) =~= noted@);
            lemma_renumbered_all_resend(before, cleared, before.resend);
        }
    }

    /// Queues the datagram `index` again at once: the peer has asked for it.
    pub fn resend(&mut self, index: u32)
        requires
            old(self).wf(),
        ensures
            final(self)@ == old(self)@.renumbered(index),
            final(self).wf(),
    {
        self.renumber(index);
    }

    /// Hands out the datagrams to send now: those that wait, with the due
    /// ones among them under new sequence numbers.
    pub fn get_packet(&mut self, time: u128) -> (r: Vec<FrameSet>)
        requires
            old(self).wf(),
        ensures
            final(self)@ == old(self)@.sent(time),
            set_views(r@) == unsent(
                old(self)@.prepared(time).sets,
                old(self)@.prepared(time).send_min,
            ),
            final(self).wf(),
    {
        self.tick(time);
        self.readd();
        let ghost ready = self@;
        let now: u128 = self.last_tick;
        let mut ret: Vec<FrameSet> = Vec::new();
        let mut i: usize = 0;
        assert(ready.sets.take(0) =~= Seq::<RetainedView>::empty());
        assert(set_views(ret@) =~= unsent(ready.sets.take(0), ready.send_min));
        while i < self.sets.len()
            invariant
                i <= self.sets@.len(),
                ready.wf(),
                self.sets@.len() == ready.sets.len(),
                now == ready.last_tick,
                self.set_size == total_length(ready.batch),
                self@ == (PacketQueueView { sets: self@.sets, ..ready }),
                forall|j: int|
                    0 <= j < i ==> (#[trigger] self@.sets[j]) == stamped(
                        ready.sets,
                        ready.send_min,
                        now,
                    )[j],
                forall|j: int|
                    i <= j < ready.sets.len() ==> (#[trigger] self@.sets[j]) == ready.sets[j],
                set_views(ret@) == unsent(ready.sets.take(i as int), ready.send_min),
            decreases self.sets@.len() - i,
        {
            proof {
                assert(ready.sets.take(i as int + 1).drop_last() =~= ready.sets.take(i as int));
                assert(ready.sets.take(i as int + 1).last() == ready.sets[i as int]);
                assert(self@.sets[i as int] == ready.sets[i as int]);
                assert(self@.sets[i as int] == self.sets@[i as int]@);
            }
            let ghost had = set_views(ret@);
            let ghost kept = self@.sets;
            if self.sets[i].set.sequence_number >= self.send_min {
                ret.push(self.sets[i].set.clone());
                assert(set_views(ret@) =~= had.push(ready.sets[i as int].set));
                self.sets[i].sent_at = now;
                proof {
                    assert(self@.sets =~= kept.update(
                        i as int,
                        RetainedView { sent_at: now, ..kept[i as int] },
                    ));
                }
            }
            i += 1;
        }
        proof {
            assert(ready.sets.take(i as int) =~= ready.sets);
            assert(self@.sets =~= stamped(ready.sets, ready.send_min, now));
            lemma_stamped_wf(ready);
        }
        self.send_min = self.max;
        ret
    }
}

/// The views of datagrams.
pub open spec fn set_views(sets: Seq<FrameSet>) -> Seq<FrameSetView> {
    sets.map_values(|s: FrameSet| s@)
}

/// A datagram behind the others, with a sequence number above theirs,
/// leaves the sequence numbers rising.
pub proof fn lemma_push_rising(sets: Seq<RetainedView>, e: RetainedView)
    requires
        rising(sets),
        forall|i: int|
            0 <= i < sets.len() ==> (#[trigger] sets[i]).set.sequence_number
                < e.set.sequence_number,
    ensures
        rising(sets.push(e)),
{
    let p = sets.push(e);
    assert forall|i: int, j: int| 0 <= i < j < p.len() implies (
    #[trigger] p[i]).set.sequence_number < (#[trigger] p[j]).set.sequence_number by {
        assert(p[i] == sets[i]);
        if j < sets.len() {
            assert(p[j] == sets[j]);
        }
    }
}

/// A datagram less leaves the sequence numbers rising.
pub proof fn lemma_remove_rising(sets: Seq<RetainedView>, at: int)
    requires
        rising(sets),
        0 <= at < sets.len(),
    ensures
        rising(sets.remove(at)),
{
    let p = sets.remove(at);
    assert forall|i: int, j: int| 0 <= i < j < p.len() implies (
    #[trigger] p[i]).set.sequence_number < (#[trigger] p[j]).set.sequence_number by {
        let a = if i < at {
            i
        } else {
            i + 1
        };
        let b = if j < at {
            j
        } else {
            j + 1
        };
        assert(p[i] == sets[a]);
        assert(p[j] == sets[b]);
    }
}

/// Queueing datagrams again does not look at the list of those noted.
pub proof fn lemma_renumbered_all_resend(
    a: PacketQueueView,
    b: PacketQueueView,
    sequences: Seq<u32>,
)
    requires
        b == (PacketQueueView { resend: Seq::<u32>::empty(), ..a }),
    ensures
        b.renumbered_all(sequences) == (PacketQueueView {
            resend: Seq::<u32>::empty(),
            ..a.renumbered_all(sequences)
        }),
    decreases sequences.len(),
{
    if sequences.len() > 0 {
        lemma_renumbered_all_resend(a, b, sequences.drop_last());
    }
}

/// Once a datagram is acknowledged, none with its sequence number is kept:
/// it is not sent again.
pub proof fn lemma_acknowledged_forgets(v: PacketQueueView, sequence: u32)
    requires
        v.wf(),
    ensures
        !holds(v.acknowledged(sequence).sets, sequence),
        v.acknowledged(sequence).sets.len() <= v.sets.len(),
{
    let after = v.acknowledged(sequence).sets;
    if holds(v.sets, sequence) {
        let at = place(v.sets, sequence);
        if holds(after, sequence) {
            let i = place(after, sequence);
            if i < at {
                assert(after[i] == v.sets[i]);
                assert(v.sets[i].set.sequence_number < v.sets[at].set.sequence_number);
            } else {
                assert(after[i] == v.sets[i + 1]);
                assert(v.sets[at].set.sequence_number < v.sets[i + 1].set.sequence_number);
            }
        }
    }
}

/// A datagram that is queued again is kept once, under the next sequence
/// number and with the frames it had; its old number is kept no more.
pub proof fn lemma_renumbered_moves(v: PacketQueueView, sequence: u32)
    requires
        v.wf(),
        holds(v.sets, sequence),
        v.max < u32::MAX,
    ensures
        !holds(v.renumbered(sequence).sets, sequence),
        v.renumbered(sequence).sets.len() == v.sets.len(),
        v.renumbered(sequence).sets.last().set.sequence_number == v.max,
        v.renumbered(sequence).sets.last().set.datas == v.sets[place(v.sets, sequence)].set.datas,
        v.renumbered(sequence).max == v.max + 1,
{
    let at = place(v.sets, sequence);
    let after = v.renumbered(sequence).sets;
    assert(v.sets[at].set.sequence_number < v.max);
    if holds(after, sequence) {
        let i = place(after, sequence);
        if i < at {
            assert(after[i] == v.sets[i]);
            assert(v.sets[i].set.sequence_number < v.sets[at].set.sequence_number);
        } else if i < after.len() - 1 {
            assert(after[i] == v.sets[i + 1]);
            assert(v.sets[at].set.sequence_number < v.sets[i + 1].set.sequence_number);
        }
    }
}

/// A datagram of sound frames leaves the queue sound.
pub proof fn lemma_enqueued_sound(v: PacketQueueView, set: FrameSetView)
    requires
        v.sound(),
        frames_sound(set.datas),
    ensures
        v.enqueued(set).sound(),
{
    let after = v.enqueued(set).sets;
    assert forall|i: int| 0 <= i < after.len() implies frames_sound(
        (#[trigger] after[i]).set.datas,
    ) by {
        if i < v.sets.len() {
            assert(after[i] == v.sets[i]);
        }
    }
}

/// The frames gathered become a sound datagram.
pub proof fn lemma_flushed_sound(v: PacketQueueView)
    requires
        v.sound(),
    ensures
        v.flushed().sound(),
{
    if v.batch.len() > 0 {
        lemma_enqueued_sound(
            v,
            FrameSetView { header: HEADER_FRAMES, sequence_number: v.max, datas: v.batch },
        );
    }
}

/// A sound frame leaves the queue sound.
pub proof fn lemma_with_frame_sound(v: PacketQueueView, frame: FrameView)
    requires
        v.sound(),
        frame.encodable(),
        frame.canonical(),
    ensures
        v.with_frame(frame).sound(),
{
    if v.gathers(frame) {
        let batch = v.batch.push(frame);
        assert forall|i: int| 0 <= i < batch.len() implies (#[trigger] batch[i]).encodable()
            && batch[i].canonical() by {
            if i < v.batch.len() {
                assert(batch[i] == v.batch[i]);
            }
        }
    } else {
        lemma_flushed_sound(v);
        let flushed = v.flushed();
        lemma_enqueued_sound(
            flushed,
            FrameSetView {
                header: if frame.split {
                    HEADER_SPLIT
                } else {
                    HEADER_FRAMES
                },
                sequence_number: flushed.max,
                datas: seq![frame],
            },
        );
    }
}

/// An acknowledgement leaves the queue sound.
pub proof fn lemma_acknowledged_sound(v: PacketQueueView, sequence: u32)
    requires
        v.sound(),
    ensures
        v.acknowledged(sequence).sound(),
{
    if holds(v.sets, sequence) {
        let at = place(v.sets, sequence);
        let after = v.acknowledged(sequence).sets;
        assert forall|i: int| 0 <= i < after.len() implies frames_sound(
            (#[trigger] after[i]).set.datas,
        ) by {
            if i < at {
                assert(after[i] == v.sets[i]);
            } else {
                assert(after[i] == v.sets[i + 1]);
            }
        }
    }
}

/// Queueing a datagram again leaves the queue sound.
pub proof fn lemma_renumbered_sound(v: PacketQueueView, sequence: u32)
    requires
        v.sound(),
    ensures
        v.renumbered(sequence).sound(),
{
    if holds(v.sets, sequence) && v.max < u32::MAX {
        let at = place(v.sets, sequence);
        let after = v.renumbered(sequence).sets;
        assert forall|i: int| 0 <= i < after.len() implies frames_sound(
            (#[trigger] after[i]).set.datas,
        ) by {
            if i < at {
                assert(after[i] == v.sets[i]);
            } else if i < after.len() - 1 {
                assert(after[i] == v.sets[i + 1]);
            } else {
                assert(after[i].set.datas == v.sets[at].set.datas);
            }
        }
    }
}

/// Queueing datagrams again leaves the queue sound.
pub proof fn lemma_renumbered_all_sound(v: PacketQueueView, sequences: Seq<u32>)
    requires
        v.sound(),
    ensures
        v.renumbered_all(sequences).sound(),
    decreases sequences.len(),
{
    if sequences.len() > 0 {
        lemma_renumbered_all_sound(v, sequences.drop_last());
        lemma_renumbered_sound(v.renumbered_all(sequences.drop_last()), sequences.last());
    }
}

/// Sending what waits leaves the queue sound, and what is sent is sound.
pub proof fn lemma_sent_sound(v: PacketQueueView, time: u128)
    requires
        v.sound(),
    ensures
        v.prepared(time).sound(),
        v.sent(time).sound(),
{
    lemma_flushed_sound(v);
    let ticked = v.ticked(time);
    lemma_renumbered_all_sound(ticked, ticked.resend);
    let ready = v.prepared(time);
    let after = v.sent(time).sets;
    assert forall|i: int| 0 <= i < after.len() implies frames_sound(
        (#[trigger] after[i]).set.datas,
    ) by {
        assert(after[i].set == ready.sets[i].set);
    }
}

/// The datagrams that have not been sent are among those kept.
pub proof fn lemma_unsent_member(sets: Seq<RetainedView>, send_min: u32, k: int)
    requires
        0 <= k < unsent(sets, send_min).len(),
    ensures
        exists|i: int| 0 <= i < sets.len() && (#[trigger] sets[i]).set == unsent(sets, send_min)[k],
    decreases sets.len(),
{
    if sets.len() > 0 {
        let front = sets.drop_last();
        if k < unsent(front, send_min).len() {
            lemma_unsent_member(front, send_min, k);
            let i = choose|i: int|
                0 <= i < front.len() && (#[trigger] front[i]).set == unsent(front, send_min)[k];
            assert(sets[i].set == unsent(sets, send_min)[k]);
        } else {
            assert(sets[sets.len() - 1].set == unsent(sets, send_min)[k]);
        }
    }
}

/// Sending what waits leaves the queue well formed.
pub proof fn lemma_stamped_wf(v: PacketQueueView)
    requires
        v.wf(),
    ensures
        (PacketQueueView {
            sets: stamped(v.sets, v.send_min, v.last_tick),
            send_min: v.max,
            ..v
        }).wf(),
{
    let s = stamped(v.sets, v.send_min, v.last_tick);
    assert forall|i: int, j: int| 0 <= i < j < s.len() implies (
    #[trigger] s[i]).set.sequence_number < (#[trigger] s[j]).set.sequence_number by {
        assert(s[i].set == v.sets[i].set);
        assert(s[j].set == v.sets[j].set);
    }
    assert forall|i: int| 0 <= i < s.len() implies (#[trigger] s[i]).set.sequence_number < v.max
        && s[i].sent_at <= v.last_tick by {
        assert(s[i].set == v.sets[i].set);
    }
}

} // verus!
