//! What the receiving side keeps: which datagrams arrived, and the pieces of
//! split messages.

use crate::address::Address;
use crate::bytes::append_bytes;
use crate::error::CodecError;
use crate::packets::frame::{Frame, FrameView};
use crate::packets::ranges::{numbers, range_numbers};
use crate::packets::Reliability;
use std::collections::HashMap;
use vstd::prelude::*;
use vstd::set_lib::{lemma_len_subset, lemma_subset_equality};

verus! {

/// `n` lies in the range `r`, ends included.
pub open spec fn in_range(r: (u32, u32), n: int) -> bool {
    r.0 <= n <= r.1
}

/// Some range of `r` holds `n`.
pub open spec fn covers(r: Seq<(u32, u32)>, n: int) -> bool {
    exists|i: int| 0 <= i < r.len() && #[trigger] in_range(r[i], n)
}

/// Every range is in order, and each range ends before the next begins.
pub open spec fn disjoint_rising(r: Seq<(u32, u32)>) -> bool {
    &&& forall|i: int| 0 <= i < r.len() ==> (#[trigger] r[i]).0 <= r[i].1
    &&& forall|i: int, j: int| 0 <= i < j < r.len() ==> (#[trigger] r[i]).1 < (#[trigger] r[j]).0
}

/// Every range is in order, and between a range and the next at least one
/// number is left out: no two ranges could be one.
pub open spec fn coalesced(r: Seq<(u32, u32)>) -> bool {
    &&& forall|i: int| 0 <= i < r.len() ==> (#[trigger] r[i]).0 <= r[i].1
    &&& forall|i: int, j: int|
        0 <= i < j < r.len() ==> (#[trigger] r[i]).1 + 1 < (#[trigger] r[j]).0
}

/// `s` without the first `x` in it.
pub open spec fn remove_first(s: Seq<u32>, x: u32) -> Seq<u32>
    decreases s.len(),
{
    if s.len() == 0 {
        s
    } else if s[0] == x {
        s.skip(1)
    } else {
        seq![s[0]] + remove_first(s.skip(1), x)
    }
}

/// The list of missing numbers after `sequence` arrived: `sequence` is
/// struck from it once, and where `sequence` lies more than one above the
/// greatest number that arrived before, every number between the two is
/// added.
pub open spec fn missing_after(highest: Option<u32>, missing: Seq<u32>, sequence: u32) -> Seq<u32> {
    let kept = remove_first(missing, sequence);
    match highest {
        Some(h) => if h + 1 < sequence {
            kept + numbers((h + 1) as u32, (sequence - 1) as u32)
        } else {
            kept
        },
        None => kept,
    }
}

/// The greatest number that arrived, after `sequence` arrived.
pub open spec fn highest_after(highest: Option<u32>, sequence: u32) -> Option<u32> {
    match highest {
        Some(h) => if h < sequence {
            Some(sequence)
        } else {
            Some(h)
        },
        None => Some(sequence),
    }
}

/// `r` is the fewest ranges in order that hold `sequence` and what `before`
/// holds, and nothing else.
pub open spec fn is_ranges_after(before: Seq<(u32, u32)>, sequence: u32, r: Seq<(u32, u32)>) -> bool {
    &&& coalesced(r)
    &&& forall|n: int| covers(r, n) <==> covers(before, n) || n == sequence
}

/// The ranges after `sequence` arrived: the fewest ranges in order that
/// hold `sequence` and what the ranges held before.
pub open spec fn ranges_after(before: Seq<(u32, u32)>, sequence: u32) -> Seq<(u32, u32)> {
    choose|r: Seq<(u32, u32)>| is_ranges_after(before, sequence, r)
}

/// The sequence numbers of the datagrams that arrived, as ranges, and the
/// numbers that were passed over.
pub struct ACKQueue {
    packets: Vec<(u32, u32)>,
    missing: Vec<u32>,
    highest: Option<u32>,
}

impl Default for ACKQueue {
    fn default() -> (r: Self)
        ensures
            r.ranges() == Seq::<(u32, u32)>::empty(),
            r.missing() == Seq::<u32>::empty(),
            r.highest() is None,
    {
        Self::new()
    }
}

impl ACKQueue {
    /// The greatest number that ever arrived.
    pub closed spec fn highest(&self) -> Option<u32> {
        self.highest
    }

    /// The ranges received and not yet handed out, least first.
    pub closed spec fn ranges(&self) -> Seq<(u32, u32)> {
        self.packets@
    }

    /// The numbers passed over and not yet received, in the order in which
    /// they were found missing.
    pub closed spec fn missing(&self) -> Seq<u32> {
        self.missing@
    }

    /// The ranges are in order, apart, and as few as can be.
    pub open spec fn wf(&self) -> bool {
        coalesced(self.ranges())
    }

    pub fn new() -> (r: Self)
        ensures
            r.ranges() == Seq::<(u32, u32)>::empty(),
            r.missing() == Seq::<u32>::empty(),
            r.highest() is None,
            r.wf(),
    {
        Self { packets: Vec::new(), missing: Vec::new(), highest: None }
    }

    /// Strikes the first `sequence` from the missing numbers.
    fn arrived_late(&mut self, sequence: u32)
        ensures
            final(self).ranges() == old(self).ranges(),
            final(self).highest() == old(self).highest(),
            final(self).missing() == remove_first(old(self).missing(), sequence),
    {
        let mut k: usize = 0;
        while k < self.missing.len() && self.missing[k] != sequence
            invariant
                k <= self.missing@.len(),
                self.missing@ == old(self).missing@,
                self.packets@ == old(self).packets@,
                self.highest == old(self).highest,
                forall|j: int| 0 <= j < k ==> self.missing@[j] != sequence,
            decreases self.missing@.len() - k,
        {
            k += 1;
        }
        if k < self.missing.len() {
            proof {
                lemma_remove_first_at(self.missing@, sequence, k as int);
            }
            self.missing.remove(k);
        } else {
            proof {
                lemma_remove_first_absent(self.missing@, sequence);
            }
        }
    }

    /// Takes note that the datagram numbered `sequence` arrived. A number
    /// that is held already changes no range.
    pub fn add(&mut self, sequence: u32)
        requires
            old(self).wf(),
        ensures
            final(self).wf(),
            forall|n: int|
                covers(final(self).ranges(), n) <==> covers(old(self).ranges(), n) || n
                    == sequence,
            final(self).missing() == missing_after(
                old(self).highest(),
                old(self).missing(),
                sequence,
            ),
            final(self).highest() == highest_after(old(self).highest(), sequence),
            final(self).ranges() == ranges_after(old(self).ranges(), sequence),
    {
        proof {
            lemma_ranges_after_any(old(self).ranges(), sequence);
        }
        self.arrived_late(sequence);
        match self.highest {
            Some(h) => {
                if h < sequence {
                    if h + 1 < sequence {
                        let mut skipped: Vec<u32> = range_numbers(h + 1, sequence - 1);
                        self.missing.append(&mut skipped);
                    }
                    self.highest = Some(sequence);
                }
            },
            None => {
                self.highest = Some(sequence);
            },
        }
        let ghost before = self.packets@;
        let len: usize = self.packets.len();
        let mut i: usize = 0;
        while i < len && self.packets[i].1 < sequence
            invariant
                i <= len,
                len == self.packets@.len(),
                self.packets@ == before,
                forall|j: int| 0 <= j < i ==> (#[trigger] before[j]).1 < sequence,
            decreases len - i,
        {
            i += 1;
        }
        if i < len && self.packets[i].0 <= sequence {
            assert(in_range(before[i as int], sequence as int));
            assert(is_ranges_after(before, sequence, self.packets@));
            return ;
        }
        assert(!covers(before, sequence as int)) by {
            if covers(before, sequence as int) {
                let k = choose|k: int| 0 <= k < before.len() && #[trigger] in_range(
                    before[k],
                    sequence as int,
                );
                if k < i {
                    assert(before[k].1 < sequence);
                } else if k > i {
                    assert(before[i as int].1 + 1 < before[k].0);
                }
            }
        }
        let grows: bool = i > 0 && self.packets[i - 1].1 + 1 == sequence;
        if grows {
            let least: u32 = self.packets[i - 1].0;
            self.packets[i - 1] = (least, sequence);
            proof {
                assert forall|n: int| covers(self.packets@, n) <==> covers(before, n) || n
                    == sequence by {
                    lemma_covers_extend(before, i as int - 1, sequence, n);
                }
            }
        } else {
            self.packets.insert(i, (sequence, sequence));
            proof {
                assert forall|n: int| covers(self.packets@, n) <==> covers(before, n) || n
                    == sequence by {
                    lemma_covers_insert(before, i as int, (sequence, sequence), n);
                }
                assert(disjoint_rising(self.packets@)) by {
                    lemma_insert_rising(before, i as int, (sequence, sequence));
                }
            }
        }
        self.clean();
        assert(is_ranges_after(before, sequence, self.packets@));
    }

    /// Makes one range of every two that touch.
    pub fn clean(&mut self)
        requires
            disjoint_rising(old(self).ranges()),
        ensures
            final(self).wf(),
            forall|n: int| covers(final(self).ranges(), n) <==> covers(old(self).ranges(), n),
            coalesced(old(self).ranges()) ==> final(self).ranges() == old(self).ranges(),
            final(self).missing() == old(self).missing(),
            final(self).highest() == old(self).highest(),
    {
        let mut out: Vec<(u32, u32)> = Vec::new();
        let mut i: usize = 0;
        let ghost all = self.packets@;
        assert(all.take(0) =~= Seq::<(u32, u32)>::empty());
        while i < self.packets.len()
            invariant
                i <= self.packets@.len(),
                self.packets@ == all,
                self.missing@ == old(self).missing@,
                self.highest == old(self).highest,
                disjoint_rising(all),
                coalesced(out@),
                i > 0 ==> out@.len() > 0 && out@.last().1 == all[i - 1].1,
                i == 0 ==> out@.len() == 0,
                forall|n: int| covers(out@, n) <==> covers(all.take(i as int), n),
            decreases self.packets@.len() - i,
        {
            let r: (u32, u32) = self.packets[i];
            let k: usize = out.len();
            let ghost merged = out@;
            proof {
                assert(all.take(i as int + 1) =~= all.take(i as int).push(r));
                if i > 0 {
                    assert(all[i as int - 1].1 < all[i as int].0);
                }
            }
            if k > 0 && out[k - 1].1 + 1 == r.0 {
                let least: u32 = out[k - 1].0;
                out[k - 1] = (least, r.1);
                proof {
                    assert forall|n: int| covers(out@, n) <==> covers(
                        all.take(i as int + 1),
                        n,
                    ) by {
                        lemma_covers_extend(merged, k as int - 1, r.1, n);
                        lemma_covers_push(all.take(i as int), r, n);
                    }
                }
            } else {
                out.push(r);
                proof {
                    assert forall|n: int| covers(out@, n) <==> covers(
                        all.take(i as int + 1),
                        n,
                    ) by {
                        lemma_covers_push(merged, r, n);
                        lemma_covers_push(all.take(i as int), r, n);
                    }
                }
            }
            i += 1;
        }
        assert(all.take(i as int) =~= all);
        proof {
            if coalesced(all) {
                lemma_coalesced_unique(out@, all);
            }
        }
        self.packets = out;
    }

    /// Hands out the ranges received and forgets them.
    pub fn get_send_able_and_clear(&mut self) -> (r: Vec<(u32, u32)>)
        ensures
            r@ == old(self).ranges(),
            final(self).ranges() == Seq::<(u32, u32)>::empty(),
            final(self).missing() == old(self).missing(),
            final(self).highest() == old(self).highest(),
            final(self).wf(),
    {
        let mut ret: Vec<(u32, u32)> = Vec::new();
        ret.append(&mut self.packets);
        assert(ret@ =~= old(self).ranges());
        ret
    }

    /// The numbers that were passed over and have not arrived since.
    pub fn get_missing(&self) -> (r: Vec<u32>)
        ensures
            r@ == self.missing(),
    {
        let r: Vec<u32> = self.missing.clone();
        assert(r@ =~= self.missing@);
        r
    }

    pub fn get_missing_len(&self) -> (r: usize)
        ensures
            r == self.missing().len(),
    {
        self.missing.len()
    }
}

/// A split message being put together, with its pieces as sequences.
pub ghost struct SplitPacketView {
    pub split_size: u32,
    pub fragments: Map<u32, Seq<u8>>,
    pub reliability: Reliability,
    pub message_index: u32,
    pub order_index: u32,
    pub full: bool,
}

/// The numbers below `n`.
pub open spec fn below(n: u32) -> Set<u32> {
    Set::new(|k: u32| k < n)
}

/// The first `n` pieces, one behind the other.
pub open spec fn assembled(fragments: Map<u32, Seq<u8>>, n: nat) -> Seq<u8>
    decreases n,
{
    if n == 0 {
        Seq::<u8>::empty()
    } else {
        assembled(fragments, (n - 1) as nat) + fragments[(n - 1) as u32]
    }
}

impl SplitPacketView {
    /// The message has pieces, and each has arrived.
    pub open spec fn complete(self) -> bool {
        self.split_size > 0 && self.fragments.dom() == below(self.split_size)
    }

    /// No piece lies outside the message, and the message is marked full
    /// exactly when it is complete.
    pub open spec fn wf(self) -> bool {
        &&& self.fragments.dom().subset_of(below(self.split_size))
        &&& self.full <==> self.complete()
    }

    /// The message after the piece `index` arrived. A piece outside the
    /// message is dropped; one that arrives again takes the place of the
    /// first.
    pub open spec fn added(self, index: u32, payload: Seq<u8>) -> SplitPacketView {
        if index < self.split_size {
            let fragments = self.fragments.insert(index, payload);
            SplitPacketView {
                fragments,
                full: self.full || fragments.dom() == below(self.split_size),
                ..self
            }
        } else {
            self
        }
    }

    /// The whole message, in a frame of the message's mode and order index.
    pub open spec fn frame(self) -> FrameView {
        FrameView {
            reliability: self.reliability,
            message_index: 0,
            sequence_index: 0,
            order_index: self.order_index,
            split: false,
            split_count: 0,
            split_index: 0,
            split_id: 0,
            data: assembled(self.fragments, self.split_size as nat),
        }
    }
}

/// The pieces of one split message.
pub struct SplitPacket {
    split_size: u32,
    data: HashMap<u32, Vec<u8>>,
    reliability: Reliability,
    message_index: u32,
    order_index: u32,
    full: bool,
}

impl View for SplitPacket {
    type V = SplitPacketView;

    closed spec fn view(&self) -> SplitPacketView {
        SplitPacketView {
            split_size: self.split_size,
            fragments: self.data@.map_values(|v: Vec<u8>| v@),
            reliability: self.reliability,
            message_index: self.message_index,
            order_index: self.order_index,
            full: self.full,
        }
    }
}

impl Clone for SplitPacket {
    fn clone(&self) -> (r: Self)
        ensures
            r@ == self@,
    {
        Self {
            split_size: self.split_size,
            data: self.data.clone(),
            reliability: self.reliability,
            message_index: self.message_index,
            order_index: self.order_index,
            full: self.full,
        }
    }
}

impl SplitPacket {
    /// A message of `split_size` pieces of which none has arrived.
    pub fn new(
        split_size: u32,
        message_index: u32,
        order_index: u32,
        reliability: Reliability,
    ) -> (r: Self)
        ensures
            r@ == (SplitPacketView {
                split_size,
                fragments: Map::<u32, Seq<u8>>::empty(),
                reliability,
                message_index,
                order_index,
                full: false,
            }),
            r@.wf(),
    {
        let r = Self {
            split_size,
            data: HashMap::new(),
            reliability,
            message_index,
            order_index,
            full: false,
        };
        proof {
            assert(r@.fragments =~= Map::<u32, Seq<u8>>::empty());
            if split_size > 0 {
                assert(below(split_size).contains(0u32));
            }
        }
        r
    }

    /// Takes the piece `index`.
    pub fn add(&mut self, index: u32, payload: &[u8])
        requires
            old(self)@.wf(),
        ensures
            final(self)@ == old(self)@.added(index, payload@),
            final(self)@.wf(),
    {
        broadcast use vstd::std_specs::hash::group_hash_axioms;

        if index < self.split_size {
            let mut piece: Vec<u8> = Vec::new();
            append_bytes(&mut piece, payload);
            self.data.insert(index, piece);
            proof {
                let size = self.split_size;
                let held = self.data@.dom();
                assert(self@.fragments =~= old(self)@.fragments.insert(index, payload@));
                assert(self@.fragments.dom() =~= held);
                lemma_below_len(size);
                assert(held.subset_of(below(size)));
                if held.len() == size {
                    lemma_subset_equality(held, below(size));
                    assert(held =~= below(size));
                }
            }
            if self.data.len() == self.split_size as usize {
                self.full = true;
            }
        }
    }

    pub fn is_full(&self) -> (r: bool)
        ensures
            r == self@.full,
    {
        self.full
    }

    /// The pieces of a full message, one behind the other.
    pub fn get_all(&mut self) -> (r: Vec<u8>)
        requires
            old(self)@.wf(),
            old(self)@.full,
        ensures
            r@ == assembled(old(self)@.fragments, old(self)@.split_size as nat),
            final(self)@ == old(self)@,
    {
        broadcast use vstd::std_specs::hash::group_hash_axioms;

        let mut ret: Vec<u8> = Vec::new();
        let mut index: u32 = 0;
        while index < self.split_size
            invariant
                *self == *old(self),
                self@.wf(),
                self@.full,
                index <= self.split_size,
                ret@ == assembled(self@.fragments, index as nat),
            decreases self.split_size - index,
        {
            assert(below(self.split_size).contains(index));
            assert(self.data@.dom().contains(index));
            match self.data.get(&index) {
                Some(piece) => {
                    append_bytes(&mut ret, piece.as_slice());
                },
                None => {},
            }
            index += 1;
        }
        ret
    }

    /// The whole message as one frame, or nothing while a piece is missing.
    pub fn get_frame(&mut self) -> (r: Result<Frame, CodecError>)
        requires
            old(self)@.wf(),
        ensures
            final(self)@ == old(self)@,
            match r {
                Ok(f) => old(self)@.full && f@ == old(self)@.frame(),
                Err(e) => !old(self)@.full && e == CodecError::MissingFragment,
            },
    {
        if !self.full {
            return Err(CodecError::MissingFragment);
        }
        let buff: Vec<u8> = self.get_all();
        let mut frame = Frame::new(self.reliability, buff.as_slice());
        frame.order_index = self.order_index;
        Ok(frame)
    }
}

/// The messages being put together, each under the id of its split, with
/// their pieces as sequences.
pub type PoolView = Seq<(u16, SplitPacketView)>;

/// Some message of the pool has the id `id`.
pub open spec fn pool_holds(pool: PoolView, id: u16) -> bool {
    exists|i: int| 0 <= i < pool.len() && (#[trigger] pool[i]).0 == id
}

/// Where the message with the id `id` stands in the pool.
pub open spec fn pool_index(pool: PoolView, id: u16) -> int {
    choose|i: int| 0 <= i < pool.len() && (#[trigger] pool[i]).0 == id
}

/// No two messages of the pool have one id, and each message is well
/// formed.
pub open spec fn pool_wf(pool: PoolView) -> bool {
    &&& forall|i: int, j: int|
        0 <= i < j < pool.len() ==> (#[trigger] pool[i]).0 != (#[trigger] pool[j]).0
    &&& forall|i: int| 0 <= i < pool.len() ==> (#[trigger] pool[i]).1.wf()
}

/// The message that a first piece opens.
pub open spec fn opened_by(frame: FrameView) -> SplitPacketView {
    SplitPacketView {
        split_size: frame.split_count,
        fragments: Map::<u32, Seq<u8>>::empty(),
        reliability: frame.reliability,
        message_index: frame.message_index,
        order_index: frame.order_index,
        full: false,
    }
}

/// The pool after the piece `frame` arrived: the piece goes to the message
/// with its split id, which is opened behind the others where the pool has
/// none.
pub open spec fn pool_after(pool: PoolView, frame: FrameView) -> PoolView {
    if pool_holds(pool, frame.split_id) {
        let at = pool_index(pool, frame.split_id);
        pool.update(at, (frame.split_id, pool[at].1.added(frame.split_index, frame.data)))
    } else {
        pool.push((frame.split_id, opened_by(frame).added(frame.split_index, frame.data)))
    }
}

/// The split messages that are being put together.
pub struct SplitPacketQueue {
    pool: Vec<(u16, SplitPacket)>,
}

impl Default for SplitPacketQueue {
    fn default() -> (r: Self)
        ensures
            r@ == PoolView::empty(),
    {
        Self::new()
    }
}

impl View for SplitPacketQueue {
    type V = PoolView;

    closed spec fn view(&self) -> PoolView {
        pool_views(self.pool@)
    }
}

impl SplitPacketQueue {
    pub fn new() -> (r: Self)
        ensures
            r@ == PoolView::empty(),
            pool_wf(r@),
    {
        let r = Self { pool: Vec::new() };
        assert(r@ =~= PoolView::empty());
        r
    }

    /// Takes a piece of a split message.
    pub fn add(&mut self, frame: &Frame)
        requires
            pool_wf(old(self)@),
        ensures
            final(self)@ == pool_after(old(self)@, frame@),
            pool_wf(final(self)@),
    {
        let ghost before = self@;
        let mut i: usize = 0;
        while i < self.pool.len() && self.pool[i].0 != frame.split_id
            invariant
                i <= self.pool@.len(),
                *self == *old(self),
                before == self@,
                forall|j: int| 0 <= j < i ==> (#[trigger] before[j]).0 != frame.split_id,
            decreases self.pool@.len() - i,
        {
            assert(before[i as int].0 == self.pool@[i as int].0);
            i += 1;
        }
        if i < self.pool.len() {
            proof {
                assert(before[i as int].0 == frame.split_id);
                assert(pool_index(before, frame.split_id) == i);
            }
            let ghost table = self.pool@;
            assert(table[i as int].1@ == before[i as int].1);
            self.pool[i].1.add(frame.split_index, frame.data.as_slice());
            proof {
                assert forall|j: int| 0 <= j < table.len() && j != i implies self.pool@[j]
                    == table[j] by {}
                assert(self.pool@[i as int].0 == table[i as int].0);
            }
            assert(self@ =~= pool_after(before, frame@));
        } else {
            let mut new_split = SplitPacket::new(
                frame.split_count,
                frame.message_index,
                frame.sequence_index,
                frame.reliability,
            );
            new_split.order_index = frame.order_index;
            assert(new_split@ == opened_by(frame@));
            new_split.add(frame.split_index, frame.data.as_slice());
            self.pool.push((frame.split_id, new_split));
            assert(self@ =~= pool_after(before, frame@));
        }
    }

    /// Hands out the messages that are full, in the order in which they
    /// were opened, and keeps the others.
    pub fn get_and_clear(&mut self) -> (r: Vec<SplitPacket>)
        requires
            pool_wf(old(self)@),
        ensures
            split_views(r@) == full_of(old(self)@),
            final(self)@ == open_of(old(self)@),
            pool_wf(final(self)@),
    {
        let ghost before = self@;
        let mut ret: Vec<SplitPacket> = Vec::new();
        let mut i: usize = 0;
        let ghost mut k: int = 0;
        assert(before.take(0) =~= PoolView::empty());
        assert(split_views(ret@) =~= full_of(before.take(0)));
        assert(pool_views(self.pool@).take(0) =~= open_of(before.take(0)));
        assert(pool_views(self.pool@).skip(0) =~= before.skip(0));
        while i < self.pool.len()
            invariant
                0 <= k <= before.len(),
                i <= self.pool@.len(),
                self.pool@.len() - i == before.len() - k,
                split_views(ret@) == full_of(before.take(k)),
                pool_views(self.pool@).take(i as int) == open_of(before.take(k)),
                pool_views(self.pool@).skip(i as int) == before.skip(k),
            decreases self.pool@.len() - i,
        {
            let ghost table = pool_views(self.pool@);
            let ghost had = split_views(ret@);
            proof {
                assert(before.take(k + 1).drop_last() =~= before.take(k));
                assert(before.take(k + 1).last() == before[k]);
                assert(table[i as int] == table.skip(i as int)[0]);
                assert(table[i as int] == before[k]);
            }
            if self.pool[i].1.is_full() {
                let entry: (u16, SplitPacket) = self.pool.remove(i);
                proof {
                    let shorter = pool_views(self.pool@);
                    assert(shorter =~= table.remove(i as int));
                    assert(shorter.take(i as int) =~= table.take(i as int));
                    assert(shorter.skip(i as int) =~= table.skip(i as int).skip(1));
                    assert(before.skip(k).skip(1) =~= before.skip(k + 1));
                }
                ret.push(entry.1);
                assert(split_views(ret@) =~= had.push(before[k].1));
            } else {
                proof {
                    assert(table.take(i as int + 1) =~= table.take(i as int).push(before[k]));
                    assert(table.skip(i as int + 1) =~= table.skip(i as int).skip(1));
                    assert(before.skip(k).skip(1) =~= before.skip(k + 1));
                }
                i += 1;
            }
            proof {
                k = k + 1;
            }
        }
        proof {
            assert(before.take(k) =~= before);
            assert(pool_views(self.pool@).take(i as int) =~= pool_views(self.pool@));
            lemma_open_of_wf(before);
        }
        ret
    }
}

/// The views of messages.
pub open spec fn split_views(messages: Seq<SplitPacket>) -> Seq<SplitPacketView> {
    messages.map_values(|p: SplitPacket| p@)
}

/// The views of the messages of a pool, each with its id.
pub open spec fn pool_views(pool: Seq<(u16, SplitPacket)>) -> PoolView {
    pool.map_values(|e: (u16, SplitPacket)| (e.0, e.1@))
}

/// The messages of the pool that are full, in the order of the pool.
pub open spec fn full_of(pool: PoolView) -> Seq<SplitPacketView>
    decreases pool.len(),
{
    if pool.len() == 0 {
        Seq::<SplitPacketView>::empty()
    } else if pool.last().1.full {
        full_of(pool.drop_last()).push(pool.last().1)
    } else {
        full_of(pool.drop_last())
    }
}

/// The messages of the pool that are not full, in the order of the pool.
pub open spec fn open_of(pool: PoolView) -> PoolView
    decreases pool.len(),
{
    if pool.len() == 0 {
        PoolView::empty()
    } else if pool.last().1.full {
        open_of(pool.drop_last())
    } else {
        open_of(pool.drop_last()).push(pool.last())
    }
}

/// Each message that is handed out is well formed and full.
pub proof fn lemma_full_of_wf(pool: PoolView)
    requires
        pool_wf(pool),
    ensures
        forall|k: int|
            0 <= k < full_of(pool).len() ==> (#[trigger] full_of(pool)[k]).wf() && full_of(
                pool,
            )[k].full,
    decreases pool.len(),
{
    if pool.len() > 0 {
        let front = pool.drop_last();
        assert forall|i: int| 0 <= i < front.len() implies (#[trigger] front[i]).1.wf() by {
            assert(front[i] == pool[i]);
        }
        assert forall|i: int, j: int| 0 <= i < j < front.len() implies (#[trigger] front[i]).0
            != (#[trigger] front[j]).0 by {
            assert(front[i] == pool[i] && front[j] == pool[j]);
        }
        lemma_full_of_wf(front);
        assert(pool[pool.len() - 1].1.wf());
    }
}

/// Each message that is kept was in the pool and is not full.
pub proof fn lemma_open_of_member(pool: PoolView, i: int)
    requires
        0 <= i < open_of(pool).len(),
    ensures
        !open_of(pool)[i].1.full,
        exists|k: int| 0 <= k < pool.len() && pool[k] == open_of(pool)[i],
    decreases pool.len(),
{
    if pool.len() > 0 {
        let front = pool.drop_last();
        if i < open_of(front).len() {
            lemma_open_of_member(front, i);
            let k = choose|k: int| 0 <= k < front.len() && front[k] == open_of(front)[i];
            assert(pool[k] == open_of(pool)[i]);
        } else {
            assert(pool[pool.len() - 1] == open_of(pool)[i]);
        }
    }
}

/// The messages of a well-formed pool that are not full are a well-formed
/// pool.
pub proof fn lemma_open_of_wf(pool: PoolView)
    requires
        pool_wf(pool),
    ensures
        pool_wf(open_of(pool)),
    decreases pool.len(),
{
    let kept = open_of(pool);
    if pool.len() > 0 {
        let front = pool.drop_last();
        assert(pool_wf(front)) by {
            assert forall|i: int, j: int| 0 <= i < j < front.len() implies (#[trigger] front[i]).0
                != (#[trigger] front[j]).0 by {
                assert(front[i] == pool[i] && front[j] == pool[j]);
            }
            assert forall|i: int| 0 <= i < front.len() implies (#[trigger] front[i]).1.wf() by {
                assert(front[i] == pool[i]);
            }
        }
        lemma_open_of_wf(front);
        let sub = open_of(front);
        if !pool.last().1.full {
            assert forall|i: int, j: int| 0 <= i < j < kept.len() implies (#[trigger] kept[i]).0
                != (#[trigger] kept[j]).0 by {
                if j == kept.len() - 1 {
                    lemma_open_of_member(front, i);
                    let k = choose|k: int| 0 <= k < front.len() && front[k] == sub[i];
                    assert(pool[k] == kept[i]);
                    assert(pool[pool.len() - 1] == kept[j]);
                } else {
                    assert(kept[i] == sub[i] && kept[j] == sub[j]);
                }
            }
            assert forall|i: int| 0 <= i < kept.len() implies (#[trigger] kept[i]).1.wf() by {
                if i < sub.len() {
                    assert(kept[i] == sub[i]);
                } else {
                    assert(kept[i] == pool[pool.len() - 1]);
                }
            }
        }
    }
}

/// A message as handed to the application: where it came from and what it
/// holds.
#[derive(Debug)]
pub struct RaknetPacket {
    pub address: Address,
    pub guid: u64,
    pub length: usize,
    pub data: Vec<u8>,
}

impl Clone for RaknetPacket {
    fn clone(&self) -> (r: Self)
        ensures
            r.address == self.address,
            r.guid == self.guid,
            r.length == self.length,
            r.data@ == self.data@,
    {
        let data: Vec<u8> = self.data.clone();
        assert(data@ =~= self.data@);
        Self { address: self.address, guid: self.guid, length: self.length, data }
    }
}

impl RaknetPacket {
    pub fn new(address: Address, guid: u64, data: Vec<u8>) -> (r: Self)
        ensures
            r.address == address,
            r.guid == guid,
            r.length == data@.len(),
            r.data == data,
    {
        Self { address, guid, length: data.len(), data }
    }
}

/// There are `n` numbers below `n`.
pub proof fn lemma_below_len(n: u32)
    ensures
        below(n).finite(),
        below(n).len() == n,
    decreases n,
{
    if n == 0 {
        assert(below(n) =~= Set::<u32>::empty());
    } else {
        lemma_below_len((n - 1) as u32);
        assert(below(n) =~= below((n - 1) as u32).insert((n - 1) as u32));
    }
}

/// The first range of coalesced ranges begins at the least number held and
/// ends where the first number is left out.
proof fn lemma_first_range(a: Seq<(u32, u32)>, n: int)
    requires
        coalesced(a),
        a.len() > 0,
    ensures
        covers(a, a[0].0 as int),
        covers(a, n) ==> a[0].0 <= n,
        a[0].0 <= n <= a[0].1 ==> covers(a, n),
        !covers(a, a[0].1 + 1),
        covers(a.skip(1), n) <==> covers(a, n) && n > a[0].1,
        coalesced(a.skip(1)),
{
    let t = a.skip(1);
    assert(in_range(a[0], a[0].0 as int));
    if a[0].0 <= n <= a[0].1 {
        assert(in_range(a[0], n));
    }
    if covers(a, n) {
        let i = choose|i: int| 0 <= i < a.len() && #[trigger] in_range(a[i], n);
        if i > 0 {
            assert(a[0].1 + 1 < a[i].0);
            assert(t[i - 1] == a[i]);
            assert(in_range(t[i - 1], n));
        }
    }
    if covers(a, a[0].1 + 1) {
        let i = choose|i: int| 0 <= i < a.len() && #[trigger] in_range(a[i], a[0].1 + 1);
        if i > 0 {
            assert(a[0].1 + 1 < a[i].0);
        }
    }
    if covers(t, n) {
        let i = choose|i: int| 0 <= i < t.len() && #[trigger] in_range(t[i], n);
        assert(t[i] == a[i + 1]);
        assert(in_range(a[i + 1], n));
        assert(a[0].1 + 1 < a[i + 1].0);
    }
    assert forall|i: int| 0 <= i < t.len() implies (#[trigger] t[i]).0 <= t[i].1 by {
        assert(t[i] == a[i + 1]);
    }
    assert forall|i: int, j: int| 0 <= i < j < t.len() implies (#[trigger] t[i]).1 + 1 < (
    #[trigger] t[j]).0 by {
        assert(t[i] == a[i + 1]);
        assert(t[j] == a[j + 1]);
    }
}

/// Coalesced ranges that hold the same numbers are the same ranges.
pub proof fn lemma_coalesced_unique(a: Seq<(u32, u32)>, b: Seq<(u32, u32)>)
    requires
        coalesced(a),
        coalesced(b),
        forall|n: int| covers(a, n) <==> covers(b, n),
    ensures
        a == b,
    decreases a.len(),
{
    if a.len() == 0 {
        if b.len() > 0 {
            lemma_first_range(b, 0);
            assert(covers(a, b[0].0 as int));
        }
        assert(a =~= b);
    } else if b.len() == 0 {
        lemma_first_range(a, 0);
        assert(covers(b, a[0].0 as int));
    } else {
        lemma_first_range(a, b[0].0 as int);
        lemma_first_range(b, a[0].0 as int);
        assert(a[0].0 == b[0].0);
        lemma_first_range(a, b[0].1 + 1);
        lemma_first_range(b, a[0].1 + 1);
        lemma_first_range(a, b[0].1 as int);
        lemma_first_range(b, a[0].1 as int);
        assert(a[0].1 == b[0].1);
        assert forall|n: int| covers(a.skip(1), n) <==> covers(b.skip(1), n) by {
            lemma_first_range(a, n);
            lemma_first_range(b, n);
        }
        lemma_coalesced_unique(a.skip(1), b.skip(1));
        assert(a =~= seq![a[0]] + a.skip(1));
        assert(b =~= seq![b[0]] + b.skip(1));
    }
}

/// Whatever ranges are the fewest in order that hold `sequence` and what
/// `before` holds are the ranges after `sequence` arrived.
pub proof fn lemma_ranges_after(before: Seq<(u32, u32)>, sequence: u32, r: Seq<(u32, u32)>)
    requires
        is_ranges_after(before, sequence, r),
    ensures
        ranges_after(before, sequence) == r,
{
    let chosen = ranges_after(before, sequence);
    assert(is_ranges_after(before, sequence, chosen));
    lemma_coalesced_unique(chosen, r);
}

/// For every outcome of `add`.
proof fn lemma_ranges_after_any(before: Seq<(u32, u32)>, sequence: u32)
    ensures
        forall|r: Seq<(u32, u32)>| #[trigger]
            is_ranges_after(before, sequence, r) ==> ranges_after(before, sequence) == r,
{
    assert forall|r: Seq<(u32, u32)>| #[trigger]
        is_ranges_after(before, sequence, r) implies ranges_after(before, sequence) == r by {
        lemma_ranges_after(before, sequence, r);
    }
}

/// Where `x` first stands at `k`, striking the first `x` strikes what
/// stands at `k`.
pub proof fn lemma_remove_first_at(s: Seq<u32>, x: u32, k: int)
    requires
        0 <= k < s.len(),
        s[k] == x,
        forall|j: int| 0 <= j < k ==> s[j] != x,
    ensures
        remove_first(s, x) == s.remove(k),
    decreases s.len(),
{
    if k == 0 {
        assert(s.skip(1) =~= s.remove(0));
    } else {
        assert forall|j: int| 0 <= j < k - 1 implies s.skip(1)[j] != x by {
            assert(s.skip(1)[j] == s[j + 1]);
        }
        lemma_remove_first_at(s.skip(1), x, k - 1);
        assert(seq![s[0]] + s.skip(1).remove(k - 1) =~= s.remove(k));
    }
}

/// Where `x` does not stand in `s`, striking it changes nothing.
pub proof fn lemma_remove_first_absent(s: Seq<u32>, x: u32)
    requires
        forall|j: int| 0 <= j < s.len() ==> s[j] != x,
    ensures
        remove_first(s, x) == s,
    decreases s.len(),
{
    if s.len() > 0 {
        assert forall|j: int| 0 <= j < s.skip(1).len() implies s.skip(1)[j] != x by {
            assert(s.skip(1)[j] == s[j + 1]);
        }
        lemma_remove_first_absent(s.skip(1), x);
        assert(seq![s[0]] + s.skip(1) =~= s);
    }
}

/// A range more at the end holds its numbers more.
pub proof fn lemma_covers_push(r: Seq<(u32, u32)>, x: (u32, u32), n: int)
    ensures
        covers(r.push(x), n) <==> covers(r, n) || in_range(x, n),
{
    let p = r.push(x);
    if covers(r, n) {
        let i = choose|i: int| 0 <= i < r.len() && #[trigger] in_range(r[i], n);
        assert(in_range(p[i], n));
    }
    if in_range(x, n) {
        assert(in_range(p[r.len() as int], n));
    }
    if covers(p, n) {
        let i = choose|i: int| 0 <= i < p.len() && #[trigger] in_range(p[i], n);
        if i < r.len() {
            assert(in_range(r[i], n));
        }
    }
}

/// A range put in at `k` holds its numbers more.
pub proof fn lemma_covers_insert(r: Seq<(u32, u32)>, k: int, x: (u32, u32), n: int)
    requires
        0 <= k <= r.len(),
    ensures
        covers(r.insert(k, x), n) <==> covers(r, n) || in_range(x, n),
{
    let p = r.insert(k, x);
    if covers(r, n) {
        let i = choose|i: int| 0 <= i < r.len() && #[trigger] in_range(r[i], n);
        if i < k {
            assert(in_range(p[i], n));
        } else {
            assert(p[i + 1] == r[i]);
            assert(in_range(p[i + 1], n));
        }
    }
    if in_range(x, n) {
        assert(in_range(p[k], n));
    }
    if covers(p, n) {
        let i = choose|i: int| 0 <= i < p.len() && #[trigger] in_range(p[i], n);
        if i < k {
            assert(in_range(r[i], n));
        } else if i > k {
            assert(p[i] == r[i - 1]);
            assert(in_range(r[i - 1], n));
        }
    }
}

/// Where the range at `k` is made to end at `m`, further on, the numbers
/// up to `m` are held besides.
pub proof fn lemma_covers_extend(r: Seq<(u32, u32)>, k: int, m: u32, n: int)
    requires
        0 <= k < r.len(),
        r[k].0 <= r[k].1 <= m,
    ensures
        covers(r.update(k, (r[k].0, m)), n) <==> covers(r, n) || r[k].1 < n <= m,
{
    let p = r.update(k, (r[k].0, m));
    if covers(r, n) {
        let i = choose|i: int| 0 <= i < r.len() && #[trigger] in_range(r[i], n);
        assert(in_range(p[i], n));
    }
    if r[k].1 < n <= m {
        assert(in_range(p[k], n));
    }
    if covers(p, n) {
        let i = choose|i: int| 0 <= i < p.len() && #[trigger] in_range(p[i], n);
        if i != k {
            assert(in_range(r[i], n));
        } else if n <= r[k].1 {
            assert(in_range(r[k], n));
        }
    }
}

/// A range put in between the ranges that end before it and those that
/// begin behind it leaves the ranges in order.
pub proof fn lemma_insert_rising(r: Seq<(u32, u32)>, k: int, x: (u32, u32))
    requires
        disjoint_rising(r),
        0 <= k <= r.len(),
        x.0 <= x.1,
        forall|j: int| 0 <= j < k ==> (#[trigger] r[j]).1 < x.0,
        forall|j: int| k <= j < r.len() ==> x.1 < (#[trigger] r[j]).0,
    ensures
        disjoint_rising(r.insert(k, x)),
{
    let p = r.insert(k, x);
    assert forall|i: int| 0 <= i < p.len() implies (#[trigger] p[i]).0 <= p[i].1 by {
        if i < k {
            assert(p[i] == r[i]);
        } else if i > k {
            assert(p[i] == r[i - 1]);
        }
    }
    assert forall|i: int, j: int| 0 <= i < j < p.len() implies (#[trigger] p[i]).1 < (
    #[trigger] p[j]).0 by {
        let a = if i < k {
            i
        } else {
            i - 1
        };
        let b = if j < k {
            j
        } else {
            j - 1
        };
        if i != k {
            assert(p[i] == r[a]);
        }
        if j != k {
            assert(p[j] == r[b]);
        }
    }
}

} // verus!
