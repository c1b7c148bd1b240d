//! The ordering channel of the receiving side: frames wait here until every
//! frame before them has been handed on.

use crate::packet::{
    full_of, open_of, pool_after, pool_wf, split_views, PoolView, SplitPacket, SplitPacketQueue,
    SplitPacketView,
};
use crate::packets::frame::{Frame, FrameView};
use crate::packets::frame_set::frame_views;
use std::collections::HashMap;
use vstd::prelude::*;

verus! {

/// The frames that wait, by order index, the index that is handed on next,
/// and the split messages being put together.
pub ghost struct RecievdQueueView {
    pub cursor: nat,
    pub held: Map<u32, FrameView>,
    pub splits: PoolView,
}

/// The waiting frames after `frame` arrived: it is kept unless its index
/// was handed on already or a frame with its index waits.
pub open spec fn stored(held: Map<u32, FrameView>, cursor: nat, frame: FrameView) -> Map<
    u32,
    FrameView,
> {
    if frame.order_index < cursor || held.contains_key(frame.order_index) {
        held
    } else {
        held.insert(frame.order_index, frame)
    }
}

/// The waiting frames after the messages of `ready` arrived, one after the
/// other, each as one frame.
pub open spec fn stored_all(
    held: Map<u32, FrameView>,
    cursor: nat,
    ready: Seq<SplitPacketView>,
) -> Map<u32, FrameView>
    decreases ready.len(),
{
    if ready.len() == 0 {
        held
    } else {
        stored(stored_all(held, cursor, ready.drop_last()), cursor, ready.last().frame())
    }
}

/// No frame with the index `n` above the cursor can be handed on: none
/// waits, or there is no such index.
pub open spec fn gap(held: Map<u32, FrameView>, cursor: nat, n: int) -> bool {
    cursor + n > u32::MAX || !held.contains_key((cursor + n) as u32)
}

/// `n` frames can be handed on and no more: the first gap lies `n` above
/// the cursor.
pub open spec fn is_first_gap(held: Map<u32, FrameView>, cursor: nat, n: int) -> bool {
    &&& 0 <= n
    &&& gap(held, cursor, n)
    &&& forall|k: int| 0 <= k < n ==> !#[trigger] gap(held, cursor, k)
}

/// How many frames can be handed on.
pub open spec fn first_gap(held: Map<u32, FrameView>, cursor: nat) -> int {
    choose|n: int| is_first_gap(held, cursor, n)
}

/// The frames that can be handed on, in the order of their indices.
pub open spec fn ready(held: Map<u32, FrameView>, cursor: nat) -> Seq<FrameView> {
    Seq::new(first_gap(held, cursor) as nat, |k: int| held[(cursor + k) as u32])
}

impl RecievdQueueView {
    /// The queue after the frames that can be handed on were handed on.
    pub open spec fn drained(self) -> RecievdQueueView {
        let n = first_gap(self.held, self.cursor);
        RecievdQueueView {
            cursor: (self.cursor + n) as nat,
            held: self.held.remove_keys(Set::new(|o: u32| self.cursor <= o < self.cursor + n)),
            splits: self.splits,
        }
    }

    /// Every split message is well formed, the cursor is an index or one
    /// past the last index, and each frame waits under its own index.
    pub open spec fn wf(self) -> bool {
        &&& pool_wf(self.splits)
        &&& self.cursor <= u32::MAX + 1
        &&& forall|o: u32| self.held.contains_key(o) ==> (#[trigger] self.held[o]).order_index == o
    }

    /// The queue after `frame` arrived. A piece of a split message goes to
    /// the pool, and the messages that are then full leave the pool and
    /// arrive as frames; any other frame arrives as it is.
    pub open spec fn after(self, frame: FrameView) -> RecievdQueueView {
        if frame.split {
            let pool = pool_after(self.splits, frame);
            RecievdQueueView {
                cursor: self.cursor,
                held: stored_all(self.held, self.cursor, full_of(pool)),
                splits: open_of(pool),
            }
        } else {
            RecievdQueueView { held: stored(self.held, self.cursor, frame), ..self }
        }
    }
}

/// The frames of one ordering channel that wait for their turn.
pub struct RecievdQueue {
    min: u64,
    packet_queue: HashMap<u32, Frame>,
    splits: SplitPacketQueue,
}

impl View for RecievdQueue {
    type V = RecievdQueueView;

    closed spec fn view(&self) -> RecievdQueueView {
        RecievdQueueView {
            cursor: self.min as nat,
            held: self.packet_queue@.map_values(|f: Frame| f@),
            splits: self.splits@,
        }
    }
}

impl RecievdQueue {
    pub fn new() -> (r: Self)
        ensures
            r@ == (RecievdQueueView {
                cursor: 0,
                held: Map::<u32, FrameView>::empty(),
                splits: PoolView::empty(),
            }),
            r@.wf(),
    {
        let r = Self { min: 0, packet_queue: HashMap::new(), splits: SplitPacketQueue::new() };
        assert(r@.held =~= Map::<u32, FrameView>::empty());
        r
    }

    /// Keeps `frame` unless its turn is over or a frame with its index waits.
    fn store(&mut self, frame: Frame)
        requires
            old(self)@.wf(),
        ensures
            final(self)@.wf(),
            final(self)@ == (RecievdQueueView {
                held: stored(old(self)@.held, old(self)@.cursor, frame@),
                ..old(self)@
            }),
    {
        broadcast use vstd::std_specs::hash::group_hash_axioms;

        if (frame.order_index as u64) < self.min {
            return ;
        }
        if self.packet_queue.contains_key(&frame.order_index) {
            assert(self@.held.contains_key(frame.order_index));
            return ;
        }
        assert(!self@.held.contains_key(frame.order_index));
        let ghost view = frame@;
        self.packet_queue.insert(frame.order_index, frame);
        assert(self@.held =~= old(self)@.held.insert(view.order_index, view));
    }

    /// Takes a frame of the channel.
    pub fn add(&mut self, frame: Frame)
        requires
            old(self)@.wf(),
        ensures
            final(self)@ == old(self)@.after(frame@),
            final(self)@.wf(),
    {
        if frame.split {
            self.splits.add(&frame);
            let ghost pool = pool_after(old(self)@.splits, frame@);
            let mut ready: Vec<SplitPacket> = self.splits.get_and_clear();
            let ghost views = split_views(ready@);
            proof {
                crate::packet::lemma_full_of_wf(pool);
            }
            assert(views.take(0) =~= Seq::<SplitPacketView>::empty());
            assert(split_views(ready@) =~= views.skip(0));
            while ready.len() > 0
                invariant
                    ready@.len() <= views.len(),
                    split_views(ready@) == views.skip(views.len() - ready@.len()),
                    forall|k: int| 0 <= k < views.len() ==> views[k].wf() && views[k].full,
                    self@.wf(),
                    self@.cursor == old(self)@.cursor,
                    self@.splits == open_of(pool),
                    self@.held == stored_all(
                        old(self)@.held,
                        old(self)@.cursor,
                        views.take(views.len() - ready@.len()),
                    ),
                decreases ready@.len(),
            {
                let ghost n = views.len() - ready@.len();
                let ghost left = split_views(ready@);
                let mut packet: SplitPacket = ready.remove(0);
                proof {
                    assert(packet@ == left[0]);
                    assert(packet@ == views[n]);
                    assert(split_views(ready@) =~= left.skip(1));
                    assert(left.skip(1) =~= views.skip(n + 1));
                    assert(views.take(n + 1).drop_last() =~= views.take(n));
                }
                match packet.get_frame() {
                    Ok(f) => {
                        self.store(f);
                    },
                    Err(_) => {},
                }
            }
            assert(views.take(views.len() as int) =~= views);
            return ;
        }
        self.store(frame);
    }

    /// Hands on the frames whose turn has come: those with the index at
    /// the cursor and the indices that follow it without a gap.
    pub fn get_all(&mut self) -> (r: Vec<Frame>)
        requires
            old(self)@.wf(),
        ensures
            gap(old(self)@.held, old(self)@.cursor, r@.len() as int),
            forall|k: int|
                0 <= k < r@.len() ==> !#[trigger] gap(old(self)@.held, old(self)@.cursor, k),
            forall|k: int|
                0 <= k < r@.len() ==> (#[trigger] r@[k])@ == old(self)@.held[(old(self)@.cursor
                    + k) as u32],
            final(self)@.cursor == old(self)@.cursor + r@.len(),
            final(self)@.splits == old(self)@.splits,
            final(self)@.held == old(self)@.held.remove_keys(
                Set::new(
                    |o: u32| old(self)@.cursor <= o < old(self)@.cursor + r@.len(),
                ),
            ),
            final(self)@.wf(),
            frame_views(r@) == ready(old(self)@.held, old(self)@.cursor),
            final(self)@ == old(self)@.drained(),
    {
        broadcast use vstd::std_specs::hash::group_hash_axioms;

        let mut ret: Vec<Frame> = Vec::new();
        let ghost start = self@.cursor;
        let ghost held = self@.held;
        assert(self@.held =~= held.remove_keys(Set::new(|o: u32| start <= o < start + 0)));
        while self.min <= 0xffff_ffff
            invariant
                self@.cursor == start + ret@.len(),
                self@.cursor <= u32::MAX + 1,
                self@.splits == old(self)@.splits,
                self.packet_queue@.dom().finite(),
                self@.held == held.remove_keys(
                    Set::new(|o: u32| start <= o < start + ret@.len()),
                ),
                forall|k: int| 0 <= k < ret@.len() ==> !#[trigger] gap(held, start, k),
                forall|k: int|
                    0 <= k < ret@.len() ==> (#[trigger] ret@[k])@ == held[(start + k) as u32],
            ensures
                gap(held, start, ret@.len() as int),
            decreases self.packet_queue@.dom().len(),
        {
            let o: u32 = self.min as u32;
            let ghost n = ret@.len();
            let ghost now = self@.held;
            let ghost queue = self.packet_queue@;
            let ghost taken = Set::new(|x: u32| start <= x < start + n);
            assert(!taken.contains(o));
            match self.packet_queue.remove(&o) {
                Some(frame) => {
                    assert(queue.contains_key(o) && queue[o] == frame);
                    assert(now.contains_key(o) && now[o] == frame@);
                    assert(held.contains_key(o) && held[o] == frame@);
                    let ghost had = ret@;
                    ret.push(frame);
                    self.min = self.min + 1;
                    assert forall|k: int| 0 <= k < ret@.len() implies !gap(held, start, k)
                        && (#[trigger] ret@[k])@ == held[(start + k) as u32] by {
                        if k < n {
                            assert(ret@[k] == had[k]);
                        } else {
                            assert((start + k) as u32 == o);
                        }
                    }
                    assert(self.packet_queue@ == queue.remove(o));
                    assert(self@.held =~= now.remove(o));
                    assert(now.remove(o) =~= held.remove_keys(
                        Set::new(|x: u32| start <= x < start + ret@.len()),
                    ));
                },
                None => {
                    assert(!queue.contains_key(o));
                    assert(!now.contains_key(o));
                    assert(!held.contains_key(o));
                    break ;
                },
            }
        }
        proof {
            lemma_first_gap(held, start, ret@.len() as int);
            assert(frame_views(ret@) =~= ready(held, start));
        }
        ret
    }
}

/// The frames that are handed on come in the order of the channel: each
/// carries the index that follows the one before it, from the cursor on.
pub proof fn lemma_ready_in_order(v: RecievdQueueView, k: int)
    requires
        v.wf(),
        0 <= k < ready(v.held, v.cursor).len(),
    ensures
        ready(v.held, v.cursor)[k].order_index == v.cursor + k,
        v.drained().cursor >= v.cursor,
{
    lemma_first_gap_exists(v.held, v.cursor);
    let n = first_gap(v.held, v.cursor);
    assert(is_first_gap(v.held, v.cursor, n));
    assert(!gap(v.held, v.cursor, k));
}

/// There is a first gap.
pub proof fn lemma_first_gap_exists(held: Map<u32, FrameView>, cursor: nat)
    ensures
        is_first_gap(held, cursor, first_gap(held, cursor)),
{
    lemma_first_gap_from(held, cursor, 0);
}

/// Where no gap lies below `n`, a first gap lies at `n` or above.
proof fn lemma_first_gap_from(held: Map<u32, FrameView>, cursor: nat, n: int)
    requires
        0 <= n,
        forall|k: int| 0 <= k < n ==> !#[trigger] gap(held, cursor, k),
    ensures
        is_first_gap(held, cursor, first_gap(held, cursor)),
    decreases u32::MAX + 1 - n,
{
    if gap(held, cursor, n) {
        assert(is_first_gap(held, cursor, n));
    } else {
        lemma_first_gap_from(held, cursor, n + 1);
    }
}

/// There is one first gap.
pub proof fn lemma_first_gap(held: Map<u32, FrameView>, cursor: nat, n: int)
    requires
        is_first_gap(held, cursor, n),
    ensures
        first_gap(held, cursor) == n,
{
    let m = first_gap(held, cursor);
    assert(is_first_gap(held, cursor, m));
    if m < n {
        assert(!gap(held, cursor, m));
    } else if m > n {
        assert(!gap(held, cursor, n));
    }
}

} // verus!
