//! One session with one peer: what it does with each datagram that arrives
//! and at each tick of the clock, and what it sends. The session reads no
//! clock and owns no socket: the caller hands it the time and the datagrams
//! that arrived, and sends the datagrams it hands back.

use crate::address::Address;
use crate::bytes::append_bytes;
use crate::packet::{
    assembled, full_of, highest_after, missing_after, open_of, pool_after, pool_wf, ranges_after,
    split_views,
    ACKQueue, PoolView, RaknetPacket, SplitPacket, SplitPacketQueue, SplitPacketView,
};
use crate::packetqueue::{between, PacketQueue, PacketQueueView};
use crate::packets::ack::ACK;
use crate::packets::connected_ping::ConnectedPing;
use crate::packets::connected_pong::ConnectedPong;
use crate::packets::connection_request::ConnectionRequest;
use crate::packets::connection_request_accepted::ConnectionRequestAccepted;
use crate::packets::frame::{Frame, FrameView};
use crate::packets::frame_set::{frame_views, FrameSet, FrameSetView};
use crate::packets::nack::Nack;
use crate::packets::new_incoming_connection::NewIncomingConnection;
use crate::packets::ranges::{ranges_body, ranges_parse};
use crate::error::CodecError;
use crate::packets::{decode, encode, Packet, Reliability};
use crate::rak::{event_views, DisconnectReason, EventView, RaknetEvent};
use crate::recievedqueue::{ready, RecievdQueue, RecievdQueueView};
use std::collections::VecDeque;
use vstd::prelude::*;

verus! {

/// The first byte of a datagram of frames has this bit.
pub const DATAGRAM_FLAG: u8 = 0x80;

/// The first byte of an acknowledgement has this bit.
pub const ACK_FLAG: u8 = 0x40;

/// The first byte of a negative acknowledgement has this bit.
pub const NACK_FLAG: u8 = 0x20;

/// After so many milliseconds without a datagram from the peer the session
/// ends.
pub const RECEIVE_TIMEOUT: u128 = 10000;

/// After so many milliseconds without a probe of its own the session sends
/// one.
pub const PING_INTERVAL: u128 = 5000;

/// A message goes out as one frame where it and this many bytes are less
/// than the datagram size: 42 for the protocols below and 100 for the
/// headers of datagram and frame.
pub const FRAME_HEADROOM: usize = 142;

/// What a piece of a split message leaves of the datagram size: the head
/// room of a frame and the ten bytes that describe the split.
pub const SPLIT_HEADROOM: usize = 152;

/// The most bytes a frame can carry: its length in bits has 16 bits.
pub const MAX_PAYLOAD: usize = 8191;

/// Which side of the handshake a session is.
#[derive(Clone, Copy, Debug, PartialEq, Eq, Structural)]
pub enum RaknetType {
    Client,
    Server,
}

/// How far a session has got.
#[derive(Clone, Copy, Debug, PartialEq, Eq, Structural)]
pub enum Phase {
    /// The peer has not yet asked for, or agreed to, the session.
    Handshaking,
    /// Both sides agree.
    Connected,
    /// This side has said goodbye.
    Disconnecting,
    /// The application has been told that the session ended.
    Closed,
}

/// The index after `i`; the indices have 24 bits and start again at zero.
pub open spec fn next_index(i: u32) -> u32 {
    if i >= 0xff_ffff {
        0
    } else {
        (i + 1) as u32
    }
}

/// The time in milliseconds as the packets carry it; zero where it does
/// not fit.
pub open spec fn clock(now: u128) -> i64 {
    if now <= i64::MAX {
        now as i64
    } else {
        0
    }
}

/// How many bytes a piece of a split message carries.
pub open spec fn fragment_size(mtu: u16) -> nat {
    if mtu <= SPLIT_HEADROOM {
        1
    } else if mtu - SPLIT_HEADROOM > MAX_PAYLOAD {
        MAX_PAYLOAD as nat
    } else {
        (mtu - SPLIT_HEADROOM) as nat
    }
}

/// How many pieces of `size` bytes a message of `len` bytes makes.
pub open spec fn pieces(len: nat, size: nat) -> nat {
    if len % size == 0 {
        len / size
    } else {
        len / size + 1
    }
}

/// The piece `i` of `buff` cut into pieces of `size` bytes.
pub open spec fn fragment(buff: Seq<u8>, size: nat, i: nat) -> Seq<u8> {
    buff.subrange(
        (i * size) as int,
        if i * size + size <= buff.len() {
            (i * size + size) as int
        } else {
            buff.len() as int
        },
    )
}

/// The payloads of frames.
pub open spec fn payloads_of(frames: Seq<FrameView>) -> Seq<Seq<u8>> {
    frames.map_values(|f: FrameView| f.data)
}

/// The split messages, each put together.
pub open spec fn messages_of(full: Seq<SplitPacketView>) -> Seq<Seq<u8>> {
    full.map_values(|p: SplitPacketView| assembled(p.fragments, p.split_size as nat))
}

/// A frame that carries `data` and no index.
pub open spec fn plain_frame(reliability: Reliability, data: Seq<u8>) -> FrameView {
    FrameView {
        reliability,
        message_index: 0,
        sequence_index: 0,
        order_index: 0,
        split: false,
        split_count: 0,
        split_index: 0,
        split_id: 0,
        data,
    }
}

/// One negative acknowledgement for each missing number that fits 24 bits.
pub open spec fn nack_datagrams(missing: Seq<u32>) -> Seq<Seq<u8>>
    decreases missing.len(),
{
    if missing.len() == 0 {
        Seq::<Seq<u8>>::empty()
    } else if missing.last() < 0x100_0000 {
        nack_datagrams(missing.drop_last()).push(
            seq![0xa0u8] + ranges_body(seq![(missing.last(), missing.last())]),
        )
    } else {
        nack_datagrams(missing.drop_last())
    }
}

/// One acknowledgement for each range whose numbers fit 24 bits.
pub open spec fn ack_datagrams(ranges: Seq<(u32, u32)>) -> Seq<Seq<u8>>
    decreases ranges.len(),
{
    if ranges.len() == 0 {
        Seq::<Seq<u8>>::empty()
    } else if ranges.last().0 < 0x100_0000 && ranges.last().1 < 0x100_0000 {
        ack_datagrams(ranges.drop_last()).push(seq![0xc0u8] + ranges_body(seq![ranges.last()]))
    } else {
        ack_datagrams(ranges.drop_last())
    }
}

/// The datagrams of the frame sets that can be written.
pub open spec fn set_datagrams(sets: Seq<FrameSetView>) -> Seq<Seq<u8>>
    decreases sets.len(),
{
    if sets.len() == 0 {
        Seq::<Seq<u8>>::empty()
    } else if sets.last().encodable() {
        set_datagrams(sets.drop_last()).push(sets.last().wire())
    } else {
        set_datagrams(sets.drop_last())
    }
}

/// The views of datagrams.
pub open spec fn datagram_views(datagrams: Seq<Vec<u8>>) -> Seq<Seq<u8>> {
    datagrams.map_values(|d: Vec<u8>| d@)
}

/// A session with its queues as views.
pub ghost struct ConnectionView {
    pub address: Address,
    pub guid: u64,
    pub opponent_guid: u64,
    pub mtu: u16,
    pub last_receive: u128,
    pub last_ping: u128,
    /// The datagrams that arrived and are not yet acknowledged.
    pub ranges: Seq<(u32, u32)>,
    /// The datagrams that were passed over.
    pub missing: Seq<u32>,
    /// The greatest sequence number that arrived.
    pub highest: Option<u32>,
    pub sending: PacketQueueView,
    pub message_index: u32,
    pub order_index: u32,
    pub split_id: u16,
    pub receiving: RecievdQueueView,
    /// The split messages outside the ordering channel.
    pub splits: PoolView,
    pub phase: Phase,
    /// The events that the application has not taken yet, oldest first.
    pub events: Seq<EventView>,
    pub role: RaknetType,
}

impl ConnectionView {
    /// A session in which nothing has happened, made at `now`.
    pub open spec fn fresh(
        address: Address,
        guid: u64,
        opponent_guid: u64,
        mtu: u16,
        role: RaknetType,
        now: u128,
    ) -> ConnectionView {
        ConnectionView {
            address,
            guid,
            opponent_guid,
            mtu,
            last_receive: now,
            last_ping: now,
            ranges: Seq::<(u32, u32)>::empty(),
            missing: Seq::<u32>::empty(),
            highest: None,
            sending: PacketQueueView {
                sets: Seq::<crate::packetqueue::RetainedView>::empty(),
                max: 0,
                send_min: 0,
                resend: Seq::<u32>::empty(),
                batch: Seq::<FrameView>::empty(),
                mtu,
                last_tick: now,
            },
            message_index: 0,
            order_index: 0,
            split_id: 0,
            receiving: RecievdQueueView {
                cursor: 0,
                held: Map::<u32, FrameView>::empty(),
                splits: PoolView::empty(),
            },
            splits: PoolView::empty(),
            phase: Phase::Handshaking,
            events: Seq::<EventView>::empty(),
            role,
        }
    }

    /// This side has said goodbye or the session is over: it acknowledges
    /// nothing any more.
    pub open spec fn quiet(self) -> bool {
        self.phase is Disconnecting || self.phase is Closed
    }

    /// The session after `frame` was handed to the sending side.
    pub open spec fn queued(self, frame: FrameView) -> ConnectionView {
        ConnectionView { sending: self.sending.with_frame(frame), ..self }
    }

    /// The session after `data` went out reliable and ordered: the frame
    /// carries the session's indices, and both move on.
    pub open spec fn sent_ordered(self, data: Seq<u8>) -> ConnectionView {
        ConnectionView {
            message_index: next_index(self.message_index),
            order_index: next_index(self.order_index),
            ..self.queued(
                FrameView {
                    message_index: self.message_index,
                    order_index: self.order_index,
                    ..plain_frame(Reliability::ReliableOrdered, data)
                },
            )
        }
    }

    /// The session with one event more for the application.
    pub open spec fn emitted(self, event: EventView) -> ConnectionView {
        ConnectionView { events: self.events.push(event), ..self }
    }

    /// The session after it sent a probe with the time of its last probe.
    pub open spec fn pinged(self) -> ConnectionView {
        self.queued(
            plain_frame(
                Reliability::Unreliable,
                seq![0x00u8] + ConnectedPing::body(
                    ConnectedPing { client_timestamp: clock(self.last_ping) },
                ),
            ),
        )
    }

    /// The session after this side said goodbye: once, and not when the
    /// session is over.
    pub open spec fn disconnect_started(self) -> ConnectionView {
        if self.quiet() {
            self
        } else {
            ConnectionView { phase: Phase::Disconnecting, ..self.sent_ordered(seq![0x15u8]) }
        }
    }

    /// The session after it ended: the application is told once.
    pub open spec fn closed(self, reason: DisconnectReason) -> ConnectionView {
        if self.phase is Closed {
            self
        } else {
            ConnectionView {
                phase: Phase::Closed,
                ..self.emitted(EventView::Disconnected(self.address, self.opponent_guid, reason))
            }
        }
    }

    /// The session after the handshake was done: the application is told
    /// the first time.
    pub open spec fn established(self) -> ConnectionView {
        if self.phase is Handshaking {
            ConnectionView {
                phase: Phase::Connected,
                ..self.emitted(EventView::Connected(self.address, self.opponent_guid))
            }
        } else {
            self
        }
    }

    /// The session after the peer asked for it. Only a server answers.
    pub open spec fn asked(self, payload: Seq<u8>, now: u128) -> ConnectionView {
        if self.role is Client {
            self
        } else {
            match ConnectionRequest::parse(payload.skip(1)) {
                Err(_) => self,
                Ok(p) => self.sent_ordered(
                    seq![0x10u8] + ConnectionRequestAccepted::body(
                        ConnectionRequestAccepted {
                            client_address: self.address,
                            system_index: 0,
                            request_timestamp: p.time,
                            accepted_timestamp: clock(now),
                        },
                    ),
                ).established(),
            }
        }
    }

    /// The session after the peer agreed to it. Only a client answers, and
    /// probes the peer at once.
    pub open spec fn accepted(self, payload: Seq<u8>) -> ConnectionView {
        if self.role is Server {
            self
        } else {
            match ConnectionRequestAccepted::parse(payload.skip(1)) {
                Err(_) => self,
                Ok(p) => self.sent_ordered(
                    seq![0x13u8] + NewIncomingConnection::body(
                        NewIncomingConnection {
                            server_address: self.address,
                            request_timestamp: p.request_timestamp,
                            accepted_timestamp: p.accepted_timestamp,
                        },
                    ),
                ).established().pinged(),
            }
        }
    }

    /// The session after the peer probed it: the answer mirrors the peer's
    /// clock and adds this side's.
    pub open spec fn probed(self, payload: Seq<u8>, now: u128) -> ConnectionView {
        match ConnectedPing::parse(payload.skip(1)) {
            Err(_) => self,
            Ok(p) => self.sent_ordered(
                seq![0x03u8] + ConnectedPong::body(
                    ConnectedPong {
                        client_timestamp: p.client_timestamp,
                        server_timestamp: clock(now),
                    },
                ),
            ),
        }
    }

    /// The session after one message arrived. The first byte says what it
    /// is; a message that is none of the session's own goes to the
    /// application.
    pub open spec fn handled_packet(self, payload: Seq<u8>, now: u128) -> ConnectionView {
        if payload.len() == 0 {
            self
        } else if payload[0] == 0x09 {
            self.asked(payload, now)
        } else if payload[0] == 0x10 {
            self.accepted(payload)
        } else if payload[0] == 0x13 || payload[0] == 0x03 {
            self
        } else if payload[0] == 0x00 {
            self.probed(payload, now)
        } else if payload[0] == 0x15 {
            self.disconnect_started().closed(DisconnectReason::Disconnect)
        } else {
            self.emitted(
                EventView::Packet {
                    address: self.address,
                    guid: self.opponent_guid,
                    data: payload,
                },
            )
        }
    }

    /// The session after the messages arrived one after the other.
    #[verifier::opaque]
    pub open spec fn handled_packets(self, payloads: Seq<Seq<u8>>, now: u128) -> ConnectionView
        decreases payloads.len(),
    {
        if payloads.len() == 0 {
            self
        } else {
            self.handled_packets(payloads.drop_last(), now).handled_packet(payloads.last(), now)
        }
    }

    /// The session after one frame arrived. A frame of the ordering channel
    /// waits for its turn, and the frames whose turn has come are handled;
    /// a piece of a split message outside the channel waits for the other
    /// pieces; any other frame is handled at once.
    pub open spec fn received_frame(self, frame: FrameView, now: u128) -> ConnectionView {
        if frame.reliability.spec_sequenced_or_ordered() {
            let waiting = self.receiving.after(frame);
            (ConnectionView { receiving: waiting.drained(), ..self }).handled_packets(
                payloads_of(ready(waiting.held, waiting.cursor)),
                now,
            )
        } else if frame.split {
            let pool = pool_after(self.splits, frame);
            (ConnectionView { splits: open_of(pool), ..self }).handled_packets(
                messages_of(full_of(pool)),
                now,
            )
        } else {
            self.handled_packet(frame.data, now)
        }
    }

    /// The session after the frames arrived one after the other.
    #[verifier::opaque]
    pub open spec fn received_frames(self, frames: Seq<FrameView>, now: u128) -> ConnectionView
        decreases frames.len(),
    {
        if frames.len() == 0 {
            self
        } else {
            self.received_frames(frames.drop_last(), now).received_frame(frames.last(), now)
        }
    }

    /// The session after a datagram of frames arrived: its sequence number
    /// is noted for acknowledgement, then its frames are taken.
    pub open spec fn handled_datagram(self, buff: Seq<u8>, now: u128) -> ConnectionView {
        match FrameSetView::parse(buff) {
            Err(_) => self,
            Ok(set) => (ConnectionView {
                ranges: ranges_after(self.ranges, set.sequence_number),
                missing: missing_after(self.highest, self.missing, set.sequence_number),
                highest: highest_after(self.highest, set.sequence_number),
                ..self
            }).received_frames(set.datas, now),
        }
    }

    /// The session after an acknowledgement arrived: the datagrams it names
    /// are forgotten.
    pub open spec fn handled_ack(self, buff: Seq<u8>) -> ConnectionView {
        match ranges_parse(buff.skip(1)) {
            Err(_) => self,
            Ok(records) => ConnectionView {
                sending: acknowledged_ranges(self.sending, records),
                ..self
            },
        }
    }

    /// The session after a negative acknowledgement arrived: the datagrams
    /// it names are queued again.
    pub open spec fn handled_nack(self, buff: Seq<u8>) -> ConnectionView {
        match ranges_parse(buff.skip(1)) {
            Err(_) => self,
            Ok(records) => ConnectionView {
                sending: renumbered_ranges(self.sending, records),
                ..self
            },
        }
    }

    /// The session after the datagram `buff` arrived at `now`. The bits of
    /// the first byte say whether it is an acknowledgement, a negative one
    /// or a datagram of frames; an empty datagram changes nothing.
    pub open spec fn handled(self, buff: Seq<u8>, now: u128) -> ConnectionView {
        if buff.len() == 0 {
            self
        } else {
            let seen = ConnectionView { last_receive: now, ..self };
            if buff[0] & ACK_FLAG != 0 {
                seen.handled_ack(buff)
            } else if buff[0] & NACK_FLAG != 0 {
                seen.handled_nack(buff)
            } else if buff[0] & DATAGRAM_FLAG != 0 {
                seen.handled_datagram(buff, now)
            } else {
                seen
            }
        }
    }

    /// What the session sends at once when the datagram `buff` arrives: a
    /// negative acknowledgement for each number that is missing once the
    /// datagram is noted, unless the session is quiet.
    pub open spec fn replies(self, buff: Seq<u8>) -> Seq<Seq<u8>> {
        if buff.len() > 0 && buff[0] & ACK_FLAG == 0 && buff[0] & NACK_FLAG == 0 && buff[0]
            & DATAGRAM_FLAG != 0 && FrameSetView::parse(buff) is Ok && !self.quiet() {
            nack_datagrams(
                missing_after(
                    self.highest,
                    self.missing,
                    FrameSetView::parse(buff).unwrap().sequence_number,
                ),
            )
        } else {
            Seq::<Seq<u8>>::empty()
        }
    }

    /// The peer has been silent for too long at `now`.
    pub open spec fn timed_out(self, now: u128) -> bool {
        now - self.last_receive > RECEIVE_TIMEOUT
    }

    /// The session has sent no probe for too long at `now`.
    pub open spec fn ping_due(self, now: u128) -> bool {
        now - self.last_ping > PING_INTERVAL
    }

    /// The session after the timeout was looked at.
    pub open spec fn expired(self, now: u128) -> ConnectionView {
        if self.timed_out(now) {
            self.disconnect_started().closed(DisconnectReason::Timeout)
        } else {
            self
        }
    }

    /// The session after the probe was looked at.
    pub open spec fn kept_alive(self, now: u128) -> ConnectionView {
        if self.ping_due(now) {
            (ConnectionView { last_ping: now, ..self }).pinged()
        } else {
            self
        }
    }

    /// The session after a tick of the clock at `now`: what waited was
    /// sent, the acknowledgements were handed out, and the timeout and the
    /// probe were looked at.
    pub open spec fn updated(self, now: u128) -> ConnectionView {
        (ConnectionView {
            sending: self.sending.sent(now),
            ranges: Seq::<(u32, u32)>::empty(),
            ..self
        }).expired(now).kept_alive(now)
    }

    /// What the session sends at a tick of the clock at `now`: the
    /// datagrams that waited, then, unless the session is quiet, an
    /// acknowledgement for each range.
    pub open spec fn outgoing(self, now: u128) -> Seq<Seq<u8>> {
        let ready = self.sending.prepared(now);
        set_datagrams(crate::packetqueue::unsent(ready.sets, ready.send_min)) + if self.quiet() {
            Seq::<Seq<u8>>::empty()
        } else {
            ack_datagrams(self.ranges)
        }
    }

    /// A message goes out as one frame where it is empty, or is short
    /// enough for the datagram and for a frame.
    pub open spec fn fits_one_frame(self, len: nat) -> bool {
        len == 0 || (len + FRAME_HEADROOM < self.mtu && len <= MAX_PAYLOAD)
    }

    /// The session after the first `n` pieces of `buff` went out: each
    /// piece carries the order index and the split id of the session, the
    /// count of pieces and its own place, and a message index of its own.
    pub open spec fn with_fragments(self, buff: Seq<u8>, n: nat) -> ConnectionView
        decreases n,
    {
        if n == 0 {
            self
        } else {
            let before = self.with_fragments(buff, (n - 1) as nat);
            let size = fragment_size(self.mtu);
            ConnectionView {
                message_index: next_index(before.message_index),
                ..before.queued(
                    FrameView {
                        reliability: Reliability::ReliableOrdered,
                        message_index: before.message_index,
                        sequence_index: 0,
                        order_index: self.order_index,
                        split: true,
                        split_count: pieces(buff.len(), size) as u32,
                        split_index: (n - 1) as u32,
                        split_id: self.split_id,
                        data: fragment(buff, size, (n - 1) as nat),
                    },
                )
            }
        }
    }

    /// The session after the application's message `buff` was handed to
    /// it. A message that fits goes out as one frame; any other is cut
    /// into pieces. A message of more pieces than 32 bits count is dropped.
    pub open spec fn sent_message(self, buff: Seq<u8>) -> ConnectionView {
        let count = pieces(buff.len(), fragment_size(self.mtu));
        if self.fits_one_frame(buff.len()) {
            self.sent_ordered(buff)
        } else if count > u32::MAX {
            self
        } else {
            ConnectionView {
                split_id: if self.split_id == u16::MAX {
                    0
                } else {
                    (self.split_id + 1) as u16
                },
                order_index: next_index(self.order_index),
                ..self.with_fragments(buff, count)
            }
        }
    }

    /// The session after the client asked the server for it at `now`.
    pub open spec fn requested(self, now: u128) -> ConnectionView {
        self.queued(
            plain_frame(
                Reliability::Reliable,
                seq![0x09u8] + ConnectionRequest::body(
                    ConnectionRequest { guid: self.guid, time: clock(now), use_encryption: 0 },
                ),
            ),
        )
    }

    /// How many events the application takes where it has room for `room`.
    pub open spec fn taken(self, room: usize) -> int {
        if room <= self.events.len() {
            room as int
        } else {
            self.events.len() as int
        }
    }
}

/// The sending side after each datagram of `sequences` was acknowledged.
pub open spec fn acknowledged_all(sending: PacketQueueView, sequences: Seq<u32>) -> PacketQueueView
    decreases sequences.len(),
{
    if sequences.len() == 0 {
        sending
    } else {
        acknowledged_all(sending, sequences.drop_last()).acknowledged(sequences.last())
    }
}

/// The sending side after the datagrams that are kept under the numbers of
/// each record were acknowledged, record by record.
pub open spec fn acknowledged_ranges(
    sending: PacketQueueView,
    records: Seq<(u32, u32)>,
) -> PacketQueueView
    decreases records.len(),
{
    if records.len() == 0 {
        sending
    } else {
        let before = acknowledged_ranges(sending, records.drop_last());
        acknowledged_all(before, between(before.sets, records.last().0, records.last().1))
    }
}

/// The sending side after the datagrams that are kept under the numbers of
/// each record were queued again, record by record, each record in rising
/// order.
pub open spec fn renumbered_ranges(
    sending: PacketQueueView,
    records: Seq<(u32, u32)>,
) -> PacketQueueView
    decreases records.len(),
{
    if records.len() == 0 {
        sending
    } else {
        let before = renumbered_ranges(sending, records.drop_last());
        before.renumbered_all(between(before.sets, records.last().0, records.last().1))
    }
}

/// One session with one peer.
pub struct Connection {
    pub address: Address,
    pub guid: u64,
    pub opponent_guid: u64,
    pub mtu: u16,
    pub last_receive: u128,
    ack_queue: ACKQueue,
    packet_queue: PacketQueue,
    message_index: u32,
    order_index: u32,
    split_id: u16,
    received: RecievdQueue,
    splits: SplitPacketQueue,
    last_ping: u128,
    phase: Phase,
    recovery_queue: VecDeque<RaknetEvent>,
    rak_type: RaknetType,
}

impl View for Connection {
    type V = ConnectionView;

    closed spec fn view(&self) -> ConnectionView {
        ConnectionView {
            address: self.address,
            guid: self.guid,
            opponent_guid: self.opponent_guid,
            mtu: self.mtu,
            last_receive: self.last_receive,
            last_ping: self.last_ping,
            ranges: self.ack_queue.ranges(),
            missing: self.ack_queue.missing(),
            highest: self.ack_queue.highest(),
            sending: self.packet_queue@,
            message_index: self.message_index,
            order_index: self.order_index,
            split_id: self.split_id,
            receiving: self.received@,
            splits: self.splits@,
            phase: self.phase,
            events: event_views(self.recovery_queue@),
            role: self.rak_type,
        }
    }
}

impl Connection {
    /// The queues are well formed, the indices have 24 bits, and every
    /// frame that waits on the sending side reads back as it is.
    pub closed spec fn wf(&self) -> bool {
        self.inner_wf() && sound(self@)
    }

    /// The queues are well formed and the indices have 24 bits.
    closed spec fn inner_wf(&self) -> bool {
        &&& self.ack_queue.wf()
        &&& self.packet_queue.wf()
        &&& self.received@.wf()
        &&& pool_wf(self.splits@)
        &&& self.message_index < 0x100_0000
        &&& self.order_index < 0x100_0000
    }

    /// A session in which nothing has happened, made at `now`.
    pub fn new(
        address: Address,
        guid: u64,
        opponent_guid: u64,
        mtu: u16,
        rak_type: RaknetType,
        now: u128,
    ) -> (r: Self)
        ensures
            r.wf(),
            r@ == ConnectionView::fresh(address, guid, opponent_guid, mtu, rak_type, now),
    {
        proof {
            lemma_fresh_sound(address, guid, opponent_guid, mtu, rak_type, now);
        }
        let r = Self {
            address,
            guid,
            opponent_guid,
            mtu,
            last_receive: now,
            ack_queue: ACKQueue::new(),
            packet_queue: PacketQueue::new(mtu, now),
            message_index: 0,
            order_index: 0,
            split_id: 0,
            received: RecievdQueue::new(),
            splits: SplitPacketQueue::new(),
            last_ping: now,
            phase: Phase::Handshaking,
            recovery_queue: VecDeque::new(),
            rak_type,
        };
        assert(r@.events =~= Seq::<EventView>::empty());
        r
    }

    /// Where the peer is, and the peer's identifier.
    pub fn peer(&self) -> (r: (Address, u64))
        ensures
            r == (self@.address, self@.opponent_guid),
    {
        (self.address, self.opponent_guid)
    }

    /// How many events wait for the application.
    pub fn pending(&self) -> (r: usize)
        ensures
            r == self@.events.len(),
    {
        assert(event_views(self.recovery_queue@).len() == self.recovery_queue@.len());
        self.recovery_queue.len()
    }

    /// How far the session has got.
    pub fn phase(&self) -> (r: Phase)
        ensures
            r == self@.phase,
    {
        self.phase
    }

    /// The time as the packets carry it.
    pub fn time_stamp(&self, now: u128) -> (r: i64)
        ensures
            r == clock(now),
    {
        if now <= i64::MAX as u128 {
            now as i64
        } else {
            0
        }
    }

    fn send(&mut self, packet: Frame)
        requires
            old(self).inner_wf(),
        ensures
            final(self).inner_wf(),
            final(self)@ == old(self)@.queued(packet@),
    {
        self.packet_queue.add_frame(packet);
    }

    /// Sends `data` reliable and ordered under the session's indices.
    fn send_ordered(&mut self, data: &[u8])
        requires
            old(self).inner_wf(),
        ensures
            final(self).inner_wf(),
            final(self)@ == old(self)@.sent_ordered(data@),
    {
        let mut frame = Frame::new(Reliability::ReliableOrdered, data);
        frame.message_index = self.message_index;
        frame.order_index = self.order_index;
        self.message_index = if self.message_index >= 0xff_ffff {
            0
        } else {
            self.message_index + 1
        };
        self.order_index = if self.order_index >= 0xff_ffff {
            0
        } else {
            self.order_index + 1
        };
        self.send(frame);
    }

    fn put_event(&mut self, event: RaknetEvent)
        requires
            old(self).inner_wf(),
        ensures
            final(self).inner_wf(),
            final(self)@ == old(self)@.emitted(event@),
    {
        let ghost view = event@;
        self.recovery_queue.push_back(event);
        assert(self@.events =~= old(self)@.events.push(view));
    }

    fn send_ping(&mut self)
        requires
            old(self).inner_wf(),
        ensures
            final(self).inner_wf(),
            final(self)@ == old(self)@.pinged(),
    {
        let connected_ping = ConnectedPing::new(self.time_stamp(self.last_ping));
        match encode(connected_ping) {
            Ok(buff) => {
                let frame = Frame::new(Reliability::Unreliable, buff.as_slice());
                self.send(frame);
            },
            Err(_) => {},
        }
    }

    /// Says goodbye to the peer.
    pub fn disconnect(&mut self)
        requires
            old(self).wf(),
        ensures
            final(self).wf(),
            final(self)@ == old(self)@.disconnect_started(),
    {
        proof {
            lemma_sent_message_sound(old(self)@, Seq::<u8>::empty(), 0);
        }
        self.say_goodbye();
    }

    /// Queues the goodbye, where none was said.
    fn say_goodbye(&mut self)
        requires
            old(self).inner_wf(),
        ensures
            final(self).inner_wf(),
            final(self)@ == old(self)@.disconnect_started(),
    {
        match self.phase {
            Phase::Handshaking | Phase::Connected => {
                let goodbye: Vec<u8> = vec![0x15u8];
                assert(goodbye@ =~= seq![0x15u8]);
                self.send_ordered(goodbye.as_slice());
                self.phase = Phase::Disconnecting;
            },
            _ => {},
        }
    }

    /// Ends the session and tells the application why.
    fn disconnected(&mut self, reason: DisconnectReason)
        requires
            old(self).inner_wf(),
        ensures
            final(self).inner_wf(),
            final(self)@ == old(self)@.closed(reason),
    {
        match self.phase {
            Phase::Closed => {},
            _ => {
                self.put_event(RaknetEvent::Disconnected(self.address, self.opponent_guid, reason));
                self.phase = Phase::Closed;
            },
        }
    }

    /// Takes note that the handshake is done.
    fn connected(&mut self)
        requires
            old(self).inner_wf(),
        ensures
            final(self).inner_wf(),
            final(self)@ == old(self)@.established(),
    {
        match self.phase {
            Phase::Handshaking => {
                self.put_event(RaknetEvent::Connected(self.address, self.opponent_guid));
                self.phase = Phase::Connected;
            },
            _ => {},
        }
    }

    fn handle_connectionrequest(&mut self, payload: &[u8], now: u128)
        requires
            old(self).inner_wf(),
            payload@.len() > 0,
        ensures
            final(self).inner_wf(),
            final(self)@ == old(self)@.asked(payload@, now),
    {
        match self.rak_type {
            RaknetType::Client => {
                return ;
            },
            RaknetType::Server => {},
        }
        let p: ConnectionRequest = match decode::<ConnectionRequest>(payload) {
            Ok(p) => p,
            Err(_) => {
                return ;
            },
        };
        let reply = ConnectionRequestAccepted::new(self.address, p.time, self.time_stamp(now));
        match encode::<ConnectionRequestAccepted>(reply) {
            Ok(buff) => {
                self.send_ordered(buff.as_slice());
                self.connected();
            },
            Err(_) => {},
        }
    }

    fn handle_connectionrequest_accepted(&mut self, payload: &[u8])
        requires
            old(self).inner_wf(),
            payload@.len() > 0,
        ensures
            final(self).inner_wf(),
            final(self)@ == old(self)@.accepted(payload@),
    {
        match self.rak_type {
            RaknetType::Server => {
                return ;
            },
            RaknetType::Client => {},
        }
        let accepted: ConnectionRequestAccepted = match decode::<ConnectionRequestAccepted>(
            payload,
        ) {
            Ok(p) => p,
            Err(_) => {
                return ;
            },
        };
        let newincoming = NewIncomingConnection {
            server_address: self.address,
            request_timestamp: accepted.request_timestamp,
            accepted_timestamp: accepted.accepted_timestamp,
        };
        match encode(newincoming) {
            Ok(buff) => {
                self.send_ordered(buff.as_slice());
                self.connected();
                self.send_ping();
            },
            Err(_) => {},
        }
    }

    fn handle_connectedping(&mut self, payload: &[u8], now: u128)
        requires
            old(self).inner_wf(),
            payload@.len() > 0,
        ensures
            final(self).inner_wf(),
            final(self)@ == old(self)@.probed(payload@, now),
    {
        let p: ConnectedPing = match decode::<ConnectedPing>(payload) {
            Ok(p) => p,
            Err(_) => {
                return ;
            },
        };
        let pong = ConnectedPong::new(p.client_timestamp, self.time_stamp(now));
        match encode(pong) {
            Ok(buff) => {
                self.send_ordered(buff.as_slice());
            },
            Err(_) => {},
        }
    }

    fn handle_packet(&mut self, payload: &[u8], now: u128)
        requires
            old(self).inner_wf(),
        ensures
            final(self).inner_wf(),
            final(self)@ == old(self)@.handled_packet(payload@, now),
    {
        if payload.len() == 0 {
            return ;
        }
        let id: u8 = payload[0];
        if id == ConnectionRequest::ID {
            self.handle_connectionrequest(payload, now);
        } else if id == ConnectionRequestAccepted::ID {
            self.handle_connectionrequest_accepted(payload);
        } else if id == NewIncomingConnection::ID || id == ConnectedPong::ID {
        } else if id == ConnectedPing::ID {
            self.handle_connectedping(payload, now);
        } else if id == crate::packets::disconnected::Disconnected::ID {
            self.say_goodbye();
            self.disconnected(DisconnectReason::Disconnect);
        } else {
            let mut data: Vec<u8> = Vec::new();
            append_bytes(&mut data, payload);
            assert(data@ =~= payload@);
            let rak_packet = RaknetPacket::new(self.address, self.opponent_guid, data);
            self.put_event(RaknetEvent::Packet(rak_packet));
        }
    }

    /// Handles the payloads of `frames` one after the other.
    fn handle_frames(&mut self, frames: &Vec<Frame>, now: u128)
        requires
            old(self).inner_wf(),
        ensures
            final(self).inner_wf(),
            final(self)@ == old(self)@.handled_packets(payloads_of(frame_views(frames@)), now),
    {
        let ghost payloads = payloads_of(frame_views(frames@));
        let mut i: usize = 0;
        proof {
            lemma_packets_step(self@, payloads, 0, now);
        }
        while i < frames.len()
            invariant
                i <= frames@.len(),
                payloads == payloads_of(frame_views(frames@)),
                self.inner_wf(),
                self@ == old(self)@.handled_packets(payloads.take(i as int), now),
            decreases frames@.len() - i,
        {
            proof {
                lemma_packets_step(old(self)@, payloads, i as int, now);
                assert(payloads[i as int] == frames@[i as int].data@);
            }
            self.handle_packet(frames[i].data.as_slice(), now);
            i += 1;
        }
        proof {
            lemma_packets_step(old(self)@, payloads, i as int, now);
        }
    }

    /// Handles the split messages of `full`, each put together, one after
    /// the other.
    fn handle_messages(&mut self, full: Vec<SplitPacket>, now: u128)
        requires
            old(self).inner_wf(),
            forall|k: int|
                0 <= k < full@.len() ==> (#[trigger] split_views(full@)[k]).wf() && split_views(
                    full@,
                )[k].full,
        ensures
            final(self).inner_wf(),
            final(self)@ == old(self)@.handled_packets(messages_of(split_views(full@)), now),
    {
        let ghost views = split_views(full@);
        let ghost payloads = messages_of(views);
        let mut full = full;
        proof {
            lemma_packets_step(self@, payloads, 0, now);
        }
        assert(split_views(full@) =~= views.skip(0));
        while full.len() > 0
            invariant
                full@.len() <= views.len(),
                payloads == messages_of(views),
                split_views(full@) == views.skip(views.len() - full@.len()),
                forall|k: int| 0 <= k < views.len() ==> (#[trigger] views[k]).wf() && views[k].full,
                self.inner_wf(),
                self@ == old(self)@.handled_packets(
                    payloads.take(views.len() - full@.len()),
                    now,
                ),
            decreases full@.len(),
        {
            let ghost n = views.len() - full@.len();
            let ghost left = split_views(full@);
            let mut message: SplitPacket = full.remove(0);
            proof {
                assert(message@ == left[0]);
                assert(message@ == views[n]);
                assert(split_views(full@) =~= left.skip(1));
                assert(left.skip(1) =~= views.skip(n + 1));
                lemma_packets_step(old(self)@, payloads, n, now);
            }
            let whole: Vec<u8> = message.get_all();
            self.handle_packet(whole.as_slice(), now);
        }
        proof {
            lemma_packets_step(old(self)@, payloads, payloads.len() as int, now);
        }
    }

    fn receive_packet(&mut self, frame: Frame, now: u128)
        requires
            old(self).inner_wf(),
        ensures
            final(self).inner_wf(),
            final(self)@ == old(self)@.received_frame(frame@, now),
    {
        if frame.reliability.sequenced_or_ordered() {
            self.received.add(frame);
            let turn: Vec<Frame> = self.received.get_all();
            self.handle_frames(&turn, now);
        } else if frame.split {
            let ghost pool = pool_after(self.splits@, frame@);
            self.splits.add(&frame);
            let full: Vec<SplitPacket> = self.splits.get_and_clear();
            proof {
                crate::packet::lemma_full_of_wf(pool);
            }
            self.handle_messages(full, now);
        } else {
            self.handle_packet(frame.data.as_slice(), now);
        }
    }

    /// Takes the frames of a datagram one after the other.
    fn receive_frames(&mut self, datas: Vec<Frame>, now: u128)
        requires
            old(self).inner_wf(),
        ensures
            final(self).inner_wf(),
            final(self)@ == old(self)@.received_frames(frame_views(datas@), now),
    {
        let ghost frames = frame_views(datas@);
        let mut datas = datas;
        proof {
            lemma_frames_step(self@, frames, 0, now);
        }
        assert(frame_views(datas@) =~= frames.skip(0));
        while datas.len() > 0
            invariant
                datas@.len() <= frames.len(),
                frame_views(datas@) == frames.skip(frames.len() - datas@.len()),
                self.inner_wf(),
                self@ == old(self)@.received_frames(
                    frames.take(frames.len() - datas@.len()),
                    now,
                ),
            decreases datas@.len(),
        {
            let ghost n = frames.len() - datas@.len();
            let ghost left = frame_views(datas@);
            let frame: Frame = datas.remove(0);
            proof {
                assert(frame@ == left[0]);
                assert(frame@ == frames[n]);
                assert(frame_views(datas@) =~= left.skip(1));
                assert(left.skip(1) =~= frames.skip(n + 1));
                lemma_frames_step(old(self)@, frames, n, now);
            }
            self.receive_packet(frame, now);
        }
        proof {
            lemma_frames_step(old(self)@, frames, frames.len() as int, now);
        }
    }

    /// One negative acknowledgement for each missing number.
    fn nacks(&self) -> (r: Vec<Vec<u8>>)
        ensures
            datagram_views(r@) == nack_datagrams(self@.missing),
    {
        let missing: Vec<u32> = self.ack_queue.get_missing();
        let mut out: Vec<Vec<u8>> = Vec::new();
        let mut i: usize = 0;
        assert(missing@.take(0) =~= Seq::<u32>::empty());
        assert(datagram_views(out@) =~= nack_datagrams(missing@.take(0)));
        while i < missing.len()
            invariant
                i <= missing@.len(),
                datagram_views(out@) == nack_datagrams(missing@.take(i as int)),
            decreases missing@.len() - i,
        {
            proof {
                assert(missing@.take(i as int + 1).drop_last() =~= missing@.take(i as int));
            }
            let ghost had = datagram_views(out@);
            let nack = Nack::new((missing[i], missing[i]));
            match encode(nack) {
                Ok(buff) => {
                    let ghost view = buff@;
                    out.push(buff);
                    assert(datagram_views(out@) =~= had.push(view));
                },
                Err(_) => {},
            }
            i += 1;
        }
        assert(missing@.take(i as int) =~= missing@);
        out
    }

    fn handle_datagram(&mut self, buff: &[u8], now: u128) -> (r: Vec<Vec<u8>>)
        requires
            old(self).inner_wf(),
        ensures
            final(self).inner_wf(),
            final(self)@ == old(self)@.handled_datagram(buff@, now),
            datagram_views(r@) == if FrameSetView::parse(buff@) is Ok && !old(self)@.quiet() {
                nack_datagrams(
                    missing_after(
                        old(self)@.highest,
                        old(self)@.missing,
                        FrameSetView::parse(buff@).unwrap().sequence_number,
                    ),
                )
            } else {
                Seq::<Seq<u8>>::empty()
            },
    {
        let frame_set: FrameSet = match FrameSet::decode(buff) {
            Ok(set) => set,
            Err(_) => {
                let none: Vec<Vec<u8>> = Vec::new();
                assert(datagram_views(none@) =~= Seq::<Seq<u8>>::empty());
                return none;
            },
        };
        self.ack_queue.add(frame_set.sequence_number);
        let out: Vec<Vec<u8>> = match self.phase {
            Phase::Disconnecting | Phase::Closed => {
                let none: Vec<Vec<u8>> = Vec::new();
                assert(datagram_views(none@) =~= Seq::<Seq<u8>>::empty());
                none
            },
            _ => self.nacks(),
        };
        self.receive_frames(frame_set.datas, now);
        out
    }

    /// Forgets the datagrams that are kept under the numbers from `least`
    /// to `greatest`.
    fn acknowledge(&mut self, least: u32, greatest: u32)
        requires
            old(self).inner_wf(),
        ensures
            final(self).inner_wf(),
            final(self)@ == (ConnectionView {
                sending: acknowledged_all(
                    old(self)@.sending,
                    between(old(self)@.sending.sets, least, greatest),
                ),
                ..old(self)@
            }),
    {
        let named: Vec<u32> = self.packet_queue.kept_between(least, greatest);
        let ghost sending = self@.sending;
        let mut i: usize = 0;
        assert(named@.take(0) =~= Seq::<u32>::empty());
        while i < named.len()
            invariant
                i <= named@.len(),
                self.inner_wf(),
                self@ == (ConnectionView {
                    sending: acknowledged_all(sending, named@.take(i as int)),
                    ..old(self)@
                }),
            decreases named@.len() - i,
        {
            proof {
                assert(named@.take(i as int + 1).drop_last() =~= named@.take(i as int));
            }
            self.packet_queue.received(named[i]);
            i += 1;
        }
        assert(named@.take(i as int) =~= named@);
    }

    /// Queues again the datagrams that are kept under the numbers from
    /// `least` to `greatest`.
    fn ask_again(&mut self, least: u32, greatest: u32)
        requires
            old(self).inner_wf(),
        ensures
            final(self).inner_wf(),
            final(self)@ == (ConnectionView {
                sending: old(self)@.sending.renumbered_all(
                    between(old(self)@.sending.sets, least, greatest),
                ),
                ..old(self)@
            }),
    {
        let named: Vec<u32> = self.packet_queue.kept_between(least, greatest);
        let ghost sending = self@.sending;
        let mut i: usize = 0;
        assert(named@.take(0) =~= Seq::<u32>::empty());
        while i < named.len()
            invariant
                i <= named@.len(),
                self.inner_wf(),
                self@ == (ConnectionView {
                    sending: sending.renumbered_all(named@.take(i as int)),
                    ..old(self)@
                }),
            decreases named@.len() - i,
        {
            proof {
                assert(named@.take(i as int + 1).drop_last() =~= named@.take(i as int));
            }
            self.packet_queue.resend(named[i]);
            i += 1;
        }
        assert(named@.take(i as int) =~= named@);
    }

    fn handle_ack(&mut self, buff: &[u8])
        requires
            old(self).inner_wf(),
            buff@.len() > 0,
        ensures
            final(self).inner_wf(),
            final(self)@ == old(self)@.handled_ack(buff@),
    {
        let ack: ACK = match decode::<ACK>(buff) {
            Ok(p) => p,
            Err(_) => {
                return ;
            },
        };
        let ghost sending = self@.sending;
        let mut i: usize = 0;
        assert(ack@.take(0) =~= Seq::<(u32, u32)>::empty());
        while i < ack.records.len()
            invariant
                i <= ack@.len(),
                self.inner_wf(),
                self@ == (ConnectionView {
                    sending: acknowledged_ranges(sending, ack@.take(i as int)),
                    ..old(self)@
                }),
            decreases ack@.len() - i,
        {
            proof {
                assert(ack@.take(i as int + 1).drop_last() =~= ack@.take(i as int));
            }
            self.acknowledge(ack.records[i].0, ack.records[i].1);
            i += 1;
        }
        assert(ack@.take(i as int) =~= ack@);
    }

    fn handle_nack(&mut self, buff: &[u8])
        requires
            old(self).inner_wf(),
            buff@.len() > 0,
        ensures
            final(self).inner_wf(),
            final(self)@ == old(self)@.handled_nack(buff@),
    {
        let nack: Nack = match decode::<Nack>(buff) {
            Ok(p) => p,
            Err(_) => {
                return ;
            },
        };
        let ghost sending = self@.sending;
        let mut i: usize = 0;
        assert(nack@.take(0) =~= Seq::<(u32, u32)>::empty());
        while i < nack.records.len()
            invariant
                i <= nack@.len(),
                self.inner_wf(),
                self@ == (ConnectionView {
                    sending: renumbered_ranges(sending, nack@.take(i as int)),
                    ..old(self)@
                }),
            decreases nack@.len() - i,
        {
            proof {
                assert(nack@.take(i as int + 1).drop_last() =~= nack@.take(i as int));
            }
            self.ask_again(nack.records[i].0, nack.records[i].1);
            i += 1;
        }
        assert(nack@.take(i as int) =~= nack@);
    }

    /// Takes a datagram that arrived from the peer at `now`, and hands back
    /// the datagrams to send to the peer at once.
    pub fn handle(&mut self, buff: &[u8], now: u128) -> (r: Vec<Vec<u8>>)
        requires
            old(self).wf(),
        ensures
            final(self).wf(),
            final(self)@ == old(self)@.handled(buff@, now),
            datagram_views(r@) == old(self)@.replies(buff@),
    {
        proof {
            lemma_handled_sound(old(self)@, buff@, now);
        }
        let mut none: Vec<Vec<u8>> = Vec::new();
        assert(datagram_views(none@) =~= Seq::<Seq<u8>>::empty());
        if buff.len() == 0 {
            return none;
        }
        let header: u8 = buff[0];
        self.last_receive = now;
        if header & ACK_FLAG != 0 {
            self.handle_ack(buff);
            none
        } else if header & NACK_FLAG != 0 {
            self.handle_nack(buff);
            none
        } else if header & DATAGRAM_FLAG != 0 {
            self.handle_datagram(buff, now)
        } else {
            none
        }
    }

    /// The datagrams of the sending side that wait to be sent at `now`.
    fn flush_queue(&mut self, now: u128) -> (r: Vec<Vec<u8>>)
        requires
            old(self).inner_wf(),
        ensures
            final(self).inner_wf(),
            final(self)@ == (ConnectionView {
                sending: old(self)@.sending.sent(now),
                ..old(self)@
            }),
            datagram_views(r@) == set_datagrams(
                crate::packetqueue::unsent(
                    old(self)@.sending.prepared(now).sets,
                    old(self)@.sending.prepared(now).send_min,
                ),
            ),
    {
        let sets: Vec<FrameSet> = self.packet_queue.get_packet(now);
        let ghost views = crate::packetqueue::set_views(sets@);
        let mut out: Vec<Vec<u8>> = Vec::new();
        let mut i: usize = 0;
        assert(views.take(0) =~= Seq::<FrameSetView>::empty());
        assert(datagram_views(out@) =~= set_datagrams(views.take(0)));
        while i < sets.len()
            invariant
                i <= sets@.len(),
                views == crate::packetqueue::set_views(sets@),
                datagram_views(out@) == set_datagrams(views.take(i as int)),
            decreases sets@.len() - i,
        {
            proof {
                assert(views.take(i as int + 1).drop_last() =~= views.take(i as int));
                assert(views.take(i as int + 1).last() == sets@[i as int]@);
            }
            let ghost had = datagram_views(out@);
            match sets[i].encode() {
                Ok(bytes) => {
                    let ghost view = bytes@;
                    out.push(bytes);
                    assert(datagram_views(out@) =~= had.push(view));
                },
                Err(_) => {},
            }
            i += 1;
        }
        assert(views.take(i as int) =~= views);
        out
    }

    /// One acknowledgement for each range received; the ranges are
    /// forgotten.
    fn flush_ack(&mut self) -> (r: Vec<Vec<u8>>)
        requires
            old(self).inner_wf(),
        ensures
            final(self).inner_wf(),
            final(self)@ == (ConnectionView {
                ranges: Seq::<(u32, u32)>::empty(),
                ..old(self)@
            }),
            datagram_views(r@) == if old(self)@.quiet() {
                Seq::<Seq<u8>>::empty()
            } else {
                ack_datagrams(old(self)@.ranges)
            },
    {
        let acks: Vec<(u32, u32)> = self.ack_queue.get_send_able_and_clear();
        let mut out: Vec<Vec<u8>> = Vec::new();
        assert(datagram_views(out@) =~= Seq::<Seq<u8>>::empty());
        match self.phase {
            Phase::Disconnecting | Phase::Closed => {
                return out;
            },
            _ => {},
        }
        let mut i: usize = 0;
        assert(acks@.take(0) =~= Seq::<(u32, u32)>::empty());
        assert(datagram_views(out@) =~= ack_datagrams(acks@.take(0)));
        while i < acks.len()
            invariant
                i <= acks@.len(),
                datagram_views(out@) == ack_datagrams(acks@.take(i as int)),
            decreases acks@.len() - i,
        {
            proof {
                assert(acks@.take(i as int + 1).drop_last() =~= acks@.take(i as int));
            }
            let ghost had = datagram_views(out@);
            let ack = ACK::new(acks[i]);
            match encode(ack) {
                Ok(buff) => {
                    let ghost view = buff@;
                    out.push(buff);
                    assert(datagram_views(out@) =~= had.push(view));
                },
                Err(_) => {},
            }
            i += 1;
        }
        assert(acks@.take(i as int) =~= acks@);
        out
    }

    /// A tick of the clock at `now`: hands back the datagrams to send to
    /// the peer.
    pub fn update(&mut self, now: u128) -> (r: Vec<Vec<u8>>)
        requires
            old(self).wf(),
        ensures
            final(self).wf(),
            final(self)@ == old(self)@.updated(now),
            datagram_views(r@) == old(self)@.outgoing(now),
    {
        proof {
            lemma_updated_sound(old(self)@, now);
        }
        let mut out: Vec<Vec<u8>> = self.flush_queue(now);
        let mut acks: Vec<Vec<u8>> = self.flush_ack();
        let ghost first = datagram_views(out@);
        let ghost second = datagram_views(acks@);
        out.append(&mut acks);
        assert(datagram_views(out@) =~= first + second);
        if now > self.last_receive && now - self.last_receive > RECEIVE_TIMEOUT {
            self.say_goodbye();
            self.disconnected(DisconnectReason::Timeout);
        }
        if now > self.last_ping && now - self.last_ping > PING_INTERVAL {
            self.last_ping = now;
            self.send_ping();
        }
        out
    }

    /// Hands the application the oldest events, as many as it has room
    /// for. The others wait, in order, for the next call.
    pub fn recovery(&mut self, room: usize) -> (r: Vec<RaknetEvent>)
        requires
            old(self).wf(),
        ensures
            final(self).wf(),
            event_views(r@) == old(self)@.events.take(old(self)@.taken(room)),
            final(self)@ == (ConnectionView {
                events: old(self)@.events.skip(old(self)@.taken(room)),
                ..old(self)@
            }),
    {
        proof {
            assert(sound(old(self)@));
        }
        let ghost events = self@.events;
        let mut out: Vec<RaknetEvent> = Vec::new();
        assert(event_views(out@) =~= events.take(0));
        assert(event_views(self.recovery_queue@) =~= events.skip(0));
        while out.len() < room && self.recovery_queue.len() > 0
            invariant
                self.inner_wf(),
                out@.len() <= room,
                out@.len() <= events.len(),
                event_views(out@) == events.take(out@.len() as int),
                event_views(self.recovery_queue@) == events.skip(out@.len() as int),
                self@ == (ConnectionView {
                    events: event_views(self.recovery_queue@),
                    ..old(self)@
                }),
            decreases self.recovery_queue@.len(),
        {
            let ghost had = event_views(out@);
            let ghost waiting = self.recovery_queue@;
            let ghost n = out@.len() as int;
            assert(event_views(waiting).len() == waiting.len());
            match self.recovery_queue.pop_front() {
                Some(event) => {
                    let ghost view = event@;
                    assert(view == event_views(waiting)[0]);
                    assert(view == events[n]);
                    out.push(event);
                    assert(event_views(out@) =~= had.push(view));
                    assert(had.push(view) =~= events.take(n + 1));
                    assert(event_views(self.recovery_queue@) =~= event_views(waiting).skip(1));
                    assert(event_views(waiting).skip(1) =~= events.skip(n + 1));
                },
                None => {},
            }
        }
        proof {
            let n = out@.len() as int;
            assert(event_views(self.recovery_queue@).len() == self.recovery_queue@.len());
            assert(n == old(self)@.taken(room));
        }
        out
    }

    /// Asks the server for the session. A client does this once the
    /// handshake before the session is done.
    pub fn connect(&mut self, now: u128)
        requires
            old(self).wf(),
        ensures
            final(self).wf(),
            final(self)@ == old(self)@.requested(now),
    {
        proof {
            lemma_sent_message_sound(old(self)@, Seq::<u8>::empty(), now);
        }
        let request = ConnectionRequest::new(self.guid, self.time_stamp(now), false);
        match encode(request) {
            Ok(buff) => {
                let frame = Frame::new(Reliability::Reliable, buff.as_slice());
                self.send(frame);
            },
            Err(_) => {},
        }
    }

    /// How many bytes a piece of a split message carries.
    fn fragment_size(&self) -> (r: usize)
        ensures
            r == fragment_size(self@.mtu),
            1 <= r <= MAX_PAYLOAD,
    {
        let mtu: usize = self.mtu as usize;
        if mtu <= SPLIT_HEADROOM {
            1
        } else if mtu - SPLIT_HEADROOM > MAX_PAYLOAD {
            MAX_PAYLOAD
        } else {
            mtu - SPLIT_HEADROOM
        }
    }

    /// Sends a message of the application to the peer.
    pub fn send_to(&mut self, buff: &[u8])
        requires
            old(self).wf(),
        ensures
            final(self).wf(),
            final(self)@ == old(self)@.sent_message(buff@),
    {
        proof {
            lemma_sent_message_sound(old(self)@, buff@, 0);
        }
        let len: usize = buff.len();
        if len == 0 || (len <= MAX_PAYLOAD && len + FRAME_HEADROOM < self.mtu as usize) {
            self.send_ordered(buff);
            return ;
        }
        let size: usize = self.fragment_size();
        let whole: u128 = (len / size) as u128;
        let wide: u128 = if len % size == 0 {
            whole
        } else {
            whole + 1
        };
        if wide > u32::MAX as u128 {
            return ;
        }
        let count: u64 = wide as u64;
        proof {
            lemma_pieces(len as nat, size as nat, 0);
        }
        let order_index: u32 = self.order_index;
        let split_id: u16 = self.split_id;
        let mut i: u64 = 0;
        let mut start: usize = 0;
        while i < count
            invariant
                i <= count,
                count == pieces(len as nat, size as nat),
                count <= u32::MAX,
                len == buff@.len(),
                size == fragment_size(old(self)@.mtu),
                size >= 1,
                i < count ==> start == i * size && start < len,
                order_index == old(self)@.order_index,
                split_id == old(self)@.split_id,
                self.inner_wf(),
                self@ == old(self)@.with_fragments(buff@, i as nat),
                self@.order_index == old(self)@.order_index,
                self@.split_id == old(self)@.split_id,
                self@.mtu == old(self)@.mtu,
            decreases count - i,
        {
            let end: usize = if len - start > size {
                start + size
            } else {
                len
            };
            let mut frame = Frame::new(Reliability::ReliableOrdered, &buff[start..end]);
            frame.split = true;
            frame.message_index = self.message_index;
            frame.order_index = order_index;
            frame.split_count = count as u32;
            frame.split_id = split_id;
            frame.split_index = i as u32;
            proof {
                assert(frame@.data =~= fragment(buff@, size as nat, i as nat));
                lemma_pieces(len as nat, size as nat, (i + 1) as nat);
                assert((i + 1) * size == i * size + size) by (nonlinear_arith);
            }
            self.send(frame);
            self.message_index = if self.message_index >= 0xff_ffff {
                0
            } else {
                self.message_index + 1
            };
            i += 1;
            start = end;
        }
        self.split_id = if self.split_id == u16::MAX {
            0
        } else {
            self.split_id + 1
        };
        self.order_index = if self.order_index >= 0xff_ffff {
            0
        } else {
            self.order_index + 1
        };
    }
}

/// No message changes nothing, and one message more is handled behind the
/// others.
pub proof fn lemma_packets_step(c: ConnectionView, payloads: Seq<Seq<u8>>, n: int, now: u128)
    requires
        0 <= n <= payloads.len(),
    ensures
        c.handled_packets(payloads.take(0), now) == c,
        n < payloads.len() ==> c.handled_packets(payloads.take(n + 1), now) == c.handled_packets(
            payloads.take(n),
            now,
        ).handled_packet(payloads[n], now),
        c.handled_packets(payloads.take(payloads.len() as int), now) == c.handled_packets(
            payloads,
            now,
        ),
{
    reveal(ConnectionView::handled_packets);
    assert(payloads.take(payloads.len() as int) =~= payloads);
    if n < payloads.len() {
        assert(payloads.take(n + 1).drop_last() =~= payloads.take(n));
    }
}

/// No frame changes nothing, and one frame more is taken behind the others.
pub proof fn lemma_frames_step(c: ConnectionView, frames: Seq<FrameView>, n: int, now: u128)
    requires
        0 <= n <= frames.len(),
    ensures
        c.received_frames(frames.take(0), now) == c,
        n < frames.len() ==> c.received_frames(frames.take(n + 1), now) == c.received_frames(
            frames.take(n),
            now,
        ).received_frame(frames[n], now),
        c.received_frames(frames.take(frames.len() as int), now) == c.received_frames(frames, now),
{
    reveal(ConnectionView::received_frames);
    assert(frames.take(frames.len() as int) =~= frames);
    if n < frames.len() {
        assert(frames.take(n + 1).drop_last() =~= frames.take(n));
    }
}

/// Two states of one session: the peer, the identifiers, the datagram size
/// and the side are the same.
pub open spec fn same_session(a: ConnectionView, b: ConnectionView) -> bool {
    &&& a.address == b.address
    &&& a.guid == b.guid
    &&& a.opponent_guid == b.opponent_guid
    &&& a.mtu == b.mtu
    &&& a.role == b.role
}

/// Pieces that go out leave the session with its peer.
pub proof fn lemma_fragments_keep(c: ConnectionView, buff: Seq<u8>, n: nat)
    ensures
        same_session(c, c.with_fragments(buff, n)),
    decreases n,
{
    if n > 0 {
        lemma_fragments_keep(c, buff, (n - 1) as nat);
    }
}

/// How many of the events tell the application that the session ended.
pub open spec fn disconnects(events: Seq<EventView>) -> nat
    decreases events.len(),
{
    if events.len() == 0 {
        0
    } else if events.last() is Disconnected {
        disconnects(events.drop_last()) + 1
    } else {
        disconnects(events.drop_last())
    }
}

/// From the state `a` to the state `b` the session stays what it is, a
/// session that is over stays over, and the application is told that the
/// session ended exactly where the session comes to be over.
pub open spec fn told_the_end_once(a: ConnectionView, b: ConnectionView) -> bool {
    &&& same_session(a, b)
    &&& a.phase is Closed ==> b.phase is Closed
    &&& disconnects(b.events) == disconnects(a.events) + if !(a.phase is Closed)
        && b.phase is Closed {
        1nat
    } else {
        0nat
    }
}

/// One event more is one end more told where the event tells the end.
proof fn lemma_disconnects_push(events: Seq<EventView>, e: EventView)
    ensures
        disconnects(events.push(e)) == disconnects(events) + if e is Disconnected {
            1nat
        } else {
            0nat
        },
{
    assert(events.push(e).drop_last() =~= events);
}

/// A message that arrives tells the application the end at most once, and
/// only as it ends the session.
pub proof fn lemma_packet_tells_once(c: ConnectionView, payload: Seq<u8>, now: u128)
    ensures
        told_the_end_once(c, c.handled_packet(payload, now)),
{
    let started = c.disconnect_started();
    lemma_disconnects_push(
        started.events,
        EventView::Disconnected(started.address, started.opponent_guid, DisconnectReason::Disconnect),
    );
    lemma_disconnects_push(c.events, EventView::Connected(c.address, c.opponent_guid));
    lemma_disconnects_push(
        c.events,
        EventView::Packet { address: c.address, guid: c.opponent_guid, data: payload },
    );
}

/// Messages that arrive tell the application the end at most once.
pub proof fn lemma_packets_tell_once(c: ConnectionView, payloads: Seq<Seq<u8>>, now: u128)
    ensures
        told_the_end_once(c, c.handled_packets(payloads, now)),
    decreases payloads.len(),
{
    reveal(ConnectionView::handled_packets);
    if payloads.len() > 0 {
        lemma_packets_tell_once(c, payloads.drop_last(), now);
        lemma_packet_tells_once(
            c.handled_packets(payloads.drop_last(), now),
            payloads.last(),
            now,
        );
    }
}

/// Frames that arrive tell the application the end at most once.
pub proof fn lemma_frames_tell_once(c: ConnectionView, frames: Seq<FrameView>, now: u128)
    ensures
        told_the_end_once(c, c.received_frames(frames, now)),
    decreases frames.len(),
{
    reveal(ConnectionView::received_frames);
    if frames.len() > 0 {
        lemma_frames_tell_once(c, frames.drop_last(), now);
        let before = c.received_frames(frames.drop_last(), now);
        let frame = frames.last();
        if frame.reliability.spec_sequenced_or_ordered() {
            let waiting = before.receiving.after(frame);
            lemma_packets_tell_once(
                ConnectionView { receiving: waiting.drained(), ..before },
                payloads_of(ready(waiting.held, waiting.cursor)),
                now,
            );
        } else if frame.split {
            let pool = pool_after(before.splits, frame);
            lemma_packets_tell_once(
                ConnectionView { splits: open_of(pool), ..before },
                messages_of(full_of(pool)),
                now,
            );
        } else {
            lemma_packet_tells_once(before, frame.data, now);
        }
    }
}

/// Whatever datagram arrives, the session stays with its peer, a session
/// that is over stays over, and the application is told that the session
/// ended exactly where the datagram ends it.
pub proof fn lemma_handled_tells_once(c: ConnectionView, buff: Seq<u8>, now: u128)
    ensures
        told_the_end_once(c, c.handled(buff, now)),
{
    if buff.len() > 0 {
        let seen = ConnectionView { last_receive: now, ..c };
        match FrameSetView::parse(buff) {
            Ok(set) => {
                lemma_frames_tell_once(
                    ConnectionView {
                        ranges: ranges_after(seen.ranges, set.sequence_number),
                        missing: missing_after(seen.highest, seen.missing, set.sequence_number),
                        highest: highest_after(seen.highest, set.sequence_number),
                        ..seen
                    },
                    set.datas,
                    now,
                );
            },
            Err(_) => {},
        }
    }
}

/// At whatever time the clock ticks, the session stays with its peer, a
/// session that is over stays over, and the application is told that the
/// session ended exactly where the tick ends it.
pub proof fn lemma_updated_tells_once(c: ConnectionView, now: u128)
    ensures
        told_the_end_once(c, c.updated(now)),
{
    let sent = ConnectionView {
        sending: c.sending.sent(now),
        ranges: Seq::<(u32, u32)>::empty(),
        ..c
    };
    let started = sent.disconnect_started();
    lemma_disconnects_push(
        started.events,
        EventView::Disconnected(started.address, started.opponent_guid, DisconnectReason::Timeout),
    );
}

/// What the application does on its side, sending a message or saying
/// goodbye, never tells it that the session ended.
pub proof fn lemma_application_is_not_told(c: ConnectionView, buff: Seq<u8>)
    ensures
        told_the_end_once(c, c.sent_message(buff)),
        c.sent_message(buff).phase == c.phase,
        told_the_end_once(c, c.disconnect_started()),
        !(c.disconnect_started().phase is Closed) || c.phase is Closed,
{
    let count = pieces(buff.len(), fragment_size(c.mtu));
    lemma_fragments_keep(c, buff, count);
    lemma_fragments_quiet(c, buff, count);
}

/// Pieces that go out change neither the events nor how far the session
/// has got.
proof fn lemma_fragments_quiet(c: ConnectionView, buff: Seq<u8>, n: nat)
    ensures
        c.with_fragments(buff, n).events == c.events,
        c.with_fragments(buff, n).phase == c.phase,
    decreases n,
{
    if n > 0 {
        lemma_fragments_quiet(c, buff, (n - 1) as nat);
    }
}

/// Every frame that waits on the sending side reads back as it is, and the
/// indices of the session have 24 bits.
pub open spec fn sound(c: ConnectionView) -> bool {
    &&& c.sending.sound()
    &&& c.message_index < 0x100_0000
    &&& c.order_index < 0x100_0000
}

/// How long the packets are that a session sends of its own.
proof fn lemma_own_packets_are_short(
    accepted: ConnectionRequestAccepted,
    incoming: NewIncomingConnection,
    pong: ConnectedPong,
    ping: ConnectedPing,
    request: ConnectionRequest,
)
    ensures
        ConnectionRequestAccepted::body(accepted).len() <= 57,
        NewIncomingConnection::body(incoming).len() <= 55,
        ConnectedPong::body(pong).len() == 16,
        ConnectedPing::body(ping).len() == 8,
        ConnectionRequest::body(request).len() == 17,
{
    crate::writer::lemma_address_len(accepted.client_address);
    crate::writer::lemma_address_len(incoming.server_address);
    crate::bytes::lemma_be_bytes_len(accepted.system_index as nat, 2);
    crate::bytes::lemma_be_bytes_len(request.guid as nat, 8);
    crate::writer::lemma_uint_bytes_len(
        crate::writer::i64_bits(accepted.request_timestamp),
        8,
        crate::reader::Endian::Big,
    );
    crate::writer::lemma_uint_bytes_len(
        crate::writer::i64_bits(accepted.accepted_timestamp),
        8,
        crate::reader::Endian::Big,
    );
    crate::writer::lemma_uint_bytes_len(
        crate::writer::i64_bits(incoming.request_timestamp),
        8,
        crate::reader::Endian::Big,
    );
    crate::writer::lemma_uint_bytes_len(
        crate::writer::i64_bits(incoming.accepted_timestamp),
        8,
        crate::reader::Endian::Big,
    );
    crate::writer::lemma_uint_bytes_len(
        crate::writer::i64_bits(pong.client_timestamp),
        8,
        crate::reader::Endian::Big,
    );
    crate::writer::lemma_uint_bytes_len(
        crate::writer::i64_bits(pong.server_timestamp),
        8,
        crate::reader::Endian::Big,
    );
    crate::writer::lemma_uint_bytes_len(
        crate::writer::i64_bits(ping.client_timestamp),
        8,
        crate::reader::Endian::Big,
    );
    crate::writer::lemma_uint_bytes_len(
        crate::writer::i64_bits(request.time),
        8,
        crate::reader::Endian::Big,
    );
}

/// A short message that goes out reliable and ordered leaves the session
/// sound.
proof fn lemma_sent_ordered_sound(c: ConnectionView, data: Seq<u8>)
    requires
        sound(c),
        data.len() <= MAX_PAYLOAD,
    ensures
        sound(c.sent_ordered(data)),
{
    crate::packetqueue::lemma_with_frame_sound(
        c.sending,
        FrameView {
            message_index: c.message_index,
            order_index: c.order_index,
            ..plain_frame(Reliability::ReliableOrdered, data)
        },
    );
}

/// A probe leaves the session sound.
proof fn lemma_pinged_sound(c: ConnectionView)
    requires
        sound(c),
    ensures
        sound(c.pinged()),
{
    let ping = ConnectedPing { client_timestamp: clock(c.last_ping) };
    lemma_own_packets_are_short(arbitrary(), arbitrary(), arbitrary(), ping, arbitrary());
    crate::packetqueue::lemma_with_frame_sound(
        c.sending,
        plain_frame(Reliability::Unreliable, seq![0x00u8] + ConnectedPing::body(ping)),
    );
}

/// A message that arrives leaves the session sound.
proof fn lemma_packet_sound(c: ConnectionView, payload: Seq<u8>, now: u128)
    requires
        sound(c),
    ensures
        sound(c.handled_packet(payload, now)),
{
    if payload.len() > 0 {
        if payload[0] == 0x09 {
            if c.role is Server {
                match ConnectionRequest::parse(payload.skip(1)) {
                    Ok(p) => {
                        let reply = ConnectionRequestAccepted {
                            client_address: c.address,
                            system_index: 0,
                            request_timestamp: p.time,
                            accepted_timestamp: clock(now),
                        };
                        lemma_own_packets_are_short(
                            reply,
                            arbitrary(),
                            arbitrary(),
                            arbitrary(),
                            arbitrary(),
                        );
                        lemma_sent_ordered_sound(
                            c,
                            seq![0x10u8] + ConnectionRequestAccepted::body(reply),
                        );
                    },
                    Err(_) => {},
                }
            }
        } else if payload[0] == 0x10 {
            if c.role is Client {
                match ConnectionRequestAccepted::parse(payload.skip(1)) {
                    Ok(p) => {
                        let reply = NewIncomingConnection {
                            server_address: c.address,
                            request_timestamp: p.request_timestamp,
                            accepted_timestamp: p.accepted_timestamp,
                        };
                        lemma_own_packets_are_short(
                            arbitrary(),
                            reply,
                            arbitrary(),
                            arbitrary(),
                            arbitrary(),
                        );
                        let data = seq![0x13u8] + NewIncomingConnection::body(reply);
                        lemma_sent_ordered_sound(c, data);
                        lemma_pinged_sound(c.sent_ordered(data).established());
                    },
                    Err(_) => {},
                }
            }
        } else if payload[0] == 0x00 {
            match ConnectedPing::parse(payload.skip(1)) {
                Ok(p) => {
                    let reply = ConnectedPong {
                        client_timestamp: p.client_timestamp,
                        server_timestamp: clock(now),
                    };
                    lemma_own_packets_are_short(
                        arbitrary(),
                        arbitrary(),
                        reply,
                        arbitrary(),
                        arbitrary(),
                    );
                    lemma_sent_ordered_sound(c, seq![0x03u8] + ConnectedPong::body(reply));
                },
                Err(_) => {},
            }
        } else if payload[0] == 0x15 {
            lemma_sent_ordered_sound(c, seq![0x15u8]);
        }
    }
}

/// Messages that arrive leave the session sound.
proof fn lemma_packets_sound(c: ConnectionView, payloads: Seq<Seq<u8>>, now: u128)
    requires
        sound(c),
    ensures
        sound(c.handled_packets(payloads, now)),
    decreases payloads.len(),
{
    reveal(ConnectionView::handled_packets);
    if payloads.len() > 0 {
        lemma_packets_sound(c, payloads.drop_last(), now);
        lemma_packet_sound(c.handled_packets(payloads.drop_last(), now), payloads.last(), now);
    }
}

/// Frames that arrive leave the session sound.
proof fn lemma_frames_sound(c: ConnectionView, frames: Seq<FrameView>, now: u128)
    requires
        sound(c),
    ensures
        sound(c.received_frames(frames, now)),
    decreases frames.len(),
{
    reveal(ConnectionView::received_frames);
    if frames.len() > 0 {
        lemma_frames_sound(c, frames.drop_last(), now);
        let before = c.received_frames(frames.drop_last(), now);
        let frame = frames.last();
        if frame.reliability.spec_sequenced_or_ordered() {
            let waiting = before.receiving.after(frame);
            lemma_packets_sound(
                ConnectionView { receiving: waiting.drained(), ..before },
                payloads_of(ready(waiting.held, waiting.cursor)),
                now,
            );
        } else if frame.split {
            let pool = pool_after(before.splits, frame);
            lemma_packets_sound(
                ConnectionView { splits: open_of(pool), ..before },
                messages_of(full_of(pool)),
                now,
            );
        } else {
            lemma_packet_sound(before, frame.data, now);
        }
    }
}

/// Acknowledgements leave the sending side sound.
proof fn lemma_acknowledged_all_sound(sending: PacketQueueView, sequences: Seq<u32>)
    requires
        sending.sound(),
    ensures
        acknowledged_all(sending, sequences).sound(),
    decreases sequences.len(),
{
    if sequences.len() > 0 {
        lemma_acknowledged_all_sound(sending, sequences.drop_last());
        crate::packetqueue::lemma_acknowledged_sound(
            acknowledged_all(sending, sequences.drop_last()),
            sequences.last(),
        );
    }
}

/// Records of either kind leave the sending side sound.
proof fn lemma_ranges_sound(sending: PacketQueueView, records: Seq<(u32, u32)>)
    requires
        sending.sound(),
    ensures
        acknowledged_ranges(sending, records).sound(),
        renumbered_ranges(sending, records).sound(),
    decreases records.len(),
{
    if records.len() > 0 {
        lemma_ranges_sound(sending, records.drop_last());
        let acked = acknowledged_ranges(sending, records.drop_last());
        lemma_acknowledged_all_sound(
            acked,
            between(acked.sets, records.last().0, records.last().1),
        );
        let again = renumbered_ranges(sending, records.drop_last());
        crate::packetqueue::lemma_renumbered_all_sound(
            again,
            between(again.sets, records.last().0, records.last().1),
        );
    }
}

/// Whatever datagram arrives, the session stays sound.
pub proof fn lemma_handled_sound(c: ConnectionView, buff: Seq<u8>, now: u128)
    requires
        sound(c),
    ensures
        sound(c.handled(buff, now)),
{
    if buff.len() > 0 {
        let seen = ConnectionView { last_receive: now, ..c };
        match ranges_parse(buff.skip(1)) {
            Ok(records) => {
                lemma_ranges_sound(seen.sending, records);
            },
            Err(_) => {},
        }
        match FrameSetView::parse(buff) {
            Ok(set) => {
                lemma_frames_sound(
                    ConnectionView {
                        ranges: ranges_after(seen.ranges, set.sequence_number),
                        missing: missing_after(seen.highest, seen.missing, set.sequence_number),
                        highest: highest_after(seen.highest, set.sequence_number),
                        ..seen
                    },
                    set.datas,
                    now,
                );
            },
            Err(_) => {},
        }
    }
}

/// At whatever time the clock ticks, the session stays sound.
pub proof fn lemma_updated_sound(c: ConnectionView, now: u128)
    requires
        sound(c),
    ensures
        sound(c.updated(now)),
{
    crate::packetqueue::lemma_sent_sound(c.sending, now);
    let sent = ConnectionView {
        sending: c.sending.sent(now),
        ranges: Seq::<(u32, u32)>::empty(),
        ..c
    };
    lemma_sent_ordered_sound(sent, seq![0x15u8]);
    let expired = sent.expired(now);
    lemma_pinged_sound(ConnectionView { last_ping: now, ..expired });
}

/// Pieces that go out leave the session sound.
proof fn lemma_fragments_sound(c: ConnectionView, buff: Seq<u8>, n: nat)
    requires
        sound(c),
        n <= pieces(buff.len(), fragment_size(c.mtu)),
    ensures
        sound(c.with_fragments(buff, n)),
        c.with_fragments(buff, n).order_index == c.order_index,
    decreases n,
{
    if n > 0 {
        let m = (n - 1) as nat;
        let size = fragment_size(c.mtu);
        lemma_fragments_sound(c, buff, m);
        lemma_fragments_keep(c, buff, m);
        lemma_pieces(buff.len(), size, m);
        let before = c.with_fragments(buff, m);
        assert(fragment(buff, size, m).len() <= size);
        crate::packetqueue::lemma_with_frame_sound(
            before.sending,
            FrameView {
                reliability: Reliability::ReliableOrdered,
                message_index: before.message_index,
                sequence_index: 0,
                order_index: c.order_index,
                split: true,
                split_count: pieces(buff.len(), size) as u32,
                split_index: m as u32,
                split_id: c.split_id,
                data: fragment(buff, size, m),
            },
        );
    }
}

/// Whatever message the application sends, and when the client asks for
/// the session, the session stays sound.
pub proof fn lemma_sent_message_sound(c: ConnectionView, buff: Seq<u8>, now: u128)
    requires
        sound(c),
    ensures
        sound(c.sent_message(buff)),
        sound(c.disconnect_started()),
        sound(c.requested(now)),
{
    let count = pieces(buff.len(), fragment_size(c.mtu));
    if c.fits_one_frame(buff.len()) {
        lemma_sent_ordered_sound(c, buff);
    } else if count <= u32::MAX {
        lemma_fragments_sound(c, buff, count);
    }
    lemma_sent_ordered_sound(c, seq![0x15u8]);
    let request = ConnectionRequest { guid: c.guid, time: clock(now), use_encryption: 0 };
    lemma_own_packets_are_short(arbitrary(), arbitrary(), arbitrary(), arbitrary(), request);
    crate::packetqueue::lemma_with_frame_sound(
        c.sending,
        plain_frame(Reliability::Reliable, seq![0x09u8] + ConnectionRequest::body(request)),
    );
}

impl Connection {
    /// Every frame that waits on the sending side of a session reads back as
    /// it is.
    pub proof fn lemma_wf_is_sound(&self)
        requires
            self.wf(),
        ensures
            sound(self@),
    {
    }
}

/// A session in which nothing has happened is sound.
pub proof fn lemma_fresh_sound(
    address: Address,
    guid: u64,
    opponent_guid: u64,
    mtu: u16,
    role: RaknetType,
    now: u128,
)
    ensures
        sound(ConnectionView::fresh(address, guid, opponent_guid, mtu, role, now)),
{
}

/// What a sound session hands out at a tick of the clock reads back as
/// what it is: each datagram of frames whose sequence number fits 24 bits
/// is written, and spells the datagram that the sending side keeps.
pub proof fn lemma_outgoing_reads_back(c: ConnectionView, now: u128, k: int)
    requires
        sound(c),
        0 <= k < crate::packetqueue::unsent(
            c.sending.prepared(now).sets,
            c.sending.prepared(now).send_min,
        ).len(),
        crate::packetqueue::unsent(
            c.sending.prepared(now).sets,
            c.sending.prepared(now).send_min,
        )[k].sequence_number < 0x100_0000,
    ensures
        ({
            let set = crate::packetqueue::unsent(
                c.sending.prepared(now).sets,
                c.sending.prepared(now).send_min,
            )[k];
            &&& set.encodable()
            &&& FrameSetView::parse(set.wire()) == Ok::<FrameSetView, CodecError>(set)
        }),
{
    let ready = c.sending.prepared(now);
    let set = crate::packetqueue::unsent(ready.sets, ready.send_min)[k];
    crate::packetqueue::lemma_sent_sound(c.sending, now);
    crate::packetqueue::lemma_unsent_member(ready.sets, ready.send_min, k);
    let i = choose|i: int|
        0 <= i < ready.sets.len() && (#[trigger] ready.sets[i]).set == set;
    assert(crate::packetqueue::frames_sound(ready.sets[i].set.datas));
    crate::packets::frame_set::lemma_frame_set_round_trip(set);
}

/// The pieces of `buff`, each under its place.
pub open spec fn fragments_of(buff: Seq<u8>, size: nat) -> Map<u32, Seq<u8>> {
    Map::new(
        |i: u32| i < pieces(buff.len(), size),
        |i: u32| fragment(buff, size, i as nat),
    )
}

/// The first `n` pieces of a message, one behind the other, are the
/// message up to the end of the last of them.
proof fn lemma_fragments_prefix(buff: Seq<u8>, size: nat, n: nat)
    requires
        size > 0,
        n <= pieces(buff.len(), size) <= u32::MAX,
    ensures
        assembled(fragments_of(buff, size), n) == buff.subrange(
            0,
            if n * size <= buff.len() {
                (n * size) as int
            } else {
                buff.len() as int
            },
        ),
    decreases n,
{
    let all = fragments_of(buff, size);
    if n == 0 {
        assert(0 * size == 0) by (nonlinear_arith);
        assert(assembled(all, n) =~= buff.subrange(0, 0));
    } else {
        let m = (n - 1) as nat;
        lemma_fragments_prefix(buff, size, m);
        lemma_pieces(buff.len(), size, m);
        assert(n * size == m * size + size) by (nonlinear_arith)
            requires
                n == m + 1,
        ;
        assert(all.dom().contains(m as u32));
        assert(all[m as u32] == fragment(buff, size, m));
        assert(assembled(all, n) =~= buff.subrange(
            0,
            if n * size <= buff.len() {
                (n * size) as int
            } else {
                buff.len() as int
            },
        ));
    }
}

/// A message cut into pieces is the pieces put together: whatever the
/// order in which the pieces arrive, once each stands under its place,
/// the message that is put together is the message that was cut.
pub proof fn lemma_fragments_assemble(buff: Seq<u8>, size: nat)
    requires
        size > 0,
        pieces(buff.len(), size) <= u32::MAX,
    ensures
        assembled(fragments_of(buff, size), pieces(buff.len(), size)) == buff,
{
    let count = pieces(buff.len(), size);
    lemma_fragments_prefix(buff, size, count);
    lemma_pieces(buff.len(), size, count);
    assert(buff.subrange(0, buff.len() as int) =~= buff);
}

/// The piece `i` begins inside the message exactly when there are more
/// than `i` pieces.
pub proof fn lemma_pieces(len: nat, size: nat, i: nat)
    requires
        size > 0,
    ensures
        i < pieces(len, size) <==> i * size < len,
{
    let q = len / size;
    let r = len % size;
    assert(len == q * size + r && 0 <= r < size) by (nonlinear_arith)
        requires
            size > 0,
            q == len / size,
            r == len % size,
    ;
    if i < pieces(len, size) {
        if i < q {
            assert(i * size + size <= q * size) by (nonlinear_arith)
                requires
                    i + 1 <= q,
                    size > 0,
            ;
        } else {
            assert(i == q && r > 0);
        }
    } else {
        assert(i * size >= pieces(len, size) * size) by (nonlinear_arith)
            requires
                i >= pieces(len, size),
                size > 0,
        ;
        if r > 0 {
            assert((q + 1) * size == q * size + size) by (nonlinear_arith);
        }
    }
}

} // verus!
