//! What a session tells the application.

use crate::address::Address;
use crate::packet::RaknetPacket;
use vstd::prelude::*;

verus! {

/// Why a session ended.
#[derive(Clone, Copy, Debug, PartialEq, Eq, Structural)]
pub enum DisconnectReason {
    /// Nothing arrived from the peer for too long.
    Timeout,
    /// One of the two sides closed the session.
    Disconnect,
}

/// What went wrong between this side and a peer.
#[derive(Debug)]
pub enum RaknetError {
    /// The two sides speak different versions: the server's, the client's.
    IncompatibleProtocolVersion(u8, u8),
    AlreadyConnected(Address),
    RemoteClosed(Address),
    Other(String),
}

/// An error with its text as characters.
pub ghost enum RaknetErrorView {
    IncompatibleProtocolVersion(u8, u8),
    AlreadyConnected(Address),
    RemoteClosed(Address),
    Other(Seq<char>),
}

impl View for RaknetError {
    type V = RaknetErrorView;

    open spec fn view(&self) -> RaknetErrorView {
        match self {
            RaknetError::IncompatibleProtocolVersion(server, client) =>
                RaknetErrorView::IncompatibleProtocolVersion(*server, *client),
            RaknetError::AlreadyConnected(a) => RaknetErrorView::AlreadyConnected(*a),
            RaknetError::RemoteClosed(a) => RaknetErrorView::RemoteClosed(*a),
            RaknetError::Other(s) => RaknetErrorView::Other(s@),
        }
    }
}

impl Clone for RaknetError {
    fn clone(&self) -> (r: Self)
        ensures
            r@ == self@,
    {
        match self {
            RaknetError::IncompatibleProtocolVersion(server, client) =>
                RaknetError::IncompatibleProtocolVersion(*server, *client),
            RaknetError::AlreadyConnected(a) => RaknetError::AlreadyConnected(*a),
            RaknetError::RemoteClosed(a) => RaknetError::RemoteClosed(*a),
            RaknetError::Other(s) => RaknetError::Other(s.clone()),
        }
    }
}

/// What happened in a session.
#[derive(Debug)]
pub enum RaknetEvent {
    /// A message of the application arrived.
    Packet(RaknetPacket),
    /// The handshake with the peer at this address, of this identifier, is
    /// done.
    Connected(Address, u64),
    /// The session with the peer ended.
    Disconnected(Address, u64, DisconnectReason),
    Error(Address, RaknetError),
}

/// An event with its bytes and text as sequences.
pub ghost enum EventView {
    Packet { address: Address, guid: u64, data: Seq<u8> },
    Connected(Address, u64),
    Disconnected(Address, u64, DisconnectReason),
    Error(Address, RaknetErrorView),
}

impl View for RaknetEvent {
    type V = EventView;

    open spec fn view(&self) -> EventView {
        match self {
            RaknetEvent::Packet(p) => EventView::Packet {
                address: p.address,
                guid: p.guid,
                data: p.data@,
            },
            RaknetEvent::Connected(a, g) => EventView::Connected(*a, *g),
            RaknetEvent::Disconnected(a, g, r) => EventView::Disconnected(*a, *g, *r),
            RaknetEvent::Error(a, e) => EventView::Error(*a, e@),
        }
    }
}

impl Clone for RaknetEvent {
    fn clone(&self) -> (r: Self)
        ensures
            r@ == self@,
    {
        match self {
            RaknetEvent::Packet(p) => RaknetEvent::Packet(p.clone()),
            RaknetEvent::Connected(a, g) => RaknetEvent::Connected(*a, *g),
            RaknetEvent::Disconnected(a, g, r) => RaknetEvent::Disconnected(*a, *g, *r),
            RaknetEvent::Error(a, e) => RaknetEvent::Error(*a, e.clone()),
        }
    }
}

/// The views of events.
pub open spec fn event_views(events: Seq<RaknetEvent>) -> Seq<EventView> {
    events.map_values(|e: RaknetEvent| e@)
}

} // verus!
