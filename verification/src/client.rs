//! The client's side: the handshake that opens a session with a server,
//! and the session. The client owns no socket: the caller hands it each
//! datagram with the address it came from, and sends what it hands back.

use crate::address::Address;
use crate::connection::{datagram_views, Connection, ConnectionView, RaknetType};
use crate::packets::already_connected::AlreadyConnected;
use crate::packets::incompatible_protocol_version::IncompatibleProtocolVersion;
use crate::packets::open_connection_reply1::OpenConnectionReply1;
use crate::packets::open_connection_reply2::OpenConnectionReply2;
use crate::packets::open_connection_request1::OpenConnectionRequest1;
use crate::packets::open_connection_request2::OpenConnectionRequest2;
use crate::packets::{decode, encode, Packet};
use crate::rak::{event_views, EventView, RaknetError, RaknetErrorView, RaknetEvent};
use crate::server::RAKNET_PROTOCOL_VERSION;
use vstd::prelude::*;

verus! {

/// The datagram size that a client asks for.
pub const CLIENT_MTU: u16 = 1492;

/// After so many milliseconds without an answer a client gives up the
/// handshake.
pub const CONNECT_TIMEOUT: u128 = 10000;

/// What the client does after a datagram of the handshake.
#[derive(Debug)]
pub enum ClientStep {
    /// The datagram is none of the handshake: the client waits on.
    Ignore,
    /// The client sends this datagram to the server and waits on.
    Send(Vec<u8>),
    /// The session is open.
    Connected,
    /// The server refuses.
    Failed(RaknetError),
}

/// A step with its bytes as a sequence.
pub ghost enum StepView {
    Ignore,
    Send(Seq<u8>),
    Connected,
    Failed(RaknetErrorView),
}

impl View for ClientStep {
    type V = StepView;

    open spec fn view(&self) -> StepView {
        match self {
            ClientStep::Ignore => StepView::Ignore,
            ClientStep::Send(d) => StepView::Send(d@),
            ClientStep::Connected => StepView::Connected,
            ClientStep::Failed(e) => StepView::Failed(e@),
        }
    }
}

/// A client with its session as a view.
pub ghost struct ClientView {
    pub connection: Option<ConnectionView>,
    pub guid: u64,
    pub mtu: u16,
    pub remote: Address,
    pub local: Address,
}

impl ClientView {
    /// The datagram comes from the server and holds something.
    pub open spec fn hears(self, source: Address, buff: Seq<u8>) -> bool {
        buff.len() > 0 && source == self.remote
    }

    /// What the client does after the datagram `buff` arrived from
    /// `source` during the handshake. The server's first answer is
    /// followed by the second request, with the datagram size that the
    /// server agreed to; its second answer opens the session; a refusal
    /// ends the handshake.
    pub open spec fn step(self, source: Address, buff: Seq<u8>) -> StepView {
        if !self.hears(source, buff) {
            StepView::Ignore
        } else if buff[0] == 0x06 {
            match OpenConnectionReply1::parse(buff.skip(1)) {
                Err(_) => StepView::Ignore,
                Ok(reply) => StepView::Send(
                    seq![0x07u8] + OpenConnectionRequest2::body(
                        OpenConnectionRequest2 {
                            address: source,
                            mtu: reply.mtu_size,
                            guid: self.guid,
                        },
                    ),
                ),
            }
        } else if buff[0] == 0x08 {
            match OpenConnectionReply2::parse(buff.skip(1)) {
                Err(_) => StepView::Ignore,
                Ok(_) => StepView::Connected,
            }
        } else if buff[0] == 0x19 {
            match IncompatibleProtocolVersion::parse(buff.skip(1)) {
                Err(_) => StepView::Ignore,
                Ok(version) => StepView::Failed(
                    RaknetErrorView::IncompatibleProtocolVersion(
                        version.server_protocol,
                        RAKNET_PROTOCOL_VERSION,
                    ),
                ),
            }
        } else if buff[0] == 0x12 {
            match AlreadyConnected::parse(buff.skip(1)) {
                Err(_) => StepView::Ignore,
                Ok(_) => StepView::Failed(RaknetErrorView::AlreadyConnected(self.remote)),
            }
        } else {
            StepView::Ignore
        }
    }

    /// The client after the datagram `buff` arrived from `source` at
    /// `now` during the handshake: the server's second answer opens a
    /// session that asks the server for itself at once.
    pub open spec fn stepped(self, source: Address, buff: Seq<u8>, now: u128) -> ClientView {
        if self.step(source, buff) is Connected {
            ClientView {
                connection: Some(
                    ConnectionView::fresh(
                        source,
                        self.guid,
                        OpenConnectionReply2::parse(buff.skip(1)).unwrap().guid,
                        self.mtu,
                        RaknetType::Client,
                        now,
                    ).requested(now),
                ),
                ..self
            }
        } else {
            self
        }
    }

    /// The client after the datagram `buff` arrived from `source` at
    /// `now` in the session.
    pub open spec fn handled(self, source: Address, buff: Seq<u8>, now: u128) -> ClientView {
        match self.connection {
            Some(c) => if self.hears(source, buff) {
                ClientView { connection: Some(c.handled(buff, now)), ..self }
            } else {
                self
            },
            None => self,
        }
    }

    /// What the client sends at once when the datagram `buff` arrives
    /// from `source` in the session.
    pub open spec fn replies(self, source: Address, buff: Seq<u8>) -> Seq<Seq<u8>> {
        match self.connection {
            Some(c) => if self.hears(source, buff) {
                c.replies(buff)
            } else {
                Seq::<Seq<u8>>::empty()
            },
            None => Seq::<Seq<u8>>::empty(),
        }
    }
}

/// The client's side of one session.
pub struct Client {
    connection: Option<Connection>,
    pub guid: u64,
    pub mtu: u16,
    pub remote: Address,
    pub local: Address,
}

impl View for Client {
    type V = ClientView;

    closed spec fn view(&self) -> ClientView {
        ClientView {
            connection: match self.connection {
                Some(c) => Some(c@),
                None => None,
            },
            guid: self.guid,
            mtu: self.mtu,
            remote: self.remote,
            local: self.local,
        }
    }
}

impl Client {
    /// The session, where there is one, is well formed.
    pub closed spec fn wf(&self) -> bool {
        match self.connection {
            Some(c) => c.wf(),
            None => true,
        }
    }

    /// A client for the server at `remote_address`. It binds to every
    /// address where `online`, to the loopback address where not. `guid`
    /// is the identifier that it gives itself.
    pub fn new(remote_address: Address, online: bool, guid: u64) -> (r: Self)
        ensures
            r.wf(),
            r@ == (ClientView {
                connection: None,
                guid,
                mtu: CLIENT_MTU,
                remote: remote_address,
                local: if online {
                    Address::V4 { ip: 0, port: 0 }
                } else {
                    Address::V4 { ip: 0x7f00_0001, port: 0 }
                },
            }),
    {
        let local: Address = if online {
            Address::V4 { ip: 0, port: 0 }
        } else {
            Address::V4 { ip: 0x7f00_0001, port: 0 }
        };
        Self { connection: None, guid, mtu: CLIENT_MTU, remote: remote_address, local }
    }

    /// Whether the session is open.
    pub fn is_connected(&self) -> (r: bool)
        ensures
            r == self@.connection is Some,
    {
        self.connection.is_some()
    }

    /// The datagram that opens the handshake: the first request, padded
    /// to tell the datagram size asked for.
    pub fn connect(&self) -> (r: Result<Vec<u8>, RaknetError>)
        ensures
            match r {
                Ok(d) => self@.mtu >= 46 && d@ == seq![0x05u8] + OpenConnectionRequest1::body(
                    OpenConnectionRequest1 {
                        protocol_version: RAKNET_PROTOCOL_VERSION,
                        mtu_size: self@.mtu,
                    },
                ),
                Err(e) => self@.mtu < 46 && e@ == RaknetErrorView::Other(
                    "Failed to encode OpenconnectionRequest1"@,
                ),
            },
    {
        let request1 = OpenConnectionRequest1::new(RAKNET_PROTOCOL_VERSION, self.mtu);
        match encode(request1) {
            Ok(p) => Ok(p),
            Err(_) => Err(
                RaknetError::Other("Failed to encode OpenconnectionRequest1".to_owned()),
            ),
        }
    }

    /// Whether the handshake that began at `started` has taken too long
    /// at `now`, and the error to end it with.
    pub fn connect_expired(&self, started: u128, now: u128) -> (r: Option<RaknetError>)
        ensures
            match r {
                Some(e) => now - started > CONNECT_TIMEOUT && e@ == RaknetErrorView::RemoteClosed(
                    self@.remote,
                ),
                None => now - started <= CONNECT_TIMEOUT,
            },
    {
        if now > started && now - started > CONNECT_TIMEOUT {
            Some(RaknetError::RemoteClosed(self.remote))
        } else {
            None
        }
    }

    /// Takes a datagram that arrived from `source` at `now` during the
    /// handshake, and says what to do next.
    pub fn connect_to_server(&mut self, source: Address, buff: &[u8], now: u128) -> (r: ClientStep)
        requires
            old(self).wf(),
        ensures
            final(self).wf(),
            r@ == old(self)@.step(source, buff@),
            final(self)@ == old(self)@.stepped(source, buff@, now),
    {
        if buff.len() == 0 || source != self.remote {
            return ClientStep::Ignore;
        }
        let id: u8 = buff[0];
        if id == OpenConnectionReply1::ID {
            let reply1: OpenConnectionReply1 = match decode::<OpenConnectionReply1>(buff) {
                Ok(p) => p,
                Err(_) => {
                    return ClientStep::Ignore;
                },
            };
            let request2 = OpenConnectionRequest2::new(source, reply1.mtu_size, self.guid);
            match encode(request2) {
                Ok(payload) => ClientStep::Send(payload),
                Err(_) => ClientStep::Ignore,
            }
        } else if id == OpenConnectionReply2::ID {
            let reply2: OpenConnectionReply2 = match decode::<OpenConnectionReply2>(buff) {
                Ok(p) => p,
                Err(_) => {
                    return ClientStep::Ignore;
                },
            };
            let mut connection = Connection::new(
                source,
                self.guid,
                reply2.guid,
                self.mtu,
                RaknetType::Client,
                now,
            );
            connection.connect(now);
            self.connection = Some(connection);
            ClientStep::Connected
        } else if id == IncompatibleProtocolVersion::ID {
            let version: IncompatibleProtocolVersion = match decode::<IncompatibleProtocolVersion>(
                buff,
            ) {
                Ok(p) => p,
                Err(_) => {
                    return ClientStep::Ignore;
                },
            };
            ClientStep::Failed(
                RaknetError::IncompatibleProtocolVersion(
                    version.server_protocol,
                    RAKNET_PROTOCOL_VERSION,
                ),
            )
        } else if id == AlreadyConnected::ID {
            match decode::<AlreadyConnected>(buff) {
                Ok(_) => ClientStep::Failed(RaknetError::AlreadyConnected(self.remote)),
                Err(_) => ClientStep::Ignore,
            }
        } else {
            ClientStep::Ignore
        }
    }

    /// Takes a datagram that arrived from `source` at `now` in the
    /// session, and hands back the datagrams to send to the server at
    /// once. A datagram from elsewhere is dropped.
    pub fn handle(&mut self, source: Address, buff: &[u8], now: u128) -> (r: Vec<Vec<u8>>)
        requires
            old(self).wf(),
        ensures
            final(self).wf(),
            final(self)@ == old(self)@.handled(source, buff@, now),
            datagram_views(r@) == old(self)@.replies(source, buff@),
    {
        let none: Vec<Vec<u8>> = Vec::new();
        assert(datagram_views(none@) =~= Seq::<Seq<u8>>::empty());
        if buff.len() == 0 || source != self.remote {
            return none;
        }
        match self.connection.take() {
            Some(mut conn) => {
                let out: Vec<Vec<u8>> = conn.handle(buff, now);
                self.connection = Some(conn);
                out
            },
            None => none,
        }
    }

    /// A tick of the clock at `now`: hands back the datagrams to send to
    /// the server.
    pub fn update(&mut self, now: u128) -> (r: Vec<Vec<u8>>)
        requires
            old(self).wf(),
        ensures
            final(self).wf(),
            match old(self)@.connection {
                Some(c) => final(self)@ == (ClientView {
                    connection: Some(c.updated(now)),
                    ..old(self)@
                }) && datagram_views(r@) == c.outgoing(now),
                None => final(self)@ == old(self)@ && datagram_views(r@) == Seq::<
                    Seq<u8>,
                >::empty(),
            },
    {
        match self.connection.take() {
            Some(mut conn) => {
                let out: Vec<Vec<u8>> = conn.update(now);
                self.connection = Some(conn);
                out
            },
            None => {
                let none: Vec<Vec<u8>> = Vec::new();
                assert(datagram_views(none@) =~= Seq::<Seq<u8>>::empty());
                none
            },
        }
    }

    /// Hands the application the events that wait.
    pub fn recv(&mut self) -> (r: Vec<RaknetEvent>)
        requires
            old(self).wf(),
        ensures
            final(self).wf(),
            match old(self)@.connection {
                Some(c) => final(self)@ == (ClientView {
                    connection: Some(ConnectionView { events: Seq::<EventView>::empty(), ..c }),
                    ..old(self)@
                }) && event_views(r@) == c.events,
                None => final(self)@ == old(self)@ && event_views(r@) == Seq::<
                    EventView,
                >::empty(),
            },
    {
        match self.connection.take() {
            Some(mut conn) => {
                let ghost before = conn@;
                let waiting: usize = conn.pending();
                let out: Vec<RaknetEvent> = conn.recovery(waiting);
                proof {
                    assert(before.events.take(waiting as int) =~= before.events);
                    assert(before.events.skip(waiting as int) =~= Seq::<EventView>::empty());
                }
                self.connection = Some(conn);
                out
            },
            None => {
                let none: Vec<RaknetEvent> = Vec::new();
                assert(event_views(none@) =~= Seq::<EventView>::empty());
                none
            },
        }
    }

    /// Says goodbye to the server, where the session is open.
    pub fn disconnect(&mut self)
        requires
            old(self).wf(),
        ensures
            final(self).wf(),
            final(self)@ == (ClientView {
                connection: match old(self)@.connection {
                    Some(c) => Some(c.disconnect_started()),
                    None => None,
                },
                ..old(self)@
            }),
    {
        match self.connection.take() {
            Some(mut conn) => {
                conn.disconnect();
                self.connection = Some(conn);
            },
            None => {},
        }
    }

    /// Sends a message of the application to the server, where the
    /// session is open.
    pub fn send(&mut self, buff: &[u8]) -> (r: Result<(), RaknetError>)
        requires
            old(self).wf(),
        ensures
            final(self).wf(),
            r is Ok,
            final(self)@ == (ClientView {
                connection: match old(self)@.connection {
                    Some(c) => Some(c.sent_message(buff@)),
                    None => None,
                },
                ..old(self)@
            }),
    {
        match self.connection.take() {
            Some(mut conn) => {
                conn.send_to(buff);
                self.connection = Some(conn);
            },
            None => {},
        }
        Ok(())
    }
}

} // verus!
