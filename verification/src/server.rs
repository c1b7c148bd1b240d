//! The sessions of a server: which peers it knows, what it answers a peer
//! it does not know, and how a peer becomes known. The server owns no
//! socket: the caller hands it each datagram with the address it came
//! from, and sends what it hands back.

use crate::address::Address;
use crate::connection::{datagram_views, Connection, ConnectionView, Phase, RaknetType};
use crate::packets::already_connected::AlreadyConnected;
use crate::packets::incompatible_protocol_version::IncompatibleProtocolVersion;
use crate::packets::open_connection_reply1::OpenConnectionReply1;
use crate::packets::open_connection_reply2::OpenConnectionReply2;
use crate::packets::open_connection_request1::OpenConnectionRequest1;
use crate::packets::open_connection_request2::OpenConnectionRequest2;
use crate::packets::unconnected_ping::UnconnectedPing;
use crate::packets::unconnected_pong::{UnconnectedPong, UnconnectedPongView};
use crate::packets::{decode, encode, Packet};
use crate::rak::{event_views, EventView, RaknetError, RaknetErrorView, RaknetEvent};
use vstd::prelude::*;

verus! {

/// The version of the protocol that this library speaks.
pub const RAKNET_PROTOCOL_VERSION: u8 = 0xA;

/// The views of sessions.
pub open spec fn connection_views(connections: Seq<Connection>) -> Seq<ConnectionView> {
    connections.map_values(|c: Connection| c@)
}

/// Some session is with the peer at `address`.
pub open spec fn knows(connections: Seq<ConnectionView>, address: Address) -> bool {
    exists|i: int| 0 <= i < connections.len() && (#[trigger] connections[i]).address == address
}

/// Where the session with the peer at `address` stands.
pub open spec fn session_of(connections: Seq<ConnectionView>, address: Address) -> int {
    choose|i: int| 0 <= i < connections.len() && (#[trigger] connections[i]).address == address
}

/// Some session is with a peer of the identifier `guid`.
pub open spec fn has_guid(connections: Seq<ConnectionView>, guid: u64) -> bool {
    exists|i: int| 0 <= i < connections.len() && (#[trigger] connections[i]).opponent_guid == guid
}

/// The two sessions are with different addresses and with peers of
/// different identifiers.
pub open spec fn apart(a: ConnectionView, b: ConnectionView) -> bool {
    a.address != b.address && a.opponent_guid != b.opponent_guid
}

/// The two states are of a session with one peer.
pub open spec fn same_peer(a: ConnectionView, b: ConnectionView) -> bool {
    a.address == b.address && a.opponent_guid == b.opponent_guid
}

/// No two sessions are with one address, and no two with peers of one
/// identifier.
pub open spec fn one_per_peer(connections: Seq<ConnectionView>) -> bool {
    forall|i: int, j: int|
        0 <= i < j < connections.len() ==> apart(
            #[trigger] connections[i],
            #[trigger] connections[j],
        )
}

/// The datagrams `datagrams`, each for the peer at `address`.
pub open spec fn addressed(address: Address, datagrams: Seq<Seq<u8>>) -> Seq<(Address, Seq<u8>)> {
    datagrams.map_values(|d: Seq<u8>| (address, d))
}

/// What the sessions send at a tick of the clock at `now`, session by
/// session, each datagram with the address it goes to.
pub open spec fn outgoing_all(connections: Seq<ConnectionView>, now: u128) -> Seq<
    (Address, Seq<u8>),
>
    decreases connections.len(),
{
    if connections.len() == 0 {
        Seq::<(Address, Seq<u8>)>::empty()
    } else {
        outgoing_all(connections.drop_last(), now) + addressed(
            connections.last().address,
            connections.last().outgoing(now),
        )
    }
}

/// The sessions after a tick of the clock at `now`.
pub open spec fn updated_all(connections: Seq<ConnectionView>, now: u128) -> Seq<ConnectionView> {
    connections.map_values(|c: ConnectionView| c.updated(now))
}

/// The events that wait in the sessions, session by session.
pub open spec fn events_all(connections: Seq<ConnectionView>) -> Seq<EventView>
    decreases connections.len(),
{
    if connections.len() == 0 {
        Seq::<EventView>::empty()
    } else {
        events_all(connections.drop_last()) + connections.last().events
    }
}

/// The sessions that are not over, each with no event waiting.
pub open spec fn remaining(connections: Seq<ConnectionView>) -> Seq<ConnectionView>
    decreases connections.len(),
{
    if connections.len() == 0 {
        Seq::<ConnectionView>::empty()
    } else if connections.last().phase is Closed {
        remaining(connections.drop_last())
    } else {
        remaining(connections.drop_last()).push(
            ConnectionView { events: Seq::<EventView>::empty(), ..connections.last() },
        )
    }
}

/// The views of datagrams with their addresses.
pub open spec fn addressed_views(datagrams: Seq<(Address, Vec<u8>)>) -> Seq<(Address, Seq<u8>)> {
    datagrams.map_values(|d: (Address, Vec<u8>)| (d.0, d.1@))
}

/// A server with its sessions as views.
pub ghost struct ServerView {
    pub connections: Seq<ConnectionView>,
    /// The line that describes the server to those who probe it.
    pub motd: Seq<char>,
    pub local_addr: Address,
    pub id: u64,
}

impl ServerView {
    /// The answer to a probe, where the probe can be read and the line
    /// about the server is short enough to send.
    pub open spec fn pong(self, buff: Seq<u8>) -> Option<Seq<u8>> {
        match UnconnectedPing::parse(buff.skip(1)) {
            Err(_) => None,
            Ok(p) => {
                let pong = UnconnectedPongView { time: p.time, guid: self.id, motd: self.motd };
                if UnconnectedPong::writable(pong) {
                    Some(seq![0x1cu8] + UnconnectedPong::body(pong))
                } else {
                    None
                }
            },
        }
    }

    /// The answer to the first request of the handshake: the datagram size
    /// asked for is agreed to where the peer speaks this version of the
    /// protocol; a peer that speaks another is told this one.
    pub open spec fn first_reply(self, buff: Seq<u8>) -> Option<Seq<u8>> {
        match OpenConnectionRequest1::parse(buff.skip(1)) {
            Err(_) => None,
            Ok(p) => if p.protocol_version == RAKNET_PROTOCOL_VERSION {
                Some(
                    seq![0x06u8] + OpenConnectionReply1::body(
                        OpenConnectionReply1 {
                            guid: self.id,
                            use_encryption: 0,
                            mtu_size: p.mtu_size,
                        },
                    ),
                )
            } else {
                Some(
                    seq![0x19u8] + IncompatibleProtocolVersion::body(
                        IncompatibleProtocolVersion {
                            server_protocol: RAKNET_PROTOCOL_VERSION,
                            server_guid: self.id,
                        },
                    ),
                )
            },
        }
    }

    /// The peer's second request opens a session: it can be read and no
    /// session is with a peer of its identifier.
    pub open spec fn admits(self, buff: Seq<u8>) -> bool {
        &&& buff.len() > 0
        &&& buff[0] == 0x07
        &&& OpenConnectionRequest2::parse(buff.skip(1)) matches Ok(p)
        &&& !has_guid(self.connections, p.guid)
    }

    /// The answer to the second request of the handshake: the session is
    /// agreed to, or the peer is told that its identifier is connected.
    pub open spec fn second_reply(self, source: Address, buff: Seq<u8>) -> Option<Seq<u8>> {
        match OpenConnectionRequest2::parse(buff.skip(1)) {
            Err(_) => None,
            Ok(p) => if has_guid(self.connections, p.guid) {
                Some(seq![0x12u8] + AlreadyConnected::body(AlreadyConnected { guid: self.id }))
            } else {
                Some(
                    seq![0x08u8] + OpenConnectionReply2::body(
                        OpenConnectionReply2 {
                            guid: self.id,
                            address: source,
                            mtu: p.mtu,
                            encryption_enabled: 0,
                        },
                    ),
                )
            },
        }
    }

    /// What the server answers a peer it has no session with.
    pub open spec fn offline_reply(self, source: Address, buff: Seq<u8>) -> Option<Seq<u8>> {
        if buff.len() == 0 {
            None
        } else if buff[0] == 0x01 {
            self.pong(buff)
        } else if buff[0] == 0x05 {
            self.first_reply(buff)
        } else if buff[0] == 0x07 {
            self.second_reply(source, buff)
        } else {
            None
        }
    }

    /// The server after the datagram `buff` arrived from `source` at `now`.
    /// The session with `source` takes the datagram where there is one; a
    /// second request that is admitted opens one, behind the others.
    pub open spec fn handled(self, source: Address, buff: Seq<u8>, now: u128) -> ServerView {
        if knows(self.connections, source) {
            let at = session_of(self.connections, source);
            ServerView {
                connections: self.connections.update(
                    at,
                    self.connections[at].handled(buff, now),
                ),
                ..self
            }
        } else if self.admits(buff) {
            let p = OpenConnectionRequest2::parse(buff.skip(1)).unwrap();
            ServerView {
                connections: self.connections.push(
                    ConnectionView::fresh(source, self.id, p.guid, p.mtu, RaknetType::Server, now),
                ),
                ..self
            }
        } else {
            self
        }
    }

    /// What the server sends to `source` at once when the datagram `buff`
    /// arrives from there.
    pub open spec fn replies(self, source: Address, buff: Seq<u8>) -> Seq<Seq<u8>> {
        if knows(self.connections, source) {
            self.connections[session_of(self.connections, source)].replies(buff)
        } else {
            match self.offline_reply(source, buff) {
                Some(reply) => seq![reply],
                None => Seq::<Seq<u8>>::empty(),
            }
        }
    }

    /// The server after the application's message `buff` was handed to it
    /// for the peer at `addr`.
    pub open spec fn sent_to(self, addr: Address, buff: Seq<u8>) -> ServerView {
        if knows(self.connections, addr) {
            let at = session_of(self.connections, addr);
            ServerView {
                connections: self.connections.update(at, self.connections[at].sent_message(buff)),
                ..self
            }
        } else {
            self
        }
    }

    /// The server after it said goodbye to the peer at `addr`.
    pub open spec fn disconnected(self, addr: Address) -> ServerView {
        if knows(self.connections, addr) {
            let at = session_of(self.connections, addr);
            ServerView {
                connections: self.connections.update(
                    at,
                    self.connections[at].disconnect_started(),
                ),
                ..self
            }
        } else {
            self
        }
    }
}

/// The sessions of a server.
pub struct Server {
    connection: Vec<Connection>,
    title: String,
    pub local_addr: Address,
    pub id: u64,
}

impl View for Server {
    type V = ServerView;

    closed spec fn view(&self) -> ServerView {
        ServerView {
            connections: connection_views(self.connection@),
            motd: self.title@,
            local_addr: self.local_addr,
            id: self.id,
        }
    }
}

impl Server {
    /// Every session is well formed, no two are with one address, and no
    /// two with peers of one identifier.
    pub closed spec fn wf(&self) -> bool {
        &&& forall|i: int| 0 <= i < self.connection@.len() ==> (#[trigger] self.connection@[i]).wf()
        &&& one_per_peer(self@.connections)
    }

    /// A server at `address` that knows no peer. `id` is the identifier
    /// that it gives itself.
    pub fn new(address: Address, title: String, id: u64) -> (r: Self)
        ensures
            r.wf(),
            r@ == (ServerView {
                connections: Seq::<ConnectionView>::empty(),
                motd: title@,
                local_addr: address,
                id,
            }),
    {
        let r = Self { connection: Vec::new(), title, local_addr: address, id };
        assert(r@.connections =~= Seq::<ConnectionView>::empty());
        r
    }

    /// How many sessions the server has.
    pub fn len(&self) -> (r: usize)
        ensures
            r == self@.connections.len(),
    {
        self.connection.len()
    }

    /// Where the session with `address` stands, or the number of sessions
    /// where there is none.
    fn find(&self, address: Address) -> (r: usize)
        requires
            self.wf(),
        ensures
            r <= self@.connections.len(),
            r < self@.connections.len() <==> knows(self@.connections, address),
            r < self@.connections.len() ==> r == session_of(self@.connections, address)
                && self@.connections[r as int].address == address,
    {
        let ghost views = self@.connections;
        let mut i: usize = 0;
        while i < self.connection.len() && self.connection[i].peer().0 != address
            invariant
                i <= self.connection@.len(),
                views == self@.connections,
                views.len() == self.connection@.len(),
                forall|j: int| 0 <= j < self.connection@.len() ==> views[j]
                    == (#[trigger] self.connection@[j])@,
                forall|j: int| 0 <= j < i ==> (#[trigger] views[j]).address != address,
            decreases self.connection@.len() - i,
        {
            i += 1;
        }
        proof {
            if i < self.connection.len() {
                let at = session_of(views, address);
                assert(views[i as int].address == address);
                if at < i {
                    assert(views[at].address != address);
                } else if at > i {
                    assert(apart(views[i as int], views[at]));
                }
            }
        }
        i
    }

    /// Where one session of a well-formed table has changed and has stayed
    /// with its peer, the table is well formed.
    proof fn lemma_changed(&self, before: &Self, at: int)
        requires
            before.wf(),
            0 <= at < before.connection@.len(),
            self.connection@.len() == before.connection@.len(),
            forall|j: int|
                0 <= j < before.connection@.len() && j != at ==> self.connection@[j]
                    == before.connection@[j],
            self.connection@[at].wf(),
            same_peer(self.connection@[at]@, before.connection@[at]@),
            self.title == before.title,
            self.local_addr == before.local_addr,
            self.id == before.id,
        ensures
            self.wf(),
            self@ == (ServerView {
                connections: before@.connections.update(at, self.connection@[at]@),
                ..before@
            }),
    {
        let after = connection_views(self.connection@);
        let views = before@.connections;
        assert(after =~= views.update(at, self.connection@[at]@));
        assert forall|i: int, j: int| 0 <= i < j < after.len() implies apart(
            #[trigger] after[i],
            #[trigger] after[j],
        ) by {
            assert(apart(views[i], views[j]));
            assert(same_peer(after[i], views[i]));
            assert(same_peer(after[j], views[j]));
        }
    }

    /// Whether a session is with a peer of the identifier `guid`.
    fn has_guid(&self, guid: u64) -> (r: bool)
        ensures
            r == has_guid(self@.connections, guid),
    {
        let ghost views = self@.connections;
        let mut i: usize = 0;
        while i < self.connection.len()
            invariant
                i <= self.connection@.len(),
                views == self@.connections,
                views.len() == self.connection@.len(),
                forall|j: int| 0 <= j < self.connection@.len() ==> views[j]
                    == (#[trigger] self.connection@[j])@,
                forall|j: int| 0 <= j < i ==> (#[trigger] views[j]).opponent_guid != guid,
            decreases self.connection@.len() - i,
        {
            if self.connection[i].peer().1 == guid {
                assert(views[i as int].opponent_guid == guid);
                return true;
            }
            i += 1;
        }
        false
    }

    /// What the server answers the peer at `source`, with which it has no
    /// session.
    fn offline(&self, source: Address, buff: &[u8]) -> (r: Option<Vec<u8>>)
        requires
            buff@.len() > 0,
        ensures
            match r {
                Some(reply) => self@.offline_reply(source, buff@) == Some(reply@),
                None => self@.offline_reply(source, buff@) is None,
            },
    {
        let id: u8 = buff[0];
        if id == UnconnectedPing::ID {
            let p: UnconnectedPing = match decode::<UnconnectedPing>(buff) {
                Ok(p) => p,
                Err(_) => {
                    return None;
                },
            };
            let pong = UnconnectedPong::new(p.time, self.id, self.title.clone());
            match encode(pong) {
                Ok(data) => Some(data),
                Err(_) => None,
            }
        } else if id == OpenConnectionRequest1::ID {
            let p: OpenConnectionRequest1 = match decode::<OpenConnectionRequest1>(buff) {
                Ok(p) => p,
                Err(_) => {
                    return None;
                },
            };
            if p.protocol_version == RAKNET_PROTOCOL_VERSION {
                let ocreply1 = OpenConnectionReply1::new(self.id, false, p.mtu_size);
                match encode(ocreply1) {
                    Ok(data) => Some(data),
                    Err(_) => None,
                }
            } else {
                let reply = IncompatibleProtocolVersion::new(RAKNET_PROTOCOL_VERSION, self.id);
                match encode(reply) {
                    Ok(data) => Some(data),
                    Err(_) => None,
                }
            }
        } else if id == OpenConnectionRequest2::ID {
            let p: OpenConnectionRequest2 = match decode::<OpenConnectionRequest2>(buff) {
                Ok(p) => p,
                Err(_) => {
                    return None;
                },
            };
            if self.has_guid(p.guid) {
                let already_connected = AlreadyConnected::new(self.id);
                match encode(already_connected) {
                    Ok(data) => Some(data),
                    Err(_) => None,
                }
            } else {
                let ocreply2 = OpenConnectionReply2::new(self.id, source, p.mtu, false);
                match encode(ocreply2) {
                    Ok(data) => Some(data),
                    Err(_) => None,
                }
            }
        } else {
            None
        }
    }

    /// Takes a datagram that arrived from `source` at `now`, and hands
    /// back the datagrams to send to `source` at once.
    pub fn handle(&mut self, source: Address, buff: &[u8], now: u128) -> (r: Vec<Vec<u8>>)
        requires
            old(self).wf(),
        ensures
            final(self).wf(),
            final(self)@ == old(self)@.handled(source, buff@, now),
            datagram_views(r@) == old(self)@.replies(source, buff@),
    {
        let at: usize = self.find(source);
        if at < self.connection.len() {
            let ghost whole = *self;
            assert(self.connection@[at as int]@ == whole@.connections[at as int]);
            let out: Vec<Vec<u8>> = self.connection[at].handle(buff, now);
            proof {
                lemma_handled_same_peer(whole@.connections[at as int], buff@, now);
                self.lemma_changed(&whole, at as int);
            }
            return out;
        }
        self.handle_offline(source, buff, now)
    }

    /// Takes a datagram from a peer with which the server has no session.
    fn handle_offline(&mut self, source: Address, buff: &[u8], now: u128) -> (r: Vec<Vec<u8>>)
        requires
            old(self).wf(),
            !knows(old(self)@.connections, source),
        ensures
            final(self).wf(),
            final(self)@ == old(self)@.handled(source, buff@, now),
            datagram_views(r@) == old(self)@.replies(source, buff@),
    {
        let mut out: Vec<Vec<u8>> = Vec::new();
        assert(datagram_views(out@) =~= Seq::<Seq<u8>>::empty());
        if buff.len() == 0 {
            return out;
        }
        match self.offline(source, buff) {
            Some(reply) => {
                let ghost view = reply@;
                out.push(reply);
                assert(datagram_views(out@) =~= seq![view]);
            },
            None => {},
        }
        if buff[0] == OpenConnectionRequest2::ID {
            match decode::<OpenConnectionRequest2>(buff) {
                Ok(p) => {
                    if !self.has_guid(p.guid) {
                        let ghost views = connection_views(self.connection@);
                        let session = Connection::new(
                            source,
                            self.id,
                            p.guid,
                            p.mtu,
                            RaknetType::Server,
                            now,
                        );
                        let ghost fresh = session@;
                        self.connection.push(session);
                        proof {
                            assert(connection_views(self.connection@) =~= views.push(fresh));
                            assert forall|i: int, j: int|
                                0 <= i < j < self@.connections.len() implies apart(
                                #[trigger] self@.connections[i],
                                #[trigger] self@.connections[j],
                            ) by {
                                assert(self@.connections[i] == views[i]);
                                if j < views.len() {
                                    assert(self@.connections[j] == views[j]);
                                    assert(apart(views[i], views[j]));
                                } else {
                                    assert(views[i].address != source);
                                    assert(views[i].opponent_guid != p.guid);
                                }
                            }
                        }
                    }
                },
                Err(_) => {},
            }
        }
        out
    }

    /// A tick of the clock at `now`: hands back the datagrams to send,
    /// each with the address it goes to.
    pub fn update(&mut self, now: u128) -> (r: Vec<(Address, Vec<u8>)>)
        requires
            old(self).wf(),
        ensures
            final(self).wf(),
            final(self)@ == (ServerView {
                connections: updated_all(old(self)@.connections, now),
                ..old(self)@
            }),
            addressed_views(r@) == outgoing_all(old(self)@.connections, now),
    {
        let ghost before = self@.connections;
        let mut out: Vec<(Address, Vec<u8>)> = Vec::new();
        let mut i: usize = 0;
        assert(before.take(0) =~= Seq::<ConnectionView>::empty());
        assert(addressed_views(out@) =~= outgoing_all(before.take(0), now));
        while i < self.connection.len()
            invariant
                i <= self.connection@.len(),
                self.connection@.len() == before.len(),
                self.title == old(self).title,
                self.local_addr == old(self).local_addr,
                self.id == old(self).id,
                forall|j: int|
                    0 <= j < self.connection@.len() ==> (#[trigger] self.connection@[j]).wf(),
                forall|j: int| 0 <= j < i ==> (#[trigger] self.connection@[j])@ == before[j].updated(
                    now,
                ),
                forall|j: int|
                    i <= j < before.len() ==> (#[trigger] self.connection@[j])@ == before[j],
                addressed_views(out@) == outgoing_all(before.take(i as int), now),
            decreases self.connection@.len() - i,
        {
            proof {
                assert(before.take(i as int + 1).drop_last() =~= before.take(i as int));
                assert(before.take(i as int + 1).last() == before[i as int]);
            }
            let ghost had = addressed_views(out@);
            let ghost table = self.connection@;
            assert(table[i as int]@ == before[i as int]);
            let address: Address = self.connection[i].peer().0;
            let datagrams: Vec<Vec<u8>> = self.connection[i].update(now);
            proof {
                assert(self.connection@.len() == table.len());
                assert forall|j: int| 0 <= j < table.len() && j != i implies self.connection@[j]
                    == table[j] by {}
            }
            let ghost views = datagram_views(datagrams@);
            assert(views.take(0) =~= Seq::<Seq<u8>>::empty());
            assert(addressed_views(out@) =~= had + addressed(address, views.take(0)));
            let mut datagrams = datagrams;
            while datagrams.len() > 0
                invariant
                    addressed_views(out@) == had + addressed(
                        address,
                        views.take(views.len() - datagrams@.len()),
                    ),
                    datagrams@.len() <= views.len(),
                    datagram_views(datagrams@) == views.skip(views.len() - datagrams@.len()),
                decreases datagrams@.len(),
            {
                let ghost n = views.len() - datagrams@.len();
                let ghost sofar = addressed_views(out@);
                let ghost left = datagram_views(datagrams@);
                let d: Vec<u8> = datagrams.remove(0);
                assert(datagram_views(datagrams@) =~= left.skip(1));
                assert(left.skip(1) =~= views.skip(n + 1));
                assert(d@ == left[0]);
                assert(d@ == views[n]);
                out.push((address, d));
                proof {
                    assert(addressed_views(out@) =~= sofar.push((address, views[n])));
                    assert(sofar.push((address, views[n])) =~= had + addressed(
                        address,
                        views.take(n + 1),
                    ));
                    assert(datagram_views(datagrams@) =~= views.skip(n + 1));
                }
            }
            proof {
                assert(views.take(views.len() as int) =~= views);
            }
            i += 1;
        }
        proof {
            assert(before.take(i as int) =~= before);
            assert(self@.connections =~= updated_all(before, now));
            assert forall|a: int, b: int| 0 <= a < b < self@.connections.len() implies apart(
                #[trigger] self@.connections[a],
                #[trigger] self@.connections[b],
            ) by {
                assert(apart(before[a], before[b]));
                lemma_updated_same_peer(before[a], now);
                lemma_updated_same_peer(before[b], now);
            }
        }
        out
    }

    /// Hands the application the events that wait, session by session,
    /// and forgets the sessions that are over.
    pub fn recv(&mut self) -> (r: Vec<RaknetEvent>)
        requires
            old(self).wf(),
        ensures
            final(self).wf(),
            event_views(r@) == events_all(old(self)@.connections),
            final(self)@ == (ServerView {
                connections: remaining(old(self)@.connections),
                ..old(self)@
            }),
    {
        let ghost before = self@.connections;
        let mut out: Vec<RaknetEvent> = Vec::new();
        let mut i: usize = 0;
        let ghost mut k: int = 0;
        assert(before.take(0) =~= Seq::<ConnectionView>::empty());
        assert(event_views(out@) =~= events_all(before.take(0)));
        assert(connection_views(self.connection@).take(0) =~= remaining(before.take(0)));
        assert(connection_views(self.connection@).skip(0) =~= before.skip(0));
        while i < self.connection.len()
            invariant
                0 <= k <= before.len(),
                i <= self.connection@.len(),
                self.connection@.len() - i == before.len() - k,
                self.title == old(self).title,
                self.local_addr == old(self).local_addr,
                self.id == old(self).id,
                forall|j: int|
                    0 <= j < self.connection@.len() ==> (#[trigger] self.connection@[j]).wf(),
                connection_views(self.connection@).take(i as int) == remaining(before.take(k)),
                connection_views(self.connection@).skip(i as int) == before.skip(k),
                event_views(out@) == events_all(before.take(k)),
            decreases self.connection@.len() - i,
        {
            let ghost table = connection_views(self.connection@);
            let ghost had = event_views(out@);
            proof {
                assert(before.take(k + 1).drop_last() =~= before.take(k));
                assert(before.take(k + 1).last() == before[k]);
                assert(table[i as int] == table.skip(i as int)[0]);
                assert(table[i as int] == before[k]);
            }
            let ghost sessions = self.connection@;
            let waiting: usize = self.connection[i].pending();
            let mut events: Vec<RaknetEvent> = self.connection[i].recovery(waiting);
            let ghost kept = self.connection@[i as int]@;
            proof {
                assert(before[k].taken(waiting) == before[k].events.len());
                assert(event_views(events@) =~= before[k].events);
                assert(kept.events =~= Seq::<EventView>::empty());
                assert forall|j: int| 0 <= j < sessions.len() && j != i implies self.connection@[j]
                    == sessions[j] by {}
            }
            let ghost views = event_views(events@);
            out.append(&mut events);
            assert(event_views(out@) =~= had + views);
            let ghost emptied = connection_views(self.connection@);
            assert(emptied =~= table.update(i as int, kept));
            match self.connection[i].phase() {
                Phase::Closed => {
                    self.connection.remove(i);
                    proof {
                        let shorter = connection_views(self.connection@);
                        assert(shorter =~= emptied.remove(i as int));
                        assert(shorter.take(i as int) =~= table.take(i as int));
                        assert(shorter.skip(i as int) =~= table.skip(i as int).skip(1));
                        assert(before.skip(k).skip(1) =~= before.skip(k + 1));
                        assert forall|j: int| 0 <= j < self.connection@.len() implies (
                        #[trigger] self.connection@[j]).wf() by {
                            if j < i {
                                assert(self.connection@[j] == sessions[j]);
                            } else {
                                assert(self.connection@[j] == sessions[j + 1]);
                            }
                        }
                    }
                },
                _ => {
                    proof {
                        assert(emptied.take(i as int + 1) =~= table.take(i as int).push(kept));
                        assert(emptied.skip(i as int + 1) =~= table.skip(i as int).skip(1));
                        assert(before.skip(k).skip(1) =~= before.skip(k + 1));
                    }
                    i += 1;
                },
            }
            proof {
                k = k + 1;
            }
        }
        proof {
            assert(before.take(k) =~= before);
            assert(connection_views(self.connection@).take(i as int) =~= connection_views(
                self.connection@,
            ));
            lemma_remaining_one_per_peer(before);
        }
        out
    }

    /// Sends a message of the application to the peer at `addr`, where
    /// the server has a session with it.
    pub fn send_to(&mut self, addr: &Address, buff: &[u8]) -> (r: Result<(), RaknetError>)
        requires
            old(self).wf(),
        ensures
            final(self).wf(),
            final(self)@ == old(self)@.sent_to(*addr, buff@),
            match r {
                Ok(_) => knows(old(self)@.connections, *addr),
                Err(e) => !knows(old(self)@.connections, *addr) && e@ == RaknetErrorView::Other(
                    "Not connected"@,
                ),
            },
    {
        let at: usize = self.find(*addr);
        if at >= self.connection.len() {
            return Err(RaknetError::Other("Not connected".to_owned()));
        }
        let ghost whole = *self;
        assert(self.connection@[at as int]@ == whole@.connections[at as int]);
        self.connection[at].send_to(buff);
        proof {
            lemma_sent_same_peer(whole@.connections[at as int], buff@);
            self.lemma_changed(&whole, at as int);
        }
        Ok(())
    }

    /// Takes a new line to describe the server by.
    pub fn set_motd(&mut self, motd: String) -> (r: Result<(), RaknetError>)
        requires
            old(self).wf(),
        ensures
            final(self).wf(),
            r is Ok,
            final(self)@ == (ServerView { motd: motd@, ..old(self)@ }),
    {
        self.title = motd;
        Ok(())
    }

    /// Says goodbye to the peer at `addr`, where the server has a session
    /// with it.
    pub fn disconnect(&mut self, addr: Address)
        requires
            old(self).wf(),
        ensures
            final(self).wf(),
            final(self)@ == old(self)@.disconnected(addr),
    {
        let at: usize = self.find(addr);
        if at >= self.connection.len() {
            return ;
        }
        let ghost whole = *self;
        assert(self.connection@[at as int]@ == whole@.connections[at as int]);
        self.connection[at].disconnect();
        proof {
            self.lemma_changed(&whole, at as int);
        }
    }
}

/// A datagram leaves a session with its peer.
pub proof fn lemma_handled_same_peer(c: ConnectionView, buff: Seq<u8>, now: u128)
    ensures
        same_peer(c.handled(buff, now), c),
{
    crate::connection::lemma_handled_tells_once(c, buff, now);
}

/// A tick of the clock leaves a session with its peer.
pub proof fn lemma_updated_same_peer(c: ConnectionView, now: u128)
    ensures
        same_peer(c.updated(now), c),
{
}

/// A message of the application leaves a session with its peer.
pub proof fn lemma_sent_same_peer(c: ConnectionView, buff: Seq<u8>)
    ensures
        same_peer(c.sent_message(buff), c),
{
    crate::connection::lemma_fragments_keep(
        c,
        buff,
        crate::connection::pieces(buff.len(), crate::connection::fragment_size(c.mtu)),
    );
}

/// Each session that remains was there before, with its peer.
pub proof fn lemma_remaining_member(connections: Seq<ConnectionView>, i: int)
    requires
        0 <= i < remaining(connections).len(),
    ensures
        exists|k: int|
            0 <= k < connections.len() && same_peer(
                #[trigger] connections[k],
                remaining(connections)[i],
            ),
    decreases connections.len(),
{
    if connections.len() > 0 {
        let front = connections.drop_last();
        if i < remaining(front).len() {
            lemma_remaining_member(front, i);
            let k = choose|k: int|
                0 <= k < front.len() && same_peer(#[trigger] front[k], remaining(front)[i]);
            assert(same_peer(connections[k], remaining(connections)[i]));
        } else {
            assert(same_peer(connections[connections.len() - 1], remaining(connections)[i]));
        }
    }
}

/// Where no two sessions were with one peer, no two that remain are.
pub proof fn lemma_remaining_one_per_peer(connections: Seq<ConnectionView>)
    requires
        one_per_peer(connections),
    ensures
        one_per_peer(remaining(connections)),
    decreases connections.len(),
{
    let kept = remaining(connections);
    if connections.len() > 0 {
        let front = connections.drop_last();
        assert(one_per_peer(front)) by {
            assert forall|i: int, j: int| 0 <= i < j < front.len() implies apart(
                #[trigger] front[i],
                #[trigger] front[j],
            ) by {
                assert(front[i] == connections[i] && front[j] == connections[j]);
                assert(apart(connections[i], connections[j]));
            }
        }
        lemma_remaining_one_per_peer(front);
        let sub = remaining(front);
        if !(connections.last().phase is Closed) {
            assert forall|i: int, j: int| 0 <= i < j < kept.len() implies apart(
                #[trigger] kept[i],
                #[trigger] kept[j],
            ) by {
                if j == kept.len() - 1 {
                    lemma_remaining_member(front, i);
                    let k = choose|k: int|
                        0 <= k < front.len() && same_peer(#[trigger] front[k], sub[i]);
                    assert(same_peer(connections[k], kept[i]));
                    assert(same_peer(connections[connections.len() - 1], kept[j]));
                    assert(apart(connections[k], connections[connections.len() - 1]));
                } else {
                    assert(kept[i] == sub[i] && kept[j] == sub[j]);
                    assert(apart(sub[i], sub[j]));
                }
            }
        }
    }
}

} // verus!
