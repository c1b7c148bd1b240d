use raknet::address::Address;
use raknet::client::{Client, ClientStep};
use raknet::connection::{Connection, Phase, RaknetType};
use raknet::packets::ack::ACK;
use raknet::packets::already_connected::AlreadyConnected;
use raknet::packets::connected_ping::ConnectedPing;
use raknet::packets::connected_pong::ConnectedPong;
use raknet::packets::connection_request::ConnectionRequest;
use raknet::packets::frame::Frame;
use raknet::packets::frame_set::FrameSet;
use raknet::packets::incompatible_protocol_version::IncompatibleProtocolVersion;
use raknet::packets::nack::Nack;
use raknet::packets::open_connection_reply1::OpenConnectionReply1;
use raknet::packets::open_connection_reply2::OpenConnectionReply2;
use raknet::packets::open_connection_request1::OpenConnectionRequest1;
use raknet::packets::open_connection_request2::OpenConnectionRequest2;
use raknet::packets::unconnected_ping::UnconnectedPing;
use raknet::packets::unconnected_pong::UnconnectedPong;
use raknet::packets::{decode, encode, Reliability};
use raknet::rak::{DisconnectReason, RaknetError, RaknetEvent};
use raknet::server::Server;

const SERVER: Address = Address::V4 {
    ip: 0x7f000001,
    port: 19132,
};
const CLIENT: Address = Address::V4 {
    ip: 0x7f000001,
    port: 50000,
};
const MOTD: &str = "MCPE;raknet rs;390;1.17.42;0;10;13253860892328930865;Bedrock level;Survival;1;19132;19133;";

fn open_session(now: u128) -> (Client, Server) {
    let mut client = Client::new(SERVER, false, 111);
    let mut server = Server::new(SERVER, MOTD.to_string(), 222);
    let request1 = client.connect().unwrap();
    let replies = server.handle(CLIENT, &request1, now);
    assert_eq!(replies.len(), 1);
    let request2 = match client.connect_to_server(SERVER, &replies[0], now) {
        ClientStep::Send(d) => d,
        other => panic!("unexpected step {:?}", other),
    };
    assert!(!client.is_connected());
    assert_eq!(server.len(), 0);
    let replies = server.handle(CLIENT, &request2, now);
    assert_eq!(replies.len(), 1);
    assert_eq!(server.len(), 1);
    match client.connect_to_server(SERVER, &replies[0], now) {
        ClientStep::Connected => {}
        other => panic!("unexpected step {:?}", other),
    }
    assert!(client.is_connected());
    (client, server)
}

/// One tick of both sides: each sends what it has, the other takes it and
/// answers at once.
fn tick(client: &mut Client, server: &mut Server, now: u128) {
    for datagram in client.update(now) {
        for reply in server.handle(CLIENT, &datagram, now) {
            assert_eq!(client.handle(SERVER, &reply, now).len(), 0);
        }
    }
    for (address, datagram) in server.update(now) {
        assert_eq!(address, CLIENT);
        for reply in client.handle(SERVER, &datagram, now) {
            assert_eq!(server.handle(CLIENT, &reply, now).len(), 0);
        }
    }
}

fn packets(events: &[RaknetEvent]) -> Vec<Vec<u8>> {
    let mut out = Vec::new();
    for event in events {
        if let RaknetEvent::Packet(p) = event {
            out.push(p.data.clone());
        }
    }
    out
}

#[test]
fn handshake_end_to_end() {
    let (mut client, mut server) = open_session(1000);
    let mut now = 1000;
    let mut client_events = Vec::new();
    let mut server_events = Vec::new();
    for _ in 0..5 {
        now += 10;
        tick(&mut client, &mut server, now);
        client_events.extend(client.recv());
        server_events.extend(server.recv());
    }
    assert_eq!(client_events.len(), 1);
    assert!(matches!(client_events[0], RaknetEvent::Connected(a, 222) if a == SERVER));
    assert_eq!(server_events.len(), 1);
    assert!(matches!(server_events[0], RaknetEvent::Connected(a, 111) if a == CLIENT));

    client.send(b"Hello Server!!").unwrap();
    for _ in 0..3 {
        now += 10;
        tick(&mut client, &mut server, now);
    }
    let events = server.recv();
    assert_eq!(packets(&events), vec![b"Hello Server!!".to_vec()]);
    match &events[0] {
        RaknetEvent::Packet(p) => {
            assert_eq!(p.address, CLIENT);
            assert_eq!(p.guid, 111);
            assert_eq!(p.length, 14);
        }
        _ => panic!("no packet"),
    }

    server.send_to(&CLIENT, b"Hello Client!!").unwrap();
    let big = vec![0xffu8; 4896];
    client.send(&big).unwrap();
    for _ in 0..3 {
        now += 10;
        tick(&mut client, &mut server, now);
    }
    assert_eq!(packets(&client.recv()), vec![b"Hello Client!!".to_vec()]);
    assert_eq!(packets(&server.recv()), vec![big]);

    server.disconnect(CLIENT);
    for _ in 0..4 {
        now += 10;
        tick(&mut client, &mut server, now);
        client_events.extend(client.recv());
        server_events.extend(server.recv());
    }
    assert_eq!(client_events.len(), 2);
    assert!(matches!(
        client_events[1],
        RaknetEvent::Disconnected(a, 222, DisconnectReason::Disconnect) if a == SERVER
    ));
    assert_eq!(server_events.len(), 2);
    assert!(matches!(
        server_events[1],
        RaknetEvent::Disconnected(a, 111, DisconnectReason::Disconnect) if a == CLIENT
    ));
    // the server has forgotten the session
    assert_eq!(server.len(), 0);
    assert!(server.send_to(&CLIENT, b"late").is_err());
    for _ in 0..3 {
        now += 10;
        tick(&mut client, &mut server, now);
        assert_eq!(client.recv().len(), 0);
        assert_eq!(server.recv().len(), 0);
    }
}

#[test]
fn lost_datagram_arrives_after_all() {
    let (mut client, mut server) = open_session(0);
    let mut now = 0;
    for _ in 0..3 {
        now += 10;
        tick(&mut client, &mut server, now);
    }
    client.recv();
    server.recv();
    client.send(b"first").unwrap();
    // the datagram is lost on its way
    now += 10;
    assert_eq!(client.update(now).len(), 1);
    client.send(b"second").unwrap();
    now += 10;
    let sent = client.update(now);
    assert_eq!(sent.len(), 1);
    // the server sees the gap and asks for the missing datagram at once
    let replies = server.handle(CLIENT, &sent[0], now);
    assert_eq!(replies.len(), 1);
    let nack = decode::<Nack>(&replies[0]).unwrap();
    assert_eq!(nack.records.len(), 1);
    assert_eq!(nack.records[0].0, nack.records[0].1);
    assert_eq!(replies[0][0], 0xa0);
    // "second" waits for "first"
    assert_eq!(server.recv().len(), 0);
    assert_eq!(client.handle(SERVER, &replies[0], now).len(), 0);
    for _ in 0..3 {
        now += 10;
        tick(&mut client, &mut server, now);
    }
    assert_eq!(
        packets(&server.recv()),
        vec![b"first".to_vec(), b"second".to_vec()]
    );
}

#[test]
fn silent_peer_times_out_once() {
    let mut session = Connection::new(CLIENT, 1, 2, 1400, RaknetType::Server, 0);
    assert_eq!(session.phase(), Phase::Handshaking);
    assert_eq!(session.peer(), (CLIENT, 2));
    // the probe that falls due at this tick goes out at the next
    assert_eq!(session.update(10000).len(), 0);
    assert_eq!(session.pending(), 0);
    assert_eq!(session.phase(), Phase::Handshaking);
    assert_eq!(session.update(10001).len(), 1);
    assert_eq!(session.phase(), Phase::Closed);
    let events = session.recovery(10);
    assert_eq!(events.len(), 1);
    assert!(matches!(
        events[0],
        RaknetEvent::Disconnected(a, 2, DisconnectReason::Timeout) if a == CLIENT
    ));
    session.update(10020);
    session.update(30000);
    assert_eq!(session.recovery(10).len(), 0);
}

#[test]
fn goodbye_is_said_once() {
    let mut session = Connection::new(CLIENT, 1, 2, 1400, RaknetType::Server, 0);
    session.disconnect();
    assert_eq!(session.phase(), Phase::Disconnecting);
    session.disconnect();
    let sent = session.update(1);
    assert_eq!(sent.len(), 1);
    let set = FrameSet::decode(&sent[0]).unwrap();
    assert_eq!(set.datas.len(), 1);
    assert_eq!(set.datas[0].data, vec![0x15]);
    assert_eq!(set.datas[0].reliability, Reliability::ReliableOrdered);
    assert_eq!(session.update(2).len(), 0);
    assert_eq!(session.pending(), 0);
}

#[test]
fn probe_is_sent_after_the_interval_and_answered() {
    let mut session = Connection::new(CLIENT, 1, 2, 1400, RaknetType::Server, 1000);
    assert_eq!(session.update(6000).len(), 0);
    assert_eq!(session.update(6001).len(), 0);
    let sent = session.update(6002);
    assert_eq!(sent.len(), 1);
    let set = FrameSet::decode(&sent[0]).unwrap();
    assert_eq!(set.datas[0].reliability, Reliability::Unreliable);
    let ping = decode::<ConnectedPing>(&set.datas[0].data).unwrap();
    assert_eq!(ping.client_timestamp, 6001);

    let mut peer = Connection::new(SERVER, 2, 1, 1400, RaknetType::Client, 6002);
    assert_eq!(peer.handle(&sent[0], 6005).len(), 0);
    let answer = peer.update(6010);
    // the answer, then the acknowledgement of the probe's datagram
    assert_eq!(answer.len(), 2);
    let set = FrameSet::decode(&answer[0]).unwrap();
    let pong = decode::<ConnectedPong>(&set.datas[0].data).unwrap();
    assert_eq!(pong, ConnectedPong::new(6001, 6005));
    assert_eq!(answer[1], vec![0xc0, 0, 1, 1, 0, 0, 0]);
}

fn datagram(sequence: u32, payload: &[u8], reliability: Reliability, order: u32) -> Vec<u8> {
    let mut frame = Frame::new(reliability, payload);
    frame.order_index = order;
    FrameSet {
        header: 0x84,
        sequence_number: sequence,
        datas: vec![frame],
    }
    .encode()
    .unwrap()
}

#[test]
fn acknowledgements_end_the_keeping() {
    let mut session = Connection::new(CLIENT, 1, 2, 600, RaknetType::Server, 0);
    for i in 0..6u8 {
        // no two of the messages fit one datagram
        session.send_to(&[0x80 + i; 300]);
    }
    assert_eq!(session.update(1).len(), 6);
    assert_eq!(session.update(2).len(), 0);
    // one acknowledgement of several ranges, some of numbers never given out
    let ack = ACK {
        records: vec![(0, 1), (3, 3), (5, 0xffffff)],
    };
    session.handle(&ack.encode().unwrap(), 3);
    // the two that are left are asked for again, with numbers far beyond
    let nack = Nack {
        records: vec![(2, 0xfffff0)],
    };
    session.handle(&encode(nack).unwrap(), 4);
    let again = session.update(5);
    assert_eq!(again.len(), 2);
    let first = FrameSet::decode(&again[0]).unwrap();
    assert_eq!(first.sequence_number, 6);
    assert_eq!(first.datas[0].data, vec![0x82; 300]);
    let second = FrameSet::decode(&again[1]).unwrap();
    assert_eq!(second.sequence_number, 7);
    assert_eq!(second.datas[0].data, vec![0x84; 300]);
    session.handle(&ACK::new((6, 7)).encode().unwrap(), 6);
    assert_eq!(session.update(5000).len(), 0);
}

#[test]
fn only_a_server_answers_a_request() {
    let request = encode(ConnectionRequest::new(7, 1234, false)).unwrap();
    let mut server = Connection::new(CLIENT, 1, 7, 1400, RaknetType::Server, 0);
    server.handle(&datagram(0, &request, Reliability::Reliable, 0), 5);
    assert_eq!(server.phase(), Phase::Connected);
    let events = server.recovery(1);
    assert!(matches!(events[0], RaknetEvent::Connected(a, 7) if a == CLIENT));
    // the request again is answered again, and the application is not told again
    server.handle(&datagram(1, &request, Reliability::Reliable, 0), 6);
    assert_eq!(server.pending(), 0);
    assert_eq!(server.update(7).len(), 2);

    let mut client = Connection::new(SERVER, 7, 1, 1400, RaknetType::Client, 0);
    client.handle(&datagram(0, &request, Reliability::Reliable, 0), 5);
    assert_eq!(client.phase(), Phase::Handshaking);
    assert_eq!(client.pending(), 0);
    // nothing but the acknowledgement
    assert_eq!(client.update(6), vec![vec![0xc0, 0, 1, 1, 0, 0, 0]]);
}

#[test]
fn events_wait_for_room() {
    let mut session = Connection::new(CLIENT, 1, 2, 1400, RaknetType::Server, 0);
    for i in 0..5u8 {
        session.handle(&datagram(i as u32, &[0x80 + i], Reliability::Unreliable, 0), 1);
    }
    assert_eq!(session.pending(), 5);
    assert_eq!(session.recovery(0).len(), 0);
    assert_eq!(packets(&session.recovery(2)), vec![vec![0x80], vec![0x81]]);
    assert_eq!(session.pending(), 3);
    assert_eq!(
        packets(&session.recovery(10)),
        vec![vec![0x82], vec![0x83], vec![0x84]]
    );
    assert_eq!(session.pending(), 0);
    // one acknowledgement for the five datagrams
    assert_eq!(session.update(2), vec![vec![0xc0, 0, 1, 0, 0, 0, 0, 4, 0, 0]]);
    assert_eq!(session.time_stamp(77), 77);
    assert_eq!(session.time_stamp(u128::MAX), 0);
}

#[test]
fn ordered_messages_reach_the_application_in_order() {
    let mut session = Connection::new(CLIENT, 1, 2, 1400, RaknetType::Server, 0);
    for (sequence, order) in [(0u32, 0u32), (1, 1), (2, 3)] {
        session.handle(
            &datagram(sequence, &[0x90, order as u8], Reliability::ReliableOrdered, order),
            1,
        );
    }
    assert_eq!(
        packets(&session.recovery(10)),
        vec![vec![0x90, 0], vec![0x90, 1]]
    );
    session.handle(&datagram(3, &[0x90, 2], Reliability::ReliableOrdered, 2), 1);
    assert_eq!(
        packets(&session.recovery(10)),
        vec![vec![0x90, 2], vec![0x90, 3]]
    );
    // malformed and empty datagrams change nothing
    assert_eq!(session.handle(&[], 2).len(), 0);
    assert_eq!(session.handle(&[0x84, 1], 2).len(), 0);
    assert_eq!(session.handle(&[0x10, 1, 2, 3], 2).len(), 0);
    assert_eq!(session.pending(), 0);
}

#[test]
fn long_message_is_cut_into_pieces_that_fit() {
    let mut session = Connection::new(CLIENT, 1, 2, 552, RaknetType::Server, 0);
    let message: Vec<u8> = (0..1000u32).map(|i| 0x80 | (i % 101) as u8).collect();
    session.send_to(&message);
    session.send_to(b"short");
    session.send_to(&[]);
    let sent = session.update(1);
    // 1000 bytes in pieces of 400: three datagrams, then one for the rest
    assert_eq!(sent.len(), 4);
    let mut whole = Vec::new();
    for (i, bytes) in sent[..3].iter().enumerate() {
        assert!(bytes.len() <= 552);
        let set = FrameSet::decode(bytes).unwrap();
        assert_eq!(set.header, 0x8c);
        assert_eq!(set.sequence_number, i as u32);
        assert_eq!(set.datas.len(), 1);
        let piece = &set.datas[0];
        assert!(piece.split);
        assert_eq!(piece.split_count, 3);
        assert_eq!(piece.split_index, i as u32);
        assert_eq!(piece.split_id, 0);
        assert_eq!(piece.order_index, 0);
        assert_eq!(piece.message_index, i as u32);
        whole.extend_from_slice(&piece.data);
    }
    assert_eq!(whole, message);
    let rest = FrameSet::decode(&sent[3]).unwrap();
    assert_eq!(rest.datas.len(), 2);
    assert_eq!(rest.datas[0].data, b"short".to_vec());
    assert_eq!((rest.datas[0].message_index, rest.datas[0].order_index), (3, 1));
    assert_eq!(rest.datas[1].data, Vec::<u8>::new());
    assert_eq!((rest.datas[1].message_index, rest.datas[1].order_index), (4, 2));

    // the pieces, out of order, reach the peer's application as the message
    let mut peer = Connection::new(SERVER, 2, 1, 552, RaknetType::Client, 0);
    for i in [2usize, 0, 1, 3] {
        peer.handle(&sent[i], 2);
    }
    let got = packets(&peer.recovery(10));
    assert_eq!(got.len(), 2);
    assert_eq!(got[0].len(), 1000);
    assert!(got[0] == message);
    assert_eq!(got[1], b"short".to_vec());
}

#[test]
fn server_answers_those_it_does_not_know() {
    let mut server = Server::new(SERVER, MOTD.to_string(), 222);
    let probe = encode(UnconnectedPing::new(77, 5)).unwrap();
    let replies = server.handle(CLIENT, &probe, 0);
    assert_eq!(replies.len(), 1);
    let pong = decode::<UnconnectedPong>(&replies[0]).unwrap();
    assert_eq!((pong.time, pong.guid), (77, 222));
    assert_eq!(pong.motd, MOTD);
    server.set_motd("other".to_string()).unwrap();
    let replies = server.handle(CLIENT, &probe, 0);
    assert_eq!(decode::<UnconnectedPong>(&replies[0]).unwrap().motd, "other");

    let request1 = encode(OpenConnectionRequest1::new(10, 1000)).unwrap();
    let replies = server.handle(CLIENT, &request1, 0);
    assert_eq!(
        decode::<OpenConnectionReply1>(&replies[0]).unwrap(),
        OpenConnectionReply1::new(222, false, 1000)
    );
    let old = encode(OpenConnectionRequest1::new(9, 1000)).unwrap();
    let replies = server.handle(CLIENT, &old, 0);
    assert_eq!(replies[0][0], 0x19);
    assert_eq!(
        decode::<IncompatibleProtocolVersion>(&replies[0]).unwrap(),
        IncompatibleProtocolVersion::new(10, 222)
    );

    let request2 = encode(OpenConnectionRequest2::new(SERVER, 1000, 111)).unwrap();
    let replies = server.handle(CLIENT, &request2, 0);
    assert_eq!(
        decode::<OpenConnectionReply2>(&replies[0]).unwrap(),
        OpenConnectionReply2::new(222, CLIENT, 1000, false)
    );
    assert_eq!(server.len(), 1);
    // the same identifier from another address is refused
    let other = Address::V4 {
        ip: 0x0a000001,
        port: 1,
    };
    let replies = server.handle(other, &request2, 0);
    assert_eq!(
        decode::<AlreadyConnected>(&replies[0]).unwrap(),
        AlreadyConnected::new(222)
    );
    assert_eq!(server.len(), 1);
    // what is no packet of the handshake gets no answer
    assert_eq!(server.handle(other, &[0x42, 1, 2], 0).len(), 0);
    assert_eq!(server.handle(other, &[], 0).len(), 0);
    assert_eq!(server.handle(other, &probe[..10], 0).len(), 0);
    match server.send_to(&other, b"x") {
        Err(RaknetError::Other(text)) => assert_eq!(text, "Not connected"),
        _ => panic!("sent to a peer without a session"),
    }
    server.disconnect(other);
    assert_eq!(server.len(), 1);
}

#[test]
fn client_is_told_when_the_server_refuses() {
    let mut client = Client::new(SERVER, true, 111);
    assert_eq!(client.local, Address::V4 { ip: 0, port: 0 });
    assert_eq!(client.mtu, 1492);
    let offline = Client::new(SERVER, false, 111);
    assert_eq!(
        offline.local,
        Address::V4 {
            ip: 0x7f000001,
            port: 0
        }
    );
    let request1 = client.connect().unwrap();
    assert_eq!(
        decode::<OpenConnectionRequest1>(&request1).unwrap(),
        OpenConnectionRequest1::new(10, 1492)
    );
    let refused = encode(IncompatibleProtocolVersion::new(11, 222)).unwrap();
    match client.connect_to_server(SERVER, &refused, 0) {
        ClientStep::Failed(RaknetError::IncompatibleProtocolVersion(11, 10)) => {}
        other => panic!("unexpected step {:?}", other),
    }
    let taken = encode(AlreadyConnected::new(222)).unwrap();
    match client.connect_to_server(SERVER, &taken, 0) {
        ClientStep::Failed(RaknetError::AlreadyConnected(a)) => assert_eq!(a, SERVER),
        other => panic!("unexpected step {:?}", other),
    }
    // from elsewhere, empty, cut short or of another kind: the client waits on
    assert!(matches!(client.connect_to_server(CLIENT, &taken, 0), ClientStep::Ignore));
    assert!(matches!(client.connect_to_server(SERVER, &[], 0), ClientStep::Ignore));
    assert!(matches!(client.connect_to_server(SERVER, &taken[..9], 0), ClientStep::Ignore));
    assert!(matches!(client.connect_to_server(SERVER, &[0x55], 0), ClientStep::Ignore));
    assert!(client.connect_expired(0, 10000).is_none());
    match client.connect_expired(0, 10001) {
        Some(RaknetError::RemoteClosed(a)) => assert_eq!(a, SERVER),
        _ => panic!("the handshake did not expire"),
    }
    // without a session nothing is sent and nothing waits
    assert_eq!(client.update(5).len(), 0);
    assert_eq!(client.recv().len(), 0);
    assert_eq!(client.handle(SERVER, &[0x84, 0, 0, 0], 5).len(), 0);
    client.send(b"x").unwrap();
    client.disconnect();
    client.mtu = 20;
    match client.connect() {
        Err(RaknetError::Other(text)) => {
            assert_eq!(text, "Failed to encode OpenconnectionRequest1")
        }
        _ => panic!("a request that cannot be written was written"),
    }
}
