use raknet::address::Address;
use raknet::error::CodecError;
use raknet::packets::ack::ACK;
use raknet::packets::already_connected::AlreadyConnected;
use raknet::packets::connected_ping::ConnectedPing;
use raknet::packets::connected_pong::ConnectedPong;
use raknet::packets::connection_request::ConnectionRequest;
use raknet::packets::connection_request_accepted::ConnectionRequestAccepted;
use raknet::packets::disconnected::Disconnected;
use raknet::packets::frame::Frame;
use raknet::packets::frame_set::FrameSet;
use raknet::packets::incompatible_protocol_version::IncompatibleProtocolVersion;
use raknet::packets::nack::Nack;
use raknet::packets::new_incoming_connection::NewIncomingConnection;
use raknet::packets::open_connection_reply1::OpenConnectionReply1;
use raknet::packets::open_connection_reply2::OpenConnectionReply2;
use raknet::packets::open_connection_request1::OpenConnectionRequest1;
use raknet::packets::open_connection_request2::OpenConnectionRequest2;
use raknet::packets::unconnected_ping::UnconnectedPing;
use raknet::packets::unconnected_pong::UnconnectedPong;
use raknet::packets::{decode, encode, Reliability};
use raknet::reader::Reader;
use raknet::writer::Writer;

const UNCONNECTED_PING_DATA: [u8; 33] = [
    0x01, 0x00, 0x00, 0x00, 0x00, 0x0f, 0x3d, 0x64, 0x94, 0x00, 0xff, 0xff, 0x00, 0xfe, 0xfe, 0xfe,
    0xfe, 0xfd, 0xfd, 0xfd, 0xfd, 0x12, 0x34, 0x56, 0x78, 0x8c, 0xe5, 0xbf, 0x69, 0x32, 0xf8, 0x7a,
    0x55,
];

const UNCONNECTED_PONG_DATA: [u8; 132] = [
    0x1c, 0x00, 0x00, 0x00, 0x00, 0x0f, 0x42, 0x80, 0xb5, 0xa2, 0xd6, 0x93, 0xa7, 0x1e, 0x81, 0x85,
    0xa2, 0x00, 0xff, 0xff, 0x00, 0xfe, 0xfe, 0xfe, 0xfe, 0xfd, 0xfd, 0xfd, 0xfd, 0x12, 0x34, 0x56,
    0x78, 0x00, 0x61, 0x4d, 0x43, 0x50, 0x45, 0x3b, 0x44, 0x65, 0x64, 0x69, 0x63, 0x61, 0x74, 0x65,
    0x64, 0x20, 0x53, 0x65, 0x72, 0x76, 0x65, 0x72, 0x3b, 0x34, 0x37, 0x31, 0x3b, 0x31, 0x2e, 0x31,
    0x37, 0x2e, 0x34, 0x31, 0x3b, 0x30, 0x3b, 0x31, 0x30, 0x3b, 0x31, 0x31, 0x37, 0x33, 0x33, 0x37,
    0x32, 0x38, 0x32, 0x32, 0x35, 0x31, 0x34, 0x31, 0x30, 0x33, 0x32, 0x33, 0x35, 0x34, 0x3b, 0x42,
    0x65, 0x64, 0x72, 0x6f, 0x63, 0x6b, 0x20, 0x6c, 0x65, 0x76, 0x65, 0x6c, 0x3b, 0x53, 0x75, 0x72,
    0x76, 0x69, 0x76, 0x61, 0x6c, 0x3b, 0x31, 0x3b, 0x31, 0x39, 0x31, 0x33, 0x32, 0x3b, 0x31, 0x39,
    0x31, 0x33, 0x33, 0x3b,
];

const OPEN_CONNECTION_REPLY1_DATA: [u8; 28] = [
    0x06, 0x00, 0xff, 0xff, 0x00, 0xfe, 0xfe, 0xfe, 0xfe, 0xfd, 0xfd, 0xfd, 0xfd, 0x12, 0x34, 0x56,
    0x78, 0xa2, 0xd6, 0x93, 0xa7, 0x1e, 0x81, 0x85, 0xa2, 0x00, 0x05, 0x78,
];

const OPEN_CONNECTION_REQUEST2_DATA: [u8; 34] = [
    0x07, 0x00, 0xff, 0xff, 0x00, 0xfe, 0xfe, 0xfe, 0xfe, 0xfd, 0xfd, 0xfd, 0xfd, 0x12, 0x34, 0x56,
    0x78, 0x04, 0x80, 0xff, 0xff, 0xfe, 0x4a, 0xbc, 0x05, 0x78, 0x8a, 0xea, 0x74, 0x25, 0xff, 0xd6,
    0x14, 0x0f,
];

const OPEN_CONNECTION_REPLY2_DATA: [u8; 35] = [
    0x08, 0x00, 0xff, 0xff, 0x00, 0xfe, 0xfe, 0xfe, 0xfe, 0xfd, 0xfd, 0xfd, 0xfd, 0x12, 0x34, 0x56,
    0x78, 0xa2, 0xd6, 0x93, 0xa7, 0x1e, 0x81, 0x85, 0xa2, 0x04, 0x80, 0xff, 0xff, 0xfe, 0xe2, 0xbe,
    0x05, 0x78, 0x00,
];

const CONNECTION_REQUEST_DATA: [u8; 18] = [
    0x09, 0x8a, 0xea, 0x74, 0x25, 0xff, 0xd6, 0x14, 0x0f, 0x00, 0x00, 0x00, 0x00, 0x0f, 0x42, 0xab,
    0xec, 0x00,
];

const INCOMPATIBLE_PROTOCOL_VERSION_DATA: [u8; 26] = [
    0x19, 0x0a, 0x00, 0xff, 0xff, 0x00, 0xfe, 0xfe, 0xfe, 0xfe, 0xfd, 0xfd, 0xfd, 0xfd, 0x12, 0x34,
    0x56, 0x78, 0xa2, 0xa8, 0x7f, 0xa9, 0xae, 0xe7, 0xe2, 0x6b,
];
const ACK_DATA: [u8; 7] = [0xc0, 0x00, 0x01, 0x01, 0x02, 0x00, 0x00];
const ACK_DATA2: [u8; 10] = [0xc0, 0x00, 0x01, 0x00, 0x01, 0x00, 0x00, 0x02, 0x00, 0x00];
const NACK_DATA: [u8; 7] = [0xa0, 0x00, 0x01, 0x01, 0x0d, 0x00, 0x00];
const NACK_DATA2: [u8; 10] = [0xa0, 0x00, 0x01, 0x00, 0x01, 0x00, 0x00, 0x02, 0x00, 0x00];

const CONNECTEDPING_DATA: [u8; 9] = [0x00, 0x00, 0x00, 0x00, 0x00, 0x19, 0x4f, 0xc3, 0xe1];

const CONNECTEDPONG_DATA: [u8; 17] = [
    0x03, 0x00, 0x00, 0x00, 0x00, 0x19, 0x4f, 0xc3, 0xe1, 0x00, 0x00, 0x00, 0x00, 0x61, 0x72, 0x86,
    0x7c,
];

const ALREADY_CONNECTED_DATA: [u8; 25] = [
    0x12, 0x00, 0xff, 0xff, 0x00, 0xfe, 0xfe, 0xfe, 0xfe, 0xfd, 0xfd, 0xfd, 0xfd, 0x12, 0x34, 0x56,
    0x78, 0x91, 0x1b, 0x13, 0x5d, 0x5f, 0x63, 0x9d, 0x1f,
];

/// A first request that asks for datagrams of 1492 bytes.
fn open_connection_request1_data() -> Vec<u8> {
    let mut data: Vec<u8> = Vec::new();
    data.extend_from_slice(&[
        0x05, 0x00, 0xff, 0xff, 0x00, 0xfe, 0xfe, 0xfe, 0xfe, 0xfd, 0xfd, 0xfd,
        0xfd, 0x12, 0x34, 0x56, 0x78, 0x0a,
    ]);
    for _ in 0..1446 {
        data.extend_from_slice(&[0x00]);
    }
    data
}

/// An acceptance as a server of the game sends it: the client's address, the
/// index, twenty addresses of the server's own, and the two clocks.
fn connection_request_accepted_data() -> Vec<u8> {
    let mut data: Vec<u8> = Vec::new();
    data.extend_from_slice(&[0x10, 0x04, 0x80, 0xff, 0xff, 0xfe, 0xfb, 0x57, 0x00, 0x00]);
    for _ in 0..20 {
        data.extend_from_slice(&[0x06, 0x17]);
        data.resize(data.len() + 27, 0);
    }
    data.extend_from_slice(&[
        0x00, 0x00, 0x00, 0x00, 0x19, 0x4f, 0xc3, 0xc2, 0x00, 0x00, 0x00, 0x00,
        0x61, 0x72, 0x86, 0x7c,
    ]);
    data
}

/// The client's last word of the handshake as a client of the game sends
/// it, with the frame that followed it in the datagram.
fn new_incoming_connection_data() -> Vec<u8> {
    let mut data: Vec<u8> = Vec::new();
    data.extend_from_slice(&[
        0x13, 0x04, 0xcc, 0xb0, 0x1b, 0xf4, 0x4a, 0xbc, 0x06, 0x17, 0x00, 0xf1,
        0x03, 0x00, 0x00, 0x00, 0x00, 0xfe, 0x80, 0x00, 0x00, 0x00, 0x00, 0x00,
        0x00, 0xf9, 0xa0, 0xd7, 0xcd, 0x26, 0xb0, 0x2b, 0xc2, 0x02, 0x00, 0x00,
        0x00, 0x04, 0x3f, 0x57, 0xff, 0xef, 0xf1, 0x03,
    ]);
    for _ in 0..18 {
        data.extend_from_slice(&[0x04, 0xff, 0xff, 0xff, 0xff, 0x00, 0x00]);
    }
    data.extend_from_slice(&[
        0x00, 0x00, 0x00, 0x00, 0x00, 0x00, 0x00, 0x00, 0x00, 0x00, 0x00, 0x00,
        0x0f, 0x8d, 0xcc, 0x27, 0x00, 0x00, 0x48, 0x00, 0x00, 0x00, 0x00, 0x00,
        0x0f, 0x8d, 0xcc, 0x27,
    ]);
    data
}

/// A datagram of two frames.
fn frame_setpacket_data() -> Vec<u8> {
    let mut data: Vec<u8> = Vec::new();
    data.extend_from_slice(&[
        0x84, 0x01, 0x00, 0x00, 0x60, 0x05, 0xd0, 0x01, 0x00, 0x00, 0x00, 0x00,
        0x00, 0x00, 0x13, 0x04, 0x80, 0xff, 0xff, 0xfe, 0x4a, 0xbc, 0x06, 0x17,
        0x00, 0xfb, 0x57, 0x00, 0x00, 0x00, 0x00, 0xfe, 0x80, 0x00, 0x00, 0x00,
        0x00, 0x00, 0x00, 0xf8, 0x35, 0xe2, 0xe6, 0xe0, 0xc1, 0x68, 0x88, 0x06,
        0x00, 0x00, 0x00, 0x04, 0x3f, 0x57, 0xff, 0xee, 0xfb, 0x57,
    ]);
    for _ in 0..18 {
        data.extend_from_slice(&[0x04, 0xff, 0xff, 0xff, 0xff, 0x00, 0x00]);
    }
    data.extend_from_slice(&[
        0x00, 0x00, 0x00, 0x00, 0x61, 0x72, 0x86, 0x7c, 0x00, 0x00, 0x00, 0x00,
        0x19, 0x4f, 0xc3, 0xd1, 0x00, 0x00, 0x48, 0x00, 0x00, 0x00, 0x00, 0x00,
        0x19, 0x4f, 0xc3, 0xd2,
    ]);
    data
}

#[test]
fn reliability() {
    let reliables = vec![
        (Reliability::new(0x0).unwrap(), 0x0, false, false, false),
        (Reliability::new(0x1).unwrap(), 0x1, false, true, true),
        (Reliability::new(0x2).unwrap(), 0x2, true, false, false),
        (Reliability::new(0x3).unwrap(), 0x3, true, true, false),
        (Reliability::new(0x4).unwrap(), 0x4, true, true, true),
    ];
    for reliable in reliables {
        assert_eq!(reliable.0.to_byte(), reliable.1);
        assert_eq!(reliable.0.reliable(), reliable.2);
        assert_eq!(reliable.0.sequenced_or_ordered(), reliable.3);
        assert_eq!(reliable.0.sequenced(), reliable.4);
    }
}

#[test]
fn raknet_packet() {
    let unconnected_ping = decode::<UnconnectedPing>(&UNCONNECTED_PING_DATA).unwrap();
    let unconnected_ping_encoded = encode::<UnconnectedPing>(unconnected_ping).unwrap();
    assert_eq!(&unconnected_ping_encoded, &UNCONNECTED_PING_DATA);

    let unconnected_pong = decode::<UnconnectedPong>(&UNCONNECTED_PONG_DATA).unwrap();
    let unconnected_pong_encoded = encode::<UnconnectedPong>(unconnected_pong).unwrap();
    assert_eq!(&unconnected_pong_encoded, &UNCONNECTED_PONG_DATA);

    let open_connection_request1 =
        decode::<OpenConnectionRequest1>(&open_connection_request1_data()).unwrap();
    let open_connection_request1_encoded =
        encode::<OpenConnectionRequest1>(open_connection_request1).unwrap();
    assert_eq!(
        &open_connection_request1_encoded,
        &open_connection_request1_data()
    );

    let open_connection_request2 =
        decode::<OpenConnectionRequest2>(&OPEN_CONNECTION_REQUEST2_DATA).unwrap();
    let open_connection_request2_encoded =
        encode::<OpenConnectionRequest2>(open_connection_request2).unwrap();
    assert_eq!(
        &open_connection_request2_encoded,
        &OPEN_CONNECTION_REQUEST2_DATA
    );

    let open_connection_reply1 =
        decode::<OpenConnectionReply1>(&OPEN_CONNECTION_REPLY1_DATA).unwrap();
    let open_connection_reply1_encoded =
        encode::<OpenConnectionReply1>(open_connection_reply1).unwrap();
    assert_eq!(
        &open_connection_reply1_encoded,
        &OPEN_CONNECTION_REPLY1_DATA
    );

    let open_connection_reply2 =
        decode::<OpenConnectionReply2>(&OPEN_CONNECTION_REPLY2_DATA).unwrap();
    let open_connection_reply2_encoded =
        encode::<OpenConnectionReply2>(open_connection_reply2).unwrap();
    assert_eq!(
        &open_connection_reply2_encoded,
        &OPEN_CONNECTION_REPLY2_DATA
    );

    let connection_request = decode::<ConnectionRequest>(&CONNECTION_REQUEST_DATA).unwrap();
    let connection_request_encoded = encode::<ConnectionRequest>(connection_request).unwrap();
    assert_eq!(&connection_request_encoded, &CONNECTION_REQUEST_DATA);

    let connection_request_accepted =
        decode::<ConnectionRequestAccepted>(&connection_request_accepted_data()).unwrap();
    encode::<ConnectionRequestAccepted>(connection_request_accepted).unwrap();

    let new_incoming_connection =
        decode::<NewIncomingConnection>(&new_incoming_connection_data()).unwrap();
    encode::<NewIncomingConnection>(new_incoming_connection).unwrap();

    let incompatible_protocol_version =
        decode::<IncompatibleProtocolVersion>(&INCOMPATIBLE_PROTOCOL_VERSION_DATA).unwrap();
    encode::<IncompatibleProtocolVersion>(incompatible_protocol_version).unwrap();

    let ack = decode::<ACK>(&ACK_DATA).unwrap();
    let ack_encoded = encode::<ACK>(ack).unwrap();
    assert_eq!(&ack_encoded, &ACK_DATA);

    let ack2 = decode::<ACK>(&ACK_DATA2).unwrap();
    let ack2_encoded = encode::<ACK>(ack2).unwrap();
    assert_eq!(&ack2_encoded, &ACK_DATA2);

    let nack = decode::<Nack>(&NACK_DATA).unwrap();
    let nack_encoded = encode::<Nack>(nack).unwrap();
    assert_eq!(&nack_encoded, &NACK_DATA);

    let nack2 = decode::<Nack>(&NACK_DATA2).unwrap();
    let nack2_encoded = encode::<Nack>(nack2).unwrap();
    assert_eq!(&nack2_encoded, &NACK_DATA2);

    let connected_ping = decode::<ConnectedPing>(&CONNECTEDPING_DATA).unwrap();
    let connected_ping_encoded = encode::<ConnectedPing>(connected_ping).unwrap();
    assert_eq!(&connected_ping_encoded, &CONNECTEDPING_DATA);

    let connected_pong = decode::<ConnectedPong>(&CONNECTEDPONG_DATA).unwrap();
    let connected_pong_encoded = encode::<ConnectedPong>(connected_pong).unwrap();
    assert_eq!(&connected_pong_encoded, &CONNECTEDPONG_DATA);

    let frameset = FrameSet::decode(&frame_setpacket_data()).unwrap();
    let frameset_encoded = frameset.encode().unwrap();
    assert_eq!(&frameset_encoded, &frame_setpacket_data());

    let already_connected = decode::<AlreadyConnected>(&ALREADY_CONNECTED_DATA).unwrap();
    let already_connected_encoded = encode::<AlreadyConnected>(already_connected).unwrap();
    assert_eq!(&already_connected_encoded, &ALREADY_CONNECTED_DATA);

    let nack = Nack::new((0, 1));
    assert_eq!(nack.get_all(), vec![0, 1]);

    let _nack_max_eq_min = Nack::new((0, 0));

    let _already_connected = AlreadyConnected::new(0);

    let _incompatible_protocol_version = IncompatibleProtocolVersion::new(0x0, 0x0);

    let sequenced_frame = Frame::new(Reliability::ReliableSequenced, b"test");
    let mut frame_buff = Writer::new(vec![]);
    sequenced_frame.encode(&mut frame_buff).unwrap();
    let buff = frame_buff.get_raw_payload();
    let mut reader = Reader::new(&buff);
    let _sequenced_frame_decoded = Frame::decode(&mut reader).unwrap();

    let disconnected = decode::<Disconnected>(&[0x15]).unwrap();
    assert_eq!(&encode(disconnected).unwrap(), &[0x15]);
}

fn get_encoded_len(f: Frame) -> usize {
    let mut data = Writer::new(vec![]);
    f.encode(&mut data).unwrap();
    data.get_raw_payload().len()
}

#[test]
fn frame() {
    let frame = Frame::new(Reliability::Unreliable, &[0u8; 10]);
    assert_eq!(frame.length(), get_encoded_len(frame));
    let frame = Frame::new(Reliability::UnreliableSequenced, &[0u8; 10]);
    assert_eq!(frame.length(), get_encoded_len(frame));
    let frame = Frame::new(Reliability::Reliable, &[0u8; 10]);
    assert_eq!(frame.length(), get_encoded_len(frame));
    let frame = Frame::new(Reliability::ReliableOrdered, &[0u8; 10]);
    assert_eq!(frame.length(), get_encoded_len(frame));
    let frame = Frame::new(Reliability::ReliableSequenced, &[0u8; 10]);
    assert_eq!(frame.length(), get_encoded_len(frame));
}

#[test]
fn event_error() {}

#[test]
fn captured_fields() {
    let ping = decode::<UnconnectedPing>(&UNCONNECTED_PING_DATA).unwrap();
    assert_eq!(ping.time, 0x0f3d6494);
    assert_eq!(ping.guid, 0x8ce5bf6932f87a55);

    let pong = decode::<UnconnectedPong>(&UNCONNECTED_PONG_DATA).unwrap();
    assert_eq!(pong.time, 0x0f4280b5);
    assert_eq!(pong.guid, 0xa2d693a71e8185a2);
    assert_eq!(
        pong.motd,
        "MCPE;Dedicated Server;471;1.17.41;0;10;11733728225141032354;Bedrock level;Survival;1;19132;19133;"
    );

    let request1 = decode::<OpenConnectionRequest1>(&open_connection_request1_data()).unwrap();
    assert_eq!(request1.protocol_version, 10);
    assert_eq!(request1.mtu_size, 1492);

    let reply1 = decode::<OpenConnectionReply1>(&OPEN_CONNECTION_REPLY1_DATA).unwrap();
    assert_eq!(reply1.guid, 0xa2d693a71e8185a2);
    assert_eq!(reply1.use_encryption, 0);
    assert_eq!(reply1.mtu_size, 1400);

    let request2 = decode::<OpenConnectionRequest2>(&OPEN_CONNECTION_REQUEST2_DATA).unwrap();
    assert_eq!(
        request2.address,
        Address::V4 {
            ip: 0x7f000001,
            port: 19132
        }
    );
    assert_eq!(request2.mtu, 1400);
    assert_eq!(request2.guid, 0x8aea7425ffd6140f);

    let reply2 = decode::<OpenConnectionReply2>(&OPEN_CONNECTION_REPLY2_DATA).unwrap();
    assert_eq!(
        reply2.address,
        Address::V4 {
            ip: 0x7f000001,
            port: 0xe2be
        }
    );
    assert_eq!(reply2.mtu, 1400);
    assert_eq!(reply2.encryption_enabled, 0);

    let request = decode::<ConnectionRequest>(&CONNECTION_REQUEST_DATA).unwrap();
    assert_eq!(request.guid, 0x8aea7425ffd6140f);
    assert_eq!(request.time, 0x0f42abec);
    assert_eq!(request.use_encryption, 0);

    let accepted = decode::<ConnectionRequestAccepted>(&connection_request_accepted_data()).unwrap();
    assert_eq!(
        accepted.client_address,
        Address::V4 {
            ip: 0x7f000001,
            port: 0xfb57
        }
    );
    assert_eq!(accepted.system_index, 0);
    assert_eq!(accepted.request_timestamp, 0x194fc3c2);
    assert_eq!(accepted.accepted_timestamp, 0x6172867c);

    let incoming = decode::<NewIncomingConnection>(&new_incoming_connection_data()).unwrap();
    assert_eq!(
        incoming.server_address,
        Address::V4 {
            ip: 0x334fe40b,
            port: 19132
        }
    );
    // the clocks are read from the last sixteen bytes of the capture
    assert_eq!(incoming.request_timestamp, 0x0f8dcc2700004800);
    assert_eq!(incoming.accepted_timestamp, 0x0f8dcc27);

    let version = decode::<IncompatibleProtocolVersion>(&INCOMPATIBLE_PROTOCOL_VERSION_DATA)
        .unwrap();
    assert_eq!(version.server_protocol, 10);
    assert_eq!(version.server_guid, 0xa2a87fa9aee7e26b);

    let ack = decode::<ACK>(&ACK_DATA).unwrap();
    assert_eq!(ack.records, vec![(2, 2)]);
    let ack2 = decode::<ACK>(&ACK_DATA2).unwrap();
    assert_eq!(ack2.records, vec![(1, 2)]);
    let nack = decode::<Nack>(&NACK_DATA).unwrap();
    assert_eq!(nack.records, vec![(13, 13)]);

    let set = FrameSet::decode(&frame_setpacket_data()).unwrap();
    assert_eq!(set.header, 0x84);
    assert_eq!(set.sequence_number, 1);
    assert_eq!(set.datas.len(), 2);
    assert_eq!(set.datas[0].reliability, Reliability::ReliableOrdered);
    assert_eq!(set.datas[0].message_index, 1);
    assert_eq!(set.datas[0].order_index, 0);
    assert!(!set.datas[0].split);
    assert_eq!(set.datas[0].data.len(), 186);
    assert_eq!(set.datas[0].data[0], 0x13);
    assert_eq!(set.datas[1].reliability, Reliability::Unreliable);
    assert_eq!(set.datas[1].data, vec![0, 0, 0, 0, 0, 0x19, 0x4f, 0xc3, 0xd2]);

    let already = decode::<AlreadyConnected>(&ALREADY_CONNECTED_DATA).unwrap();
    assert_eq!(already.guid, 0x911b135d5f639d1f);

    assert_eq!(
        decode::<UnconnectedPing>(&UNCONNECTED_PING_DATA[..20]).err(),
        Some(CodecError::UnexpectedEof)
    );
}
