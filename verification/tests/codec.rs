use raknet::address::Address;
use raknet::error::CodecError;
use raknet::packets::ack::ACK;
use raknet::packets::connected_ping::ConnectedPing;
use raknet::packets::frame::Frame;
use raknet::packets::frame_set::FrameSet;
use raknet::packets::nack::Nack;
use raknet::packets::open_connection_request1::OpenConnectionRequest1;
use raknet::packets::open_connection_request2::OpenConnectionRequest2;
use raknet::packets::unconnected_ping::UnconnectedPing;
use raknet::packets::unconnected_pong::UnconnectedPong;
use raknet::packets::{decode, encode, Packet, Reliability};
use raknet::ping;
use raknet::reader::{Endian, Reader};
use raknet::writer::Writer;

const BUFFER: [u8; 8] = [0x0, 0x1, 0x2, 0x3, 0x4, 0x5, 0x6, 0x7];
const TEST_U8: u8 = 0xff;
const TEST_U16: u16 = 0xffff;
const TEST_U24: u32 = 0xffffff;
const TEST_U32: u32 = 0xffffffff;
const TEST_U64: u64 = 0xffffffffffffffff;
const TEST_I64: i64 = 0x7fffffffffffffff;

#[test]
fn server_reader_writer() {
    let test_address = Address::V4 {
        ip: 0x7f000001,
        port: 19132,
    };
    let test_string = "Hello world";
    let mut cursor = Writer::new(vec![]);

    cursor.write(&BUFFER).unwrap();
    cursor.write_u8(TEST_U8).unwrap();
    cursor.write_u16(TEST_U16, Endian::Big).unwrap();
    cursor.write_u16(TEST_U16, Endian::Little).unwrap();
    cursor.write_u24(TEST_U24, Endian::Big).unwrap();
    cursor.write_u24(TEST_U24, Endian::Little).unwrap();
    cursor.write_u32(TEST_U32, Endian::Big).unwrap();
    cursor.write_u32(TEST_U32, Endian::Little).unwrap();
    cursor.write_u64(TEST_U64, Endian::Big).unwrap();
    cursor.write_u64(TEST_U64, Endian::Little).unwrap();
    cursor.write_i64(TEST_I64, Endian::Big).unwrap();
    cursor.write_i64(TEST_I64, Endian::Little).unwrap();

    cursor.write_address(test_address).unwrap();
    cursor.write_magic().unwrap();
    cursor.write_string(test_string).unwrap();

    let buff = cursor.get_raw_payload();

    let mut cursor = Reader::new(&buff);
    let mut buff = [0u8; 8];
    cursor.read(&mut buff).unwrap();
    assert_eq!(buff, BUFFER);
    assert_eq!(cursor.read_u8().unwrap(), TEST_U8);
    assert_eq!(cursor.read_u16(Endian::Big).unwrap(), TEST_U16);
    assert_eq!(cursor.read_u16(Endian::Little).unwrap(), TEST_U16);
    assert_eq!(cursor.read_u24(Endian::Big).unwrap(), TEST_U24);
    assert_eq!(cursor.read_u24(Endian::Little).unwrap(), TEST_U24);
    assert_eq!(cursor.read_u32(Endian::Big).unwrap(), TEST_U32);
    assert_eq!(cursor.read_u32(Endian::Little).unwrap(), TEST_U32);
    assert_eq!(cursor.read_u64(Endian::Big).unwrap(), TEST_U64);
    assert_eq!(cursor.read_u64(Endian::Little).unwrap(), TEST_U64);
    assert_eq!(cursor.read_i64(Endian::Big).unwrap(), TEST_I64);
    assert_eq!(cursor.read_i64(Endian::Little).unwrap(), TEST_I64);

    assert_eq!(cursor.read_address().unwrap(), test_address);
    assert_eq!(cursor.read_magic().unwrap(), true);
    assert_eq!(
        cursor.read_string().unwrap().as_str().cmp(test_string),
        std::cmp::Ordering::Equal
    );
}

#[test]
fn byte_order_of_each_width() {
    let mut cursor = Writer::new(vec![]);
    cursor.write_u16(0x1234, Endian::Big).unwrap();
    cursor.write_u16(0x1234, Endian::Little).unwrap();
    cursor.write_u24(0x123456, Endian::Big).unwrap();
    cursor.write_u24(0x123456, Endian::Little).unwrap();
    cursor.write_u32(0x12345678, Endian::Big).unwrap();
    cursor.write_u32(0x12345678, Endian::Little).unwrap();
    cursor.write_u64(0x0102030405060708, Endian::Big).unwrap();
    cursor.write_u64(0x0102030405060708, Endian::Little).unwrap();
    cursor.write_i64(-2, Endian::Big).unwrap();
    cursor.write_i64(i64::MIN, Endian::Little).unwrap();
    assert_eq!(cursor.pos(), 50);
    let bytes = cursor.get_raw_payload();
    assert_eq!(
        bytes,
        vec![
            0x12, 0x34, 0x34, 0x12, 0x12, 0x34, 0x56, 0x56, 0x34, 0x12, 0x12, 0x34, 0x56, 0x78,
            0x78, 0x56, 0x34, 0x12, 1, 2, 3, 4, 5, 6, 7, 8, 8, 7, 6, 5, 4, 3, 2, 1, 0xff, 0xff,
            0xff, 0xff, 0xff, 0xff, 0xff, 0xfe, 0, 0, 0, 0, 0, 0, 0, 0x80,
        ]
    );
    let mut reader = Reader::new(&bytes);
    assert_eq!(reader.read_u16(Endian::Big), Ok(0x1234));
    assert_eq!(reader.read_u16(Endian::Little), Ok(0x1234));
    assert_eq!(reader.read_u24(Endian::Big), Ok(0x123456));
    assert_eq!(reader.read_u24(Endian::Little), Ok(0x123456));
    assert_eq!(reader.read_u32(Endian::Big), Ok(0x12345678));
    assert_eq!(reader.read_u32(Endian::Little), Ok(0x12345678));
    assert_eq!(reader.read_u64(Endian::Big), Ok(0x0102030405060708));
    assert_eq!(reader.read_u64(Endian::Little), Ok(0x0102030405060708));
    assert_eq!(reader.read_i64(Endian::Big), Ok(-2));
    assert_eq!(reader.read_i64(Endian::Little), Ok(i64::MIN));
    assert_eq!(reader.pos(), 50);
    // the other byte order reads another number
    let mut reader = Reader::new(&bytes);
    assert_eq!(reader.read_u16(Endian::Little), Ok(0x3412));
    assert_eq!(reader.read_u24(Endian::Big), Ok(0x341212));
}

#[test]
fn failed_read_leaves_the_cursor() {
    let bytes = [1u8, 2, 3];
    let mut reader = Reader::new(&bytes);
    assert_eq!(reader.read_u32(Endian::Big), Err(CodecError::UnexpectedEof));
    assert_eq!(reader.pos(), 0);
    assert_eq!(reader.read_u64(Endian::Little), Err(CodecError::UnexpectedEof));
    assert_eq!(reader.read_i64(Endian::Little), Err(CodecError::UnexpectedEof));
    assert_eq!(reader.read_magic(), Err(CodecError::UnexpectedEof));
    let mut out = [9u8; 4];
    assert_eq!(reader.read(&mut out), Err(CodecError::UnexpectedEof));
    assert_eq!(out, [9u8; 4]);
    assert_eq!(reader.pos(), 0);
    assert_eq!(reader.read_u16(Endian::Big), Ok(0x0102));
    assert_eq!(reader.read_u16(Endian::Big), Err(CodecError::UnexpectedEof));
    assert_eq!(reader.read_u8(), Ok(3));
    assert_eq!(reader.read_u8(), Err(CodecError::UnexpectedEof));
    assert_eq!(reader.pos(), 3);
    reader.next(5);
    assert_eq!(reader.pos(), 8);
    assert_eq!(reader.read_u8(), Err(CodecError::UnexpectedEof));
    let mut none = [0u8; 0];
    assert_eq!(reader.read(&mut none), Err(CodecError::UnexpectedEof));
    reader.seek(1);
    assert_eq!(reader.read_u8(), Ok(2));
}

#[test]
fn strings_on_the_wire() {
    let mut cursor = Writer::new(vec![]);
    cursor.write_string("h\u{e9}").unwrap();
    assert_eq!(cursor.get_raw_payload(), vec![0, 3, b'h', 0xc3, 0xa9]);

    let bytes = [0u8, 2, b'o', b'k', 7];
    let mut reader = Reader::new(&bytes);
    assert_eq!(reader.read_string(), Ok("ok".to_string()));
    assert_eq!(reader.pos(), 4);

    let short = [0u8, 5, b'o', b'k'];
    let mut reader = Reader::new(&short);
    assert_eq!(reader.read_string(), Err(CodecError::UnexpectedEof));
    assert_eq!(reader.pos(), 0);

    let broken = [0u8, 2, 0xc3, 0x28];
    let mut reader = Reader::new(&broken);
    assert_eq!(reader.read_string(), Err(CodecError::InvalidString));
    assert_eq!(reader.pos(), 0);

    let long = "x".repeat(0x10000);
    let mut cursor = Writer::new(vec![]);
    assert_eq!(cursor.write_string(&long), Err(CodecError::OutOfRange));
    assert_eq!(cursor.pos(), 0);
    let longest = "x".repeat(0xffff);
    assert_eq!(cursor.write_string(&longest), Ok(()));
    assert_eq!(cursor.pos(), 0x10001);
}

#[test]
fn addresses_on_the_wire() {
    let v4 = Address::V4 {
        ip: 0xc0a80102,
        port: 0x1234,
    };
    let mut cursor = Writer::new(vec![]);
    cursor.write_address(v4).unwrap();
    let bytes = cursor.get_raw_payload();
    assert_eq!(bytes, vec![4, 0x3f, 0x57, 0xfe, 0xfd, 0x12, 0x34]);
    assert_eq!(Reader::new(&bytes).read_address(), Ok(v4));
    assert!(v4.is_ipv4());
    assert_eq!(v4.port(), 0x1234);

    let v6 = Address::V6 {
        ip: 0xfe80_0000_0000_0000_f9a0_d7cd_26b0_2bc2,
        port: 19132,
    };
    let mut cursor = Writer::new(vec![]);
    cursor.write_address(v6).unwrap();
    let bytes = cursor.get_raw_payload();
    assert_eq!(
        bytes,
        vec![
            6, 23, 0, 0x4a, 0xbc, 0, 0, 0, 0, 0xfe, 0x80, 0, 0, 0, 0, 0, 0, 0xf9, 0xa0, 0xd7,
            0xcd, 0x26, 0xb0, 0x2b, 0xc2, 0, 0, 0, 0,
        ]
    );
    let mut reader = Reader::new(&bytes);
    assert_eq!(reader.read_address(), Ok(v6));
    assert_eq!(reader.pos(), 29);
    assert!(!v6.is_ipv4());
    assert_eq!(v6.port(), 19132);

    let mut reader = Reader::new(&bytes[..20]);
    assert_eq!(reader.read_address(), Err(CodecError::UnexpectedEof));
    assert_eq!(reader.pos(), 0);
    let unknown = [5u8, 1, 2, 3, 4, 5, 6];
    let mut reader = Reader::new(&unknown);
    assert_eq!(
        reader.read_address(),
        Err(CodecError::UnknownAddressVersion(5))
    );
    assert_eq!(reader.pos(), 0);
    let short = [4u8, 1, 2, 3, 4, 5];
    assert_eq!(
        Reader::new(&short).read_address(),
        Err(CodecError::UnexpectedEof)
    );
    assert_eq!(Reader::new(&[]).read_address(), Err(CodecError::UnexpectedEof));
}

#[test]
fn writer_replaces_what_stood_in_its_buffer() {
    let mut cursor = Writer::new(vec![1, 2, 3, 4, 5]);
    cursor.write_u16(0xaabb, Endian::Big).unwrap();
    assert_eq!(cursor.pos(), 2);
    assert_eq!(cursor.write_u24(0x1000000, Endian::Big), Err(CodecError::OutOfRange));
    assert_eq!(cursor.pos(), 2);
    let mut longer = Writer::new(vec![1, 2]);
    longer.write(&[7, 8, 9]).unwrap();
    assert_eq!(longer.get_raw_payload(), vec![7, 8, 9]);
    assert_eq!(cursor.get_raw_payload(), vec![0xaa, 0xbb, 3, 4, 5]);
    let mut cursor = Writer::new(vec![]);
    assert_eq!(cursor.write_magic(), Ok(16));
    assert_eq!(
        cursor.get_raw_payload(),
        vec![
            0x00, 0xff, 0xff, 0x00, 0xfe, 0xfe, 0xfe, 0xfe, 0xfd, 0xfd, 0xfd, 0xfd, 0x12, 0x34,
            0x56, 0x78
        ]
    );
}

#[test]
fn magic_is_checked() {
    let mut bytes = encode(UnconnectedPing::new(5, 6)).unwrap();
    assert_eq!(decode::<UnconnectedPing>(&bytes).unwrap(), UnconnectedPing::new(5, 6));
    bytes[12] ^= 1;
    assert_eq!(decode::<UnconnectedPing>(&bytes).err(), Some(CodecError::BadMagic));
    let mut reader = Reader::new(&bytes[9..]);
    assert_eq!(reader.read_magic(), Ok(false));
    assert_eq!(reader.pos(), 16);
    assert_eq!(decode::<UnconnectedPing>(&[]).err(), Some(CodecError::UnexpectedEof));
    assert_eq!(UnconnectedPing::id(), 0x01);
    assert_eq!(UnconnectedPing::ID, 0x01);
}

#[test]
fn reliability_bytes() {
    let expected = [
        (0u8, false, false, false),
        (1, false, true, true),
        (2, true, false, false),
        (3, true, true, false),
        (4, true, true, true),
        (5, false, false, false),
        (6, true, false, false),
        (7, true, true, false),
    ];
    for (byte, reliable, ordered, sequenced) in expected {
        let mode = Reliability::new(byte).unwrap();
        assert_eq!(mode.to_byte(), byte);
        assert_eq!(mode.reliable(), reliable);
        assert_eq!(mode.sequenced_or_ordered(), ordered);
        assert_eq!(mode.sequenced(), sequenced);
    }
    assert_eq!(Reliability::new(8).err(), Some(CodecError::UnknownReliability(8)));
    assert_eq!(Reliability::new(255).err(), Some(CodecError::UnknownReliability(255)));
}

fn encoded(frame: &Frame) -> Vec<u8> {
    let mut data = Writer::new(vec![]);
    frame.encode(&mut data).unwrap();
    data.get_raw_payload()
}

#[test]
fn frame_length_is_the_length_on_the_wire() {
    for byte in 0..8u8 {
        for split in [false, true] {
            let mut frame = Frame::new(Reliability::new(byte).unwrap(), &[7u8; 33]);
            frame.split = split;
            frame.split_count = 3;
            frame.split_id = 9;
            frame.split_index = 1;
            let bytes = encoded(&frame);
            assert_eq!(frame.length(), bytes.len());
            let mut reader = Reader::new(&bytes);
            let back = Frame::decode(&mut reader).unwrap();
            assert_eq!(reader.pos(), bytes.len() as u64);
            assert_eq!(back.reliability, frame.reliability);
            assert_eq!(back.split, split);
            assert_eq!(back.data, frame.data);
            if split {
                assert_eq!((back.split_count, back.split_id, back.split_index), (3, 9, 1));
            }
        }
    }
    let plain = Frame::new(Reliability::Unreliable, &[0u8; 10]);
    assert_eq!(plain.length(), 13);
    let mut fullest = Frame::new(Reliability::ReliableSequenced, &[0u8; 10]);
    fullest.split = true;
    assert_eq!(fullest.length(), 1 + 2 + 3 + 3 + 4 + 10 + 10);
}

#[test]
fn frame_on_the_wire() {
    let mut frame = Frame::new(Reliability::ReliableOrdered, b"hi");
    frame.message_index = 0x010203;
    frame.order_index = 0x0a0b0c;
    frame.split = true;
    frame.split_count = 2;
    frame.split_id = 0x0304;
    frame.split_index = 1;
    assert_eq!(
        encoded(&frame),
        vec![
            0x70, 0x00, 0x10, 0x03, 0x02, 0x01, 0x0c, 0x0b, 0x0a, 0x00, 0, 0, 0, 2, 3, 4, 0, 0,
            0, 1, b'h', b'i'
        ]
    );
}

#[test]
fn frame_that_does_not_fit_its_fields() {
    let mut writer = Writer::new(vec![]);
    let mut frame = Frame::new(Reliability::Reliable, b"x");
    frame.message_index = 0x1000000;
    assert_eq!(frame.encode(&mut writer), Err(CodecError::OutOfRange));
    // an index that the mode does not write may be anything
    let mut frame = Frame::new(Reliability::Unreliable, b"x");
    frame.message_index = 0x1000000;
    assert_eq!(frame.encode(&mut writer), Ok(()));
    let frame = Frame::new(Reliability::Unreliable, &[0u8; 8192]);
    assert_eq!(frame.encode(&mut writer), Err(CodecError::OutOfRange));
    let frame = Frame::new(Reliability::Unreliable, &[0u8; 8191]);
    assert_eq!(frame.encode(&mut writer), Ok(()));
    assert_eq!(writer.pos(), 4 + 3 + 8191);
    let set = FrameSet {
        header: 0x84,
        sequence_number: 0x1000000,
        datas: vec![],
    };
    assert_eq!(set.encode().err(), Some(CodecError::OutOfRange));
    let set = FrameSet {
        header: 0x84,
        sequence_number: 0xffffff,
        datas: vec![Frame::new(Reliability::Unreliable, &[0u8; 8192])],
    };
    assert_eq!(set.encode().err(), Some(CodecError::OutOfRange));
}

#[test]
fn truncated_datagram_is_an_error() {
    let set = FrameSet {
        header: 0x84,
        sequence_number: 0x030201,
        datas: vec![
            Frame::new(Reliability::Unreliable, b"abc"),
            Frame::new(Reliability::ReliableOrdered, b"defg"),
        ],
    };
    let bytes = set.encode().unwrap();
    assert_eq!(&bytes[..4], &[0x84, 1, 2, 3]);
    let back = FrameSet::decode(&bytes).unwrap();
    assert_eq!(back.sequence_number, 0x030201);
    assert_eq!(back.datas.len(), 2);
    assert_eq!(back.datas[1].data, b"defg".to_vec());
    for end in 0..bytes.len() {
        if end == 4 || end == 10 {
            // the header alone, and the header with the first frame
            assert!(FrameSet::decode(&bytes[..end]).is_ok());
        } else {
            assert_eq!(
                FrameSet::decode(&bytes[..end]).err(),
                Some(CodecError::UnexpectedEof)
            );
        }
    }
    let copy = back.clone();
    assert_eq!(copy.encode().unwrap(), bytes);
}

#[test]
fn acknowledgement_records() {
    let ack = ACK::new((3, 3));
    assert_eq!(ack.records, vec![(3, 3)]);
    assert_eq!(ack.encode().unwrap(), vec![0xc0, 0, 1, 1, 3, 0, 0]);
    assert_eq!(ack.get_all(), vec![3]);
    let ack = ACK::new((0x010203, 0x010205));
    let bytes = ack.encode().unwrap();
    assert_eq!(bytes, vec![0xc0, 0, 1, 0, 3, 2, 1, 5, 2, 1]);
    assert_eq!(ACK::decode(&bytes[1..]).unwrap(), ack);
    assert_eq!(ack.get_all(), vec![0x010203, 0x010204, 0x010205]);
    assert_eq!(ACK::decode(&bytes[1..9]).err(), Some(CodecError::UnexpectedEof));
    assert_eq!(ACK::decode(&bytes[1..5]).err(), Some(CodecError::UnexpectedEof));
    assert_eq!(ACK::decode(&bytes[1..2]).err(), Some(CodecError::UnexpectedEof));
    assert_eq!(ACK::new((0x1000000, 0x1000000)).encode().err(), Some(CodecError::OutOfRange));
    assert_eq!(ACK::new((1, 0x1000000)).encode().err(), Some(CodecError::OutOfRange));
    assert_eq!(Nack::new((5, 2)).get_all(), Vec::<u32>::new());
    assert_eq!(Nack::new((u32::MAX - 1, u32::MAX)).get_all(), vec![u32::MAX - 1, u32::MAX]);
    assert_eq!(encode(Nack::new((13, 13))).unwrap(), vec![0xa0, 0, 1, 1, 13, 0, 0]);
    assert_eq!(Nack::id(), 0xa0);
    assert_eq!(ACK::id(), 0xc0);
}

#[test]
fn acknowledgement_of_several_ranges() {
    let ack = ACK {
        records: vec![(1, 1), (4, 6), (9, 9)],
    };
    let bytes = ack.encode().unwrap();
    assert_eq!(
        bytes,
        vec![0xc0, 0, 3, 1, 1, 0, 0, 0, 4, 0, 0, 6, 0, 0, 1, 9, 0, 0]
    );
    let back = decode::<ACK>(&bytes).unwrap();
    assert_eq!(back, ack);
    assert_eq!(back.clone().get_all(), vec![1, 4, 5, 6, 9]);
    // what stands behind the last record is passed over
    let mut longer = bytes.clone();
    longer.push(0x55);
    assert_eq!(decode::<ACK>(&longer).unwrap(), ack);
    // a count that promises more than there is
    let mut fewer = bytes.clone();
    fewer[2] = 4;
    assert_eq!(decode::<ACK>(&fewer).err(), Some(CodecError::UnexpectedEof));
    let none = ACK { records: vec![] };
    assert_eq!(none.encode().unwrap(), vec![0xc0, 0, 0]);
    assert_eq!(decode::<Nack>(&[0xa0, 0, 0]).unwrap().records, vec![]);
    // a flag that is not zero names one number
    assert_eq!(
        decode::<Nack>(&[0xa0, 0, 1, 7, 2, 0, 0]).unwrap().records,
        vec![(2, 2)]
    );
}

#[test]
fn first_request_tells_the_datagram_size_by_its_own() {
    let bytes = encode(OpenConnectionRequest1::new(10, 46)).unwrap();
    assert_eq!(bytes.len(), 18);
    let bytes = encode(OpenConnectionRequest1::new(10, 1492)).unwrap();
    assert_eq!(bytes.len(), 1492 - 28);
    assert_eq!(
        decode::<OpenConnectionRequest1>(&bytes).unwrap(),
        OpenConnectionRequest1::new(10, 1492)
    );
    assert_eq!(
        encode(OpenConnectionRequest1::new(10, 45)).err(),
        Some(CodecError::OutOfRange)
    );
    let mut huge = bytes.clone();
    huge.resize(0x10000, 0);
    assert_eq!(
        decode::<OpenConnectionRequest1>(&huge).err(),
        Some(CodecError::OutOfRange)
    );
}

#[test]
fn version_six_address_in_a_packet() {
    let request = OpenConnectionRequest2::new(
        Address::V6 {
            ip: 1,
            port: 7,
        },
        1400,
        99,
    );
    let bytes = encode(request).unwrap();
    assert_eq!(bytes.len(), 1 + 16 + 29 + 2 + 8);
    assert_eq!(decode::<OpenConnectionRequest2>(&bytes).unwrap(), request);
}

#[test]
fn probe_and_its_answer() {
    let asked = ping::request();
    assert_eq!(asked.len(), 33);
    assert_eq!(asked[0], 0x01);
    assert_eq!(decode::<UnconnectedPing>(&asked).unwrap(), UnconnectedPing::new(0, 0));
    let pong = encode(UnconnectedPong::new(1, 2, "MCPE;a server;".to_string())).unwrap();
    assert_eq!(ping::answer(&pong), Ok("MCPE;a server;".to_string()));
    assert_eq!(ping::answer(&asked), Ok(String::new()));
    assert_eq!(ping::answer(&[]), Ok(String::new()));
    assert_eq!(ping::answer(&pong[..40]), Err(CodecError::UnexpectedEof));
    let ping = encode(ConnectedPing::new(-1)).unwrap();
    assert_eq!(ping, vec![0, 0xff, 0xff, 0xff, 0xff, 0xff, 0xff, 0xff, 0xff]);
}
