use raknet::error::CodecError;
use raknet::packet::{ACKQueue, SplitPacket, SplitPacketQueue};
use raknet::packetqueue::PacketQueue;
use raknet::packets::frame::Frame;
use raknet::packets::Reliability;
use raknet::recievedqueue::RecievdQueue;

#[test]
fn packet_q() {
    let time = std::time::Instant::now();
    let mut packetq = PacketQueue::new(1500, time.elapsed().as_millis());
    let frame = Frame::new(Reliability::Reliable, &[0u8; 100]);
    packetq.add_frame(frame);
    packetq.get_packet(time.elapsed().as_millis());
}

#[test]
fn ack_queue() {
    let mut y = ACKQueue::new();
    for x in 0..10 {
        y.add(x);
    }
    for x in 11..20 {
        y.add(x);
    }
    //y.add(10);
    let z = y.get_send_able_and_clear();
    println!("{{");
    for a in z {
        println!("  ({},{}),", a.0, a.1);
    }
    println!("}}");
    y.add(10);
    let z = y.get_send_able_and_clear();
    println!("{{");
    for a in z {
        println!("  ({},{}),", a.0, a.1);
    }
    println!("}}");
}

#[test]
fn ack_ranges_coalesce() {
    let mut queue = ACKQueue::new();
    for x in 0..10 {
        queue.add(x);
    }
    for x in 11..20 {
        queue.add(x);
    }
    assert_eq!(queue.get_missing(), vec![10]);
    assert_eq!(queue.get_missing_len(), 1);
    queue.add(10);
    assert_eq!(queue.get_missing(), Vec::<u32>::new());
    assert_eq!(queue.get_send_able_and_clear(), vec![(0, 19)]);
    assert_eq!(queue.get_send_able_and_clear(), vec![]);
}

#[test]
fn ack_ranges_before_the_gap_closes() {
    let mut queue = ACKQueue::new();
    for x in 0..10 {
        queue.add(x);
    }
    for x in 11..20 {
        queue.add(x);
    }
    assert_eq!(queue.get_send_able_and_clear(), vec![(0, 9), (11, 19)]);
    assert_eq!(queue.get_missing(), vec![10]);
}

#[test]
fn ack_received_again_changes_nothing() {
    let mut queue = ACKQueue::new();
    queue.add(3);
    queue.add(4);
    queue.add(5);
    queue.add(4);
    queue.add(3);
    assert_eq!(queue.get_send_able_and_clear(), vec![(3, 5)]);
}

#[test]
fn ack_joins_from_below_and_between() {
    let mut queue = ACKQueue::new();
    queue.add(5);
    queue.add(4);
    queue.add(8);
    assert_eq!(queue.get_missing(), vec![6, 7]);
    queue.add(7);
    queue.add(6);
    assert_eq!(queue.get_missing(), Vec::<u32>::new());
    queue.add(10);
    queue.clean();
    assert_eq!(queue.get_missing(), vec![9]);
    let ranges = queue.get_send_able_and_clear();
    assert_eq!(ranges.len(), 2);
    assert_eq!(ranges[0], (4, 8));
    assert_eq!(ranges[1], (10, 10));
    // what was handed out still counts as arrived
    queue.add(13);
    assert_eq!(queue.get_missing(), vec![9, 11, 12]);
    queue.add(9);
    queue.add(12);
    assert_eq!(queue.get_missing(), vec![11]);
    assert_eq!(queue.get_send_able_and_clear(), vec![(9, 9), (12, 13)]);
}

fn ordered(index: u32, data: &[u8]) -> Frame {
    let mut frame = Frame::new(Reliability::ReliableOrdered, data);
    frame.order_index = index;
    frame
}

#[test]
fn ordering_queue_withholds_until_the_gap_closes() {
    let mut queue = RecievdQueue::new();
    queue.add(ordered(0, b"zero"));
    let out = queue.get_all();
    assert_eq!(out.len(), 1);
    assert_eq!(out[0].data, b"zero".to_vec());
    queue.add(ordered(1, b"one"));
    let out = queue.get_all();
    assert_eq!(out.len(), 1);
    assert_eq!(out[0].data, b"one".to_vec());
    queue.add(ordered(3, b"three"));
    assert_eq!(queue.get_all().len(), 0);
    queue.add(ordered(2, b"two"));
    let out = queue.get_all();
    assert_eq!(out.len(), 2);
    assert_eq!(out[0].order_index, 2);
    assert_eq!(out[0].data, b"two".to_vec());
    assert_eq!(out[1].order_index, 3);
    assert_eq!(out[1].data, b"three".to_vec());
    assert_eq!(queue.get_all().len(), 0);
}

#[test]
fn ordering_queue_drops_what_was_handed_on() {
    let mut queue = RecievdQueue::new();
    queue.add(ordered(0, b"first"));
    queue.add(ordered(0, b"again"));
    let out = queue.get_all();
    assert_eq!(out.len(), 1);
    assert_eq!(out[0].data, b"first".to_vec());
    queue.add(ordered(0, b"late"));
    assert_eq!(queue.get_all().len(), 0);
    queue.add(ordered(u32::MAX, b"last"));
    assert_eq!(queue.get_all().len(), 0);
}

fn piece(id: u16, count: u32, index: u32, order: u32, data: &[u8]) -> Frame {
    let mut frame = Frame::new(Reliability::ReliableOrdered, data);
    frame.split = true;
    frame.split_id = id;
    frame.split_count = count;
    frame.split_index = index;
    frame.order_index = order;
    frame
}

#[test]
fn split_message_is_put_together_once() {
    let mut pool = SplitPacketQueue::new();
    pool.add(&piece(7, 3, 2, 4, b"gh"));
    assert_eq!(pool.get_and_clear().len(), 0);
    pool.add(&piece(7, 3, 0, 4, b"abc"));
    assert_eq!(pool.get_and_clear().len(), 0);
    pool.add(&piece(7, 3, 1, 4, b"def"));
    let mut full = pool.get_and_clear();
    assert_eq!(full.len(), 1);
    assert!(full[0].is_full());
    assert_eq!(full[0].get_all(), b"abcdefgh".to_vec());
    let frame = full[0].get_frame().unwrap();
    assert_eq!(frame.data, b"abcdefgh".to_vec());
    assert_eq!(frame.order_index, 4);
    assert!(!frame.split);
    assert_eq!(frame.reliability, Reliability::ReliableOrdered);
    // the pool has forgotten the message
    assert_eq!(pool.get_and_clear().len(), 0);
    pool.add(&piece(7, 3, 1, 4, b"def"));
    assert_eq!(pool.get_and_clear().len(), 0);
}

#[test]
fn split_piece_outside_the_message_is_dropped() {
    let mut message = SplitPacket::new(2, 0, 0, Reliability::Reliable);
    message.add(2, b"x");
    message.add(5, b"y");
    assert!(!message.is_full());
    assert_eq!(message.get_frame().err(), Some(CodecError::MissingFragment));
    message.add(1, b"b");
    message.add(1, b"B");
    assert!(!message.is_full());
    message.add(0, b"a");
    assert!(message.is_full());
    assert_eq!(message.get_all(), b"aB".to_vec());
    let empty = SplitPacket::new(0, 0, 0, Reliability::Reliable);
    assert!(!empty.is_full());
}

#[test]
fn split_messages_leave_in_the_order_they_were_opened() {
    let mut pool = SplitPacketQueue::new();
    pool.add(&piece(9, 2, 0, 0, b"n"));
    pool.add(&piece(3, 2, 0, 1, b"t"));
    pool.add(&piece(3, 2, 1, 1, b"hree"));
    pool.add(&piece(9, 2, 1, 0, b"ine"));
    let mut full = pool.get_and_clear();
    assert_eq!(full.len(), 2);
    assert_eq!(full[0].get_all(), b"nine".to_vec());
    assert_eq!(full[1].get_all(), b"three".to_vec());
}

#[test]
fn split_message_through_the_ordering_queue() {
    let mut queue = RecievdQueue::new();
    queue.add(piece(1, 3, 2, 0, b"!"));
    queue.add(piece(1, 3, 0, 0, b"hello "));
    assert_eq!(queue.get_all().len(), 0);
    queue.add(piece(1, 3, 1, 0, b"world"));
    let out = queue.get_all();
    assert_eq!(out.len(), 1);
    assert_eq!(out[0].data, b"hello world!".to_vec());
    assert_eq!(queue.get_all().len(), 0);
}

#[test]
fn frames_are_gathered_until_the_datagram_is_full() {
    let mut queue = PacketQueue::new(200, 0);
    // 1 + 2 + 3 + 100 = 106 bytes, and 106 + 42 < 200
    queue.add_frame(Frame::new(Reliability::Reliable, &[1u8; 100]));
    assert_eq!(queue.len(), 0);
    // a second frame would make 212 bytes: the first becomes a datagram at
    // once, and the second the next
    queue.add_frame(Frame::new(Reliability::Reliable, &[2u8; 100]));
    assert_eq!(queue.len(), 2);
    assert_eq!(queue.max(), 2);
    // 1 + 2 + 3 + 51 = 57 bytes, and 57 + 42 < 200
    queue.add_frame(Frame::new(Reliability::Reliable, &[3u8; 51]));
    assert_eq!(queue.len(), 2);
    let sent = queue.get_packet(0);
    assert_eq!(sent.len(), 3);
    assert_eq!(sent[0].sequence_number, 0);
    assert_eq!(sent[0].header, 0x84);
    assert_eq!(sent[0].datas.len(), 1);
    assert_eq!(sent[0].datas[0].data, vec![1u8; 100]);
    assert_eq!(sent[1].sequence_number, 1);
    assert_eq!(sent[1].datas[0].data, vec![2u8; 100]);
    assert_eq!(sent[2].sequence_number, 2);
    assert_eq!(sent[2].datas[0].data, vec![3u8; 51]);
    assert_eq!(queue.get_packet(1).len(), 0);
}

#[test]
fn small_frames_share_a_datagram() {
    let mut queue = PacketQueue::new(1500, 0);
    queue.add_frame(Frame::new(Reliability::Reliable, b"a"));
    queue.add_frame(Frame::new(Reliability::Reliable, b"b"));
    queue.add_frame(Frame::new(Reliability::Unreliable, b"c"));
    let sent = queue.get_packet(0);
    assert_eq!(sent.len(), 1);
    assert_eq!(sent[0].datas.len(), 3);
    assert_eq!(sent[0].datas[2].data, b"c".to_vec());
}

#[test]
fn split_piece_is_sent_alone() {
    let mut queue = PacketQueue::new(1500, 0);
    queue.add_frame(Frame::new(Reliability::Reliable, b"before"));
    queue.add_frame(piece(1, 2, 0, 0, b"a"));
    queue.add_frame(piece(1, 2, 1, 0, b"b"));
    let sent = queue.get_packet(0);
    assert_eq!(sent.len(), 3);
    assert_eq!(sent[0].header, 0x84);
    assert_eq!(sent[0].datas[0].data, b"before".to_vec());
    assert_eq!(sent[1].header, 0x8c);
    assert_eq!(sent[1].datas.len(), 1);
    assert_eq!(sent[2].header, 0x8c);
}

#[test]
fn frame_at_the_edge_of_the_datagram() {
    // 3 + 154 + 42 = 199 < 200: the frame waits for company
    let mut queue = PacketQueue::new(200, 0);
    queue.add_frame(Frame::new(Reliability::Unreliable, &[0u8; 154]));
    assert_eq!(queue.len(), 0);
    // 3 + 155 + 42 = 200: the frame goes out at once
    let mut queue = PacketQueue::new(200, 0);
    queue.add_frame(Frame::new(Reliability::Unreliable, &[0u8; 155]));
    assert_eq!(queue.len(), 1);
    // a datagram size below what the protocols take leaves room for nothing
    let mut queue = PacketQueue::new(10, 0);
    queue.add_frame(Frame::new(Reliability::Unreliable, &[]));
    assert_eq!(queue.len(), 1);
}

#[test]
fn unacknowledged_datagram_is_sent_once_more_under_a_new_number() {
    let mut queue = PacketQueue::new(1500, 0);
    queue.add_frame(Frame::new(Reliability::Reliable, b"payload"));
    let first = queue.get_packet(0);
    assert_eq!(first.len(), 1);
    assert_eq!(first[0].sequence_number, 0);
    // inside the resend interval nothing is sent again
    assert_eq!(queue.get_packet(500).len(), 0);
    assert_eq!(queue.get_packet(1000).len(), 0);
    // past it, the datagram goes out once, under the next number
    let again = queue.get_packet(1001);
    assert_eq!(again.len(), 1);
    assert_eq!(again[0].sequence_number, 1);
    assert_eq!(again[0].datas[0].data, b"payload".to_vec());
    assert_eq!(queue.get_packet(1002).len(), 0);
    assert_eq!(queue.len(), 1);
    // an acknowledgement of the old number is of no use
    queue.received(0);
    assert_eq!(queue.len(), 1);
    // one of the current number ends it
    queue.received(1);
    assert_eq!(queue.len(), 0);
    assert_eq!(queue.get_packet(5000).len(), 0);
    assert_eq!(queue.get_packet(50000).len(), 0);
    assert_eq!(queue.max(), 2);
}

#[test]
fn negative_acknowledgement_queues_again_at_once() {
    let mut queue = PacketQueue::new(1500, 0);
    queue.add_frame(Frame::new(Reliability::Reliable, b"one"));
    queue.get_packet(0);
    queue.add_frame(Frame::new(Reliability::Reliable, b"two"));
    queue.get_packet(1);
    queue.resend(0);
    // unknown numbers change nothing
    queue.resend(40);
    queue.received(40);
    let again = queue.get_packet(2);
    assert_eq!(again.len(), 1);
    assert_eq!(again[0].sequence_number, 2);
    assert_eq!(again[0].datas[0].data, b"one".to_vec());
    assert_eq!(queue.len(), 2);
}

#[test]
fn datagram_with_another_number_is_dropped() {
    let mut queue = PacketQueue::new(1500, 0);
    let frame = Frame::new(Reliability::Reliable, b"x");
    queue.add(raknet::packets::frame_set::FrameSet {
        header: 0x84,
        sequence_number: 5,
        datas: vec![frame],
    });
    assert_eq!(queue.len(), 0);
    assert_eq!(queue.max(), 0);
}

#[test]
fn clock_of_the_queue_does_not_run_backwards() {
    let mut queue = PacketQueue::new(1500, 100);
    queue.add_frame(Frame::new(Reliability::Reliable, b"x"));
    assert_eq!(queue.get_packet(50).len(), 1);
    // sent at 100, not at 50
    assert_eq!(queue.get_packet(1100).len(), 0);
    assert_eq!(queue.get_packet(1101).len(), 1);
}
