use sftp::channel::{
    AcceptStage, AcceptTurn, Channel, Frame, OpenStage, OpenTurn, CHANNEL_CLOSE, CHANNEL_DATA,
    CHANNEL_EOF, CHANNEL_SUCCESS, CHANNEL_WINDOW_ADJUST,
};
use sftp::cipher::{plain, suite};
use sftp::error::Error;
use sftp::names::NameMap;
use sftp::packet::{insist, Conn};
use sftp::text::{decimal, utf8_text};
use sftp::wire::{length, read_be32, same_bytes, Reader, Writer};

#[test]
fn the_wire_types_have_their_layout_and_read_back() {
    let mut writer = Writer::new();
    writer.byte(7).bool(true).bool(false).u32(0x0102_0304).u64(0x0102_0304_0506_0708).string(b"ab");
    writer.mpint(&[0, 0x80]);
    let bytes = writer.finish();
    assert_eq!(
        bytes,
        [
            7, 1, 0, 1, 2, 3, 4, 1, 2, 3, 4, 5, 6, 7, 8, 0, 0, 0, 2, b'a', b'b', 0, 0, 0, 2, 0, 0x80
        ]
    );
    let mut reader = Reader::new(&bytes);
    assert_eq!(reader.byte(), Ok(7));
    assert_eq!(reader.bool(), Ok(true));
    assert_eq!(reader.bool(), Ok(false));
    assert_eq!(reader.u32(), Ok(0x0102_0304));
    assert_eq!(reader.u64(), Ok(0x0102_0304_0506_0708));
    assert_eq!(reader.string(), Ok(&b"ab"[..]));
    assert_eq!(reader.string(), Ok(&[0u8, 0x80][..]));
    assert_eq!(reader.u32(), Err(Error::Truncated));
    assert_eq!(Reader::new(&[0, 0, 0, 2, 1]).string(), Err(Error::Truncated));
    assert_eq!(Reader::new(&[9]).bool(), Ok(true));
    assert_eq!(Reader::new(&[0; 7]).u64(), Err(Error::Truncated));
    assert_eq!(read_be32(&[1, 0, 0, 2]), 0x0100_0002);
    assert_eq!(length(3), 3);
    assert!(same_bytes(b"ab", b"ab"));
    assert!(!same_bytes(b"ab", b"ac"));
    assert!(!same_bytes(b"ab", b"abc"));
}

#[test]
fn numbers_and_text_are_written_as_they_read() {
    assert_eq!(decimal(0), "0");
    assert_eq!(decimal(1_234_567_890), "1234567890");
    assert_eq!(decimal(u64::MAX), "18446744073709551615");
    assert_eq!(utf8_text("h\u{e9}".as_bytes()), Some("h\u{e9}".to_string()));
    assert_eq!(utf8_text(&[0xc3]), None);
}

#[test]
fn names_are_held_in_their_order() {
    let mut map: NameMap<Vec<u8>> = NameMap::new();
    assert!(map.is_empty());
    for name in ["b", "a", "\u{e9}", "B", "ab"] {
        map.insert(name.to_string(), name.as_bytes().to_vec());
    }
    map.insert("a".to_string(), b"again".to_vec());
    assert_eq!(map.keys(), vec!["B", "a", "ab", "b", "\u{e9}"]);
    assert_eq!(map.get("a").expect("held"), b"again");
    assert_eq!(map.first().expect("first").0, "B");
    assert_eq!(map.remove("B"), Some(b"B".to_vec()));
    assert_eq!(map.remove("B"), None);
    assert!(!map.contains_key("B"));
    assert_eq!(map.first().expect("first").0, "a");
}

#[test]
fn an_identification_is_found_behind_other_lines() {
    let mut conn = Conn::new();
    conn.receive(b"welcome\r\nto this ho");
    assert_eq!(conn.banner(false), Ok(None));
    conn.receive(b"st\r\nSSH-2.0-there\r\nrest");
    assert_eq!(conn.banner(false), Ok(Some("SSH-2.0-there".to_string())));
    assert_eq!(Conn::greeting("SSH-2.0-x"), b"SSH-2.0-x\r\n");
    let mut conn = Conn::new();
    conn.receive(b"SSH-2.0-cut");
    assert_eq!(conn.banner(false), Ok(None));
    assert_eq!(conn.banner(true), Ok(Some("SSH-2.0-cut".to_string())));
}

#[test]
fn a_peer_that_does_not_identify_itself_is_refused() {
    let mut conn = Conn::new();
    conn.receive(b"no\n");
    assert_eq!(conn.banner(true), Err(Error::NoIdentification));
    let mut conn = Conn::new();
    for _ in 0..64 {
        conn.receive(b"line\n");
    }
    conn.receive(b"SSH-2.0-late\n");
    assert_eq!(conn.banner(false), Err(Error::NoIdentification));
    let mut conn = Conn::new();
    conn.receive(b"SSH-\xff\n");
    assert_eq!(conn.banner(false), Err(Error::IdentificationNotUtf8));
}

#[test]
fn messages_cross_a_line_and_are_insisted_on() {
    let (mut here, mut there) = (Conn::new(), Conn::new());
    let mut wire = here.send(&[5, 1]).expect("send");
    wire.extend_from_slice(&here.send(&[6, 2]).expect("send"));
    there.receive(&wire[..3]);
    assert_eq!(there.recv(), Ok(None));
    there.receive(&wire[3..]);
    assert_eq!(there.recv(), Ok(Some(vec![5, 1])));
    assert_eq!(
        there.expect(7, "seven"),
        Err(Error::Unexpected {
            what: "seven",
            expected: 7,
            number: 6
        })
    );
    assert_eq!(there.expect(7, "seven"), Ok(None));
    assert_eq!(insist(&[], 7, "seven"), Err(Error::Empty { what: "seven" }));
    assert_eq!(insist(&[7], 7, "seven"), Ok(()));
}

fn opened() -> (Channel, Channel) {
    let (stage, confirmation) =
        match Channel::accept(AcceptStage::Listening, &Channel::ask()).expect("accept") {
            AcceptTurn::Send { stage, message } => (stage, message),
            AcceptTurn::Open { .. } => panic!("a confirmation was due"),
        };
    let (near, request) = match Channel::open(OpenStage::Asked, &confirmation).expect("open") {
        OpenTurn::Send { stage, message } => (stage, message),
        OpenTurn::Open(_) => panic!("a request was due"),
    };
    let (far, success) = match Channel::accept(stage, &request).expect("accept") {
        AcceptTurn::Open { channel, message } => (channel, message),
        AcceptTurn::Send { .. } => panic!("a channel was due"),
    };
    assert_eq!(success[0], CHANNEL_SUCCESS);
    match Channel::open(near, &success).expect("open") {
        OpenTurn::Open(near) => (near, far),
        OpenTurn::Send { .. } => panic!("a channel was due"),
    }
}

#[test]
fn a_channel_is_opened_and_carries_a_stream_in_messages() {
    let (near, mut far) = opened();
    let bytes: Vec<u8> = (0..70_000u32).map(|i| i as u8).collect();
    let sent = near.write(&bytes);
    assert_eq!(sent.len(), 3);
    assert_eq!(sent[0].len(), 9 + 32_768);
    assert_eq!(sent[2].len(), 9 + 70_000 - 2 * 32_768);
    assert_eq!(far.read_exact(70_000, true), Ok(None));
    for message in &sent {
        assert_eq!(far.pump(message), Ok(true));
    }
    assert_eq!(far.read_exact(70_000, true), Ok(Some(bytes)));
    assert!(near.write(&[]).is_empty());
    assert_eq!(far.pump(&[CHANNEL_WINDOW_ADJUST]), Ok(true));
    assert_eq!(far.read_exact(1, true), Ok(None));
    assert_eq!(far.pump(&[CHANNEL_EOF, 0, 0, 0, 0]), Ok(false));
    assert_eq!(far.read_exact(1, false), Err(Error::ChannelEnded));
    assert_eq!(far.read_exact(0, false), Ok(Some(Vec::new())));
}

#[test]
fn a_frame_is_read_whole_and_the_end_is_told_apart_from_a_cut() {
    let (near, mut far) = opened();
    for message in near.write(&[0, 0, 0, 2, 7, 8, 0, 0, 0, 9]) {
        far.pump(&message).expect("pump");
    }
    assert!(matches!(far.read_frame(true), Ok(Frame::Whole(body)) if body == [7, 8]));
    assert!(matches!(far.read_frame(true), Ok(Frame::Wait)));
    let more = far.pump(&[CHANNEL_CLOSE, 0, 0, 0, 0]).expect("pump");
    assert!(more, "there is something left to read");
    assert!(matches!(far.read_frame(more), Err(Error::ChannelEnded)));
    let (near, mut far) = opened();
    assert!(matches!(far.read_frame(true), Ok(Frame::Wait)));
    assert!(!far.done());
    for message in near.close() {
        assert_eq!(far.pump(&message), Ok(false));
    }
    assert!(far.done());
    assert!(matches!(far.read_frame(true), Ok(Frame::End)));
    let sent = near.close();
    assert_eq!(sent[0][0], CHANNEL_EOF);
    assert_eq!(sent[1][0], CHANNEL_CLOSE);
}

/// A channel whose far end advertised what `sizes` says: the window, then the packet size.
fn opened_with(sizes: &[u32]) -> Channel {
    let mut confirmation = Writer::new();
    confirmation.byte(91).u32(0).u32(7);
    for size in sizes {
        confirmation.u32(*size);
    }
    let stage = match Channel::open(OpenStage::Asked, &confirmation.finish()).expect("open") {
        OpenTurn::Send { stage, .. } => stage,
        OpenTurn::Open(_) => panic!("a request was due"),
    };
    match Channel::open(stage, &[CHANNEL_SUCCESS, 0, 0, 0, 0]).expect("open") {
        OpenTurn::Open(channel) => channel,
        OpenTurn::Send { .. } => panic!("a channel was due"),
    }
}

/// The channel of a far end to which the client advertised what `sizes` says.
fn accepted_with(sizes: &[u32]) -> Channel {
    let mut open = Writer::new();
    open.byte(90).string(b"session").u32(7);
    for size in sizes {
        open.u32(*size);
    }
    let stage = match Channel::accept(AcceptStage::Listening, &open.finish()).expect("accept") {
        AcceptTurn::Send { stage, .. } => stage,
        AcceptTurn::Open { .. } => panic!("a confirmation was due"),
    };
    let mut request = Writer::new();
    request.byte(98).u32(0).string(b"subsystem").bool(true).string(b"sftp");
    match Channel::accept(stage, &request.finish()).expect("accept") {
        AcceptTurn::Open { channel, .. } => channel,
        AcceptTurn::Send { .. } => panic!("a channel was due"),
    }
}

#[test]
fn the_packet_size_that_the_peer_advertised_is_kept_to() {
    for channel in [opened_with(&[100, 3]), accepted_with(&[100, 3])] {
        assert_eq!(
            channel.write(b"abcdefgh"),
            [
                vec![CHANNEL_DATA, 0, 0, 0, 7, 0, 0, 0, 3, b'a', b'b', b'c'],
                vec![CHANNEL_DATA, 0, 0, 0, 7, 0, 0, 0, 3, b'd', b'e', b'f'],
                vec![CHANNEL_DATA, 0, 0, 0, 7, 0, 0, 0, 2, b'g', b'h'],
            ]
        );
        assert_eq!(channel.write(b"abc").len(), 1);
        assert!(channel.write(b"").is_empty());
    }
    assert_eq!(opened_with(&[0, 1]).write(&[5; 40]).len(), 40);
}

#[test]
fn a_packet_size_that_is_not_told_or_too_large_is_the_largest_that_is_sent() {
    let bytes = vec![1u8; 32_769];
    for sizes in [&[][..], &[100], &[100, 0], &[100, 32_768], &[100, 32_769], &[100, u32::MAX]] {
        for channel in [opened_with(sizes), accepted_with(sizes)] {
            let sent = channel.write(&bytes);
            assert_eq!(sent.len(), 2, "{sizes:?}");
            assert_eq!(sent[0].len(), 9 + 32_768);
            assert_eq!(sent[1].len(), 9 + 1);
        }
    }
    assert_eq!(opened_with(&[100, 32_767]).write(&bytes)[0].len(), 9 + 32_767);
}

#[test]
fn a_close_inside_a_read_is_an_error_whatever_follows() {
    let (near, mut far) = opened();
    assert_eq!(far.pump(&near.write(b"ab")[0]), Ok(true));
    let more = far.pump(&near.close()[1]).expect("pump");
    assert_eq!(far.read_exact(4, more), Err(Error::ChannelEnded));
    assert_eq!(far.pump(&near.write(b"cd")[0]), Ok(true));
    assert_eq!(far.read_exact(4, true), Err(Error::ChannelEnded));
    assert_eq!(far.read_exact(2, true), Ok(Some(b"ab".to_vec())));
    assert_eq!(far.pump(&near.write(b"ef")[0]), Ok(false));
    assert!(matches!(far.read_frame(true), Ok(Frame::End)));
}

#[test]
fn frames_read_back_over_any_cut_and_an_end_inside_one_is_an_error() {
    let frames: [&[u8]; 4] = [b"one", b"", b"three", b"x"];
    let mut stream = Vec::new();
    for body in frames {
        stream.extend_from_slice(&(body.len() as u32).to_be_bytes());
        stream.extend_from_slice(body);
    }
    for size in 1..=stream.len() {
        for end in 0..=stream.len() {
            let (near, mut far) = opened();
            let mut read = Vec::new();
            let mut last = Ok(Frame::Wait);
            let mut arrived = Vec::new();
            for chunk in stream[..end].chunks(size) {
                arrived.extend(near.write(chunk));
                arrived.push(vec![CHANNEL_WINDOW_ADJUST, 0, 0, 0, 0, 0, 0, 0, 9]);
            }
            arrived.extend(near.close());
            for message in &arrived {
                let more = far.pump(message).expect("pump");
                loop {
                    match far.read_frame(more) {
                        Ok(Frame::Whole(body)) => read.push(body),
                        other => {
                            last = other;
                            break;
                        }
                    }
                }
            }
            let mut whole = 0;
            let mut at = 0;
            while whole < frames.len() && at + 4 + frames[whole].len() <= end {
                at += 4 + frames[whole].len();
                whole += 1;
            }
            assert_eq!(read, &frames[..whole], "cut to {size}, ended at {end}");
            if at == end {
                assert!(matches!(last, Ok(Frame::End)));
                assert!(matches!(far.read_frame(true), Ok(Frame::End)));
            } else {
                assert!(matches!(last, Err(Error::ChannelEnded)));
                assert!(matches!(far.read_frame(true), Err(Error::ChannelEnded)));
            }
        }
    }
}

#[test]
fn a_message_goes_out_under_the_padding_it_is_given() {
    let (mut here, mut there) = (Conn::new(), Conn::new());
    let wire = here.send_with(&[5, 1], &[9; 9]).expect("send");
    assert_eq!(wire, [0, 0, 0, 12, 9, 5, 1, 9, 9, 9, 9, 9, 9, 9, 9, 9]);
    there.receive(&wire);
    assert_eq!(there.recv(), Ok(Some(vec![5, 1])));
    here.rekey(suite(b"k", b"h", b"s", true).expect("suite"), plain());
    let mut sealer = suite(b"k", b"h", b"s", true).expect("suite");
    for seq in [1u32, 2] {
        assert_eq!(here.send_with(b"hello", &[7; 6]), sealer.seal_with(seq, b"hello", &[7; 6]));
    }
}

#[test]
fn a_rekeying_keeps_the_sequence_numbers() {
    let (mut here, mut there) = (Conn::new(), Conn::new());
    for number in [1u8, 2] {
        there.receive(&here.send(&[number]).expect("send"));
        assert_eq!(there.recv(), Ok(Some(vec![number])));
    }
    here.rekey(suite(b"k", b"h", b"s", true).expect("suite"), plain());
    there.rekey(plain(), suite(b"k", b"h", b"s", true).expect("suite"));
    let wire = here.send(b"under the keys").expect("send");
    let mut opener = suite(b"k", b"h", b"s", true).expect("suite");
    assert_eq!(opener.open(0, &mut wire.clone()), Err(Error::MacMismatch));
    let mut opener = suite(b"k", b"h", b"s", true).expect("suite");
    assert_eq!(opener.open(2, &mut wire.clone()), Ok(Some(b"under the keys".to_vec())));
    there.receive(&wire);
    assert_eq!(there.recv(), Ok(Some(b"under the keys".to_vec())));
    here.rekey(plain(), plain());
    there.rekey(plain(), plain());
    there.receive(&here.send(b"in the clear").expect("send"));
    assert_eq!(there.recv(), Ok(Some(b"in the clear".to_vec())));
}

#[test]
fn what_has_no_place_on_a_channel_is_refused() {
    let (_, mut far) = opened();
    assert_eq!(far.pump(&[]), Err(Error::ChannelMessage(None)));
    assert_eq!(far.pump(&[5]), Err(Error::ChannelMessage(Some(5))));
    assert_eq!(far.pump(&[CHANNEL_DATA, 0]), Err(Error::Truncated));
    let mut open = Writer::new();
    open.byte(90).string(b"x11").u32(0).u32(0).u32(0);
    let turn = Channel::accept(AcceptStage::Listening, &open.finish());
    assert_eq!(turn.err(), Some(Error::NotSession));
    let mut request = Writer::new();
    request.byte(98).u32(0).string(b"shell").bool(true);
    let stage = AcceptStage::Confirmed { remote_id: 0, largest: 32_768 };
    assert_eq!(Channel::accept(stage, &request.finish()).err(), Some(Error::NotSubsystem));
    let mut request = Writer::new();
    request.byte(98).u32(0).string(b"subsystem").bool(true).string(b"other");
    let stage = AcceptStage::Confirmed { remote_id: 0, largest: 32_768 };
    assert_eq!(Channel::accept(stage, &request.finish()).err(), Some(Error::NotSftp));
}

#[test]
fn errors_are_reported_in_words() {
    assert_eq!(
        Error::Unexpected { what: "a thing", expected: 3, number: 44 }.message(),
        "expected a thing (3), and the peer sent message 44"
    );
    assert_eq!(Error::Empty { what: "a thing" }.message(), "an empty message where a thing was due");
    assert_eq!(
        Error::PacketLength(300_000).message(),
        "a binary packet of 300000 bytes, outside what is carried"
    );
    assert_eq!(
        Error::ChannelMessage(Some(5)).message(),
        "an unexpected message Some(5) on the channel"
    );
    assert_eq!(
        Error::ChannelMessage(None).message(),
        "an unexpected message None on the channel"
    );
    assert_eq!(
        Error::NoStatus { what: "the write" }.message(),
        "a reply where a status for the write was due"
    );
    assert_eq!(Error::RequestType(200).message(), "an SFTP request of type 200");
    assert_eq!(
        Error::MacMismatch.message(),
        "a packet whose message authentication code did not agree"
    );
}
