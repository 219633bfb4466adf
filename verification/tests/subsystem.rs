use sftp::channel::{Channel, OpenStage, OpenTurn};
use sftp::error::Error;
use sftp::subsystem::{
    code, entries, frame, status_error, utf8, Outcome, Sftp, Task, Turn, CHUNK, CLOSE, DATA, EOF,
    FAILURE, HANDLE, NAME, NO_SUCH_FILE, OK, OPEN, OPENDIR, READ, READDIR, REMOVE, STATUS, VERSION,
    WRITE,
};
use sftp::wire::Writer;

#[test]
fn a_framed_packet_carries_its_type_and_body_length() {
    let framed = frame(OPEN, b"abcd");
    assert_eq!(&framed[..4], &5u32.to_be_bytes());
    assert_eq!(framed[4], OPEN);
    assert_eq!(&framed[5..], b"abcd");
}

#[test]
fn a_status_code_and_a_name_list_read_back_off_their_bodies() {
    let mut status = Writer::new();
    status.u32(7).u32(EOF).string(b"done").string(b"");
    assert_eq!(code(&status.finish()).expect("code"), EOF);
    let mut name = Writer::new();
    name.u32(1).u32(2);
    for entry in ["one", "two"] {
        name.string(entry.as_bytes())
            .string(entry.as_bytes())
            .u32(0);
    }
    assert_eq!(entries(&name.finish()).expect("names"), vec!["one", "two"]);
}

#[test]
fn a_name_that_is_not_utf8_is_refused() {
    assert!(utf8(&[0xff, 0xfe]).is_err());
    assert_eq!(utf8(b"probe.bin").expect("utf8"), "probe.bin");
}

fn status_body(code: u32) -> Vec<u8> {
    let mut body = Writer::new();
    body.u32(9).u32(code).string(b"why").string(b"");
    body.finish()
}

fn string_body(bytes: &[u8]) -> Vec<u8> {
    let mut body = Writer::new();
    body.u32(9).string(bytes);
    body.finish()
}

fn ask(turn: Result<Turn, Error>) -> (Task, Vec<u8>) {
    match turn {
        Ok(Turn::Request { task, packet }) => (task, packet),
        Ok(Turn::Done(_)) => panic!("a request was due"),
        Err(error) => panic!("{}", error.message()),
    }
}

fn done(turn: Result<Turn, Error>) -> Outcome {
    match turn {
        Ok(Turn::Done(outcome)) => outcome,
        Ok(Turn::Request { .. }) => panic!("the end was due"),
        Err(error) => panic!("{}", error.message()),
    }
}

fn failed(turn: Result<Turn, Error>) -> Error {
    match turn {
        Err(error) => error,
        Ok(_) => panic!("an error was due"),
    }
}

#[test]
fn the_subsystem_starts_with_its_version() {
    let (mut sftp, task, packet) = Sftp::start();
    assert_eq!(packet, frame(1, &[0, 0, 0, 3]));
    assert!(matches!(done(sftp.reply(task, VERSION, &[0, 0, 0, 3])), Outcome::Started));
    let (mut sftp, task, _) = Sftp::start();
    assert_eq!(failed(sftp.reply(task, VERSION, &[0, 0, 0, 2])), Error::SftpVersion);
    let (mut sftp, task, _) = Sftp::start();
    assert_eq!(failed(sftp.reply(task, STATUS, &[0, 0, 0, 3])), Error::SftpVersion);
    let (mut sftp, task, _) = Sftp::start();
    assert_eq!(failed(sftp.reply(task, VERSION, &[0])), Error::Truncated);
}

#[test]
fn a_put_opens_writes_in_chunks_and_closes() {
    let (mut sftp, _, _) = Sftp::start();
    let bytes = vec![5u8; CHUNK + 1];
    let (task, packet) = sftp.put("f", &bytes);
    let mut open = Writer::new();
    open.u32(1).string(b"f").u32(0x1a).u32(0);
    assert_eq!(packet, frame(OPEN, &open.finish()));
    let (task, packet) = ask(sftp.reply(task, HANDLE, &string_body(b"h0")));
    let mut first = Writer::new();
    first.u32(2).string(b"h0").u64(0).string(&bytes[..CHUNK]);
    assert_eq!(packet, frame(WRITE, &first.finish()));
    let (task, packet) = ask(sftp.reply(task, STATUS, &status_body(OK)));
    let mut second = Writer::new();
    second.u32(3).string(b"h0").u64(CHUNK as u64).string(&[5]);
    assert_eq!(packet, frame(WRITE, &second.finish()));
    let (task, packet) = ask(sftp.reply(task, STATUS, &status_body(OK)));
    let mut close = Writer::new();
    close.u32(4).string(b"h0");
    assert_eq!(packet, frame(CLOSE, &close.finish()));
    assert!(matches!(done(sftp.reply(task, STATUS, &status_body(OK))), Outcome::Put));
}

#[test]
fn an_empty_put_writes_once() {
    let (mut sftp, _, _) = Sftp::start();
    let (task, _) = sftp.put("f", b"");
    let (task, packet) = ask(sftp.reply(task, HANDLE, &string_body(b"h0")));
    let mut write = Writer::new();
    write.u32(2).string(b"h0").u64(0).string(b"");
    assert_eq!(packet, frame(WRITE, &write.finish()));
    let (_, packet) = ask(sftp.reply(task, STATUS, &status_body(OK)));
    assert_eq!(packet[4], CLOSE);
}

#[test]
fn a_get_reads_until_the_end_of_the_file() {
    let (mut sftp, _, _) = Sftp::start();
    let (task, packet) = sftp.get("f");
    assert_eq!(packet[4], OPEN);
    let (task, packet) = ask(sftp.reply(task, HANDLE, &string_body(b"h0")));
    let mut read = Writer::new();
    read.u32(2).string(b"h0").u64(0).u32(CHUNK as u32);
    assert_eq!(packet, frame(READ, &read.finish()));
    let (task, packet) = ask(sftp.reply(task, DATA, &string_body(b"abc")));
    let mut read = Writer::new();
    read.u32(3).string(b"h0").u64(3).u32(CHUNK as u32);
    assert_eq!(packet, frame(READ, &read.finish()));
    let (task, _) = ask(sftp.reply(task, STATUS, &status_body(EOF)));
    match done(sftp.reply(task, STATUS, &status_body(OK))) {
        Outcome::Got(bytes) => assert_eq!(bytes, b"abc"),
        _ => panic!("bytes were due"),
    }
}

#[test]
fn a_list_leaves_the_dots_out() {
    let (mut sftp, _, _) = Sftp::start();
    let (task, packet) = sftp.list();
    assert_eq!(packet[4], OPENDIR);
    let (task, packet) = ask(sftp.reply(task, HANDLE, &string_body(b"d0")));
    assert_eq!(packet[4], READDIR);
    let mut names = Writer::new();
    names.u32(1).u32(4);
    for entry in [".", "a", "..", "b"] {
        names.string(entry.as_bytes()).string(b"long").u32(0);
    }
    let (task, _) = ask(sftp.reply(task, NAME, &names.finish()));
    let (task, _) = ask(sftp.reply(task, STATUS, &status_body(EOF)));
    match done(sftp.reply(task, STATUS, &status_body(OK))) {
        Outcome::Listed(names) => assert_eq!(names, vec!["a", "b"]),
        _ => panic!("names were due"),
    }
}

#[test]
fn a_refusal_is_reported_with_what_was_refused_and_its_code() {
    let (mut sftp, _, _) = Sftp::start();
    let (task, packet) = sftp.remove("f");
    assert_eq!(packet[4], REMOVE);
    let error = failed(sftp.reply(task, STATUS, &status_body(NO_SUCH_FILE)));
    assert_eq!(error, Error::Refused { what: "the remove", code: 2 });
    assert_eq!(error.message(), "the server refused the remove with SFTP status 2");
    let (task, _) = sftp.get("f");
    let error = failed(sftp.reply(task, STATUS, &status_body(FAILURE)));
    assert_eq!(error, Error::Refused { what: "the open", code: 4 });
    assert_eq!(status_error(&[], "the read"), Error::Refused { what: "the read", code: FAILURE });
}

#[test]
fn a_reply_of_another_kind_is_refused() {
    let (mut sftp, _, _) = Sftp::start();
    let (task, _) = sftp.remove("f");
    assert_eq!(failed(sftp.reply(task, DATA, &[])), Error::NoStatus { what: "the remove" });
    let (task, _) = sftp.get("f");
    assert_eq!(failed(sftp.reply(task, DATA, &[])), Error::NoHandle);
    let (task, _) = sftp.get("f");
    assert_eq!(failed(sftp.reply(task, HANDLE, &string_body(&[0xff]))), Error::HandleNotUtf8);
    let (task, _) = sftp.get("f");
    let (task, _) = ask(sftp.reply(task, HANDLE, &string_body(b"h")));
    assert_eq!(failed(sftp.reply(task, NAME, &[])), Error::NeitherDataNorStatus);
    let (task, _) = sftp.list();
    let (task, _) = ask(sftp.reply(task, HANDLE, &string_body(b"d")));
    assert_eq!(failed(sftp.reply(task, DATA, &[])), Error::NeitherNamesNorStatus);
}

fn channel() -> Channel {
    let mut confirmation = Writer::new();
    confirmation.byte(91).u32(0).u32(0).u32(0x0400_0000).u32(32_768);
    let stage = match Channel::open(OpenStage::Asked, &confirmation.finish()) {
        Ok(OpenTurn::Send { stage, .. }) => stage,
        _ => panic!("a request was due"),
    };
    match Channel::open(stage, &[99, 0, 0, 0, 0]) {
        Ok(OpenTurn::Open(channel)) => channel,
        _ => panic!("a channel was due"),
    }
}

#[test]
fn a_packet_is_received_across_messages() {
    let mut channel = channel();
    let (mut sftp, _, _) = Sftp::start();
    let packet = frame(DATA, b"some data");
    for part in [&packet[..2], &packet[2..6]] {
        for message in channel.write(part) {
            assert!(channel.pump(&message).expect("pump"));
        }
        assert_eq!(sftp.recv(&mut channel, true), Ok(None));
    }
    for message in channel.write(&packet[6..]) {
        channel.pump(&message).expect("pump");
    }
    assert_eq!(sftp.recv(&mut channel, true), Ok(Some((DATA, b"some data".to_vec()))));
    for message in channel.write(&[0, 0, 0, 0]) {
        channel.pump(&message).expect("pump");
    }
    assert_eq!(sftp.recv(&mut channel, true), Err(Error::SftpNoType));
    let more = channel.pump(&[96, 0, 0, 0, 0]).expect("pump");
    assert!(!more);
    assert_eq!(sftp.recv(&mut channel, more), Err(Error::ChannelEnded));
}

#[test]
fn a_channel_that_ends_inside_a_packet_is_an_error() {
    let packet = frame(DATA, b"some data");
    for cut in 0..packet.len() {
        let mut channel = channel();
        let (mut sftp, _, _) = Sftp::start();
        for message in channel.write(&packet[..cut]) {
            channel.pump(&message).expect("pump");
        }
        assert_eq!(sftp.recv(&mut channel, true), Ok(None), "cut at {cut}");
        let more = channel.pump(&[97, 0, 0, 0, 0]).expect("pump");
        assert_eq!(sftp.recv(&mut channel, more), Err(Error::ChannelEnded), "cut at {cut}");
        for message in channel.write(&packet[cut..]) {
            channel.pump(&message).expect("pump");
        }
        assert_eq!(sftp.recv(&mut channel, true), Err(Error::ChannelEnded), "cut at {cut}");
    }
    let mut channel = channel();
    let (mut sftp, _, _) = Sftp::start();
    for message in channel.write(&packet) {
        channel.pump(&message).expect("pump");
    }
    let more = channel.pump(&[96, 0, 0, 0, 0]).expect("pump");
    assert_eq!(sftp.recv(&mut channel, more), Ok(Some((DATA, b"some data".to_vec()))));
    assert_eq!(sftp.recv(&mut channel, true), Err(Error::ChannelEnded));
}
