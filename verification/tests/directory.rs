use sftp::directory::{
    answer, data_reply, handle_reply, name_reply, request, servable, serve, status, Finish, Handle,
    Handles,
};
use sftp::channel::{Channel, OpenStage, OpenTurn};
use sftp::error::Error;
use sftp::names::NameMap;
use sftp::subsystem::{
    code, entries, frame, utf8, Files, CLOSE, EOF, FAILURE, F_READ, F_WRITE, INIT, NAME,
    NO_SUCH_FILE, OK, OPEN, OPENDIR, READ, READDIR, REMOVE, STATUS, VERSION, WRITE,
};
use sftp::wire::{Reader, Writer};

fn open_body(id: u32, name: &[u8], flags: u32) -> Vec<u8> {
    let mut open = Writer::new();
    open.u32(id).string(name).u32(flags).u32(0);
    open.finish()
}

fn named_body(id: u32, name: &[u8]) -> Vec<u8> {
    let mut body = Writer::new();
    body.u32(id).string(name);
    body.finish()
}

fn read_body(id: u32, handle: &[u8], offset: u64, want: u32) -> Vec<u8> {
    let mut read = Writer::new();
    read.u32(id).string(handle).u64(offset).u32(want);
    read.finish()
}

fn write_body(id: u32, handle: &[u8], offset: u64, data: &[u8]) -> Vec<u8> {
    let mut write = Writer::new();
    write.u32(id).string(handle).u64(offset).string(data);
    write.finish()
}

fn handle_of(reply: &[u8]) -> String {
    let mut reader = Reader::new(&reply[5..]);
    let _id = reader.u32().expect("id");
    utf8(reader.string().expect("handle")).expect("utf8")
}

fn open_write(files: &mut Files, handles: &mut Handles) -> String {
    let open = open_body(1, b"probe.bin", F_WRITE);
    let reply = answer(OPEN, &open, files, handles, &mut 0).expect("open");
    handle_of(&reply)
}

#[test]
fn a_write_then_a_read_returns_the_same_bytes_through_the_far_end() {
    let mut files = Files::new();
    let mut handles = Handles::new();
    let handle = open_write(&mut files, &mut handles);
    let write = write_body(2, handle.as_bytes(), 0, b"hello world");
    answer(WRITE, &write, &mut files, &mut handles, &mut 1).expect("write");
    assert_eq!(files.get("probe.bin").expect("stored"), b"hello world");
}

#[test]
fn a_read_past_the_end_is_an_end_of_file_status() {
    let mut files = Files::new();
    files.insert("a".to_string(), b"xy".to_vec());
    let mut handles = Handles::new();
    handles.insert("h0".to_string(), Handle::Read("a".to_string()));
    let read = read_body(9, b"h0", 2, 10);
    let reply = answer(READ, &read, &mut files, &mut handles, &mut 1).expect("read");
    assert_eq!(reply[4], STATUS);
    assert_eq!(code(&reply[5..]).expect("code"), EOF);
}

#[test]
fn a_readdir_lists_once_then_says_end_of_directory() {
    let mut files = Files::new();
    files.insert("one".to_string(), Vec::new());
    files.insert("two".to_string(), Vec::new());
    let mut handles = Handles::new();
    handles.insert("d0".to_string(), Handle::Dir(false));
    let readdir = named_body(1, b"d0");
    let first = answer(READDIR, &readdir, &mut files, &mut handles, &mut 1).expect("dir");
    assert_eq!(first[4], NAME);
    assert_eq!(entries(&first[5..]).expect("names"), vec!["one", "two"]);
    let again = named_body(2, b"d0");
    let end = answer(READDIR, &again, &mut files, &mut handles, &mut 1).expect("end");
    assert_eq!(code(&end[5..]).expect("code"), EOF);
}

#[test]
fn an_unknown_request_type_is_refused() {
    let mut files = Files::new();
    let mut handles = Handles::new();
    assert!(answer(200, &[], &mut files, &mut handles, &mut 0).is_err());
    assert_eq!(
        answer(200, &[], &mut files, &mut handles, &mut 0),
        Err(Error::RequestType(200))
    );
}

#[test]
fn a_write_past_the_end_is_filled_with_zeros_and_one_inside_keeps_the_rest() {
    let mut files = Files::new();
    let mut handles = Handles::new();
    let handle = open_write(&mut files, &mut handles);
    let far = write_body(2, handle.as_bytes(), 3, b"xyz");
    answer(WRITE, &far, &mut files, &mut handles, &mut 1).expect("write");
    assert_eq!(files.get("probe.bin").expect("stored"), b"\0\0\0xyz");
    let near = write_body(3, handle.as_bytes(), 1, b"ab");
    answer(WRITE, &near, &mut files, &mut handles, &mut 1).expect("write");
    assert_eq!(files.get("probe.bin").expect("stored"), b"\0abxyz");
}

#[test]
fn a_read_gives_what_is_asked_for_and_no_more_than_there_is() {
    let mut files = Files::new();
    files.insert("a".to_string(), b"abcdef".to_vec());
    let mut handles = Handles::new();
    handles.insert("h0".to_string(), Handle::Read("a".to_string()));
    let some = answer(READ, &read_body(1, b"h0", 1, 3), &mut files, &mut handles, &mut 1);
    assert_eq!(some, Ok(data_reply(1, b"bcd")));
    let rest = answer(READ, &read_body(2, b"h0", 4, 30), &mut files, &mut handles, &mut 1);
    assert_eq!(rest, Ok(data_reply(2, b"ef")));
}

#[test]
fn handles_are_named_in_turn_and_serve_only_what_they_were_opened_for() {
    let mut files = Files::new();
    let mut handles = Handles::new();
    let mut next = 0u64;
    let reply = answer(OPEN, &open_body(1, b"f", F_WRITE), &mut files, &mut handles, &mut next);
    assert_eq!(reply, Ok(handle_reply(1, "h0")));
    let reply = answer(OPENDIR, &named_body(2, b"."), &mut files, &mut handles, &mut next);
    assert_eq!(reply, Ok(handle_reply(2, "d1")));
    let reply = answer(OPEN, &open_body(3, b"none", F_READ), &mut files, &mut handles, &mut next);
    assert_eq!(reply, Ok(status(3, NO_SUCH_FILE, "no such file")));
    assert_eq!(next, 3);
    let reply = answer(OPEN, &open_body(4, b"f", F_READ), &mut files, &mut handles, &mut next);
    assert_eq!(reply, Ok(handle_reply(4, "h3")));
    let refused = answer(WRITE, &write_body(5, b"h3", 0, b"x"), &mut files, &mut handles, &mut next);
    assert_eq!(refused, Ok(status(5, FAILURE, "a write to a handle not open for writing")));
    let refused = answer(READ, &read_body(6, b"h0", 0, 1), &mut files, &mut handles, &mut next);
    assert_eq!(refused, Ok(status(6, FAILURE, "a read from a handle not open for reading")));
    let refused = answer(READDIR, &named_body(7, b"h0"), &mut files, &mut handles, &mut next);
    assert_eq!(refused, Ok(status(7, FAILURE, "a readdir on a handle that is not a directory")));
    let closed = answer(CLOSE, &named_body(8, b"h0"), &mut files, &mut handles, &mut next);
    assert_eq!(closed, Ok(status(8, OK, "closed")));
    assert!(!handles.contains_key("h0"));
    assert!(handles.contains_key("h3"));
}

#[test]
fn a_file_is_removed_once() {
    let mut files = Files::new();
    files.insert("a".to_string(), b"x".to_vec());
    let mut handles = Handles::new();
    let body = named_body(1, b"a");
    let first = answer(REMOVE, &body, &mut files, &mut handles, &mut 0);
    assert_eq!(first, Ok(status(1, OK, "removed")));
    let second = answer(REMOVE, &body, &mut files, &mut handles, &mut 0);
    assert_eq!(second, Ok(status(1, NO_SUCH_FILE, "no such file")));
}

#[test]
fn a_malformed_request_changes_nothing() {
    let mut files = Files::new();
    let mut handles = Handles::new();
    let mut next = 0u64;
    let cut = answer(OPEN, &[0, 0, 0, 1, 0, 0], &mut files, &mut handles, &mut next);
    assert_eq!(cut, Err(Error::Truncated));
    let bytes = answer(OPEN, &open_body(1, &[0xff], F_WRITE), &mut files, &mut handles, &mut next);
    assert_eq!(bytes, Err(Error::NameNotUtf8));
    assert!(files.is_empty());
    assert!(handles.is_empty());
    assert_eq!(next, 0);
}

#[test]
fn the_version_and_the_replies_have_their_layout() {
    let mut files = Files::new();
    let mut handles = Handles::new();
    let version = answer(INIT, &[0, 0, 0, 3], &mut files, &mut handles, &mut 0).expect("init");
    assert_eq!(version, frame(VERSION, &[0, 0, 0, 3]));
    assert_eq!(
        status(7, EOF, "x"),
        [0, 0, 0, 18, STATUS, 0, 0, 0, 7, 0, 0, 0, 1, 0, 0, 0, 1, b'x', 0, 0, 0, 0]
    );
    let listed = name_reply(2, &["b".to_string()]);
    assert_eq!(entries(&listed[5..]), Ok(vec!["b".to_string()]));
    assert_eq!(listed.len(), 5 + 8 + 5 + 5 + 4);
}

#[test]
fn a_write_that_no_memory_holds_is_not_servable() {
    let mut handles = Handles::new();
    handles.insert("h0".to_string(), Handle::Write("a".to_string()));
    let body = write_body(1, b"h0", u64::MAX, b"x");
    let asked = request(WRITE, &body).expect("request");
    assert!(!servable(&asked, &handles, 1));
    let body = write_body(1, b"h1", u64::MAX, b"x");
    let asked = request(WRITE, &body).expect("request");
    assert!(servable(&asked, &handles, 1), "no file is written through it");
    let body = open_body(1, b"a", F_WRITE);
    let asked = request(OPEN, &body).expect("request");
    assert!(servable(&asked, &handles, 1));
    assert!(!servable(&asked, &handles, u64::MAX));
}

fn channel() -> Channel {
    let mut confirmation = Writer::new();
    confirmation.byte(91).u32(0).u32(0).u32(0x0400_0000).u32(32_768);
    let stage = match Channel::open(OpenStage::Asked, &confirmation.finish()) {
        Ok(OpenTurn::Send { stage, .. }) => stage,
        _ => panic!("a request was due"),
    };
    match Channel::open(stage, &[99, 0, 0, 0, 0]) {
        Ok(OpenTurn::Open(channel)) => channel,
        _ => panic!("a channel was due"),
    }
}

fn carry(channel: &mut Channel, bytes: &[u8]) -> bool {
    let mut more = true;
    for message in channel.write(bytes) {
        more = channel.pump(&message).expect("pump");
    }
    more
}

#[test]
fn serving_answers_every_frame_that_has_arrived_and_ends_with_the_channel() {
    let mut channel = channel();
    let mut files = Files::new();
    let mut handles: Handles = NameMap::new();
    let mut next = 0u64;
    let mut requests = frame(INIT, &[0, 0, 0, 3]);
    requests.extend_from_slice(&frame(OPEN, &open_body(1, b"f", F_WRITE)));
    requests.extend_from_slice(&frame(WRITE, &write_body(2, b"h0", 0, b"data"))[..7]);
    let more = carry(&mut channel, &requests);
    let (sent, finish) = serve(&mut channel, &mut files, &mut handles, &mut next, more);
    assert_eq!(sent.len(), 2);
    assert_eq!(finish, Finish::Wait);
    let more = carry(&mut channel, &frame(WRITE, &write_body(2, b"h0", 0, b"data"))[7..]);
    let (sent, finish) = serve(&mut channel, &mut files, &mut handles, &mut next, more);
    assert_eq!(sent, channel.write(&status(2, OK, "written")));
    assert_eq!(finish, Finish::Wait);
    assert_eq!(files.get("f").expect("stored"), b"data");
    let more = channel.pump(&[96, 0, 0, 0, 0]).expect("pump");
    let (sent, finish) = serve(&mut channel, &mut files, &mut handles, &mut next, more);
    assert!(sent.is_empty());
    assert_eq!(finish, Finish::End);
}

#[test]
fn serving_stops_at_a_request_that_cannot_be_served() {
    let mut files = Files::new();
    let mut handles: Handles = NameMap::new();
    handles.insert("h0".to_string(), Handle::Write("a".to_string()));
    let mut next = 1u64;
    for (bytes, error) in [
        (frame(WRITE, &write_body(1, b"h0", u64::MAX, b"x")), Error::Unservable),
        (vec![0, 0, 0, 0], Error::SftpNoType),
        (frame(77, &[]), Error::RequestType(77)),
    ] {
        let mut channel = channel();
        let more = carry(&mut channel, &bytes);
        let (sent, finish) = serve(&mut channel, &mut files, &mut handles, &mut next, more);
        assert!(sent.is_empty());
        assert_eq!(finish, Finish::Failed(error));
    }
    let mut channel = channel();
    channel.pump(&channel.write(&[0, 0, 0, 9, 1])[0].clone()).expect("pump");
    let more = channel.pump(&[97, 0, 0, 0, 0]).expect("pump");
    assert!(more, "there is something left to read");
    let (_, finish) = serve(&mut channel, &mut files, &mut handles, &mut next, more);
    assert_eq!(finish, Finish::Failed(Error::ChannelEnded));
}

#[test]
fn what_was_asked_before_the_end_is_served_and_a_cut_request_is_an_error() {
    let mut files = Files::new();
    let mut handles: Handles = NameMap::new();
    let mut next = 0u64;
    let mut channel = channel();
    let mut requests = frame(INIT, &[0, 0, 0, 3]);
    requests.extend_from_slice(&frame(OPEN, &open_body(1, b"f", F_WRITE))[..9]);
    carry(&mut channel, &requests);
    let more = channel.pump(&[96, 0, 0, 0, 0]).expect("pump");
    let (sent, finish) = serve(&mut channel, &mut files, &mut handles, &mut next, more);
    assert_eq!(sent.len(), 1);
    assert_eq!(finish, Finish::Failed(Error::ChannelEnded));
}
