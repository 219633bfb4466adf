//! What the client's tasks come to against the far end: a file that was put is there, a file
//! that is there is got as it is, and so on, however many requests that takes.

use vstd::prelude::*;
use vstd::utf8::encode_utf8;

use crate::channel::{
    begins_a_frame, law_a_frame_reads_back, law_what_is_written_arrives, lemma_no_frame_yet,
    pump_all, Stream,
};
use crate::directory::{
    attend, attend_one, data_given, directory_handle, entries_bytes, file_handle, handle_given,
    names_given, query, status_given, take_named, written, Attended, Desk, Finish, Held, Query,
};
use crate::error::Error;
use crate::names::{law_a_set_has_one_listing, listing, lists};
use crate::packet::next32;
use crate::subsystem::{
    ask_close, ask_listing, ask_read, ask_write, data_in, entries_in, framed, handle_in, kept,
    named_body, names_in, open_body, read_body, received, status_code, step, take_entry,
    write_body, write_end, Came, Doing, Receiving, Step, CHUNK, CLOSE, DATA, EOF, F_PUT, F_READ, HANDLE, NAME,
    NO_SUCH_FILE, OK, OPEN, OPENDIR, READ, READDIR, REMOVE, STATUS, WRITE,
};
use crate::text::{law_decimal_is_short, law_encoding_is_short, law_text_reads_back};
use crate::wire::{
    be32, be64, law_string_reads_back, law_u32_reads_back, law_u64_reads_back, string,
};

verus! {

/// How a task has ended: what it came to, the number of the next request, and what the far end
/// holds.
pub ghost struct Talk {
    pub came: Result<Came, Error>,
    pub id: u32,
    pub desk: Desk,
}

/// A task against the far end, from the request of type `kind` with the body `body` on: the far
/// end serves the request, the task goes on with the reply. Nothing where the task has not ended
/// within `turns` requests, or where a packet is longer than its length field can tell. `id` is
/// the number of the request after this one.
pub open spec fn converse(
    doing: Doing,
    id: u32,
    kind: u8,
    body: Seq<u8>,
    desk: Desk,
    turns: nat,
) -> Option<Talk>
    decreases turns,
{
    if turns == 0 || !countable(body) {
        None
    } else {
        match query(kind, body) {
            Err(error) => Some(Talk { came: Err(error), id, desk }),
            Ok(asked) => if !desk.room(asked) {
                Some(Talk { came: Err(Error::Unservable), id, desk })
            } else {
                let (after, reply) = desk.serve(asked);
                if !countable(reply.body) {
                    None
                } else {
                    match step(doing, id, reply.kind, reply.body) {
                        Err(error) => Some(Talk { came: Err(error), id, desk: after }),
                        Ok(Step::Done(came)) => Some(Talk { came: Ok(came), id, desk: after }),
                        Ok(Step::Ask { doing, kind, body }) => converse(
                            doing,
                            next32(id),
                            kind,
                            body,
                            after,
                            (turns - 1) as nat,
                        ),
                    }
                }
            },
        }
    }
}

/// The talk that a step begins.
pub open spec fn converse_from(then: Step, id: u32, desk: Desk, turns: nat) -> Option<Talk> {
    match then {
        Step::Done(came) => Some(Talk { came: Ok(came), id, desk }),
        Step::Ask { doing, kind, body } => converse(doing, next32(id), kind, body, desk, turns),
    }
}

/// Whether a packet with this body can tell its length.
pub open spec fn countable(body: Seq<u8>) -> bool {
    body.len() < u32::MAX
}

/// Whether a name can be told in a packet that opens it.
pub open spec fn tellable(name: Seq<char>) -> bool {
    encode_utf8(name).len() + 16 < u32::MAX
}

/// Whether a listing of these names can be told in one packet.
pub open spec fn listable(names: Seq<Seq<char>>) -> bool {
    &&& names.len() <= u32::MAX
    &&& entries_bytes(names).len() + 8 < u32::MAX
    &&& forall|i: int| 0 <= i < names.len() ==> tellable(#[trigger] names[i])
}

/// Whether a handle is as short as those that are given out.
spec fn short(handle: Seq<char>) -> bool {
    encode_utf8(handle).len() <= 84
}

proof fn lemma_named(id: u32, name: Seq<char>, rest: Seq<u8>)
    requires
        tellable(name),
    ensures
        take_named(be32(id) + string(encode_utf8(name)) + rest) == Ok::<
            (u32, Seq<char>, Seq<u8>),
            Error,
        >((id, name, rest)),
{
    let bytes = encode_utf8(name);
    assert(be32(id) + string(bytes) + rest =~= be32(id) + (string(bytes) + rest));
    law_u32_reads_back(id, string(bytes) + rest);
    law_string_reads_back(bytes, rest);
    law_text_reads_back(name);
}

/// A request reads back as what was asked: an OPEN.
pub proof fn law_open_reads_back(id: u32, name: Seq<char>, flags: u32)
    requires
        tellable(name),
    ensures
        query(OPEN, open_body(id, name, flags)) == Ok::<Query, Error>(
            Query::Open { id, name, flags },
        ),
{
    reveal(query);
    assert(open_body(id, name, flags) =~= be32(id) + string(encode_utf8(name)) + (be32(flags)
        + be32(0)));
    lemma_named(id, name, be32(flags) + be32(0));
    law_u32_reads_back(flags, be32(0));
}

/// A request reads back as what was asked: a WRITE.
pub proof fn law_write_reads_back(id: u32, handle: Seq<char>, offset: u64, data: Seq<u8>)
    requires
        tellable(handle),
        data.len() <= u32::MAX,
    ensures
        query(WRITE, write_body(id, handle, offset, data)) == Ok::<Query, Error>(
            Query::Write { id, handle, offset, data },
        ),
{
    reveal(query);
    assert(write_body(id, handle, offset, data) =~= be32(id) + string(encode_utf8(handle)) + (
    be64(offset) + string(data)));
    lemma_named(id, handle, be64(offset) + string(data));
    law_u64_reads_back(offset, string(data));
    assert(string(data) + Seq::<u8>::empty() =~= string(data));
    law_string_reads_back(data, Seq::empty());
}

/// A request reads back as what was asked: a READ.
pub proof fn law_read_reads_back(id: u32, handle: Seq<char>, offset: u64)
    requires
        tellable(handle),
    ensures
        query(READ, read_body(id, handle, offset)) == Ok::<Query, Error>(
            Query::Read { id, handle, offset, want: CHUNK as u32 },
        ),
{
    reveal(query);
    let want = be32(CHUNK as u32);
    assert(read_body(id, handle, offset) =~= be32(id) + string(encode_utf8(handle)) + (be64(offset)
        + want));
    lemma_named(id, handle, be64(offset) + want);
    law_u64_reads_back(offset, want);
    assert(want + Seq::<u8>::empty() =~= want);
    law_u32_reads_back(CHUNK as u32, Seq::empty());
}

/// A request reads back as what was asked: an OPENDIR, a READDIR, a CLOSE, a REMOVE.
pub proof fn law_named_requests_read_back(id: u32, name: Seq<char>)
    requires
        tellable(name),
    ensures
        query(OPENDIR, named_body(id, name)) == Ok::<Query, Error>(Query::Opendir { id }),
        query(READDIR, named_body(id, name)) == Ok::<Query, Error>(
            Query::Readdir { id, handle: name },
        ),
        query(CLOSE, named_body(id, name)) == Ok::<Query, Error>(
            Query::Close { id, handle: name },
        ),
        query(REMOVE, named_body(id, name)) == Ok::<Query, Error>(Query::Remove { id, name }),
{
    reveal(query);
    let bytes = encode_utf8(name);
    assert(named_body(id, name) =~= be32(id) + string(bytes) + Seq::<u8>::empty());
    lemma_named(id, name, Seq::empty());
    assert(named_body(id, name) =~= be32(id) + (string(bytes) + Seq::<u8>::empty()));
    law_u32_reads_back(id, string(bytes) + Seq::<u8>::empty());
    law_string_reads_back(bytes, Seq::empty());
}

/// A reply reads back as what was given: a status.
pub proof fn law_status_reads_back(id: u32, code: u32, message: Seq<char>)
    ensures
        status_code(status_given(id, code, message).body) == Ok::<u32, Error>(code),
{
    let rest = string(encode_utf8(message)) + string(Seq::<u8>::empty());
    assert(status_given(id, code, message).body =~= be32(id) + (be32(code) + rest));
    law_u32_reads_back(id, be32(code) + rest);
    law_u32_reads_back(code, rest);
}

/// A status is short where its message is.
proof fn lemma_status_is_countable(id: u32, code: u32, message: Seq<char>)
    requires
        message.len() <= 64,
    ensures
        countable(status_given(id, code, message).body),
{
    law_encoding_is_short(message);
}

/// A reply reads back as what was given: a handle.
pub proof fn law_handle_reads_back(id: u32, handle: Seq<char>)
    requires
        tellable(handle),
    ensures
        handle_in(HANDLE, handle_given(id, handle).body) == Ok::<Seq<char>, Error>(handle),
{
    let bytes = encode_utf8(handle);
    assert(handle_given(id, handle).body =~= be32(id) + (string(bytes) + Seq::<u8>::empty()));
    law_u32_reads_back(id, string(bytes) + Seq::<u8>::empty());
    law_string_reads_back(bytes, Seq::empty());
    law_text_reads_back(handle);
}

/// A reply reads back as what was given: data.
pub proof fn law_data_reads_back(id: u32, data: Seq<u8>)
    requires
        data.len() <= u32::MAX,
    ensures
        data_in(DATA, data_given(id, data).body) == Ok::<Option<Seq<u8>>, Error>(Some(data)),
{
    assert(data_given(id, data).body =~= be32(id) + (string(data) + Seq::<u8>::empty()));
    law_u32_reads_back(id, string(data) + Seq::<u8>::empty());
    law_string_reads_back(data, Seq::empty());
}

/// The bytes of one entry of a listing.
spec fn entry(name: Seq<char>) -> Seq<u8> {
    string(encode_utf8(name)) + string(encode_utf8(name)) + be32(0)
}

proof fn lemma_entries_front(names: Seq<Seq<char>>)
    requires
        names.len() > 0,
    ensures
        entries_bytes(names) == entry(names[0]) + entries_bytes(names.drop_first()),
    decreases names.len(),
{
    let last = names.last();
    if names.len() == 1 {
        assert(names.drop_last() =~= Seq::<Seq<char>>::empty());
        assert(names.drop_first() =~= Seq::<Seq<char>>::empty());
        assert(entries_bytes(names) =~= entry(names[0]) + entries_bytes(names.drop_first()));
    } else {
        lemma_entries_front(names.drop_last());
        assert(names.drop_last().drop_first() =~= names.drop_first().drop_last());
        assert(entries_bytes(names) =~= entry(names[0]) + (entries_bytes(
            names.drop_first().drop_last(),
        ) + entry(last)));
        assert(names.drop_first().last() == last);
    }
}

proof fn lemma_regroup(a: Seq<u8>, b: Seq<u8>, c: Seq<u8>, d: Seq<u8>)
    ensures
        a + b + c + d == a + (b + (c + d)),
{
    assert(a + b + c + d =~= a + (b + (c + d)));
}

/// One entry is taken off a listing as its name.
#[verifier::rlimit(40)]
proof fn lemma_entry_reads_back(name: Seq<char>, rest: Seq<u8>)
    requires
        tellable(name),
    ensures
        take_entry(entry(name) + rest) == Ok::<(Seq<char>, Seq<u8>), Error>((name, rest)),
{
    reveal(take_entry);
    let bytes = encode_utf8(name);
    lemma_regroup(string(bytes), string(bytes), be32(0), rest);
    law_string_reads_back(bytes, string(bytes) + (be32(0) + rest));
    law_string_reads_back(bytes, be32(0) + rest);
    law_u32_reads_back(0, rest);
    law_text_reads_back(name);
}

proof fn lemma_entries_read_back(names: Seq<Seq<char>>)
    requires
        forall|i: int| 0 <= i < names.len() ==> tellable(#[trigger] names[i]),
    ensures
        entries_in(entries_bytes(names), names.len()) == Ok::<Seq<Seq<char>>, Error>(names),
    decreases names.len(),
{
    if names.len() == 0 {
        assert(names =~= Seq::<Seq<char>>::empty());
    } else {
        let others = names.drop_first();
        assert forall|i: int| 0 <= i < others.len() implies tellable(#[trigger] others[i]) by {
            assert(others[i] == names[i + 1]);
        }
        lemma_entries_front(names);
        lemma_entries_read_back(others);
        lemma_entry_reads_back(names[0], entries_bytes(others));
        assert(seq![names[0]] + others =~= names);
    }
}

/// A reply reads back as what was given: a listing.
pub proof fn law_names_read_back(id: u32, names: Seq<Seq<char>>)
    requires
        names.len() <= u32::MAX,
        forall|i: int| 0 <= i < names.len() ==> tellable(#[trigger] names[i]),
    ensures
        names_in(names_given(id, names).body) == Ok::<Seq<Seq<char>>, Error>(names),
{
    let count = be32(names.len() as u32);
    let rest = entries_bytes(names);
    assert(names_given(id, names).body =~= be32(id) + (count + rest));
    law_u32_reads_back(id, count + rest);
    law_u32_reads_back(names.len() as u32, rest);
    lemma_entries_read_back(names);
}

/// The handles that are given out are short.
proof fn lemma_handles_are_short(next: u64)
    ensures
        short(file_handle(next)),
        short(directory_handle(next)),
{
    law_decimal_is_short(next);
    law_encoding_is_short(file_handle(next));
    law_encoding_is_short(directory_handle(next));
}

/// One request and its reply.
proof fn lemma_turn(
    doing: Doing,
    id: u32,
    kind: u8,
    body: Seq<u8>,
    desk: Desk,
    turns: nat,
    asked: Query,
    then: Step,
)
    requires
        turns > 0,
        query(kind, body) == Ok::<Query, Error>(asked),
        desk.room(asked),
        countable(body),
        countable(desk.serve(asked).1.body),
        step(doing, id, desk.serve(asked).1.kind, desk.serve(asked).1.body) == Ok::<Step, Error>(
            then,
        ),
    ensures
        converse(doing, id, kind, body, desk, turns) == converse_from(
            then,
            id,
            desk.serve(asked).0,
            (turns - 1) as nat,
        ),
{
}

/// A task that closes its handle comes to what it has, and the handle is given back.
proof fn lemma_closing(desk: Desk, handle: Seq<char>, came: Came, id: u32, turns: nat)
    requires
        short(handle),
        turns > 0,
    ensures
        converse_from(ask_close(id, handle, came), id, desk, turns) == Some(
            Talk {
                came: Ok(came),
                id: next32(id),
                desk: Desk { handles: desk.handles.remove(handle), ..desk },
            },
        ),
{
    law_named_requests_read_back(id, handle);
    law_status_reads_back(id, OK, "closed"@);
    reveal_strlit("closed");
    lemma_status_is_countable(id, OK, "closed"@);
    assert(step(Doing::Closing { came }, next32(id), STATUS, status_given(id, OK, "closed"@).body)
        == Ok::<Step, Error>(Step::Done(came))) by {
        reveal(step);
    }
    lemma_turn(
        Doing::Closing { came },
        next32(id),
        CLOSE,
        named_body(id, handle),
        desk,
        turns,
        Query::Close { id, handle },
        Step::Done(came),
    );
}

/// How many writes a file of `len` bytes takes.
pub open spec fn writes(len: nat) -> nat
    decreases len,
{
    if len <= CHUNK {
        1
    } else {
        1 + writes((len - CHUNK) as nat)
    }
}

/// The requests that go through a handle can tell their length.
proof fn lemma_bodies_are_countable(id: u32, handle: Seq<char>, offset: u64, data: Seq<u8>)
    requires
        short(handle),
        data.len() <= CHUNK,
    ensures
        tellable(handle),
        countable(write_body(id, handle, offset, data)),
        countable(read_body(id, handle, offset)),
{
}

/// What the far end does with the next write of a put: the file has grown, and the reply says so.
proof fn lemma_write_is_served(
    desk: Desk,
    handle: Seq<char>,
    name: Seq<char>,
    bytes: Seq<u8>,
    sent: nat,
    id: u32,
)
    requires
        desk.handles.dom().contains(handle),
        desk.handles[handle] == Held::Write(name),
        desk.files.dom().contains(name),
        sent <= bytes.len() <= isize::MAX,
        desk.files[name] == bytes.take(sent as int),
    ensures
        ({
            let end = write_end(bytes, sent);
            let data = bytes.subrange(sent as int, end as int);
            let asked = Query::Write { id, handle, offset: sent as u64, data };
            let grown = desk.files.insert(name, bytes.take(end as int));
            &&& desk.room(asked)
            &&& desk.serve(asked) == (
                Desk { files: grown, ..desk },
                status_given(id, OK, "written"@),
            )
        }),
{
    let end = write_end(bytes, sent);
    let data = bytes.subrange(sent as int, end as int);
    assert(written(bytes.take(sent as int), sent, data) =~= bytes.take(end as int));
}

/// What a put does when a write was granted.
proof fn lemma_write_is_granted(
    handle: Seq<char>,
    bytes: Seq<u8>,
    end: nat,
    id: u32,
    next: u32,
    then: Step,
)
    requires
        then == if end < bytes.len() {
            ask_write(next, handle, bytes, end)
        } else {
            ask_close(next, handle, Came::Put)
        },
    ensures
        ({
            let reply = status_given(id, OK, "written"@);
            &&& countable(reply.body)
            &&& step(
                Doing::Writing { handle, bytes, sent: end },
                next,
                reply.kind,
                reply.body,
            ) == Ok::<Step, Error>(then)
        }),
{
    reveal(step);
    law_status_reads_back(id, OK, "written"@);
    reveal_strlit("written");
    lemma_status_is_countable(id, OK, "written"@);
}

/// One write of a put and its reply: the file has grown to `end`.
proof fn lemma_write_on(
    desk: Desk,
    handle: Seq<char>,
    name: Seq<char>,
    bytes: Seq<u8>,
    sent: nat,
    id: u32,
    turns: nat,
    then: Step,
)
    requires
        short(handle),
        desk.handles.dom().contains(handle),
        desk.handles[handle] == Held::Write(name),
        desk.files.dom().contains(name),
        sent <= bytes.len() <= isize::MAX,
        desk.files[name] == bytes.take(sent as int),
        turns > 0,
        then == if write_end(bytes, sent) < bytes.len() {
            ask_write(next32(id), handle, bytes, write_end(bytes, sent))
        } else {
            ask_close(next32(id), handle, Came::Put)
        },
    ensures
        converse_from(ask_write(id, handle, bytes, sent), id, desk, turns) == converse_from(
            then,
            next32(id),
            Desk {
                files: desk.files.insert(name, bytes.take(write_end(bytes, sent) as int)),
                ..desk
            },
            (turns - 1) as nat,
        ),
{
    let end = write_end(bytes, sent);
    let data = bytes.subrange(sent as int, end as int);
    law_write_reads_back(id, handle, sent as u64, data);
    lemma_write_is_served(desk, handle, name, bytes, sent, id);
    lemma_write_is_granted(handle, bytes, end, id, next32(id), then);
    lemma_bodies_are_countable(id, handle, sent as u64, data);
    lemma_turn(
        Doing::Writing { handle, bytes, sent: end },
        next32(id),
        WRITE,
        write_body(id, handle, sent as u64, data),
        desk,
        turns,
        Query::Write { id, handle, offset: sent as u64, data },
        then,
    );
}

/// Writing goes on from what is there to the whole file.
proof fn lemma_writing(
    desk: Desk,
    handle: Seq<char>,
    name: Seq<char>,
    bytes: Seq<u8>,
    sent: nat,
    id: u32,
    turns: nat,
)
    requires
        short(handle),
        desk.handles.dom().contains(handle),
        desk.handles[handle] == Held::Write(name),
        desk.files.dom().contains(name),
        sent <= bytes.len() <= isize::MAX,
        desk.files[name] == bytes.take(sent as int),
        turns > writes((bytes.len() - sent) as nat),
    ensures
        converse_from(ask_write(id, handle, bytes, sent), id, desk, turns) matches Some(talk)
            && talk.came == Ok::<Came, Error>(Came::Put) && talk.desk == (Desk {
            files: desk.files.insert(name, bytes),
            handles: desk.handles.remove(handle),
            ..desk
        }),
    decreases bytes.len() - sent,
{
    let end = write_end(bytes, sent);
    let next = next32(id);
    let after = Desk { files: desk.files.insert(name, bytes.take(end as int)), ..desk };
    let left = (turns - 1) as nat;
    if end < bytes.len() {
        let then = ask_write(next, handle, bytes, end);
        lemma_write_on(desk, handle, name, bytes, sent, id, turns, then);
        lemma_writing(after, handle, name, bytes, end, next, left);
        assert(after.files.insert(name, bytes) =~= desk.files.insert(name, bytes));
    } else {
        let then = ask_close(next, handle, Came::Put);
        lemma_write_on(desk, handle, name, bytes, sent, id, turns, then);
        assert(bytes.take(end as int) =~= bytes);
        lemma_closing(after, handle, Came::Put, next, left);
    }
}

/// A file that is put is in the directory afterwards, with the bytes that were put and in place
/// of what was there, whatever its size; no other file has changed, and the handle that was
/// opened for it is given back.
pub proof fn law_put_stores_the_file(
    desk: Desk,
    name: Seq<char>,
    bytes: Seq<u8>,
    id: u32,
    turns: nat,
)
    requires
        tellable(name),
        bytes.len() <= isize::MAX,
        desk.next < u64::MAX,
        turns >= 2 + writes(bytes.len()),
    ensures
        converse(
            Doing::PutOpening { bytes },
            next32(id),
            OPEN,
            open_body(id, name, F_PUT),
            desk,
            turns,
        ) matches Some(talk) && talk.came == Ok::<Came, Error>(Came::Put) && talk.desk == (Desk {
            files: desk.files.insert(name, bytes),
            handles: desk.handles.remove(file_handle(desk.next)),
            next: (desk.next + 1) as u64,
        }),
{
    let handle = file_handle(desk.next);
    let asked = Query::Open { id, name, flags: F_PUT };
    assert((0x2u32 | 0x8u32 | 0x10u32) & 0x2u32 != 0) by (bit_vector);
    lemma_handles_are_short(desk.next);
    law_open_reads_back(id, name, F_PUT);
    law_handle_reads_back(id, handle);
    let next = next32(id);
    assert(step(Doing::PutOpening { bytes }, next, HANDLE, handle_given(id, handle).body) == Ok::<
        Step,
        Error,
    >(ask_write(next, handle, bytes, 0))) by {
        reveal(step);
    }
    lemma_turn(
        Doing::PutOpening { bytes },
        next,
        OPEN,
        open_body(id, name, F_PUT),
        desk,
        turns,
        asked,
        ask_write(next, handle, bytes, 0),
    );
    let after = desk.serve(asked).0;
    assert(bytes.take(0) =~= Seq::<u8>::empty());
    lemma_writing(after, handle, name, bytes, 0, next, (turns - 1) as nat);
    assert(after.files.insert(name, bytes) =~= desk.files.insert(name, bytes));
    assert(after.handles.remove(handle) =~= desk.handles.remove(handle));
}

/// How many reads a file of `len` bytes takes, the one that finds its end among them.
pub open spec fn reads(len: nat) -> nat
    decreases len,
{
    if len == 0 {
        1
    } else if len <= CHUNK {
        2
    } else {
        1 + reads((len - CHUNK) as nat)
    }
}

/// What a reply with data does to a get.
proof fn lemma_data_goes_on(
    handle: Seq<char>,
    bytes: Seq<u8>,
    data: Seq<u8>,
    id: u32,
    next: u32,
)
    requires
        data.len() <= u32::MAX,
    ensures
        step(Doing::Reading { handle, bytes }, next, DATA, data_given(id, data).body) == Ok::<
            Step,
            Error,
        >(ask_read(next, handle, bytes + data)),
{
    reveal(step);
    law_data_reads_back(id, data);
}

/// The reply to a read where there is more to read.
proof fn lemma_read_reply(
    desk: Desk,
    handle: Seq<char>,
    name: Seq<char>,
    have: nat,
    end: nat,
    id: u32,
)
    requires
        desk.handles.dom().contains(handle),
        desk.handles[handle] == Held::Read(name),
        desk.files.dom().contains(name),
        have < desk.files[name].len() <= u64::MAX,
        end == if desk.files[name].len() < have + CHUNK {
            desk.files[name].len()
        } else {
            have + CHUNK as nat
        },
    ensures
        ({
            let asked = Query::Read { id, handle, offset: have as u64, want: CHUNK as u32 };
            let reply = data_given(id, desk.files[name].subrange(have as int, end as int));
            &&& desk.room(asked)
            &&& desk.serve(asked) == (desk, reply)
            &&& countable(reply.body)
        }),
{
}

/// One read of a get and its reply, where there is more to read.
#[verifier::rlimit(40)]
proof fn lemma_read_on(
    desk: Desk,
    handle: Seq<char>,
    name: Seq<char>,
    have: nat,
    end: nat,
    id: u32,
    turns: nat,
)
    requires
        short(handle),
        desk.handles.dom().contains(handle),
        desk.handles[handle] == Held::Read(name),
        desk.files.dom().contains(name),
        have < desk.files[name].len() <= u64::MAX,
        end == if desk.files[name].len() < have + CHUNK {
            desk.files[name].len()
        } else {
            have + CHUNK as nat
        },
        turns > 0,
    ensures
        converse_from(ask_read(id, handle, desk.files[name].take(have as int)), id, desk, turns)
            == converse_from(
            ask_read(next32(id), handle, desk.files[name].take(end as int)),
            next32(id),
            desk,
            (turns - 1) as nat,
        ),
{
    let file = desk.files[name];
    let bytes = file.take(have as int);
    let data = file.subrange(have as int, end as int);
    let then = ask_read(next32(id), handle, file.take(end as int));
    lemma_read_reply(desk, handle, name, have, end, id);
    lemma_bodies_are_countable(id, handle, have as u64, data);
    law_read_reads_back(id, handle, have as u64);
    assert(bytes + data =~= file.take(end as int));
    lemma_data_goes_on(handle, bytes, data, id, next32(id));
    lemma_turn(
        Doing::Reading { handle, bytes },
        next32(id),
        READ,
        read_body(id, handle, have as u64),
        desk,
        turns,
        Query::Read { id, handle, offset: have as u64, want: CHUNK as u32 },
        then,
    );
}

/// The last read of a get finds the end of the file, and the handle is given back.
proof fn lemma_read_end(
    desk: Desk,
    handle: Seq<char>,
    name: Seq<char>,
    id: u32,
    turns: nat,
)
    requires
        short(handle),
        desk.handles.dom().contains(handle),
        desk.handles[handle] == Held::Read(name),
        desk.files.dom().contains(name),
        desk.files[name].len() <= u64::MAX,
        turns > 1,
    ensures
        converse_from(ask_read(id, handle, desk.files[name]), id, desk, turns) matches Some(talk)
            && talk.came == Ok::<Came, Error>(Came::Got(desk.files[name])) && talk.desk == (Desk {
            handles: desk.handles.remove(handle),
            ..desk
        }),
{
    let bytes = desk.files[name];
    let came = Came::Got(bytes);
    let then = ask_close(next32(id), handle, came);
    law_read_reads_back(id, handle, bytes.len() as u64);
    law_status_reads_back(id, EOF, "end of file"@);
    reveal_strlit("end of file");
    lemma_status_is_countable(id, EOF, "end of file"@);
    assert(step(
        Doing::Reading { handle, bytes },
        next32(id),
        STATUS,
        status_given(id, EOF, "end of file"@).body,
    ) == Ok::<Step, Error>(then)) by {
        reveal(step);
    }
    lemma_turn(
        Doing::Reading { handle, bytes },
        next32(id),
        READ,
        read_body(id, handle, bytes.len() as u64),
        desk,
        turns,
        Query::Read { id, handle, offset: bytes.len() as u64, want: CHUNK as u32 },
        then,
    );
    lemma_closing(desk, handle, came, next32(id), (turns - 1) as nat);
}

/// Reading goes on from what has been read to the whole file.
proof fn lemma_reading(
    desk: Desk,
    handle: Seq<char>,
    name: Seq<char>,
    have: nat,
    id: u32,
    turns: nat,
)
    requires
        short(handle),
        desk.handles.dom().contains(handle),
        desk.handles[handle] == Held::Read(name),
        desk.files.dom().contains(name),
        have <= desk.files[name].len() <= u64::MAX,
        turns > reads((desk.files[name].len() - have) as nat),
    ensures
        converse_from(ask_read(id, handle, desk.files[name].take(have as int)), id, desk, turns)
            matches Some(talk) && talk.came == Ok::<Came, Error>(Came::Got(desk.files[name]))
            && talk.desk == (Desk { handles: desk.handles.remove(handle), ..desk }),
    decreases desk.files[name].len() - have,
{
    let file = desk.files[name];
    if have == file.len() {
        assert(file.take(have as int) =~= file);
        lemma_read_end(desk, handle, name, id, turns);
    } else {
        let end = if file.len() < have + CHUNK {
            file.len()
        } else {
            have + CHUNK as nat
        };
        lemma_read_on(desk, handle, name, have, end, id, turns);
        lemma_reading(desk, handle, name, end, next32(id), (turns - 1) as nat);
    }
}

/// A file that is in the directory is got with the bytes that it has, whatever its size, and no
/// file has changed.
pub proof fn law_get_takes_the_file(desk: Desk, name: Seq<char>, id: u32, turns: nat)
    requires
        tellable(name),
        desk.files.dom().contains(name),
        desk.files[name].len() <= u64::MAX,
        desk.next < u64::MAX,
        turns >= 2 + reads(desk.files[name].len()),
    ensures
        converse(Doing::GetOpening, next32(id), OPEN, open_body(id, name, F_READ), desk, turns)
            matches Some(talk) && talk.came == Ok::<Came, Error>(Came::Got(desk.files[name]))
            && talk.desk == (Desk {
            handles: desk.handles.remove(file_handle(desk.next)),
            next: (desk.next + 1) as u64,
            ..desk
        }),
{
    let handle = file_handle(desk.next);
    let asked = Query::Open { id, name, flags: F_READ };
    assert(0x1u32 & 0x2u32 == 0) by (bit_vector);
    lemma_handles_are_short(desk.next);
    law_open_reads_back(id, name, F_READ);
    law_handle_reads_back(id, handle);
    let next = next32(id);
    assert(step(Doing::GetOpening, next, HANDLE, handle_given(id, handle).body) == Ok::<
        Step,
        Error,
    >(ask_read(next, handle, Seq::empty()))) by {
        reveal(step);
    }
    lemma_turn(
        Doing::GetOpening,
        next,
        OPEN,
        open_body(id, name, F_READ),
        desk,
        turns,
        asked,
        ask_read(next, handle, Seq::empty()),
    );
    let after = desk.serve(asked).0;
    assert(desk.files[name].take(0) =~= Seq::<u8>::empty());
    lemma_reading(after, handle, name, 0, next, (turns - 1) as nat);
    assert(after.handles.remove(handle) =~= desk.handles.remove(handle));
}

/// A file that is not in the directory is not got: the open is refused with the status for it.
pub proof fn law_get_of_no_file_is_refused(desk: Desk, name: Seq<char>, id: u32, turns: nat)
    requires
        tellable(name),
        !desk.files.dom().contains(name),
        desk.next < u64::MAX,
        turns > 0,
    ensures
        converse(Doing::GetOpening, next32(id), OPEN, open_body(id, name, F_READ), desk, turns)
            matches Some(talk) && talk.came == Err::<Came, Error>(
            Error::Refused { what: "the open", code: NO_SUCH_FILE },
        ) && talk.desk == (Desk { next: (desk.next + 1) as u64, ..desk }),
{
    reveal(step);
    assert(0x1u32 & 0x2u32 == 0) by (bit_vector);
    law_open_reads_back(id, name, F_READ);
    law_status_reads_back(id, NO_SUCH_FILE, "no such file"@);
    reveal_strlit("no such file");
    lemma_status_is_countable(id, NO_SUCH_FILE, "no such file"@);
}

/// The end of a listing: what was listed is kept, and the handle given back.
proof fn lemma_listed(
    desk: Desk,
    handle: Seq<char>,
    names: Seq<Seq<char>>,
    id: u32,
    turns: nat,
)
    requires
        short(handle),
        desk.handles.dom().contains(handle),
        desk.handles[handle] == Held::Dir(true),
        turns >= 2,
    ensures
        converse_from(ask_listing(id, handle, names), id, desk, turns) matches Some(talk)
            && talk.came == Ok::<Came, Error>(Came::Listed(kept(names))) && talk.desk == (Desk {
            handles: desk.handles.remove(handle),
            ..desk
        }),
{
    let next = next32(id);
    let came = Came::Listed(kept(names));
    law_named_requests_read_back(id, handle);
    law_status_reads_back(id, EOF, "end of directory"@);
    reveal_strlit("end of directory");
    lemma_status_is_countable(id, EOF, "end of directory"@);
    assert(step(
        Doing::Listing { handle, names },
        next,
        STATUS,
        status_given(id, EOF, "end of directory"@).body,
    ) == Ok::<Step, Error>(ask_close(next, handle, came))) by {
        reveal(step);
    }
    lemma_turn(
        Doing::Listing { handle, names },
        next,
        READDIR,
        named_body(id, handle),
        desk,
        turns,
        Query::Readdir { id, handle },
        ask_close(next, handle, came),
    );
    lemma_closing(desk, handle, came, next, (turns - 1) as nat);
}

/// A listing from its first request on.
proof fn lemma_listing(
    desk: Desk,
    handle: Seq<char>,
    names: Seq<Seq<char>>,
    id: u32,
    turns: nat,
)
    requires
        short(handle),
        desk.handles.dom().contains(handle),
        desk.handles[handle] == Held::Dir(false),
        names == listing(desk.files.dom()),
        listable(names),
        turns >= 3,
    ensures
        converse_from(ask_listing(id, handle, Seq::empty()), id, desk, turns) matches Some(talk)
            && talk.came == Ok::<Came, Error>(Came::Listed(kept(names))) && talk.desk == (Desk {
            handles: desk.handles.remove(handle),
            ..desk
        }),
{
    let next = next32(id);
    let asked = Query::Readdir { id, handle };
    law_named_requests_read_back(id, handle);
    law_names_read_back(id, names);
    assert(countable(names_given(id, names).body));
    assert(Seq::<Seq<char>>::empty() + names =~= names);
    assert(step(
        Doing::Listing { handle, names: Seq::empty() },
        next,
        NAME,
        names_given(id, names).body,
    ) == Ok::<Step, Error>(ask_listing(next, handle, names))) by {
        reveal(step);
    }
    lemma_turn(
        Doing::Listing { handle, names: Seq::empty() },
        next,
        READDIR,
        named_body(id, handle),
        desk,
        turns,
        asked,
        ask_listing(next, handle, names),
    );
    let after = desk.serve(asked).0;
    lemma_listed(after, handle, names, next, (turns - 1) as nat);
    assert(after.handles.remove(handle) =~= desk.handles.remove(handle));
}

/// Listing the directory gives the names of its files in their order, `.` and `..` left out,
/// each once, and no file has changed.
pub proof fn law_list_gives_the_names(
    desk: Desk,
    names: Seq<Seq<char>>,
    id: u32,
    turns: nat,
)
    requires
        lists(names, desk.files.dom()),
        listable(names),
        desk.next < u64::MAX,
        turns >= 4,
    ensures
        converse(Doing::ListOpening, next32(id), OPENDIR, named_body(id, "."@), desk, turns)
            matches Some(talk) && talk.came == Ok::<Came, Error>(Came::Listed(kept(names)))
            && talk.desk == (Desk {
            handles: desk.handles.remove(directory_handle(desk.next)),
            next: (desk.next + 1) as u64,
            ..desk
        }),
{
    let handle = directory_handle(desk.next);
    law_a_set_has_one_listing(names, names, desk.files.dom());
    law_a_set_has_one_listing(names, listing(desk.files.dom()), desk.files.dom());
    lemma_handles_are_short(desk.next);
    reveal_strlit(".");
    law_encoding_is_short("."@);
    law_named_requests_read_back(id, "."@);
    law_handle_reads_back(id, handle);
    let next = next32(id);
    let asked = Query::Opendir { id };
    assert(step(Doing::ListOpening, next, HANDLE, handle_given(id, handle).body) == Ok::<
        Step,
        Error,
    >(ask_listing(next, handle, Seq::empty()))) by {
        reveal(step);
    }
    lemma_turn(
        Doing::ListOpening,
        next,
        OPENDIR,
        named_body(id, "."@),
        desk,
        turns,
        asked,
        ask_listing(next, handle, Seq::empty()),
    );
    let after = desk.serve(asked).0;
    lemma_listing(after, handle, names, next, (turns - 1) as nat);
    assert(after.handles.remove(handle) =~= desk.handles.remove(handle));
}

/// A file that is removed is out of the directory afterwards, and no other file has changed.
pub proof fn law_remove_takes_the_file_out(desk: Desk, name: Seq<char>, id: u32, turns: nat)
    requires
        tellable(name),
        desk.files.dom().contains(name),
        turns > 0,
    ensures
        converse(Doing::Removing, next32(id), REMOVE, named_body(id, name), desk, turns) == Some(
            Talk {
                came: Ok(Came::Removed),
                id: next32(id),
                desk: Desk { files: desk.files.remove(name), ..desk },
            },
        ),
{
    law_named_requests_read_back(id, name);
    law_status_reads_back(id, OK, "removed"@);
    reveal_strlit("removed");
    lemma_status_is_countable(id, OK, "removed"@);
    assert(step(Doing::Removing, next32(id), STATUS, status_given(id, OK, "removed"@).body)
        == Ok::<Step, Error>(Step::Done(Came::Removed))) by {
        reveal(step);
    }
    lemma_turn(
        Doing::Removing,
        next32(id),
        REMOVE,
        named_body(id, name),
        desk,
        turns,
        Query::Remove { id, name },
        Step::Done(Came::Removed),
    );
}

/// A file that is not in the directory is not removed: the far end refuses, and no file has
/// changed.
pub proof fn law_remove_of_no_file_is_refused(desk: Desk, name: Seq<char>, id: u32, turns: nat)
    requires
        tellable(name),
        !desk.files.dom().contains(name),
        turns > 0,
    ensures
        converse(Doing::Removing, next32(id), REMOVE, named_body(id, name), desk, turns) == Some(
            Talk {
                came: Err(Error::Refused { what: "the remove", code: NO_SUCH_FILE }),
                id: next32(id),
                desk,
            },
        ),
{
    reveal(step);
    law_named_requests_read_back(id, name);
    law_status_reads_back(id, NO_SUCH_FILE, "no such file"@);
    reveal_strlit("no such file");
    lemma_status_is_countable(id, NO_SUCH_FILE, "no such file"@);
}

/// A packet that a stream begins with is received as it was framed, whatever follows it.
pub proof fn law_a_packet_is_received(
    stream: Stream,
    kind: u8,
    body: Seq<u8>,
    rest: Seq<u8>,
    more: bool,
)
    requires
        body.len() < u32::MAX,
        stream.incoming == framed(kind, body) + rest,
    ensures
        received(None, stream, more) == (Receiving::Packet {
            kind,
            body,
            stream: Stream { incoming: rest, ..stream },
        }),
{
    let count = (body.len() + 1) as u32;
    let content = seq![kind] + body;
    assert(stream.incoming =~= be32(count) + (content + rest));
    law_u32_reads_back(count, content + rest);
    let left = stream.without(4);
    assert(left.incoming == content + rest);
    assert(left.incoming.take(count as int) =~= content);
    assert(content.skip(1) =~= body);
    assert(left.incoming.skip(count as int) =~= rest);
}

/// A channel that has ended inside a packet fails the reading of it, whatever is said of more to
/// come: before its length is there, and behind it.
pub proof fn law_an_end_inside_a_packet_is_an_error(due: Option<nat>, stream: Stream, more: bool)
    requires
        stream.done(),
        match due {
            Some(count) => stream.incoming.len() < count,
            None => begins_a_frame(stream.incoming),
        },
    ensures
        received(due, stream, more) matches Receiving::Failed { error, .. } && error
            == Error::ChannelEnded,
{
    if due is None {
        lemma_no_frame_yet(stream);
    }
}

/// A request and its reply cross the channel as they are: what the client writes is what the
/// far end serves, and what the far end replies is what the client receives, however the
/// packets are split into messages.
#[verifier::rlimit(40)]
pub proof fn law_a_request_crosses_the_channel(
    desk: Desk,
    asked: Query,
    kind: u8,
    body: Seq<u8>,
    here: Stream,
    there: Stream,
)
    requires
        body.len() < u32::MAX,
        query(kind, body) == Ok::<Query, Error>(asked),
        desk.room(asked),
        desk.serve(asked).1.body.len() < u32::MAX,
        here.incoming.len() == 0,
        there.incoming.len() == 0,
        !here.done(),
        !there.done(),
    ensures
        ({
            let (after, reply) = desk.serve(asked);
            let request = here.sends(framed(kind, body));
            let answer = there.sends(reply.frame());
            &&& pump_all(there, request) matches Ok(stream) && attend(desk, stream, true) == (
            Attended { desk: after, stream: there, messages: answer, finish: Some(Finish::Wait) })
            &&& pump_all(here, answer) matches Ok(stream) && received(None, stream, true) == (
            Receiving::Packet { kind: reply.kind, body: reply.body, stream: here })
        }),
{
    let (after, reply) = desk.serve(asked);
    let content = seq![kind] + body;
    let arrived = Stream { incoming: there.incoming + framed(kind, body), ..there };
    law_what_is_written_arrives(there, here.remote_id, here.largest, framed(kind, body));
    assert(arrived.incoming =~= be32(content.len() as u32) + content + there.incoming);
    law_a_frame_reads_back(arrived, content, there.incoming, true);
    assert(content.skip(1) =~= body);
    assert(attend_one(desk, arrived, true).finish is None && attend_one(desk, arrived, true).stream
        == there && attend_one(desk, arrived, true).desk == after && attend_one(
        desk,
        arrived,
        true,
    ).messages == there.sends(reply.frame())) by {
        reveal(attend_one);
        assert(arrived.without(4 + content.len()) == there);
    }
    assert(attend(after, there, true) == (Attended {
        desk: after,
        stream: there,
        messages: Seq::empty(),
        finish: Some(Finish::Wait),
    })) by {
        reveal(attend_one);
    }
    let answer = there.sends(reply.frame());
    assert(answer + Seq::<Seq<u8>>::empty() =~= answer);
    law_what_is_written_arrives(here, there.remote_id, there.largest, reply.frame());
    let back = Stream { incoming: here.incoming + reply.frame(), ..here };
    assert(back.incoming =~= reply.frame() + here.incoming);
    law_a_packet_is_received(back, reply.kind, reply.body, here.incoming, true);
}

} // verus!
