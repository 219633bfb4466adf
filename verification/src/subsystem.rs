//! The SFTP subsystem, version 3 (draft-ietf-secsh-filexfer-02): the client's requests (INIT,
//! OPEN, WRITE, READ, CLOSE, OPENDIR, READDIR, REMOVE) and the wire vocabulary they share with
//! the far end in [`crate::directory`]. The client here puts a file into a directory and takes
//! files out of one.
//!
//! A task is begun with [`Sftp::start`], [`Sftp::put`], [`Sftp::get`], [`Sftp::list`] or
//! [`Sftp::remove`], each of which gives the first packet to send; every reply is handed to
//! [`Sftp::reply`], which gives the next packet or the outcome.

use vstd::prelude::*;
use vstd::slice::slice_to_vec;
use vstd::string::*;
use vstd::utf8::encode_utf8;

use crate::channel::{Channel, Stream};
use crate::error::Error;
use crate::layout::{
    fields, law_the_requests_field_by_field, law_the_transfers_field_by_field, reads, Field,
};
use crate::names::{texts, NameMap};
use crate::packet::next32;
use crate::text::{law_text_reads_back, text_of, utf8_text};
use crate::wire::{
    be32, be64, from_be32, law_string_reads_back, law_u32_reads_back, length32, read_be32, string,
    take_string, take_u32, Reader, Writer,
};

verus! {

/// Open the subsystem.
pub const INIT: u8 = 1;
/// The answer to it.
pub const VERSION: u8 = 2;
/// Open a file.
pub const OPEN: u8 = 3;
/// Close a handle.
pub const CLOSE: u8 = 4;
/// Read from a file.
pub const READ: u8 = 5;
/// Write to a file.
pub const WRITE: u8 = 6;
/// Open a directory.
pub const OPENDIR: u8 = 11;
/// List a directory.
pub const READDIR: u8 = 12;
/// Remove a file.
pub const REMOVE: u8 = 13;
/// A status in reply.
pub const STATUS: u8 = 101;
/// A handle in reply.
pub const HANDLE: u8 = 102;
/// Data in reply.
pub const DATA: u8 = 103;
/// Names in reply.
pub const NAME: u8 = 104;

/// Open for reading.
pub const F_READ: u32 = 0x0000_0001;
/// Open for writing.
pub const F_WRITE: u32 = 0x0000_0002;
/// Create the file where it is not there.
pub const F_CREAT: u32 = 0x0000_0008;
/// Empty the file where it is there.
pub const F_TRUNC: u32 = 0x0000_0010;
/// The flags a put opens its file with: for writing, created, emptied.
pub const F_PUT: u32 = F_WRITE | F_CREAT | F_TRUNC;

/// The request was done.
pub const OK: u32 = 0;
/// Nothing more is there.
pub const EOF: u32 = 1;
/// No file of that name.
pub const NO_SUCH_FILE: u32 = 2;
/// The request was not done.
pub const FAILURE: u32 = 4;

/// The version spoken here.
pub const PROTOCOL: u32 = 3;
/// The most one read or write carries in a single request.
pub const CHUNK: usize = 32_768;

/// A directory of files, name to bytes, as the far end holds it.
pub type Files = NameMap<Vec<u8>>;

/// A framed packet: the length, the type, the body.
pub open spec fn framed(kind: u8, body: Seq<u8>) -> Seq<u8> {
    be32(length32(body.len() + 1)) + seq![kind] + body
}

/// A framed packet: the length, the type, the body. Shared with the far end, which frames the
/// same way.
pub fn frame(kind: u8, body: &[u8]) -> (bytes: Vec<u8>)
    ensures
        bytes@ == framed(kind, body@),
{
    let length: u32 = if body.len() < 0xffff_ffff {
        body.len() as u32 + 1
    } else {
        0xffff_ffff
    };
    let mut out = Writer::new();
    out.u32(length).byte(kind);
    let mut bytes = out.finish();
    bytes.extend_from_slice(body);
    assert(bytes@ =~= framed(kind, body@));
    bytes
}

/// The status code in a STATUS body.
pub open spec fn status_code(body: Seq<u8>) -> Result<u32, Error> {
    match take_u32(body) {
        None => Err(Error::Truncated),
        Some((_, rest)) => match take_u32(rest) {
            None => Err(Error::Truncated),
            Some((code, _)) => Ok(code),
        },
    }
}

/// The status code an SFTP STATUS body carries.
pub fn code(body: &[u8]) -> (code: Result<u32, Error>)
    ensures
        code == status_code(body@),
{
    let mut reader = Reader::new(body);
    let _id = reader.u32()?;
    reader.u32()
}

/// The name in the entry that a directory listing begins with, and what follows the entry.
#[verifier::opaque]
pub open spec fn take_entry(s: Seq<u8>) -> Result<(Seq<char>, Seq<u8>), Error> {
    match take_string(s) {
        None => Err(Error::Truncated),
        Some((name, rest)) => match text_of(name) {
            None => Err(Error::NameNotUtf8),
            Some(text) => match take_string(rest) {
                None => Err(Error::Truncated),
                Some((_, rest)) => match take_u32(rest) {
                    None => Err(Error::Truncated),
                    Some((_, rest)) => Ok((text, rest)),
                },
            },
        },
    }
}

/// The names of the first `count` entries of a directory listing.
pub open spec fn entries_in(s: Seq<u8>, count: nat) -> Result<Seq<Seq<char>>, Error>
    decreases count,
{
    if count == 0 {
        Ok(Seq::empty())
    } else {
        match take_entry(s) {
            Err(error) => Err(error),
            Ok((name, rest)) => match entries_in(rest, (count - 1) as nat) {
                Err(error) => Err(error),
                Ok(names) => Ok(seq![name] + names),
            },
        }
    }
}

/// The names in a NAME body.
pub open spec fn names_in(body: Seq<u8>) -> Result<Seq<Seq<char>>, Error> {
    match take_u32(body) {
        None => Err(Error::Truncated),
        Some((_, rest)) => match take_u32(rest) {
            None => Err(Error::Truncated),
            Some((count, rest)) => entries_in(rest, count as nat),
        },
    }
}

/// The names a NAME body carries.
pub fn entries(body: &[u8]) -> (names: Result<Vec<String>, Error>)
    ensures
        match names_in(body@) {
            Ok(listed) => names is Ok && texts(names->Ok_0@) == listed,
            Err(error) => names == Err::<Vec<String>, Error>(error),
        },
{
    let mut reader = Reader::new(body);
    let _id = reader.u32()?;
    let count = reader.u32()?;
    let mut names: Vec<String> = Vec::new();
    let mut left: u32 = count;
    let ghost all = names_in(body@);
    assert(all == entries_in(reader@, count as nat));
    assert(all == match entries_in(reader@, left as nat) {
        Err(error) => Err::<Seq<Seq<char>>, Error>(error),
        Ok(rest) => Ok::<Seq<Seq<char>>, Error>(texts(names@) + rest),
    }) by {
        if all is Ok {
            assert(texts(names@) + all->Ok_0 =~= all->Ok_0);
        }
    }
    while left > 0
        invariant
            all == names_in(body@),
            all == match entries_in(reader@, left as nat) {
                Err(error) => Err::<Seq<Seq<char>>, Error>(error),
                Ok(rest) => Ok::<Seq<Seq<char>>, Error>(texts(names@) + rest),
            },
        decreases left,
    {
        reveal(take_entry);
        let ghost had = names@;
        let name = utf8(reader.string()?)?;
        let _longname = reader.string()?;
        let _attrs = reader.u32()?;
        names.push(name);
        left = left - 1;
        proof {
            assert(texts(names@) =~= texts(had).push(name@));
            let rest = entries_in(reader@, left as nat);
            if rest is Ok {
                assert(texts(names@) + rest->Ok_0 =~= texts(had) + (seq![name@] + rest->Ok_0));
            }
        }
    }
    assert(texts(names@) + Seq::<Seq<char>>::empty() =~= texts(names@));
    Ok(names)
}

/// What a refusal is reported as.
pub open spec fn refusal(body: Seq<u8>, what: &'static str) -> Error {
    match status_code(body) {
        Ok(code) => Error::Refused { what, code },
        Err(_) => Error::Refused { what, code: FAILURE },
    }
}

/// What a STATUS that is no grant is reported as: with its code, or as a failure where it
/// carries none.
pub fn status_error(body: &[u8], what: &'static str) -> (error: Error)
    ensures
        error == refusal(body@, what),
{
    match code(body) {
        Ok(code) => Error::Refused { what, code },
        Err(_) => Error::Refused { what, code: FAILURE },
    }
}

/// An SFTP name or handle as text.
pub fn utf8(bytes: &[u8]) -> (text: Result<String, Error>)
    ensures
        match text_of(bytes@) {
            Some(made) => text is Ok && text->Ok_0@ == made,
            None => text == Err::<String, Error>(Error::NameNotUtf8),
        },
{
    match utf8_text(bytes) {
        Some(text) => Ok(text),
        None => Err(Error::NameNotUtf8),
    }
}

/// The handle out of a reply where one was due.
pub open spec fn handle_in(kind: u8, body: Seq<u8>) -> Result<Seq<char>, Error> {
    if kind == HANDLE {
        match take_u32(body) {
            None => Err(Error::Truncated),
            Some((_, rest)) => match take_string(rest) {
                None => Err(Error::Truncated),
                Some((handle, _)) => match text_of(handle) {
                    None => Err(Error::HandleNotUtf8),
                    Some(text) => Ok(text),
                },
            },
        }
    } else if kind == STATUS {
        Err(refusal(body, "the open"))
    } else {
        Err(Error::NoHandle)
    }
}

/// Whether a reply grants what was asked.
pub open spec fn granted(kind: u8, body: Seq<u8>, what: &'static str) -> Result<(), Error> {
    if kind == STATUS {
        match status_code(body) {
            Err(error) => Err(error),
            Ok(code) => if code == OK {
                Ok(())
            } else {
                Err(Error::Refused { what, code })
            },
        }
    } else {
        Err(Error::NoStatus { what })
    }
}

/// The data of a reply to a read, or nothing at the end of the file.
pub open spec fn data_in(kind: u8, body: Seq<u8>) -> Result<Option<Seq<u8>>, Error> {
    if kind == DATA {
        match take_u32(body) {
            None => Err(Error::Truncated),
            Some((_, rest)) => match take_string(rest) {
                None => Err(Error::Truncated),
                Some((data, _)) => Ok(Some(data)),
            },
        }
    } else if kind == STATUS {
        match status_code(body) {
            Err(error) => Err(error),
            Ok(code) => if code == EOF {
                Ok(None)
            } else {
                Err(Error::Refused { what: "the read", code })
            },
        }
    } else {
        Err(Error::NeitherDataNorStatus)
    }
}

/// The names of a reply to a listing, or nothing at the end of the directory.
pub open spec fn listed_in(kind: u8, body: Seq<u8>) -> Result<Option<Seq<Seq<char>>>, Error> {
    if kind == NAME {
        match names_in(body) {
            Err(error) => Err(error),
            Ok(names) => Ok(Some(names)),
        }
    } else if kind == STATUS {
        match status_code(body) {
            Err(error) => Err(error),
            Ok(code) => if code == EOF {
                Ok(None)
            } else {
                Err(Error::Refused { what: "the listing", code })
            },
        }
    } else {
        Err(Error::NeitherNamesNorStatus)
    }
}

/// The body of an OPEN.
pub open spec fn open_body(id: u32, name: Seq<char>, flags: u32) -> Seq<u8> {
    be32(id) + string(encode_utf8(name)) + be32(flags) + be32(0)
}

/// The body of a WRITE.
pub open spec fn write_body(id: u32, handle: Seq<char>, offset: u64, data: Seq<u8>) -> Seq<u8> {
    be32(id) + string(encode_utf8(handle)) + be64(offset) + string(data)
}

/// The body of a READ.
pub open spec fn read_body(id: u32, handle: Seq<char>, offset: u64) -> Seq<u8> {
    be32(id) + string(encode_utf8(handle)) + be64(offset) + be32(CHUNK as u32)
}

/// The body of a request that only names a handle, a file or a directory: CLOSE, READDIR,
/// REMOVE, OPENDIR.
pub open spec fn named_body(id: u32, name: Seq<char>) -> Seq<u8> {
    be32(id) + string(encode_utf8(name))
}

/// The names but for `.` and `..`.
pub open spec fn kept(names: Seq<Seq<char>>) -> Seq<Seq<char>> {
    names.filter(|name: Seq<char>| name != "."@ && name != ".."@)
}

/// What a task comes to.
pub ghost enum Came {
    Started,
    Put,
    Got(Seq<u8>),
    Listed(Seq<Seq<char>>),
    Removed,
}

/// How far a task has come.
pub ghost enum Doing {
    Starting,
    PutOpening { bytes: Seq<u8> },
    Writing { handle: Seq<char>, bytes: Seq<u8>, sent: nat },
    GetOpening,
    Reading { handle: Seq<char>, bytes: Seq<u8> },
    ListOpening,
    Listing { handle: Seq<char>, names: Seq<Seq<char>> },
    Closing { came: Came },
    Removing,
}

/// What a reply does to a task.
pub ghost enum Step {
    /// Another request is to be made.
    Ask { doing: Doing, kind: u8, body: Seq<u8> },
    /// The task is done.
    Done(Came),
}

/// How far the next write goes, from `sent`.
pub open spec fn write_end(bytes: Seq<u8>, sent: nat) -> nat {
    if bytes.len() - sent <= CHUNK {
        bytes.len()
    } else {
        sent + CHUNK as nat
    }
}

/// The next write of a put.
pub open spec fn ask_write(id: u32, handle: Seq<char>, bytes: Seq<u8>, sent: nat) -> Step {
    let end = write_end(bytes, sent);
    Step::Ask {
        doing: Doing::Writing { handle, bytes, sent: end },
        kind: WRITE,
        body: write_body(id, handle, sent as u64, bytes.subrange(sent as int, end as int)),
    }
}

/// The next read of a get.
pub open spec fn ask_read(id: u32, handle: Seq<char>, bytes: Seq<u8>) -> Step {
    Step::Ask {
        doing: Doing::Reading { handle, bytes },
        kind: READ,
        body: read_body(id, handle, bytes.len() as u64),
    }
}

/// The next listing.
pub open spec fn ask_listing(id: u32, handle: Seq<char>, names: Seq<Seq<char>>) -> Step {
    Step::Ask { doing: Doing::Listing { handle, names }, kind: READDIR, body: named_body(id, handle) }
}

/// The close that a task ends with.
pub open spec fn ask_close(id: u32, handle: Seq<char>, came: Came) -> Step {
    Step::Ask { doing: Doing::Closing { came }, kind: CLOSE, body: named_body(id, handle) }
}

/// What a reply does to a task, `id` being the next request's number.
#[verifier::opaque]
pub open spec fn step(doing: Doing, id: u32, kind: u8, body: Seq<u8>) -> Result<Step, Error> {
    match doing {
        Doing::Starting => if kind != VERSION {
            Err(Error::SftpVersion)
        } else {
            match take_u32(body) {
                None => Err(Error::Truncated),
                Some((version, _)) => if version == PROTOCOL {
                    Ok(Step::Done(Came::Started))
                } else {
                    Err(Error::SftpVersion)
                },
            }
        },
        Doing::PutOpening { bytes } => match handle_in(kind, body) {
            Err(error) => Err(error),
            Ok(handle) => Ok(ask_write(id, handle, bytes, 0)),
        },
        Doing::Writing { handle, bytes, sent } => match granted(kind, body, "the write") {
            Err(error) => Err(error),
            Ok(_) => if sent < bytes.len() {
                Ok(ask_write(id, handle, bytes, sent))
            } else {
                Ok(ask_close(id, handle, Came::Put))
            },
        },
        Doing::GetOpening => match handle_in(kind, body) {
            Err(error) => Err(error),
            Ok(handle) => Ok(ask_read(id, handle, Seq::empty())),
        },
        Doing::Reading { handle, bytes } => match data_in(kind, body) {
            Err(error) => Err(error),
            Ok(Some(data)) => Ok(ask_read(id, handle, bytes + data)),
            Ok(None) => Ok(ask_close(id, handle, Came::Got(bytes))),
        },
        Doing::ListOpening => match handle_in(kind, body) {
            Err(error) => Err(error),
            Ok(handle) => Ok(ask_listing(id, handle, Seq::empty())),
        },
        Doing::Listing { handle, names } => match listed_in(kind, body) {
            Err(error) => Err(error),
            Ok(Some(more)) => Ok(ask_listing(id, handle, names + more)),
            Ok(None) => Ok(ask_close(id, handle, Came::Listed(kept(names)))),
        },
        Doing::Closing { came } => match granted(kind, body, "the close") {
            Err(error) => Err(error),
            Ok(_) => Ok(Step::Done(came)),
        },
        Doing::Removing => match granted(kind, body, "the remove") {
            Err(error) => Err(error),
            Ok(_) => Ok(Step::Done(Came::Removed)),
        },
    }
}

/// What a task comes to.
pub enum Outcome {
    /// The subsystem is open.
    Started,
    /// The file is in the directory.
    Put,
    /// The file's bytes.
    Got(Vec<u8>),
    /// The names in the directory, `.` and `..` left out.
    Listed(Vec<String>),
    /// The file is out of the directory.
    Removed,
}

impl View for Outcome {
    type V = Came;

    open spec fn view(&self) -> Came {
        match *self {
            Outcome::Started => Came::Started,
            Outcome::Put => Came::Put,
            Outcome::Got(bytes) => Came::Got(bytes@),
            Outcome::Listed(names) => Came::Listed(texts(names@)),
            Outcome::Removed => Came::Removed,
        }
    }
}

/// How far a task has come: which reply is due, and what is needed to go on.
pub enum Task {
    Starting,
    PutOpening { bytes: Vec<u8> },
    Writing { handle: String, bytes: Vec<u8>, sent: usize },
    GetOpening,
    Reading { handle: String, bytes: Vec<u8> },
    ListOpening,
    Listing { handle: String, names: Vec<String> },
    Closing { outcome: Outcome },
    Removing,
}

impl View for Task {
    type V = Doing;

    open spec fn view(&self) -> Doing {
        match *self {
            Task::Starting => Doing::Starting,
            Task::PutOpening { bytes } => Doing::PutOpening { bytes: bytes@ },
            Task::Writing { handle, bytes, sent } => Doing::Writing {
                handle: handle@,
                bytes: bytes@,
                sent: sent as nat,
            },
            Task::GetOpening => Doing::GetOpening,
            Task::Reading { handle, bytes } => Doing::Reading { handle: handle@, bytes: bytes@ },
            Task::ListOpening => Doing::ListOpening,
            Task::Listing { handle, names } => Doing::Listing {
                handle: handle@,
                names: texts(names@),
            },
            Task::Closing { outcome } => Doing::Closing { came: outcome@ },
            Task::Removing => Doing::Removing,
        }
    }
}

/// What a reply does to a task.
pub enum Turn {
    /// Send this packet, and await the reply.
    Request { task: Task, packet: Vec<u8> },
    /// The task is done.
    Done(Outcome),
}

impl Turn {
    /// Whether this is the turn that `step` describes, its packet framed.
    pub open spec fn takes(self, step: Step) -> bool {
        match step {
            Step::Ask { doing, kind, body } => {
                &&& self is Request
                &&& self->task@ == doing
                &&& self->packet@ == framed(kind, body)
            },
            Step::Done(came) => self is Done && self->0@ == came,
        }
    }
}

/// The client's side of the subsystem: the number of the next request, and the length of the
/// packet that is being received, where it has been read.
pub struct Sftp {
    next_id: u32,
    due: Option<usize>,
}

/// What the client's side holds.
pub ghost struct Requests {
    pub next_id: u32,
    pub due: Option<nat>,
}

impl View for Sftp {
    type V = Requests;

    closed spec fn view(&self) -> Requests {
        Requests {
            next_id: self.next_id,
            due: match self.due {
                Some(count) => Some(count as nat),
                None => None,
            },
        }
    }
}

impl Requests {
    /// The requests after one more was made.
    pub open spec fn asked(self) -> Requests {
        Requests { next_id: next32(self.next_id), ..self }
    }

    /// The requests after a step.
    pub open spec fn after(self, step: Result<Step, Error>) -> Requests {
        match step {
            Ok(Step::Ask { .. }) => self.asked(),
            _ => self,
        }
    }
}

impl Sftp {
    /// Begin to exchange the INIT and VERSION that open the subsystem.
    pub fn start() -> (begun: (Self, Task, Vec<u8>))
        ensures
            begun.0@ == (Requests { next_id: 1, due: None }),
            begun.1@ == Doing::Starting,
            begun.2@ == framed(INIT, be32(PROTOCOL)),
    {
        let mut init = Writer::new();
        init.u32(PROTOCOL);
        let init = init.finish();
        assert(init@ =~= be32(PROTOCOL));
        (Sftp { next_id: 1, due: None }, Task::Starting, frame(INIT, &init))
    }

    /// Begin to put `bytes` into the directory as `name`.
    pub fn put(&mut self, name: &str, bytes: &[u8]) -> (begun: (Task, Vec<u8>))
        ensures
            final(self)@ == old(self)@.asked(),
            begun.0@ == (Doing::PutOpening { bytes: bytes@ }),
            begun.1@ == framed(OPEN, open_body(old(self)@.next_id, name@, F_PUT)),
    {
        let packet = self.open(name, F_PUT);
        (Task::PutOpening { bytes: slice_to_vec(bytes) }, packet)
    }

    /// Begin to take `name`'s bytes from the directory.
    pub fn get(&mut self, name: &str) -> (begun: (Task, Vec<u8>))
        ensures
            final(self)@ == old(self)@.asked(),
            begun.0@ == Doing::GetOpening,
            begun.1@ == framed(OPEN, open_body(old(self)@.next_id, name@, F_READ)),
    {
        let packet = self.open(name, F_READ);
        (Task::GetOpening, packet)
    }

    /// Begin to list the names in the directory, `.` and `..` left out.
    pub fn list(&mut self) -> (begun: (Task, Vec<u8>))
        ensures
            final(self)@ == old(self)@.asked(),
            begun.0@ == Doing::ListOpening,
            begun.1@ == framed(OPENDIR, named_body(old(self)@.next_id, "."@)),
    {
        let packet = self.named(OPENDIR, ".");
        (Task::ListOpening, packet)
    }

    /// Begin to remove `name` from the directory.
    pub fn remove(&mut self, name: &str) -> (begun: (Task, Vec<u8>))
        ensures
            final(self)@ == old(self)@.asked(),
            begun.0@ == Doing::Removing,
            begun.1@ == framed(REMOVE, named_body(old(self)@.next_id, name@)),
    {
        let packet = self.named(REMOVE, name);
        (Task::Removing, packet)
    }

    /// Go on with `task` now that its reply is here.
    pub fn reply(&mut self, task: Task, kind: u8, body: &[u8]) -> (turn: Result<Turn, Error>)
        ensures
            final(self)@ == old(self)@.after(step(task@, old(self)@.next_id, kind, body@)),
            match step(task@, old(self)@.next_id, kind, body@) {
                Ok(due) => turn is Ok && turn->Ok_0.takes(due),
                Err(error) => turn == Err::<Turn, Error>(error),
            },
    {
        reveal(step);
        match task {
            Task::Starting => {
                if kind != VERSION {
                    return Err(Error::SftpVersion);
                }
                let mut reader = Reader::new(body);
                let version = reader.u32()?;
                if version != PROTOCOL {
                    return Err(Error::SftpVersion);
                }
                Ok(Turn::Done(Outcome::Started))
            },
            Task::PutOpening { bytes } => {
                let handle = expect_handle(kind, body)?;
                Ok(self.write_on(handle, bytes, 0))
            },
            Task::Writing { handle, bytes, sent } => {
                expect_granted(kind, body, "the write")?;
                if sent < bytes.len() {
                    Ok(self.write_on(handle, bytes, sent))
                } else {
                    Ok(self.close(handle, Outcome::Put))
                }
            },
            Task::GetOpening => {
                let handle = expect_handle(kind, body)?;
                Ok(self.read_on(handle, Vec::new()))
            },
            Task::Reading { handle, bytes } => {
                let mut bytes = bytes;
                match expect_data(kind, body)? {
                    Some(data) => {
                        let ghost had = bytes@;
                        bytes.extend_from_slice(data);
                        assert(bytes@ =~= had + data@);
                        Ok(self.read_on(handle, bytes))
                    },
                    None => Ok(self.close(handle, Outcome::Got(bytes))),
                }
            },
            Task::ListOpening => {
                let handle = expect_handle(kind, body)?;
                let names: Vec<String> = Vec::new();
                assert(texts(names@) =~= Seq::<Seq<char>>::empty());
                Ok(self.list_on(handle, names))
            },
            Task::Listing { handle, names } => {
                let mut names = names;
                match expect_names(kind, body)? {
                    Some(more) => {
                        let ghost had = names@;
                        let ghost added = more@;
                        let mut more = more;
                        names.append(&mut more);
                        assert(texts(names@) =~= texts(had) + texts(added));
                        Ok(self.list_on(handle, names))
                    },
                    None => {
                        let names = keep(names);
                        Ok(self.close(handle, Outcome::Listed(names)))
                    },
                }
            },
            Task::Closing { outcome } => {
                expect_granted(kind, body, "the close")?;
                Ok(Turn::Done(outcome))
            },
            Task::Removing => {
                expect_granted(kind, body, "the remove")?;
                Ok(Turn::Done(Outcome::Removed))
            },
        }
    }

    /// The next packet off the channel, its type and its body, or nothing while it has not
    /// arrived. `more` tells whether more may yet come, as the last [`Channel::pump`] said.
    pub fn recv(&mut self, channel: &mut Channel, more: bool) -> (read: Result<
        Option<(u8, Vec<u8>)>,
        Error,
    >)
        ensures
            match received(old(self)@.due, old(channel)@, more) {
                Receiving::Packet { kind, body, stream } => {
                    &&& read matches Ok(Some((number, rest))) && number == kind && rest@ == body
                    &&& final(channel)@ == stream
                    &&& final(self)@ == (Requests { due: None, ..old(self)@ })
                },
                Receiving::Wait { due, stream } => {
                    &&& read == Ok::<Option<(u8, Vec<u8>)>, Error>(None)
                    &&& final(channel)@ == stream
                    &&& final(self)@ == (Requests { due, ..old(self)@ })
                },
                Receiving::Failed { error, due, stream } => {
                    &&& read == Err::<Option<(u8, Vec<u8>)>, Error>(error)
                    &&& final(channel)@ == stream
                    &&& final(self)@ == (Requests { due, ..old(self)@ })
                },
            },
    {
        if self.due.is_none() {
            match channel.read_exact(4, more)? {
                None => {
                    return Ok(None);
                },
                Some(header) => {
                    self.due = Some(read_be32(&header) as usize);
                },
            }
        }
        let count: usize = match self.due {
            Some(count) => count,
            None => 0,
        };
        match channel.read_exact(count, more)? {
            None => Ok(None),
            Some(body) => {
                self.due = None;
                if body.len() == 0 {
                    return Err(Error::SftpNoType);
                }
                let rest = slice_to_vec(&body[1..body.len()]);
                assert(rest@ =~= body@.skip(1));
                Ok(Some((body[0], rest)))
            },
        }
    }

    fn open(&mut self, name: &str, flags: u32) -> (packet: Vec<u8>)
        ensures
            final(self)@ == old(self)@.asked(),
            packet@ == framed(OPEN, open_body(old(self)@.next_id, name@, flags)),
    {
        let id = self.id();
        let mut open = Writer::new();
        open.u32(id).string(name.as_bytes()).u32(flags).u32(0);
        let body = open.finish();
        assert(body@ =~= open_body(id, name@, flags));
        frame(OPEN, &body)
    }

    fn named(&mut self, kind: u8, name: &str) -> (packet: Vec<u8>)
        ensures
            final(self)@ == old(self)@.asked(),
            packet@ == framed(kind, named_body(old(self)@.next_id, name@)),
    {
        let id = self.id();
        let mut request = Writer::new();
        request.u32(id).string(name.as_bytes());
        let body = request.finish();
        assert(body@ =~= named_body(id, name@));
        frame(kind, &body)
    }

    fn write_on(&mut self, handle: String, bytes: Vec<u8>, sent: usize) -> (turn: Turn)
        requires
            sent <= bytes@.len(),
        ensures
            final(self)@ == old(self)@.asked(),
            turn.takes(ask_write(old(self)@.next_id, handle@, bytes@, sent as nat)),
    {
        let end: usize = if bytes.len() - sent <= CHUNK {
            bytes.len()
        } else {
            sent + CHUNK
        };
        let id = self.id();
        let mut write = Writer::new();
        write.u32(id).string(handle.as_str().as_bytes()).u64(sent as u64).string(&bytes[sent..end]);
        let body = write.finish();
        assert(body@ =~= write_body(
            id,
            handle@,
            sent as u64,
            bytes@.subrange(sent as int, end as int),
        ));
        Turn::Request { task: Task::Writing { handle, bytes, sent: end }, packet: frame(WRITE, &body) }
    }

    fn read_on(&mut self, handle: String, bytes: Vec<u8>) -> (turn: Turn)
        ensures
            final(self)@ == old(self)@.asked(),
            turn.takes(ask_read(old(self)@.next_id, handle@, bytes@)),
    {
        let id = self.id();
        let mut read = Writer::new();
        read.u32(id).string(handle.as_str().as_bytes()).u64(bytes.len() as u64).u32(CHUNK as u32);
        let body = read.finish();
        assert(body@ =~= read_body(id, handle@, bytes@.len() as u64));
        Turn::Request { task: Task::Reading { handle, bytes }, packet: frame(READ, &body) }
    }

    fn list_on(&mut self, handle: String, names: Vec<String>) -> (turn: Turn)
        ensures
            final(self)@ == old(self)@.asked(),
            turn.takes(ask_listing(old(self)@.next_id, handle@, texts(names@))),
    {
        let packet = self.named(READDIR, handle.as_str());
        Turn::Request { task: Task::Listing { handle, names }, packet }
    }

    fn close(&mut self, handle: String, outcome: Outcome) -> (turn: Turn)
        ensures
            final(self)@ == old(self)@.asked(),
            turn.takes(ask_close(old(self)@.next_id, handle@, outcome@)),
    {
        let packet = self.named(CLOSE, handle.as_str());
        Turn::Request { task: Task::Closing { outcome }, packet }
    }

    fn id(&mut self) -> (id: u32)
        ensures
            id == old(self)@.next_id,
            final(self)@ == old(self)@.asked(),
    {
        let id = self.next_id;
        self.next_id = self.next_id.wrapping_add(1);
        id
    }
}

/// What reading a packet off the channel gives.
pub ghost enum Receiving {
    Packet { kind: u8, body: Seq<u8>, stream: Stream },
    Wait { due: Option<nat>, stream: Stream },
    Failed { error: Error, due: Option<nat>, stream: Stream },
}

/// The packet of `count` bytes that a stream begins with. A stream that ends before them fails.
pub open spec fn received_body(count: nat, stream: Stream, more: bool) -> Receiving {
    if stream.incoming.len() < count {
        if more && !stream.done() {
            Receiving::Wait { due: Some(count), stream }
        } else {
            Receiving::Failed { error: Error::ChannelEnded, due: Some(count), stream }
        }
    } else if count == 0 {
        Receiving::Failed { error: Error::SftpNoType, due: None, stream: stream.without(0) }
    } else {
        Receiving::Packet {
            kind: stream.incoming[0],
            body: stream.incoming.take(count as int).skip(1),
            stream: stream.without(count),
        }
    }
}

/// The packet that a stream begins with, `due` its length where that has been read already.
pub open spec fn received(due: Option<nat>, stream: Stream, more: bool) -> Receiving {
    match due {
        Some(count) => received_body(count, stream, more),
        None => if stream.incoming.len() < 4 {
            if more && !stream.done() {
                Receiving::Wait { due: None, stream }
            } else {
                Receiving::Failed { error: Error::ChannelEnded, due: None, stream }
            }
        } else {
            received_body(
                from_be32(stream.incoming.take(4)) as nat,
                stream.without(4),
                more,
            )
        },
    }
}

fn expect_handle(kind: u8, body: &[u8]) -> (handle: Result<String, Error>)
    ensures
        match handle_in(kind, body@) {
            Ok(text) => handle is Ok && handle->Ok_0@ == text,
            Err(error) => handle == Err::<String, Error>(error),
        },
{
    if kind == HANDLE {
        let mut reader = Reader::new(body);
        let _id = reader.u32()?;
        match utf8_text(reader.string()?) {
            Some(text) => Ok(text),
            None => Err(Error::HandleNotUtf8),
        }
    } else if kind == STATUS {
        Err(status_error(body, "the open"))
    } else {
        Err(Error::NoHandle)
    }
}

fn expect_granted(kind: u8, body: &[u8], what: &'static str) -> (outcome: Result<(), Error>)
    ensures
        outcome == granted(kind, body@, what),
{
    if kind == STATUS {
        if code(body)? == OK {
            Ok(())
        } else {
            Err(status_error(body, what))
        }
    } else {
        Err(Error::NoStatus { what })
    }
}

fn expect_data(kind: u8, body: &[u8]) -> (data: Result<Option<&[u8]>, Error>)
    ensures
        match data_in(kind, body@) {
            Ok(Some(bytes)) => data is Ok && data->Ok_0 is Some && data->Ok_0->0@ == bytes,
            Ok(None) => data is Ok && data->Ok_0 is None,
            Err(error) => data == Err::<Option<&[u8]>, Error>(error),
        },
{
    if kind == DATA {
        let mut reader = Reader::new(body);
        let _id = reader.u32()?;
        Ok(Some(reader.string()?))
    } else if kind == STATUS {
        if code(body)? == EOF {
            Ok(None)
        } else {
            Err(status_error(body, "the read"))
        }
    } else {
        Err(Error::NeitherDataNorStatus)
    }
}

fn expect_names(kind: u8, body: &[u8]) -> (names: Result<Option<Vec<String>>, Error>)
    ensures
        match listed_in(kind, body@) {
            Ok(Some(listed)) => names is Ok && names->Ok_0 is Some && texts(names->Ok_0->0@)
                == listed,
            Ok(None) => names is Ok && names->Ok_0 is None,
            Err(error) => names == Err::<Option<Vec<String>>, Error>(error),
        },
{
    if kind == NAME {
        Ok(Some(entries(body)?))
    } else if kind == STATUS {
        if code(body)? == EOF {
            Ok(None)
        } else {
            Err(status_error(body, "the listing"))
        }
    } else {
        Err(Error::NeitherNamesNorStatus)
    }
}

/// The names but for `.` and `..`.
fn keep(names: Vec<String>) -> (left: Vec<String>)
    ensures
        texts(left@) == kept(texts(names@)),
{
    let dot = ".".to_string();
    let dots = "..".to_string();
    let mut left: Vec<String> = Vec::new();
    let mut i: usize = 0;
    let ghost all = texts(names@);
    let ghost wanted = |name: Seq<char>| name != "."@ && name != ".."@;
    proof {
        reveal(Seq::filter);
        assert(all.take(0).filter(wanted) =~= texts(left@));
    }
    while i < names.len()
        invariant
            i <= names@.len(),
            all == texts(names@),
            dot@ == "."@,
            dots@ == ".."@,
            wanted == |name: Seq<char>| name != "."@ && name != ".."@,
            texts(left@) == all.take(i as int).filter(wanted),
        decreases names@.len() - i,
    {
        let name = names[i].clone();
        let ghost had = left@;
        proof {
            reveal(Seq::filter);
            assert(all.take(i + 1).drop_last() =~= all.take(i as int));
            assert(all.take(i + 1).last() == name@);
        }
        if name != dot && name != dots {
            left.push(name);
            assert(texts(left@) =~= texts(had).push(name@));
        }
        i += 1;
    }
    assert(all.take(all.len() as int) =~= all);
    left
}

/// The numbers of the subsystem: the types of the replies, the codes of the statuses, the flags of
/// an open, the version, and the bytes that one request carries.
pub proof fn law_the_numbers_of_the_subsystem()
    ensures
        VERSION == 2 && STATUS == 101 && HANDLE == 102 && DATA == 103 && NAME == 104,
        OK == 0 && EOF == 1 && NO_SUCH_FILE == 2 && FAILURE == 4,
        F_READ == 1 && F_WRITE == 2 && F_CREAT == 8 && F_TRUNC == 16,
        PROTOCOL == 3,
        CHUNK == 32_768,
{
}

/// The subsystem is open exactly where the answer is of type 2 and begins with the number 3.
pub proof fn law_the_subsystem_speaks_version_three(id: u32, kind: u8, body: Seq<u8>)
    ensures
        step(Doing::Starting, id, kind, body) is Ok <==> {
            &&& kind == 2
            &&& body.len() >= 4
            &&& body[0] == 0 && body[1] == 0 && body[2] == 0 && body[3] == 3
        },
        step(Doing::Starting, id, kind, body) matches Ok(came) ==> came == Step::Done(
            Came::Started,
        ),
{
    reveal(step);
    if body.len() >= 4 {
        let head = body.take(4);
        assert(head[0] == body[0] && head[1] == body[1] && head[2] == body[2] && head[3]
            == body[3]);
    }
}

/// The code of a status stands behind the number of its request.
pub proof fn law_the_code_stands_second(number: u32, code: u32, rest: Seq<u8>, what: &'static str)
    ensures
        status_code(be32(number) + (be32(code) + rest)) == Ok::<u32, Error>(code),
        refusal(be32(number) + (be32(code) + rest), what) == (Error::Refused { what, code }),
        rest.len() < 8 ==> status_code(rest) is Err && refusal(rest, what) == (Error::Refused {
            what,
            code: 4,
        }),
{
    law_u32_reads_back(number, be32(code) + rest);
    law_u32_reads_back(code, rest);
}

/// A status grants what was asked exactly where its code is 0; another code is told as it is, and
/// another type of reply is none.
pub proof fn law_only_the_code_nothing_grants(
    number: u32,
    code: u32,
    rest: Seq<u8>,
    what: &'static str,
    kind: u8,
)
    ensures
        granted(101, be32(number) + (be32(code) + rest), what) == if code == 0 {
            Ok::<(), Error>(())
        } else {
            Err(Error::Refused { what, code })
        },
        kind != 101 ==> granted(kind, rest, what) == Err::<(), Error>(Error::NoStatus { what }),
{
    law_the_code_stands_second(number, code, rest, what);
}

/// A reply of type 102 gives the handle that stands in it, which has to be text; a status refuses
/// the open with its code; another type of reply is none.
pub proof fn law_a_handle_is_what_stands_in_its_reply(
    number: u32,
    handle: Seq<u8>,
    code: u32,
    rest: Seq<u8>,
    kind: u8,
)
    requires
        handle.len() <= u32::MAX,
    ensures
        handle_in(102, be32(number) + (string(handle) + rest)) == match text_of(handle) {
            Some(text) => Ok::<Seq<char>, Error>(text),
            None => Err(Error::HandleNotUtf8),
        },
        handle_in(101, be32(number) + (be32(code) + rest)) == Err::<Seq<char>, Error>(
            Error::Refused { what: "the open", code },
        ),
        kind != 101 && kind != 102 ==> handle_in(kind, rest) == Err::<Seq<char>, Error>(
            Error::NoHandle,
        ),
{
    law_u32_reads_back(number, string(handle) + rest);
    law_string_reads_back(handle, rest);
    law_the_code_stands_second(number, code, rest, "the open");
}

/// A reply of type 103 gives the bytes that stand in it; the status 1 is the end of the file, and
/// another code a refusal. In the same way a reply of type 104 gives names, and the status 1 the
/// end of the directory.
pub proof fn law_the_end_is_told_by_its_code(
    number: u32,
    data: Seq<u8>,
    code: u32,
    rest: Seq<u8>,
    kind: u8,
)
    requires
        data.len() <= u32::MAX,
    ensures
        data_in(103, be32(number) + (string(data) + rest)) == Ok::<Option<Seq<u8>>, Error>(
            Some(data),
        ),
        data_in(101, be32(number) + (be32(code) + rest)) == if code == 1 {
            Ok::<Option<Seq<u8>>, Error>(None)
        } else {
            Err(Error::Refused { what: "the read", code })
        },
        kind != 101 && kind != 103 ==> data_in(kind, rest) == Err::<Option<Seq<u8>>, Error>(
            Error::NeitherDataNorStatus,
        ),
        listed_in(104, rest) == match names_in(rest) {
            Ok(names) => Ok::<Option<Seq<Seq<char>>>, Error>(Some(names)),
            Err(error) => Err(error),
        },
        listed_in(101, be32(number) + (be32(code) + rest)) == if code == 1 {
            Ok::<Option<Seq<Seq<char>>>, Error>(None)
        } else {
            Err(Error::Refused { what: "the listing", code })
        },
        kind != 101 && kind != 104 ==> listed_in(kind, rest) == Err::<
            Option<Seq<Seq<char>>>,
            Error,
        >(Error::NeitherNamesNorStatus),
{
    law_u32_reads_back(number, string(data) + rest);
    law_string_reads_back(data, rest);
    law_the_code_stands_second(number, code, rest, "the read");
}

/// An entry of a listing is its short name; its long one and its attributes are passed over. The
/// names of a listing are those of its entries, as many as it counts, in their order.
pub proof fn law_an_entry_is_its_short_name(
    number: u32,
    count: u32,
    name: Seq<char>,
    long: Seq<u8>,
    attributes: u32,
    rest: Seq<u8>,
)
    requires
        encode_utf8(name).len() <= u32::MAX,
        long.len() <= u32::MAX,
    ensures
        take_entry(string(encode_utf8(name)) + (string(long) + (be32(attributes) + rest))) == Ok::<
            (Seq<char>, Seq<u8>),
            Error,
        >((name, rest)),
        names_in(be32(number) + (be32(count) + rest)) == entries_in(rest, count as nat),
        entries_in(rest, 0) == Ok::<Seq<Seq<char>>, Error>(Seq::empty()),
        entries_in(
            string(encode_utf8(name)) + (string(long) + (be32(attributes) + rest)),
            count as nat + 1,
        ) == match entries_in(rest, count as nat) {
            Ok(names) => Ok::<Seq<Seq<char>>, Error>(seq![name] + names),
            Err(error) => Err(error),
        },
{
    reveal(take_entry);
    law_string_reads_back(encode_utf8(name), string(long) + (be32(attributes) + rest));
    law_text_reads_back(name);
    law_string_reads_back(long, be32(attributes) + rest);
    law_u32_reads_back(attributes, rest);
    law_u32_reads_back(number, be32(count) + rest);
    law_u32_reads_back(count, rest);
}

/// A put writes the file from its beginning on, in pieces of 32 kibibytes but for the last, each
/// where the one before it ended; after the last it closes the handle, and then it is done. An
/// empty file is one empty write.
pub proof fn law_a_put_writes_piece_by_piece(
    id: u32,
    handle: Seq<char>,
    bytes: Seq<u8>,
    sent: nat,
    kind: u8,
    body: Seq<u8>,
)
    requires
        encode_utf8(handle).len() <= u32::MAX,
        sent <= bytes.len() <= u64::MAX,
    ensures
        ({
            let end = if bytes.len() <= sent + 32_768 {
                bytes.len()
            } else {
                sent + 32_768
            };
            let went = step(Doing::Writing { handle, bytes, sent }, id, kind, body);
            let opened = step(Doing::PutOpening { bytes }, id, kind, body);
            &&& went is Ok <==> granted(kind, body, "the write") is Ok
            &&& went matches Err(error) ==> granted(kind, body, "the write") == Err::<
                (),
                Error,
            >(error)
            &&& went is Ok && sent < bytes.len() ==> (went matches Ok(
                Step::Ask { doing, kind: asked, body: packet },
            ) && doing == (Doing::Writing { handle, bytes, sent: end }) && asked == 6 && reads(
                packet,
                fields(Field::Number(id))
                    .push(Field::Text(encode_utf8(handle)))
                    .push(Field::Long(sent as u64))
                    .push(Field::Text(bytes.subrange(sent as int, end as int))),
            ))
            &&& went is Ok && sent == bytes.len() ==> (went matches Ok(
                Step::Ask { doing, kind: asked, body: packet },
            ) && doing == (Doing::Closing { came: Came::Put }) && asked == 4 && reads(
                packet,
                fields(Field::Number(id)).push(Field::Text(encode_utf8(handle))),
            ))
            &&& opened is Ok <==> handle_in(kind, body) is Ok
            &&& opened matches Err(error) ==> handle_in(kind, body) == Err::<Seq<char>, Error>(
                error,
            )
            &&& handle_in(kind, body) == Ok::<Seq<char>, Error>(handle) && sent == 0 ==> (
            opened matches Ok(Step::Ask { doing, kind: asked, body: packet }) && doing == (
            Doing::Writing { handle, bytes, sent: end }) && asked == 6 && reads(
                packet,
                fields(Field::Number(id))
                    .push(Field::Text(encode_utf8(handle)))
                    .push(Field::Long(0))
                    .push(Field::Text(bytes.subrange(0, end as int))),
            ))
        }),
{
    reveal(step);
    let end = write_end(bytes, sent);
    law_the_transfers_field_by_field(
        id,
        handle,
        sent as u64,
        bytes.subrange(sent as int, end as int),
    );
    law_the_requests_field_by_field(id, handle);
}

/// A get reads the file from its beginning on, each piece behind those that came, until the end is
/// told; then it closes the handle with all of them, in their order, for what was got.
pub proof fn law_a_get_reads_piece_by_piece(
    id: u32,
    handle: Seq<char>,
    bytes: Seq<u8>,
    kind: u8,
    body: Seq<u8>,
)
    requires
        encode_utf8(handle).len() <= u32::MAX,
        bytes.len() <= u64::MAX,
    ensures
        ({
            let went = step(Doing::Reading { handle, bytes }, id, kind, body);
            let opened = step(Doing::GetOpening, id, kind, body);
            &&& match data_in(kind, body) {
                Err(error) => went == Err::<Step, Error>(error),
                Ok(Some(data)) => bytes.len() + data.len() <= u64::MAX ==> (went matches Ok(
                    Step::Ask { doing, kind: asked, body: packet },
                ) && doing == (Doing::Reading { handle, bytes: bytes + data }) && asked == 5
                    && reads(
                    packet,
                    fields(Field::Number(id))
                        .push(Field::Text(encode_utf8(handle)))
                        .push(Field::Long((bytes.len() + data.len()) as u64))
                        .push(Field::Number(32_768)),
                )),
                Ok(None) => went matches Ok(Step::Ask { doing, kind: asked, body: packet })
                    && doing == (Doing::Closing { came: Came::Got(bytes) }) && asked == 4
                    && reads(
                    packet,
                    fields(Field::Number(id)).push(Field::Text(encode_utf8(handle))),
                ),
            }
            &&& match handle_in(kind, body) {
                Err(error) => opened == Err::<Step, Error>(error),
                Ok(given) => given == handle ==> (opened matches Ok(
                    Step::Ask { doing, kind: asked, body: packet },
                ) && doing == (Doing::Reading { handle, bytes: Seq::empty() }) && asked == 5
                    && reads(
                    packet,
                    fields(Field::Number(id))
                        .push(Field::Text(encode_utf8(handle)))
                        .push(Field::Long(0))
                        .push(Field::Number(32_768)),
                )),
            }
        }),
{
    reveal(step);
    law_the_requests_field_by_field(id, handle);
    law_the_transfers_field_by_field(id, handle, 0, Seq::empty());
    if let Ok(Some(data)) = data_in(kind, body) {
        law_the_transfers_field_by_field(
            id,
            handle,
            (bytes.len() + data.len()) as u64,
            Seq::empty(),
        );
    }
}

/// A listing goes on until the end is told, each batch of names behind those that came; then it
/// closes the handle with all of them but `.` and `..`.
pub proof fn law_a_listing_goes_batch_by_batch(
    id: u32,
    handle: Seq<char>,
    names: Seq<Seq<char>>,
    kind: u8,
    body: Seq<u8>,
)
    requires
        encode_utf8(handle).len() <= u32::MAX,
    ensures
        ({
            let went = step(Doing::Listing { handle, names }, id, kind, body);
            let opened = step(Doing::ListOpening, id, kind, body);
            let named = fields(Field::Number(id)).push(Field::Text(encode_utf8(handle)));
            &&& match listed_in(kind, body) {
                Err(error) => went == Err::<Step, Error>(error),
                Ok(Some(more)) => went matches Ok(Step::Ask { doing, kind: asked, body: packet })
                    && doing == (Doing::Listing { handle, names: names + more }) && asked == 12
                    && reads(packet, named),
                Ok(None) => went matches Ok(Step::Ask { doing, kind: asked, body: packet })
                    && doing == (Doing::Closing { came: Came::Listed(kept(names)) }) && asked == 4
                    && reads(packet, named),
            }
            &&& match handle_in(kind, body) {
                Err(error) => opened == Err::<Step, Error>(error),
                Ok(given) => given == handle ==> (opened matches Ok(
                    Step::Ask { doing, kind: asked, body: packet },
                ) && doing == (Doing::Listing { handle, names: Seq::empty() }) && asked == 12
                    && reads(packet, named)),
            }
        }),
{
    reveal(step);
    law_the_requests_field_by_field(id, handle);
}

/// A close or a remove that is granted ends its task, with what the task had come to.
pub proof fn law_a_grant_ends_the_task(id: u32, came: Came, kind: u8, body: Seq<u8>)
    ensures
        step(Doing::Closing { came }, id, kind, body) == match granted(kind, body, "the close") {
            Ok(_) => Ok::<Step, Error>(Step::Done(came)),
            Err(error) => Err(error),
        },
        step(Doing::Removing, id, kind, body) == match granted(kind, body, "the remove") {
            Ok(_) => Ok::<Step, Error>(Step::Done(Came::Removed)),
            Err(error) => Err(error),
        },
{
    reveal(step);
}

/// Of the names in a directory all are kept, in their order, but `.` and `..`.
pub proof fn law_only_the_dots_are_left_out(names: Seq<Seq<char>>, name: Seq<char>)
    ensures
        kept(Seq::empty()) == Seq::<Seq<char>>::empty(),
        kept(names.push(name)) == if name == "."@ || name == ".."@ {
            kept(names)
        } else {
            kept(names).push(name)
        },
{
    reveal(Seq::filter);
    assert(names.push(name).drop_last() =~= names);
}

/// What an outcome and a task stand for is what they hold, and a turn is the step it takes: the
/// task as it goes on and its packet, length and type before its body, or the outcome.
pub proof fn law_a_turn_is_the_step_it_takes(outcome: Outcome, task: Task, turn: Turn, taken: Step)
    requires
        turn.takes(taken),
    ensures
        match outcome {
            Outcome::Started => outcome@ == Came::Started,
            Outcome::Put => outcome@ == Came::Put,
            Outcome::Got(bytes) => outcome@ == Came::Got(bytes@),
            Outcome::Listed(names) => outcome@ == Came::Listed(texts(names@)),
            Outcome::Removed => outcome@ == Came::Removed,
        },
        match task {
            Task::Starting => task@ == Doing::Starting,
            Task::PutOpening { bytes } => task@ == (Doing::PutOpening { bytes: bytes@ }),
            Task::Writing { handle, bytes, sent } => task@ == (Doing::Writing {
                handle: handle@,
                bytes: bytes@,
                sent: sent as nat,
            }),
            Task::GetOpening => task@ == Doing::GetOpening,
            Task::Reading { handle, bytes } => task@ == (Doing::Reading {
                handle: handle@,
                bytes: bytes@,
            }),
            Task::ListOpening => task@ == Doing::ListOpening,
            Task::Listing { handle, names } => task@ == (Doing::Listing {
                handle: handle@,
                names: texts(names@),
            }),
            Task::Closing { outcome } => task@ == (Doing::Closing { came: outcome@ }),
            Task::Removing => task@ == Doing::Removing,
        },
        match taken {
            Step::Ask { doing, kind, body } => {
                &&& turn matches Turn::Request { task: next, packet }
                &&& next@ == doing
                &&& packet@ == framed(kind, body)
            },
            Step::Done(came) => turn matches Turn::Done(end) && end@ == came,
        },
{
}

/// Every request has a number of its own, one more than the one before it, the first again after
/// the last; a task that ends or fails uses none up.
pub proof fn law_requests_are_numbered_on(requests: Requests, taken: Result<Step, Error>)
    ensures
        requests.asked().next_id == (requests.next_id + 1) % 0x1_0000_0000,
        requests.asked().due == requests.due,
        requests.after(taken) == if taken matches Ok(Step::Ask { .. }) {
            requests.asked()
        } else {
            requests
        },
{
}

/// A packet is there where its four bytes of length and as many more are: then its type is the
/// first of those and its body the rest, and both are off the stream. A length that was read stays
/// read while its bytes are awaited. A packet of no bytes has no type; a stream that ends before
/// the packet does is an error.
pub proof fn law_a_packet_is_taken_by_its_length(stream: Stream, more: bool, count: nat)
    ensures
        ({
            let s = stream.incoming;
            let n = (s[0] * 0x100_0000 + s[1] * 0x1_0000 + s[2] * 0x100 + s[3]) as nat;
            let read = received(None, stream, more);
            let open = more && !stream.eof && !stream.closed;
            if s.len() < 4 {
                read == if open {
                    Receiving::Wait { due: None, stream }
                } else {
                    Receiving::Failed { error: Error::ChannelEnded, due: None, stream }
                }
            } else {
                read == received(Some(n), Stream { incoming: s.skip(4), ..stream }, more)
            }
        }),
        ({
            let s = stream.incoming;
            let read = received(Some(count), stream, more);
            let open = more && !stream.eof && !stream.closed;
            if s.len() < count {
                read == if open {
                    Receiving::Wait { due: Some(count), stream }
                } else {
                    Receiving::Failed { error: Error::ChannelEnded, due: Some(count), stream }
                }
            } else if count == 0 {
                read == (Receiving::Failed { error: Error::SftpNoType, due: None, stream })
            } else {
                read == (Receiving::Packet {
                    kind: s[0],
                    body: s.subrange(1, count as int),
                    stream: Stream { incoming: s.skip(count as int), ..stream },
                })
            }
        }),
{
    let s = stream.incoming;
    assert(s.skip(0) =~= s);
    if count <= s.len() && count > 0 {
        assert(s.take(count as int).skip(1) =~= s.subrange(1, count as int));
    }
}

/// A reply that is cut short of its fields is refused as cut short, whatever it was a reply to; an
/// open that a status without a code refuses is refused with the code 4.
pub proof fn law_a_cut_reply_is_refused(body: Seq<u8>, what: &'static str)
    ensures
        status_code(body) is Ok <==> body.len() >= 8,
        body.len() < 8 ==> granted(101, body, what) == Err::<(), Error>(Error::Truncated),
        body.len() < 8 ==> data_in(101, body) == Err::<Option<Seq<u8>>, Error>(Error::Truncated),
        body.len() < 8 ==> listed_in(101, body) == Err::<Option<Seq<Seq<char>>>, Error>(
            Error::Truncated,
        ),
        body.len() < 8 ==> names_in(body) == Err::<Seq<Seq<char>>, Error>(Error::Truncated),
        body.len() < 8 ==> handle_in(101, body) == Err::<Seq<char>, Error>(
            Error::Refused { what: "the open", code: 4 },
        ),
        data_in(103, body) is Ok <==> body.len() >= 4 && take_string(body.skip(4)) is Some,
        data_in(103, body) matches Err(error) ==> error is Truncated,
        body.len() < 4 || take_string(body.skip(4)) is None ==> handle_in(102, body) == Err::<
            Seq<char>,
            Error,
        >(Error::Truncated),
{
}

/// An entry that is cut short is refused as cut short, and one whose name is no text as that.
pub proof fn law_a_cut_entry_is_refused(s: Seq<u8>)
    ensures
        take_entry(s) is Ok <==> {
            &&& take_string(s) matches Some((name, rest))
            &&& text_of(name) is Some
            &&& take_string(rest) matches Some((_, last))
            &&& last.len() >= 4
        },
        take_entry(s) matches Err(error) ==> error is Truncated || error is NameNotUtf8,
        take_entry(s) == Err::<(Seq<char>, Seq<u8>), Error>(Error::NameNotUtf8) ==> {
            &&& take_string(s) matches Some((name, _))
            &&& text_of(name) is None
        },
{
    reveal(take_entry);
}

/// What is said where the subsystem is not opened: another type of answer, or another version, is
/// one that is not spoken here; an answer that is cut short of the version is cut short.
pub proof fn law_another_version_is_not_spoken(id: u32, kind: u8, body: Seq<u8>)
    ensures
        step(Doing::Starting, id, kind, body) matches Err(error) ==> error == if kind == 2
            && body.len() < 4 {
            Error::Truncated
        } else {
            Error::SftpVersion
        },
{
    reveal(step);
}

} // verus!
