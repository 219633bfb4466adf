//! The far end's side of the subsystem: serving one directory held in memory to whatever the
//! client asks of it (draft-ietf-secsh-filexfer-02). Not a file system but names and their
//! bytes, which is all a far end on the same machine needs.

use vstd::prelude::*;
use vstd::string::*;
use vstd::utf8::encode_utf8;

use crate::channel::{
    data_messages, limit, messages, none, Channel, Frame, FrameRead, Stream,
};
use crate::error::Error;
use crate::layout::{fields, law_a_frame_field_by_field, reads, Field};
use crate::names::{law_a_set_has_one_listing, listing, lists, texts, NameMap};
use crate::subsystem::{
    frame, framed, utf8, Files, CLOSE, DATA, EOF, FAILURE, F_WRITE, HANDLE, INIT, NAME,
    NO_SUCH_FILE, OK, OPEN, OPENDIR, PROTOCOL, READ, READDIR, REMOVE, STATUS, VERSION, WRITE,
};
use crate::text::{decimal, digits, law_decimal_is_injective, law_text_reads_back, text_of};
use crate::wire::{
    be32, be64, law_string_reads_back, law_u32_reads_back, law_u64_reads_back, length, length32,
    string, take_string, take_u32, take_u64, Reader, Writer,
};

verus! {

/// A handle the far end handed out: a file to write, a file to read, or a directory with
/// whether its entries have been read.
pub enum Handle {
    Write(String),
    Read(String),
    Dir(bool),
}

/// What a handle stands for.
pub ghost enum Held {
    Write(Seq<char>),
    Read(Seq<char>),
    Dir(bool),
}

impl View for Handle {
    type V = Held;

    open spec fn view(&self) -> Held {
        match *self {
            Handle::Write(name) => Held::Write(name@),
            Handle::Read(name) => Held::Read(name@),
            Handle::Dir(read) => Held::Dir(read),
        }
    }
}

/// The handles that are open.
pub type Handles = NameMap<Handle>;

/// One request, taken apart.
pub enum Request<'a> {
    Init,
    Open { id: u32, name: String, flags: u32 },
    Write { id: u32, handle: String, offset: u64, data: &'a [u8] },
    Read { id: u32, handle: String, offset: u64, want: u32 },
    Opendir { id: u32 },
    Readdir { id: u32, handle: String },
    Close { id: u32, handle: String },
    Remove { id: u32, name: String },
}

/// What a request asks.
pub ghost enum Query {
    Init,
    Open { id: u32, name: Seq<char>, flags: u32 },
    Write { id: u32, handle: Seq<char>, offset: u64, data: Seq<u8> },
    Read { id: u32, handle: Seq<char>, offset: u64, want: u32 },
    Opendir { id: u32 },
    Readdir { id: u32, handle: Seq<char> },
    Close { id: u32, handle: Seq<char> },
    Remove { id: u32, name: Seq<char> },
}

impl<'a> View for Request<'a> {
    type V = Query;

    open spec fn view(&self) -> Query {
        match *self {
            Request::Init => Query::Init,
            Request::Open { id, name, flags } => Query::Open { id, name: name@, flags },
            Request::Write { id, handle, offset, data } => Query::Write {
                id,
                handle: handle@,
                offset,
                data: data@,
            },
            Request::Read { id, handle, offset, want } => Query::Read {
                id,
                handle: handle@,
                offset,
                want,
            },
            Request::Opendir { id } => Query::Opendir { id },
            Request::Readdir { id, handle } => Query::Readdir { id, handle: handle@ },
            Request::Close { id, handle } => Query::Close { id, handle: handle@ },
            Request::Remove { id, name } => Query::Remove { id, name: name@ },
        }
    }
}

/// The request number and the name that a body begins with, and what follows them.
pub open spec fn take_named(body: Seq<u8>) -> Result<(u32, Seq<char>, Seq<u8>), Error> {
    match take_u32(body) {
        None => Err(Error::Truncated),
        Some((id, rest)) => match take_string(rest) {
            None => Err(Error::Truncated),
            Some((name, rest)) => match text_of(name) {
                None => Err(Error::NameNotUtf8),
                Some(text) => Ok((id, text, rest)),
            },
        },
    }
}

/// The request that a packet makes.
#[verifier::opaque]
pub open spec fn query(kind: u8, body: Seq<u8>) -> Result<Query, Error> {
    if kind == INIT {
        Ok(Query::Init)
    } else if kind == OPEN {
        match take_named(body) {
            Err(error) => Err(error),
            Ok((id, name, rest)) => match take_u32(rest) {
                None => Err(Error::Truncated),
                Some((flags, _)) => Ok(Query::Open { id, name, flags }),
            },
        }
    } else if kind == WRITE {
        match take_named(body) {
            Err(error) => Err(error),
            Ok((id, handle, rest)) => match take_u64(rest) {
                None => Err(Error::Truncated),
                Some((offset, rest)) => match take_string(rest) {
                    None => Err(Error::Truncated),
                    Some((data, _)) => Ok(Query::Write { id, handle, offset, data }),
                },
            },
        }
    } else if kind == READ {
        match take_named(body) {
            Err(error) => Err(error),
            Ok((id, handle, rest)) => match take_u64(rest) {
                None => Err(Error::Truncated),
                Some((offset, rest)) => match take_u32(rest) {
                    None => Err(Error::Truncated),
                    Some((want, _)) => Ok(Query::Read { id, handle, offset, want }),
                },
            },
        }
    } else if kind == OPENDIR {
        match take_u32(body) {
            None => Err(Error::Truncated),
            Some((id, rest)) => match take_string(rest) {
                None => Err(Error::Truncated),
                Some(_) => Ok(Query::Opendir { id }),
            },
        }
    } else if kind == READDIR {
        match take_named(body) {
            Err(error) => Err(error),
            Ok((id, handle, _)) => Ok(Query::Readdir { id, handle }),
        }
    } else if kind == CLOSE {
        match take_named(body) {
            Err(error) => Err(error),
            Ok((id, handle, _)) => Ok(Query::Close { id, handle }),
        }
    } else if kind == REMOVE {
        match take_named(body) {
            Err(error) => Err(error),
            Ok((id, name, _)) => Ok(Query::Remove { id, name }),
        }
    } else {
        Err(Error::RequestType(kind))
    }
}

/// A reply: its type and its body.
pub ghost struct Reply {
    pub kind: u8,
    pub body: Seq<u8>,
}

impl Reply {
    /// The reply as it is framed.
    pub open spec fn frame(self) -> Seq<u8> {
        framed(self.kind, self.body)
    }
}

/// The reply that gives out a handle.
pub open spec fn handle_given(id: u32, handle: Seq<char>) -> Reply {
    Reply { kind: HANDLE, body: be32(id) + string(encode_utf8(handle)) }
}

/// The reply that gives data.
pub open spec fn data_given(id: u32, data: Seq<u8>) -> Reply {
    Reply { kind: DATA, body: be32(id) + string(data) }
}

/// The entries of a directory listing: each name, once more as its long form, and no
/// attributes.
pub open spec fn entries_bytes(names: Seq<Seq<char>>) -> Seq<u8>
    decreases names.len(),
{
    if names.len() == 0 {
        Seq::empty()
    } else {
        entries_bytes(names.drop_last()) + (string(encode_utf8(names.last())) + string(
            encode_utf8(names.last()),
        ) + be32(0))
    }
}

/// The reply that lists names.
pub open spec fn names_given(id: u32, names: Seq<Seq<char>>) -> Reply {
    Reply { kind: NAME, body: be32(id) + be32(length32(names.len())) + entries_bytes(names) }
}

/// The reply that tells how a request went.
pub open spec fn status_given(id: u32, code: u32, message: Seq<char>) -> Reply {
    Reply {
        kind: STATUS,
        body: be32(id) + be32(code) + string(encode_utf8(message)) + string(Seq::empty()),
    }
}

/// The name of the next handle for a file.
pub open spec fn file_handle(next: u64) -> Seq<char> {
    seq!['h'] + digits(next as nat)
}

/// The name of the next handle for a directory.
pub open spec fn directory_handle(next: u64) -> Seq<char> {
    seq!['d'] + digits(next as nat)
}

/// `file` with `data` in it from `offset` on, zeros where nothing was.
pub open spec fn written(file: Seq<u8>, offset: nat, data: Seq<u8>) -> Seq<u8> {
    let end = offset + data.len();
    Seq::new(
        if file.len() < end {
            end
        } else {
            file.len()
        },
        |i: int|
            if offset <= i < end {
                data[i - offset]
            } else if i < file.len() {
                file[i]
            } else {
                0
            },
    )
}

/// What the far end holds: the files, the handles it has given out, and the number of the next.
pub ghost struct Desk {
    pub files: Map<Seq<char>, Seq<u8>>,
    pub handles: Map<Seq<char>, Held>,
    pub next: u64,
}

impl Desk {
    /// Whether a request can be counted and addressed on this machine: a number is left for the
    /// handle it opens, and the file it writes stays within what can be held.
    pub open spec fn room(self, query: Query) -> bool {
        match query {
            Query::Open { .. } => self.next < u64::MAX,
            Query::Opendir { .. } => self.next < u64::MAX,
            Query::Write { handle, offset, data, .. } => self.handles.dom().contains(handle)
                && self.handles[handle] is Write ==> offset + data.len() <= isize::MAX,
            _ => true,
        }
    }

    /// The bytes of a file, none where it is not there.
    pub open spec fn file(self, name: Seq<char>) -> Seq<u8> {
        if self.files.dom().contains(name) {
            self.files[name]
        } else {
            Seq::empty()
        }
    }

    /// What the far end holds after an open, and its reply: for writing the file is created
    /// empty, for reading it must be there.
    pub open spec fn open(self, id: u32, name: Seq<char>, flags: u32) -> (Desk, Reply) {
        let handle = file_handle(self.next);
        let next = (self.next + 1) as u64;
        if flags & F_WRITE != 0 {
            (
                Desk {
                    files: self.files.insert(name, Seq::empty()),
                    handles: self.handles.insert(handle, Held::Write(name)),
                    next,
                },
                handle_given(id, handle),
            )
        } else if self.files.dom().contains(name) {
            (
                Desk { handles: self.handles.insert(handle, Held::Read(name)), next, ..self },
                handle_given(id, handle),
            )
        } else {
            (Desk { next, ..self }, status_given(id, NO_SUCH_FILE, "no such file"@))
        }
    }

    /// What the far end holds after a write, and its reply.
    pub open spec fn write(self, id: u32, handle: Seq<char>, offset: u64, data: Seq<u8>) -> (
        Desk,
        Reply,
    ) {
        if self.handles.dom().contains(handle) && self.handles[handle] is Write {
            let name = self.handles[handle]->Write_0;
            (
                Desk {
                    files: self.files.insert(name, written(self.file(name), offset as nat, data)),
                    ..self
                },
                status_given(id, OK, "written"@),
            )
        } else {
            (self, status_given(id, FAILURE, "a write to a handle not open for writing"@))
        }
    }

    /// The reply to a read.
    pub open spec fn read(self, id: u32, handle: Seq<char>, offset: u64, want: u32) -> Reply {
        if self.handles.dom().contains(handle) && self.handles[handle] is Read {
            let file = self.file(self.handles[handle]->Read_0);
            if offset >= file.len() {
                status_given(id, EOF, "end of file"@)
            } else {
                data_given(
                    id,
                    file.subrange(
                        offset as int,
                        if file.len() < offset + want {
                            file.len() as int
                        } else {
                            offset + want
                        },
                    ),
                )
            }
        } else {
            status_given(id, FAILURE, "a read from a handle not open for reading"@)
        }
    }

    /// What the far end holds after a listing, and its reply: the names once, then the end.
    pub open spec fn readdir(self, id: u32, handle: Seq<char>) -> (Desk, Reply) {
        if self.handles.dom().contains(handle) && self.handles[handle] is Dir {
            if self.handles[handle]->Dir_0 {
                (self, status_given(id, EOF, "end of directory"@))
            } else {
                (
                    Desk { handles: self.handles.insert(handle, Held::Dir(true)), ..self },
                    names_given(id, listing(self.files.dom())),
                )
            }
        } else {
            (self, status_given(id, FAILURE, "a readdir on a handle that is not a directory"@))
        }
    }

    /// What the far end holds after a request, and its reply.
    pub open spec fn serve(self, query: Query) -> (Desk, Reply) {
        match query {
            Query::Init => (self, Reply { kind: VERSION, body: be32(PROTOCOL) }),
            Query::Open { id, name, flags } => self.open(id, name, flags),
            Query::Write { id, handle, offset, data } => self.write(id, handle, offset, data),
            Query::Read { id, handle, offset, want } => (self, self.read(id, handle, offset, want)),
            Query::Opendir { id } => {
                let handle = directory_handle(self.next);
                (
                    Desk {
                        handles: self.handles.insert(handle, Held::Dir(false)),
                        next: (self.next + 1) as u64,
                        ..self
                    },
                    handle_given(id, handle),
                )
            },
            Query::Readdir { id, handle } => self.readdir(id, handle),
            Query::Close { id, handle } => (
                Desk { handles: self.handles.remove(handle), ..self },
                status_given(id, OK, "closed"@),
            ),
            Query::Remove { id, name } => if self.files.dom().contains(name) {
                (
                    Desk { files: self.files.remove(name), ..self },
                    status_given(id, OK, "removed"@),
                )
            } else {
                (self, status_given(id, NO_SUCH_FILE, "no such file"@))
            },
        }
    }
}

/// What the far end holds, put together.
pub open spec fn desk(files: Files, handles: Handles, next: u64) -> Desk {
    Desk { files: files@, handles: handles@, next }
}

/// The request number and the name that a body begins with.
fn named(reader: &mut Reader<'_>) -> (read: Result<(u32, String), Error>)
    ensures
        match take_named(old(reader)@) {
            Ok((id, name, rest)) => {
                &&& read matches Ok((number, text)) && number == id && text@ == name
                &&& final(reader)@ == rest
            },
            Err(error) => read == Err::<(u32, String), Error>(error),
        },
{
    let id = reader.u32()?;
    let name = utf8(reader.string()?)?;
    Ok((id, name))
}

/// The request that a packet makes, taken apart.
pub fn request<'a>(kind: u8, body: &'a [u8]) -> (made: Result<Request<'a>, Error>)
    ensures
        match query(kind, body@) {
            Ok(query) => made is Ok && made->Ok_0@ == query,
            Err(error) => made == Err::<Request<'a>, Error>(error),
        },
{
    reveal(query);
    let mut reader = Reader::new(body);
    if kind == INIT {
        Ok(Request::Init)
    } else if kind == OPEN {
        let (id, name) = named(&mut reader)?;
        let flags = reader.u32()?;
        Ok(Request::Open { id, name, flags })
    } else if kind == WRITE {
        let (id, handle) = named(&mut reader)?;
        let offset = reader.u64()?;
        let data = reader.string()?;
        Ok(Request::Write { id, handle, offset, data })
    } else if kind == READ {
        let (id, handle) = named(&mut reader)?;
        let offset = reader.u64()?;
        let want = reader.u32()?;
        Ok(Request::Read { id, handle, offset, want })
    } else if kind == OPENDIR {
        let id = reader.u32()?;
        let _path = reader.string()?;
        Ok(Request::Opendir { id })
    } else if kind == READDIR {
        let (id, handle) = named(&mut reader)?;
        Ok(Request::Readdir { id, handle })
    } else if kind == CLOSE {
        let (id, handle) = named(&mut reader)?;
        Ok(Request::Close { id, handle })
    } else if kind == REMOVE {
        let (id, name) = named(&mut reader)?;
        Ok(Request::Remove { id, name })
    } else {
        Err(Error::RequestType(kind))
    }
}

/// Whether a request can be counted and addressed on this machine.
pub fn servable(request: &Request<'_>, handles: &Handles, next: u64) -> (can: bool)
    ensures
        forall|files: Files| can == #[trigger] desk(files, *handles, next).room(request@),
{
    match request {
        Request::Open { .. } => next < u64::MAX,
        Request::Opendir { .. } => next < u64::MAX,
        Request::Write { handle, offset, data, .. } => match handles.get(handle.as_str()) {
            Some(Handle::Write(_)) => {
                let most: u64 = isize::MAX as u64;
                *offset <= most && data.len() as u64 <= most - *offset
            },
            _ => true,
        },
        _ => true,
    }
}

/// The reply to one request against `files`.
pub fn answer(
    kind: u8,
    body: &[u8],
    files: &mut Files,
    handles: &mut Handles,
    next: &mut u64,
) -> (reply: Result<Vec<u8>, Error>)
    requires
        query(kind, body@) matches Ok(asked) ==> desk(*old(files), *old(handles), *old(next)).room(
            asked,
        ),
    ensures
        match query(kind, body@) {
            Ok(asked) => {
                let (after, due) = desk(*old(files), *old(handles), *old(next)).serve(asked);
                &&& reply is Ok
                &&& reply->Ok_0@ == due.frame()
                &&& desk(*final(files), *final(handles), *final(next)) == after
            },
            Err(error) => {
                &&& reply == Err::<Vec<u8>, Error>(error)
                &&& *final(files) == *old(files)
                &&& *final(handles) == *old(handles)
                &&& *final(next) == *old(next)
            },
        },
{
    match request(kind, body)? {
        Request::Init => {
            let mut version = Writer::new();
            version.u32(PROTOCOL);
            let version = version.finish();
            assert(version@ =~= be32(PROTOCOL));
            Ok(frame(VERSION, &version))
        },
        Request::Open { id, name, flags } => Ok(on_open(id, name, flags, files, handles, next)),
        Request::Write { id, handle, offset, data } => Ok(
            on_write(id, handle, offset, data, files, handles),
        ),
        Request::Read { id, handle, offset, want } => Ok(
            on_read(id, handle, offset, want, files, handles),
        ),
        Request::Opendir { id } => {
            let handle = numbered('d', *next);
            *next = *next + 1;
            let reply = handle_reply(id, handle.as_str());
            handles.insert(handle, Handle::Dir(false));
            Ok(reply)
        },
        Request::Readdir { id, handle } => Ok(on_readdir(id, handle, files, handles)),
        Request::Close { id, handle } => {
            handles.remove(handle.as_str());
            Ok(status(id, OK, "closed"))
        },
        Request::Remove { id, name } => {
            match files.remove(name.as_str()) {
                Some(_) => Ok(status(id, OK, "removed")),
                None => {
                    assert(old(files)@.remove(name@) =~= old(files)@);
                    Ok(status(id, NO_SUCH_FILE, "no such file"))
                },
            }
        },
    }
}

/// The name of a handle: a letter and a number.
fn numbered(letter: char, next: u64) -> (handle: String)
    ensures
        handle@ == seq![letter] + digits(next as nat),
{
    let mut handle = String::new();
    handle.push(letter);
    handle.append(decimal(next).as_str());
    assert(handle@ =~= seq![letter] + digits(next as nat));
    handle
}

/// Open a file: for writing it is created empty, for reading it must exist.
fn on_open(
    id: u32,
    name: String,
    flags: u32,
    files: &mut Files,
    handles: &mut Handles,
    next: &mut u64,
) -> (reply: Vec<u8>)
    requires
        *old(next) < u64::MAX,
    ensures
        ({
            let (after, due) = desk(*old(files), *old(handles), *old(next)).open(id, name@, flags);
            &&& reply@ == due.frame()
            &&& desk(*final(files), *final(handles), *final(next)) == after
        }),
{
    let handle = numbered('h', *next);
    *next = *next + 1;
    if flags & F_WRITE != 0 {
        files.insert(name.clone(), Vec::new());
        let reply = handle_reply(id, handle.as_str());
        handles.insert(handle, Handle::Write(name));
        reply
    } else if files.contains_key(name.as_str()) {
        let reply = handle_reply(id, handle.as_str());
        handles.insert(handle, Handle::Read(name));
        reply
    } else {
        status(id, NO_SUCH_FILE, "no such file")
    }
}

/// Write data at an offset into the file the handle names.
fn on_write(
    id: u32,
    handle: String,
    offset: u64,
    data: &[u8],
    files: &mut Files,
    handles: &Handles,
) -> (reply: Vec<u8>)
    requires
        handles@.dom().contains(handle@) && handles@[handle@] is Write ==> offset + data@.len()
            <= isize::MAX,
    ensures
        forall|next: u64|
            {
                let (after, due) = #[trigger] desk(*old(files), *handles, next).write(
                    id,
                    handle@,
                    offset,
                    data@,
                );
                &&& reply@ == due.frame()
                &&& desk(*final(files), *handles, next) == after
            },
{
    match handles.get(handle.as_str()) {
        Some(Handle::Write(name)) => {
            let ghost before = files@;
            let file = match files.remove(name.as_str()) {
                Some(file) => file,
                None => Vec::new(),
            };
            let file = write_at(file, offset as usize, data);
            files.insert(name.clone(), file);
            assert(files@ =~= before.insert(name@, file@));
            status(id, OK, "written")
        },
        _ => status(id, FAILURE, "a write to a handle not open for writing"),
    }
}

/// `file` with `data` in it from `offset` on.
fn write_at(file: Vec<u8>, offset: usize, data: &[u8]) -> (after: Vec<u8>)
    requires
        offset + data@.len() <= isize::MAX,
    ensures
        after@ == written(file@, offset as nat, data@),
{
    let ghost before = file@;
    let mut file = file;
    let end: usize = offset + data.len();
    if file.len() < end {
        file.resize(end, 0);
    }
    let ghost grown = file@;
    let mut i: usize = 0;
    while i < data.len()
        invariant
            i <= data@.len(),
            offset + data@.len() == end,
            end <= file@.len(),
            file@.len() == grown.len(),
            forall|j: int|
                0 <= j < file@.len() ==> file@[j] == if offset <= j < offset + i {
                    data@[j - offset]
                } else {
                    grown[j]
                },
        decreases data@.len() - i,
    {
        file.set(offset + i, data[i]);
        i += 1;
    }
    assert(file@ =~= written(before, offset as nat, data@));
    file
}

/// Read data at an offset from the file the handle names.
fn on_read(
    id: u32,
    handle: String,
    offset: u64,
    want: u32,
    files: &Files,
    handles: &Handles,
) -> (reply: Vec<u8>)
    ensures
        forall|next: u64|
            reply@ == (#[trigger] desk(*files, *handles, next).read(
                id,
                handle@,
                offset,
                want,
            )).frame(),
{
    match handles.get(handle.as_str()) {
        Some(Handle::Read(name)) => {
            let none: Vec<u8> = Vec::new();
            let file = match files.get(name.as_str()) {
                Some(file) => file,
                None => &none,
            };
            if offset >= file.len() as u64 {
                return status(id, EOF, "end of file");
            }
            let from: usize = offset as usize;
            let left: usize = file.len() - from;
            let end: usize = if left as u64 <= want as u64 {
                file.len()
            } else {
                from + want as usize
            };
            data_reply(id, &file[from..end])
        },
        _ => status(id, FAILURE, "a read from a handle not open for reading"),
    }
}

/// List the directory once, then say end of directory.
fn on_readdir(id: u32, handle: String, files: &Files, handles: &mut Handles) -> (reply: Vec<u8>)
    ensures
        forall|next: u64|
            {
                let (after, due) = #[trigger] desk(*files, *old(handles), next).readdir(
                    id,
                    handle@,
                );
                &&& reply@ == due.frame()
                &&& desk(*files, *final(handles), next) == after
            },
{
    let read: Option<bool> = match handles.get(handle.as_str()) {
        Some(Handle::Dir(read)) => Some(*read),
        _ => None,
    };
    match read {
        Some(false) => {
            handles.insert(handle, Handle::Dir(true));
            let names = files.keys();
            name_reply(id, &names)
        },
        Some(true) => status(id, EOF, "end of directory"),
        None => status(id, FAILURE, "a readdir on a handle that is not a directory"),
    }
}

/// The reply that gives out a handle.
pub fn handle_reply(id: u32, handle: &str) -> (reply: Vec<u8>)
    ensures
        reply@ == handle_given(id, handle@).frame(),
{
    let mut body = Writer::new();
    body.u32(id).string(handle.as_bytes());
    let body = body.finish();
    assert(body@ =~= handle_given(id, handle@).body);
    frame(HANDLE, &body)
}

/// The reply that gives data.
pub fn data_reply(id: u32, data: &[u8]) -> (reply: Vec<u8>)
    ensures
        reply@ == data_given(id, data@).frame(),
{
    let mut body = Writer::new();
    body.u32(id).string(data);
    let body = body.finish();
    assert(body@ =~= data_given(id, data@).body);
    frame(DATA, &body)
}

/// The reply that lists names.
pub fn name_reply(id: u32, names: &[String]) -> (reply: Vec<u8>)
    ensures
        reply@ == names_given(id, texts(names@)).frame(),
{
    let mut body = Writer::new();
    body.u32(id).u32(length(names.len()));
    let ghost all = texts(names@);
    let ghost head = be32(id) + be32(length32(all.len()));
    let mut i: usize = 0;
    assert(body@ =~= head + entries_bytes(all.take(0)));
    while i < names.len()
        invariant
            i <= names@.len(),
            all == texts(names@),
            body@ == head + entries_bytes(all.take(i as int)),
        decreases names@.len() - i,
    {
        let name = names[i].as_str().as_bytes();
        body.string(name).string(name).u32(0);
        proof {
            let now = all.take(i + 1);
            assert(now.drop_last() =~= all.take(i as int));
            assert(now.last() == all[i as int]);
            assert(body@ =~= head + entries_bytes(now));
        }
        i += 1;
    }
    assert(all.take(all.len() as int) =~= all);
    let body = body.finish();
    assert(body@ =~= names_given(id, all).body);
    frame(NAME, &body)
}

/// The reply that tells how a request went.
pub fn status(id: u32, code: u32, message: &str) -> (reply: Vec<u8>)
    ensures
        reply@ == status_given(id, code, message@).frame(),
{
    let mut body = Writer::new();
    body.u32(id).u32(code).string(message.as_bytes()).string(&[]);
    let body = body.finish();
    assert(body@ =~= status_given(id, code, message@).body);
    frame(STATUS, &body)
}

/// How far serving the frames that have arrived has come.
#[derive(Clone, Copy, Debug, PartialEq, Eq)]
pub enum Finish {
    /// More has to arrive.
    Wait,
    /// The client has closed the channel.
    End,
    /// A request could not be served.
    Failed(Error),
}

/// What serving frames leaves behind, the messages that carry the replies among it. `finish` is
/// there once no frame is left to serve.
pub ghost struct Attended {
    pub desk: Desk,
    pub stream: Stream,
    pub messages: Seq<Seq<u8>>,
    pub finish: Option<Finish>,
}

/// Serve the frame that a stream begins with.
#[verifier::opaque]
pub open spec fn attend_one(desk: Desk, stream: Stream, more: bool) -> Attended {
    let stopped = |finish: Finish, stream: Stream|
        Attended { desk, stream, messages: Seq::empty(), finish: Some(finish) };
    match stream.frame(more) {
        FrameRead::Wait => stopped(Finish::Wait, stream),
        FrameRead::End => stopped(Finish::End, stream),
        FrameRead::Cut => stopped(Finish::Failed(Error::ChannelEnded), stream),
        FrameRead::Whole { body, taken } => {
            let rest = stream.without(taken);
            if body.len() == 0 {
                stopped(Finish::Failed(Error::SftpNoType), rest)
            } else {
                match query(body[0], body.skip(1)) {
                    Err(error) => stopped(Finish::Failed(error), rest),
                    Ok(asked) => if !desk.room(asked) {
                        stopped(Finish::Failed(Error::Unservable), rest)
                    } else {
                        Attended {
                            desk: desk.serve(asked).0,
                            stream: rest,
                            messages: stream.sends(desk.serve(asked).1.frame()),
                            finish: None,
                        }
                    },
                }
            }
        },
    }
}

/// A frame that was served is off the stream.
pub proof fn lemma_a_frame_is_taken(desk: Desk, stream: Stream, more: bool)
    ensures
        attend_one(desk, stream, more).finish is None ==> attend_one(
            desk,
            stream,
            more,
        ).stream.incoming.len() < stream.incoming.len(),
{
    reveal(attend_one);
}

/// Serve the frames on a stream, one after the other.
pub open spec fn attend(desk: Desk, stream: Stream, more: bool) -> Attended
    decreases stream.incoming.len(),
{
    let one = attend_one(desk, stream, more);
    if one.finish is Some {
        one
    } else {
        proof {
            lemma_a_frame_is_taken(desk, stream, more);
        }
        let then = attend(one.desk, one.stream, true);
        Attended { messages: one.messages + then.messages, ..then }
    }
}

/// Serve the frame that a channel begins with.
fn serve_one(
    channel: &mut Channel,
    files: &mut Files,
    handles: &mut Handles,
    next: &mut u64,
    more: bool,
) -> (served: (Vec<Vec<u8>>, Option<Finish>))
    ensures
        ({
            let due = attend_one(
                desk(*old(files), *old(handles), *old(next)),
                old(channel)@,
                more,
            );
            &&& messages(served.0@) == due.messages
            &&& served.1 == due.finish
            &&& desk(*final(files), *final(handles), *final(next)) == due.desk
            &&& final(channel)@ == due.stream
        }),
{
    reveal(attend_one);
    let body = match channel.read_frame(more) {
        Ok(Frame::Whole(body)) => body,
        Ok(Frame::End) => {
            return (none(), Some(Finish::End));
        },
        Ok(Frame::Wait) => {
            return (none(), Some(Finish::Wait));
        },
        Err(error) => {
            return (none(), Some(Finish::Failed(error)));
        },
    };
    if body.len() == 0 {
        return (none(), Some(Finish::Failed(Error::SftpNoType)));
    }
    let kind = body[0];
    let rest = &body[1..body.len()];
    assert(rest@ =~= body@.skip(1));
    match request(kind, rest) {
        Ok(asked) => {
            if !servable(&asked, handles, *next) {
                assert(!desk(*files, *handles, *next).room(asked@));
                return (none(), Some(Finish::Failed(Error::Unservable)));
            }
            assert(desk(*files, *handles, *next).room(asked@));
        },
        Err(error) => {
            return (none(), Some(Finish::Failed(error)));
        },
    }
    match answer(kind, rest, files, handles, next) {
        Ok(reply) => (channel.write(&reply), None),
        Err(error) => (none(), Some(Finish::Failed(error))),
    }
}

/// Serve the subsystem from `files` as far as frames have arrived, until the client closes the
/// channel, answering every request it makes: the messages to send, and how far that came.
/// `more` tells whether more may yet come, as the last [`Channel::pump`] said.
pub fn serve(
    channel: &mut Channel,
    files: &mut Files,
    handles: &mut Handles,
    next: &mut u64,
    more: bool,
) -> (served: (Vec<Vec<u8>>, Finish))
    ensures
        ({
            let due = attend(desk(*old(files), *old(handles), *old(next)), old(channel)@, more);
            &&& messages(served.0@) == due.messages
            &&& Some(served.1) == due.finish
            &&& desk(*final(files), *final(handles), *final(next)) == due.desk
            &&& final(channel)@ == due.stream
        }),
{
    let ghost due = attend(desk(*files, *handles, *next), channel@, more);
    let mut sent: Vec<Vec<u8>> = Vec::new();
    let mut coming = more;
    assert(messages(sent@) =~= Seq::<Seq<u8>>::empty());
    loop
        invariant
            due == attend(desk(*old(files), *old(handles), *old(next)), old(channel)@, more),
            ({
                let then = attend(desk(*files, *handles, *next), channel@, coming);
                &&& due.messages == messages(sent@) + then.messages
                &&& due.desk == then.desk
                &&& due.stream == then.stream
                &&& due.finish == then.finish
            }),
        decreases channel@.incoming.len(),
    {
        let ghost had = sent@;
        proof {
            lemma_a_frame_is_taken(desk(*files, *handles, *next), channel@, coming);
        }
        let (carried, finish) = serve_one(channel, files, handles, next, coming);
        let mut carried = carried;
        let ghost parts = carried@;
        sent.append(&mut carried);
        assert(messages(sent@) =~= messages(had) + messages(parts));
        match finish {
            Some(finish) => {
                return (sent, finish);
            },
            None => {
                coming = true;
            },
        }
        proof {
            let then = attend(desk(*files, *handles, *next), channel@, coming);
            assert(messages(had) + (messages(parts) + then.messages) =~= messages(sent@)
                + then.messages);
        }
    }
}

/// What is written through one handle is read through another of the same file, from the same
/// offset on.
pub proof fn law_a_read_gives_what_a_write_wrote(
    desk: Desk,
    name: Seq<char>,
    writer: Seq<char>,
    reader: Seq<char>,
    offset: u64,
    data: Seq<u8>,
    id: u32,
    other: u32,
)
    requires
        desk.handles.dom().contains(writer),
        desk.handles[writer] == Held::Write(name),
        desk.handles.dom().contains(reader),
        desk.handles[reader] == Held::Read(name),
        0 < data.len() <= u32::MAX,
    ensures
        desk.write(id, writer, offset, data).0.read(other, reader, offset, data.len() as u32)
            == data_given(other, data),
{
    let file = written(desk.file(name), offset as nat, data);
    assert(file.subrange(offset as int, offset + data.len()) =~= data);
}

/// A write leaves the rest of the file as it was, and all other files.
pub proof fn law_a_write_changes_nothing_else(
    desk: Desk,
    name: Seq<char>,
    handle: Seq<char>,
    offset: u64,
    data: Seq<u8>,
    id: u32,
)
    requires
        desk.handles.dom().contains(handle),
        desk.handles[handle] == Held::Write(name),
    ensures
        ({
            let before = desk.file(name);
            let after = desk.write(id, handle, offset, data).0.file(name);
            &&& after.len() >= before.len()
            &&& forall|i: int|
                0 <= i < before.len() && !(offset <= i < offset + data.len()) ==> after[i]
                    == before[i]
        }),
        forall|other: Seq<char>|
            other != name ==> #[trigger] desk.write(id, handle, offset, data).0.file(other)
                == desk.file(other),
        desk.write(id, handle, offset, data).0.handles == desk.handles,
{
}

/// A directory is listed once; after that its handle gives the end, and goes on giving it.
pub proof fn law_a_directory_is_listed_once(desk: Desk, handle: Seq<char>, id: u32, other: u32)
    requires
        desk.handles.dom().contains(handle),
        desk.handles[handle] == Held::Dir(false),
    ensures
        desk.readdir(id, handle).1 == names_given(id, listing(desk.files.dom())),
        desk.readdir(id, handle).0.readdir(other, handle) == (
            desk.readdir(id, handle).0,
            status_given(other, EOF, "end of directory"@),
        ),
{
}

/// A read from the end of a file on, or past it, gives the end of the file.
pub proof fn law_a_read_past_the_end_is_the_end(
    desk: Desk,
    name: Seq<char>,
    handle: Seq<char>,
    offset: u64,
    want: u32,
    id: u32,
)
    requires
        desk.handles.dom().contains(handle),
        desk.handles[handle] == Held::Read(name),
        offset >= desk.file(name).len(),
    ensures
        desk.read(id, handle, offset, want) == status_given(id, EOF, "end of file"@),
{
}

impl Desk {
    /// Whether every open handle has a name that was given out.
    pub open spec fn tidy(self) -> bool {
        forall|handle: Seq<char>| #[trigger]
            self.handles.dom().contains(handle) ==> self.given(handle)
    }

    /// Whether a handle of this name was given out.
    pub open spec fn given(self, handle: Seq<char>) -> bool {
        exists|number: u64| number < self.next && #[trigger] numbers(handle, number)
    }
}

/// Whether this is the name of the handle with that number, of a file or of a directory.
pub open spec fn numbers(handle: Seq<char>, number: u64) -> bool {
    handle == file_handle(number) || handle == directory_handle(number)
}

proof fn lemma_new_names(number: u64, next: u64)
    requires
        number < next,
    ensures
        file_handle(number) != file_handle(next),
        directory_handle(number) != directory_handle(next),
        file_handle(number) != directory_handle(next),
        directory_handle(number) != file_handle(next),
{
    let (a, b) = (digits(number as nat), digits(next as nat));
    if a == b {
        law_decimal_is_injective(number as nat, next as nat);
    }
    if file_handle(number) == file_handle(next) {
        assert((seq!['h'] + a).skip(1) =~= a);
        assert((seq!['h'] + b).skip(1) =~= b);
    }
    if directory_handle(number) == directory_handle(next) {
        assert((seq!['d'] + a).skip(1) =~= a);
        assert((seq!['d'] + b).skip(1) =~= b);
    }
    assert(file_handle(number)[0] == 'h');
    assert(file_handle(next)[0] == 'h');
    assert(directory_handle(number)[0] == 'd');
    assert(directory_handle(next)[0] == 'd');
}

/// A handle that is about to be given out is none that is open, so that nobody's handle is ever
/// taken over by another open.
pub proof fn law_a_new_handle_is_its_own(desk: Desk)
    requires
        desk.tidy(),
    ensures
        !desk.handles.dom().contains(file_handle(desk.next)),
        !desk.handles.dom().contains(directory_handle(desk.next)),
{
    assert forall|handle: Seq<char>| #[trigger] desk.handles.dom().contains(handle) implies handle
        != file_handle(desk.next) && handle != directory_handle(desk.next) by {
        assert(desk.given(handle));
        let number = choose|number: u64| number < desk.next && #[trigger] numbers(handle, number);
        lemma_new_names(number, desk.next);
    }
}

/// Every request leaves the handles tidy: at the start none is open, and from then on every one
/// that is open has been given out.
pub proof fn law_serving_keeps_the_handles_tidy(desk: Desk, query: Query)
    requires
        desk.tidy(),
        desk.room(query),
    ensures
        desk.serve(query).0.tidy(),
        desk.serve(query).0.next >= desk.next,
{
    let after = desk.serve(query).0;
    assert forall|handle: Seq<char>| #[trigger] after.handles.dom().contains(handle) implies
        after.given(handle) by {
        if desk.handles.dom().contains(handle) {
            assert(desk.given(handle));
            let number = choose|number: u64|
                number < desk.next && #[trigger] numbers(handle, number);
            assert(number < after.next && numbers(handle, number));
        } else {
            assert(desk.next < after.next && numbers(handle, desk.next));
        }
    }
}

proof fn lemma_named(id: u32, name: Seq<char>, rest: Seq<u8>)
    requires
        encode_utf8(name).len() <= u32::MAX,
    ensures
        take_named(be32(id) + (string(encode_utf8(name)) + rest)) == Ok::<
            (u32, Seq<char>, Seq<u8>),
            Error,
        >((id, name, rest)),
{
    law_u32_reads_back(id, string(encode_utf8(name)) + rest);
    law_string_reads_back(encode_utf8(name), rest);
    law_text_reads_back(name);
}

/// The requests by their types: 3 opens, 4 closes, 5 reads, 6 writes, 11 opens the directory, 12
/// lists it, 13 removes, 1 begins, and another is refused. Each is what stands in its body, in the
/// order in which it stands there, whatever follows.
pub proof fn law_a_request_is_known_by_its_type(
    id: u32,
    name: Seq<char>,
    flags: u32,
    offset: u64,
    want: u32,
    data: Seq<u8>,
    rest: Seq<u8>,
    kind: u8,
    body: Seq<u8>,
)
    requires
        encode_utf8(name).len() <= u32::MAX,
        data.len() <= u32::MAX,
    ensures
        ({
            let called = string(encode_utf8(name));
            let placed = be64(offset);
            &&& query(1, rest) == Ok::<Query, Error>(Query::Init)
            &&& query(3, be32(id) + (called + (be32(flags) + rest))) == Ok::<Query, Error>(
                Query::Open { id, name, flags },
            )
            &&& query(6, be32(id) + (called + (placed + (string(data) + rest)))) == Ok::<
                Query,
                Error,
            >(Query::Write { id, handle: name, offset, data })
            &&& query(5, be32(id) + (called + (placed + (be32(want) + rest)))) == Ok::<
                Query,
                Error,
            >(Query::Read { id, handle: name, offset, want })
            &&& query(11, be32(id) + (string(data) + rest)) == Ok::<Query, Error>(
                Query::Opendir { id },
            )
            &&& query(12, be32(id) + (called + rest)) == Ok::<Query, Error>(
                Query::Readdir { id, handle: name },
            )
            &&& query(4, be32(id) + (called + rest)) == Ok::<Query, Error>(
                Query::Close { id, handle: name },
            )
            &&& query(13, be32(id) + (called + rest)) == Ok::<Query, Error>(
                Query::Remove { id, name },
            )
            &&& kind == 0 || 6 < kind < 11 || kind == 2 || kind > 13 ==> query(kind, body)
                == Err::<Query, Error>(Error::RequestType(kind))
        }),
{
    assert(query(1, rest) == Ok::<Query, Error>(Query::Init)) by {
        reveal(query);
    }
    lemma_open_is_asked(id, name, flags, rest);
    lemma_write_is_asked(id, name, offset, data, rest);
    lemma_read_is_asked(id, name, offset, want, rest);
    lemma_named_is_asked(id, name, data, rest);
    assert(kind == 0 || 6 < kind < 11 || kind == 2 || kind > 13 ==> query(kind, body) == Err::<
        Query,
        Error,
    >(Error::RequestType(kind))) by {
        reveal(query);
    }
}

proof fn lemma_open_is_asked(id: u32, name: Seq<char>, flags: u32, rest: Seq<u8>)
    requires
        encode_utf8(name).len() <= u32::MAX,
    ensures
        query(3, be32(id) + (string(encode_utf8(name)) + (be32(flags) + rest))) == Ok::<
            Query,
            Error,
        >(Query::Open { id, name, flags }),
{
    reveal(query);
    lemma_named(id, name, be32(flags) + rest);
    law_u32_reads_back(flags, rest);
}

proof fn lemma_write_is_asked(
    id: u32,
    handle: Seq<char>,
    offset: u64,
    data: Seq<u8>,
    rest: Seq<u8>,
)
    requires
        encode_utf8(handle).len() <= u32::MAX,
        data.len() <= u32::MAX,
    ensures
        query(
            6,
            be32(id) + (string(encode_utf8(handle)) + (be64(offset) + (string(data) + rest))),
        ) == Ok::<Query, Error>(Query::Write { id, handle, offset, data }),
{
    reveal(query);
    lemma_named(id, handle, be64(offset) + (string(data) + rest));
    law_u64_reads_back(offset, string(data) + rest);
    law_string_reads_back(data, rest);
}

proof fn lemma_read_is_asked(id: u32, handle: Seq<char>, offset: u64, want: u32, rest: Seq<u8>)
    requires
        encode_utf8(handle).len() <= u32::MAX,
    ensures
        query(
            5,
            be32(id) + (string(encode_utf8(handle)) + (be64(offset) + (be32(want) + rest))),
        ) == Ok::<Query, Error>(Query::Read { id, handle, offset, want }),
{
    reveal(query);
    lemma_named(id, handle, be64(offset) + (be32(want) + rest));
    law_u64_reads_back(offset, be32(want) + rest);
    law_u32_reads_back(want, rest);
}

proof fn lemma_named_is_asked(id: u32, name: Seq<char>, path: Seq<u8>, rest: Seq<u8>)
    requires
        encode_utf8(name).len() <= u32::MAX,
        path.len() <= u32::MAX,
    ensures
        query(11, be32(id) + (string(path) + rest)) == Ok::<Query, Error>(Query::Opendir { id }),
        query(12, be32(id) + (string(encode_utf8(name)) + rest)) == Ok::<Query, Error>(
            Query::Readdir { id, handle: name },
        ),
        query(4, be32(id) + (string(encode_utf8(name)) + rest)) == Ok::<Query, Error>(
            Query::Close { id, handle: name },
        ),
        query(13, be32(id) + (string(encode_utf8(name)) + rest)) == Ok::<Query, Error>(
            Query::Remove { id, name },
        ),
{
    reveal(query);
    law_u32_reads_back(id, string(path) + rest);
    law_string_reads_back(path, rest);
    lemma_named(id, name, rest);
}

/// A request that names something in bytes that are no text is refused for that.
pub proof fn law_a_name_has_to_be_text(id: u32, name: Seq<u8>, rest: Seq<u8>)
    requires
        name.len() <= u32::MAX,
        text_of(name) is None,
    ensures
        forall|kind: u8|
            kind == 3 || kind == 4 || kind == 5 || kind == 6 || kind == 12 || kind == 13
                ==> #[trigger] query(kind, be32(id) + (string(name) + rest)) == Err::<
                Query,
                Error,
            >(Error::NameNotUtf8),
{
    reveal(query);
    law_u32_reads_back(id, string(name) + rest);
    law_string_reads_back(name, rest);
}

/// What a request and a handle stand for is what they hold.
pub proof fn law_a_request_asks_what_it_holds(request: Request<'_>, handle: Handle)
    ensures
        match request {
            Request::Init => request@ == Query::Init,
            Request::Open { id, name, flags } => request@ == (Query::Open {
                id,
                name: name@,
                flags,
            }),
            Request::Write { id, handle, offset, data } => request@ == (Query::Write {
                id,
                handle: handle@,
                offset,
                data: data@,
            }),
            Request::Read { id, handle, offset, want } => request@ == (Query::Read {
                id,
                handle: handle@,
                offset,
                want,
            }),
            Request::Opendir { id } => request@ == (Query::Opendir { id }),
            Request::Readdir { id, handle } => request@ == (Query::Readdir {
                id,
                handle: handle@,
            }),
            Request::Close { id, handle } => request@ == (Query::Close { id, handle: handle@ }),
            Request::Remove { id, name } => request@ == (Query::Remove { id, name: name@ }),
        },
        match handle {
            Handle::Write(name) => handle@ == Held::Write(name@),
            Handle::Read(name) => handle@ == Held::Read(name@),
            Handle::Dir(read) => handle@ == Held::Dir(read),
        },
{
}

/// What the far end holds is its files, its handles and its number, each by itself.
pub proof fn law_the_desk_is_what_is_on_it(files: Files, handles: Handles, next: u64)
    ensures
        desk(files, handles, next).files == files@,
        desk(files, handles, next).handles == handles@,
        desk(files, handles, next).next == next,
{
}

/// Everything is served but what cannot be numbered or held: an open where no number is left, and
/// a write to an open file past what this machine can address.
pub proof fn law_what_is_served(desk: Desk, asked: Query)
    ensures
        asked is Init || asked is Read || asked is Readdir || asked is Close || asked is Remove
            ==> desk.room(asked),
        asked is Open || asked is Opendir ==> (desk.room(asked) <==> desk.next
            < 0xffff_ffff_ffff_ffff),
        asked matches Query::Write { handle, offset, data, .. } ==> (!desk.room(asked) <==> {
            &&& desk.handles.dom().contains(handle)
            &&& desk.handles[handle] is Write
            &&& offset + data.len() > isize::MAX
        }),
{
}

/// Opening a file numbers a handle for it, `h` and the number, and the next number is one more.
/// To write, which the second bit of the flags asks for, the file is emptied or created; to read,
/// it is left as it is, and has to be there: where it is not, the answer is the status 2.
pub proof fn law_an_open_makes_a_handle(desk: Desk, id: u32, name: Seq<char>, flags: u32)
    requires
        desk.next < u64::MAX,
    ensures
        ({
            let (after, said) = desk.serve(Query::Open { id, name, flags });
            let handle = seq!['h'] + digits(desk.next as nat);
            let writes = flags & 2 != 0;
            &&& after.next == desk.next + 1
            &&& after.files == if writes {
                desk.files.insert(name, Seq::empty())
            } else {
                desk.files
            }
            &&& if writes || desk.files.dom().contains(name) {
                &&& said == handle_given(id, handle)
                &&& after.handles == desk.handles.insert(
                    handle,
                    if writes {
                        Held::Write(name)
                    } else {
                        Held::Read(name)
                    },
                )
            } else {
                &&& said == status_given(id, 2, "no such file"@)
                &&& after.handles == desk.handles
            }
        }),
{
}

/// A write puts its bytes where it says, and nowhere else: the file is as long as it was, or as
/// long as the write goes; where neither the file nor the write reached, it holds zeros. The
/// answer is the status 0. Through a handle that is not open to write nothing is written, and the
/// answer is the status 4.
pub proof fn law_a_write_is_to_the_byte(
    desk: Desk,
    id: u32,
    handle: Seq<char>,
    name: Seq<char>,
    offset: u64,
    data: Seq<u8>,
)
    ensures
        ({
            let (after, said) = desk.serve(Query::Write { id, handle, offset, data });
            let before = if desk.files.dom().contains(name) {
                desk.files[name]
            } else {
                Seq::empty()
            };
            let end = offset + data.len();
            let open = desk.handles.dom().contains(handle) && desk.handles[handle] is Write;
            &&& after.handles == desk.handles && after.next == desk.next
            &&& !open ==> after.files == desk.files && said == status_given(
                id,
                4,
                "a write to a handle not open for writing"@,
            )
            &&& open && desk.handles[handle] == Held::Write(name) ==> {
                let file = after.files[name];
                &&& said == status_given(id, 0, "written"@)
                &&& after.files == desk.files.insert(name, file)
                &&& file.len() == if before.len() > end {
                    before.len() as int
                } else {
                    end
                }
                &&& forall|i: int|
                    0 <= i < file.len() ==> #[trigger] file[i] == if offset <= i < end {
                        data[i - offset]
                    } else if i < before.len() {
                        before[i]
                    } else {
                        0
                    }
            }
        }),
{
}

/// A read gives what stands in the file where it says, as many bytes as it wants or as there are;
/// from the end of the file on the answer is the status 1, and through a handle that is not open to
/// read the status 4. It changes nothing.
pub proof fn law_a_read_is_to_the_byte(
    desk: Desk,
    id: u32,
    handle: Seq<char>,
    offset: u64,
    want: u32,
)
    ensures
        ({
            let (after, said) = desk.serve(Query::Read { id, handle, offset, want });
            &&& after == desk
            &&& if !desk.handles.dom().contains(handle) {
                said == status_given(id, 4, "a read from a handle not open for reading"@)
            } else {
                match desk.handles[handle] {
                    Held::Read(name) => {
                        let file = if desk.files.dom().contains(name) {
                            desk.files[name]
                        } else {
                            Seq::empty()
                        };
                        if offset < file.len() {
                            exists|data: Seq<u8>|
                                {
                                    &&& said == #[trigger] data_given(id, data)
                                    &&& data.len() == if file.len() - offset < want {
                                        file.len() - offset
                                    } else {
                                        want as int
                                    }
                                    &&& forall|i: int|
                                        0 <= i < data.len() ==> #[trigger] data[i] == file[offset
                                            + i]
                                }
                        } else {
                            said == status_given(id, 1, "end of file"@)
                        }
                    },
                    _ => said == status_given(
                        id,
                        4,
                        "a read from a handle not open for reading"@,
                    ),
                }
            }
        }),
{
    if desk.handles.dom().contains(handle) {
        if let Held::Read(name) = desk.handles[handle] {
            let file = desk.file(name);
            if offset < file.len() {
                let end = if file.len() < offset + want {
                    file.len() as int
                } else {
                    offset + want
                };
                let data = file.subrange(offset as int, end);
                assert(desk.read(id, handle, offset, want) == data_given(id, data));
            }
        }
    }
}

/// The directory is opened under a handle of its own, `d` and the number, and listed through it:
/// every name once, in their order, and then, with the status 1, the end. Through another handle
/// the answer is the status 4.
pub proof fn law_the_directory_is_listed(
    desk: Desk,
    id: u32,
    handle: Seq<char>,
    names: Seq<Seq<char>>,
)
    requires
        desk.next < u64::MAX,
        lists(names, desk.files.dom()),
    ensures
        ({
            let (opened, given) = desk.serve(Query::Opendir { id });
            let fresh = seq!['d'] + digits(desk.next as nat);
            &&& given == handle_given(id, fresh)
            &&& opened == (Desk {
                handles: desk.handles.insert(fresh, Held::Dir(false)),
                next: (desk.next + 1) as u64,
                ..desk
            })
        }),
        ({
            let (after, said) = desk.serve(Query::Readdir { id, handle });
            let open = desk.handles.dom().contains(handle);
            &&& open && desk.handles[handle] == Held::Dir(false) ==> said == names_given(id, names)
                && after == (Desk {
                handles: desk.handles.insert(handle, Held::Dir(true)),
                ..desk
            })
            &&& open && desk.handles[handle] == Held::Dir(true) ==> said == status_given(
                id,
                1,
                "end of directory"@,
            ) && after == desk
            &&& !open || desk.handles[handle] is Write || desk.handles[handle] is Read ==> said
                == status_given(id, 4, "a readdir on a handle that is not a directory"@) && after
                == desk
        }),
{
    law_a_set_has_one_listing(names, names, desk.files.dom());
}

/// A close lets go of one handle and of nothing else, whether or not it was open; a remove takes
/// one file out, its bytes with it, and nothing else, and is refused with the status 2 where there
/// is none.
pub proof fn law_a_close_and_a_remove_take_one_thing(desk: Desk, id: u32, name: Seq<char>)
    ensures
        ({
            let (after, said) = desk.serve(Query::Close { id, handle: name });
            &&& said == status_given(id, 0, "closed"@)
            &&& after == (Desk { handles: desk.handles.remove(name), ..desk })
        }),
        ({
            let (after, said) = desk.serve(Query::Remove { id, name });
            if desk.files.dom().contains(name) {
                said == status_given(id, 0, "removed"@) && after == (Desk {
                    files: desk.files.remove(name),
                    ..desk
                })
            } else {
                said == status_given(id, 2, "no such file"@) && after == desk
            }
        }),
{
}

/// A reply goes out as a packet of its type and its body, with their length before them.
pub proof fn law_a_reply_goes_out_framed(reply: Reply)
    requires
        reply.body.len() < u32::MAX,
    ensures
        reads(
            reply.frame(),
            fields(Field::Number((reply.body.len() + 1) as u32))
                .push(Field::Byte(reply.kind))
                .push(Field::Raw(reply.body)),
        ),
{
    law_a_frame_field_by_field(reply.kind, reply.body);
}

/// A frame that is there whole and asks what can be served is taken off the stream and answered to
/// the peer's channel, in its packet size; what cannot be understood or served ends the serving
/// and leaves everything held as it was. Without a whole frame nothing is served, and nothing
/// taken.
pub proof fn law_a_frame_is_answered(desk: Desk, stream: Stream, more: bool)
    ensures
        ({
            let one = attend_one(desk, stream, more);
            match stream.frame(more) {
                FrameRead::Whole { body, taken } => {
                    &&& one.stream == stream.without(taken)
                    &&& if body.len() == 0 {
                        one.finish == Some(Finish::Failed(Error::SftpNoType))
                    } else {
                        match query(body[0], body.skip(1)) {
                            Err(error) => one.finish == Some(Finish::Failed(error)),
                            Ok(asked) => if desk.room(asked) {
                                &&& one.finish is None
                                &&& one.desk == desk.serve(asked).0
                                &&& one.messages == data_messages(
                                    stream.remote_id,
                                    limit(stream.largest),
                                    desk.serve(asked).1.frame(),
                                )
                            } else {
                                one.finish == Some(Finish::Failed(Error::Unservable))
                            },
                        }
                    }
                },
                FrameRead::Wait => one.finish == Some(Finish::Wait) && one.stream == stream,
                FrameRead::End => one.finish == Some(Finish::End) && one.stream == stream,
                FrameRead::Cut => one.finish == Some(Finish::Failed(Error::ChannelEnded))
                    && one.stream == stream,
            }
        }),
        attend_one(desk, stream, more).finish is Some ==> attend_one(desk, stream, more).desk
            == desk && attend_one(desk, stream, more).messages.len() == 0,
{
    reveal(attend_one);
}

/// Frames are answered one after the other, each at the desk as the one before it left it, and the
/// answers go out in that order, until one ends the serving.
pub proof fn law_frames_are_answered_in_turn(desk: Desk, stream: Stream, more: bool)
    ensures
        ({
            let one = attend_one(desk, stream, more);
            let all = attend(desk, stream, more);
            let later = attend(one.desk, one.stream, true);
            if one.finish is Some {
                all == one
            } else {
                &&& all.messages == one.messages + later.messages
                &&& all.desk == later.desk
                &&& all.stream == later.stream
                &&& all.finish == later.finish
            }
        }),
{
}

/// A request that is cut short of its fields is refused as cut short: the name or the handle with
/// its number before it, and what each type of request asks for behind them.
pub proof fn law_a_cut_request_is_refused(body: Seq<u8>)
    ensures
        ({
            let named = take_named(body);
            &&& named is Ok <==> {
                &&& body.len() >= 4
                &&& take_string(body.skip(4)) matches Some((name, _))
                &&& text_of(name) is Some
            }
            &&& named matches Err(error) ==> error is Truncated || error is NameNotUtf8
            &&& body.len() < 4 || take_string(body.skip(4)) is None ==> named == Err::<
                (u32, Seq<char>, Seq<u8>),
                Error,
            >(Error::Truncated)
            &&& match named {
                Err(error) => forall|kind: u8|
                    kind == 3 || kind == 4 || kind == 5 || kind == 6 || kind == 12 || kind == 13
                        ==> #[trigger] query(kind, body) == Err::<Query, Error>(error),
                Ok((_, _, rest)) => {
                    &&& rest.len() < 4 ==> query(3, body) == Err::<Query, Error>(Error::Truncated)
                    &&& rest.len() < 12 ==> query(5, body) == Err::<Query, Error>(Error::Truncated)
                    &&& rest.len() < 8 || take_string(rest.skip(8)) is None ==> query(6, body)
                        == Err::<Query, Error>(Error::Truncated)
                },
            }
            &&& body.len() < 4 || take_string(body.skip(4)) is None ==> query(11, body) == Err::<
                Query,
                Error,
            >(Error::Truncated)
        }),
{
    reveal(query);
}

} // verus!
