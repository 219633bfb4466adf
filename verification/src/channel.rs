//! One session channel and the `sftp` subsystem over it (RFC 4254): the client opens a session,
//! asks for the subsystem, and from then on the channel is a byte stream in each direction. The
//! SFTP layer above frames its own packets over that stream, so a single SFTP packet may cross
//! more than one `SSH_MSG_CHANNEL_DATA` and the reader reassembles it.
//!
//! A channel works on messages: what arrived is handed to it, what it returns is to be sent.
//! Reading off the stream gives nothing while too little has arrived; another message is then
//! handed to [`Channel::pump`], and what that tells of more to come goes into the next attempt.

use vstd::prelude::*;
use vstd::slice::slice_to_vec;
use vstd::string::*;
use vstd::utf8::encode_utf8;

use crate::cipher::take;
use crate::error::Error;
use crate::packet::{due, insist};
use crate::text::law_encoding_is_short;
use crate::wire::{
    be32, boolean, from_be32, joined, law_bool_reads_back, law_string_reads_back,
    law_u32_reads_back, read_be32, same_bytes, string, take_bool, take_string, take_u32, Reader,
    Writer,
};

verus! {

/// Open a channel.
pub const CHANNEL_OPEN: u8 = 90;
/// Confirm one.
pub const CHANNEL_OPEN_CONFIRMATION: u8 = 91;
/// Grant the peer more window.
pub const CHANNEL_WINDOW_ADJUST: u8 = 93;
/// Carry channel bytes.
pub const CHANNEL_DATA: u8 = 94;
/// The peer will send no more.
pub const CHANNEL_EOF: u8 = 96;
/// The peer is done with the channel.
pub const CHANNEL_CLOSE: u8 = 97;
/// Ask something of a channel.
pub const CHANNEL_REQUEST: u8 = 98;
/// The request was granted.
pub const CHANNEL_SUCCESS: u8 = 99;

/// The window each side offers: larger than the ceiling, so a whole file crosses without a
/// window adjustment.
pub const INITIAL_WINDOW: u32 = 0x0400_0000;
/// The most one channel-data message carries.
pub const MAX_CHANNEL_PACKET: usize = 32_768;

/// A session channel as a byte stream, with the peer's channel number, the packet size it
/// advertised and the bytes it has sent that the SFTP layer has not yet read.
pub struct Channel {
    remote_id: u32,
    largest: u32,
    incoming: Vec<u8>,
    eof: bool,
    closed: bool,
}

/// What a channel holds.
pub ghost struct Stream {
    pub remote_id: u32,
    pub largest: u32,
    pub incoming: Seq<u8>,
    pub eof: bool,
    pub closed: bool,
}

impl View for Channel {
    type V = Stream;

    closed spec fn view(&self) -> Stream {
        Stream {
            remote_id: self.remote_id,
            largest: self.largest,
            incoming: self.incoming@,
            eof: self.eof,
            closed: self.closed,
        }
    }
}

/// A channel as it is when it has just been opened.
pub open spec fn fresh(remote_id: u32, largest: u32) -> Stream {
    Stream { remote_id, largest, incoming: Seq::empty(), eof: false, closed: false }
}

/// The most one channel-data message to a peer carries that advertised `largest` as its packet
/// size: no more than it takes, and no more than [`MAX_CHANNEL_PACKET`]. A peer that advertised
/// 0, into which nothing fits, told nothing of its packet size.
pub open spec fn limit(largest: u32) -> nat {
    if largest == 0 || largest > MAX_CHANNEL_PACKET {
        MAX_CHANNEL_PACKET as nat
    } else {
        largest as nat
    }
}

/// The message that opens a session channel.
pub open spec fn open_message() -> Seq<u8> {
    seq![CHANNEL_OPEN] + string(encode_utf8("session"@)) + be32(0) + be32(INITIAL_WINDOW) + be32(
        MAX_CHANNEL_PACKET as u32,
    )
}

/// The message that confirms it.
pub open spec fn confirmation_message(remote_id: u32) -> Seq<u8> {
    seq![CHANNEL_OPEN_CONFIRMATION] + be32(remote_id) + be32(0) + be32(INITIAL_WINDOW) + be32(
        MAX_CHANNEL_PACKET as u32,
    )
}

/// The message that asks for the subsystem.
pub open spec fn subsystem_message(remote_id: u32) -> Seq<u8> {
    seq![CHANNEL_REQUEST] + be32(remote_id) + string(encode_utf8("subsystem"@)) + boolean(true)
        + string(encode_utf8("sftp"@))
}

/// A message that only names the peer's channel.
pub open spec fn bare_message(number: u8, remote_id: u32) -> Seq<u8> {
    seq![number] + be32(remote_id)
}

/// The messages that close a channel: end of data, then close.
pub open spec fn goodbye(remote_id: u32) -> Seq<Seq<u8>> {
    seq![bare_message(CHANNEL_EOF, remote_id), bare_message(CHANNEL_CLOSE, remote_id)]
}

/// The message that carries `chunk`.
pub open spec fn data_message(remote_id: u32, chunk: Seq<u8>) -> Seq<u8> {
    seq![CHANNEL_DATA] + be32(remote_id) + string(chunk)
}

/// The messages that carry `bytes`, up to `most` of them each, and each as full as it can be but
/// the last.
pub open spec fn data_messages(remote_id: u32, most: nat, bytes: Seq<u8>) -> Seq<Seq<u8>>
    recommends
        most > 0,
    decreases bytes.len(),
{
    if bytes.len() == 0 {
        Seq::empty()
    } else if most == 0 || bytes.len() <= most {
        seq![data_message(remote_id, bytes)]
    } else {
        seq![data_message(remote_id, bytes.take(most as int))] + data_messages(
            remote_id,
            most,
            bytes.skip(most as int),
        )
    }
}

/// Messages as sequences of bytes.
pub open spec fn messages(sent: Seq<Vec<u8>>) -> Seq<Seq<u8>> {
    sent.map_values(|message: Vec<u8>| message@)
}

/// The packet size out of what follows the peer's channel number: the window, then the packet
/// size. A message that ends before it advertises none, and is taken for one that advertises
/// [`MAX_CHANNEL_PACKET`].
pub open spec fn advertised(sizes: Seq<u8>) -> u32 {
    match take_u32(sizes) {
        None => MAX_CHANNEL_PACKET as u32,
        Some((_, rest)) => match take_u32(rest) {
            None => MAX_CHANNEL_PACKET as u32,
            Some((largest, _)) => largest,
        },
    }
}

/// The peer's channel number and packet size out of a confirmation.
pub open spec fn confirmed(message: Seq<u8>) -> Result<(u32, u32), Error> {
    match due(message, CHANNEL_OPEN_CONFIRMATION, "the channel confirmation") {
        Err(error) => Err(error),
        Ok(_) => match take_u32(message.skip(1)) {
            None => Err(Error::Truncated),
            Some((_, rest)) => match take_u32(rest) {
                None => Err(Error::Truncated),
                Some((remote_id, sizes)) => Ok((remote_id, advertised(sizes))),
            },
        },
    }
}

/// The peer's channel number and packet size out of the opening of a session.
pub open spec fn session_opened(message: Seq<u8>) -> Result<(u32, u32), Error> {
    match due(message, CHANNEL_OPEN, "a channel open") {
        Err(error) => Err(error),
        Ok(_) => match take_string(message.skip(1)) {
            None => Err(Error::Truncated),
            Some((kind, rest)) => if kind != encode_utf8("session"@) {
                Err(Error::NotSession)
            } else {
                match take_u32(rest) {
                    None => Err(Error::Truncated),
                    Some((remote_id, sizes)) => Ok((remote_id, advertised(sizes))),
                }
            },
        },
    }
}

/// What is to be said of a request for the subsystem.
pub open spec fn subsystem_asked(message: Seq<u8>) -> Result<(), Error> {
    match due(message, CHANNEL_REQUEST, "a channel request") {
        Err(error) => Err(error),
        Ok(_) => match take_u32(message.skip(1)) {
            None => Err(Error::Truncated),
            Some((_, rest)) => match take_string(rest) {
                None => Err(Error::Truncated),
                Some((kind, rest)) => if kind != encode_utf8("subsystem"@) {
                    Err(Error::NotSubsystem)
                } else {
                    match take_bool(rest) {
                        None => Err(Error::Truncated),
                        Some((_, rest)) => match take_string(rest) {
                            None => Err(Error::Truncated),
                            Some((name, _)) => if name != encode_utf8("sftp"@) {
                                Err(Error::NotSftp)
                            } else {
                                Ok(())
                            },
                        },
                    }
                },
            },
        },
    }
}

/// How far the opening of a channel has come, on the side that opens it.
pub enum OpenStage {
    /// The channel is asked for, the confirmation due.
    Asked,
    /// The subsystem is asked for, the grant due.
    Requested { remote_id: u32, largest: u32 },
}

/// What a message does to the opening of a channel.
pub enum OpenTurn {
    /// Send this, and await the next message.
    Send { stage: OpenStage, message: Vec<u8> },
    /// The channel is open, the subsystem started.
    Open(Channel),
}

/// How far the opening of a channel has come, on the side that accepts it.
pub enum AcceptStage {
    /// The opening is due.
    Listening,
    /// The channel is confirmed, the request for the subsystem due.
    Confirmed { remote_id: u32, largest: u32 },
}

/// What a message does to the accepting of a channel.
pub enum AcceptTurn {
    /// Send this, and await the next message.
    Send { stage: AcceptStage, message: Vec<u8> },
    /// Send this; the channel is open, the subsystem started.
    Open { channel: Channel, message: Vec<u8> },
}

/// What reading a frame off the stream gives.
pub enum Frame {
    /// A frame, its length off.
    Whole(Vec<u8>),
    /// The stream ended cleanly with nothing more to give.
    End,
    /// Too little has arrived.
    Wait,
}

/// What reading a frame off a stream gives: a frame, the end after the last of them, nothing yet,
/// or the end inside one.
pub ghost enum FrameRead {
    Whole { body: Seq<u8>, taken: nat },
    End,
    Wait,
    Cut,
}

impl Stream {
    /// Whether the peer has said it will send no more.
    pub open spec fn done(self) -> bool {
        self.eof || self.closed
    }

    /// The messages that carry `bytes` to the peer.
    pub open spec fn sends(self, bytes: Seq<u8>) -> Seq<Seq<u8>> {
        data_messages(self.remote_id, limit(self.largest), bytes)
    }

    /// What one more message does to the stream, and whether more may yet come. Bytes from a peer
    /// that has said it will send no more are no part of the stream.
    pub open spec fn pump(self, message: Seq<u8>) -> Result<(Stream, bool), Error> {
        if message.len() == 0 {
            Err(Error::ChannelMessage(None))
        } else if message[0] == CHANNEL_DATA {
            match take_u32(message.skip(1)) {
                None => Err(Error::Truncated),
                Some((_, rest)) => match take_string(rest) {
                    None => Err(Error::Truncated),
                    Some((data, _)) => if self.done() {
                        Ok((self, self.incoming.len() > 0))
                    } else {
                        Ok((Stream { incoming: self.incoming + data, ..self }, true))
                    },
                },
            }
        } else if message[0] == CHANNEL_WINDOW_ADJUST {
            Ok((self, true))
        } else if message[0] == CHANNEL_EOF {
            Ok((Stream { eof: true, ..self }, self.incoming.len() > 0))
        } else if message[0] == CHANNEL_CLOSE {
            Ok((Stream { closed: true, ..self }, self.incoming.len() > 0))
        } else {
            Err(Error::ChannelMessage(Some(message[0])))
        }
    }

    /// The stream without the first `n` bytes it holds.
    pub open spec fn without(self, n: nat) -> Stream {
        Stream { incoming: self.incoming.skip(n as int), ..self }
    }

    /// The length-prefixed frame that the stream begins with.
    pub open spec fn frame(self, more: bool) -> FrameRead {
        let n = from_be32(self.incoming.take(4)) as nat;
        if self.incoming.len() >= 4 && self.incoming.len() >= 4 + n {
            FrameRead::Whole { body: self.incoming.subrange(4, 4 + n as int), taken: 4 + n }
        } else if more && !self.done() {
            FrameRead::Wait
        } else if self.incoming.len() == 0 {
            FrameRead::End
        } else {
            FrameRead::Cut
        }
    }
}

impl Channel {
    /// The message that opens a session channel, with which [`Channel::open`] begins at
    /// [`OpenStage::Asked`].
    pub fn ask() -> (message: Vec<u8>)
        ensures
            message@ == open_message(),
    {
        let mut open = Writer::new();
        open.byte(CHANNEL_OPEN).string("session".as_bytes()).u32(0).u32(INITIAL_WINDOW).u32(
            MAX_CHANNEL_PACKET as u32,
        );
        let message = open.finish();
        assert(message@ =~= open_message());
        message
    }

    /// Open a session channel and start the `sftp` subsystem (the client): what the message that
    /// was due brings about.
    pub fn open(stage: OpenStage, message: &[u8]) -> (turn: Result<OpenTurn, Error>)
        ensures
            match stage {
                OpenStage::Asked => match confirmed(message@) {
                    Ok((remote_id, largest)) => turn is Ok && turn->Ok_0 is Send
                        && turn->Ok_0->stage == (OpenStage::Requested { remote_id, largest })
                        && turn->Ok_0->message@
                        == subsystem_message(remote_id),
                    Err(error) => turn == Err::<OpenTurn, Error>(error),
                },
                OpenStage::Requested { remote_id, largest } => match due(
                    message@,
                    CHANNEL_SUCCESS,
                    "the subsystem confirmation",
                ) {
                    Ok(_) => turn is Ok && turn->Ok_0 is Open && turn->Ok_0->0@ == fresh(
                        remote_id,
                        largest,
                    ),
                    Err(error) => turn == Err::<OpenTurn, Error>(error),
                },
            },
    {
        match stage {
            OpenStage::Asked => {
                insist(message, CHANNEL_OPEN_CONFIRMATION, "the channel confirmation")?;
                let mut reader = Reader::new(&message[1..message.len()]);
                assert(reader@ =~= message@.skip(1));
                let _local = reader.u32()?;
                let remote_id = reader.u32()?;
                let largest = packet_size(&mut reader);
                let mut request = Writer::new();
                request.byte(CHANNEL_REQUEST).u32(remote_id).string("subsystem".as_bytes()).bool(
                    true,
                ).string("sftp".as_bytes());
                let request = request.finish();
                assert(request@ =~= subsystem_message(remote_id));
                Ok(
                    OpenTurn::Send {
                        stage: OpenStage::Requested { remote_id, largest },
                        message: request,
                    },
                )
            },
            OpenStage::Requested { remote_id, largest } => {
                insist(message, CHANNEL_SUCCESS, "the subsystem confirmation")?;
                Ok(
                    OpenTurn::Open(
                        Channel {
                            remote_id,
                            largest,
                            incoming: Vec::new(),
                            eof: false,
                            closed: false,
                        },
                    ),
                )
            },
        }
    }

    /// Accept a session channel and the `sftp` subsystem request (the far end): what the message
    /// that was due brings about.
    pub fn accept(stage: AcceptStage, message: &[u8]) -> (turn: Result<AcceptTurn, Error>)
        ensures
            match stage {
                AcceptStage::Listening => match session_opened(message@) {
                    Ok((remote_id, largest)) => turn is Ok && turn->Ok_0 is Send
                        && turn->Ok_0->stage == (AcceptStage::Confirmed { remote_id, largest })
                        && turn->Ok_0->Send_message@
                        == confirmation_message(remote_id),
                    Err(error) => turn == Err::<AcceptTurn, Error>(error),
                },
                AcceptStage::Confirmed { remote_id, largest } => match subsystem_asked(message@) {
                    Ok(_) => turn is Ok && turn->Ok_0 is Open && turn->Ok_0->channel@ == fresh(
                        remote_id,
                        largest,
                    ) && turn->Ok_0->Open_message@ == bare_message(CHANNEL_SUCCESS, remote_id),
                    Err(error) => turn == Err::<AcceptTurn, Error>(error),
                },
            },
    {
        match stage {
            AcceptStage::Listening => {
                insist(message, CHANNEL_OPEN, "a channel open")?;
                let mut reader = Reader::new(&message[1..message.len()]);
                assert(reader@ =~= message@.skip(1));
                let kind = reader.string()?;
                if !same_bytes(kind, "session".as_bytes()) {
                    return Err(Error::NotSession);
                }
                let remote_id = reader.u32()?;
                let largest = packet_size(&mut reader);
                let mut confirmation = Writer::new();
                confirmation.byte(CHANNEL_OPEN_CONFIRMATION).u32(remote_id).u32(0).u32(
                    INITIAL_WINDOW,
                ).u32(MAX_CHANNEL_PACKET as u32);
                let confirmation = confirmation.finish();
                assert(confirmation@ =~= confirmation_message(remote_id));
                Ok(
                    AcceptTurn::Send {
                        stage: AcceptStage::Confirmed { remote_id, largest },
                        message: confirmation,
                    },
                )
            },
            AcceptStage::Confirmed { remote_id, largest } => {
                insist(message, CHANNEL_REQUEST, "a channel request")?;
                let mut reader = Reader::new(&message[1..message.len()]);
                assert(reader@ =~= message@.skip(1));
                let _recipient = reader.u32()?;
                let kind = reader.string()?;
                if !same_bytes(kind, "subsystem".as_bytes()) {
                    return Err(Error::NotSubsystem);
                }
                let _want_reply = reader.bool()?;
                let name = reader.string()?;
                if !same_bytes(name, "sftp".as_bytes()) {
                    return Err(Error::NotSftp);
                }
                Ok(
                    AcceptTurn::Open {
                        channel: Channel {
                            remote_id,
                            largest,
                            incoming: Vec::new(),
                            eof: false,
                            closed: false,
                        },
                        message: bare(CHANNEL_SUCCESS, remote_id),
                    },
                )
            },
        }
    }

    /// The messages that carry `bytes`, split to the peer's packet size.
    pub fn write(&self, bytes: &[u8]) -> (sent: Vec<Vec<u8>>)
        ensures
            messages(sent@) == data_messages(self@.remote_id, limit(self@.largest), bytes@),
    {
        let most: usize = if self.largest == 0 || self.largest as usize > MAX_CHANNEL_PACKET {
            MAX_CHANNEL_PACKET
        } else {
            self.largest as usize
        };
        let mut sent: Vec<Vec<u8>> = Vec::new();
        let mut at: usize = 0;
        let ghost all = data_messages(self.remote_id, most as nat, bytes@);
        assert(bytes@.skip(0) =~= bytes@);
        assert(messages(sent@) + all =~= all);
        while at < bytes.len()
            invariant
                most > 0,
                at <= bytes@.len(),
                messages(sent@) + data_messages(
                    self.remote_id,
                    most as nat,
                    bytes@.skip(at as int),
                ) == all,
            decreases bytes@.len() - at,
        {
            let count: usize = if bytes.len() - at <= most {
                bytes.len() - at
            } else {
                most
            };
            let chunk = &bytes[at..at + count];
            let ghost rest = bytes@.skip(at as int);
            assert(chunk@ =~= rest.take(count as int));
            assert(rest.take(rest.len() as int) =~= rest);
            assert(rest.skip(count as int) =~= bytes@.skip((at + count) as int));
            let mut data = Writer::new();
            data.byte(CHANNEL_DATA).u32(self.remote_id).string(chunk);
            let message = data.finish();
            assert(message@ =~= data_message(self.remote_id, chunk@));
            let ghost sent_before = sent@;
            sent.push(message);
            assert(messages(sent@) =~= messages(sent_before).push(message@));
            let ghost left = data_messages(self.remote_id, most as nat, rest.skip(count as int));
            assert(data_messages(self.remote_id, most as nat, rest) =~= seq![message@] + left);
            assert(messages(sent@) + left =~= all);
            at = at + count;
        }
        assert(messages(sent@) =~= all);
        sent
    }

    /// Exactly `n` bytes from the channel stream, or nothing while they have not arrived. A
    /// channel that ended before they had is an error. `more` tells whether more may yet come, as
    /// the last [`Channel::pump`] said.
    pub fn read_exact(&mut self, n: usize, more: bool) -> (read: Result<Option<Vec<u8>>, Error>)
        ensures
            if old(self)@.incoming.len() >= n {
                &&& read is Ok
                &&& read->Ok_0 is Some
                &&& read->Ok_0->0@ == old(self)@.incoming.take(n as int)
                &&& final(self)@ == old(self)@.without(n as nat)
            } else {
                &&& read == if more && !old(self)@.done() {
                    Ok::<Option<Vec<u8>>, Error>(None)
                } else {
                    Err::<Option<Vec<u8>>, Error>(Error::ChannelEnded)
                }
                &&& final(self)@ == old(self)@
            },
    {
        if self.incoming.len() >= n {
            Ok(Some(take(&mut self.incoming, n)))
        } else if more && !self.done() {
            Ok(None)
        } else {
            Err(Error::ChannelEnded)
        }
    }

    /// Take one more message into the channel state, returning whether more may yet come. Bytes
    /// from a peer that has said it will send no more are left out.
    pub fn pump(&mut self, message: &[u8]) -> (more: Result<bool, Error>)
        ensures
            match old(self)@.pump(message@) {
                Ok((stream, expected)) => more == Ok::<bool, Error>(expected) && final(self)@
                    == stream,
                Err(error) => more == Err::<bool, Error>(error) && final(self)@ == old(self)@,
            },
    {
        if message.len() == 0 {
            return Err(Error::ChannelMessage(None));
        }
        let number = message[0];
        if number == CHANNEL_DATA {
            let mut reader = Reader::new(&message[1..message.len()]);
            assert(reader@ =~= message@.skip(1));
            let _recipient = reader.u32()?;
            let data = reader.string()?;
            if self.done() {
                return Ok(self.incoming.len() > 0);
            }
            self.incoming.extend_from_slice(data);
            assert(self.incoming@ =~= old(self).incoming@ + data@);
            Ok(true)
        } else if number == CHANNEL_WINDOW_ADJUST {
            Ok(true)
        } else if number == CHANNEL_EOF {
            self.eof = true;
            Ok(self.incoming.len() > 0)
        } else if number == CHANNEL_CLOSE {
            self.closed = true;
            Ok(self.incoming.len() > 0)
        } else {
            Err(Error::ChannelMessage(Some(number)))
        }
    }

    /// Whether the peer has said it will send no more.
    pub fn done(&self) -> (said: bool)
        ensures
            said == self@.done(),
    {
        self.eof || self.closed
    }

    /// The next length-prefixed frame off the stream, or the end where the channel ended cleanly
    /// with nothing more to give, which is how the far end learns the client is done rather than
    /// by an error. A channel that ended inside a frame is an error. `more` tells whether more may
    /// yet come, as the last [`Channel::pump`] said.
    pub fn read_frame(&mut self, more: bool) -> (read: Result<Frame, Error>)
        ensures
            match old(self)@.frame(more) {
                FrameRead::Whole { body, taken } => read is Ok && read->Ok_0 is Whole
                    && read->Ok_0->0@ == body && final(self)@ == old(self)@.without(taken),
                FrameRead::End => read == Ok::<Frame, Error>(Frame::End) && final(self)@ == old(
                    self,
                )@,
                FrameRead::Wait => read == Ok::<Frame, Error>(Frame::Wait) && final(self)@ == old(
                    self,
                )@,
                FrameRead::Cut => read == Err::<Frame, Error>(Error::ChannelEnded) && final(self)@
                    == old(self)@,
            },
    {
        if self.incoming.len() >= 4 {
            let count: usize = read_be32(&self.incoming[0..4]) as usize;
            assert(self.incoming@.subrange(0, 4) =~= self.incoming@.take(4));
            if self.incoming.len() - 4 >= count {
                let full = take(&mut self.incoming, 4 + count);
                let body = slice_to_vec(&full[4..full.len()]);
                assert(body@ =~= old(self).incoming@.subrange(4, 4 + count as int));
                return Ok(Frame::Whole(body));
            }
        }
        if more && !self.done() {
            Ok(Frame::Wait)
        } else if self.incoming.len() == 0 {
            Ok(Frame::End)
        } else {
            Err(Error::ChannelEnded)
        }
    }

    /// The messages that say goodbye: end of data, then close.
    pub fn close(&self) -> (sent: Vec<Vec<u8>>)
        ensures
            messages(sent@) == goodbye(self@.remote_id),
    {
        let mut sent: Vec<Vec<u8>> = Vec::new();
        sent.push(bare(CHANNEL_EOF, self.remote_id));
        sent.push(bare(CHANNEL_CLOSE, self.remote_id));
        assert(messages(sent@) =~= goodbye(self@.remote_id));
        sent
    }
}

/// The packet size that the peer advertised, behind the window.
fn packet_size(sizes: &mut Reader<'_>) -> (largest: u32)
    ensures
        largest == advertised(old(sizes)@),
{
    if sizes.u32().is_err() {
        return MAX_CHANNEL_PACKET as u32;
    }
    match sizes.u32() {
        Ok(largest) => largest,
        Err(_) => MAX_CHANNEL_PACKET as u32,
    }
}

/// No message to send.
pub(crate) fn none() -> (sent: Vec<Vec<u8>>)
    ensures
        messages(sent@) == Seq::<Seq<u8>>::empty(),
{
    let sent: Vec<Vec<u8>> = Vec::new();
    assert(messages(sent@) =~= Seq::<Seq<u8>>::empty());
    sent
}

/// One message, to send.
pub(crate) fn only(message: Vec<u8>) -> (sent: Vec<Vec<u8>>)
    ensures
        messages(sent@) == seq![message@],
{
    let mut sent: Vec<Vec<u8>> = Vec::new();
    sent.push(message);
    assert(messages(sent@) =~= seq![message@]);
    sent
}

fn bare(number: u8, remote_id: u32) -> (message: Vec<u8>)
    ensures
        message@ == bare_message(number, remote_id),
{
    let mut writer = Writer::new();
    writer.byte(number).u32(remote_id);
    let message = writer.finish();
    assert(message@ =~= bare_message(number, remote_id));
    message
}

/// The stream after a run of messages.
pub open spec fn pump_all(stream: Stream, arrived: Seq<Seq<u8>>) -> Result<Stream, Error>
    decreases arrived.len(),
{
    if arrived.len() == 0 {
        Ok(stream)
    } else {
        match stream.pump(arrived[0]) {
            Err(error) => Err(error),
            Ok((after, _)) => pump_all(after, arrived.skip(1)),
        }
    }
}

pub(crate) proof fn lemma_data_is_taken_in(stream: Stream, remote_id: u32, chunk: Seq<u8>)
    requires
        !stream.done(),
        chunk.len() <= u32::MAX,
    ensures
        stream.pump(data_message(remote_id, chunk)) == Ok::<(Stream, bool), Error>(
            (Stream { incoming: stream.incoming + chunk, ..stream }, true),
        ),
{
    let message = data_message(remote_id, chunk);
    let rest = string(chunk) + Seq::<u8>::empty();
    assert(message.skip(1) =~= be32(remote_id) + rest);
    assert(message[0] == CHANNEL_DATA);
    law_u32_reads_back(remote_id, rest);
    law_string_reads_back(chunk, Seq::empty());
}

/// Bytes that are written to a channel arrive at the other end as they were, in their order and
/// behind what is there, however many messages they are split into.
pub proof fn law_what_is_written_arrives(
    stream: Stream,
    remote_id: u32,
    largest: u32,
    bytes: Seq<u8>,
)
    requires
        !stream.done(),
    ensures
        pump_all(stream, data_messages(remote_id, limit(largest), bytes)) == Ok::<Stream, Error>(
            Stream { incoming: stream.incoming + bytes, ..stream },
        ),
    decreases bytes.len(),
{
    reveal_with_fuel(pump_all, 2);
    let most = limit(largest);
    let sent = data_messages(remote_id, most, bytes);
    if bytes.len() == 0 {
        assert(stream.incoming + bytes =~= stream.incoming);
    } else if bytes.len() <= most {
        lemma_data_is_taken_in(stream, remote_id, bytes);
        assert(sent.skip(1) =~= Seq::<Seq<u8>>::empty());
    } else {
        let chunk = bytes.take(most as int);
        let rest = bytes.skip(most as int);
        let after = Stream { incoming: stream.incoming + chunk, ..stream };
        lemma_data_is_taken_in(stream, remote_id, chunk);
        law_what_is_written_arrives(after, remote_id, largest, rest);
        assert(sent.skip(1) =~= data_messages(remote_id, most, rest));
        assert(after.incoming + rest =~= stream.incoming + bytes);
    }
}

/// The pieces into which `bytes` is split, up to `most` bytes each.
pub open spec fn pieces(most: nat, bytes: Seq<u8>) -> Seq<Seq<u8>>
    recommends
        most > 0,
    decreases bytes.len(),
{
    if bytes.len() == 0 {
        Seq::empty()
    } else if most == 0 || bytes.len() <= most {
        seq![bytes]
    } else {
        seq![bytes.take(most as int)] + pieces(most, bytes.skip(most as int))
    }
}

/// What is written is split to the packet size that the peer advertised: every message is a
/// channel-data message to the peer's channel that carries at least one byte and at most as many
/// as the peer takes, and their bytes, joined, are what was written. Of no bytes there is no
/// message.
pub proof fn law_messages_keep_to_the_packet_size(remote_id: u32, largest: u32, bytes: Seq<u8>)
    ensures
        ({
            let split = pieces(limit(largest), bytes);
            let sent = data_messages(remote_id, limit(largest), bytes);
            &&& sent.len() == split.len()
            &&& forall|i: int|
                0 <= i < sent.len() ==> #[trigger] sent[i] == data_message(remote_id, split[i])
            &&& forall|i: int|
                0 <= i < split.len() ==> 1 <= (#[trigger] split[i]).len() <= limit(largest)
            &&& joined(split) == bytes
            &&& bytes.len() == 0 ==> sent.len() == 0
        }),
        1 <= limit(largest) <= MAX_CHANNEL_PACKET,
        largest > 0 ==> limit(largest) <= largest,
    decreases bytes.len(),
{
    let most = limit(largest);
    let split = pieces(most, bytes);
    let sent = data_messages(remote_id, most, bytes);
    if bytes.len() == 0 {
    } else if bytes.len() <= most {
        assert(split.skip(1) =~= Seq::<Seq<u8>>::empty());
        assert(joined(split.skip(1)) =~= Seq::<u8>::empty());
        assert(joined(split) =~= bytes);
    } else {
        let rest = bytes.skip(most as int);
        law_messages_keep_to_the_packet_size(remote_id, largest, rest);
        assert(split.skip(1) =~= pieces(most, rest));
        assert(joined(split) =~= bytes);
        let later = data_messages(remote_id, most, rest);
        assert forall|i: int| 0 <= i < sent.len() implies #[trigger] sent[i] == data_message(
            remote_id,
            split[i],
        ) by {
            if i > 0 {
                assert(sent[i] == later[i - 1]);
                assert(split[i] == pieces(most, rest)[i - 1]);
            }
        }
        assert forall|i: int| 0 <= i < split.len() implies 1 <= (#[trigger] split[i]).len()
            <= most by {
            if i > 0 {
                assert(split[i] == pieces(most, rest)[i - 1]);
            }
        }
    }
}

/// A frame with its length before it is read off the stream as it was, whatever follows it.
pub proof fn law_a_frame_reads_back(stream: Stream, body: Seq<u8>, rest: Seq<u8>, more: bool)
    requires
        body.len() <= u32::MAX,
        stream.incoming == be32(body.len() as u32) + body + rest,
    ensures
        stream.frame(more) == (FrameRead::Whole { body, taken: 4 + body.len() }),
        stream.without(4 + body.len()).incoming == rest,
{
    assert(stream.incoming =~= be32(body.len() as u32) + (body + rest));
    law_u32_reads_back(body.len() as u32, body + rest);
    assert(stream.incoming.subrange(4, 4 + body.len() as int) =~= body);
    assert(stream.incoming.skip(4 + body.len() as int) =~= rest);
}

/// A peer's channel number and packet size are learnt from the message with which it opens a
/// session or confirms one, whatever they are and whatever follows them.
pub proof fn law_the_packet_size_is_learnt(
    local: u32,
    remote_id: u32,
    window: u32,
    largest: u32,
    rest: Seq<u8>,
)
    ensures
        session_opened(
            seq![CHANNEL_OPEN] + string(encode_utf8("session"@)) + be32(remote_id) + be32(window)
                + (be32(largest) + rest),
        ) == Ok::<(u32, u32), Error>((remote_id, largest)),
        confirmed(
            seq![CHANNEL_OPEN_CONFIRMATION] + be32(local) + be32(remote_id) + be32(window) + (be32(
                largest,
            ) + rest),
        ) == Ok::<(u32, u32), Error>((remote_id, largest)),
{
    let kind = encode_utf8("session"@);
    let sizes = be32(window) + (be32(largest) + rest);
    assert(advertised(sizes) == largest) by {
        law_u32_reads_back(window, be32(largest) + rest);
        law_u32_reads_back(largest, rest);
    }
    reveal_strlit("session");
    law_encoding_is_short("session"@);
    lemma_regrouped(
        seq![CHANNEL_OPEN],
        string(kind),
        be32(remote_id),
        be32(window),
        be32(largest) + rest,
    );
    lemma_session_is_opened(remote_id, sizes);
    lemma_regrouped(
        seq![CHANNEL_OPEN_CONFIRMATION],
        be32(local),
        be32(remote_id),
        be32(window),
        be32(largest) + rest,
    );
    lemma_channel_is_confirmed(local, remote_id, sizes);
}

/// The two ends of an opening understand each other: the session is opened, confirmed, the
/// subsystem asked for and granted. Each side learns the packet size of the other.
pub proof fn law_the_ends_open_one_channel(remote_id: u32)
    ensures
        session_opened(open_message()) == Ok::<(u32, u32), Error>(
            (0, MAX_CHANNEL_PACKET as u32),
        ),
        confirmed(confirmation_message(remote_id)) == Ok::<(u32, u32), Error>(
            (0, MAX_CHANNEL_PACKET as u32),
        ),
        subsystem_asked(subsystem_message(remote_id)) == Ok::<(), Error>(()),
        due(
            bare_message(CHANNEL_SUCCESS, remote_id),
            CHANNEL_SUCCESS,
            "the subsystem confirmation",
        ) == Ok::<(), Error>(()),
{
    reveal_strlit("subsystem");
    reveal_strlit("sftp");
    law_encoding_is_short("subsystem"@);
    law_encoding_is_short("sftp"@);
    let largest = be32(MAX_CHANNEL_PACKET as u32);
    assert(largest + Seq::<u8>::empty() =~= largest);
    law_the_packet_size_is_learnt(
        remote_id,
        0,
        INITIAL_WINDOW,
        MAX_CHANNEL_PACKET as u32,
        Seq::empty(),
    );
    lemma_subsystem_is_asked(remote_id);
}

pub(crate) proof fn lemma_regrouped(a: Seq<u8>, b: Seq<u8>, c: Seq<u8>, d: Seq<u8>, e: Seq<u8>)
    ensures
        a + b + c + d + e == a + (b + (c + (d + e))),
{
    assert(a + b + c + d + e =~= a + (b + (c + (d + e))));
}

proof fn lemma_session_is_opened(remote_id: u32, sizes: Seq<u8>)
    requires
        encode_utf8("session"@).len() <= u32::MAX,
    ensures
        session_opened(
            seq![CHANNEL_OPEN] + (string(encode_utf8("session"@)) + (be32(remote_id) + sizes)),
        ) == Ok::<(u32, u32), Error>((remote_id, advertised(sizes))),
{
    let kind = encode_utf8("session"@);
    let message = seq![CHANNEL_OPEN] + (string(kind) + (be32(remote_id) + sizes));
    assert(message.skip(1) =~= string(kind) + (be32(remote_id) + sizes));
    law_string_reads_back(kind, be32(remote_id) + sizes);
    law_u32_reads_back(remote_id, sizes);
}

proof fn lemma_channel_is_confirmed(local: u32, remote_id: u32, sizes: Seq<u8>)
    ensures
        confirmed(
            seq![CHANNEL_OPEN_CONFIRMATION] + (be32(local) + (be32(remote_id) + sizes)),
        ) == Ok::<(u32, u32), Error>((remote_id, advertised(sizes))),
{
    let message = seq![CHANNEL_OPEN_CONFIRMATION] + (be32(local) + (be32(remote_id) + sizes));
    assert(message.skip(1) =~= be32(local) + (be32(remote_id) + sizes));
    law_u32_reads_back(local, be32(remote_id) + sizes);
    law_u32_reads_back(remote_id, sizes);
}

proof fn lemma_subsystem_is_asked(remote_id: u32)
    requires
        encode_utf8("subsystem"@).len() <= u32::MAX,
        encode_utf8("sftp"@).len() <= u32::MAX,
    ensures
        subsystem_asked(subsystem_message(remote_id)) == Ok::<(), Error>(()),
{
    let kind = encode_utf8("subsystem"@);
    let name = encode_utf8("sftp"@);
    lemma_regrouped(
        seq![CHANNEL_REQUEST],
        be32(remote_id),
        string(kind),
        boolean(true),
        string(name),
    );
    assert(string(name) + Seq::<u8>::empty() =~= string(name));
    lemma_request_is_read(remote_id, kind, true, name, Seq::empty());
}

/// The fields of a channel request, one by one.
proof fn lemma_request_is_read(
    recipient: u32,
    kind: Seq<u8>,
    want_reply: bool,
    name: Seq<u8>,
    rest: Seq<u8>,
)
    requires
        kind.len() <= u32::MAX,
        name.len() <= u32::MAX,
    ensures
        ({
            let named = string(name) + rest;
            let asked = boolean(want_reply) + named;
            let message = seq![CHANNEL_REQUEST] + (be32(recipient) + (string(kind) + asked));
            &&& message[0] == CHANNEL_REQUEST
            &&& take_u32(message.skip(1)) == Some((recipient, string(kind) + asked))
            &&& take_string(string(kind) + asked) == Some((kind, asked))
            &&& take_bool(asked) == Some((want_reply, named))
            &&& take_string(named) == Some((name, rest))
        }),
{
    let named = string(name) + rest;
    let asked = boolean(want_reply) + named;
    let fields = be32(recipient) + (string(kind) + asked);
    assert((seq![CHANNEL_REQUEST] + fields).skip(1) =~= fields);
    law_u32_reads_back(recipient, string(kind) + asked);
    law_string_reads_back(kind, asked);
    law_bool_reads_back(want_reply, named);
    law_string_reads_back(name, rest);
}

/// A peer that says goodbye has nothing more to send: the channel is done, and where all was
/// read, the next frame is the end.
pub proof fn law_goodbye_ends_the_stream(stream: Stream, remote_id: u32, more: bool)
    requires
        stream.incoming.len() == 0,
    ensures
        pump_all(stream, goodbye(remote_id)) matches Ok(after) && after.done() && after.incoming
            == stream.incoming && after.frame(more) is End,
{
    reveal_with_fuel(pump_all, 3);
    let ending = goodbye(remote_id);
    assert(ending.skip(1)[0] == bare_message(CHANNEL_CLOSE, remote_id));
    assert(ending.skip(1).skip(1) =~= Seq::<Seq<u8>>::empty());
}

/// Nothing follows the end: a message that arrives when the peer has said it will send no more
/// adds no byte to the stream, and the stream stays ended.
pub proof fn law_nothing_follows_the_end(stream: Stream, message: Seq<u8>)
    requires
        stream.done(),
    ensures
        stream.pump(message) matches Ok((after, _)) ==> after.done() && after.incoming
            == stream.incoming,
{
}

/// A frame as it stands on the stream, its length before it.
pub open spec fn lengthened(body: Seq<u8>) -> Seq<u8> {
    be32(body.len() as u32) + body
}

/// Frames as they stand on the stream, one behind the other.
pub open spec fn in_turn(frames: Seq<Seq<u8>>) -> Seq<u8>
    decreases frames.len(),
{
    if frames.len() == 0 {
        Seq::empty()
    } else {
        lengthened(frames[0]) + in_turn(frames.skip(1))
    }
}

/// Whether each frame has a length that can be told.
pub open spec fn all_tellable(frames: Seq<Seq<u8>>) -> bool {
    forall|i: int| 0 <= i < frames.len() ==> (#[trigger] frames[i]).len() <= u32::MAX
}

/// Whether `part` begins a frame and does not end it.
pub open spec fn begins_a_frame(part: Seq<u8>) -> bool {
    exists|body: Seq<u8>|
        body.len() <= u32::MAX && part.len() < 4 + body.len() && part.is_prefix_of(
            #[trigger] lengthened(body),
        )
}

/// A channel that has ended inside a frame gives an error, whatever is said of more to come.
pub proof fn law_an_end_inside_a_frame_is_an_error(stream: Stream, more: bool)
    requires
        stream.done(),
        stream.incoming.len() > 0,
        begins_a_frame(stream.incoming),
    ensures
        stream.frame(more) is Cut,
{
    lemma_no_frame_yet(stream);
}

/// What begins a frame and does not end it is no frame.
pub(crate) proof fn lemma_no_frame_yet(stream: Stream)
    requires
        begins_a_frame(stream.incoming),
    ensures
        stream.incoming.len() >= 4 ==> stream.incoming.len() < 4 + from_be32(
            stream.incoming.take(4),
        ),
{
    let part = stream.incoming;
    let body = choose|body: Seq<u8>|
        body.len() <= u32::MAX && part.len() < 4 + body.len() && part.is_prefix_of(
            #[trigger] lengthened(body),
        );
    if part.len() >= 4 {
        let all = lengthened(body);
        law_u32_reads_back(body.len() as u32, body);
        assert(part.take(4) =~= all.take(4));
    }
}

/// The bytes that a message adds to a stream that has not ended: those of a data message, none of
/// a window adjustment.
pub open spec fn data_in(message: Seq<u8>) -> Option<Seq<u8>> {
    if message.len() == 0 {
        None
    } else if message[0] == CHANNEL_DATA {
        match take_u32(message.skip(1)) {
            None => None,
            Some((_, rest)) => match take_string(rest) {
                None => None,
                Some((data, _)) => Some(data),
            },
        }
    } else if message[0] == CHANNEL_WINDOW_ADJUST {
        Some(Seq::empty())
    } else {
        None
    }
}

/// The bytes that a run of messages adds to a stream.
pub open spec fn data_in_all(arrived: Seq<Seq<u8>>) -> Option<Seq<u8>>
    decreases arrived.len(),
{
    if arrived.len() == 0 {
        Some(Seq::empty())
    } else {
        match (data_in(arrived[0]), data_in_all(arrived.skip(1))) {
            (Some(first), Some(rest)) => Some(first + rest),
            _ => None,
        }
    }
}

/// The messages that carry frames which are written one after the other.
pub open spec fn written(remote_id: u32, largest: u32, frames: Seq<Seq<u8>>) -> Seq<Seq<u8>>
    decreases frames.len(),
{
    if frames.len() == 0 {
        Seq::empty()
    } else {
        data_messages(remote_id, limit(largest), lengthened(frames[0])) + written(
            remote_id,
            largest,
            frames.skip(1),
        )
    }
}

/// What is written is what the messages carry: frames that are written one after the other stand
/// one behind the other in the bytes that their messages add to a stream.
pub proof fn law_what_is_written_is_carried(remote_id: u32, largest: u32, frames: Seq<Seq<u8>>)
    ensures
        data_in_all(written(remote_id, largest, frames)) == Some(in_turn(frames)),
    decreases frames.len(),
{
    if frames.len() > 0 {
        let later = written(remote_id, largest, frames.skip(1));
        law_what_is_written_is_carried(remote_id, largest, frames.skip(1));
        lemma_carried(remote_id, limit(largest), lengthened(frames[0]), later);
    }
}

proof fn lemma_carried(remote_id: u32, most: nat, bytes: Seq<u8>, later: Seq<Seq<u8>>)
    requires
        0 < most <= u32::MAX,
        data_in_all(later) is Some,
    ensures
        data_in_all(data_messages(remote_id, most, bytes) + later) == Some(
            bytes + data_in_all(later)->0,
        ),
    decreases bytes.len(),
{
    let sent = data_messages(remote_id, most, bytes);
    let run = sent + later;
    if bytes.len() == 0 {
        assert(run =~= later);
        assert(bytes + data_in_all(later)->0 =~= data_in_all(later)->0);
    } else {
        let count = if bytes.len() <= most {
            bytes.len()
        } else {
            most
        };
        let chunk = bytes.take(count as int);
        let rest = bytes.skip(count as int);
        assert(bytes.take(bytes.len() as int) =~= bytes);
        lemma_data_is_carried(remote_id, chunk);
        lemma_carried(remote_id, most, rest, later);
        assert(sent =~= seq![data_message(remote_id, chunk)] + data_messages(
            remote_id,
            most,
            rest,
        ));
        assert(run[0] == data_message(remote_id, chunk));
        assert(run.skip(1) =~= data_messages(remote_id, most, rest) + later);
        assert(chunk + (rest + data_in_all(later)->0) =~= bytes + data_in_all(later)->0);
    }
}

proof fn lemma_data_is_carried(remote_id: u32, chunk: Seq<u8>)
    requires
        chunk.len() <= u32::MAX,
    ensures
        data_in(data_message(remote_id, chunk)) == Some(chunk),
{
    let none = fresh(0, 0);
    lemma_data_is_taken_in(none, remote_id, chunk);
    let taken = data_in(data_message(remote_id, chunk));
    assert(taken is Some && none.incoming + taken->0 == none.incoming + chunk);
    assert(none.incoming + taken->0 =~= taken->0);
    assert(none.incoming + chunk =~= chunk);
}

/// What reading frames off a stream, one after the other, has come to: the frames, the stream that
/// is left, and what the reading ended with.
pub ghost struct Drained {
    pub frames: Seq<Seq<u8>>,
    pub stream: Stream,
    pub last: FrameRead,
}

/// Read frames off a stream until there is no whole one.
pub open spec fn drain(stream: Stream, more: bool) -> Drained
    decreases stream.incoming.len(),
{
    match stream.frame(more) {
        FrameRead::Whole { body, taken } => {
            let rest = drain(stream.without(taken), more);
            Drained { frames: seq![body] + rest.frames, ..rest }
        },
        last => Drained { frames: Seq::empty(), stream, last },
    }
}

/// Hand a stream one message after the other, and read off what frames are there after each.
pub open spec fn drain_all(stream: Stream, arrived: Seq<Seq<u8>>) -> Result<Drained, Error>
    decreases arrived.len(),
{
    if arrived.len() == 0 {
        Ok(drain(stream, true))
    } else {
        match stream.pump(arrived[0]) {
            Err(error) => Err(error),
            Ok((after, more)) => {
                let got = drain(after, more);
                match drain_all(got.stream, arrived.skip(1)) {
                    Err(error) => Err(error),
                    Ok(rest) => Ok(Drained { frames: got.frames + rest.frames, ..rest }),
                }
            },
        }
    }
}

/// Frames read back over any cut into messages: where messages carry frames, one behind the
/// other, and `part` of another, however their bytes are cut and whatever window adjustments
/// stand between, reading gives those frames, each as it was and in their order, and then awaits
/// more. Once the peer has said goodbye reading gives the end, now and ever after, or an error
/// where the stream ends inside a frame.
pub proof fn law_frames_read_back_over_any_cut(
    stream: Stream,
    frames: Seq<Seq<u8>>,
    part: Seq<u8>,
    arrived: Seq<Seq<u8>>,
    remote_id: u32,
)
    requires
        !stream.done(),
        stream.incoming.len() == 0,
        all_tellable(frames),
        begins_a_frame(part),
        data_in_all(arrived) == Some(in_turn(frames) + part),
    ensures
        drain_all(stream, arrived) == Ok::<Drained, Error>(
            Drained { frames, stream: Stream { incoming: part, ..stream }, last: FrameRead::Wait },
        ),
        ({
            let ended = Stream { incoming: part, eof: true, closed: true, ..stream };
            let last = if part.len() == 0 {
                FrameRead::End
            } else {
                FrameRead::Cut
            };
            &&& drain_all(stream, arrived + goodbye(remote_id)) == Ok::<Drained, Error>(
                Drained { frames, stream: ended, last },
            )
            &&& forall|more: bool| #[trigger] ended.frame(more) == last
        }),
{
    assert(stream.incoming + (in_turn(frames) + part) =~= in_turn(frames) + part);
    assert(arrived + Seq::<Seq<u8>>::empty() =~= arrived);
    lemma_drain_all(stream, frames, part, arrived, Seq::empty(), remote_id);
    lemma_drain_all(stream, frames, part, arrived, goodbye(remote_id), remote_id);
    lemma_no_frame_yet(Stream { incoming: part, eof: true, closed: true, ..stream });
}

/// Frames read back where all of their messages have arrived before the first is read.
pub proof fn law_frames_read_back_once_all_has_arrived(
    stream: Stream,
    frames: Seq<Seq<u8>>,
    part: Seq<u8>,
    arrived: Seq<Seq<u8>>,
)
    requires
        !stream.done(),
        stream.incoming.len() == 0,
        all_tellable(frames),
        begins_a_frame(part),
        data_in_all(arrived) == Some(in_turn(frames) + part),
    ensures
        pump_all(stream, arrived) matches Ok(held) && drain(held, true) == (Drained {
            frames,
            stream: Stream { incoming: part, ..stream },
            last: FrameRead::Wait,
        }),
{
    let all = in_turn(frames) + part;
    let none = Seq::<u8>::empty();
    lemma_all_is_taken_in(stream, arrived);
    assert(stream.incoming + all =~= all);
    let held = Stream { incoming: all, ..stream };
    assert(held.incoming + none =~= all);
    let k = lemma_drain(held, frames, part, none);
    let left = drain(held, true).stream;
    assert(left.incoming + none =~= left.incoming);
    let rest = frames.skip(k);
    if k < frames.len() {
        let later = in_turn(rest.skip(1)) + part;
        assert(left.incoming =~= be32(rest[0].len() as u32) + rest[0] + later);
        law_a_frame_reads_back(left, rest[0], later, true);
    }
    assert(left.incoming =~= part);
    assert(frames.take(k) =~= frames);
}

/// What a run of messages carries is what it adds to a stream.
proof fn lemma_all_is_taken_in(stream: Stream, arrived: Seq<Seq<u8>>)
    requires
        !stream.done(),
        data_in_all(arrived) is Some,
    ensures
        pump_all(stream, arrived) == Ok::<Stream, Error>(
            Stream { incoming: stream.incoming + data_in_all(arrived)->0, ..stream },
        ),
    decreases arrived.len(),
{
    if arrived.len() == 0 {
        assert(stream.incoming + data_in_all(arrived)->0 =~= stream.incoming);
    } else {
        let first = data_in(arrived[0])->0;
        let rest = data_in_all(arrived.skip(1))->0;
        let next = Stream { incoming: stream.incoming + first, ..stream };
        assert(stream.incoming + Seq::<u8>::empty() =~= stream.incoming);
        assert(stream.pump(arrived[0]) == Ok::<(Stream, bool), Error>((next, true)));
        lemma_all_is_taken_in(next, arrived.skip(1));
        assert(next.incoming + rest =~= stream.incoming + (first + rest));
    }
}

/// Reading frames off a stream that holds the beginning of `frames` and `part`, `tail` of which
/// has not arrived, gives the frames that are there whole.
proof fn lemma_drain(
    stream: Stream,
    frames: Seq<Seq<u8>>,
    part: Seq<u8>,
    tail: Seq<u8>,
) -> (k: int)
    requires
        !stream.done(),
        all_tellable(frames),
        begins_a_frame(part),
        stream.incoming + tail == in_turn(frames) + part,
    ensures
        0 <= k <= frames.len(),
        ({
            let got = drain(stream, true);
            &&& got.frames == frames.take(k)
            &&& got.last is Wait
            &&& got.stream == (Stream { incoming: got.stream.incoming, ..stream })
            &&& got.stream.frame(true) is Wait
            &&& got.stream.incoming + tail == in_turn(frames.skip(k)) + part
        }),
    decreases frames.len(),
{
    let all = stream.incoming + tail;
    if frames.len() == 0 {
        assert(all =~= part);
        lemma_part_of_a_part(stream.incoming, tail, part);
        lemma_no_frame_yet(stream);
        assert(frames.take(0) =~= Seq::<Seq<u8>>::empty());
        assert(frames.skip(0) =~= frames);
        0
    } else {
        let first = frames[0];
        let rest = frames.skip(1);
        let later = in_turn(rest) + part;
        let held = stream.incoming.len() as int;
        assert(all =~= lengthened(first) + later);
        assert(stream.incoming =~= all.take(held));
        assert(lengthened(first).len() == 4 + first.len());
        if held < 4 + first.len() {
            assert((lengthened(first) + later).take(held) =~= lengthened(first).subrange(0, held));
            lemma_no_frame_yet(stream);
            assert(frames.take(0) =~= Seq::<Seq<u8>>::empty());
            assert(frames.skip(0) =~= frames);
            0
        } else {
            let left = stream.incoming.skip(4 + first.len() as int);
            assert((lengthened(first) + later).take(held).take(4 + first.len() as int)
                =~= lengthened(first));
            assert(stream.incoming =~= stream.incoming.take(4 + first.len() as int) + left);
            law_a_frame_reads_back(stream, first, left, true);
            let next = stream.without(4 + first.len());
            assert(all.skip(4 + first.len() as int) =~= left + tail);
            assert((lengthened(first) + later).skip(4 + first.len() as int) =~= later);
            assert(all_tellable(rest));
            let k = lemma_drain(next, rest, part, tail);
            assert(seq![first] + rest.take(k) =~= frames.take(k + 1));
            assert(rest.skip(k) =~= frames.skip(k + 1));
            k + 1
        }
    }
}

/// What begins what begins a frame begins it too.
proof fn lemma_part_of_a_part(head: Seq<u8>, tail: Seq<u8>, part: Seq<u8>)
    requires
        begins_a_frame(part),
        head + tail == part,
    ensures
        begins_a_frame(head),
{
    let body = choose|body: Seq<u8>|
        body.len() <= u32::MAX && part.len() < 4 + body.len() && part.is_prefix_of(
            #[trigger] lengthened(body),
        );
    assert(head =~= lengthened(body).subrange(0, head.len() as int));
}

/// The frames of a run of messages, read off after each, with `ending` nothing or the goodbye.
proof fn lemma_drain_all(
    stream: Stream,
    frames: Seq<Seq<u8>>,
    part: Seq<u8>,
    arrived: Seq<Seq<u8>>,
    ending: Seq<Seq<u8>>,
    remote_id: u32,
)
    requires
        !stream.done(),
        stream.frame(true) is Wait,
        all_tellable(frames),
        begins_a_frame(part),
        data_in_all(arrived) matches Some(bytes) && stream.incoming + bytes == in_turn(frames)
            + part,
        ending.len() == 0 || ending == goodbye(remote_id),
    ensures
        drain_all(stream, arrived + ending) == Ok::<Drained, Error>(
            if ending.len() == 0 {
                Drained {
                    frames,
                    stream: Stream { incoming: part, ..stream },
                    last: FrameRead::Wait,
                }
            } else {
                Drained {
                    frames,
                    stream: Stream { incoming: part, eof: true, closed: true, ..stream },
                    last: if part.len() == 0 {
                        FrameRead::End
                    } else {
                        FrameRead::Cut
                    },
                }
            },
        ),
    decreases arrived.len(),
{
    let run = arrived + ending;
    if arrived.len() == 0 {
        assert(run =~= ending);
        assert(stream.incoming + Seq::<u8>::empty() =~= stream.incoming);
        if frames.len() > 0 {
            let left = in_turn(frames.skip(1)) + part;
            assert(stream.incoming =~= be32(frames[0].len() as u32) + frames[0] + left);
            law_a_frame_reads_back(stream, frames[0], left, true);
        }
        assert(stream.incoming =~= part);
        assert(frames =~= Seq::<Seq<u8>>::empty());
        lemma_ending(stream, ending, remote_id);
    } else {
        let first = data_in(arrived[0])->0;
        let rest = data_in_all(arrived.skip(1))->0;
        let after = Stream { incoming: stream.incoming + first, ..stream };
        assert(stream.incoming + Seq::<u8>::empty() =~= stream.incoming);
        assert(stream.pump(arrived[0]) == Ok::<(Stream, bool), Error>((after, true)));
        assert(after.incoming + rest =~= in_turn(frames) + part);
        let k = lemma_drain(after, frames, part, rest);
        let got = drain(after, true);
        assert(all_tellable(frames.skip(k)));
        lemma_drain_all(got.stream, frames.skip(k), part, arrived.skip(1), ending, remote_id);
        assert(run.skip(1) =~= arrived.skip(1) + ending);
        assert(frames.take(k) + frames.skip(k) =~= frames);
    }
}

/// What the goodbye does to a stream on which there is no whole frame.
proof fn lemma_ending(stream: Stream, ending: Seq<Seq<u8>>, remote_id: u32)
    requires
        !stream.done(),
        stream.frame(true) is Wait,
        ending.len() == 0 || ending == goodbye(remote_id),
    ensures
        drain_all(stream, ending) == Ok::<Drained, Error>(
            if ending.len() == 0 {
                Drained { frames: Seq::empty(), stream, last: FrameRead::Wait }
            } else {
                Drained {
                    frames: Seq::empty(),
                    stream: Stream { eof: true, closed: true, ..stream },
                    last: if stream.incoming.len() == 0 {
                        FrameRead::End
                    } else {
                        FrameRead::Cut
                    },
                }
            },
        ),
{
    reveal_with_fuel(drain_all, 3);
    if ending.len() != 0 {
        assert(ending.skip(1)[0] == bare_message(CHANNEL_CLOSE, remote_id));
        assert(ending.skip(1).skip(1) =~= Seq::<Seq<u8>>::empty());
        assert(Seq::<Seq<u8>>::empty() + Seq::<Seq<u8>>::empty() =~= Seq::<Seq<u8>>::empty());
    }
}

/// The numbers of the messages of a channel.
pub proof fn law_the_numbers_of_a_channel()
    ensures
        CHANNEL_OPEN == 90 && CHANNEL_OPEN_CONFIRMATION == 91,
        CHANNEL_WINDOW_ADJUST == 93 && CHANNEL_DATA == 94,
        CHANNEL_EOF == 96 && CHANNEL_CLOSE == 97,
        CHANNEL_REQUEST == 98 && CHANNEL_SUCCESS == 99,
{
}

/// A channel begins with nothing on it and neither end told, with the number and the packet size
/// that its peer gave.
pub proof fn law_a_channel_begins_empty(remote_id: u32, largest: u32)
    ensures
        fresh(remote_id, largest).remote_id == remote_id,
        fresh(remote_id, largest).largest == largest,
        fresh(remote_id, largest).incoming.len() == 0,
        !fresh(remote_id, largest).eof && !fresh(remote_id, largest).closed,
{
}

/// A message carries as many bytes as the peer takes, but never over 32 kibibytes, which is also
/// what a peer is taken to take that tells 0; a peer that tells nothing of it is taken to have told
/// 32 kibibytes.
pub proof fn law_the_packet_size_is_kept_to(largest: u32, sizes: Seq<u8>)
    ensures
        1 <= largest <= 32_768 ==> limit(largest) == largest,
        largest == 0 || largest > 32_768 ==> limit(largest) == 32_768,
        sizes.len() < 8 ==> advertised(sizes) == 32_768,
        sizes.len() >= 8 ==> advertised(sizes) == sizes[4] * 0x100_0000 + sizes[5] * 0x1_0000
            + sizes[6] * 0x100 + sizes[7],
{
    if sizes.len() >= 8 {
        let head = sizes.skip(4).take(4);
        assert(head[0] == sizes[4] && head[1] == sizes[5] && head[2] == sizes[6] && head[3]
            == sizes[7]);
    }
}

/// What is written goes out in messages that are full but for the last: the one at `i` carries the
/// bytes from `i` times the packet size on, up to the next one's, and no byte is left over.
pub proof fn law_each_message_is_full_but_the_last(
    remote_id: u32,
    most: nat,
    bytes: Seq<u8>,
    i: int,
)
    requires
        most > 0,
        0 <= i,
        i * most < bytes.len(),
    ensures
        ({
            let sent = data_messages(remote_id, most, bytes);
            let from = i * most;
            let to = if from + most <= bytes.len() {
                from + most
            } else {
                bytes.len() as int
            };
            &&& i < sent.len()
            &&& sent[i] == data_message(remote_id, bytes.subrange(from, to))
            &&& sent.len() == i + 1 <==> to == bytes.len()
        }),
    decreases i,
{
    let sent = data_messages(remote_id, most, bytes);
    let from = i * most;
    if i == 0 {
        assert(from == 0) by (nonlinear_arith)
            requires
                from == i * most,
                i == 0,
        ;
        if bytes.len() <= most {
            assert(bytes.subrange(0, bytes.len() as int) =~= bytes);
        } else {
            assert(bytes.subrange(0, most as int) =~= bytes.take(most as int));
            let rest = bytes.skip(most as int);
            assert(rest.len() > 0);
            assert(data_messages(remote_id, most, rest).len() > 0);
        }
    } else {
        let before = (i - 1) * most;
        assert(from == before + most && from >= most) by (nonlinear_arith)
            requires
                from == i * most,
                before == (i - 1) * most,
                i >= 1,
        ;
        let rest = bytes.skip(most as int);
        law_each_message_is_full_but_the_last(remote_id, most, rest, i - 1);
        let later = data_messages(remote_id, most, rest);
        assert(sent[i] == later[i - 1]);
        let to = if from + most <= bytes.len() {
            from + most
        } else {
            bytes.len() as int
        };
        assert(bytes.subrange(from, to) =~= rest.subrange(before, to - most));
    }
}

/// What a message does to a stream: 94 adds the bytes it carries, behind those that are there and
/// unless the peer has ended; 93 changes nothing; 96 is the end of data and 97 the close; another
/// number, or none, is refused. More may come where bytes do or an adjustment does, and after an
/// end only while there are bytes that were not read.
pub proof fn law_what_a_message_does_to_a_stream(
    stream: Stream,
    number: u8,
    recipient: u32,
    data: Seq<u8>,
    rest: Seq<u8>,
)
    requires
        data.len() <= u32::MAX,
    ensures
        stream.done() <==> stream.eof || stream.closed,
        ({
            let held = stream.incoming.len() > 0;
            let said = stream.pump(seq![number] + rest);
            let carried = stream.pump(seq![94u8] + be32(recipient) + (string(data) + rest));
            &&& stream.pump(Seq::empty()) == Err::<(Stream, bool), Error>(
                Error::ChannelMessage(None),
            )
            &&& carried == Ok::<(Stream, bool), Error>(
                if stream.eof || stream.closed {
                    (stream, held)
                } else {
                    (Stream { incoming: stream.incoming + data, ..stream }, true)
                },
            )
            &&& number == 93 ==> said == Ok::<(Stream, bool), Error>((stream, true))
            &&& number == 96 ==> said == Ok::<(Stream, bool), Error>(
                (Stream { eof: true, ..stream }, held),
            )
            &&& number == 97 ==> said == Ok::<(Stream, bool), Error>(
                (Stream { closed: true, ..stream }, held),
            )
            &&& number < 93 || number == 95 || number > 97 ==> said == Err::<
                (Stream, bool),
                Error,
            >(Error::ChannelMessage(Some(number)))
        }),
{
    let message = seq![94u8] + be32(recipient) + (string(data) + rest);
    assert(message.skip(1) =~= be32(recipient) + (string(data) + rest));
    law_u32_reads_back(recipient, string(data) + rest);
    law_string_reads_back(data, rest);
}

/// A data message that ends before its fields do is refused, and nothing of it is kept.
pub proof fn law_a_cut_data_message_is_refused(stream: Stream, message: Seq<u8>)
    requires
        message.len() > 0 && message[0] == 94,
    ensures
        stream.pump(message) is Err <==> {
            ||| message.len() < 9
            ||| message.len() < 9 + message[5] * 0x100_0000 + message[6] * 0x1_0000 + message[7]
                * 0x100 + message[8]
        },
        stream.pump(message) matches Err(error) ==> error is Truncated,
{
    if message.len() >= 9 {
        let head = message.skip(1).skip(4).take(4);
        assert(head[0] == message[5] && head[1] == message[6] && head[2] == message[7] && head[3]
            == message[8]);
    }
}

/// A frame is there whole where the stream holds its four bytes of length and as many more as they
/// say; then those are what is read and taken, and nothing behind them. Otherwise more is awaited
/// while it may come, and where it may not, an empty stream is at its end and another is cut short.
pub proof fn law_a_frame_is_taken_by_its_length(stream: Stream, more: bool)
    ensures
        ({
            let s = stream.incoming;
            let n = s[0] * 0x100_0000 + s[1] * 0x1_0000 + s[2] * 0x100 + s[3];
            let read = stream.frame(more);
            if s.len() >= 4 && s.len() >= 4 + n {
                read matches FrameRead::Whole { body, taken } && taken == 4 + n && body
                    == s.subrange(4, 4 + n)
            } else if more && !stream.eof && !stream.closed {
                read is Wait
            } else if s.len() == 0 {
                read is End
            } else {
                read is Cut
            }
        }),
{
}

/// Taking bytes off a stream takes the first of them, and changes nothing else.
pub proof fn law_bytes_are_taken_off_the_front(stream: Stream, n: nat)
    requires
        n <= stream.incoming.len(),
    ensures
        stream.incoming == stream.incoming.take(n as int) + stream.without(n).incoming,
        stream.without(n) == (Stream { incoming: stream.without(n).incoming, ..stream }),
{
    assert(stream.incoming =~= stream.incoming.take(n as int) + stream.incoming.skip(n as int));
}

/// A channel is opened for a session and for nothing else, and its subsystem is the one named
/// `sftp` and no other.
pub proof fn law_only_a_session_with_the_subsystem_is_served(
    kind: Seq<u8>,
    name: Seq<u8>,
    remote_id: u32,
    sizes: Seq<u8>,
    want_reply: bool,
    rest: Seq<u8>,
)
    requires
        kind.len() <= u32::MAX,
        name.len() <= u32::MAX,
    ensures
        session_opened(seq![90u8] + (string(kind) + (be32(remote_id) + sizes))) == if kind
            == encode_utf8("session"@) {
            Ok::<(u32, u32), Error>((remote_id, advertised(sizes)))
        } else {
            Err(Error::NotSession)
        },
        subsystem_asked(
            seq![98u8] + (be32(remote_id) + (string(kind) + (boolean(want_reply) + (string(name)
                + rest)))),
        ) == if kind != encode_utf8("subsystem"@) {
            Err::<(), Error>(Error::NotSubsystem)
        } else if name != encode_utf8("sftp"@) {
            Err(Error::NotSftp)
        } else {
            Ok(())
        },
{
    let opening = seq![90u8] + (string(kind) + (be32(remote_id) + sizes));
    assert(opening.skip(1) =~= string(kind) + (be32(remote_id) + sizes));
    law_string_reads_back(kind, be32(remote_id) + sizes);
    law_u32_reads_back(remote_id, sizes);
    lemma_request_is_read(remote_id, kind, want_reply, name, rest);
}

/// The peer's number stands behind our own in a confirmation, and the sizes behind both.
pub proof fn law_a_confirmation_gives_the_peers_number(local: u32, remote_id: u32, sizes: Seq<u8>)
    ensures
        confirmed(seq![91u8] + (be32(local) + (be32(remote_id) + sizes))) == Ok::<
            (u32, u32),
            Error,
        >((remote_id, advertised(sizes))),
{
    lemma_channel_is_confirmed(local, remote_id, sizes);
}

/// The bytes of messages are the bytes of each.
pub proof fn law_messages_are_their_bytes(sent: Seq<Vec<u8>>)
    ensures
        messages(sent).len() == sent.len(),
        forall|i: int| 0 <= i < sent.len() ==> #[trigger] messages(sent)[i] == sent[i]@,
{
}

/// A confirmation holds both numbers, four bytes each; one that is cut short of them is refused, and
/// so is another message, by the number that was due.
pub proof fn law_what_a_confirmation_has_to_hold(message: Seq<u8>)
    ensures
        confirmed(message) is Ok <==> message.len() >= 9 && message[0] == 91,
        0 < message.len() < 9 && message[0] == 91 ==> confirmed(message) == Err::<
            (u32, u32),
            Error,
        >(Error::Truncated),
        due(message, 91, "the channel confirmation") matches Err(error) ==> confirmed(message)
            == Err::<(u32, u32), Error>(error),
{
}

/// An opening holds the kind of channel and the peer's number; one that is cut short of them is
/// refused, and so is another message, by the number that was due.
pub proof fn law_what_an_opening_has_to_hold(message: Seq<u8>)
    ensures
        session_opened(message) is Ok <==> {
            &&& message.len() > 0 && message[0] == 90
            &&& take_string(message.skip(1)) matches Some((kind, rest))
            &&& kind == encode_utf8("session"@)
            &&& rest.len() >= 4
        },
        session_opened(message) matches Err(error) ==> error is NotSession || error is Truncated
            || due(message, 90, "a channel open") == Err::<(), Error>(error),
        session_opened(message) == Err::<(u32, u32), Error>(Error::NotSession) ==> {
            &&& take_string(message.skip(1)) matches Some((kind, _))
            &&& kind != encode_utf8("session"@)
        },
{
}

/// A request for the subsystem holds the number of the channel, its kind, whether an answer is
/// wanted and the subsystem's name; one that is cut short of them is refused, and so is another
/// message, by the number that was due.
pub proof fn law_what_a_request_has_to_hold(message: Seq<u8>)
    ensures
        subsystem_asked(message) is Ok <==> {
            &&& message.len() >= 5 && message[0] == 98
            &&& take_string(message.skip(5)) matches Some((kind, rest))
            &&& kind == encode_utf8("subsystem"@)
            &&& rest.len() >= 1
            &&& take_string(rest.skip(1)) matches Some((name, _))
            &&& name == encode_utf8("sftp"@)
        },
        subsystem_asked(message) matches Err(error) ==> error is NotSubsystem || error is NotSftp
            || error is Truncated || due(message, 98, "a channel request") == Err::<(), Error>(
            error,
        ),
{
    assert(message.len() >= 5 ==> message.skip(1).skip(4) =~= message.skip(5));
}

} // verus!
