//! The binary packet protocol: the connection that carries messages as packets (RFC 4253
//! section 6), in the clear before the keys are exchanged and under a [`Cipher`] after.
//!
//! A [`Conn`] does no input or output of its own. What was read off the line is handed to
//! [`Conn::receive`]; what [`Conn::send`] returns is to be written to it.

use vstd::prelude::*;
use vstd::slice::slice_to_vec;
use vstd::string::*;
use vstd::utf8::encode_utf8;

use crate::cipher::{
    carried, law_open_undoes_seal, packet, padding_size, plain, reports, take, Cipher, Opening,
    Sealing,
};
use crate::error::Error;
use crate::text::{text_of, utf8_text};

verus! {

/// The largest binary packet accepted, so a bad length cannot ask for a gigabyte. Channel data
/// is chunked well under this.
pub const MAX_PACKET: usize = 262_144;

/// How many lines a peer may send before its identification string.
pub const MAX_BANNER_LINES: usize = 64;

/// A connection carrying binary packets, its two directions counted so the message
/// authentication code covers the sequence number (RFC 4253 section 6.4).
pub struct Conn {
    reader: Vec<u8>,
    tx: Cipher,
    rx: Cipher,
    tx_seq: u32,
    rx_seq: u32,
}

/// What a connection holds: the bytes received and not yet taken, and where each direction
/// stands.
pub ghost struct Line {
    pub reader: Seq<u8>,
    pub tx: Sealing,
    pub rx: Sealing,
    pub tx_seq: u32,
    pub rx_seq: u32,
}

impl View for Conn {
    type V = Line;

    closed spec fn view(&self) -> Line {
        Line {
            reader: self.reader@,
            tx: self.tx@,
            rx: self.rx@,
            tx_seq: self.tx_seq,
            rx_seq: self.rx_seq,
        }
    }
}

/// The number after `n`, the first again after the last.
pub open spec fn next32(n: u32) -> u32 {
    if n == u32::MAX {
        0
    } else {
        (n + 1) as u32
    }
}

/// What is done on a connection.
pub ghost enum Call {
    /// A message goes out, padded with `padding`.
    Send { payload: Seq<u8>, padding: Seq<u8> },
    /// Bytes arrive.
    Receive { bytes: Seq<u8> },
    /// The next packet is opened, as far as it is there.
    Recv,
    /// Both directions switch to other keys.
    Rekey { tx: Sealing, rx: Sealing },
}

impl Line {
    /// A line with nothing received yet, in the clear.
    pub open spec fn fresh() -> Line {
        Line {
            reader: Seq::empty(),
            tx: Sealing::Plain,
            rx: Sealing::Plain,
            tx_seq: 0,
            rx_seq: 0,
        }
    }

    /// The line after one call.
    pub open spec fn after_call(self, call: Call) -> Line {
        match call {
            Call::Send { payload, padding } => self.after_send(packet(payload, padding).len()),
            Call::Receive { bytes } => Line { reader: self.reader + bytes, ..self },
            Call::Recv => self.after_recv(),
            Call::Rekey { tx, rx } => Line { tx, rx, ..self },
        }
    }

    /// The line after a run of calls.
    pub open spec fn after_calls(self, calls: Seq<Call>) -> Line
        decreases calls.len(),
    {
        if calls.len() == 0 {
            self
        } else {
            self.after_call(calls[0]).after_calls(calls.skip(1))
        }
    }

    /// How many messages come in over a run of calls.
    pub open spec fn came_in(self, calls: Seq<Call>) -> nat
        decreases calls.len(),
    {
        if calls.len() == 0 {
            0
        } else {
            let later = self.after_call(calls[0]).came_in(calls.skip(1));
            if calls[0] is Recv && self.opening() is Payload {
                1 + later
            } else {
                later
            }
        }
    }

    /// The line after a message went out that was framed to `count` bytes.
    pub open spec fn after_send(self, count: nat) -> Line {
        Line { tx: self.tx.after(count), tx_seq: next32(self.tx_seq), ..self }
    }

    /// What opening the next packet gives.
    pub open spec fn opening(self) -> Opening {
        self.rx.open(self.rx_seq, self.reader)
    }

    /// The line after the next packet was opened, as far as it is there.
    pub open spec fn after_recv(self) -> Line {
        let rx = self.rx.after_open(self.rx_seq, self.reader);
        match self.opening() {
            Opening::More => self,
            Opening::Refused { taken, .. } => Line {
                reader: self.reader.skip(taken as int),
                rx,
                ..self
            },
            Opening::Payload { taken, .. } => Line {
                reader: self.reader.skip(taken as int),
                rx,
                rx_seq: next32(self.rx_seq),
                ..self
            },
        }
    }

    /// Whether what goes out here is what `other` opens: the same keys, the same place of the
    /// keystream, the same sequence number.
    pub open spec fn feeds(self, other: Line) -> bool {
        self.tx == other.rx && self.tx_seq == other.rx_seq
    }
}

/// What is to be said of a message where the message number `expected` is due.
pub open spec fn due(message: Seq<u8>, expected: u8, what: &'static str) -> Result<(), Error> {
    if message.len() == 0 {
        Err(Error::Empty { what })
    } else if message[0] != expected {
        Err(Error::Unexpected { what, expected, number: message[0] })
    } else {
        Ok(())
    }
}

/// Insist on a message's number.
pub fn insist(message: &[u8], expected: u8, what: &'static str) -> (outcome: Result<(), Error>)
    ensures
        outcome == due(message@, expected, what),
{
    if message.len() == 0 {
        Err(Error::Empty { what })
    } else if message[0] != expected {
        Err(Error::Unexpected { what, expected, number: message[0] })
    } else {
        Ok(())
    }
}

/// How many bytes the first line of `s` takes, its line feed counted; all of `s` where no line
/// ends.
pub open spec fn line_length(s: Seq<u8>) -> nat
    decreases s.len(),
{
    if s.len() == 0 {
        0
    } else if s[0] == 0x0a {
        1
    } else {
        1 + line_length(s.skip(1))
    }
}

/// Whether a line ends in `s`.
pub open spec fn line_ends(s: Seq<u8>) -> bool {
    line_length(s) > 0 && s[line_length(s) - 1] == 0x0a
}

/// A line without the carriage returns and line feeds it ends with.
pub open spec fn trimmed(line: Seq<u8>) -> Seq<u8>
    decreases line.len(),
{
    if line.len() > 0 && (line.last() == 0x0a || line.last() == 0x0d) {
        trimmed(line.drop_last())
    } else {
        line
    }
}

/// Whether a line opens with `SSH-`.
pub open spec fn identifies(line: Seq<u8>) -> bool {
    line.len() >= 4 && line[0] == 0x53 && line[1] == 0x53 && line[2] == 0x48 && line[3] == 0x2d
}

/// What a peer has sent by way of identification.
pub ghost enum Banner {
    /// Nothing to tell by yet.
    More,
    /// No identification, and none to come.
    Absent,
    /// An identification that is not text.
    NotUtf8,
    /// The identification, and how many bytes it took with the lines before it.
    Found { text: Seq<char>, taken: nat },
}

/// The identification string among the first `lines` lines of `s`; `ended` where nothing comes
/// after `s`.
pub open spec fn identification(s: Seq<u8>, ended: bool, lines: nat) -> Banner
    decreases lines,
{
    let n = line_length(s);
    let line = trimmed(s.take(n as int));
    if lines == 0 {
        Banner::Absent
    } else if !line_ends(s) && !ended {
        Banner::More
    } else if n == 0 {
        Banner::Absent
    } else if identifies(line) {
        match text_of(line) {
            Some(text) => Banner::Found { text, taken: n },
            None => Banner::NotUtf8,
        }
    } else {
        match identification(s.skip(n as int), ended, (lines - 1) as nat) {
            Banner::Found { text, taken } => Banner::Found { text, taken: n + taken },
            other => other,
        }
    }
}

proof fn lemma_line_length(s: Seq<u8>)
    ensures
        line_length(s) <= s.len(),
        line_length(s) == 0 <==> s.len() == 0,
        !line_ends(s) ==> line_length(s) == s.len(),
        forall|i: int| 0 <= i < line_length(s) - 1 ==> s[i] != 0x0a,
    decreases s.len(),
{
    if s.len() > 0 && s[0] != 0x0a {
        lemma_line_length(s.skip(1));
        assert forall|i: int| 0 <= i < line_length(s) - 1 implies s[i] != 0x0a by {
            if i > 0 {
                assert(s[i] == s.skip(1)[i - 1]);
            }
        }
    }
}

/// A line ends where its first line feed is.
proof fn lemma_line_end(s: Seq<u8>, n: nat)
    requires
        0 < n <= s.len(),
        forall|i: int| 0 <= i < n - 1 ==> s[i] != 0x0a,
        s[n - 1] == 0x0a || n == s.len(),
    ensures
        line_length(s) == n,
        line_ends(s) <==> s[n - 1] == 0x0a,
    decreases s.len(),
{
    if n > 1 {
        let t = s.skip(1);
        assert forall|i: int| 0 <= i < n - 2 implies t[i] != 0x0a by {
            assert(t[i] == s[i + 1]);
        }
        assert(t[n - 2] == s[n - 1]);
        assert(s[0] != 0x0a);
        lemma_line_end(t, (n - 1) as nat);
    } else if s[0] != 0x0a {
        assert(line_length(s.skip(1)) == 0);
    }
}

/// How many bytes the first line of `bytes` takes.
fn first_line(bytes: &[u8]) -> (count: usize)
    ensures
        count == line_length(bytes@),
{
    let mut n: usize = 0;
    while n < bytes.len()
        invariant
            n <= bytes@.len(),
            forall|i: int| 0 <= i < n ==> bytes@[i] != 0x0a,
        decreases bytes@.len() - n,
    {
        n += 1;
        if bytes[n - 1] == 0x0a {
            proof {
                lemma_line_end(bytes@, n as nat);
            }
            return n;
        }
    }
    proof {
        lemma_line_length(bytes@);
        if line_ends(bytes@) {
            assert(bytes@[line_length(bytes@) - 1] != 0x0a);
        }
    }
    n
}

/// `line` without the carriage returns and line feeds it ends with.
fn trim(line: &[u8]) -> (kept: &[u8])
    ensures
        kept@ == trimmed(line@),
{
    let mut n: usize = line.len();
    assert(line@.take(n as int) =~= line@);
    while n > 0 && (line[n - 1] == 0x0a || line[n - 1] == 0x0d)
        invariant
            n <= line@.len(),
            trimmed(line@.take(n as int)) == trimmed(line@),
        decreases n,
    {
        assert(line@.take(n as int).drop_last() =~= line@.take(n - 1));
        n -= 1;
    }
    assert(line@.subrange(0, n as int) =~= line@.take(n as int));
    &line[0..n]
}

impl Conn {
    /// A connection with nothing received yet, in the clear until [`Conn::rekey`].
    pub fn new() -> (made: Self)
        ensures
            made@ == Line::fresh(),
    {
        Conn { reader: Vec::new(), tx: plain(), rx: plain(), tx_seq: 0, rx_seq: 0 }
    }

    /// Take in bytes that have arrived.
    pub fn receive(&mut self, bytes: &[u8])
        ensures
            final(self)@ == (Line { reader: old(self)@.reader + bytes@, ..old(self)@ }),
    {
        self.reader.extend_from_slice(bytes);
        assert(self.reader@ =~= old(self).reader@ + bytes@);
    }

    /// Our identification string as it goes out, its line ended.
    pub fn greeting(ours: &str) -> (line: Vec<u8>)
        ensures
            line@ == encode_utf8(ours@) + seq![0x0du8, 0x0au8],
    {
        let mut line = slice_to_vec(ours.as_bytes());
        line.push(0x0d);
        line.push(0x0a);
        assert(line@ =~= encode_utf8(ours@) + seq![0x0du8, 0x0au8]);
        line
    }

    /// The peer's identification string, skipping any lines it sent before one that opens with
    /// `SSH-` (RFC 4253 section 4.2), or nothing while it has not arrived; `ended` where nothing
    /// more will. The string has no trailing carriage return or line feed, which is what the
    /// exchange hash covers.
    pub fn banner(&mut self, ended: bool) -> (peer: Result<Option<String>, Error>)
        ensures
            match identification(old(self)@.reader, ended, MAX_BANNER_LINES as nat) {
                Banner::More => peer == Ok::<Option<String>, Error>(None) && final(self)@ == old(
                    self,
                )@,
                Banner::Absent => peer == Err::<Option<String>, Error>(Error::NoIdentification)
                    && final(self)@ == old(self)@,
                Banner::NotUtf8 => peer == Err::<Option<String>, Error>(
                    Error::IdentificationNotUtf8,
                ) && final(self)@ == old(self)@,
                Banner::Found { text, taken } => {
                    &&& peer is Ok
                    &&& peer->Ok_0 is Some
                    &&& peer->Ok_0->0@ == text
                    &&& taken <= old(self)@.reader.len()
                    &&& final(self)@ == (Line {
                        reader: old(self)@.reader.skip(taken as int),
                        ..old(self)@
                    })
                },
            },
    {
        let mut left: usize = MAX_BANNER_LINES;
        let mut at: usize = 0;
        let ghost all = identification(self.reader@, ended, MAX_BANNER_LINES as nat);
        assert(self.reader@.skip(0) =~= self.reader@);
        while left > 0
            invariant
                left <= MAX_BANNER_LINES,
                at <= self.reader@.len(),
                *self == *old(self),
                all == identification(self.reader@, ended, MAX_BANNER_LINES as nat),
                all == match identification(self.reader@.skip(at as int), ended, left as nat) {
                    Banner::Found { text, taken } => Banner::Found { text, taken: at as nat + taken },
                    other => other,
                },
            decreases left,
        {
            let rest = &self.reader[at..self.reader.len()];
            assert(rest@ =~= self.reader@.skip(at as int));
            let n = first_line(rest);
            proof {
                lemma_line_length(rest@);
            }
            if !ended && !(n > 0 && rest[n - 1] == 0x0a) {
                return Ok(None);
            }
            if n == 0 {
                return Err(Error::NoIdentification);
            }
            let line = trim(&rest[0..n]);
            assert(rest@.subrange(0, n as int) =~= rest@.take(n as int));
            if line.len() >= 4 && line[0] == 0x53 && line[1] == 0x53 && line[2] == 0x48 && line[3]
                == 0x2d {
                return match utf8_text(line) {
                    Some(text) => {
                        take(&mut self.reader, at + n);
                        Ok(Some(text))
                    },
                    None => Err(Error::IdentificationNotUtf8),
                };
            }
            assert(rest@.skip(n as int) =~= self.reader@.skip((at + n) as int));
            at = at + n;
            left = left - 1;
        }
        Err(Error::NoIdentification)
    }

    /// One message as it goes out, sealed by the outgoing cipher and padded with fresh randomness.
    pub fn send(&mut self, payload: &[u8]) -> (wire: Result<Vec<u8>, Error>)
        ensures
            match wire {
                Ok(bytes) => exists|padding: Seq<u8>|
                    {
                        &&& padding.len() == padding_size(payload@.len(), old(self)@.tx.block())
                        &&& old(self)@.tx.room(packet(payload@, padding).len())
                        &&& bytes@ == #[trigger] old(self)@.tx.sealed(
                            old(self)@.tx_seq,
                            payload@,
                            padding,
                        )
                        &&& final(self)@ == old(self)@.after_send(packet(payload@, padding).len())
                    },
                Err(error) => {
                    &&& error == Error::NoPadding || error == Error::KeystreamSpent && !old(
                        self,
                    )@.tx.room(
                        5 + payload@.len() + padding_size(payload@.len(), old(self)@.tx.block()),
                    )
                    &&& final(self)@ == old(self)@
                },
            },
    {
        let padding = self.tx.padding_for(payload.len())?;
        assert(packet(payload@, padding@).len() == 5 + payload@.len() + padding@.len());
        self.send_with(payload, &padding)
    }

    /// One message as it goes out, sealed by the outgoing cipher and padded with `padding`.
    pub fn send_with(&mut self, payload: &[u8], padding: &[u8]) -> (wire: Result<Vec<u8>, Error>)
        ensures
            if old(self)@.tx.room(packet(payload@, padding@).len()) {
                &&& wire is Ok
                &&& wire->Ok_0@ == old(self)@.tx.sealed(old(self)@.tx_seq, payload@, padding@)
                &&& final(self)@ == old(self)@.after_send(packet(payload@, padding@).len())
            } else {
                &&& wire == Err::<Vec<u8>, Error>(Error::KeystreamSpent)
                &&& final(self)@ == old(self)@
            },
    {
        let wire = self.tx.seal_with(self.tx_seq, payload, padding)?;
        self.tx_seq = self.tx_seq.wrapping_add(1);
        Ok(wire)
    }

    /// The next message, opened by the incoming cipher, or nothing while it is not there whole.
    pub fn recv(&mut self) -> (payload: Result<Option<Vec<u8>>, Error>)
        ensures
            reports(old(self)@.opening(), payload, old(self)@.reader, final(self)@.reader),
            final(self)@ == old(self)@.after_recv(),
    {
        match self.rx.open(self.rx_seq, &mut self.reader) {
            Ok(Some(payload)) => {
                self.rx_seq = self.rx_seq.wrapping_add(1);
                Ok(Some(payload))
            },
            other => other,
        }
    }

    /// The next message, insisting on its message number.
    pub fn expect(&mut self, expected: u8, what: &'static str) -> (payload: Result<
        Option<Vec<u8>>,
        Error,
    >)
        ensures
            final(self)@ == old(self)@.after_recv(),
            match old(self)@.opening() {
                Opening::More => payload == Ok::<Option<Vec<u8>>, Error>(None),
                Opening::Refused { error, .. } => payload == Err::<Option<Vec<u8>>, Error>(error),
                Opening::Payload { payload: message, .. } => match due(message, expected, what) {
                    Ok(_) => payload is Ok && payload->Ok_0 is Some && payload->Ok_0->0@
                        == message,
                    Err(error) => payload == Err::<Option<Vec<u8>>, Error>(error),
                },
            },
    {
        match self.recv() {
            Ok(Some(message)) => match insist(&message, expected, what) {
                Ok(()) => Ok(Some(message)),
                Err(error) => Err(error),
            },
            other => other,
        }
    }

    /// Switch both directions to the exchanged keys.
    pub fn rekey(&mut self, tx: Cipher, rx: Cipher)
        ensures
            final(self)@ == (Line { tx: tx@, rx: rx@, ..old(self)@ }),
    {
        self.tx = tx;
        self.rx = rx;
    }
}

/// A message that goes out on a line that feeds another is what comes in there, whatever follows
/// it, and the two lines stay in step.
pub proof fn law_recv_gives_what_send_took(
    here: Line,
    there: Line,
    payload: Seq<u8>,
    padding: Seq<u8>,
    rest: Seq<u8>,
)
    requires
        here.feeds(there),
        padding.len() == padding_size(payload.len(), here.tx.block()),
        carried(1 + payload.len() + padding.len()),
        here.tx.room(MAX_PACKET as nat + 4),
        there.reader == here.tx.sealed(here.tx_seq, payload, padding) + rest,
    ensures
        there.opening() == (Opening::Payload {
            payload,
            taken: here.tx.sealed(here.tx_seq, payload, padding).len(),
        }),
        there.after_recv().reader == rest,
        here.after_send(packet(payload, padding).len()).feeds(there.after_recv()),
{
    law_open_undoes_seal(here.tx, here.tx_seq, payload, padding, rest);
    let wire = here.tx.sealed(here.tx_seq, payload, padding);
    assert((wire + rest).skip(wire.len() as int) =~= rest);
}

/// How many messages go out over a run of calls.
pub open spec fn went_out(calls: Seq<Call>) -> nat
    decreases calls.len(),
{
    if calls.len() == 0 {
        0
    } else if calls[0] is Send {
        1 + went_out(calls.skip(1))
    } else {
        went_out(calls.skip(1))
    }
}

/// The keys that the last rekeying of a run set for each direction, those of before where there
/// was none.
pub open spec fn keys_set(tx: Sealing, rx: Sealing, calls: Seq<Call>) -> (Sealing, Sealing)
    decreases calls.len(),
{
    if calls.len() == 0 {
        (tx, rx)
    } else {
        match calls[0] {
            Call::Rekey { tx, rx } => keys_set(tx, rx, calls.skip(1)),
            _ => keys_set(tx, rx, calls.skip(1)),
        }
    }
}

/// How many bytes of packets have gone out since the last rekeying of a run, or, where there was
/// none, together with those of before.
pub open spec fn bytes_since(before: nat, calls: Seq<Call>) -> nat
    decreases calls.len(),
{
    if calls.len() == 0 {
        before
    } else {
        match calls[0] {
            Call::Rekey { .. } => bytes_since(0, calls.skip(1)),
            Call::Send { payload, padding } => bytes_since(
                before + packet(payload, padding).len(),
                calls.skip(1),
            ),
            _ => bytes_since(before, calls.skip(1)),
        }
    }
}

/// What a new connection has come to after any run of calls: each direction has counted its
/// messages, modulo the numbers there are and across every rekeying, and stands under the keys
/// that the last rekeying set, in the clear where there was none; the outgoing one behind what
/// has gone out since. So the message that goes out next is sealed under those keys, with the
/// number of messages that went out before it for its sequence number.
pub proof fn law_messages_are_counted_from_the_first(
    calls: Seq<Call>,
    payload: Seq<u8>,
    padding: Seq<u8>,
)
    ensures
        ({
            let line = Line::fresh().after_calls(calls);
            let (tx, rx) = keys_set(Sealing::Plain, Sealing::Plain, calls);
            let sent = (went_out(calls) % 0x1_0000_0000) as u32;
            &&& line.tx_seq == went_out(calls) % 0x1_0000_0000
            &&& line.rx_seq == Line::fresh().came_in(calls) % 0x1_0000_0000
            &&& line.tx == tx.after(bytes_since(0, calls))
            &&& exists|taken: nat| line.rx == #[trigger] rx.after(taken)
            &&& line.tx.sealed(line.tx_seq, payload, padding) == tx.after(
                bytes_since(0, calls),
            ).sealed(sent, payload, padding)
        }),
{
    let line = Line::fresh();
    assert(line.tx == Sealing::Plain.after(0));
    assert(line.rx == Sealing::Plain.after(0));
    lemma_counted(line, Sealing::Plain, 0, Sealing::Plain, 0, calls);
}

/// One call, in the terms of [`lemma_counted`].
proof fn lemma_one_call(line: Line, rx: Sealing, taken: nat, call: Call) -> (then: nat)
    requires
        line.rx == rx.after(taken),
    ensures
        !(call is Rekey) ==> line.after_call(call).rx == rx.after(then),
{
    match (call, rx) {
        (Call::Recv, Sealing::Suite(keys)) => {
            let moved = keys.after(taken).after_open(line.rx_seq, line.reader);
            (moved.position - keys.position) as nat
        },
        _ => taken,
    }
}

proof fn lemma_counted(
    line: Line,
    tx: Sealing,
    sent: nat,
    rx: Sealing,
    taken: nat,
    calls: Seq<Call>,
)
    requires
        line.tx == tx.after(sent),
        line.rx == rx.after(taken),
    ensures
        ({
            let then = line.after_calls(calls);
            let (last_tx, last_rx) = keys_set(tx, rx, calls);
            &&& then.tx_seq == (line.tx_seq + went_out(calls)) % 0x1_0000_0000
            &&& then.rx_seq == (line.rx_seq + line.came_in(calls)) % 0x1_0000_0000
            &&& then.tx == last_tx.after(bytes_since(sent, calls))
            &&& exists|further: nat| then.rx == #[trigger] last_rx.after(further)
        }),
    decreases calls.len(),
{
    if calls.len() > 0 {
        let next = line.after_call(calls[0]);
        match calls[0] {
            Call::Rekey { tx: new_tx, rx: new_rx } => {
                lemma_after_nothing(new_tx);
                lemma_after_nothing(new_rx);
                lemma_counted(next, new_tx, 0, new_rx, 0, calls.skip(1));
            },
            Call::Send { payload, padding } => {
                let size = packet(payload, padding).len();
                assert(tx.after(sent).after(size) == tx.after(sent + size));
                lemma_counted(next, tx, sent + size, rx, taken, calls.skip(1));
            },
            _ => {
                let further = lemma_one_call(line, rx, taken, calls[0]);
                lemma_counted(next, tx, sent, rx, further, calls.skip(1));
            },
        }
    }
}

proof fn lemma_after_nothing(sealing: Sealing)
    ensures
        sealing.after(0) == sealing,
{
}

/// Whether every message of a run can go out on a line and be opened at its other end.
pub open spec fn all_carried(line: Line, calls: Seq<Call>) -> bool
    decreases calls.len(),
{
    calls.len() == 0 || match calls[0] {
        Call::Send { payload, padding } => {
            &&& padding.len() == padding_size(payload.len(), line.tx.block())
            &&& carried(1 + payload.len() + padding.len())
            &&& line.tx.room(MAX_PACKET as nat + 4)
        },
        _ => true,
    } && all_carried(line.after_call(calls[0]), calls.skip(1))
}

/// The packets that go out over a run of calls, one behind the other.
pub open spec fn on_the_wire(line: Line, calls: Seq<Call>) -> Seq<u8>
    decreases calls.len(),
{
    if calls.len() == 0 {
        Seq::empty()
    } else {
        let later = on_the_wire(line.after_call(calls[0]), calls.skip(1));
        match calls[0] {
            Call::Send { payload, padding } => line.tx.sealed(line.tx_seq, payload, padding)
                + later,
            _ => later,
        }
    }
}

/// The messages of a run.
pub open spec fn payloads_of(calls: Seq<Call>) -> Seq<Seq<u8>>
    decreases calls.len(),
{
    if calls.len() == 0 {
        Seq::empty()
    } else {
        match calls[0] {
            Call::Send { payload, .. } => seq![payload] + payloads_of(calls.skip(1)),
            _ => payloads_of(calls.skip(1)),
        }
    }
}

/// The other end of a run of calls: it opens a packet for each message that goes out, and turns
/// to the keys of the outgoing direction where that does. The messages that come in, and the line
/// then; nothing where one does not come in.
pub open spec fn follow(there: Line, calls: Seq<Call>) -> Option<(Seq<Seq<u8>>, Line)>
    decreases calls.len(),
{
    if calls.len() == 0 {
        Some((Seq::empty(), there))
    } else {
        match calls[0] {
            Call::Send { .. } => match there.opening() {
                Opening::Payload { payload, .. } => match follow(
                    there.after_recv(),
                    calls.skip(1),
                ) {
                    Some((payloads, last)) => Some((seq![payload] + payloads, last)),
                    None => None,
                },
                _ => None,
            },
            Call::Rekey { tx, .. } => follow(Line { rx: tx, ..there }, calls.skip(1)),
            _ => follow(there, calls.skip(1)),
        }
    }
}

/// Whatever run of calls a connection goes through, the messages that go out come in at its other
/// end, each as it was and in their order, across every rekeying, whatever follows the last of
/// them; and the two ends stay in step.
pub proof fn law_a_run_comes_in_as_it_went_out(
    here: Line,
    there: Line,
    calls: Seq<Call>,
    rest: Seq<u8>,
)
    requires
        here.feeds(there),
        all_carried(here, calls),
        there.reader == on_the_wire(here, calls) + rest,
    ensures
        follow(there, calls) matches Some((payloads, last)) && payloads == payloads_of(calls)
            && last.reader == rest && here.after_calls(calls).feeds(last),
    decreases calls.len(),
{
    if calls.len() == 0 {
        assert(there.reader =~= rest);
    } else {
        let next = here.after_call(calls[0]);
        let left = on_the_wire(next, calls.skip(1)) + rest;
        match calls[0] {
            Call::Send { payload, padding } => {
                let wire = here.tx.sealed(here.tx_seq, payload, padding);
                assert(there.reader =~= wire + left);
                law_recv_gives_what_send_took(here, there, payload, padding, left);
                law_a_run_comes_in_as_it_went_out(next, there.after_recv(), calls.skip(1), rest);
            },
            Call::Rekey { tx, .. } => {
                law_a_run_comes_in_as_it_went_out(
                    next,
                    Line { rx: tx, ..there },
                    calls.skip(1),
                    rest,
                );
            },
            _ => {
                law_a_run_comes_in_as_it_went_out(next, there, calls.skip(1), rest);
            },
        }
    }
}

/// The limits of the line: the largest packet, and the lines that may come before the
/// identification.
pub proof fn law_the_limits_of_the_line()
    ensures
        MAX_PACKET == 262_144,
        MAX_BANNER_LINES == 64,
{
}

/// A message that goes out counts one on its own direction, the first number again after the last,
/// and moves its own keystream on; nothing of the other direction changes.
pub proof fn law_a_message_out_counts_one(line: Line, count: nat)
    ensures
        line.after_send(count).tx_seq == (line.tx_seq + 1) % 0x1_0000_0000,
        line.after_send(count).tx == line.tx.after(count),
        line.after_send(count).rx == line.rx,
        line.after_send(count).rx_seq == line.rx_seq,
        line.after_send(count).reader == line.reader,
{
}

/// A message that comes in is taken off the bytes that were received and counts one; one that is
/// refused is taken off and not counted; while it is not there whole nothing changes. Nothing of
/// the other direction ever does.
pub proof fn law_a_message_in_counts_one(line: Line)
    ensures
        line.opening() == line.rx.open(line.rx_seq, line.reader),
        line.after_recv().tx == line.tx,
        line.after_recv().tx_seq == line.tx_seq,
        match line.opening() {
            Opening::More => line.after_recv() == line,
            Opening::Refused { taken, .. } => line.after_recv().rx_seq == line.rx_seq
                && line.after_recv().reader == line.reader.skip(taken as int),
            Opening::Payload { taken, .. } => line.after_recv().rx_seq == (line.rx_seq + 1)
                % 0x1_0000_0000 && line.after_recv().reader == line.reader.skip(taken as int),
        },
        line.opening() !is More ==> line.after_recv().rx == line.rx.after_open(
            line.rx_seq,
            line.reader,
        ),
{
}

/// A line begins with both numbers at nothing, nothing received, and neither direction under keys.
pub proof fn law_a_line_begins_in_the_clear()
    ensures
        Line::fresh().tx_seq == 0 && Line::fresh().rx_seq == 0,
        Line::fresh().reader.len() == 0,
        Line::fresh().tx is Plain && Line::fresh().rx is Plain,
{
}

/// A message passes exactly where its first byte is the number that is due; what is said of
/// another one names both numbers and what was due.
pub proof fn law_a_message_is_known_by_its_number(
    message: Seq<u8>,
    expected: u8,
    what: &'static str,
)
    ensures
        due(message, expected, what) is Ok <==> message.len() > 0 && message[0] == expected,
        message.len() == 0 ==> due(message, expected, what) == Err::<(), Error>(
            Error::Empty { what },
        ),
        message.len() > 0 && message[0] != expected ==> due(message, expected, what) == Err::<
            (),
            Error,
        >(Error::Unexpected { what, expected, number: message[0] }),
{
}

/// Whether bytes open with the four that read `SSH-`.
pub open spec fn opens_with_ssh(s: Seq<u8>) -> bool {
    s.len() >= 4 && s.take(4) == seq![0x53u8, 0x53u8, 0x48u8, 0x2du8]
}

/// A line that does not open with `SSH-` is passed over: what is behind it is looked through with
/// one line less to go, and its bytes go with those that are found.
pub proof fn law_a_line_before_is_passed_over(
    line: Seq<u8>,
    rest: Seq<u8>,
    ended: bool,
    lines: nat,
)
    requires
        line.len() > 0,
        line.last() == 0x0a,
        forall|i: int| 0 <= i < line.len() - 1 ==> line[i] != 0x0a,
        !opens_with_ssh(line),
    ensures
        identification(line + rest, ended, lines + 1) == match identification(rest, ended, lines) {
            Banner::Found { text, taken } => Banner::Found { text, taken: line.len() + taken },
            other => other,
        },
{
    let s = line + rest;
    lemma_line_end(s, line.len());
    assert(s.take(line.len() as int) =~= line);
    assert(s.skip(line.len() as int) =~= rest);
    lemma_trimmed(line);
    let kept = trimmed(line);
    if identifies(kept) {
        assert(line.take(4) =~= seq![0x53u8, 0x53u8, 0x48u8, 0x2du8]) by {
            assert forall|i: int| 0 <= i < 4 implies line[i] == kept[i] by {}
        }
    }
}

/// What is left of a line is its front, and what is cut off it are carriage returns and line feeds.
proof fn lemma_trimmed(line: Seq<u8>)
    ensures
        trimmed(line).len() <= line.len(),
        trimmed(line) == line.take(trimmed(line).len() as int),
        trimmed(line).len() > 0 ==> trimmed(line).last() != 0x0a && trimmed(line).last() != 0x0d,
        forall|i: int| trimmed(line).len() <= i < line.len() ==> line[i] == 0x0a || line[i] == 0x0d,
    decreases line.len(),
{
    if line.len() > 0 && (line.last() == 0x0a || line.last() == 0x0d) {
        lemma_trimmed(line.drop_last());
        assert(line.drop_last().take(trimmed(line).len() as int) =~= line.take(
            trimmed(line).len() as int,
        ));
        assert forall|i: int| trimmed(line).len() <= i < line.len() implies line[i] == 0x0a
            || line[i] == 0x0d by {
            if i < line.len() - 1 {
                assert(line.drop_last()[i] == line[i]);
            }
        }
    } else {
        assert(line.take(line.len() as int) =~= line);
    }
}

/// A line keeps what is before the carriage returns and line feeds at its end, whatever their
/// number, and nothing else is cut off.
pub proof fn law_a_line_is_trimmed_at_its_end(kept: Seq<u8>, ending: Seq<u8>)
    requires
        kept.len() > 0 ==> kept.last() != 0x0a && kept.last() != 0x0d,
        forall|i: int| 0 <= i < ending.len() ==> ending[i] == 0x0a || ending[i] == 0x0d,
    ensures
        trimmed(kept + ending) == kept,
    decreases ending.len(),
{
    if ending.len() > 0 {
        assert((kept + ending).drop_last() =~= kept + ending.drop_last());
        law_a_line_is_trimmed_at_its_end(kept, ending.drop_last());
    } else {
        assert(kept + ending =~= kept);
    }
}

/// The first line that opens with `SSH-` is the identification, without the carriage returns and
/// line feeds at its end, and its bytes are taken, those included; it has to be text.
pub proof fn law_the_identification_is_its_line(
    kept: Seq<u8>,
    ending: Seq<u8>,
    rest: Seq<u8>,
    ended: bool,
    lines: nat,
)
    requires
        lines > 0,
        opens_with_ssh(kept),
        kept.last() != 0x0d,
        forall|i: int| 0 <= i < kept.len() ==> kept[i] != 0x0a,
        ending.len() > 0 && ending.last() == 0x0a,
        forall|i: int| 0 <= i < ending.len() - 1 ==> ending[i] == 0x0d,
    ensures
        identification(kept + ending + rest, ended, lines) == match text_of(kept) {
            Some(text) => Banner::Found { text, taken: kept.len() + ending.len() },
            None => Banner::NotUtf8,
        },
{
    let line = kept + ending;
    let s = line + rest;
    assert forall|i: int| 0 <= i < line.len() - 1 implies s[i] != 0x0a by {
        if i >= kept.len() {
            assert(s[i] == ending[i - kept.len()]);
        }
    }
    lemma_line_end(s, line.len());
    assert(s.take(line.len() as int) =~= line);
    law_a_line_is_trimmed_at_its_end(kept, ending);
    assert(kept.take(4)[0] == kept[0] && kept.take(4)[1] == kept[1] && kept.take(4)[2] == kept[2]
        && kept.take(4)[3] == kept[3]);
}

/// Nothing is told of a line that has not ended while more may come; where nothing more comes, or
/// the lines are used up, there is no identification.
pub proof fn law_nothing_is_told_of_half_a_line(s: Seq<u8>, ended: bool, lines: nat)
    requires
        forall|i: int| 0 <= i < s.len() ==> s[i] != 0x0a,
    ensures
        identification(s, ended, 0) is Absent,
        !ended && lines > 0 ==> identification(s, ended, lines) is More,
        ended && s.len() == 0 ==> identification(s, ended, lines) is Absent,
{
    lemma_line_length(s);
}

/// Where nothing more comes, what is left without a line feed is a line too: the identification,
/// where it opens with `SSH-`, without the carriage returns at its end, all of its bytes taken; and
/// where it does not, there is none.
pub proof fn law_the_last_line_needs_no_end(kept: Seq<u8>, ending: Seq<u8>, lines: nat)
    requires
        lines > 0,
        kept.len() > 0 && kept.last() != 0x0d,
        forall|i: int| 0 <= i < kept.len() ==> kept[i] != 0x0a,
        forall|i: int| 0 <= i < ending.len() ==> ending[i] == 0x0d,
    ensures
        identification(kept + ending, true, lines) == if opens_with_ssh(kept) {
            match text_of(kept) {
                Some(text) => Banner::Found { text, taken: kept.len() + ending.len() },
                None => Banner::NotUtf8,
            }
        } else {
            Banner::Absent
        },
{
    let s = kept + ending;
    lemma_line_length(s);
    assert(!line_ends(s)) by {
        if line_ends(s) {
            let at = line_length(s) - 1;
            if at >= kept.len() {
                assert(s[at] == ending[at - kept.len()]);
            }
        }
    }
    assert(s.take(s.len() as int) =~= s);
    law_a_line_is_trimmed_at_its_end(kept, ending);
    assert(s.skip(s.len() as int) =~= Seq::<u8>::empty());
    law_nothing_is_told_of_half_a_line(Seq::empty(), true, (lines - 1) as nat);
    if identifies(kept) {
        assert(kept.take(4) =~= seq![0x53u8, 0x53u8, 0x48u8, 0x2du8]);
    }
    if opens_with_ssh(kept) {
        assert(kept.take(4)[0] == kept[0] && kept.take(4)[1] == kept[1] && kept.take(4)[2]
            == kept[2] && kept.take(4)[3] == kept[3]);
    }
}

} // verus!
