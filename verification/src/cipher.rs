//! What seals a binary packet on the way out and opens it on the way in: nothing, before the
//! keys are exchanged, and one negotiated suite after.
//!
//! The one suite is `aes256-ctr` for confidentiality with `hmac-sha2-256` for integrity
//! (RFC 4253 section 6.3, RFC 6668): the packet is encrypted with AES-256 in counter mode, and
//! a SHA-256 HMAC over the sequence number and the cleartext packet rides after it. The keys
//! and initialisation vectors come from the shared secret and the exchange hash through the
//! key derivation of RFC 4253 section 7.2.
//!
//! A packet is opened off a buffer of received bytes: where the buffer does not hold the whole
//! packet yet, nothing is taken from it, and more bytes have to arrive first.

use vstd::prelude::*;
use vstd::slice::slice_to_vec;

use crate::crypto::{
    aes256_ctr, apply_keystream, authentic, authenticate, digest, draw, hmac_sha256, sha256,
};
use crate::error::Error;
use crate::packet::MAX_PACKET;
use crate::wire::{be32, from_be32, joined, length32, read_be32, Writer};

verus! {

/// How many bytes of padding follow a payload of `len` bytes: enough to fill the last block,
/// and at least four.
pub open spec fn padding_size(len: nat, block: nat) -> nat {
    let fill = (block - (5 + len) % block) as nat;
    if fill < 4 {
        fill + block
    } else {
        fill
    }
}

/// A binary packet: the length of what follows, the padding's length, the payload, the padding.
pub open spec fn packet(payload: Seq<u8>, padding: Seq<u8>) -> Seq<u8> {
    be32(length32(1 + payload.len() + padding.len())) + seq![length8(padding.len())] + payload
        + padding
}

/// A length as one byte holds it: itself, or the largest there is.
pub open spec fn length8(n: nat) -> u8 {
    if n <= u8::MAX {
        n as u8
    } else {
        u8::MAX
    }
}

/// The payload of a packet whose length field is already off.
pub open spec fn unframed(packet: Seq<u8>) -> Result<Seq<u8>, Error> {
    if packet.len() == 0 {
        Err(Error::NoPaddingLength)
    } else if packet.len() < 1 + packet[0] {
        Err(Error::PaddingTooLong)
    } else {
        Ok(packet.subrange(1, packet.len() - packet[0]))
    }
}

/// Whether a packet of this length is carried.
pub open spec fn carried(packet_length: nat) -> bool {
    12 <= packet_length <= MAX_PACKET
}

/// What came of opening the packet that a buffer begins with.
pub ghost enum Opening {
    /// The buffer does not hold the whole packet yet.
    More,
    /// The packet was refused, after so many bytes of the buffer.
    Refused { error: Error, taken: nat },
    /// The packet's payload, and how many bytes of the buffer it took.
    Payload { payload: Seq<u8>, taken: nat },
}

/// What is told of a packet by its bytes after the length field.
pub open spec fn opened(packet: Seq<u8>, taken: nat) -> Opening {
    match unframed(packet) {
        Ok(payload) => Opening::Payload { payload, taken },
        Err(error) => Opening::Refused { error, taken },
    }
}

/// The packet that `input` begins with, in the clear.
pub open spec fn open_plain(input: Seq<u8>) -> Opening {
    let n = from_be32(input.take(4)) as nat;
    if input.len() < 4 {
        Opening::More
    } else if !carried(n) {
        Opening::Refused { error: Error::PacketLength(n as usize), taken: 4 }
    } else if input.len() < 4 + n {
        Opening::More
    } else {
        opened(input.subrange(4, 4 + n as int), 4 + n)
    }
}

/// One direction's keys, and how many bytes of keystream it has used.
pub ghost struct Keys {
    pub key: Seq<u8>,
    pub iv: Seq<u8>,
    pub integrity: Seq<u8>,
    pub position: nat,
}

impl Keys {
    /// `data` under the keystream from the current position on. Applied twice, it is `data`.
    pub open spec fn crypt(self, data: Seq<u8>) -> Seq<u8> {
        Seq::new(
            data.len(),
            |i: int| data[i] ^ aes256_ctr(self.key, self.iv, (self.position + i) as nat),
        )
    }

    /// The authentication code over the sequence number and the cleartext packet.
    pub open spec fn tag(self, seq: u32, packet: Seq<u8>) -> Seq<u8> {
        hmac_sha256(self.integrity, be32(seq) + packet)@
    }

    /// `count` bytes further along the keystream.
    pub open spec fn after(self, count: nat) -> Keys {
        Keys { position: self.position + count, ..self }
    }

    /// Whether the position can still be counted on past a packet of `count` bytes.
    pub open spec fn room(self, count: nat) -> bool {
        self.position + count <= u128::MAX
    }

    /// A packet as it goes out: encrypted, its authentication code behind it.
    pub open spec fn sealed(self, seq: u32, packet: Seq<u8>) -> Seq<u8> {
        self.crypt(packet) + self.tag(seq, packet)
    }

    /// The packet that `input` begins with.
    pub open spec fn open(self, seq: u32, input: Seq<u8>) -> Opening {
        let n = from_be32(self.crypt(input.take(16)).take(4)) as nat;
        if !self.room(MAX_PACKET as nat + 4) {
            Opening::Refused { error: Error::KeystreamSpent, taken: 0 }
        } else if input.len() < 16 {
            Opening::More
        } else if !carried(n) {
            Opening::Refused { error: Error::PacketLength(n as usize), taken: 16 }
        } else if input.len() < 4 + n + 32 {
            Opening::More
        } else {
            let packet = self.crypt(input.take(4 + n as int));
            if input.subrange(4 + n as int, 36 + n as int) != self.tag(seq, packet) {
                Opening::Refused { error: Error::MacMismatch, taken: 4 + n + 32 }
            } else {
                opened(packet.skip(4), 4 + n + 32)
            }
        }
    }

    /// How far along the keystream a direction stands after an opening.
    pub open spec fn after_open(self, seq: u32, input: Seq<u8>) -> Keys {
        match self.open(seq, input) {
            Opening::More => self,
            Opening::Refused { taken, .. } => if taken <= 16 {
                self.after(taken)
            } else {
                self.after((taken - 32) as nat)
            },
            Opening::Payload { taken, .. } => self.after((taken - 32) as nat),
        }
    }
}

/// One direction's sealing and opening, as its keys alone determine it.
pub ghost enum Sealing {
    Plain,
    Suite(Keys),
}

impl Sealing {
    /// The block that a packet is padded to.
    pub open spec fn block(self) -> nat {
        match self {
            Sealing::Plain => 8,
            Sealing::Suite(_) => 16,
        }
    }

    /// Whether a packet of `count` bytes can still go out.
    pub open spec fn room(self, count: nat) -> bool {
        match self {
            Sealing::Plain => true,
            Sealing::Suite(keys) => keys.room(count),
        }
    }

    /// `payload` as it goes out, padded with `padding`.
    pub open spec fn sealed(self, seq: u32, payload: Seq<u8>, padding: Seq<u8>) -> Seq<u8> {
        match self {
            Sealing::Plain => packet(payload, padding),
            Sealing::Suite(keys) => keys.sealed(seq, packet(payload, padding)),
        }
    }

    /// Where the direction stands after a packet of `count` bytes.
    pub open spec fn after(self, count: nat) -> Sealing {
        match self {
            Sealing::Plain => self,
            Sealing::Suite(keys) => Sealing::Suite(keys.after(count)),
        }
    }

    /// The packet that `input` begins with.
    pub open spec fn open(self, seq: u32, input: Seq<u8>) -> Opening {
        match self {
            Sealing::Plain => open_plain(input),
            Sealing::Suite(keys) => keys.open(seq, input),
        }
    }

    /// Where the direction stands after an opening.
    pub open spec fn after_open(self, seq: u32, input: Seq<u8>) -> Sealing {
        match self {
            Sealing::Plain => self,
            Sealing::Suite(keys) => Sealing::Suite(keys.after_open(seq, input)),
        }
    }
}

/// The negotiated suite: AES-256 counter mode and a SHA-256 HMAC.
pub struct AesCtrHmac {
    key: [u8; 32],
    iv: [u8; 16],
    integrity: Vec<u8>,
    position: u128,
}

impl View for AesCtrHmac {
    type V = Keys;

    closed spec fn view(&self) -> Keys {
        Keys {
            key: self.key@,
            iv: self.iv@,
            integrity: self.integrity@,
            position: self.position as nat,
        }
    }
}

/// One direction's sealing and opening.
pub enum Cipher {
    /// The cleartext framing used until the keys are exchanged: block size eight, no integrity
    /// code.
    Plain,
    /// The negotiated suite.
    Suite(AesCtrHmac),
}

impl View for Cipher {
    type V = Sealing;

    open spec fn view(&self) -> Sealing {
        match self {
            Cipher::Plain => Sealing::Plain,
            Cipher::Suite(suite) => Sealing::Suite(suite@),
        }
    }
}

/// The cleartext cipher.
pub fn plain() -> (cipher: Cipher)
    ensures
        cipher@ == Sealing::Plain,
{
    Cipher::Plain
}

/// Whether `taken` bytes came off the front of a buffer.
pub open spec fn dropped(before: Seq<u8>, after: Seq<u8>, taken: nat) -> bool {
    taken <= before.len() && after == before.skip(taken as int)
}

/// What an opening reports, and what it leaves in the buffer.
pub open spec fn reports(
    opening: Opening,
    outcome: Result<Option<Vec<u8>>, Error>,
    before: Seq<u8>,
    after: Seq<u8>,
) -> bool {
    match opening {
        Opening::More => outcome == Ok::<Option<Vec<u8>>, Error>(None) && after == before,
        Opening::Refused { error, taken } => outcome == Err::<Option<Vec<u8>>, Error>(error)
            && dropped(before, after, taken),
        Opening::Payload { payload, taken } => outcome is Ok && outcome->Ok_0 is Some
            && outcome->Ok_0->0@ == payload && dropped(before, after, taken),
    }
}

impl Cipher {
    /// Wrap `payload` as a binary packet for sequence number `seq`, padded with fresh
    /// randomness.
    pub fn seal(&mut self, seq: u32, payload: &[u8]) -> (wire: Result<Vec<u8>, Error>)
        ensures
            match wire {
                Ok(bytes) => exists|padding: Seq<u8>|
                    {
                        &&& padding.len() == padding_size(payload@.len(), old(self)@.block())
                        &&& old(self)@.room(packet(payload@, padding).len())
                        &&& bytes@ == #[trigger] old(self)@.sealed(seq, payload@, padding)
                        &&& final(self)@ == old(self)@.after(packet(payload@, padding).len())
                    },
                Err(error) => {
                    &&& error == Error::NoPadding || error == Error::KeystreamSpent && !old(
                        self,
                    )@.room(
                        5 + payload@.len() + padding_size(payload@.len(), old(self)@.block()),
                    )
                    &&& final(self)@ == old(self)@
                },
            },
    {
        let padding = self.padding_for(payload.len())?;
        assert(packet(payload@, padding@).len() == 5 + payload@.len() + padding@.len());
        self.seal_with(seq, payload, &padding)
    }

    /// Fresh randomness to pad a payload of `len` bytes with.
    pub(crate) fn padding_for(&self, len: usize) -> (padding: Result<Vec<u8>, Error>)
        ensures
            match padding {
                Ok(bytes) => bytes@.len() == padding_size(len as nat, self@.block()),
                Err(error) => error == Error::NoPadding,
            },
    {
        let block: usize = match self {
            Cipher::Plain => 8,
            Cipher::Suite(_) => 16,
        };
        draw_padding(len, block)
    }

    /// Wrap `payload` as a binary packet for sequence number `seq`, padded with `padding`.
    pub fn seal_with(&mut self, seq: u32, payload: &[u8], padding: &[u8]) -> (wire: Result<
        Vec<u8>,
        Error,
    >)
        ensures
            match wire {
                Ok(bytes) => {
                    &&& old(self)@.room(packet(payload@, padding@).len())
                    &&& bytes@ == old(self)@.sealed(seq, payload@, padding@)
                    &&& final(self)@ == old(self)@.after(packet(payload@, padding@).len())
                },
                Err(error) => {
                    &&& error == Error::KeystreamSpent
                    &&& !old(self)@.room(packet(payload@, padding@).len())
                    &&& final(self)@ == old(self)@
                },
            },
    {
        let framed = pad(payload, padding);
        match self {
            Cipher::Plain => Ok(framed),
            Cipher::Suite(suite) => suite.seal(seq, &framed),
        }
    }

    /// Take one binary packet for sequence number `seq` off the front of `reader`, where it is
    /// there whole.
    pub fn open(&mut self, seq: u32, reader: &mut Vec<u8>) -> (payload: Result<
        Option<Vec<u8>>,
        Error,
    >)
        ensures
            reports(old(self)@.open(seq, old(reader)@), payload, old(reader)@, final(reader)@),
            final(self)@ == old(self)@.after_open(seq, old(reader)@),
    {
        match self {
            Cipher::Plain => open_clear(reader),
            Cipher::Suite(suite) => suite.open(seq, reader),
        }
    }
}

fn open_clear(reader: &mut Vec<u8>) -> (payload: Result<Option<Vec<u8>>, Error>)
    ensures
        reports(open_plain(old(reader)@), payload, old(reader)@, final(reader)@),
{
    if reader.len() < 4 {
        return Ok(None);
    }
    let packet_length: usize = read_be32(&reader[0..4]) as usize;
    assert(reader@.subrange(0, 4) =~= reader@.take(4));
    match check_length(packet_length) {
        Ok(()) => (),
        Err(error) => {
            take(reader, 4);
            return Err(error);
        },
    }
    if reader.len() < 4 + packet_length {
        return Ok(None);
    }
    let packet = take(reader, 4 + packet_length);
    let body = &packet[4..packet.len()];
    assert(body@ =~= old(reader)@.subrange(4, 4 + packet_length as int));
    match unframe(body) {
        Ok(payload) => Ok(Some(payload)),
        Err(error) => Err(error),
    }
}

/// Take `count` bytes off the front of `buffer`.
pub(crate) fn take(buffer: &mut Vec<u8>, count: usize) -> (taken: Vec<u8>)
    requires
        count <= old(buffer)@.len(),
    ensures
        taken@ == old(buffer)@.take(count as int),
        final(buffer)@ == old(buffer)@.skip(count as int),
{
    let rest = buffer.split_off(count);
    let taken = slice_to_vec(buffer.as_slice());
    *buffer = rest;
    taken
}

impl AesCtrHmac {
    /// The suite under `key` and `iv`, at the start of its keystream.
    pub fn new(key: &[u8], iv: &[u8], integrity: Vec<u8>) -> (made: Result<Self, Error>)
        ensures
            match made {
                Ok(suite) => {
                    &&& key@.len() == 32
                    &&& iv@.len() == 16
                    &&& suite@ == (Keys {
                        key: key@,
                        iv: iv@,
                        integrity: integrity@,
                        position: 0,
                    })
                },
                Err(error) => error == Error::AesKeySize && !(key@.len() == 32 && iv@.len() == 16),
            },
    {
        match (array::<32>(key), array::<16>(iv)) {
            (Some(key), Some(iv)) => Ok(AesCtrHmac { key, iv, integrity, position: 0 }),
            _ => Err(Error::AesKeySize),
        }
    }

    /// The authentication code over the sequence number and the packet.
    pub fn mac(&self, seq: u32, packet: &[u8]) -> (tag: [u8; 32])
        ensures
            tag@ == self@.tag(seq, packet@),
    {
        let data = numbered(seq, packet);
        authenticate(&self.integrity, &data)
    }

    /// Encrypt `packet` and put its authentication code behind it.
    pub fn seal(&mut self, seq: u32, packet: &[u8]) -> (wire: Result<Vec<u8>, Error>)
        ensures
            match wire {
                Ok(bytes) => {
                    &&& old(self)@.room(packet@.len())
                    &&& bytes@ == old(self)@.sealed(seq, packet@)
                    &&& final(self)@ == old(self)@.after(packet@.len())
                },
                Err(error) => {
                    &&& error == Error::KeystreamSpent
                    &&& !old(self)@.room(packet@.len())
                    &&& final(self)@ == old(self)@
                },
            },
    {
        let next = match self.position.checked_add(packet.len() as u128) {
            Some(next) => next,
            None => return Err(Error::KeystreamSpent),
        };
        let tag = self.mac(seq, packet);
        let mut wire = apply_keystream(&self.key, &self.iv, self.position, packet);
        assert(wire@ =~= self@.crypt(packet@));
        wire.extend_from_slice(&tag);
        self.position = next;
        Ok(wire)
    }

    /// Take one packet off the front of `reader`, where it is there whole and its
    /// authentication code agrees.
    pub fn open(&mut self, seq: u32, reader: &mut Vec<u8>) -> (payload: Result<
        Option<Vec<u8>>,
        Error,
    >)
        ensures
            reports(old(self)@.open(seq, old(reader)@), payload, old(reader)@, final(reader)@),
            final(self)@ == old(self)@.after_open(seq, old(reader)@),
    {
        if self.position > u128::MAX - (MAX_PACKET as u128 + 4) {
            assert(reader@.skip(0) =~= reader@);
            return Err(Error::KeystreamSpent);
        }
        if reader.len() < 16 {
            return Ok(None);
        }
        let first = apply_keystream(&self.key, &self.iv, self.position, &reader[0..16]);
        assert(reader@.subrange(0, 16) =~= reader@.take(16));
        assert(first@ =~= self@.crypt(reader@.take(16)));
        let packet_length: usize = read_be32(&first[0..4]) as usize;
        assert(first@.subrange(0, 4) =~= first@.take(4));
        match check_length(packet_length) {
            Ok(()) => (),
            Err(error) => {
                take(reader, 16);
                self.position = self.position + 16;
                return Err(error);
            },
        }
        let end: usize = 4 + packet_length;
        if reader.len() < end + 32 {
            return Ok(None);
        }
        let wire = take(reader, end + 32);
        let packet = apply_keystream(&self.key, &self.iv, self.position, &wire[0..end]);
        assert(wire@.subrange(0, end as int) =~= old(reader)@.take(end as int));
        assert(packet@ =~= self@.crypt(old(reader)@.take(end as int)));
        let tag = &wire[end..end + 32];
        assert(tag@ =~= old(reader)@.subrange(end as int, end + 32));
        let data = numbered(seq, &packet);
        let agrees = authentic(&self.integrity, &data, tag);
        self.position = self.position + end as u128;
        if !agrees {
            return Err(Error::MacMismatch);
        }
        let body = &packet[4..packet.len()];
        assert(body@ =~= packet@.skip(4));
        match unframe(body) {
            Ok(payload) => Ok(Some(payload)),
            Err(error) => Err(error),
        }
    }
}

/// The sequence number and the packet behind it, which the authentication code covers.
fn numbered(seq: u32, packet: &[u8]) -> (data: Vec<u8>)
    ensures
        data@ == be32(seq) + packet@,
{
    let mut writer = Writer::new();
    writer.u32(seq);
    let mut data = writer.finish();
    data.extend_from_slice(packet);
    assert(data@ =~= be32(seq) + packet@);
    data
}

/// `bytes` as an array of `N` of them, where there are so many.
pub(crate) fn array<const N: usize>(bytes: &[u8]) -> (array: Option<[u8; N]>)
    ensures
        array is Some <==> bytes@.len() == N,
        array matches Some(made) ==> made@ == bytes@,
{
    if bytes.len() != N {
        return None;
    }
    let mut made: [u8; N] = [0u8; N];
    let mut i: usize = 0;
    while i < N
        invariant
            i <= N,
            bytes@.len() == N,
            forall|j: int| 0 <= j < i ==> made@[j] == bytes@[j],
        decreases N - i,
    {
        made[i] = bytes[i];
        i += 1;
    }
    assert(made@ =~= bytes@);
    Some(made)
}

/// The letters of RFC 4253 section 7.2: the initialisation vector's, the encryption key's and
/// the integrity key's, of one direction.
pub open spec fn letters(client_to_server: bool) -> (u8, u8, u8) {
    if client_to_server {
        (0x41, 0x43, 0x45)
    } else {
        (0x42, 0x44, 0x46)
    }
}

/// The keys of one direction, at the start of its keystream.
pub open spec fn suite_keys(
    k: Seq<u8>,
    h: Seq<u8>,
    session_id: Seq<u8>,
    client_to_server: bool,
) -> Keys {
    let (iv, key, mac) = letters(client_to_server);
    Keys {
        key: key_material(k, h, key, session_id, 32),
        iv: key_material(k, h, iv, session_id, 16),
        integrity: key_material(k, h, mac, session_id, 32),
        position: 0,
    }
}

/// One direction of the negotiated suite, keyed from the shared secret `k` (already
/// `mpint`-encoded), the exchange hash `h` and the session identifier.
///
/// The letters are RFC 4253 section 7.2: A and B are the initialisation vectors, C and D the
/// encryption keys, E and F the integrity keys, client-to-server first.
pub fn suite(k: &[u8], h: &[u8], session_id: &[u8], client_to_server: bool) -> (cipher: Result<
    Cipher,
    Error,
>)
    ensures
        cipher is Ok,
        cipher->Ok_0@ == Sealing::Suite(suite_keys(k@, h@, session_id@, client_to_server)),
{
    let (iv_letter, key_letter, mac_letter): (u8, u8, u8) = if client_to_server {
        (0x41, 0x43, 0x45)
    } else {
        (0x42, 0x44, 0x46)
    };
    let iv = derive(k, h, iv_letter, session_id, 16);
    let key = derive(k, h, key_letter, session_id, 32);
    let integrity = derive(k, h, mac_letter, session_id, 32);
    match AesCtrHmac::new(&key, &iv, integrity) {
        Ok(suite) => Ok(Cipher::Suite(suite)),
        Err(error) => Err(error),
    }
}

/// `count` hashes of key material for `letter`: the first over the secret, the exchange hash,
/// the letter and the session identifier, each further one over the secret, the exchange hash
/// and all that came before.
pub open spec fn key_hashes(
    k: Seq<u8>,
    h: Seq<u8>,
    letter: u8,
    session_id: Seq<u8>,
    count: nat,
) -> Seq<u8>
    decreases count,
{
    if count <= 1 {
        sha256(k + h + seq![letter] + session_id)@
    } else {
        let before = key_hashes(k, h, letter, session_id, (count - 1) as nat);
        before + sha256(k + h + before)@
    }
}

/// How many hashes it takes for `need` bytes: at least one.
pub open spec fn hashes_for(need: nat) -> nat {
    if need <= 32 {
        1
    } else {
        (need + 31) / 32
    }
}

/// Key material of `need` bytes for `letter`.
pub open spec fn key_material(
    k: Seq<u8>,
    h: Seq<u8>,
    letter: u8,
    session_id: Seq<u8>,
    need: nat,
) -> Seq<u8> {
    key_hashes(k, h, letter, session_id, hashes_for(need)).take(need as int)
}

/// Key material of `need` bytes for `letter`, extended by hashing again as RFC 4253 section 7.2
/// sets out where one hash is not enough.
pub fn derive(k: &[u8], h: &[u8], letter: u8, session_id: &[u8], need: usize) -> (out: Vec<u8>)
    ensures
        out@ == key_material(k@, h@, letter, session_id@, need as nat),
        out@.len() == need,
{
    let mut data = slice_to_vec(k);
    data.extend_from_slice(h);
    data.push(letter);
    data.extend_from_slice(session_id);
    assert(data@ =~= k@ + h@ + seq![letter] + session_id@);
    let mut out = slice_to_vec(&digest(&data));
    let ghost mut count: nat = 1;
    while out.len() < need
        invariant
            count >= 1,
            out@ == key_hashes(k@, h@, letter, session_id@, count),
            out@.len() == 32 * count,
            32 * (count - 1) < need || count == 1,
        decreases need + 32 - out@.len(),
    {
        let mut more = slice_to_vec(k);
        more.extend_from_slice(h);
        more.extend_from_slice(&out);
        assert(more@ =~= k@ + h@ + out@);
        out.extend_from_slice(&digest(&more));
        proof {
            count = count + 1;
        }
    }
    assert(count == hashes_for(need as nat));
    out.truncate(need);
    out
}

/// How many bytes of padding follow a payload of `len` bytes.
pub fn padding_length(len: usize, block: usize) -> (count: usize)
    requires
        0 < block <= usize::MAX - 3,
    ensures
        count == padding_size(len as nat, block as nat),
{
    let base: u128 = 5 + len as u128;
    let fill: usize = block - (base % (block as u128)) as usize;
    if fill < 4 {
        fill + block
    } else {
        fill
    }
}

fn draw_padding(len: usize, block: usize) -> (padding: Result<Vec<u8>, Error>)
    requires
        0 < block <= usize::MAX - 3,
    ensures
        match padding {
            Ok(bytes) => bytes@.len() == padding_size(len as nat, block as nat),
            Err(error) => error == Error::NoPadding,
        },
{
    match draw(padding_length(len, block)) {
        Some(bytes) => Ok(bytes),
        None => Err(Error::NoPadding),
    }
}

/// Wrap `payload` as `length | padding_length | payload | padding`, padded to a multiple of
/// `block` with at least four bytes of fresh padding (RFC 4253 section 6).
pub fn frame(payload: &[u8], block: usize) -> (framed: Result<Vec<u8>, Error>)
    requires
        0 < block <= usize::MAX - 3,
    ensures
        match framed {
            Ok(bytes) => exists|padding: Seq<u8>|
                {
                    &&& padding.len() == padding_size(payload@.len(), block as nat)
                    &&& bytes@ == #[trigger] packet(payload@, padding)
                },
            Err(error) => error == Error::NoPadding,
        },
{
    let padding = draw_padding(payload.len(), block)?;
    Ok(pad(payload, &padding))
}

/// Wrap `payload` with `padding` behind it.
pub fn pad(payload: &[u8], padding: &[u8]) -> (framed: Vec<u8>)
    ensures
        framed@ == packet(payload@, padding@),
{
    let total: u128 = 1 + payload.len() as u128 + padding.len() as u128;
    let field: u32 = if total <= 0xffff_ffff {
        total as u32
    } else {
        0xffff_ffff
    };
    let count: u8 = if padding.len() <= 255 {
        padding.len() as u8
    } else {
        255
    };
    let mut writer = Writer::new();
    writer.u32(field).byte(count);
    let mut framed = writer.finish();
    framed.extend_from_slice(payload);
    framed.extend_from_slice(padding);
    assert(framed@ =~= packet(payload@, padding@));
    framed
}

/// The payload inside `packet`, which is `padding_length | payload | padding`, the length field
/// already off.
pub fn unframe(packet: &[u8]) -> (payload: Result<Vec<u8>, Error>)
    ensures
        match unframed(packet@) {
            Ok(bytes) => payload is Ok && payload->Ok_0@ == bytes,
            Err(error) => payload == Err::<Vec<u8>, Error>(error),
        },
{
    if packet.len() == 0 {
        return Err(Error::NoPaddingLength);
    }
    let padding: usize = packet[0] as usize;
    if packet.len() <= padding {
        return Err(Error::PaddingTooLong);
    }
    let end: usize = packet.len() - padding;
    Ok(slice_to_vec(&packet[1..end]))
}

/// Whether a packet of this length is carried: a bad length cannot ask for a gigabyte.
pub fn check_length(packet_length: usize) -> (outcome: Result<(), Error>)
    ensures
        outcome == if carried(packet_length as nat) {
            Ok::<(), Error>(())
        } else {
            Err::<(), Error>(Error::PacketLength(packet_length))
        },
{
    if 12 <= packet_length && packet_length <= MAX_PACKET {
        Ok(())
    } else {
        Err(Error::PacketLength(packet_length))
    }
}

/// A framed payload fills whole blocks, with at least four bytes of padding and fewer than four
/// bytes more than a block.
pub proof fn law_frame_fills_blocks(payload: Seq<u8>, padding: Seq<u8>, block: nat)
    requires
        block >= 4,
        padding.len() == padding_size(payload.len(), block),
    ensures
        packet(payload, padding).len() % block == 0,
        4 <= padding.len() < block + 4,
{
    let base = 5 + payload.len();
    let q = base / block;
    let r = base % block;
    let fill = (block - r) as nat;
    assert(packet(payload, padding).len() == base + padding.len());
    vstd::arithmetic::div_mod::lemma_fundamental_div_mod(base as int, block as int);
    vstd::arithmetic::div_mod::lemma_mod_bound(base as int, block as int);
    assert(base + fill == (q + 1) * block) by (nonlinear_arith)
        requires
            base == block * q + r,
            fill == block - r,
    ;
    assert(base + fill + block == (q + 2) * block) by (nonlinear_arith)
        requires
            base + fill == (q + 1) * block,
    ;
    vstd::arithmetic::div_mod::lemma_mod_multiples_basic((q + 1) as int, block as int);
    vstd::arithmetic::div_mod::lemma_mod_multiples_basic((q + 2) as int, block as int);
}

/// The length field of a packet reads back.
proof fn lemma_packet_length(payload: Seq<u8>, padding: Seq<u8>)
    requires
        carried(1 + payload.len() + padding.len()),
    ensures
        from_be32(packet(payload, padding).take(4)) == 1 + payload.len() + padding.len(),
        packet(payload, padding).len() == 5 + payload.len() + padding.len(),
{
    let n = 1 + payload.len() + padding.len();
    let rest = seq![length8(padding.len())] + payload + padding;
    crate::wire::law_u32_reads_back(n as u32, rest);
    assert(packet(payload, padding) =~= be32(n as u32) + rest);
}

/// A framed payload comes back out of its frame.
pub proof fn law_unframe_undoes_frame(payload: Seq<u8>, padding: Seq<u8>)
    requires
        padding.len() <= u8::MAX,
    ensures
        unframed(packet(payload, padding).skip(4)) == Ok::<Seq<u8>, Error>(payload),
{
    let body = packet(payload, padding).skip(4);
    assert(body =~= seq![padding.len() as u8] + payload + padding);
    assert(body.subrange(1, body.len() - padding.len()) =~= payload);
}

/// The keystream applied twice leaves the bytes as they were, and it covers every part of them
/// alike.
proof fn lemma_crypt(keys: Keys, data: Seq<u8>, n: int)
    requires
        0 <= n <= data.len(),
    ensures
        keys.crypt(keys.crypt(data)) == data,
        keys.crypt(data).take(n) == keys.crypt(data.take(n)),
{
    assert forall|i: int| 0 <= i < data.len() implies keys.crypt(keys.crypt(data))[i]
        == data[i] by {
        let x = data[i];
        let k = aes256_ctr(keys.key, keys.iv, (keys.position + i) as nat);
        assert((x ^ k) ^ k == x) by (bit_vector);
    }
    assert(keys.crypt(keys.crypt(data)) =~= data);
    assert(keys.crypt(data).take(n) =~= keys.crypt(data.take(n)));
}

/// What the head of a sealed packet tells.
proof fn lemma_sealed_head(keys: Keys, seq: u32, framed: Seq<u8>, rest: Seq<u8>)
    requires
        framed.len() >= 16,
    ensures
        keys.crypt((keys.sealed(seq, framed) + rest).take(16)) == framed.take(16),
        keys.crypt((keys.sealed(seq, framed) + rest).take(16)).take(4) == framed.take(4),
{
    let wire = keys.sealed(seq, framed) + rest;
    assert(wire.take(16) =~= keys.crypt(framed).take(16));
    lemma_crypt(keys, framed, 16);
    lemma_crypt(keys, framed.take(16), 0);
    assert(framed.take(16).take(4) =~= framed.take(4));
}

/// A payload that is sealed and then opened under the same keys, keystream position and
/// sequence number comes back as it was, whatever follows it on the line; and the two ends stand
/// at the same place of the keystream afterwards.
pub proof fn law_open_undoes_seal(
    sealing: Sealing,
    seq: u32,
    payload: Seq<u8>,
    padding: Seq<u8>,
    rest: Seq<u8>,
)
    requires
        padding.len() == padding_size(payload.len(), sealing.block()),
        carried(1 + payload.len() + padding.len()),
        sealing.room(MAX_PACKET as nat + 4),
    ensures
        sealing.open(seq, sealing.sealed(seq, payload, padding) + rest) == (Opening::Payload {
            payload,
            taken: sealing.sealed(seq, payload, padding).len(),
        }),
        sealing.after_open(seq, sealing.sealed(seq, payload, padding) + rest) == sealing.after(
            packet(payload, padding).len(),
        ),
{
    let framed = packet(payload, padding);
    let n = 1 + payload.len() + padding.len();
    let wire = sealing.sealed(seq, payload, padding);
    let input = wire + rest;
    law_frame_fills_blocks(payload, padding, sealing.block());
    law_unframe_undoes_frame(payload, padding);
    lemma_packet_length(payload, padding);
    match sealing {
        Sealing::Plain => {
            assert(input.take(4) =~= framed.take(4));
            assert(input.subrange(4, 4 + n as int) =~= framed.skip(4));
        },
        Sealing::Suite(keys) => {
            lemma_sealed_head(keys, seq, framed, rest);
            assert(input.take(4 + n as int) =~= keys.crypt(framed));
            lemma_crypt(keys, framed, 0);
            assert(input.subrange(4 + n as int, 36 + n as int) =~= keys.tag(seq, framed));
        },
    }
}

/// A sealed packet that has arrived only in part is waited for: no cut of it is refused, and
/// none is taken for a whole packet.
pub proof fn law_a_cut_packet_is_waited_for(
    sealing: Sealing,
    seq: u32,
    payload: Seq<u8>,
    padding: Seq<u8>,
    cut: nat,
)
    requires
        padding.len() == padding_size(payload.len(), sealing.block()),
        carried(1 + payload.len() + padding.len()),
        sealing.room(MAX_PACKET as nat + 4),
        cut < sealing.sealed(seq, payload, padding).len(),
    ensures
        sealing.open(seq, sealing.sealed(seq, payload, padding).take(cut as int)) == Opening::More,
        sealing.after_open(seq, sealing.sealed(seq, payload, padding).take(cut as int)) == sealing,
{
    let framed = packet(payload, padding);
    let n = 1 + payload.len() + padding.len();
    let wire = sealing.sealed(seq, payload, padding);
    let input = wire.take(cut as int);
    law_frame_fills_blocks(payload, padding, sealing.block());
    lemma_packet_length(payload, padding);
    match sealing {
        Sealing::Plain => {
            if cut >= 4 {
                assert(input.take(4) =~= framed.take(4));
            }
        },
        Sealing::Suite(keys) => {
            if cut >= 16 {
                lemma_sealed_head(keys, seq, framed, Seq::<u8>::empty());
                assert(input.take(16) =~= (wire + Seq::<u8>::empty()).take(16));
            }
        },
    }
}

/// A packet sealed under one sequence number opens under another only where the authentication
/// code does not tell the two numbers apart.
pub proof fn law_a_packet_opens_under_its_own_number(
    keys: Keys,
    seq: u32,
    other: u32,
    payload: Seq<u8>,
    padding: Seq<u8>,
    rest: Seq<u8>,
)
    requires
        padding.len() == padding_size(payload.len(), 16),
        carried(1 + payload.len() + padding.len()),
        keys.open(other, keys.sealed(seq, packet(payload, padding)) + rest) is Payload,
    ensures
        keys.tag(other, packet(payload, padding)) == keys.tag(seq, packet(payload, padding)),
{
    let framed = packet(payload, padding);
    let n = 1 + payload.len() + padding.len();
    let input = keys.sealed(seq, framed) + rest;
    law_frame_fills_blocks(payload, padding, 16);
    lemma_packet_length(payload, padding);
    lemma_sealed_head(keys, seq, framed, rest);
    assert(input.take(4 + n as int) =~= keys.crypt(framed));
    lemma_crypt(keys, framed, 0);
    assert(input.subrange(4 + n as int, 36 + n as int) =~= keys.tag(seq, framed));
}

/// A sealed packet whose bytes behind the length field were changed is refused, unless the code
/// behind the changed packet is that packet's own. Where the code was left as it was and the
/// packet changed, that takes two packets with one code; where the packet was left as it was and
/// the code changed, it cannot be.
pub proof fn law_a_changed_packet_is_refused(
    keys: Keys,
    seq: u32,
    payload: Seq<u8>,
    padding: Seq<u8>,
    changed: Seq<u8>,
    rest: Seq<u8>,
)
    requires
        padding.len() == padding_size(payload.len(), 16),
        carried(1 + payload.len() + padding.len()),
        keys.room(MAX_PACKET as nat + 4),
        changed.len() == keys.sealed(seq, packet(payload, padding)).len(),
        changed.take(4) == keys.sealed(seq, packet(payload, padding)).take(4),
        changed != keys.sealed(seq, packet(payload, padding)),
    ensures
        ({
            let framed = packet(payload, padding);
            let wire = keys.sealed(seq, framed);
            let size = framed.len() as int;
            let other = keys.crypt(changed.take(size));
            let refused = keys.open(seq, changed + rest) == (Opening::Refused {
                error: Error::MacMismatch,
                taken: wire.len(),
            });
            &&& refused || other != framed && changed.skip(size) == keys.tag(seq, other)
            &&& changed.skip(size) == wire.skip(size) ==> refused || other != framed && keys.tag(
                seq,
                other,
            ) == keys.tag(seq, framed)
            &&& changed.take(size) == wire.take(size) ==> refused
        }),
{
    let framed = packet(payload, padding);
    let n = 1 + payload.len() + padding.len();
    let size = framed.len() as int;
    let wire = keys.sealed(seq, framed);
    let input = changed + rest;
    let other = keys.crypt(changed.take(size));
    law_frame_fills_blocks(payload, padding, 16);
    lemma_packet_length(payload, padding);
    assert(size == 4 + n);
    assert(wire.take(size) =~= keys.crypt(framed));
    assert(wire.skip(size) =~= keys.tag(seq, framed));
    assert(keys.crypt(input.take(16)).take(4) =~= framed.take(4)) by {
        lemma_sealed_head(keys, seq, framed, rest);
        assert forall|i: int| 0 <= i < 4 implies keys.crypt(input.take(16))[i]
            == keys.crypt((wire + rest).take(16))[i] by {
            assert(changed[i] == changed.take(4)[i]);
            assert(wire[i] == wire.take(4)[i]);
        }
        assert(keys.crypt(input.take(16)).take(4) =~= keys.crypt((wire + rest).take(16)).take(4));
    }
    assert(input.take(size) =~= changed.take(size));
    assert(input.subrange(size, size + 32) =~= changed.skip(size));
    lemma_crypt(keys, framed, 0);
    lemma_crypt(keys, changed.take(size), 0);
    if other == framed {
        assert(changed.take(size) == wire.take(size));
        assert(changed =~= changed.take(size) + changed.skip(size));
        assert(wire =~= wire.take(size) + wire.skip(size));
    }
}

/// A sealed packet with one byte behind the length field changed, in any of its bits, is refused,
/// unless the authentication code takes two packets for one.
pub proof fn law_a_changed_byte_is_refused(
    keys: Keys,
    seq: u32,
    payload: Seq<u8>,
    padding: Seq<u8>,
    at: int,
    byte: u8,
    rest: Seq<u8>,
)
    requires
        padding.len() == padding_size(payload.len(), 16),
        carried(1 + payload.len() + padding.len()),
        keys.room(MAX_PACKET as nat + 4),
        4 <= at < keys.sealed(seq, packet(payload, padding)).len(),
        keys.sealed(seq, packet(payload, padding))[at] != byte,
    ensures
        ({
            let framed = packet(payload, padding);
            let changed = keys.sealed(seq, framed).update(at, byte);
            let other = keys.crypt(changed.take(framed.len() as int));
            keys.open(seq, changed + rest) == (Opening::Refused {
                error: Error::MacMismatch,
                taken: changed.len(),
            }) || at < framed.len() && other != framed && keys.tag(seq, other) == keys.tag(
                seq,
                framed,
            )
        }),
{
    let framed = packet(payload, padding);
    let size = framed.len() as int;
    let wire = keys.sealed(seq, framed);
    let changed = wire.update(at, byte);
    assert(changed[at] != wire[at]);
    assert(changed.take(4) =~= wire.take(4));
    law_a_changed_packet_is_refused(keys, seq, payload, padding, changed, rest);
    if at < size {
        assert(changed.skip(size) =~= wire.skip(size));
    } else {
        assert(changed.take(size) =~= wire.take(size));
    }
}

/// The largest payload that fits in a packet that is carried, however it is padded.
pub const MAX_PAYLOAD: usize = 262_135;

/// A payload of up to [`MAX_PAYLOAD`] bytes is carried, under either framing.
pub proof fn law_a_payload_is_carried(sealing: Sealing, payload: Seq<u8>, padding: Seq<u8>)
    requires
        payload.len() <= MAX_PAYLOAD,
        padding.len() == padding_size(payload.len(), sealing.block()),
    ensures
        carried(1 + payload.len() + padding.len()),
{
    law_frame_fills_blocks(payload, padding, sealing.block());
    assert(packet(payload, padding).len() == 5 + payload.len() + padding.len());
}

/// A payload that goes out under the sequence number `seq`, and what it is padded with.
pub ghost struct Outgoing {
    pub seq: u32,
    pub payload: Seq<u8>,
    pub padding: Seq<u8>,
}

impl Outgoing {
    /// Whether the payload is padded as it has to be, and not too long to be carried.
    pub open spec fn fits(self, sealing: Sealing) -> bool {
        &&& self.padding.len() == padding_size(self.payload.len(), sealing.block())
        &&& self.payload.len() <= MAX_PAYLOAD
    }

    /// Where the direction stands after the packet.
    pub open spec fn after(self, sealing: Sealing) -> Sealing {
        sealing.after(packet(self.payload, self.padding).len())
    }

    /// The packet as it goes out.
    pub open spec fn sealed(self, sealing: Sealing) -> Seq<u8> {
        sealing.sealed(self.seq, self.payload, self.padding)
    }
}

/// Where a direction stands after a run of packets.
pub open spec fn after_run(sealing: Sealing, run: Seq<Outgoing>) -> Sealing
    decreases run.len(),
{
    if run.len() == 0 {
        sealing
    } else {
        after_run(run[0].after(sealing), run.skip(1))
    }
}

/// Packets as they go out one after the other.
pub open spec fn sealed_in_turn(sealing: Sealing, run: Seq<Outgoing>) -> Seq<Seq<u8>>
    decreases run.len(),
{
    if run.len() == 0 {
        Seq::empty()
    } else {
        seq![run[0].sealed(sealing)] + sealed_in_turn(run[0].after(sealing), run.skip(1))
    }
}

/// What opening packets one after the other has come to: the payloads, how many bytes each packet
/// took, where the direction stands then, and what is left of the buffer.
pub ghost struct OpenedRun {
    pub payloads: Seq<Seq<u8>>,
    pub taken: Seq<nat>,
    pub sealing: Sealing,
    pub rest: Seq<u8>,
}

/// Open packets one after the other under the sequence numbers `seqs`. Nothing where one of them
/// is not there whole, or is refused.
pub open spec fn open_in_turn(sealing: Sealing, seqs: Seq<u32>, input: Seq<u8>) -> Option<OpenedRun>
    decreases seqs.len(),
{
    if seqs.len() == 0 {
        Some(OpenedRun { payloads: Seq::empty(), taken: Seq::empty(), sealing, rest: input })
    } else {
        match sealing.open(seqs[0], input) {
            Opening::Payload { payload, taken } => match open_in_turn(
                sealing.after_open(seqs[0], input),
                seqs.skip(1),
                input.skip(taken as int),
            ) {
                Some(later) => Some(
                    OpenedRun {
                        payloads: seq![payload] + later.payloads,
                        taken: seq![taken] + later.taken,
                        ..later
                    },
                ),
                None => None,
            },
            _ => None,
        }
    }
}

/// The first of a run of packets opens, and leaves room for the others.
proof fn lemma_first_opens(sealing: Sealing, one: Outgoing, others: nat, left: Seq<u8>)
    requires
        one.fits(sealing),
        sealing.room((others + 1) * (MAX_PACKET as nat + 4)),
    ensures
        ({
            let wire = one.sealed(sealing);
            &&& sealing.open(one.seq, wire + left) == (Opening::Payload {
                payload: one.payload,
                taken: wire.len(),
            })
            &&& sealing.after_open(one.seq, wire + left) == one.after(sealing)
            &&& (wire + left).skip(wire.len() as int) == left
            &&& one.after(sealing).room(others * (MAX_PACKET as nat + 4))
            &&& one.after(sealing).block() == sealing.block()
        }),
{
    let largest = MAX_PACKET as nat + 4;
    assert((others + 1) * largest == largest + others * largest) by (nonlinear_arith);
    assert(0 <= others * largest) by (nonlinear_arith);
    law_a_payload_is_carried(sealing, one.payload, one.padding);
    law_open_undoes_seal(sealing, one.seq, one.payload, one.padding, left);
    assert(packet(one.payload, one.padding).len() <= largest);
    let wire = one.sealed(sealing);
    assert((wire + left).skip(wire.len() as int) =~= left);
}

/// Packets that are sealed one after the other open one after the other under their sequence
/// numbers: each gives its payload and takes exactly its own bytes, whatever follows the last of
/// them, and the two ends stand at the same place of the keystream afterwards.
#[verifier::rlimit(40)]
pub proof fn law_packets_open_in_turn(sealing: Sealing, run: Seq<Outgoing>, rest: Seq<u8>)
    requires
        forall|i: int| 0 <= i < run.len() ==> (#[trigger] run[i]).fits(sealing),
        sealing.room(run.len() * (MAX_PACKET as nat + 4)),
    ensures
        ({
            let wires = sealed_in_turn(sealing, run);
            let seqs = run.map_values(|one: Outgoing| one.seq);
            open_in_turn(sealing, seqs, joined(wires) + rest) == Some(
                OpenedRun {
                    payloads: run.map_values(|one: Outgoing| one.payload),
                    taken: wires.map_values(|wire: Seq<u8>| wire.len()),
                    sealing: after_run(sealing, run),
                    rest,
                },
            )
        }),
    decreases run.len(),
{
    let wires = sealed_in_turn(sealing, run);
    let seqs = run.map_values(|one: Outgoing| one.seq);
    let payloads = run.map_values(|one: Outgoing| one.payload);
    let taken = wires.map_values(|wire: Seq<u8>| wire.len());
    if run.len() == 0 {
        assert(payloads =~= Seq::<Seq<u8>>::empty());
        assert(taken =~= Seq::<nat>::empty());
        assert(joined(wires) + rest =~= rest);
    } else {
        let one = run[0];
        let wire = one.sealed(sealing);
        let next = one.after(sealing);
        let later = sealed_in_turn(next, run.skip(1));
        let left = joined(later) + rest;
        assert(one.fits(sealing));
        assert(wires.skip(1) =~= later);
        assert(joined(wires) + rest =~= wire + left);
        lemma_first_opens(sealing, one, (run.len() - 1) as nat, left);
        assert forall|i: int| 0 <= i < run.skip(1).len() implies (#[trigger] run.skip(1)[i]).fits(
            next,
        ) by {
            assert(run[i + 1].fits(sealing));
        }
        law_packets_open_in_turn(next, run.skip(1), rest);
        let later_seqs = run.skip(1).map_values(|one: Outgoing| one.seq);
        let later_payloads = run.skip(1).map_values(|one: Outgoing| one.payload);
        let later_taken = later.map_values(|wire: Seq<u8>| wire.len());
        assert(seqs.skip(1) =~= later_seqs);
        assert(payloads =~= seq![one.payload] + later_payloads);
        assert(taken =~= seq![wire.len()] + later_taken);
    }
}

proof fn lemma_key_hashes(
    k: Seq<u8>,
    h: Seq<u8>,
    letter: u8,
    session_id: Seq<u8>,
    fewer: nat,
    more: nat,
)
    requires
        1 <= fewer <= more,
    ensures
        key_hashes(k, h, letter, session_id, more).len() == 32 * more,
        key_hashes(k, h, letter, session_id, fewer).len() == 32 * fewer,
        key_hashes(k, h, letter, session_id, more).take(32 * fewer as int) == key_hashes(
            k,
            h,
            letter,
            session_id,
            fewer,
        ),
    decreases more,
{
    let all = key_hashes(k, h, letter, session_id, more);
    if fewer < more {
        lemma_key_hashes(k, h, letter, session_id, fewer, (more - 1) as nat);
        let before = key_hashes(k, h, letter, session_id, (more - 1) as nat);
        assert(all.take(32 * fewer as int) =~= before.take(32 * fewer as int));
    } else {
        if more > 1 {
            lemma_key_hashes(k, h, letter, session_id, (more - 1) as nat, (more - 1) as nat);
        }
        assert(all.take(32 * fewer as int) =~= all);
    }
}

/// Key material has the length asked for, and asking for more only adds to the end of it.
pub proof fn law_key_material_extends(
    k: Seq<u8>,
    h: Seq<u8>,
    letter: u8,
    session_id: Seq<u8>,
    need: nat,
    more: nat,
)
    requires
        need <= more,
    ensures
        key_material(k, h, letter, session_id, need).len() == need,
        key_material(k, h, letter, session_id, more).take(need as int) == key_material(
            k,
            h,
            letter,
            session_id,
            need,
        ),
{
    lemma_key_hashes(k, h, letter, session_id, hashes_for(need), hashes_for(more));
    let short = key_hashes(k, h, letter, session_id, hashes_for(need));
    let long = key_hashes(k, h, letter, session_id, hashes_for(more));
    assert(long.take(more as int).take(need as int) =~= long.take(
        32 * hashes_for(need) as int,
    ).take(need as int));
    assert(short.take(need as int) == key_material(k, h, letter, session_id, need));
}

/// The keys of the two directions (RFC 4253 section 7.2): from client to server the
/// initialisation vector is made with the letter `A`, the encryption key with `C` and the
/// integrity key with `E`; from server to client with `B`, `D` and `F`. Each is hashed from the
/// secret, the exchange hash, its letter and the session, and the keystream begins at its start.
pub proof fn law_the_letters_of_the_keys(k: Seq<u8>, h: Seq<u8>, session_id: Seq<u8>)
    ensures
        ({
            let out = suite_keys(k, h, session_id, true);
            let back = suite_keys(k, h, session_id, false);
            &&& out.iv == sha256(k + h + seq![0x41u8] + session_id)@.take(16)
            &&& out.key == sha256(k + h + seq![0x43u8] + session_id)@
            &&& out.integrity == sha256(k + h + seq![0x45u8] + session_id)@
            &&& out.position == 0
            &&& back.iv == sha256(k + h + seq![0x42u8] + session_id)@.take(16)
            &&& back.key == sha256(k + h + seq![0x44u8] + session_id)@
            &&& back.integrity == sha256(k + h + seq![0x46u8] + session_id)@
            &&& back.position == 0
        }),
{
    let out = suite_keys(k, h, session_id, true);
    let back = suite_keys(k, h, session_id, false);
    assert(out.key =~= sha256(k + h + seq![0x43u8] + session_id)@);
    assert(out.integrity =~= sha256(k + h + seq![0x45u8] + session_id)@);
    assert(back.key =~= sha256(k + h + seq![0x44u8] + session_id)@);
    assert(back.integrity =~= sha256(k + h + seq![0x46u8] + session_id)@);
}

/// Key material is hashes one behind the other: the first of the secret, the exchange hash, the
/// letter and the session, each further one of the secret, the exchange hash and all the material
/// before it; and of as many bytes as are needed.
pub proof fn law_key_material_is_hashed_on(
    k: Seq<u8>,
    h: Seq<u8>,
    letter: u8,
    session_id: Seq<u8>,
    count: nat,
    need: nat,
)
    requires
        count >= 1,
    ensures
        key_material(k, h, letter, session_id, 32) == sha256(k + h + seq![letter] + session_id)@,
        key_material(k, h, letter, session_id, 32 * (count + 1)) == key_material(
            k,
            h,
            letter,
            session_id,
            32 * count,
        ) + sha256(k + h + key_material(k, h, letter, session_id, 32 * count))@,
        key_material(k, h, letter, session_id, need).len() == need,
        need <= 32 * count ==> key_material(k, h, letter, session_id, need) == key_material(
            k,
            h,
            letter,
            session_id,
            32 * count,
        ).take(need as int),
{
    lemma_whole_hashes(k, h, letter, session_id, 1);
    lemma_whole_hashes(k, h, letter, session_id, count);
    lemma_whole_hashes(k, h, letter, session_id, count + 1);
    lemma_key_hashes(k, h, letter, session_id, hashes_for(need), hashes_for(need));
    if need <= 32 * count {
        lemma_key_hashes(k, h, letter, session_id, hashes_for(need), count);
        let long = key_hashes(k, h, letter, session_id, count);
        let short = key_hashes(k, h, letter, session_id, hashes_for(need));
        assert(long.take(need as int) =~= short.take(need as int));
    }
}

proof fn lemma_whole_hashes(k: Seq<u8>, h: Seq<u8>, letter: u8, session_id: Seq<u8>, count: nat)
    requires
        count >= 1,
    ensures
        key_material(k, h, letter, session_id, 32 * count) == key_hashes(
            k,
            h,
            letter,
            session_id,
            count,
        ),
        key_hashes(k, h, letter, session_id, count).len() == 32 * count,
{
    lemma_key_hashes(k, h, letter, session_id, count, count);
    assert(hashes_for(32 * count) == count);
    let all = key_hashes(k, h, letter, session_id, count);
    assert(all.take(32 * count as int) =~= all);
}

/// A packet that is sealed goes out as many bytes long as it is and thirty-two more: each of its
/// bytes under the keystream byte at its place, counted from where the direction stands, then the
/// code, which is over the sequence number and the packet in the clear. The direction stands that
/// many bytes of packet further on afterwards, under the same keys.
pub proof fn law_a_packet_is_encrypted_and_signed(keys: Keys, seq: u32, framed: Seq<u8>)
    ensures
        keys.sealed(seq, framed).len() == framed.len() + 32,
        forall|i: int|
            0 <= i < framed.len() ==> #[trigger] keys.sealed(seq, framed)[i] == framed[i]
                ^ aes256_ctr(keys.key, keys.iv, (keys.position + i) as nat),
        keys.sealed(seq, framed).skip(framed.len() as int) == hmac_sha256(
            keys.integrity,
            seq![
                (seq / 0x100_0000) as u8,
                (seq / 0x1_0000 % 0x100) as u8,
                (seq / 0x100 % 0x100) as u8,
                (seq % 0x100) as u8,
            ] + framed,
        )@,
        ({
            let after = keys.after(framed.len());
            &&& after.position == keys.position + framed.len()
            &&& after.key == keys.key && after.iv == keys.iv && after.integrity == keys.integrity
        }),
{
    let wire = keys.sealed(seq, framed);
    assert(wire.skip(framed.len() as int) =~= keys.tag(seq, framed));
}

/// What goes out before the keys are exchanged is the packet as it is, block size eight; after,
/// it is sealed, block size sixteen.
pub proof fn law_what_goes_out_is_the_packet(
    keys: Keys,
    seq: u32,
    payload: Seq<u8>,
    padding: Seq<u8>,
    count: nat,
)
    ensures
        Sealing::Plain.block() == 8,
        Sealing::Plain.sealed(seq, payload, padding) == packet(payload, padding),
        Sealing::Plain.after(count) == Sealing::Plain,
        Sealing::Suite(keys).block() == 16,
        Sealing::Suite(keys).sealed(seq, payload, padding) == keys.sealed(
            seq,
            packet(payload, padding),
        ),
        Sealing::Suite(keys).after(count) == Sealing::Suite(
            Keys { position: keys.position + count, ..keys },
        ),
{
}

/// The payload is what stands between the length of the padding and the padding; a packet that
/// has no room for the padding it tells of, or for its length, is refused.
pub proof fn law_the_payload_stands_before_the_padding(body: Seq<u8>)
    ensures
        match unframed(body) {
            Ok(payload) => {
                &&& 1 + payload.len() + body[0] == body.len()
                &&& forall|i: int| 0 <= i < payload.len() ==> #[trigger] payload[i] == body[1 + i]
            },
            Err(error) => body.len() == 0 && error == Error::NoPaddingLength || body.len() > 0
                && body.len() < 1 + body[0] && error == Error::PaddingTooLong,
        },
{
}

/// A packet of fewer than twelve bytes behind its length, or of more than 262144, is refused as
/// soon as its length is there, with the length in the refusal; one of a length in between is not.
pub proof fn law_a_length_out_of_bounds_is_refused(input: Seq<u8>, keys: Keys, seq: u32)
    ensures
        forall|n: nat| #[trigger] carried(n) <==> 12 <= n <= 262_144,
        input.len() >= 4 ==> {
            let n = input[0] * 0x100_0000 + input[1] * 0x1_0000 + input[2] * 0x100 + input[3];
            (n < 12 || n > 262_144) <==> open_plain(input) == (Opening::Refused {
                error: Error::PacketLength(n as usize),
                taken: 4,
            })
        },
        input.len() >= 16 && keys.position + 262_148 <= u128::MAX ==> {
            let head = keys.crypt(input.take(16));
            let n = head[0] * 0x100_0000 + head[1] * 0x1_0000 + head[2] * 0x100 + head[3];
            (n < 12 || n > 262_144) <==> keys.open(seq, input) == (Opening::Refused {
                error: Error::PacketLength(n as usize),
                taken: 16,
            })
        },
{
    if input.len() >= 4 {
        lemma_length_is_read(input);
    }
    if input.len() >= 16 {
        lemma_length_is_read(keys.crypt(input.take(16)));
    }
}

proof fn lemma_length_is_read(head: Seq<u8>)
    requires
        head.len() >= 4,
    ensures
        from_be32(head.take(4)) == head[0] * 0x100_0000 + head[1] * 0x1_0000 + head[2] * 0x100
            + head[3],
{
}

/// Whether a packet opens is a matter of its own bytes: one that is whole, of a length that is
/// carried, under the code of its bytes, gives the payload in it; and nothing else does.
pub proof fn law_only_what_the_code_covers_is_opened(keys: Keys, seq: u32, input: Seq<u8>)
    requires
        keys.open(seq, input) is Payload,
    ensures
        keys.open(seq, input) matches Opening::Payload { payload, taken } && {
            let size = taken - 32;
            let clear = Seq::new(
                size as nat,
                |i: int| input[i] ^ aes256_ctr(keys.key, keys.iv, (keys.position + i) as nat),
            );
            &&& 48 <= taken <= input.len()
            &&& size - 4 == clear[0] * 0x100_0000 + clear[1] * 0x1_0000 + clear[2] * 0x100
                + clear[3]
            &&& input.subrange(size, size + 32) == hmac_sha256(keys.integrity, be32(seq) + clear)@
            &&& unframed(clear.skip(4)) == Ok::<Seq<u8>, Error>(payload)
            &&& keys.after_open(seq, input) == (Keys {
                position: (keys.position + size) as nat,
                ..keys
            })
        },
{
    let head = keys.crypt(input.take(16));
    lemma_length_is_read(head);
    let n = from_be32(head.take(4)) as nat;
    let size = 4 + n as int;
    let clear = Seq::new(
        size as nat,
        |i: int| input[i] ^ aes256_ctr(keys.key, keys.iv, (keys.position + i) as nat),
    );
    assert(keys.crypt(input.take(size)) =~= clear);
    assert(clear[0] == head[0] && clear[1] == head[1] && clear[2] == head[2] && clear[3]
        == head[3]);
}

/// In the clear a packet is taken by its length and gives the payload in it.
pub proof fn law_a_packet_in_the_clear_is_taken_by_its_length(input: Seq<u8>)
    requires
        open_plain(input) is Payload,
    ensures
        open_plain(input) matches Opening::Payload { payload, taken } && {
            &&& taken - 4 == input[0] * 0x100_0000 + input[1] * 0x1_0000 + input[2] * 0x100
                + input[3]
            &&& 16 <= taken <= input.len()
            &&& unframed(input.subrange(4, taken as int)) == Ok::<Seq<u8>, Error>(payload)
        },
{
    lemma_length_is_read(input);
}

/// What an opening comes to for whoever asked for it: nothing while the packet is not there whole,
/// with the buffer as it was; the refusal, or the payload, with the bytes that were taken off.
pub proof fn law_an_opening_is_reported(
    opening: Opening,
    outcome: Result<Option<Vec<u8>>, Error>,
    before: Seq<u8>,
    after: Seq<u8>,
)
    requires
        reports(opening, outcome, before, after),
    ensures
        opening is More <==> outcome matches Ok(None),
        opening is More ==> after == before,
        opening matches Opening::Refused { error, taken } ==> outcome == Err::<
            Option<Vec<u8>>,
            Error,
        >(error) && before.len() == taken + after.len() && before.skip(taken as int) == after,
        opening matches Opening::Payload { payload, taken } ==> (outcome matches Ok(Some(given))
            && given@ == payload) && before.len() == taken + after.len() && before.skip(
            taken as int,
        ) == after,
{
}

/// What is opened in the clear, in full: nothing is told before the length is there, nor before
/// all of a packet is whose length is carried; then the packet is what it says, or is refused.
pub proof fn law_a_packet_in_the_clear_is_waited_for(input: Seq<u8>)
    ensures
        input.len() < 4 ==> open_plain(input) is More,
        input.len() >= 4 ==> {
            let n = input[0] * 0x100_0000 + input[1] * 0x1_0000 + input[2] * 0x100 + input[3];
            12 <= n <= 262_144 ==> if input.len() < 4 + n {
                open_plain(input) is More
            } else {
                open_plain(input) == match unframed(input.subrange(4, 4 + n)) {
                    Ok(payload) => Opening::Payload { payload, taken: (4 + n) as nat },
                    Err(error) => Opening::Refused { error, taken: (4 + n) as nat },
                }
            }
        },
{
    if input.len() >= 4 {
        lemma_length_is_read(input);
    }
}

/// What is opened under keys, in full: nothing is told before the first block is there, nor before
/// all of a packet and its code are; then a code that is not the packet's refuses it, and one that
/// is lets the packet be what it says. The keystream has moved on over what was deciphered: nothing,
/// the first block, or the packet.
pub proof fn law_a_packet_under_keys_is_waited_for(keys: Keys, seq: u32, input: Seq<u8>)
    requires
        keys.position + 262_148 <= u128::MAX,
    ensures
        input.len() < 16 ==> keys.open(seq, input) is More,
        input.len() >= 16 ==> {
            let head = keys.crypt(input.take(16));
            let n = head[0] * 0x100_0000 + head[1] * 0x1_0000 + head[2] * 0x100 + head[3];
            if n < 12 || n > 262_144 {
                keys.after_open(seq, input) == keys.after(16)
            } else if input.len() < n + 36 {
                keys.open(seq, input) is More && keys.after_open(seq, input) == keys
            } else {
                let clear = keys.crypt(input.take(4 + n));
                let good = input.subrange(4 + n, 36 + n) == hmac_sha256(
                    keys.integrity,
                    be32(seq) + clear,
                )@;
                &&& keys.after_open(seq, input) == keys.after((4 + n) as nat)
                &&& !good ==> keys.open(seq, input) == (Opening::Refused {
                    error: Error::MacMismatch,
                    taken: (36 + n) as nat,
                })
                &&& good ==> keys.open(seq, input) == match unframed(clear.skip(4)) {
                    Ok(payload) => Opening::Payload { payload, taken: (36 + n) as nat },
                    Err(error) => Opening::Refused { error, taken: (36 + n) as nat },
                }
            }
        },
{
    if input.len() >= 16 {
        lemma_length_is_read(keys.crypt(input.take(16)));
    }
}

/// Deciphering is putting each byte under the keystream byte at its place.
pub proof fn law_each_byte_is_under_its_keystream_byte(keys: Keys, data: Seq<u8>)
    ensures
        keys.crypt(data).len() == data.len(),
        forall|i: int|
            0 <= i < data.len() ==> #[trigger] keys.crypt(data)[i] == data[i] ^ aes256_ctr(
                keys.key,
                keys.iv,
                (keys.position + i) as nat,
            ),
{
}

/// A direction in the clear always has room and never moves on; one under keys has room while its
/// place can be counted in sixteen bytes, and where it has none for the largest packet it opens
/// nothing. What a cipher stands for is which of the two it is, with its keys.
pub proof fn law_room_is_counted(
    cipher: Cipher,
    keys: Keys,
    seq: u32,
    input: Seq<u8>,
    count: nat,
    n: nat,
)
    ensures
        Sealing::Plain.room(count),
        Sealing::Suite(keys).room(count) <==> keys.position + count
            <= 0xffff_ffff_ffff_ffff_ffff_ffff_ffff_ffff,
        keys.position + 262_148 > 0xffff_ffff_ffff_ffff_ffff_ffff_ffff_ffff ==> keys.open(seq, input)
            == (Opening::Refused { error: Error::KeystreamSpent, taken: 0 }) && keys.after_open(
            seq,
            input,
        ) == keys,
        Sealing::Plain.open(seq, input) == open_plain(input),
        Sealing::Plain.after_open(seq, input) == Sealing::Plain,
        Sealing::Suite(keys).open(seq, input) == keys.open(seq, input),
        Sealing::Suite(keys).after_open(seq, input) == Sealing::Suite(keys.after_open(seq, input)),
        match cipher {
            Cipher::Plain => cipher@ == Sealing::Plain,
            Cipher::Suite(suite) => cipher@ == Sealing::Suite(suite@),
        },
        n < 256 ==> length8(n) == n,
        n >= 256 ==> length8(n) == 255,
{
}

} // verus!
