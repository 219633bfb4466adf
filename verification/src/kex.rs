//! The key exchange: the identification strings, the algorithm offer, the Curve25519
//! Diffie-Hellman and the Ed25519 host key that together settle a shared secret and a session
//! identifier (RFC 4253 section 7, RFC 5656, RFC 8731, RFC 8709).
//!
//! One algorithm is offered on each axis (`curve25519-sha256`, `ssh-ed25519`, `aes256-ctr`,
//! `hmac-sha2-256`, `none`), so there is nothing to negotiate but everything to agree on: the
//! exchange hash covers the identification strings and both `SSH_MSG_KEXINIT` payloads verbatim,
//! so the two ends must hash exactly what crossed the wire.
//!
//! Each half of the exchange is begun with an offer and goes on with every message that arrives,
//! [`client`] on one side and [`server`] on the other.

use vstd::prelude::*;
use vstd::slice::slice_to_vec;
use vstd::string::*;
use vstd::utf8::encode_utf8;

use crate::channel::{messages, none};
use crate::cipher::{array, suite, suite_keys, Cipher, Sealing};
use crate::crypto::{
    digest, draw, ed25519_holds, ed25519_point, ed25519_public, ed25519_signature,
    exchange_public, exchange_shared, sha256, x25519_public, x25519_shared,
};
use crate::error::Error;
use crate::keys::{
    blob, judge, law_a_blob_reads_back, law_a_good_signature_is_accepted, lemma_blob_length,
    verdict, write_blob, KeyFaults, SigningKey,
};
use crate::layout::{
    fields, law_a_blob_field_by_field, law_the_exchange_field_by_field,
    law_the_fields_tell_the_message, law_the_transcript_field_by_field, reads, Field,
};
use crate::packet::{due, insist};
use crate::text::law_text_reads_back;
use crate::wire::{
    be32, boolean, law_string_reads_back, mpint, string, take_string, Reader, Writer,
};

pub use crate::keys::HOST_KEY;

verus! {

/// The message that opens the key exchange.
pub const KEXINIT: u8 = 20;
/// The message that switches to the exchanged keys.
pub const NEWKEYS: u8 = 21;
/// The client's ephemeral public key.
pub const KEX_ECDH_INIT: u8 = 30;
/// The server's host key, ephemeral public key and signature.
pub const KEX_ECDH_REPLY: u8 = 31;
/// The message that asks to start a service after the keys are exchanged.
pub const SERVICE_REQUEST: u8 = 5;
/// The message that grants it.
pub const SERVICE_ACCEPT: u8 = 6;

/// Our identification string, without the trailing carriage return and line feed the exchange
/// adds.
pub const IDENTIFICATION: &'static str = "SSH-2.0-xmip_1.0";

/// What a completed key exchange leaves behind: the session identifier, which is the first
/// exchange hash.
pub struct Exchanged {
    /// The session identifier: the exchange hash of the first key exchange, what a public-key
    /// signature is made over.
    pub session_id: Vec<u8>,
}

/// A name-list that offers one name.
pub open spec fn offered(name: Seq<char>) -> Seq<u8> {
    string(encode_utf8(name))
}

/// The `SSH_MSG_KEXINIT` payload with this cookie: the one-name lists on every axis, no guess
/// following.
pub open spec fn offer(cookie: Seq<u8>) -> Seq<u8> {
    seq![KEXINIT] + cookie + offered("curve25519-sha256"@) + offered(HOST_KEY@)
        + offered("aes256-ctr"@) + offered("aes256-ctr"@) + offered("hmac-sha2-256"@) + offered(
        "hmac-sha2-256"@,
    ) + offered("none"@) + offered("none"@) + offered(""@) + offered(""@) + boolean(false) + be32(0)
}

/// The `SSH_MSG_KEXINIT` payload with `cookie`.
pub fn kexinit_with(cookie: &[u8]) -> (payload: Vec<u8>)
    ensures
        payload@ == offer(cookie@),
{
    let mut head: Vec<u8> = Vec::new();
    head.push(KEXINIT);
    head.extend_from_slice(cookie);
    assert(head@ =~= seq![KEXINIT] + cookie@);
    let mut writer = Writer::new();
    writer.string("curve25519-sha256".as_bytes()).string(HOST_KEY.as_bytes());
    writer.string("aes256-ctr".as_bytes()).string("aes256-ctr".as_bytes());
    writer.string("hmac-sha2-256".as_bytes()).string("hmac-sha2-256".as_bytes());
    writer.string("none".as_bytes()).string("none".as_bytes());
    writer.string("".as_bytes()).string("".as_bytes());
    writer.bool(false);
    writer.u32(0);
    let lists = writer.finish();
    head.extend_from_slice(&lists);
    assert(head@ =~= offer(cookie@));
    head
}

/// The `SSH_MSG_KEXINIT` payload: a cookie and the one-name lists offered here.
pub fn kexinit() -> (payload: Result<Vec<u8>, Error>)
    ensures
        match payload {
            Ok(made) => exists|cookie: Seq<u8>|
                cookie.len() == 16 && made@ == #[trigger] offer(cookie),
            Err(error) => error == Error::NoCookie,
        },
{
    match draw(16) {
        Some(cookie) => {
            let made = kexinit_with(&cookie);
            assert(cookie@.len() == 16 && made@ == offer(cookie@));
            Ok(made)
        },
        None => Err(Error::NoCookie),
    }
}

/// A fresh ephemeral Curve25519 key pair: the secret and its public 32 bytes.
pub fn ephemeral() -> (pair: Result<([u8; 32], [u8; 32]), Error>)
    ensures
        match pair {
            Ok((secret, public)) => public == x25519_public(secret@),
            Err(error) => error == Error::NoSecret,
        },
{
    match draw(32) {
        Some(seed) => match array::<32>(&seed) {
            Some(secret) => Ok((secret, exchange_public(&secret))),
            None => Err(Error::NoSecret),
        },
        None => Err(Error::NoSecret),
    }
}

/// What a secret and the peer's public key make together. Where the peer's public key is that of
/// another secret, that secret makes the same of this one's public key.
pub fn diffie_hellman(secret: &[u8; 32], peer: &[u8; 32]) -> (shared: [u8; 32])
    ensures
        shared == x25519_shared(secret@, peer@),
        forall|other: Seq<u8>|
            other.len() == 32 && *peer == #[trigger] x25519_public(other) ==> shared
                == x25519_shared(other, x25519_public(secret@)@),
{
    exchange_shared(secret, peer)
}

/// The pieces the exchange hash is built from.
pub struct HashParts<'a> {
    pub v_c: &'a str,
    pub v_s: &'a str,
    pub i_c: &'a [u8],
    pub i_s: &'a [u8],
    pub k_s: &'a [u8],
    pub q_c: &'a [u8],
    pub q_s: &'a [u8],
    pub k_mpint: &'a [u8],
}

/// What the exchange hash is over.
pub ghost struct Transcript {
    pub v_c: Seq<char>,
    pub v_s: Seq<char>,
    pub i_c: Seq<u8>,
    pub i_s: Seq<u8>,
    pub k_s: Seq<u8>,
    pub q_c: Seq<u8>,
    pub q_s: Seq<u8>,
    pub k_mpint: Seq<u8>,
}

impl<'a> View for HashParts<'a> {
    type V = Transcript;

    open spec fn view(&self) -> Transcript {
        Transcript {
            v_c: self.v_c@,
            v_s: self.v_s@,
            i_c: self.i_c@,
            i_s: self.i_s@,
            k_s: self.k_s@,
            q_c: self.q_c@,
            q_s: self.q_s@,
            k_mpint: self.k_mpint@,
        }
    }
}

impl Transcript {
    /// The bytes that are hashed (RFC 5656 section 4).
    pub open spec fn bytes(self) -> Seq<u8> {
        string(encode_utf8(self.v_c)) + string(encode_utf8(self.v_s)) + string(self.i_c) + string(
            self.i_s,
        ) + string(self.k_s) + string(self.q_c) + string(self.q_s) + self.k_mpint
    }

    /// The exchange hash.
    pub open spec fn hash(self) -> Seq<u8> {
        sha256(self.bytes())@
    }

    /// Whether every piece that is told as a string can be counted.
    pub open spec fn countable(self) -> bool {
        &&& encode_utf8(self.v_c).len() <= u32::MAX
        &&& encode_utf8(self.v_s).len() <= u32::MAX
        &&& self.i_c.len() <= u32::MAX
        &&& self.i_s.len() <= u32::MAX
        &&& self.k_s.len() <= u32::MAX
        &&& self.q_c.len() <= u32::MAX
        &&& self.q_s.len() <= u32::MAX
    }
}

/// The exchange hash of RFC 5656 section 4: the two identifications, the two key-exchange
/// payloads, the host key, the two ephemeral public keys, and the shared secret as an `mpint`.
pub fn exchange_hash(parts: &HashParts<'_>) -> (hash: Vec<u8>)
    ensures
        hash@ == parts@.hash(),
        hash@.len() == 32,
{
    let mut writer = Writer::new();
    writer.string(parts.v_c.as_bytes()).string(parts.v_s.as_bytes()).string(parts.i_c).string(
        parts.i_s,
    ).string(parts.k_s).string(parts.q_c).string(parts.q_s);
    let mut data = writer.finish();
    data.extend_from_slice(parts.k_mpint);
    assert(data@ =~= parts@.bytes());
    slice_to_vec(&digest(&data))
}

/// The `mpint` encoding of a shared secret, used both in the exchange hash and in the key
/// derivation.
pub fn shared_mpint(shared: &[u8]) -> (encoded: Vec<u8>)
    ensures
        encoded@ == mpint(shared@),
{
    let mut writer = Writer::new();
    writer.mpint(shared);
    let encoded = writer.finish();
    assert(encoded@ =~= mpint(shared@));
    encoded
}

/// The `ssh-ed25519` host key blob: the algorithm name and the 32-byte public key, each a
/// string.
pub fn host_key_blob(verifying: &[u8; 32]) -> (made: Vec<u8>)
    ensures
        made@ == blob(verifying@),
{
    write_blob(verifying)
}

/// The `ssh-ed25519` signature blob: the algorithm name and the 64-byte signature.
pub fn signature_blob(signature: &[u8; 64]) -> (made: Vec<u8>)
    ensures
        made@ == blob(signature@),
{
    write_blob(signature)
}

/// What is said of a host key that is none.
pub open spec fn host_faults() -> KeyFaults {
    KeyFaults { kind: Error::HostKeyKind, size: Error::HostKeySize, point: Error::HostKeyPoint }
}

/// What a host's signature over the exchange hash is worth.
pub open spec fn host_verdict(k_s: Seq<u8>, signature: Seq<u8>, hash: Seq<u8>) -> Result<
    (),
    Error,
> {
    verdict(k_s, signature, hash, host_faults(), Error::HostSignature)
}

/// Verify a host signature blob over `hash` against the host key blob.
pub fn verify_host(k_s: &[u8], sig_blob: &[u8], hash: &[u8]) -> (outcome: Result<(), Error>)
    ensures
        outcome == host_verdict(k_s@, sig_blob@, hash@),
{
    let faults = KeyFaults {
        kind: Error::HostKeyKind,
        size: Error::HostKeySize,
        point: Error::HostKeyPoint,
    };
    judge(k_s, sig_blob, hash, faults, Error::HostSignature)
}

/// A fresh Ed25519 key from the system's randomness.
pub fn fresh_ed25519() -> (key: Result<SigningKey, Error>)
    ensures
        match key {
            Ok(made) => made@.len() == 32,
            Err(error) => error == Error::NoEd25519,
        },
{
    match draw(32) {
        Some(drawn) => match array::<32>(&drawn) {
            Some(seed) => Ok(SigningKey::from_bytes(&seed)),
            None => Err(Error::NoEd25519),
        },
        None => Err(Error::NoEd25519),
    }
}

/// How far the client's half of the exchange has come.
pub enum ClientStage {
    /// The offer is out, the server's due.
    Offered { v_c: String, v_s: String, i_c: Vec<u8> },
    /// The ephemeral key is out, the server's reply due.
    Sent { v_c: String, v_s: String, i_c: Vec<u8>, i_s: Vec<u8>, secret: [u8; 32] },
    /// The new keys are announced, the server's announcement due.
    Keyed { k_mpint: Vec<u8>, hash: Vec<u8> },
}

/// How far the client's half of the exchange has come.
pub ghost enum ClientAt {
    Offered { v_c: Seq<char>, v_s: Seq<char>, i_c: Seq<u8> },
    Sent { v_c: Seq<char>, v_s: Seq<char>, i_c: Seq<u8>, i_s: Seq<u8>, secret: Seq<u8> },
    Keyed { k_mpint: Seq<u8>, hash: Seq<u8> },
}

impl View for ClientStage {
    type V = ClientAt;

    open spec fn view(&self) -> ClientAt {
        match *self {
            ClientStage::Offered { v_c, v_s, i_c } => ClientAt::Offered {
                v_c: v_c@,
                v_s: v_s@,
                i_c: i_c@,
            },
            ClientStage::Sent { v_c, v_s, i_c, i_s, secret } => ClientAt::Sent {
                v_c: v_c@,
                v_s: v_s@,
                i_c: i_c@,
                i_s: i_s@,
                secret: secret@,
            },
            ClientStage::Keyed { k_mpint, hash } => ClientAt::Keyed {
                k_mpint: k_mpint@,
                hash: hash@,
            },
        }
    }
}

/// What a message does to the client's half.
pub enum ClientTurn {
    /// Send this, and await the next message.
    Send { stage: ClientStage, message: Vec<u8> },
    /// The keys are exchanged: what goes out from now on is sealed by `tx`, what comes in is
    /// opened by `rx`.
    Done { exchanged: Exchanged, tx: Cipher, rx: Cipher },
}

/// What a message does to one half of the exchange.
pub ghost enum Moved<At> {
    /// These messages are sent, and another awaited.
    Send { at: At, messages: Seq<Seq<u8>> },
    /// The keys are exchanged.
    Done { session_id: Seq<u8>, tx: Sealing, rx: Sealing },
}

/// The message with the client's ephemeral public key.
pub open spec fn init_message(q_c: Seq<u8>) -> Seq<u8> {
    seq![KEX_ECDH_INIT] + string(q_c)
}

/// The message with the server's host key, ephemeral public key and signature.
pub open spec fn reply_message(k_s: Seq<u8>, q_s: Seq<u8>, signature: Seq<u8>) -> Seq<u8> {
    seq![KEX_ECDH_REPLY] + string(k_s) + string(q_s) + string(signature)
}

/// The host key, the ephemeral public key and the signature in the server's reply.
pub open spec fn reply_in(message: Seq<u8>) -> Result<(Seq<u8>, Seq<u8>, Seq<u8>), Error> {
    match due(message, KEX_ECDH_REPLY, "the server's key-exchange reply") {
        Err(error) => Err(error),
        Ok(_) => match take_string(message.skip(1)) {
            None => Err(Error::Truncated),
            Some((k_s, rest)) => match take_string(rest) {
                None => Err(Error::Truncated),
                Some((q_s, rest)) => match take_string(rest) {
                    None => Err(Error::Truncated),
                    Some((signature, _)) => if q_s.len() != 32 {
                        Err(Error::ServerEphemeralSize)
                    } else {
                        Ok((k_s, q_s, signature))
                    },
                },
            },
        },
    }
}

/// What a message does to the client's half, `secret` being the ephemeral secret where one is
/// drawn.
#[verifier::opaque]
pub open spec fn client_step(at: ClientAt, message: Seq<u8>, secret: Seq<u8>) -> Result<
    Moved<ClientAt>,
    Error,
> {
    match at {
        ClientAt::Offered { v_c, v_s, i_c } => match due(
            message,
            KEXINIT,
            "the server's key-exchange offer",
        ) {
            Err(error) => Err(error),
            Ok(_) => Ok(
                Moved::Send {
                    at: ClientAt::Sent { v_c, v_s, i_c, i_s: message, secret },
                    messages: seq![init_message(x25519_public(secret)@)],
                },
            ),
        },
        ClientAt::Sent { v_c, v_s, i_c, i_s, secret } => match reply_in(message) {
            Err(error) => Err(error),
            Ok((k_s, q_s, signature)) => {
                let k_mpint = mpint(x25519_shared(secret, q_s)@);
                let q_c = x25519_public(secret)@;
                let hash = (Transcript { v_c, v_s, i_c, i_s, k_s, q_c, q_s, k_mpint }).hash();
                match host_verdict(k_s, signature, hash) {
                    Err(error) => Err(error),
                    Ok(_) => Ok(
                        Moved::Send {
                            at: ClientAt::Keyed { k_mpint, hash },
                            messages: seq![seq![NEWKEYS]],
                        },
                    ),
                }
            },
        },
        ClientAt::Keyed { k_mpint, hash } => match due(message, NEWKEYS, "the server's new keys") {
            Err(error) => Err(error),
            Ok(_) => Ok(
                Moved::Done {
                    session_id: hash,
                    tx: Sealing::Suite(suite_keys(k_mpint, hash, hash, true)),
                    rx: Sealing::Suite(suite_keys(k_mpint, hash, hash, false)),
                },
            ),
        },
    }
}

impl ClientTurn {
    /// Whether this is the turn that `moved` describes.
    pub open spec fn takes(self, moved: Moved<ClientAt>) -> bool {
        match moved {
            Moved::Send { at, messages } => {
                &&& self is Send
                &&& self->stage@ == at
                &&& seq![self->message@] == messages
            },
            Moved::Done { session_id, tx, rx } => {
                &&& self is Done
                &&& self->exchanged.session_id@ == session_id
                &&& self->tx@ == tx
                &&& self->rx@ == rx
            },
        }
    }
}

/// Begin the client's half of the exchange: the offer to send.
pub fn client_offer(v_c: &str, v_s: &str) -> (begun: Result<(ClientStage, Vec<u8>), Error>)
    ensures
        match begun {
            Ok((stage, message)) => {
                &&& stage@ == (ClientAt::Offered { v_c: v_c@, v_s: v_s@, i_c: message@ })
                &&& exists|cookie: Seq<u8>| cookie.len() == 16 && message@ == #[trigger] offer(cookie)
            },
            Err(error) => error == Error::NoCookie,
        },
{
    let i_c = kexinit()?;
    let message = slice_to_vec(&i_c);
    Ok((ClientStage::Offered { v_c: v_c.to_string(), v_s: v_s.to_string(), i_c }, message))
}

/// Go on with the client's half of the exchange now that the message that was due is here.
pub fn client(stage: ClientStage, message: &[u8]) -> (turn: Result<ClientTurn, Error>)
    ensures
        match turn {
            Ok(taken) => exists|secret: Seq<u8>|
                secret.len() == 32 && (#[trigger] client_step(stage@, message@, secret) matches Ok(
                    moved,
                ) && taken.takes(moved)),
            Err(error) => error == Error::NoSecret && stage is Offered && due(
                message@,
                KEXINIT,
                "the server's key-exchange offer",
            ) is Ok || forall|secret: Seq<u8>|
                #[trigger] client_step(stage@, message@, secret) == Err::<Moved<ClientAt>, Error>(
                    error,
                ),
        },
{
    reveal(client_step);
    let secret = match &stage {
        ClientStage::Offered { .. } => match insist(
            message,
            KEXINIT,
            "the server's key-exchange offer",
        ) {
            Ok(()) => match ephemeral() {
                Ok((secret, _)) => secret,
                Err(_) => {
                    return Err(Error::NoSecret);
                },
            },
            Err(error) => {
                return Err(error);
            },
        },
        _ => [0u8; 32],
    };
    match client_with(stage, message, &secret) {
        Ok(taken) => {
            assert(client_step(stage@, message@, secret@) is Ok);
            Ok(taken)
        },
        Err(error) => Err(error),
    }
}

/// Go on with the client's half of the exchange, `secret` being the ephemeral secret where this
/// is the message after which one is drawn.
#[verifier::rlimit(40)]
pub fn client_with(stage: ClientStage, message: &[u8], secret: &[u8; 32]) -> (turn: Result<
    ClientTurn,
    Error,
>)
    ensures
        match client_step(stage@, message@, secret@) {
            Ok(moved) => turn is Ok && turn->Ok_0.takes(moved),
            Err(error) => turn == Err::<ClientTurn, Error>(error),
        },
{
    reveal(client_step);
    match stage {
        ClientStage::Offered { v_c, v_s, i_c } => {
            insist(message, KEXINIT, "the server's key-exchange offer")?;
            let q_c = exchange_public(secret);
            let mut init = Writer::new();
            init.byte(KEX_ECDH_INIT).string(&q_c);
            let init = init.finish();
            assert(init@ =~= init_message(q_c@));
            Ok(
                ClientTurn::Send {
                    stage: ClientStage::Sent {
                        v_c,
                        v_s,
                        i_c,
                        i_s: slice_to_vec(message),
                        secret: *secret,
                    },
                    message: init,
                },
            )
        },
        ClientStage::Sent { v_c, v_s, i_c, i_s, secret } => {
            insist(message, KEX_ECDH_REPLY, "the server's key-exchange reply")?;
            let mut reader = Reader::new(&message[1..message.len()]);
            assert(reader@ =~= message@.skip(1));
            let k_s = reader.string()?;
            let q_s = reader.string()?;
            let signature = reader.string()?;
            let peer = match array::<32>(q_s) {
                Some(peer) => peer,
                None => {
                    return Err(Error::ServerEphemeralSize);
                },
            };
            let q_c = exchange_public(&secret);
            let shared = diffie_hellman(&secret, &peer);
            let k_mpint = shared_mpint(&shared);
            let hash = exchange_hash(
                &HashParts {
                    v_c: v_c.as_str(),
                    v_s: v_s.as_str(),
                    i_c: &i_c,
                    i_s: &i_s,
                    k_s,
                    q_c: &q_c,
                    q_s,
                    k_mpint: &k_mpint,
                },
            );
            verify_host(k_s, signature, &hash)?;
            let mut announced: Vec<u8> = Vec::new();
            announced.push(NEWKEYS);
            assert(announced@ =~= seq![NEWKEYS]);
            Ok(
                ClientTurn::Send {
                    stage: ClientStage::Keyed { k_mpint, hash },
                    message: announced,
                },
            )
        },
        ClientStage::Keyed { k_mpint, hash } => {
            insist(message, NEWKEYS, "the server's new keys")?;
            let tx = suite(&k_mpint, &hash, &hash, true)?;
            let rx = suite(&k_mpint, &hash, &hash, false)?;
            Ok(ClientTurn::Done { exchanged: Exchanged { session_id: hash }, tx, rx })
        },
    }
}

/// How far the server's half of the exchange has come.
pub enum ServerStage {
    /// The offer is out, the client's due.
    Offered { v_c: String, v_s: String, i_s: Vec<u8> },
    /// Both offers are there, the client's ephemeral key due.
    Agreed { v_c: String, v_s: String, i_c: Vec<u8>, i_s: Vec<u8> },
    /// The new keys are announced, the client's announcement due.
    Keyed { k_mpint: Vec<u8>, hash: Vec<u8> },
}

/// How far the server's half of the exchange has come.
pub ghost enum ServerAt {
    Offered { v_c: Seq<char>, v_s: Seq<char>, i_s: Seq<u8> },
    Agreed { v_c: Seq<char>, v_s: Seq<char>, i_c: Seq<u8>, i_s: Seq<u8> },
    Keyed { k_mpint: Seq<u8>, hash: Seq<u8> },
}

impl View for ServerStage {
    type V = ServerAt;

    open spec fn view(&self) -> ServerAt {
        match *self {
            ServerStage::Offered { v_c, v_s, i_s } => ServerAt::Offered {
                v_c: v_c@,
                v_s: v_s@,
                i_s: i_s@,
            },
            ServerStage::Agreed { v_c, v_s, i_c, i_s } => ServerAt::Agreed {
                v_c: v_c@,
                v_s: v_s@,
                i_c: i_c@,
                i_s: i_s@,
            },
            ServerStage::Keyed { k_mpint, hash } => ServerAt::Keyed {
                k_mpint: k_mpint@,
                hash: hash@,
            },
        }
    }
}

/// What a message does to the server's half.
pub enum ServerTurn {
    /// Send these, and await the next message.
    Send { stage: ServerStage, sent: Vec<Vec<u8>> },
    /// The keys are exchanged: what goes out from now on is sealed by `tx`, what comes in is
    /// opened by `rx`.
    Done { exchanged: Exchanged, tx: Cipher, rx: Cipher },
}

impl ServerTurn {
    /// Whether the signature that goes out with the answer to the client's ephemeral key holds.
    pub open spec fn signs(self, host: Seq<u8>) -> bool {
        self matches ServerTurn::Send { stage: ServerStage::Keyed { hash, .. }, .. } ==> {
            &&& ed25519_point(ed25519_public(host)@)
            &&& ed25519_holds(
                ed25519_public(host)@,
                hash@,
                ed25519_signature(host, hash@)@,
            )
        }
    }

    /// Whether this is the turn that `moved` describes.
    pub open spec fn takes(self, moved: Moved<ServerAt>) -> bool {
        match moved {
            Moved::Send { at, messages: due } => {
                &&& self is Send
                &&& self->stage@ == at
                &&& messages(self->sent@) == due
            },
            Moved::Done { session_id, tx, rx } => {
                &&& self is Done
                &&& self->exchanged.session_id@ == session_id
                &&& self->tx@ == tx
                &&& self->rx@ == rx
            },
        }
    }
}

/// The client's ephemeral public key out of its message.
pub open spec fn init_in(message: Seq<u8>) -> Result<Seq<u8>, Error> {
    match due(message, KEX_ECDH_INIT, "the client's ephemeral key") {
        Err(error) => Err(error),
        Ok(_) => match take_string(message.skip(1)) {
            None => Err(Error::Truncated),
            Some((q_c, _)) => if q_c.len() != 32 {
                Err(Error::ClientEphemeralSize)
            } else {
                Ok(q_c)
            },
        },
    }
}

/// What a message does to the server's half, `host` being the seed of the key it signs with and
/// `secret` the ephemeral secret where one is drawn.
#[verifier::opaque]
pub open spec fn server_step(
    at: ServerAt,
    message: Seq<u8>,
    host: Seq<u8>,
    secret: Seq<u8>,
) -> Result<Moved<ServerAt>, Error> {
    match at {
        ServerAt::Offered { v_c, v_s, i_s } => match due(
            message,
            KEXINIT,
            "the client's key-exchange offer",
        ) {
            Err(error) => Err(error),
            Ok(_) => Ok(
                Moved::Send {
                    at: ServerAt::Agreed { v_c, v_s, i_c: message, i_s },
                    messages: Seq::empty(),
                },
            ),
        },
        ServerAt::Agreed { v_c, v_s, i_c, i_s } => match init_in(message) {
            Err(error) => Err(error),
            Ok(q_c) => {
                let k_mpint = mpint(x25519_shared(secret, q_c)@);
                let q_s = x25519_public(secret)@;
                let k_s = blob(ed25519_public(host)@);
                let hash = (Transcript { v_c, v_s, i_c, i_s, k_s, q_c, q_s, k_mpint }).hash();
                let signature = blob(ed25519_signature(host, hash)@);
                Ok(
                    Moved::Send {
                        at: ServerAt::Keyed { k_mpint, hash },
                        messages: seq![reply_message(k_s, q_s, signature), seq![NEWKEYS]],
                    },
                )
            },
        },
        ServerAt::Keyed { k_mpint, hash } => match due(message, NEWKEYS, "the client's new keys") {
            Err(error) => Err(error),
            Ok(_) => Ok(
                Moved::Done {
                    session_id: hash,
                    tx: Sealing::Suite(suite_keys(k_mpint, hash, hash, false)),
                    rx: Sealing::Suite(suite_keys(k_mpint, hash, hash, true)),
                },
            ),
        },
    }
}

/// Begin the server's half of the exchange: the offer to send.
pub fn server_offer(v_c: &str, v_s: &str) -> (begun: Result<(ServerStage, Vec<u8>), Error>)
    ensures
        match begun {
            Ok((stage, message)) => {
                &&& stage@ == (ServerAt::Offered { v_c: v_c@, v_s: v_s@, i_s: message@ })
                &&& exists|cookie: Seq<u8>| cookie.len() == 16 && message@ == #[trigger] offer(cookie)
            },
            Err(error) => error == Error::NoCookie,
        },
{
    let i_s = kexinit()?;
    let message = slice_to_vec(&i_s);
    Ok((ServerStage::Offered { v_c: v_c.to_string(), v_s: v_s.to_string(), i_s }, message))
}

/// Go on with the server's half of the exchange, signing with `host`, now that the message that
/// was due is here.
pub fn server(stage: ServerStage, message: &[u8], host: &SigningKey) -> (turn: Result<
    ServerTurn,
    Error,
>)
    ensures
        match turn {
            Ok(taken) => exists|secret: Seq<u8>|
                secret.len() == 32 && (#[trigger] server_step(stage@, message@, host@, secret)
                    matches Ok(moved) && taken.takes(moved)),
            Err(error) => error == Error::NoSecret && stage is Agreed && init_in(message@) is Ok
                || forall|secret: Seq<u8>|
                #[trigger] server_step(stage@, message@, host@, secret) == Err::<
                    Moved<ServerAt>,
                    Error,
                >(error),
        },
        turn matches Ok(taken) ==> taken.signs(host@),
{
    reveal(server_step);
    let secret = match &stage {
        ServerStage::Agreed { .. } => match read_init(message) {
            Ok(_) => match ephemeral() {
                Ok((secret, _)) => secret,
                Err(_) => {
                    return Err(Error::NoSecret);
                },
            },
            Err(error) => {
                return Err(error);
            },
        },
        _ => [0u8; 32],
    };
    match server_with(stage, message, host, &secret) {
        Ok(taken) => {
            assert(server_step(stage@, message@, host@, secret@) is Ok);
            Ok(taken)
        },
        Err(error) => Err(error),
    }
}

/// The client's ephemeral public key out of its message.
pub(crate) fn read_init(message: &[u8]) -> (q_c: Result<[u8; 32], Error>)
    ensures
        match init_in(message@) {
            Ok(held) => q_c is Ok && q_c->Ok_0@ == held,
            Err(error) => q_c == Err::<[u8; 32], Error>(error),
        },
{
    insist(message, KEX_ECDH_INIT, "the client's ephemeral key")?;
    let mut reader = Reader::new(&message[1..message.len()]);
    assert(reader@ =~= message@.skip(1));
    let q_c = reader.string()?;
    match array::<32>(q_c) {
        Some(peer) => Ok(peer),
        None => Err(Error::ClientEphemeralSize),
    }
}

/// Go on with the server's half of the exchange, `secret` being the ephemeral secret where this
/// is the message after which one is drawn.
pub fn server_with(
    stage: ServerStage,
    message: &[u8],
    host: &SigningKey,
    secret: &[u8; 32],
) -> (turn: Result<ServerTurn, Error>)
    ensures
        match server_step(stage@, message@, host@, secret@) {
            Ok(moved) => turn is Ok && turn->Ok_0.takes(moved),
            Err(error) => turn == Err::<ServerTurn, Error>(error),
        },
        turn matches Ok(taken) ==> taken.signs(host@),
{
    reveal(server_step);
    match stage {
        ServerStage::Offered { v_c, v_s, i_s } => {
            insist(message, KEXINIT, "the client's key-exchange offer")?;
            Ok(
                ServerTurn::Send {
                    stage: ServerStage::Agreed { v_c, v_s, i_c: slice_to_vec(message), i_s },
                    sent: none(),
                },
            )
        },
        ServerStage::Agreed { v_c, v_s, i_c, i_s } => {
            let q_c = read_init(message)?;
            let q_s = exchange_public(secret);
            let shared = diffie_hellman(secret, &q_c);
            let k_mpint = shared_mpint(&shared);
            let k_s = host_key_blob(&host.verifying_key());
            let hash = exchange_hash(
                &HashParts {
                    v_c: v_c.as_str(),
                    v_s: v_s.as_str(),
                    i_c: &i_c,
                    i_s: &i_s,
                    k_s: &k_s,
                    q_c: &q_c,
                    q_s: &q_s,
                    k_mpint: &k_mpint,
                },
            );
            let signature = signature_blob(&host.sign(&hash));
            let mut reply = Writer::new();
            reply.byte(KEX_ECDH_REPLY).string(&k_s).string(&q_s).string(&signature);
            let reply = reply.finish();
            assert(reply@ =~= reply_message(k_s@, q_s@, signature@));
            let mut announced: Vec<u8> = Vec::new();
            announced.push(NEWKEYS);
            assert(announced@ =~= seq![NEWKEYS]);
            let mut sent: Vec<Vec<u8>> = Vec::new();
            sent.push(reply);
            sent.push(announced);
            assert(messages(sent@) =~= seq![reply@, announced@]);
            Ok(ServerTurn::Send { stage: ServerStage::Keyed { k_mpint, hash }, sent })
        },
        ServerStage::Keyed { k_mpint, hash } => {
            insist(message, NEWKEYS, "the client's new keys")?;
            let tx = suite(&k_mpint, &hash, &hash, false)?;
            let rx = suite(&k_mpint, &hash, &hash, true)?;
            Ok(ServerTurn::Done { exchanged: Exchanged { session_id: hash }, tx, rx })
        },
    }
}

proof fn lemma_strings_agree(x: Seq<u8>, y: Seq<u8>, s: Seq<u8>, t: Seq<u8>)
    requires
        x.len() <= u32::MAX,
        y.len() <= u32::MAX,
        string(x) + s == string(y) + t,
    ensures
        x == y,
        s == t,
{
    law_string_reads_back(x, s);
    law_string_reads_back(y, t);
}

/// A transcript from its end: all but the first two, the first four, the first six strings.
spec fn tail(parts: Transcript, from: nat) -> Seq<u8> {
    let last = string(parts.q_s) + parts.k_mpint;
    let keys = string(parts.k_s) + (string(parts.q_c) + last);
    let offers = string(parts.i_c) + (string(parts.i_s) + keys);
    if from == 2 {
        offers
    } else if from == 4 {
        keys
    } else {
        last
    }
}

#[verifier::rlimit(40)]
proof fn lemma_tail(parts: Transcript)
    ensures
        parts.bytes() == string(encode_utf8(parts.v_c)) + (string(encode_utf8(parts.v_s)) + tail(
            parts,
            2,
        )),
{
    assert(parts.bytes() =~= string(encode_utf8(parts.v_c)) + (string(encode_utf8(parts.v_s))
        + tail(parts, 2)));
}

/// Two exchanges with the same transcript have every piece in common: nothing that either end
/// said can be changed without changing what is hashed.
pub proof fn law_the_transcript_tells_every_piece(a: Transcript, b: Transcript)
    requires
        a.countable(),
        b.countable(),
        a.bytes() == b.bytes(),
    ensures
        a == b,
{
    lemma_tail(a);
    lemma_tail(b);
    lemma_strings_agree(
        encode_utf8(a.v_c),
        encode_utf8(b.v_c),
        string(encode_utf8(a.v_s)) + tail(a, 2),
        string(encode_utf8(b.v_s)) + tail(b, 2),
    );
    lemma_strings_agree(encode_utf8(a.v_s), encode_utf8(b.v_s), tail(a, 2), tail(b, 2));
    lemma_strings_agree(a.i_c, b.i_c, string(a.i_s) + tail(a, 4), string(b.i_s) + tail(b, 4));
    lemma_strings_agree(a.i_s, b.i_s, tail(a, 4), tail(b, 4));
    lemma_strings_agree(a.k_s, b.k_s, string(a.q_c) + tail(a, 6), string(b.q_c) + tail(b, 6));
    lemma_strings_agree(a.q_c, b.q_c, tail(a, 6), tail(b, 6));
    lemma_strings_agree(a.q_s, b.q_s, a.k_mpint, b.k_mpint);
    law_text_reads_back(a.v_c);
    law_text_reads_back(b.v_c);
    law_text_reads_back(a.v_s);
    law_text_reads_back(b.v_s);
}

/// The messages of the exchange read back: the ephemeral key, and the server's reply.
#[verifier::rlimit(40)]
pub proof fn law_the_exchange_reads_back(q: [u8; 32], k_s: Seq<u8>, signature: Seq<u8>)
    requires
        k_s.len() <= u32::MAX,
        signature.len() <= u32::MAX,
    ensures
        init_in(init_message(q@)) == Ok::<Seq<u8>, Error>(q@),
        reply_in(reply_message(k_s, q@, signature)) == Ok::<(Seq<u8>, Seq<u8>, Seq<u8>), Error>(
            (k_s, q@, signature),
        ),
{
    let init = init_message(q@);
    assert(init.skip(1) =~= string(q@) + Seq::<u8>::empty());
    law_string_reads_back(q@, Seq::empty());
    let reply = reply_message(k_s, q@, signature);
    let third = string(signature) + Seq::<u8>::empty();
    assert(reply.skip(1) =~= string(k_s) + (string(q@) + third));
    law_string_reads_back(k_s, string(q@) + third);
    law_string_reads_back(q@, third);
    law_string_reads_back(signature, Seq::empty());
}

/// What both ends hash, the client's ephemeral secret being `here` and the server's `there`.
pub open spec fn settled(
    v_c: Seq<char>,
    v_s: Seq<char>,
    i_c: Seq<u8>,
    i_s: Seq<u8>,
    host: Seq<u8>,
    here: Seq<u8>,
    there: Seq<u8>,
) -> Transcript {
    Transcript {
        v_c,
        v_s,
        i_c,
        i_s,
        k_s: blob(ed25519_public(host)@),
        q_c: x25519_public(here)@,
        q_s: x25519_public(there)@,
        k_mpint: mpint(x25519_shared(there, x25519_public(here)@)@),
    }
}

/// The server's reply to the client's ephemeral key.
pub open spec fn settling_reply(parts: Transcript, host: Seq<u8>) -> Seq<u8> {
    reply_message(parts.k_s, parts.q_s, blob(ed25519_signature(host, parts.hash())@))
}

proof fn lemma_server_answers(parts: Transcript, host: Seq<u8>, here: Seq<u8>, there: Seq<u8>)
    requires
        parts == settled(parts.v_c, parts.v_s, parts.i_c, parts.i_s, host, here, there),
    ensures
        server_step(
            ServerAt::Agreed { v_c: parts.v_c, v_s: parts.v_s, i_c: parts.i_c, i_s: parts.i_s },
            init_message(parts.q_c),
            host,
            there,
        ) == Ok::<Moved<ServerAt>, Error>(
            Moved::Send {
                at: ServerAt::Keyed { k_mpint: parts.k_mpint, hash: parts.hash() },
                messages: seq![settling_reply(parts, host), seq![NEWKEYS]],
            },
        ),
{
    reveal(server_step);
    law_the_exchange_reads_back(x25519_public(here), Seq::empty(), Seq::empty());
}

proof fn lemma_client_accepts(parts: Transcript, host: Seq<u8>, here: Seq<u8>, there: Seq<u8>)
    requires
        parts == settled(parts.v_c, parts.v_s, parts.i_c, parts.i_s, host, here, there),
        x25519_shared(here, x25519_public(there)@) == x25519_shared(there, x25519_public(here)@),
        ed25519_point(ed25519_public(host)@),
        ed25519_holds(
            ed25519_public(host)@,
            parts.hash(),
            ed25519_signature(host, parts.hash())@,
        ),
    ensures
        client_step(
            ClientAt::Sent {
                v_c: parts.v_c,
                v_s: parts.v_s,
                i_c: parts.i_c,
                i_s: parts.i_s,
                secret: here,
            },
            settling_reply(parts, host),
            here,
        ) == Ok::<Moved<ClientAt>, Error>(
            Moved::Send {
                at: ClientAt::Keyed { k_mpint: parts.k_mpint, hash: parts.hash() },
                messages: seq![seq![NEWKEYS]],
            },
        ),
{
    reveal(client_step);
    let public = ed25519_public(host);
    let signed = ed25519_signature(host, parts.hash());
    lemma_blob_length(public@);
    lemma_blob_length(signed@);
    law_the_exchange_reads_back(x25519_public(there), blob(public@), blob(signed@));
    law_a_good_signature_is_accepted(
        public,
        signed,
        parts.hash(),
        host_faults(),
        Error::HostSignature,
    );
}

proof fn lemma_keys_switch(k_mpint: Seq<u8>, hash: Seq<u8>, host: Seq<u8>, secret: Seq<u8>)
    ensures
        client_step(ClientAt::Keyed { k_mpint, hash }, seq![NEWKEYS], secret) == Ok::<
            Moved<ClientAt>,
            Error,
        >(
            Moved::Done {
                session_id: hash,
                tx: Sealing::Suite(suite_keys(k_mpint, hash, hash, true)),
                rx: Sealing::Suite(suite_keys(k_mpint, hash, hash, false)),
            },
        ),
        server_step(ServerAt::Keyed { k_mpint, hash }, seq![NEWKEYS], host, secret) == Ok::<
            Moved<ServerAt>,
            Error,
        >(
            Moved::Done {
                session_id: hash,
                tx: Sealing::Suite(suite_keys(k_mpint, hash, hash, false)),
                rx: Sealing::Suite(suite_keys(k_mpint, hash, hash, true)),
            },
        ),
{
    reveal(client_step);
    reveal(server_step);
}

/// The two halves of the exchange settle the same session: from the same offers on, the client
/// accepts the server's reply, and both end with one session identifier, the exchange hash, what
/// one seals being what the other opens, in both directions. The premises are what the
/// primitives keep: the two secrets make the same of each other's public keys, the host's public
/// key is a point of the curve, and its signature over the exchange hash holds.
pub proof fn law_both_ends_settle_one_session(
    parts: Transcript,
    host: Seq<u8>,
    here: Seq<u8>,
    there: Seq<u8>,
)
    requires
        parts == settled(parts.v_c, parts.v_s, parts.i_c, parts.i_s, host, here, there),
        x25519_shared(here, x25519_public(there)@) == x25519_shared(there, x25519_public(here)@),
        ed25519_point(ed25519_public(host)@),
        ed25519_holds(
            ed25519_public(host)@,
            parts.hash(),
            ed25519_signature(host, parts.hash())@,
        ),
    ensures
        ({
            let Transcript { v_c, v_s, i_c, i_s, .. } = parts;
            let client = ClientAt::Sent { v_c, v_s, i_c, i_s, secret: here };
            let server = ServerAt::Agreed { v_c, v_s, i_c, i_s };
            &&& server_step(server, init_message(parts.q_c), host, there) matches Ok(
                Moved::Send { at: answered, messages },
            )
            &&& client_step(client, messages[0], here) matches Ok(
                Moved::Send { at: accepted, messages: back },
            )
            &&& client_step(accepted, messages[1], here) matches Ok(
                Moved::Done { session_id, tx, rx },
            )
            &&& session_id == parts.hash()
            &&& server_step(answered, back[0], host, there) == Ok::<Moved<ServerAt>, Error>(
                Moved::Done { session_id, tx: rx, rx: tx },
            )
        }),
{
    lemma_server_answers(parts, host, here, there);
    lemma_client_accepts(parts, host, here, there);
    lemma_keys_switch(parts.k_mpint, parts.hash(), host, here);
    lemma_keys_switch(parts.k_mpint, parts.hash(), host, there);
}

/// The client's half begins: where message 20 is there, its ephemeral public key goes out in
/// message 30, and the offer is kept as it came, to the byte. Another message is refused.
pub proof fn law_the_client_answers_an_offer(
    v_c: Seq<char>,
    v_s: Seq<char>,
    i_c: Seq<u8>,
    message: Seq<u8>,
    secret: Seq<u8>,
)
    ensures
        ({
            let came = client_step(ClientAt::Offered { v_c, v_s, i_c }, message, secret);
            &&& came is Ok <==> message.len() > 0 && message[0] == 20
            &&& came matches Ok(moved) ==> (moved matches Moved::Send { at, messages } && {
                &&& at == (ClientAt::Sent { v_c, v_s, i_c, i_s: message, secret })
                &&& messages.len() == 1
                &&& reads(
                    messages[0],
                    fields(Field::Byte(30)).push(Field::Text(x25519_public(secret)@)),
                )
            })
        }),
{
    reveal(client_step);
    law_the_exchange_field_by_field(
        x25519_public(secret)@,
        Seq::empty(),
        Seq::empty(),
        Seq::empty(),
    );
}

/// The client's half settles: a reply in message 31 is accepted exactly where the signature in it
/// holds, against the host key in it, over the hash of the whole exchange: both identifications,
/// both offers, the host key, the client's public key and the server's, and the secret that they
/// make. Then message 21 goes out, and the hash is kept with the secret.
pub proof fn law_the_client_accepts_what_the_host_signed(
    v_c: Seq<char>,
    v_s: Seq<char>,
    i_c: Seq<u8>,
    i_s: Seq<u8>,
    here: Seq<u8>,
    public: [u8; 32],
    q_s: [u8; 32],
    made: [u8; 64],
    k_s: Seq<u8>,
    signature: Seq<u8>,
    reply: Seq<u8>,
    transcript: Seq<u8>,
    other: Seq<u8>,
)
    requires
        encode_utf8(v_c).len() <= u32::MAX && encode_utf8(v_s).len() <= u32::MAX,
        i_c.len() <= u32::MAX && i_s.len() <= u32::MAX,
        ed25519_point(public@),
        reads(
            k_s,
            fields(Field::Text(encode_utf8("ssh-ed25519"@))).push(Field::Text(public@)),
        ),
        reads(
            signature,
            fields(Field::Text(encode_utf8("ssh-ed25519"@))).push(Field::Text(made@)),
        ),
        reads(
            reply,
            fields(Field::Byte(31))
                .push(Field::Text(k_s))
                .push(Field::Text(q_s@))
                .push(Field::Text(signature)),
        ),
        reads(
            transcript,
            fields(Field::Text(encode_utf8(v_c)))
                .push(Field::Text(encode_utf8(v_s)))
                .push(Field::Text(i_c))
                .push(Field::Text(i_s))
                .push(Field::Text(k_s))
                .push(Field::Text(x25519_public(here)@))
                .push(Field::Text(q_s@))
                .push(Field::Raw(mpint(x25519_shared(here, q_s@)@))),
        ),
    ensures
        ({
            let at = ClientAt::Sent { v_c, v_s, i_c, i_s, secret: here };
            let hash = sha256(transcript)@;
            client_step(at, reply, other) == if ed25519_holds(public@, hash, made@) {
                Ok::<Moved<ClientAt>, Error>(
                    Moved::Send {
                        at: ClientAt::Keyed { k_mpint: mpint(x25519_shared(here, q_s@)@), hash },
                        messages: seq![seq![21u8]],
                    },
                )
            } else {
                Err(Error::HostSignature)
            }
        }),
{
    reveal(client_step);
    let parts = Transcript {
        v_c,
        v_s,
        i_c,
        i_s,
        k_s,
        q_c: x25519_public(here)@,
        q_s: q_s@,
        k_mpint: mpint(x25519_shared(here, q_s@)@),
    };
    lemma_blob_is_told(k_s, public@);
    lemma_blob_is_told(signature, made@);
    lemma_transcript_is_told(parts, transcript);
    law_the_exchange_field_by_field(Seq::empty(), k_s, q_s@, signature);
    law_the_fields_tell_the_message(
        reply,
        reply_message(k_s, q_s@, signature),
        fields(Field::Byte(31))
            .push(Field::Text(k_s))
            .push(Field::Text(q_s@))
            .push(Field::Text(signature)),
    );
    law_the_exchange_reads_back(q_s, k_s, signature);
    lemma_verdict_is_the_signature(public, made, sha256(transcript)@);
}

proof fn lemma_blob_is_told(held: Seq<u8>, bytes: Seq<u8>)
    requires
        bytes.len() <= 64,
        reads(
            held,
            fields(Field::Text(encode_utf8("ssh-ed25519"@))).push(Field::Text(bytes)),
        ),
    ensures
        held == blob(bytes),
        held.len() <= u32::MAX,
{
    law_a_blob_field_by_field(bytes);
    law_the_fields_tell_the_message(
        held,
        blob(bytes),
        fields(Field::Text(encode_utf8("ssh-ed25519"@))).push(Field::Text(bytes)),
    );
    lemma_blob_length(bytes);
}

proof fn lemma_transcript_is_told(parts: Transcript, transcript: Seq<u8>)
    requires
        parts.countable(),
        reads(
            transcript,
            fields(Field::Text(encode_utf8(parts.v_c)))
                .push(Field::Text(encode_utf8(parts.v_s)))
                .push(Field::Text(parts.i_c))
                .push(Field::Text(parts.i_s))
                .push(Field::Text(parts.k_s))
                .push(Field::Text(parts.q_c))
                .push(Field::Text(parts.q_s))
                .push(Field::Raw(parts.k_mpint)),
        ),
    ensures
        transcript == parts.bytes(),
{
    law_the_transcript_field_by_field(parts);
    law_the_fields_tell_the_message(
        transcript,
        parts.bytes(),
        fields(Field::Text(encode_utf8(parts.v_c)))
            .push(Field::Text(encode_utf8(parts.v_s)))
            .push(Field::Text(parts.i_c))
            .push(Field::Text(parts.i_s))
            .push(Field::Text(parts.k_s))
            .push(Field::Text(parts.q_c))
            .push(Field::Text(parts.q_s))
            .push(Field::Raw(parts.k_mpint)),
    );
}

/// A host key that is a point of the curve is believed by its signature alone.
proof fn lemma_verdict_is_the_signature(public: [u8; 32], made: [u8; 64], hash: Seq<u8>)
    requires
        ed25519_point(public@),
    ensures
        host_verdict(blob(public@), blob(made@), hash) == if ed25519_holds(public@, hash, made@) {
            Ok::<(), Error>(())
        } else {
            Err(Error::HostSignature)
        },
{
    law_a_blob_reads_back(public@, host_faults().kind, Seq::empty());
    law_a_blob_reads_back(made@, Error::SignatureKind, Seq::empty());
    assert(blob(public@) + Seq::<u8>::empty() =~= blob(public@));
    assert(blob(made@) + Seq::<u8>::empty() =~= blob(made@));
}

/// The server's half answers: to a public key in message 30 go out message 31, with its host key,
/// its own public key and its signature over the hash of the whole exchange, and message 21. The
/// hash is over the same pieces, in the same order, as the client's.
pub proof fn law_the_server_signs_the_exchange(
    v_c: Seq<char>,
    v_s: Seq<char>,
    i_c: Seq<u8>,
    i_s: Seq<u8>,
    host: Seq<u8>,
    there: Seq<u8>,
    q_c: [u8; 32],
    init: Seq<u8>,
    k_s: Seq<u8>,
    transcript: Seq<u8>,
    signature: Seq<u8>,
)
    requires
        encode_utf8(v_c).len() <= u32::MAX && encode_utf8(v_s).len() <= u32::MAX,
        i_c.len() <= u32::MAX && i_s.len() <= u32::MAX,
        reads(init, fields(Field::Byte(30)).push(Field::Text(q_c@))),
        reads(
            k_s,
            fields(Field::Text(encode_utf8("ssh-ed25519"@)))
                .push(Field::Text(ed25519_public(host)@)),
        ),
        reads(
            transcript,
            fields(Field::Text(encode_utf8(v_c)))
                .push(Field::Text(encode_utf8(v_s)))
                .push(Field::Text(i_c))
                .push(Field::Text(i_s))
                .push(Field::Text(k_s))
                .push(Field::Text(q_c@))
                .push(Field::Text(x25519_public(there)@))
                .push(Field::Raw(mpint(x25519_shared(there, q_c@)@))),
        ),
        reads(
            signature,
            fields(Field::Text(encode_utf8("ssh-ed25519"@)))
                .push(Field::Text(ed25519_signature(host, sha256(transcript)@)@)),
        ),
    ensures
        ({
            let at = ServerAt::Agreed { v_c, v_s, i_c, i_s };
            server_step(at, init, host, there) matches Ok(Moved::Send { at: then, messages }) && {
                &&& then == (ServerAt::Keyed {
                    k_mpint: mpint(x25519_shared(there, q_c@)@),
                    hash: sha256(transcript)@,
                })
                &&& messages.len() == 2
                &&& reads(
                    messages[0],
                    fields(Field::Byte(31))
                        .push(Field::Text(k_s))
                        .push(Field::Text(x25519_public(there)@))
                        .push(Field::Text(signature)),
                )
                &&& messages[1] == seq![21u8]
            }
        }),
{
    let public = ed25519_public(host)@;
    let parts = Transcript {
        v_c,
        v_s,
        i_c,
        i_s,
        k_s,
        q_c: q_c@,
        q_s: x25519_public(there)@,
        k_mpint: mpint(x25519_shared(there, q_c@)@),
    };
    assert(k_s == blob(public) && k_s.len() <= u32::MAX) by {
        lemma_blob_is_told(k_s, public);
    }
    assert(transcript == parts.bytes()) by {
        lemma_transcript_is_told(parts, transcript);
    }
    assert(signature == blob(ed25519_signature(host, parts.hash())@) && signature.len()
        <= u32::MAX) by {
        lemma_blob_is_told(signature, ed25519_signature(host, sha256(transcript)@)@);
    }
    assert(init == init_message(q_c@)) by {
        law_the_exchange_field_by_field(q_c@, k_s, x25519_public(there)@, signature);
        law_the_fields_tell_the_message(
            init,
            init_message(q_c@),
            fields(Field::Byte(30)).push(Field::Text(q_c@)),
        );
    }
    lemma_server_signs(parts, host, q_c, there);
    law_the_exchange_field_by_field(q_c@, k_s, x25519_public(there)@, signature);
}

proof fn lemma_server_signs(parts: Transcript, host: Seq<u8>, q_c: [u8; 32], there: Seq<u8>)
    requires
        parts.k_s == blob(ed25519_public(host)@),
        parts.q_c == q_c@,
        parts.q_s == x25519_public(there)@,
        parts.k_mpint == mpint(x25519_shared(there, q_c@)@),
    ensures
        server_step(
            ServerAt::Agreed { v_c: parts.v_c, v_s: parts.v_s, i_c: parts.i_c, i_s: parts.i_s },
            init_message(q_c@),
            host,
            there,
        ) == Ok::<Moved<ServerAt>, Error>(
            Moved::Send {
                at: ServerAt::Keyed { k_mpint: parts.k_mpint, hash: parts.hash() },
                messages: seq![
                    reply_message(
                        parts.k_s,
                        parts.q_s,
                        blob(ed25519_signature(host, parts.hash())@),
                    ),
                    seq![21u8],
                ],
            },
        ),
{
    reveal(server_step);
    law_the_exchange_reads_back(q_c, Seq::empty(), Seq::empty());
}

/// The server's half begins by keeping the client's offer as it came, to the byte, and answers
/// nothing yet. Where message 30 carries no key of thirty-two bytes it is given up.
pub proof fn law_the_server_keeps_the_offer(
    v_c: Seq<char>,
    v_s: Seq<char>,
    i_s: Seq<u8>,
    message: Seq<u8>,
    host: Seq<u8>,
    there: Seq<u8>,
)
    ensures
        ({
            let came = server_step(ServerAt::Offered { v_c, v_s, i_s }, message, host, there);
            &&& came is Ok <==> message.len() > 0 && message[0] == 20
            &&& came is Ok ==> came == Ok::<Moved<ServerAt>, Error>(
                Moved::Send {
                    at: ServerAt::Agreed { v_c, v_s, i_c: message, i_s },
                    messages: Seq::empty(),
                },
            )
        }),
{
    reveal(server_step);
}

/// Both halves switch on message 21, and on nothing else: the session is the exchange hash; what
/// goes from client to server is under the keys of that direction, at the client what goes out and
/// at the server what comes in, and what goes back under the keys of the other.
pub proof fn law_the_directions_of_the_keys(
    k_mpint: Seq<u8>,
    hash: Seq<u8>,
    message: Seq<u8>,
    host: Seq<u8>,
    secret: Seq<u8>,
)
    ensures
        ({
            let out = Sealing::Suite(suite_keys(k_mpint, hash, hash, true));
            let back = Sealing::Suite(suite_keys(k_mpint, hash, hash, false));
            let near = client_step(ClientAt::Keyed { k_mpint, hash }, message, secret);
            let far = server_step(ServerAt::Keyed { k_mpint, hash }, message, host, secret);
            &&& near is Ok <==> message.len() > 0 && message[0] == 21
            &&& far is Ok <==> message.len() > 0 && message[0] == 21
            &&& near is Ok ==> near == Ok::<Moved<ClientAt>, Error>(
                Moved::Done { session_id: hash, tx: out, rx: back },
            )
            &&& far is Ok ==> far == Ok::<Moved<ServerAt>, Error>(
                Moved::Done { session_id: hash, tx: back, rx: out },
            )
        }),
{
    reveal(client_step);
    reveal(server_step);
}

/// What a turn of either half holds is what the half moved to: the stage, the messages in their
/// order, and at the end the session and the ciphers, outgoing and incoming.
pub proof fn law_a_turn_is_what_was_moved_to(
    near: ClientTurn,
    moved: Moved<ClientAt>,
    far: ServerTurn,
    went: Moved<ServerAt>,
)
    requires
        near.takes(moved),
        far.takes(went),
    ensures
        match moved {
            Moved::Send { at, messages } => near matches ClientTurn::Send { stage, message }
                && stage@ == at && messages.len() == 1 && messages[0] == message@,
            Moved::Done { session_id, tx, rx } => near matches ClientTurn::Done {
                exchanged,
                tx: out,
                rx: back,
            } && exchanged.session_id@ == session_id && out@ == tx && back@ == rx,
        },
        match went {
            Moved::Send { at, messages } => far matches ServerTurn::Send { stage, sent } && stage@
                == at && sent@.len() == messages.len() && forall|i: int|
                0 <= i < messages.len() ==> #[trigger] sent@[i]@ == messages[i],
            Moved::Done { session_id, tx, rx } => far matches ServerTurn::Done {
                exchanged,
                tx: out,
                rx: back,
            } && exchanged.session_id@ == session_id && out@ == tx && back@ == rx,
        },
{
    if let Moved::Send { messages: due, .. } = moved {
        assert(due[0] == seq![near->message@][0]);
    }
    if let Moved::Send { messages: due, .. } = went {
        assert(messages(far->sent@) == due);
        assert forall|i: int| 0 <= i < due.len() implies #[trigger] far->sent@[i]@ == due[i] by {
            assert(messages(far->sent@)[i] == far->sent@[i]@);
        }
    }
}

/// The pieces of the exchange hash are each what they are called, and a hash is of all of them.
pub proof fn law_the_pieces_are_what_they_are_called(parts: HashParts<'_>)
    ensures
        parts@.v_c == parts.v_c@ && parts@.v_s == parts.v_s@,
        parts@.i_c == parts.i_c@ && parts@.i_s == parts.i_s@,
        parts@.k_s == parts.k_s@,
        parts@.q_c == parts.q_c@ && parts@.q_s == parts.q_s@,
        parts@.k_mpint == parts.k_mpint@,
        parts@.hash() == sha256(parts@.bytes())@,
{
}

/// What is said of a host key, and of a signature that does not hold against one.
pub proof fn law_what_is_said_of_a_host(k_s: Seq<u8>, signature: Seq<u8>, hash: Seq<u8>)
    ensures
        host_verdict(k_s, signature, hash) == verdict(
            k_s,
            signature,
            hash,
            KeyFaults {
                kind: Error::HostKeyKind,
                size: Error::HostKeySize,
                point: Error::HostKeyPoint,
            },
            Error::HostSignature,
        ),
{
}

/// A public key of another size than thirty-two bytes is refused at either end, where it is read:
/// before anything is hashed.
pub proof fn law_a_key_of_another_size_is_refused(
    at: (ClientAt, ServerAt),
    q: Seq<u8>,
    k_s: Seq<u8>,
    signature: Seq<u8>,
    host: Seq<u8>,
    secret: Seq<u8>,
)
    requires
        at.0 is Sent && at.1 is Agreed,
        q.len() != 32,
        q.len() <= u32::MAX && k_s.len() <= u32::MAX && signature.len() <= u32::MAX,
    ensures
        client_step(at.0, seq![31u8] + string(k_s) + string(q) + string(signature), secret)
            == Err::<Moved<ClientAt>, Error>(Error::ServerEphemeralSize),
        server_step(at.1, seq![30u8] + string(q), host, secret) == Err::<Moved<ServerAt>, Error>(
            Error::ClientEphemeralSize,
        ),
{
    let reply = seq![31u8] + string(k_s) + string(q) + string(signature);
    let init = seq![30u8] + string(q);
    assert(reply_in(reply) == Err::<(Seq<u8>, Seq<u8>, Seq<u8>), Error>(
        Error::ServerEphemeralSize,
    )) by {
        assert(reply.skip(1) =~= string(k_s) + (string(q) + string(signature)));
        assert(string(signature) + Seq::<u8>::empty() =~= string(signature));
        law_string_reads_back(k_s, string(q) + string(signature));
        law_string_reads_back(q, string(signature));
        law_string_reads_back(signature, Seq::empty());
    }
    assert(init_in(init) == Err::<Seq<u8>, Error>(Error::ClientEphemeralSize)) by {
        assert(init.skip(1) =~= string(q) + Seq::<u8>::empty());
        law_string_reads_back(q, Seq::empty());
    }
    reveal(client_step);
    reveal(server_step);
}

/// A message of the exchange that is cut short of its fields is refused, and so is another message,
/// by the number that was due. Ephemeral keys have thirty-two bytes.
pub proof fn law_what_the_exchange_has_to_hold(message: Seq<u8>)
    ensures
        init_in(message) is Ok <==> {
            &&& message.len() > 0 && message[0] == 30
            &&& take_string(message.skip(1)) matches Some((q_c, _))
            &&& q_c.len() == 32
        },
        init_in(message) matches Ok(q_c) ==> (take_string(message.skip(1)) matches Some((held, _))
            && held == q_c),
        init_in(message) matches Err(error) ==> error is ClientEphemeralSize || error is Truncated
            || due(message, 30, "the client's ephemeral key") == Err::<(), Error>(error),
        reply_in(message) is Ok <==> {
            &&& message.len() > 0 && message[0] == 31
            &&& take_string(message.skip(1)) matches Some((_, rest))
            &&& take_string(rest) matches Some((q_s, last))
            &&& take_string(last) is Some
            &&& q_s.len() == 32
        },
        reply_in(message) matches Err(error) ==> error is ServerEphemeralSize || error is Truncated
            || due(message, 31, "the server's key-exchange reply") == Err::<(), Error>(error),
{
}

/// What is said of a message of the exchange that is not the one that was due, at either end.
pub proof fn law_what_is_due_in_the_exchange(
    here: ClientAt,
    there: ServerAt,
    message: Seq<u8>,
    host: Seq<u8>,
    secret: Seq<u8>,
)
    ensures
        match here {
            ClientAt::Offered { .. } => due(message, 20, "the server's key-exchange offer")
                matches Err(error) ==> client_step(here, message, secret) == Err::<
                Moved<ClientAt>,
                Error,
            >(error),
            ClientAt::Sent { .. } => reply_in(message) matches Err(error) ==> client_step(
                here,
                message,
                secret,
            ) == Err::<Moved<ClientAt>, Error>(error),
            ClientAt::Keyed { .. } => due(message, 21, "the server's new keys") matches Err(error)
                ==> client_step(here, message, secret) == Err::<Moved<ClientAt>, Error>(error),
        },
        match there {
            ServerAt::Offered { .. } => due(message, 20, "the client's key-exchange offer")
                matches Err(error) ==> server_step(there, message, host, secret) == Err::<
                Moved<ServerAt>,
                Error,
            >(error),
            ServerAt::Agreed { .. } => init_in(message) matches Err(error) ==> server_step(
                there,
                message,
                host,
                secret,
            ) == Err::<Moved<ServerAt>, Error>(error),
            ServerAt::Keyed { .. } => due(message, 21, "the client's new keys") matches Err(error)
                ==> server_step(there, message, host, secret) == Err::<Moved<ServerAt>, Error>(
                error,
            ),
        },
{
    reveal(client_step);
    reveal(server_step);
}

/// A client that got a reply goes on only with the key, the ephemeral key and the signature that
/// stand in it, in that order, and where the host is believed; what is wrong with them is said.
pub proof fn law_a_reply_is_judged_as_it_stands(
    v_c: Seq<char>,
    v_s: Seq<char>,
    i_c: Seq<u8>,
    i_s: Seq<u8>,
    here: Seq<u8>,
    message: Seq<u8>,
    other: Seq<u8>,
)
    requires
        reply_in(message) is Ok,
    ensures
        ({
            let came = client_step(ClientAt::Sent { v_c, v_s, i_c, i_s, secret: here }, message, other);
            &&& take_string(message.skip(1)) matches Some((k_s, rest))
            &&& take_string(rest) matches Some((q_s, last))
            &&& take_string(last) matches Some((signature, _))
            &&& ({
                let k_mpint = mpint(x25519_shared(here, q_s)@);
                let q_c = x25519_public(here)@;
                let parts = Transcript { v_c, v_s, i_c, i_s, k_s, q_c, q_s, k_mpint };
                match host_verdict(k_s, signature, parts.hash()) {
                    Ok(_) => came is Ok,
                    Err(error) => came == Err::<Moved<ClientAt>, Error>(error),
                }
            })
        }),
{
    reveal(client_step);
}

} // verus!
