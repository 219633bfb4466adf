//! User authentication over the exchanged keys (RFC 4252): the client asks for the
//! `ssh-connection` service by a password or by a public key, and the server admits it and
//! remembers who it was.
//!
//! A public-key authentication signs the session identifier and the request, so what the server
//! keeps (the key's fingerprint, the signature and the session identifier) is what an identity
//! gate needs to present the peer. A password authentication keeps only the name.

use vstd::prelude::*;
use vstd::slice::slice_to_vec;
use vstd::string::*;
use vstd::utf8::encode_utf8;

use crate::channel::lemma_regrouped;
use crate::crypto::{
    digest, ed25519_holds, ed25519_point, ed25519_public, ed25519_signature, sha256,
};
use crate::error::Error;
use crate::kex::{host_key_blob, signature_blob, HOST_KEY, SERVICE_ACCEPT, SERVICE_REQUEST};
use crate::keys::{
    blob, judge, law_a_blob_reads_back, law_a_good_signature_is_accepted, lemma_blob_length, verdict,
    KeyFaults, SigningKey,
};
use crate::layout::{
    fields, law_a_blob_field_by_field, law_a_public_key_field_by_field,
    law_the_fields_tell_the_message, law_the_service_field_by_field, reads, Field,
};
use crate::packet::{due, insist};
use crate::text::{law_encoding_is_short, law_text_reads_back, text_of, utf8_text};
use crate::wire::{
    boolean, law_bool_reads_back, law_string_reads_back, same_bytes, string, take_bool,
    take_string, Reader, Writer,
};

verus! {

/// The message that offers a credential.
pub const USERAUTH_REQUEST: u8 = 50;
/// The message that turns one down.
pub const USERAUTH_FAILURE: u8 = 51;
/// The message that admits one.
pub const USERAUTH_SUCCESS: u8 = 52;

/// The service that is authenticated for.
pub const CONNECTION: &'static str = "ssh-connection";
/// The service that authenticates.
pub const USERAUTH: &'static str = "ssh-userauth";

/// Who authenticated, and by what, for the arrival to carry.
#[derive(Clone, Debug, PartialEq, Eq)]
pub struct Authenticated {
    /// The user name presented.
    pub user: String,
    /// The public key's fingerprint, `SHA256:<base64>`, where a key was presented rather than a
    /// password.
    pub fingerprint: Option<String>,
    /// The signature the key made, where one was presented.
    pub signature: Option<Vec<u8>>,
}

/// The characters of base64, by the six bits they stand for.
pub const ALPHABET: &'static str = "ABCDEFGHIJKLMNOPQRSTUVWXYZabcdefghijklmnopqrstuvwxyz0123456789+/";

/// The character for six bits.
pub open spec fn sextet(bits: int) -> char {
    ALPHABET@[bits]
}

/// Standard base64 of `bytes`, without padding.
pub open spec fn base64_text(bytes: Seq<u8>) -> Seq<char>
    decreases bytes.len(),
{
    if bytes.len() == 0 {
        Seq::empty()
    } else if bytes.len() == 1 {
        seq![sextet(bytes[0] as int / 4), sextet(bytes[0] as int % 4 * 16)]
    } else if bytes.len() == 2 {
        seq![
            sextet(bytes[0] as int / 4),
            sextet(bytes[0] as int % 4 * 16 + bytes[1] as int / 16),
            sextet(bytes[1] as int % 16 * 4),
        ]
    } else {
        seq![
            sextet(bytes[0] as int / 4),
            sextet(bytes[0] as int % 4 * 16 + bytes[1] as int / 16),
            sextet(bytes[1] as int % 16 * 4 + bytes[2] as int / 64),
            sextet(bytes[2] as int % 64),
        ] + base64_text(bytes.skip(3))
    }
}

/// Append the character for six bits.
fn push_sextet(text: &mut String, bits: u8)
    requires
        bits < 64,
    ensures
        final(text)@ == old(text)@.push(sextet(bits as int)),
{
    proof {
        reveal_strlit("ABCDEFGHIJKLMNOPQRSTUVWXYZabcdefghijklmnopqrstuvwxyz0123456789+/");
    }
    text.push(ALPHABET.get_char(bits as usize));
}

/// Standard base64 without padding, which is what the ssh vocabulary carries.
pub fn base64(bytes: &[u8]) -> (text: String)
    ensures
        text@ == base64_text(bytes@),
{
    let mut out = String::new();
    let mut at: usize = 0;
    let ghost all = base64_text(bytes@);
    assert(bytes@.skip(0) =~= bytes@);
    assert(out@ + all =~= all);
    while bytes.len() - at >= 3
        invariant
            at <= bytes@.len(),
            all == base64_text(bytes@),
            all == out@ + base64_text(bytes@.skip(at as int)),
        decreases bytes@.len() - at,
    {
        let ghost had = out@;
        let ghost rest = bytes@.skip(at as int);
        let (a, b, c): (u8, u8, u8) = (bytes[at], bytes[at + 1], bytes[at + 2]);
        push_sextet(&mut out, a / 4);
        push_sextet(&mut out, a % 4 * 16 + b / 16);
        push_sextet(&mut out, b % 16 * 4 + c / 64);
        push_sextet(&mut out, c % 64);
        proof {
            assert(rest[0] == a && rest[1] == b && rest[2] == c);
            assert(rest.skip(3) =~= bytes@.skip(at + 3));
            assert(out@ + base64_text(bytes@.skip(at + 3)) =~= had + base64_text(rest));
        }
        at += 3;
    }
    let ghost rest = bytes@.skip(at as int);
    let ghost had = out@;
    if bytes.len() - at == 2 {
        let (a, b): (u8, u8) = (bytes[at], bytes[at + 1]);
        push_sextet(&mut out, a / 4);
        push_sextet(&mut out, a % 4 * 16 + b / 16);
        push_sextet(&mut out, b % 16 * 4);
        assert(rest[0] == a && rest[1] == b);
    } else if bytes.len() - at == 1 {
        let a = bytes[at];
        push_sextet(&mut out, a / 4);
        push_sextet(&mut out, a % 4 * 16);
        assert(rest[0] == a);
    }
    assert(out@ =~= had + base64_text(rest));
    out
}

/// The view of who authenticated.
pub ghost struct Who {
    pub user: Seq<char>,
    pub fingerprint: Option<Seq<char>>,
    pub signature: Option<Seq<u8>>,
}

impl View for Authenticated {
    type V = Who;

    open spec fn view(&self) -> Who {
        Who {
            user: self.user@,
            fingerprint: match self.fingerprint {
                Some(text) => Some(text@),
                None => None,
            },
            signature: match self.signature {
                Some(bytes) => Some(bytes@),
                None => None,
            },
        }
    }
}

/// The message that asks for the authentication service, or grants it.
pub open spec fn service_message(number: u8) -> Seq<u8> {
    seq![number] + string(encode_utf8(USERAUTH@))
}

fn service(number: u8) -> (message: Vec<u8>)
    ensures
        message@ == service_message(number),
{
    let mut writer = Writer::new();
    writer.byte(number).string(USERAUTH.as_bytes());
    let message = writer.finish();
    assert(message@ =~= service_message(number));
    message
}

/// Ask the server for the `ssh-userauth` service: the message to send.
pub fn request_service() -> (message: Vec<u8>)
    ensures
        message@ == service_message(SERVICE_REQUEST),
{
    service(SERVICE_REQUEST)
}

/// What is to be said of a message where the service named in it is to be the authentication
/// service, `other` where it is not.
pub open spec fn names_service(
    message: Seq<u8>,
    number: u8,
    what: &'static str,
    other: Error,
) -> Result<(), Error> {
    match due(message, number, what) {
        Err(error) => Err(error),
        Ok(_) => match take_string(message.skip(1)) {
            None => Err(Error::Truncated),
            Some((name, _)) => if name == encode_utf8(USERAUTH@) {
                Ok(())
            } else {
                Err(other)
            },
        },
    }
}

fn expect_service(message: &[u8], number: u8, what: &'static str, other: Error) -> (outcome: Result<
    (),
    Error,
>)
    ensures
        outcome == names_service(message@, number, what, other),
{
    insist(message, number, what)?;
    let mut reader = Reader::new(&message[1..message.len()]);
    assert(reader@ =~= message@.skip(1));
    if same_bytes(reader.string()?, USERAUTH.as_bytes()) {
        Ok(())
    } else {
        Err(other)
    }
}

/// Whether the server granted the service that was asked for.
pub fn service_granted(message: &[u8]) -> (outcome: Result<(), Error>)
    ensures
        outcome == names_service(
            message@,
            SERVICE_ACCEPT,
            "the userauth service",
            Error::OtherService,
        ),
{
    expect_service(message, SERVICE_ACCEPT, "the userauth service", Error::OtherService)
}

/// The beginning of every authentication request: the user, the service, the method.
pub open spec fn request_head(user: Seq<char>, method: Seq<char>) -> Seq<u8> {
    seq![USERAUTH_REQUEST] + string(encode_utf8(user)) + string(encode_utf8(CONNECTION@)) + string(
        encode_utf8(method),
    )
}

/// The request by a password.
pub open spec fn password_message(user: Seq<char>, secret: Seq<char>) -> Seq<u8> {
    request_head(user, "password"@) + boolean(false) + string(encode_utf8(secret))
}

/// The request by a public key, `key` and `signature` in their blobs.
pub open spec fn public_key_message(user: Seq<char>, key: Seq<u8>, signature: Seq<u8>) -> Seq<u8> {
    request_head(user, "publickey"@) + boolean(true) + string(encode_utf8(HOST_KEY@)) + string(key)
        + string(signature)
}

/// Authenticate as `user` with a password: the message to send.
pub fn password(user: &str, secret: &str) -> (message: Vec<u8>)
    ensures
        message@ == password_message(user@, secret@),
{
    let mut request = Writer::new();
    request.byte(USERAUTH_REQUEST).string(user.as_bytes()).string(CONNECTION.as_bytes()).string(
        "password".as_bytes(),
    ).bool(false).string(secret.as_bytes());
    let message = request.finish();
    assert(message@ =~= password_message(user@, secret@));
    message
}

/// Authenticate as `user` with `key`, signing over `session_id`: the message to send.
pub fn public_key(user: &str, key: &SigningKey, session_id: &[u8]) -> (message: Vec<u8>)
    ensures
        message@ == own_key_message(user@, key@, session_id@),
        ed25519_point(ed25519_public(key@)@),
        ed25519_holds(
            ed25519_public(key@)@,
            signed_bytes(session_id@, user@, blob(ed25519_public(key@)@)),
            ed25519_signature(
                key@,
                signed_bytes(session_id@, user@, blob(ed25519_public(key@)@)),
            )@,
        ),
{
    let held = host_key_blob(&key.verifying_key());
    let signed = signed_data(session_id, user, &held);
    let signature = signature_blob(&key.sign(&signed));
    let mut request = Writer::new();
    request.byte(USERAUTH_REQUEST).string(user.as_bytes()).string(CONNECTION.as_bytes()).string(
        "publickey".as_bytes(),
    ).bool(true).string(HOST_KEY.as_bytes()).string(&held).string(&signature);
    let message = request.finish();
    assert(message@ =~= public_key_message(user@, held@, signature@));
    message
}

/// The request by the public key that goes with the seed `key`.
pub open spec fn own_key_message(user: Seq<char>, key: Seq<u8>, session_id: Seq<u8>) -> Seq<u8> {
    let held = blob(ed25519_public(key)@);
    public_key_message(
        user,
        held,
        blob(ed25519_signature(key, signed_bytes(session_id, user, held))@),
    )
}

/// Whether the server's answer admits the credential.
pub open spec fn answer_in(message: Seq<u8>) -> Result<(), Error> {
    if message.len() > 0 && message[0] == USERAUTH_SUCCESS {
        Ok(())
    } else if message.len() > 0 && message[0] == USERAUTH_FAILURE {
        Err(Error::CredentialRefused)
    } else {
        Err(Error::NoAuthAnswer)
    }
}

/// Whether the server admitted the credential.
pub fn admitted(message: &[u8]) -> (outcome: Result<(), Error>)
    ensures
        outcome == answer_in(message@),
{
    if message.len() > 0 && message[0] == USERAUTH_SUCCESS {
        Ok(())
    } else if message.len() > 0 && message[0] == USERAUTH_FAILURE {
        Err(Error::CredentialRefused)
    } else {
        Err(Error::NoAuthAnswer)
    }
}

/// What a credential comes to: who it names, or nobody where the client may try again.
#[verifier::opaque]
pub open spec fn admission(message: Seq<u8>, session_id: Seq<u8>) -> Result<Option<Who>, Error> {
    match take_string(message.skip(1)) {
        None => Err(Error::Truncated),
        Some((name, rest)) => match text_of(name) {
            None => Err(Error::UserNotUtf8),
            Some(user) => match take_string(rest) {
                None => Err(Error::Truncated),
                Some((_, rest)) => match take_string(rest) {
                    None => Err(Error::Truncated),
                    Some((method, rest)) => if method == encode_utf8("password"@) {
                        password_admission(user, rest)
                    } else if method == encode_utf8("publickey"@) {
                        key_admission(user, rest, session_id)
                    } else {
                        Ok(None)
                    },
                },
            },
        },
    }
}

/// What a password comes to: every one is admitted, and only the name is kept.
pub open spec fn password_admission(user: Seq<char>, rest: Seq<u8>) -> Result<Option<Who>, Error> {
    match take_bool(rest) {
        None => Err(Error::Truncated),
        Some((_, rest)) => match take_string(rest) {
            None => Err(Error::Truncated),
            Some(_) => Ok(Some(Who { user, fingerprint: None, signature: None })),
        },
    }
}

/// What a public key comes to: with a signature over the session and the request that holds, its
/// fingerprint and the signature are kept; without a signature, the client may try again.
#[verifier::opaque]
pub open spec fn key_admission(user: Seq<char>, rest: Seq<u8>, session_id: Seq<u8>) -> Result<
    Option<Who>,
    Error,
> {
    match take_bool(rest) {
        None => Err(Error::Truncated),
        Some((signed, rest)) => if !signed {
            Ok(None)
        } else {
            match take_string(rest) {
                None => Err(Error::Truncated),
                Some((_, rest)) => match take_string(rest) {
                    None => Err(Error::Truncated),
                    Some((key, rest)) => match take_string(rest) {
                        None => Err(Error::Truncated),
                        Some((signature, _)) => match key_verdict(
                            session_id,
                            user,
                            key,
                            signature,
                        ) {
                            Err(error) => Err(error),
                            Ok(_) => Ok(
                                Some(
                                    Who {
                                        user,
                                        fingerprint: Some(print_of(key)),
                                        signature: Some(signature),
                                    },
                                ),
                            ),
                        },
                    },
                },
            }
        },
    }
}

/// Whether a request is a credential this far end admits, and who it names; nobody where the
/// method is one it lets the client try again after. The first byte is the message number.
pub fn admits(message: &[u8], session_id: &[u8]) -> (who: Result<Option<Authenticated>, Error>)
    requires
        message@.len() > 0,
    ensures
        match admission(message@, session_id@) {
            Ok(Some(named)) => who matches Ok(Some(made)) && made@ == named,
            Ok(None) => who is Ok && who->Ok_0 is None,
            Err(error) => who == Err::<Option<Authenticated>, Error>(error),
        },
{
    reveal(admission);
    reveal(key_admission);
    let mut reader = Reader::new(&message[1..message.len()]);
    assert(reader@ =~= message@.skip(1));
    let user = utf8(reader.string()?)?;
    let _service = reader.string()?;
    let method = reader.string()?;
    if same_bytes(method, "password".as_bytes()) {
        let _has = reader.bool()?;
        let _secret = reader.string()?;
        Ok(Some(Authenticated { user, fingerprint: None, signature: None }))
    } else if same_bytes(method, "publickey".as_bytes()) {
        let signed = reader.bool()?;
        if !signed {
            return Ok(None);
        }
        let _algorithm = reader.string()?;
        let key = reader.string()?;
        let signature = reader.string()?;
        verify_public_key(session_id, user.as_str(), key, signature)?;
        Ok(
            Some(
                Authenticated {
                    user,
                    fingerprint: Some(fingerprint(key)),
                    signature: Some(slice_to_vec(signature)),
                },
            ),
        )
    } else {
        Ok(None)
    }
}

/// What is said of a public key that is none.
pub open spec fn public_key_faults() -> KeyFaults {
    KeyFaults {
        kind: Error::PublicKeyKind,
        size: Error::PublicKeySize,
        point: Error::PublicKeyPoint,
    }
}

/// What a public-key request's signature is worth.
pub open spec fn key_verdict(
    session_id: Seq<u8>,
    user: Seq<char>,
    key: Seq<u8>,
    signature: Seq<u8>,
) -> Result<(), Error> {
    verdict(
        key,
        signature,
        signed_bytes(session_id, user, key),
        public_key_faults(),
        Error::PublicKeySignature,
    )
}

/// Verify a public-key request's signature over the session and the request.
pub fn verify_public_key(session_id: &[u8], user: &str, key: &[u8], sig_blob: &[u8]) -> (outcome:
    Result<(), Error>)
    ensures
        outcome == key_verdict(session_id@, user@, key@, sig_blob@),
{
    let faults = KeyFaults {
        kind: Error::PublicKeyKind,
        size: Error::PublicKeySize,
        point: Error::PublicKeyPoint,
    };
    judge(key, sig_blob, &signed_data(session_id, user, key), faults, Error::PublicKeySignature)
}

/// The bytes a public-key authentication signs (RFC 4252 section 7): the session identifier,
/// then the request up to and including the key blob.
pub open spec fn signed_bytes(session_id: Seq<u8>, user: Seq<char>, key: Seq<u8>) -> Seq<u8> {
    string(session_id) + request_head(user, "publickey"@) + boolean(true) + string(
        encode_utf8(HOST_KEY@),
    ) + string(key)
}

/// The bytes a public-key authentication signs.
pub fn signed_data(session_id: &[u8], user: &str, key: &[u8]) -> (bytes: Vec<u8>)
    ensures
        bytes@ == signed_bytes(session_id@, user@, key@),
{
    let mut writer = Writer::new();
    writer.string(session_id).byte(USERAUTH_REQUEST).string(user.as_bytes()).string(
        CONNECTION.as_bytes(),
    ).string("publickey".as_bytes()).bool(true).string(HOST_KEY.as_bytes()).string(key);
    let bytes = writer.finish();
    assert(bytes@ =~= signed_bytes(session_id@, user@, key@));
    bytes
}

/// The fingerprint of a key blob.
pub open spec fn print_of(key: Seq<u8>) -> Seq<char> {
    "SHA256:"@ + base64_text(sha256(key)@)
}

/// The OpenSSH fingerprint of a key blob: `SHA256:` and the base64 of the SHA-256 digest, no
/// padding.
pub fn fingerprint(key: &[u8]) -> (text: String)
    ensures
        text@ == print_of(key@),
{
    let mut text = "SHA256:".to_string();
    text.append(base64(&digest(key)).as_str());
    text
}

/// A user name as text.
pub fn utf8(bytes: &[u8]) -> (text: Result<String, Error>)
    ensures
        match text_of(bytes@) {
            Some(made) => text is Ok && text->Ok_0@ == made,
            None => text == Err::<String, Error>(Error::UserNotUtf8),
        },
{
    match utf8_text(bytes) {
        Some(text) => Ok(text),
        None => Err(Error::UserNotUtf8),
    }
}

/// How far serving an authentication has come.
#[derive(Clone, Copy)]
pub enum ServeStage {
    /// The request for the service is due.
    Listening,
    /// The service is granted, a credential due.
    Granted,
}

/// What a message does to the serving of an authentication.
pub enum ServeTurn {
    /// Send this, and await the next message.
    Send { stage: ServeStage, message: Vec<u8> },
    /// Send this; the client is admitted.
    Admitted { who: Authenticated, message: Vec<u8> },
}

/// The message that turns a credential down, with the methods that may be tried.
pub open spec fn failure_message() -> Seq<u8> {
    seq![USERAUTH_FAILURE] + string(encode_utf8("publickey,password"@)) + boolean(false)
}

/// What a message does to the serving of an authentication.
pub ghost enum Serving {
    Send { stage: ServeStage, message: Seq<u8> },
    Admitted { who: Who, message: Seq<u8> },
}

/// What a message does to the serving of an authentication, `session_id` already settled.
pub open spec fn serve_step(stage: ServeStage, message: Seq<u8>, session_id: Seq<u8>) -> Result<
    Serving,
    Error,
> {
    match stage {
        ServeStage::Listening => match names_service(
            message,
            SERVICE_REQUEST,
            "a service request",
            Error::NotUserauth,
        ) {
            Err(error) => Err(error),
            Ok(_) => Ok(
                Serving::Send {
                    stage: ServeStage::Granted,
                    message: service_message(SERVICE_ACCEPT),
                },
            ),
        },
        ServeStage::Granted => match due(message, USERAUTH_REQUEST, "an authentication request") {
            Err(error) => Err(error),
            Ok(_) => match admission(message, session_id) {
                Err(error) => Err(error),
                Ok(Some(who)) => Ok(Serving::Admitted { who, message: seq![USERAUTH_SUCCESS] }),
                Ok(None) => Ok(
                    Serving::Send { stage: ServeStage::Granted, message: failure_message() },
                ),
            },
        },
    }
}

impl ServeTurn {
    /// Whether this is the turn that `serving` describes.
    pub open spec fn takes(self, serving: Serving) -> bool {
        match serving {
            Serving::Send { stage, message } => self is Send && self->stage == stage
                && self->Send_message@ == message,
            Serving::Admitted { who, message } => self is Admitted && self->who@ == who
                && self->Admitted_message@ == message,
        }
    }
}

/// Serve one authentication, `session_id` already settled, and report who it was: what the
/// message that was due brings about. The first well-formed credential is admitted: the far end
/// is a counterparty, not a gatekeeper.
pub fn serve(stage: ServeStage, message: &[u8], session_id: &[u8]) -> (turn: Result<
    ServeTurn,
    Error,
>)
    ensures
        match serve_step(stage, message@, session_id@) {
            Ok(serving) => turn is Ok && turn->Ok_0.takes(serving),
            Err(error) => turn == Err::<ServeTurn, Error>(error),
        },
{
    match stage {
        ServeStage::Listening => {
            expect_service(message, SERVICE_REQUEST, "a service request", Error::NotUserauth)?;
            Ok(ServeTurn::Send { stage: ServeStage::Granted, message: service(SERVICE_ACCEPT) })
        },
        ServeStage::Granted => {
            insist(message, USERAUTH_REQUEST, "an authentication request")?;
            match admits(message, session_id)? {
                Some(who) => {
                    let mut success: Vec<u8> = Vec::new();
                    success.push(USERAUTH_SUCCESS);
                    assert(success@ =~= seq![USERAUTH_SUCCESS]);
                    Ok(ServeTurn::Admitted { who, message: success })
                },
                None => {
                    let mut failure = Writer::new();
                    failure.byte(USERAUTH_FAILURE).string("publickey,password".as_bytes()).bool(
                        false,
                    );
                    let failure = failure.finish();
                    assert(failure@ =~= failure_message());
                    Ok(ServeTurn::Send { stage: ServeStage::Granted, message: failure })
                },
            }
        },
    }
}

/// The server grants the service that the client asks for, and the client takes it as granted.
pub proof fn law_the_service_is_granted(session_id: Seq<u8>)
    ensures
        serve_step(ServeStage::Listening, service_message(SERVICE_REQUEST), session_id) == Ok::<
            Serving,
            Error,
        >(
            Serving::Send {
                stage: ServeStage::Granted,
                message: service_message(SERVICE_ACCEPT),
            },
        ),
        names_service(
            service_message(SERVICE_ACCEPT),
            SERVICE_ACCEPT,
            "the userauth service",
            Error::OtherService,
        ) == Ok::<(), Error>(()),
{
    reveal_strlit("ssh-userauth");
    law_encoding_is_short(USERAUTH@);
    let name = encode_utf8(USERAUTH@);
    law_string_reads_back(name, Seq::empty());
    assert(service_message(SERVICE_REQUEST).skip(1) =~= string(name) + Seq::<u8>::empty());
    assert(service_message(SERVICE_ACCEPT).skip(1) =~= string(name) + Seq::<u8>::empty());
}

/// The two methods are told apart.
proof fn lemma_methods()
    ensures
        encode_utf8("password"@) != encode_utf8("publickey"@),
        encode_utf8("password"@).len() <= u32::MAX,
        encode_utf8("publickey"@).len() <= u32::MAX,
        encode_utf8(CONNECTION@).len() <= u32::MAX,
        encode_utf8(HOST_KEY@).len() <= u32::MAX,
{
    reveal_strlit("password");
    reveal_strlit("publickey");
    reveal_strlit("ssh-connection");
    reveal_strlit("ssh-ed25519");
    law_text_reads_back("password"@);
    law_text_reads_back("publickey"@);
    law_encoding_is_short("password"@);
    law_encoding_is_short("publickey"@);
    law_encoding_is_short(CONNECTION@);
    law_encoding_is_short(HOST_KEY@);
}

/// The head of a request reads back, whatever follows it.
proof fn lemma_head(user: Seq<char>, method: Seq<char>, rest: Seq<u8>, session_id: Seq<u8>)
    requires
        encode_utf8(user).len() <= u32::MAX,
        encode_utf8(method).len() <= u32::MAX,
    ensures
        (request_head(user, method) + rest)[0] == USERAUTH_REQUEST,
        admission(request_head(user, method) + rest, session_id) == if encode_utf8(method)
            == encode_utf8("password"@) {
            password_admission(user, rest)
        } else if encode_utf8(method) == encode_utf8("publickey"@) {
            key_admission(user, rest, session_id)
        } else {
            Ok(None)
        },
{
    reveal(admission);
    lemma_methods();
    let message = request_head(user, method) + rest;
    let name = encode_utf8(user);
    let for_service = encode_utf8(CONNECTION@);
    let by = encode_utf8(method);
    let third = string(by) + rest;
    let second = string(for_service) + third;
    assert(message.skip(1) =~= string(name) + second);
    law_string_reads_back(name, second);
    law_string_reads_back(for_service, third);
    law_string_reads_back(by, rest);
    law_text_reads_back(user);
}

/// A password request is admitted, and keeps the user's name and nothing else.
pub proof fn law_a_password_names_the_user_and_keeps_no_key(
    user: Seq<char>,
    secret: Seq<char>,
    session_id: Seq<u8>,
)
    requires
        encode_utf8(user).len() <= u32::MAX,
        encode_utf8(secret).len() <= u32::MAX,
    ensures
        serve_step(ServeStage::Granted, password_message(user, secret), session_id) == Ok::<
            Serving,
            Error,
        >(
            Serving::Admitted {
                who: Who { user, fingerprint: None, signature: None },
                message: seq![USERAUTH_SUCCESS],
            },
        ),
        answer_in(seq![USERAUTH_SUCCESS]) == Ok::<(), Error>(()),
{
    let told = encode_utf8(secret);
    let rest = boolean(false) + (string(told) + Seq::<u8>::empty());
    lemma_methods();
    lemma_head(user, "password"@, rest, session_id);
    assert(password_message(user, secret) =~= request_head(user, "password"@) + rest);
    law_bool_reads_back(false, string(told) + Seq::<u8>::empty());
    law_string_reads_back(told, Seq::empty());
}

/// What follows the method in a public-key request.
spec fn key_rest(key: Seq<u8>, signature: Seq<u8>) -> Seq<u8> {
    boolean(true) + (string(encode_utf8(HOST_KEY@)) + (string(key) + (string(signature) + Seq::<
        u8,
    >::empty())))
}

/// Who a public-key request names, where its signature holds.
pub open spec fn key_named(
    user: Seq<char>,
    key: Seq<u8>,
    signature: Seq<u8>,
    session_id: Seq<u8>,
) -> Result<Option<Who>, Error> {
    match key_verdict(session_id, user, key, signature) {
        Err(error) => Err(error),
        Ok(_) => Ok(
            Some(Who { user, fingerprint: Some(print_of(key)), signature: Some(signature) }),
        ),
    }
}

proof fn lemma_key_rest(user: Seq<char>, key: Seq<u8>, signature: Seq<u8>, session_id: Seq<u8>)
    requires
        key.len() <= u32::MAX,
        signature.len() <= u32::MAX,
    ensures
        key_admission(user, key_rest(key, signature), session_id) == key_named(
            user,
            key,
            signature,
            session_id,
        ),
{
    reveal(key_admission);
    lemma_methods();
    let algorithm = encode_utf8(HOST_KEY@);
    let fourth = string(signature) + Seq::<u8>::empty();
    let third = string(key) + fourth;
    let second = string(algorithm) + third;
    law_bool_reads_back(true, second);
    law_string_reads_back(algorithm, third);
    law_string_reads_back(key, fourth);
    law_string_reads_back(signature, Seq::empty());
}

/// A public-key request names whom its signature holds for.
pub proof fn law_a_key_request_is_judged_by_its_signature(
    user: Seq<char>,
    key: Seq<u8>,
    signature: Seq<u8>,
    session_id: Seq<u8>,
)
    requires
        encode_utf8(user).len() <= u32::MAX,
        key.len() <= u32::MAX,
        signature.len() <= u32::MAX,
    ensures
        public_key_message(user, key, signature)[0] == USERAUTH_REQUEST,
        admission(public_key_message(user, key, signature), session_id) == key_named(
            user,
            key,
            signature,
            session_id,
        ),
{
    lemma_methods();
    let rest = key_rest(key, signature);
    lemma_head(user, "publickey"@, rest, session_id);
    lemma_key_rest(user, key, signature, session_id);
    assert(public_key_message(user, key, signature) =~= request_head(user, "publickey"@) + rest);
}

/// A public-key request is admitted against its own key, and what is kept is the user's name,
/// the key's fingerprint and the signature. The premises are what the primitives keep: the
/// public key is a point of the curve, and the signature over what is signed holds.
pub proof fn law_a_key_is_admitted_by_its_own_signature(
    user: Seq<char>,
    key: Seq<u8>,
    session_id: Seq<u8>,
)
    requires
        encode_utf8(user).len() <= u32::MAX,
        ed25519_point(ed25519_public(key)@),
        ed25519_holds(
            ed25519_public(key)@,
            signed_bytes(session_id, user, blob(ed25519_public(key)@)),
            ed25519_signature(
                key,
                signed_bytes(session_id, user, blob(ed25519_public(key)@)),
            )@,
        ),
    ensures
        ({
            let held = blob(ed25519_public(key)@);
            let signature = blob(
                ed25519_signature(key, signed_bytes(session_id, user, held))@,
            );
            serve_step(ServeStage::Granted, own_key_message(user, key, session_id), session_id)
                == Ok::<Serving, Error>(
                Serving::Admitted {
                    who: Who {
                        user,
                        fingerprint: Some(print_of(held)),
                        signature: Some(signature),
                    },
                    message: seq![USERAUTH_SUCCESS],
                },
            )
        }),
{
    let public = ed25519_public(key);
    let held = blob(public@);
    let signed = signed_bytes(session_id, user, held);
    let signature = ed25519_signature(key, signed);
    lemma_methods();
    lemma_blob_length(public@);
    lemma_blob_length(signature@);
    law_a_key_request_is_judged_by_its_signature(user, held, blob(signature@), session_id);
    law_a_good_signature_is_accepted(
        public,
        signature,
        signed,
        public_key_faults(),
        Error::PublicKeySignature,
    );
}

/// What a public-key authentication signs tells the session, the user and the key: with another
/// session, another user or another key it is something else that is signed.
pub proof fn law_what_is_signed_tells_session_user_and_key(
    a: (Seq<u8>, Seq<char>, Seq<u8>),
    b: (Seq<u8>, Seq<char>, Seq<u8>),
)
    requires
        a.0.len() <= u32::MAX && encode_utf8(a.1).len() <= u32::MAX && a.2.len() <= u32::MAX,
        b.0.len() <= u32::MAX && encode_utf8(b.1).len() <= u32::MAX && b.2.len() <= u32::MAX,
        signed_bytes(a.0, a.1, a.2) == signed_bytes(b.0, b.1, b.2),
    ensures
        a == b,
{
    lemma_methods();
    lemma_signed_parts(a.0, a.1, a.2);
    lemma_signed_parts(b.0, b.1, b.2);
    law_text_reads_back(a.1);
    law_text_reads_back(b.1);
}

/// What is signed, taken apart again.
proof fn lemma_signed_parts(session_id: Seq<u8>, user: Seq<char>, key: Seq<u8>)
    requires
        session_id.len() <= u32::MAX,
        encode_utf8(user).len() <= u32::MAX,
        key.len() <= u32::MAX,
    ensures
        signed_parts(signed_bytes(session_id, user, key)) == (session_id, encode_utf8(user), key),
{
    lemma_methods();
    let name = encode_utf8(user);
    let middle = string(encode_utf8(CONNECTION@)) + string(encode_utf8("publickey"@)) + boolean(
        true,
    ) + string(encode_utf8(HOST_KEY@));
    let last = string(key) + Seq::<u8>::empty();
    let second = string(name) + (middle + last);
    let all = signed_bytes(session_id, user, key);
    assert(all =~= string(session_id) + (seq![USERAUTH_REQUEST] + second));
    law_string_reads_back(session_id, seq![USERAUTH_REQUEST] + second);
    assert((seq![USERAUTH_REQUEST] + second).skip(1) =~= second);
    law_string_reads_back(name, middle + last);
    assert((middle + last).skip(middle.len() as int) =~= last);
    law_string_reads_back(key, Seq::empty());
}

/// The session, the user's bytes and the key that stand in what is signed.
spec fn signed_parts(s: Seq<u8>) -> (Seq<u8>, Seq<u8>, Seq<u8>) {
    let middle = string(encode_utf8(CONNECTION@)) + string(encode_utf8("publickey"@)) + boolean(
        true,
    ) + string(encode_utf8(HOST_KEY@));
    let (session_id, rest) = take_string(s)->0;
    let (user, rest) = take_string(rest.skip(1))->0;
    let (key, _) = take_string(rest.skip(middle.len() as int))->0;
    (session_id, user, key)
}

/// Base64 takes four characters for three bytes, and no more for what is left over than it
/// needs.
pub proof fn law_base64_is_four_for_three(bytes: Seq<u8>)
    ensures
        base64_text(bytes).len() == (4 * bytes.len() + 2) / 3,
    decreases bytes.len(),
{
    if bytes.len() >= 3 {
        law_base64_is_four_for_three(bytes.skip(3));
    }
}

/// The six bits that a character of base64 stands for.
pub open spec fn bits_of(c: char) -> int {
    if 'A' <= c <= 'Z' {
        c as int - 'A' as int
    } else if 'a' <= c <= 'z' {
        c as int - 'a' as int + 26
    } else if '0' <= c <= '9' {
        c as int - '0' as int + 52
    } else if c == '+' {
        62
    } else {
        63
    }
}

/// The bytes that base64 without padding stands for.
pub open spec fn base64_bytes(text: Seq<char>) -> Seq<u8>
    decreases text.len(),
{
    let first = (bits_of(text[0]) * 4 + bits_of(text[1]) / 16) as u8;
    let second = (bits_of(text[1]) % 16 * 16 + bits_of(text[2]) / 4) as u8;
    let third = (bits_of(text[2]) % 4 * 64 + bits_of(text[3])) as u8;
    if text.len() < 2 {
        Seq::empty()
    } else if text.len() == 2 {
        seq![first]
    } else if text.len() == 3 {
        seq![first, second]
    } else {
        seq![first, second, third] + base64_bytes(text.skip(4))
    }
}

/// Every six bits have a character of their own.
proof fn lemma_sextet(bits: int)
    requires
        0 <= bits < 64,
    ensures
        bits_of(sextet(bits)) == bits,
{
    reveal_strlit("ABCDEFGHIJKLMNOPQRSTUVWXYZabcdefghijklmnopqrstuvwxyz0123456789+/");
    assert(
        bits == 0 || bits == 1 || bits == 2 || bits == 3 || bits == 4 || bits == 5 ||
            bits == 6 || bits == 7 || bits == 8 || bits == 9 || bits == 10 || bits == 11
            || bits == 12 || bits == 13 || bits == 14 || bits == 15 || bits == 16 ||
            bits == 17 || bits == 18 || bits == 19 || bits == 20 || bits == 21 || bits
            == 22 || bits == 23 || bits == 24 || bits == 25 || bits == 26 || bits == 27
            || bits == 28 || bits == 29 || bits == 30 || bits == 31 || bits == 32 ||
            bits == 33 || bits == 34 || bits == 35 || bits == 36 || bits == 37 || bits
            == 38 || bits == 39 || bits == 40 || bits == 41 || bits == 42 || bits == 43
            || bits == 44 || bits == 45 || bits == 46 || bits == 47 || bits == 48 ||
            bits == 49 || bits == 50 || bits == 51 || bits == 52 || bits == 53 || bits
            == 54 || bits == 55 || bits == 56 || bits == 57 || bits == 58 || bits == 59
            || bits == 60 || bits == 61 || bits == 62 || bits == 63
    );
}

/// Base64 stands for the bytes it was made from: nothing of them is lost.
pub proof fn law_base64_reads_back(bytes: Seq<u8>)
    ensures
        base64_bytes(base64_text(bytes)) == bytes,
    decreases bytes.len(),
{
    let text = base64_text(bytes);
    if bytes.len() == 0 {
        assert(base64_bytes(text) =~= bytes);
    } else {
        let a = bytes[0] as int;
        lemma_sextet(a / 4);
        if bytes.len() == 1 {
            lemma_sextet(a % 4 * 16);
            assert(base64_bytes(text) =~= bytes);
        } else {
            let b = bytes[1] as int;
            lemma_sextet(a % 4 * 16 + b / 16);
            if bytes.len() == 2 {
                lemma_sextet(b % 16 * 4);
                assert(base64_bytes(text) =~= bytes);
            } else {
                let c = bytes[2] as int;
                lemma_sextet(b % 16 * 4 + c / 64);
                lemma_sextet(c % 64);
                law_base64_reads_back(bytes.skip(3));
                assert(text.skip(4) =~= base64_text(bytes.skip(3)));
                assert(base64_bytes(text) =~= bytes);
            }
        }
    }
}

/// A fingerprint is `SHA256:` and forty-three characters.
pub proof fn law_a_fingerprint_has_one_size(key: Seq<u8>)
    ensures
        print_of(key).len() == 7 + 43,
        print_of(key).take(7) == "SHA256:"@,
{
    reveal_strlit("SHA256:");
    law_base64_is_four_for_three(sha256(key)@);
    assert(print_of(key).take(7) =~= "SHA256:"@);
}

/// What a public-key login signs is the session, as a `string`, and then the very request that
/// carries the signature, up to the signature.
pub proof fn law_what_is_signed_is_the_request(
    session_id: Seq<u8>,
    user: Seq<char>,
    key: Seq<u8>,
    signature: Seq<u8>,
)
    ensures
        signed_bytes(session_id, user, key) + string(signature) == string(session_id)
            + public_key_message(user, key, signature),
{
    assert(signed_bytes(session_id, user, key) + string(signature) =~= string(session_id)
        + public_key_message(user, key, signature));
}

/// A password request reads back, field after field: the message number, the user, the service,
/// the method, false, and the password, with nothing behind it.
pub proof fn law_a_password_request_reads_back(user: Seq<char>, secret: Seq<char>)
    requires
        encode_utf8(user).len() <= u32::MAX,
        encode_utf8(secret).len() <= u32::MAX,
    ensures
        ({
            let message = password_message(user, secret);
            &&& message.len() > 0 && message[0] == 50
            &&& take_string(message.skip(1)) matches Some((name, rest))
            &&& name == encode_utf8(user)
            &&& take_string(rest) matches Some((service, rest))
            &&& service == encode_utf8("ssh-connection"@)
            &&& take_string(rest) matches Some((method, rest))
            &&& method == encode_utf8("password"@)
            &&& take_bool(rest) matches Some((flag, rest))
            &&& !flag
            &&& take_string(rest) == Some((encode_utf8(secret), Seq::<u8>::empty()))
        }),
{
    lemma_methods();
    let told = encode_utf8(secret);
    let last = string(told) + Seq::<u8>::empty();
    let fifth = boolean(false) + last;
    let fourth = string(encode_utf8("password"@)) + fifth;
    let third = string(encode_utf8("ssh-connection"@)) + fourth;
    let message = password_message(user, secret);
    assert(message.skip(1) =~= string(encode_utf8(user)) + third);
    law_string_reads_back(encode_utf8(user), third);
    law_string_reads_back(encode_utf8("ssh-connection"@), fourth);
    law_string_reads_back(encode_utf8("password"@), fifth);
    law_bool_reads_back(false, last);
    law_string_reads_back(told, Seq::empty());
}

/// Two password requests are the same only where both the user and the password are.
pub proof fn law_a_password_request_tells_user_and_password(
    a: (Seq<char>, Seq<char>),
    b: (Seq<char>, Seq<char>),
)
    requires
        encode_utf8(a.0).len() <= u32::MAX && encode_utf8(a.1).len() <= u32::MAX,
        encode_utf8(b.0).len() <= u32::MAX && encode_utf8(b.1).len() <= u32::MAX,
        password_message(a.0, a.1) == password_message(b.0, b.1),
    ensures
        a == b,
{
    law_a_password_request_reads_back(a.0, a.1);
    law_a_password_request_reads_back(b.0, b.1);
    law_text_reads_back(a.0);
    law_text_reads_back(b.0);
    law_text_reads_back(a.1);
    law_text_reads_back(b.1);
}

/// The request that a key of one's own makes: the public key of that key in its blob, and in
/// another the signature that the key makes over the session and the request.
pub proof fn law_a_key_signs_its_own_request(
    user: Seq<char>,
    key: Seq<u8>,
    session_id: Seq<u8>,
    held: Seq<u8>,
    signed: Seq<u8>,
    signature: Seq<u8>,
)
    requires
        encode_utf8(user).len() <= u32::MAX,
        session_id.len() <= u32::MAX,
        reads(
            held,
            fields(Field::Text(encode_utf8("ssh-ed25519"@)))
                .push(Field::Text(ed25519_public(key)@)),
        ),
        reads(
            signed,
            fields(Field::Text(session_id))
                .push(Field::Byte(50))
                .push(Field::Text(encode_utf8(user)))
                .push(Field::Text(encode_utf8("ssh-connection"@)))
                .push(Field::Text(encode_utf8("publickey"@)))
                .push(Field::Flag(true))
                .push(Field::Text(encode_utf8("ssh-ed25519"@)))
                .push(Field::Text(held)),
        ),
        reads(
            signature,
            fields(Field::Text(encode_utf8("ssh-ed25519"@)))
                .push(Field::Text(ed25519_signature(key, signed)@)),
        ),
    ensures
        reads(
            own_key_message(user, key, session_id),
            fields(Field::Byte(50))
                .push(Field::Text(encode_utf8(user)))
                .push(Field::Text(encode_utf8("ssh-connection"@)))
                .push(Field::Text(encode_utf8("publickey"@)))
                .push(Field::Flag(true))
                .push(Field::Text(encode_utf8("ssh-ed25519"@)))
                .push(Field::Text(held))
                .push(Field::Text(signature)),
        ),
{
    lemma_a_blob_is_told(held, ed25519_public(key)@);
    law_a_public_key_field_by_field(session_id, user, held, Seq::empty());
    law_the_fields_tell_the_message(
        signed,
        signed_bytes(session_id, user, held),
        fields(Field::Text(session_id))
            .push(Field::Byte(50))
            .push(Field::Text(encode_utf8(user)))
            .push(Field::Text(encode_utf8("ssh-connection"@)))
            .push(Field::Text(encode_utf8("publickey"@)))
            .push(Field::Flag(true))
            .push(Field::Text(encode_utf8("ssh-ed25519"@)))
            .push(Field::Text(held)),
    );
    lemma_a_blob_is_told(signature, ed25519_signature(key, signed)@);
    law_a_public_key_field_by_field(session_id, user, held, signature);
}

proof fn lemma_a_blob_is_told(held: Seq<u8>, bytes: Seq<u8>)
    requires
        bytes.len() <= 64,
        reads(
            held,
            fields(Field::Text(encode_utf8("ssh-ed25519"@))).push(Field::Text(bytes)),
        ),
    ensures
        held == blob(bytes),
        held.len() <= u32::MAX,
{
    law_a_blob_field_by_field(bytes);
    law_the_fields_tell_the_message(
        held,
        blob(bytes),
        fields(Field::Text(encode_utf8("ssh-ed25519"@))).push(Field::Text(bytes)),
    );
    lemma_blob_length(bytes);
}

/// A public-key request is admitted exactly where the signature in it holds, against the key in
/// it, over the session and the request; and then who authenticated is the user, the key's
/// fingerprint and the signature.
pub proof fn law_a_key_is_admitted_where_its_signature_holds(
    session_id: Seq<u8>,
    user: Seq<char>,
    public: [u8; 32],
    signed: Seq<u8>,
    made: [u8; 64],
    key: Seq<u8>,
    signature: Seq<u8>,
    request: Seq<u8>,
)
    requires
        encode_utf8(user).len() <= u32::MAX,
        session_id.len() <= u32::MAX,
        ed25519_point(public@),
        reads(
            key,
            fields(Field::Text(encode_utf8("ssh-ed25519"@))).push(Field::Text(public@)),
        ),
        reads(
            signature,
            fields(Field::Text(encode_utf8("ssh-ed25519"@))).push(Field::Text(made@)),
        ),
        reads(
            signed,
            fields(Field::Text(session_id))
                .push(Field::Byte(50))
                .push(Field::Text(encode_utf8(user)))
                .push(Field::Text(encode_utf8("ssh-connection"@)))
                .push(Field::Text(encode_utf8("publickey"@)))
                .push(Field::Flag(true))
                .push(Field::Text(encode_utf8("ssh-ed25519"@)))
                .push(Field::Text(key)),
        ),
        reads(
            request,
            fields(Field::Byte(50))
                .push(Field::Text(encode_utf8(user)))
                .push(Field::Text(encode_utf8("ssh-connection"@)))
                .push(Field::Text(encode_utf8("publickey"@)))
                .push(Field::Flag(true))
                .push(Field::Text(encode_utf8("ssh-ed25519"@)))
                .push(Field::Text(key))
                .push(Field::Text(signature)),
        ),
    ensures
        ed25519_holds(public@, signed, made@) ==> (serve_step(
            ServeStage::Granted,
            request,
            session_id,
        ) matches Ok(Serving::Admitted { who, message }) && {
            &&& who.user == user
            &&& who.signature == Some(signature)
            &&& who.fingerprint matches Some(print) && print.take(7) == "SHA256:"@ && base64_bytes(
                print.skip(7),
            ) == sha256(key)@
            &&& message == seq![52u8]
        }),
        !ed25519_holds(public@, signed, made@) ==> serve_step(
            ServeStage::Granted,
            request,
            session_id,
        ) == Err::<Serving, Error>(Error::PublicKeySignature),
{
    assert(key == blob(public@) && key.len() <= u32::MAX) by {
        lemma_a_blob_is_told(key, public@);
    }
    assert(signature == blob(made@) && signature.len() <= u32::MAX) by {
        lemma_a_blob_is_told(signature, made@);
    }
    assert(signed == signed_bytes(session_id, user, key)) by {
        law_a_public_key_field_by_field(session_id, user, key, signature);
        law_the_fields_tell_the_message(
            signed,
            signed_bytes(session_id, user, key),
            fields(Field::Text(session_id))
                .push(Field::Byte(50))
                .push(Field::Text(encode_utf8(user)))
                .push(Field::Text(encode_utf8("ssh-connection"@)))
                .push(Field::Text(encode_utf8("publickey"@)))
                .push(Field::Flag(true))
                .push(Field::Text(encode_utf8("ssh-ed25519"@)))
                .push(Field::Text(key)),
        );
    }
    assert(request == public_key_message(user, key, signature)) by {
        law_a_public_key_field_by_field(session_id, user, key, signature);
        law_the_fields_tell_the_message(
            request,
            public_key_message(user, key, signature),
            fields(Field::Byte(50))
                .push(Field::Text(encode_utf8(user)))
                .push(Field::Text(encode_utf8("ssh-connection"@)))
                .push(Field::Text(encode_utf8("publickey"@)))
                .push(Field::Flag(true))
                .push(Field::Text(encode_utf8("ssh-ed25519"@)))
                .push(Field::Text(key))
                .push(Field::Text(signature)),
        );
    }
    assert(key_verdict(session_id, user, key, signature) == if ed25519_holds(
        public@,
        signed,
        made@,
    ) {
        Ok::<(), Error>(())
    } else {
        Err(Error::PublicKeySignature)
    }) by {
        law_a_blob_reads_back(public@, public_key_faults().kind, Seq::empty());
        law_a_blob_reads_back(made@, Error::SignatureKind, Seq::empty());
        assert(key + Seq::<u8>::empty() =~= key);
        assert(signature + Seq::<u8>::empty() =~= signature);
    }
    law_a_key_request_is_judged_by_its_signature(user, key, signature, session_id);
    law_a_fingerprint_is_the_hash_of_the_key(key);
}

/// A fingerprint is `SHA256:` and the base64 of the SHA-256 hash of the key, which reads back as
/// that hash.
pub proof fn law_a_fingerprint_is_the_hash_of_the_key(key: Seq<u8>)
    ensures
        print_of(key).take(7) == "SHA256:"@,
        base64_bytes(print_of(key).skip(7)) == sha256(key)@,
{
    reveal_strlit("SHA256:");
    assert(print_of(key).take(7) =~= "SHA256:"@);
    assert(print_of(key).skip(7) =~= base64_text(sha256(key)@));
    law_base64_reads_back(sha256(key)@);
}

/// The characters of base64 are the letters, large then small, the digits, `+` and `/`, in the
/// order of the six bits they stand for.
pub proof fn law_the_alphabet_of_base64(bits: int)
    requires
        0 <= bits < 64,
    ensures
        bits < 26 ==> sextet(bits) as int == 'A' as int + bits,
        26 <= bits < 52 ==> sextet(bits) as int == 'a' as int + bits - 26,
        52 <= bits < 62 ==> sextet(bits) as int == '0' as int + bits - 52,
        bits == 62 ==> sextet(bits) == '+',
        bits == 63 ==> sextet(bits) == '/',
{
    lemma_sextet(bits);
    reveal_strlit("ABCDEFGHIJKLMNOPQRSTUVWXYZabcdefghijklmnopqrstuvwxyz0123456789+/");
}

/// Three bytes are the four characters of their twenty-four bits, the most significant first, and
/// what follows them is told behind them; of one byte or two that are left over the missing bits
/// are zeros, and the characters for nothing but such zeros are left out.
pub proof fn law_base64_is_the_bits_of_the_bytes(a: u8, b: u8, c: u8, rest: Seq<u8>)
    ensures
        ({
            let n = a as int * 65_536 + b as int * 256 + c as int;
            &&& base64_text(seq![a, b, c] + rest) == seq![
                sextet(n / 262_144),
                sextet(n / 4_096 % 64),
                sextet(n / 64 % 64),
                sextet(n % 64),
            ] + base64_text(rest)
            &&& c == 0 ==> base64_text(seq![a, b]) == seq![
                sextet(n / 262_144),
                sextet(n / 4_096 % 64),
                sextet(n / 64 % 64),
            ]
            &&& b == 0 && c == 0 ==> base64_text(seq![a]) == seq![
                sextet(n / 262_144),
                sextet(n / 4_096 % 64),
            ]
            &&& base64_text(Seq::empty()) == Seq::<char>::empty()
        }),
{
    let n = a as int * 65_536 + b as int * 256 + c as int;
    lemma_twenty_four_bits(a as int, b as int, c as int);
    let three = seq![a, b, c] + rest;
    assert(three.skip(3) =~= rest);
    assert(three[0] == a && three[1] == b && three[2] == c);
}

proof fn lemma_twenty_four_bits(a: int, b: int, c: int)
    requires
        0 <= a < 256,
        0 <= b < 256,
        0 <= c < 256,
    ensures
        (a * 65_536 + b * 256 + c) / 262_144 == a / 4,
        (a * 65_536 + b * 256 + c) / 4_096 % 64 == a % 4 * 16 + b / 16,
        (a * 65_536 + b * 256 + c) / 64 % 64 == b % 16 * 4 + c / 64,
        (a * 65_536 + b * 256 + c) % 64 == c % 64,
{
    let n = a * 65_536 + b * 256 + c;
    let (p, q) = (a / 4, a % 4);
    let (x, y) = (b / 16, b % 16);
    let (u, v) = (c / 64, c % 64);
    assert(n == p * 262_144 + (q * 16 + x) * 4_096 + (y * 4 + u) * 64 + v);
    assert(n / 64 == p * 4_096 + (q * 16 + x) * 64 + (y * 4 + u));
    assert(n / 4_096 == p * 64 + (q * 16 + x));
    assert(n / 262_144 == p);
}

/// What the server makes of a request for a service, and the client of a grant: it has to be
/// message 5, or 6, and to name the service that authenticates.
pub proof fn law_a_service_is_named(
    message: Seq<u8>,
    name: Seq<u8>,
    rest: Seq<u8>,
    session_id: Seq<u8>,
)
    requires
        name.len() <= u32::MAX,
        message.len() > 0,
        message.skip(1) == string(name) + rest,
    ensures
        serve_step(ServeStage::Listening, message, session_id) is Ok <==> message[0] == 5 && name
            == encode_utf8("ssh-userauth"@),
        message[0] == 5 && name != encode_utf8("ssh-userauth"@) ==> serve_step(
            ServeStage::Listening,
            message,
            session_id,
        ) == Err::<Serving, Error>(Error::NotUserauth),
        names_service(message, SERVICE_ACCEPT, "the userauth service", Error::OtherService)
            is Ok <==> message[0] == 6 && name == encode_utf8("ssh-userauth"@),
        message[0] == 6 && name != encode_utf8("ssh-userauth"@) ==> names_service(
            message,
            SERVICE_ACCEPT,
            "the userauth service",
            Error::OtherService,
        ) == Err::<(), Error>(Error::OtherService),
{
    law_string_reads_back(name, rest);
}

/// The server's answer admits with message 52 and refuses with message 51; anything else is no
/// answer.
pub proof fn law_an_answer_is_known_by_its_number(message: Seq<u8>)
    ensures
        answer_in(message) is Ok <==> message.len() > 0 && message[0] == 52,
        message.len() > 0 && message[0] == 51 ==> answer_in(message) == Err::<(), Error>(
            Error::CredentialRefused,
        ),
        message.len() == 0 || message[0] < 51 || message[0] > 52 ==> answer_in(message) == Err::<
            (),
            Error,
        >(Error::NoAuthAnswer),
{
}

/// A password is admitted whatever it is, and keeps only the user's name; a key without a
/// signature, and a method that is neither, is turned down and may be followed by another try.
pub proof fn law_what_is_admitted_and_what_may_be_tried_again(
    message: Seq<u8>,
    user: Seq<char>,
    service: Seq<u8>,
    method: Seq<u8>,
    flag: bool,
    rest: Seq<u8>,
    session_id: Seq<u8>,
)
    requires
        encode_utf8(user).len() <= u32::MAX,
        service.len() <= u32::MAX,
        method.len() <= u32::MAX,
        reads(
            message,
            fields(Field::Byte(50))
                .push(Field::Text(encode_utf8(user)))
                .push(Field::Text(service))
                .push(Field::Text(method))
                .push(Field::Flag(flag))
                .push(Field::Raw(rest)),
        ),
    ensures
        method == encode_utf8("password"@) && take_string(rest) is Some ==> serve_step(
            ServeStage::Granted,
            message,
            session_id,
        ) == Ok::<Serving, Error>(
            Serving::Admitted {
                who: Who { user, fingerprint: None, signature: None },
                message: seq![52u8],
            },
        ),
        method == encode_utf8("publickey"@) && !flag || method != encode_utf8("password"@) && method
            != encode_utf8("publickey"@) ==> serve_step(ServeStage::Granted, message, session_id)
            == Ok::<Serving, Error>(
            Serving::Send { stage: ServeStage::Granted, message: failure_message() },
        ),
{
    let tail = boolean(flag) + rest;
    lemma_methods();
    lemma_credential_is_laid_out(message, user, service, method, flag, rest);
    lemma_method_is_told(message, user, service, method, tail, session_id);
    law_bool_reads_back(flag, rest);
    if !flag {
        assert(key_admission(user, tail, session_id) == Ok::<Option<Who>, Error>(None)) by {
            reveal(key_admission);
        }
    }
}

/// A credential is judged by its method, whatever service it is for.
proof fn lemma_method_is_told(
    message: Seq<u8>,
    user: Seq<char>,
    service: Seq<u8>,
    method: Seq<u8>,
    tail: Seq<u8>,
    session_id: Seq<u8>,
)
    requires
        encode_utf8(user).len() <= u32::MAX,
        service.len() <= u32::MAX,
        method.len() <= u32::MAX,
        message.skip(1) == string(encode_utf8(user)) + (string(service) + (string(method) + tail)),
    ensures
        admission(message, session_id) == if method == encode_utf8("password"@) {
            password_admission(user, tail)
        } else if method == encode_utf8("publickey"@) {
            key_admission(user, tail, session_id)
        } else {
            Ok(None)
        },
{
    reveal(admission);
    let third = string(method) + tail;
    let second = string(service) + third;
    law_string_reads_back(encode_utf8(user), second);
    law_string_reads_back(service, third);
    law_string_reads_back(method, tail);
    law_text_reads_back(user);
}

proof fn lemma_credential_is_laid_out(
    message: Seq<u8>,
    user: Seq<char>,
    service: Seq<u8>,
    method: Seq<u8>,
    flag: bool,
    rest: Seq<u8>,
)
    requires
        encode_utf8(user).len() <= u32::MAX,
        service.len() <= u32::MAX,
        method.len() <= u32::MAX,
        reads(
            message,
            fields(Field::Byte(50))
                .push(Field::Text(encode_utf8(user)))
                .push(Field::Text(service))
                .push(Field::Text(method))
                .push(Field::Flag(flag))
                .push(Field::Raw(rest)),
        ),
    ensures
        message.len() > 0,
        message[0] == 50,
        message.skip(1) == string(encode_utf8(user)) + (string(service) + (string(method) + (
        boolean(flag) + rest))),
{
    broadcast use crate::layout::group_fields;

    let name = string(encode_utf8(user));
    let laid = seq![50u8] + name + string(service) + string(method) + boolean(flag) + rest;
    law_the_fields_tell_the_message(
        message,
        laid,
        fields(Field::Byte(50))
            .push(Field::Text(encode_utf8(user)))
            .push(Field::Text(service))
            .push(Field::Text(method))
            .push(Field::Flag(flag))
            .push(Field::Raw(rest)),
    );
    lemma_regrouped(seq![50u8], name, string(service), string(method), boolean(flag) + rest);
    assert(laid =~= seq![50u8] + name + string(service) + string(method) + (boolean(flag) + rest));
    let behind = name + (string(service) + (string(method) + (boolean(flag) + rest)));
    assert((seq![50u8] + behind).skip(1) =~= behind);
}

/// What is said of a user's key, and of a signature that does not hold against one: it is judged
/// over the session and the request, as a host's is over the exchange.
pub proof fn law_what_is_said_of_a_public_key(
    session_id: Seq<u8>,
    user: Seq<char>,
    key: Seq<u8>,
    signature: Seq<u8>,
)
    ensures
        key_verdict(session_id, user, key, signature) == verdict(
            key,
            signature,
            signed_bytes(session_id, user, key),
            KeyFaults {
                kind: Error::PublicKeyKind,
                size: Error::PublicKeySize,
                point: Error::PublicKeyPoint,
            },
            Error::PublicKeySignature,
        ),
{
}

/// The far end grants the service once, in message 6, and from then on hears nothing but requests
/// to be let in, which are messages 50; a user has to be named in text.
pub proof fn law_the_service_comes_first(
    message: Seq<u8>,
    user: Seq<u8>,
    rest: Seq<u8>,
    session_id: Seq<u8>,
)
    requires
        user.len() <= u32::MAX,
        text_of(user) is None,
    ensures
        serve_step(ServeStage::Listening, message, session_id) matches Ok(moved) ==> (
        moved matches Serving::Send { stage: then, message: back } && then is Granted && reads(
            back,
            fields(Field::Byte(6)).push(Field::Text(encode_utf8("ssh-userauth"@))),
        )),
        serve_step(ServeStage::Granted, message, session_id) is Ok ==> message.len() > 0
            && message[0] == 50,
        serve_step(ServeStage::Granted, seq![50u8] + (string(user) + rest), session_id) == Err::<
            Serving,
            Error,
        >(Error::UserNotUtf8),
{
    law_the_service_field_by_field();
    assert((seq![50u8] + (string(user) + rest)).skip(1) =~= string(user) + rest);
    law_string_reads_back(user, rest);
    reveal(admission);
}

/// Who authenticated is what is held of them, and a turn is what the serving came to.
pub proof fn law_a_serving_is_what_it_came_to(
    held: Authenticated,
    turn: ServeTurn,
    serving: Serving,
)
    requires
        turn.takes(serving),
    ensures
        held@.user == held.user@,
        match held.fingerprint {
            Some(print) => held@.fingerprint == Some(print@),
            None => held@.fingerprint is None,
        },
        match held.signature {
            Some(bytes) => held@.signature == Some(bytes@),
            None => held@.signature is None,
        },
        match serving {
            Serving::Send { stage, message } => {
                &&& turn matches ServeTurn::Send { stage: then, message: sent }
                &&& then == stage
                &&& sent@ == message
            },
            Serving::Admitted { who, message } => {
                &&& turn matches ServeTurn::Admitted { who: one, message: sent }
                &&& one@ == who
                &&& sent@ == message
            },
        },
{
}

/// A message about the service holds its name; one that is cut short is refused, one for another
/// service is told so, and another message is refused by the number that was due.
pub proof fn law_what_a_service_message_has_to_hold(message: Seq<u8>, session_id: Seq<u8>)
    ensures
        ({
            let asked = serve_step(ServeStage::Listening, message, session_id);
            &&& asked is Ok <==> {
                &&& message.len() > 0 && message[0] == 5
                &&& take_string(message.skip(1)) matches Some((name, _))
                &&& name == encode_utf8("ssh-userauth"@)
            }
            &&& asked matches Err(error) ==> error is NotUserauth || error is Truncated || due(
                message,
                5,
                "a service request",
            ) == Err::<(), Error>(error)
        }),
        ({
            let granted = names_service(
                message,
                SERVICE_ACCEPT,
                "the userauth service",
                Error::OtherService,
            );
            &&& granted is Ok <==> {
                &&& message.len() > 0 && message[0] == 6
                &&& take_string(message.skip(1)) matches Some((name, _))
                &&& name == encode_utf8("ssh-userauth"@)
            }
            &&& granted matches Err(error) ==> error is OtherService || error is Truncated || due(
                message,
                6,
                "the userauth service",
            ) == Err::<(), Error>(error)
        }),
{
}

/// A credential holds a user, a service and a method, and what its method asks for: a password its
/// flag and itself, a signed key its algorithm, itself and its signature, which has to hold. What is
/// cut short of them is refused; another message is, by the number that was due.
pub proof fn law_what_a_credential_has_to_hold(message: Seq<u8>, session_id: Seq<u8>)
    ensures
        ({
            let came = serve_step(ServeStage::Granted, message, session_id);
            &&& due(message, 50, "an authentication request") matches Err(error) ==> came == Err::<
                Serving,
                Error,
            >(error)
            &&& came matches Ok(Serving::Admitted { who, message: back }) ==> {
                &&& message.len() > 0 && message[0] == 50
                &&& back == seq![52u8]
                &&& take_string(message.skip(1)) matches Some((name, first))
                &&& text_of(name) == Some(who.user)
                &&& take_string(first) matches Some((_, second))
                &&& take_string(second) matches Some((method, third))
                &&& take_bool(third) matches Some((flag, fourth))
                &&& if method == encode_utf8("password"@) {
                    &&& take_string(fourth) is Some
                    &&& who.fingerprint is None && who.signature is None
                } else {
                    &&& method == encode_utf8("publickey"@) && flag
                    &&& take_string(fourth) matches Some((_, fifth))
                    &&& take_string(fifth) matches Some((key, sixth))
                    &&& take_string(sixth) matches Some((signature, _))
                    &&& key_verdict(session_id, who.user, key, signature) is Ok
                    &&& who.fingerprint == Some(print_of(key))
                    &&& who.signature == Some(signature)
                }
            }
        }),
{
    lemma_methods();
    reveal(admission);
    reveal(key_admission);
}

} // verus!
