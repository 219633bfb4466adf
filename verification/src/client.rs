//! The SSH client: exchange the keys, authenticate, and run the SFTP subsystem over one channel.
//! A Send Location puts a file into a directory; a Receive Location lists the directory, takes
//! each file and removes it.
//!
//! A login is begun with [`Login::begin`] once the peer's identification is known, and goes on
//! with every message that arrives, [`Client::connect`] giving the messages to send, until the
//! client is connected. A connected client is sent on errands.

use vstd::prelude::*;
use vstd::slice::slice_to_vec;
use vstd::string::*;
use vstd::utf8::encode_utf8;

use crate::channel::{messages, only, open_message, OpenStage};
use crate::cipher::{Cipher, Sealing};
use crate::crypto::{ed25519_holds, ed25519_point, ed25519_public, ed25519_signature};
use crate::errand::{Errand, Going, Order, Ordered};
use crate::error::Error;
use crate::kex::{
    client, client_offer, client_step, client_with, offer, ClientAt, ClientStage, ClientTurn,
    Moved, IDENTIFICATION, KEXINIT, SERVICE_ACCEPT, SERVICE_REQUEST,
};
use crate::keys::{blob, SigningKey};
use crate::layout::{
    fields, law_a_password_field_by_field, law_the_service_field_by_field, reads, Field,
};
use crate::packet::due;
use crate::userauth::{
    admitted, answer_in, law_a_service_is_named, law_an_answer_is_known_by_its_number,
    names_service, own_key_message, password, password_message, print_of, public_key,
    request_service, service_granted, service_message, signed_bytes, Who,
};
use crate::wire::string;

verus! {

/// How a client proves who it is to the far end.
pub enum Credential {
    /// A password, presented in the clear over the encrypted channel.
    Password(String),
    /// A key, which signs the session so the far end can hold the peer to it.
    PublicKey(Box<SigningKey>),
}

/// How a client proves who it is: by a password, or by the key of a seed.
pub ghost enum Proven {
    Password(Seq<char>),
    PublicKey(Seq<u8>),
}

impl View for Credential {
    type V = Proven;

    open spec fn view(&self) -> Proven {
        match *self {
            Credential::Password(secret) => Proven::Password(secret@),
            Credential::PublicKey(key) => Proven::PublicKey((*key)@),
        }
    }
}

impl Clone for Credential {
    fn clone(&self) -> (same: Self)
        ensures
            same@ == self@,
    {
        match self {
            Credential::Password(secret) => Credential::Password(secret.clone()),
            Credential::PublicKey(key) => {
                let key: SigningKey = (**key).clone();
                Credential::PublicKey(Box::new(key))
            },
        }
    }
}

impl Proven {
    /// The request that presents this credential.
    pub open spec fn message(self, user: Seq<char>, session_id: Seq<u8>) -> Seq<u8> {
        match self {
            Proven::Password(secret) => password_message(user, secret),
            Proven::PublicKey(key) => own_key_message(user, key, session_id),
        }
    }

    /// Who the far end takes the client for: a password tells only the user, a key its fingerprint
    /// and the signature it makes.
    pub open spec fn who(self, user: Seq<char>, session_id: Seq<u8>) -> Who {
        match self {
            Proven::Password(_) => Who { user, fingerprint: None, signature: None },
            Proven::PublicKey(key) => {
                let held = blob(ed25519_public(key)@);
                let signed = signed_bytes(session_id, user, held);
                Who {
                    user,
                    fingerprint: Some(print_of(held)),
                    signature: Some(blob(ed25519_signature(key, signed)@)),
                }
            },
        }
    }

    /// Whether this credential can be told in a message.
    pub open spec fn tellable(self) -> bool {
        match self {
            Proven::Password(secret) => encode_utf8(secret).len() <= u32::MAX,
            Proven::PublicKey(_) => true,
        }
    }

    /// Whether the signature that this credential makes over the session and the request holds,
    /// where it is a key.
    pub open spec fn stands(self, user: Seq<char>, session_id: Seq<u8>) -> bool {
        match self {
            Proven::Password(_) => true,
            Proven::PublicKey(key) => {
                let public = ed25519_public(key)@;
                let signed = signed_bytes(session_id, user, blob(public));
                ed25519_point(public) && ed25519_holds(
                    public,
                    signed,
                    ed25519_signature(key, signed)@,
                )
            },
        }
    }
}

impl Credential {
    /// The request that presents this credential as `user`, over `session_id`. A signature that
    /// a key makes holds against that key.
    pub fn present(&self, user: &str, session_id: &[u8]) -> (message: Vec<u8>)
        ensures
            message@ == self@.message(user@, session_id@),
            self@.stands(user@, session_id@),
    {
        match self {
            Credential::Password(secret) => password(user, secret.as_str()),
            Credential::PublicKey(key) => public_key(user, key, session_id),
        }
    }
}

/// How far a login has come.
pub enum LoginStage {
    /// The keys are being exchanged.
    Exchanging(ClientStage),
    /// The service that authenticates is asked for.
    Requesting { session_id: Vec<u8> },
    /// The credential is presented.
    Presenting { session_id: Vec<u8> },
}

/// How far a login has come.
pub ghost enum LoginAt {
    Exchanging(ClientAt),
    Requesting { session_id: Seq<u8> },
    Presenting { session_id: Seq<u8> },
}

impl View for LoginStage {
    type V = LoginAt;

    open spec fn view(&self) -> LoginAt {
        match *self {
            LoginStage::Exchanging(stage) => LoginAt::Exchanging(stage@),
            LoginStage::Requesting { session_id } => LoginAt::Requesting {
                session_id: session_id@,
            },
            LoginStage::Presenting { session_id } => LoginAt::Presenting {
                session_id: session_id@,
            },
        }
    }
}

impl LoginAt {
    /// Whether the message that is due is the one after which the ephemeral secret is drawn.
    pub open spec fn draws(self) -> bool {
        self matches LoginAt::Exchanging(at) && at is Offered
    }
}

/// A client on its way in: who it is to be, and how far it has come.
pub struct Login {
    pub user: String,
    pub credential: Credential,
    pub stage: LoginStage,
}

/// What a message does to a login.
pub enum LoginTurn {
    /// Switch to `keys`, where there are any (what goes out, then what comes in), then send
    /// these, and await the next message.
    Go { login: Login, keys: Option<(Cipher, Cipher)>, sent: Vec<Vec<u8>> },
    /// The client is connected.
    Connected(Client),
}

/// What a message does to a login.
pub ghost enum LoginMoved {
    Go { at: LoginAt, keys: Option<(Sealing, Sealing)>, messages: Seq<Seq<u8>> },
    Connected { session_id: Seq<u8> },
}

/// The keys that are switched to.
pub open spec fn seals(keys: Option<(Cipher, Cipher)>) -> Option<(Sealing, Sealing)> {
    match keys {
        Some((tx, rx)) => Some((tx@, rx@)),
        None => None,
    }
}

/// What a message does to a login, `secret` being the ephemeral secret where one is drawn.
pub open spec fn login_step(
    at: LoginAt,
    user: Seq<char>,
    proven: Proven,
    message: Seq<u8>,
    secret: Seq<u8>,
) -> Result<LoginMoved, Error> {
    match at {
        LoginAt::Exchanging(at) => match client_step(at, message, secret) {
            Err(error) => Err(error),
            Ok(Moved::Send { at, messages }) => Ok(
                LoginMoved::Go { at: LoginAt::Exchanging(at), keys: None, messages },
            ),
            Ok(Moved::Done { session_id, tx, rx }) => Ok(
                LoginMoved::Go {
                    at: LoginAt::Requesting { session_id },
                    keys: Some((tx, rx)),
                    messages: seq![service_message(SERVICE_REQUEST)],
                },
            ),
        },
        LoginAt::Requesting { session_id } => match names_service(
            message,
            SERVICE_ACCEPT,
            "the userauth service",
            Error::OtherService,
        ) {
            Err(error) => Err(error),
            Ok(_) => Ok(
                LoginMoved::Go {
                    at: LoginAt::Presenting { session_id },
                    keys: None,
                    messages: seq![proven.message(user, session_id)],
                },
            ),
        },
        LoginAt::Presenting { session_id } => match answer_in(message) {
            Err(error) => Err(error),
            Ok(_) => Ok(LoginMoved::Connected { session_id }),
        },
    }
}

impl LoginTurn {
    /// Whether this is the turn that `moved` describes, for the same user and credential.
    pub open spec fn takes(self, moved: LoginMoved, user: Seq<char>, proven: Proven) -> bool {
        match moved {
            LoginMoved::Go { at, keys, messages: due } => {
                &&& self is Go
                &&& self->login.stage@ == at
                &&& self->login.user@ == user
                &&& self->login.credential@ == proven
                &&& seals(self->keys) == keys
                &&& messages(self->sent@) == due
            },
            LoginMoved::Connected { session_id } => self is Connected && self->0@ == session_id,
        }
    }
}

impl Login {
    /// Begin to log in at the peer that identified itself as `peer`: the key-exchange offer to
    /// send.
    pub fn begin(peer: &str, user: &str, credential: &Credential) -> (begun: Result<
        (Self, Vec<u8>),
        Error,
    >)
        ensures
            match begun {
                Ok((login, message)) => {
                    &&& login.user@ == user@
                    &&& login.credential@ == credential@
                    &&& login.stage@ == LoginAt::Exchanging(
                        ClientAt::Offered { v_c: IDENTIFICATION@, v_s: peer@, i_c: message@ },
                    )
                    &&& exists|cookie: Seq<u8>|
                        cookie.len() == 16 && message@ == #[trigger] offer(cookie)
                },
                Err(error) => error == Error::NoCookie,
            },
    {
        let (stage, message) = client_offer(IDENTIFICATION, peer)?;
        Ok(
            (
                Login {
                    user: user.to_string(),
                    credential: credential.clone(),
                    stage: LoginStage::Exchanging(stage),
                },
                message,
            ),
        )
    }
}

/// A connected, authenticated SSH client.
pub struct Client {
    session_id: Vec<u8>,
}

impl View for Client {
    type V = Seq<u8>;

    /// The session identifier.
    closed spec fn view(&self) -> Seq<u8> {
        self.session_id@
    }
}

/// The login after a turn of the key exchange.
fn exchanged_on(user: String, credential: Credential, turn: ClientTurn) -> (taken: LoginTurn)
    ensures
        forall|moved: Moved<ClientAt>| #[trigger]
            turn.takes(moved) ==> taken.takes(
                match moved {
                    Moved::Send { at, messages } => LoginMoved::Go {
                        at: LoginAt::Exchanging(at),
                        keys: None,
                        messages,
                    },
                    Moved::Done { session_id, tx, rx } => LoginMoved::Go {
                        at: LoginAt::Requesting { session_id },
                        keys: Some((tx, rx)),
                        messages: seq![service_message(SERVICE_REQUEST)],
                    },
                },
                user@,
                credential@,
            ),
{
    match turn {
        ClientTurn::Send { stage, message } => LoginTurn::Go {
            login: Login { user, credential, stage: LoginStage::Exchanging(stage) },
            keys: None,
            sent: only(message),
        },
        ClientTurn::Done { exchanged, tx, rx } => LoginTurn::Go {
            login: Login {
                user,
                credential,
                stage: LoginStage::Requesting { session_id: exchanged.session_id },
            },
            keys: Some((tx, rx)),
            sent: only(request_service()),
        },
    }
}

impl Client {
    /// Go on with a login now that the message that was due is here: exchange keys, and
    /// authenticate.
    pub fn connect(login: Login, message: &[u8]) -> (turn: Result<LoginTurn, Error>)
        ensures
            match turn {
                Ok(taken) => exists|secret: Seq<u8>|
                    secret.len() == 32 && (#[trigger] login_step(
                        login.stage@,
                        login.user@,
                        login.credential@,
                        message@,
                        secret,
                    ) matches Ok(moved) && taken.takes(moved, login.user@, login.credential@)),
                Err(error) => error == Error::NoSecret && login.stage@.draws() && due(
                    message@,
                    KEXINIT,
                    "the server's key-exchange offer",
                ) is Ok || forall|secret: Seq<u8>| #[trigger]
                    login_step(
                        login.stage@,
                        login.user@,
                        login.credential@,
                        message@,
                        secret,
                    ) == Err::<LoginMoved, Error>(error),
            },
    {
        let Login { user, credential, stage } = login;
        match stage {
            LoginStage::Exchanging(stage) => {
                let turn = client(stage, message)?;
                let taken = exchanged_on(user, credential, turn);
                proof {
                    let secret = choose|secret: Seq<u8>|
                        secret.len() == 32 && (#[trigger] client_step(stage@, message@, secret)
                            matches Ok(moved) && turn.takes(moved));
                    let moved = client_step(stage@, message@, secret)->Ok_0;
                    assert(turn.takes(moved));
                    assert(login_step(
                        login.stage@,
                        login.user@,
                        login.credential@,
                        message@,
                        secret,
                    ) is Ok);
                }
                Ok(taken)
            },
            other => {
                let rest = Login { user, credential, stage: other };
                let secret: [u8; 32] = [0u8; 32];
                assert(secret@.len() == 32);
                Client::connect_with(rest, message, &secret)
            },
        }
    }

    /// Go on with a login, `secret` being the ephemeral secret where this is the message after
    /// which one is drawn.
    pub fn connect_with(login: Login, message: &[u8], secret: &[u8; 32]) -> (turn: Result<
        LoginTurn,
        Error,
    >)
        ensures
            match login_step(
                login.stage@,
                login.user@,
                login.credential@,
                message@,
                secret@,
            ) {
                Ok(moved) => turn is Ok && turn->Ok_0.takes(
                    moved,
                    login.user@,
                    login.credential@,
                ),
                Err(error) => turn == Err::<LoginTurn, Error>(error),
            },
    {
        let Login { user, credential, stage } = login;
        match stage {
            LoginStage::Exchanging(stage) => {
                let turn = client_with(stage, message, secret)?;
                assert(turn.takes(client_step(stage@, message@, secret@)->Ok_0));
                Ok(exchanged_on(user, credential, turn))
            },
            LoginStage::Requesting { session_id } => {
                service_granted(message)?;
                let sent = only(credential.present(user.as_str(), &session_id));
                Ok(
                    LoginTurn::Go {
                        login: Login {
                            user,
                            credential,
                            stage: LoginStage::Presenting { session_id },
                        },
                        keys: None,
                        sent,
                    },
                )
            },
            LoginStage::Presenting { session_id } => {
                admitted(message)?;
                Ok(LoginTurn::Connected(Client { session_id }))
            },
        }
    }

    /// The identifier of the session the client is in.
    pub fn session_id(&self) -> (id: Vec<u8>)
        ensures
            id@ == self@,
    {
        slice_to_vec(&self.session_id)
    }

    /// Begin to open the subsystem over one channel, do what was ordered, and close the channel:
    /// the message to send. The errand goes on with [`Errand::go_on`], and comes to what was
    /// ordered: the bytes of a file, the names in the directory, every file of a harvest.
    pub fn with_subsystem(&self, order: Order) -> (begun: (Errand, Vec<u8>))
        ensures
            begun.0@ == (Going::Opening { ordered: order@, stage: OpenStage::Asked }),
            begun.1@ == open_message(),
    {
        Errand::begin(order)
    }

    /// Begin to put `bytes` into the directory as `name`: the message to send.
    pub fn put(&self, name: &str, bytes: &[u8]) -> (begun: (Errand, Vec<u8>))
        ensures
            begun.0@ == (Going::Opening {
                ordered: Ordered::Put { name: name@, bytes: bytes@ },
                stage: OpenStage::Asked,
            }),
            begun.1@ == open_message(),
    {
        self.with_subsystem(Order::Put { name: name.to_string(), bytes: slice_to_vec(bytes) })
    }

    /// Begin to take and remove every file in the directory, as a Receive Location harvests a
    /// drop box: the message to send.
    pub fn harvest(&self) -> (begun: (Errand, Vec<u8>))
        ensures
            begun.0@ == (Going::Opening {
                ordered: Ordered::Harvest,
                stage: OpenStage::Asked,
            }),
            begun.1@ == open_message(),
    {
        self.with_subsystem(Order::Harvest)
    }
}

/// Both ends identify themselves as version 2.0 of the protocol, under one name.
pub proof fn law_how_we_identify_ourselves()
    ensures
        IDENTIFICATION@ == "SSH-2.0-xmip_1.0"@,
{
}

/// A credential is presented as what it is: a password in the request that carries it, for the user
/// it is given for; a key in the request that it signs itself, over this session.
pub proof fn law_a_credential_is_presented_as_it_is(
    user: Seq<char>,
    secret: Seq<char>,
    key: Seq<u8>,
    session_id: Seq<u8>,
)
    requires
        encode_utf8(user).len() <= u32::MAX,
        encode_utf8(secret).len() <= u32::MAX,
    ensures
        reads(
            Proven::Password(secret).message(user, session_id),
            fields(Field::Byte(50))
                .push(Field::Text(encode_utf8(user)))
                .push(Field::Text(encode_utf8("ssh-connection"@)))
                .push(Field::Text(encode_utf8("password"@)))
                .push(Field::Flag(false))
                .push(Field::Text(encode_utf8(secret))),
        ),
        Proven::PublicKey(key).message(user, session_id) == own_key_message(user, key, session_id),
{
    law_a_password_field_by_field(user, secret);
}

/// A login goes through the key exchange, and nothing of it goes out under keys before they are
/// exchanged; when they are, both directions turn to them, and message 5 asks for the service.
pub proof fn law_a_login_begins_with_the_keys(
    at: ClientAt,
    user: Seq<char>,
    proven: Proven,
    message: Seq<u8>,
    secret: Seq<u8>,
)
    ensures
        match client_step(at, message, secret) {
            Err(error) => login_step(LoginAt::Exchanging(at), user, proven, message, secret)
                == Err::<LoginMoved, Error>(error),
            Ok(Moved::Send { at: then, messages }) => login_step(
                LoginAt::Exchanging(at),
                user,
                proven,
                message,
                secret,
            ) == Ok::<LoginMoved, Error>(
                LoginMoved::Go { at: LoginAt::Exchanging(then), keys: None, messages },
            ),
            Ok(Moved::Done { session_id, tx, rx }) => {
                &&& login_step(LoginAt::Exchanging(at), user, proven, message, secret) matches Ok(
                    LoginMoved::Go { at: then, keys, messages },
                )
                &&& then == (LoginAt::Requesting { session_id })
                &&& keys == Some((tx, rx))
                &&& messages.len() == 1
                &&& reads(
                    messages[0],
                    fields(Field::Byte(5)).push(Field::Text(encode_utf8("ssh-userauth"@))),
                )
            },
        },
{
    law_the_service_field_by_field();
}

/// A login presents its credential once the service is granted, and to nothing else; it is
/// connected once message 52 admits it, and by nothing else, in the session that was settled.
pub proof fn law_a_login_ends_with_the_credential(
    session_id: Seq<u8>,
    user: Seq<char>,
    proven: Proven,
    message: Seq<u8>,
    name: Seq<u8>,
    rest: Seq<u8>,
    secret: Seq<u8>,
)
    requires
        name.len() <= u32::MAX,
    ensures
        login_step(
            LoginAt::Requesting { session_id },
            user,
            proven,
            seq![6u8] + (string(name) + rest),
            secret,
        ) == if name == encode_utf8("ssh-userauth"@) {
            Ok::<LoginMoved, Error>(
                LoginMoved::Go {
                    at: LoginAt::Presenting { session_id },
                    keys: None,
                    messages: seq![proven.message(user, session_id)],
                },
            )
        } else {
            Err(Error::OtherService)
        },
        message.len() == 0 || message[0] != 6 ==> login_step(
            LoginAt::Requesting { session_id },
            user,
            proven,
            message,
            secret,
        ) is Err,
        message.len() > 0 && message[0] == 52 ==> login_step(
            LoginAt::Presenting { session_id },
            user,
            proven,
            message,
            secret,
        ) == Ok::<LoginMoved, Error>(LoginMoved::Connected { session_id }),
        message.len() > 0 && message[0] == 51 ==> login_step(
            LoginAt::Presenting { session_id },
            user,
            proven,
            message,
            secret,
        ) == Err::<LoginMoved, Error>(Error::CredentialRefused),
        message.len() == 0 || message[0] < 51 || message[0] > 52 ==> login_step(
            LoginAt::Presenting { session_id },
            user,
            proven,
            message,
            secret,
        ) == Err::<LoginMoved, Error>(Error::NoAuthAnswer),
{
    let granted = seq![6u8] + (string(name) + rest);
    assert(granted.skip(1) =~= string(name) + rest);
    law_a_service_is_named(granted, name, rest, session_id);
    law_an_answer_is_known_by_its_number(message);
}

/// What a credential, a stage of a login and a turn of one stand for is what they hold: the user
/// and the credential stay, the keys are the outgoing and the incoming ones, the messages go out
/// in their order.
pub proof fn law_a_login_is_what_it_holds(
    credential: Credential,
    stage: LoginStage,
    turn: LoginTurn,
    moved: LoginMoved,
    user: Seq<char>,
    proven: Proven,
)
    requires
        turn.takes(moved, user, proven),
    ensures
        match credential {
            Credential::Password(secret) => credential@ == Proven::Password(secret@),
            Credential::PublicKey(key) => credential@ == Proven::PublicKey((*key)@),
        },
        match stage {
            LoginStage::Exchanging(on) => stage@ == LoginAt::Exchanging(on@),
            LoginStage::Requesting { session_id } => stage@ == (LoginAt::Requesting {
                session_id: session_id@,
            }),
            LoginStage::Presenting { session_id } => stage@ == (LoginAt::Presenting {
                session_id: session_id@,
            }),
        },
        match moved {
            LoginMoved::Go { at, keys, messages: due } => {
                &&& turn matches LoginTurn::Go { login, keys: held, sent }
                &&& login.stage@ == at
                &&& login.user@ == user
                &&& login.credential@ == proven
                &&& match held {
                    Some((tx, rx)) => keys == Some((tx@, rx@)),
                    None => keys is None,
                }
                &&& sent@.len() == due.len()
                &&& forall|i: int| 0 <= i < due.len() ==> #[trigger] sent@[i]@ == due[i]
            },
            LoginMoved::Connected { session_id } => turn matches LoginTurn::Connected(client)
                && client@ == session_id,
        },
{
    if let LoginMoved::Go { messages: due, .. } = moved {
        let sent = turn->sent@;
        assert(messages(sent) == due);
        assert forall|i: int| 0 <= i < due.len() implies #[trigger] sent[i]@ == due[i] by {
            assert(messages(sent)[i] == sent[i]@);
        }
    }
}

/// The ephemeral secret of a login is drawn after the server's offer, and at no other time.
pub proof fn law_when_a_login_draws_its_secret(at: LoginAt)
    ensures
        at.draws() <==> (at matches LoginAt::Exchanging(on) && on is Offered),
{
}

} // verus!
