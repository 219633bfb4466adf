//! The far end: a minimal SSH server that offers the `sftp` subsystem over a directory held in
//! memory, so that both ends of one exchange can be on one machine. It is not a general SSH
//! server: one connection, one channel, one directory, every credential admitted.
//!
//! A visit is begun with [`Visit::begin`] once the peer's identification is known, and goes on
//! with every message that arrives, [`serve`] giving the messages to send, until the client has
//! closed its channel.

use vstd::prelude::*;
use vstd::string::*;

use crate::channel::{
    bare_message, confirmation_message, fresh, messages, none, only, session_opened,
    subsystem_asked, AcceptStage, AcceptTurn, Channel, Stream, CHANNEL_SUCCESS,
};
use crate::cipher::{Cipher, Sealing};
use crate::client::seals;
use crate::directory::{attend, Desk, Finish, Handles, Held};
use crate::error::Error;
use crate::kex::{
    ephemeral, init_in, offer, read_init, server_offer, server_step, server_with, Moved, ServerAt, ServerStage,
    ServerTurn, IDENTIFICATION,
};
use crate::keys::SigningKey;
use crate::layout::{fields, law_the_opening_field_by_field, reads, Field};
use crate::names::NameMap;
use crate::subsystem::Files;
use crate::userauth::{serve_step, Authenticated, ServeStage, ServeTurn, Serving, Who};

verus! {

/// What one served connection left behind: the files, and who the peer was.
pub struct Served {
    /// The directory as it stands after the exchange.
    pub files: Files,
    /// Who authenticated and how.
    pub who: Authenticated,
    /// The session identifier the public-key signature was made over.
    pub session_id: Vec<u8>,
}

/// What one served connection left behind.
pub ghost struct Left {
    pub files: Map<Seq<char>, Seq<u8>>,
    pub who: Who,
    pub session_id: Seq<u8>,
}

impl View for Served {
    type V = Left;

    open spec fn view(&self) -> Left {
        Left { files: self.files@, who: self.who@, session_id: self.session_id@ }
    }
}

/// How far a visit has come.
pub enum VisitStage {
    /// The keys are being exchanged.
    Exchanging(ServerStage),
    /// The client is authenticating.
    Authenticating { session_id: Vec<u8>, stage: ServeStage },
    /// The client is opening its channel.
    Accepting { session_id: Vec<u8>, who: Authenticated, stage: AcceptStage },
    /// The client is served.
    Serving {
        session_id: Vec<u8>,
        who: Authenticated,
        channel: Channel,
        handles: Handles,
        next: u64,
    },
}

/// How far a visit has come.
pub ghost enum VisitAt {
    Exchanging(ServerAt),
    Authenticating { session_id: Seq<u8>, stage: ServeStage },
    Accepting { session_id: Seq<u8>, who: Who, stage: AcceptStage },
    Serving {
        session_id: Seq<u8>,
        who: Who,
        stream: Stream,
        handles: Map<Seq<char>, Held>,
        next: u64,
    },
}

impl View for VisitStage {
    type V = VisitAt;

    open spec fn view(&self) -> VisitAt {
        match *self {
            VisitStage::Exchanging(stage) => VisitAt::Exchanging(stage@),
            VisitStage::Authenticating { session_id, stage } => VisitAt::Authenticating {
                session_id: session_id@,
                stage,
            },
            VisitStage::Accepting { session_id, who, stage } => VisitAt::Accepting {
                session_id: session_id@,
                who: who@,
                stage,
            },
            VisitStage::Serving { session_id, who, channel, handles, next } => VisitAt::Serving {
                session_id: session_id@,
                who: who@,
                stream: channel@,
                handles: handles@,
                next,
            },
        }
    }
}

/// One connection that is being served from `files`.
pub struct Visit {
    pub files: Files,
    pub stage: VisitStage,
}

/// One connection that is being served.
pub ghost struct Visited {
    pub files: Map<Seq<char>, Seq<u8>>,
    pub at: VisitAt,
}

impl View for Visit {
    type V = Visited;

    open spec fn view(&self) -> Visited {
        Visited { files: self.files@, at: self.stage@ }
    }
}

impl Visited {
    /// Whether the message that is due is the one after which the ephemeral secret is drawn.
    pub open spec fn draws(self) -> bool {
        self.at matches VisitAt::Exchanging(at) && at is Agreed
    }
}

/// What comes of a visit.
pub enum VisitThen {
    /// It awaits another message.
    Wait(Visit),
    /// The client has closed its channel.
    Done(Served),
    /// It is given up.
    Failed(Error),
}

/// What comes of a visit.
pub ghost enum VisitedThen {
    Wait(Visited),
    Done(Left),
    Failed(Error),
}

impl View for VisitThen {
    type V = VisitedThen;

    open spec fn view(&self) -> VisitedThen {
        match *self {
            VisitThen::Wait(visit) => VisitedThen::Wait(visit@),
            VisitThen::Done(served) => VisitedThen::Done(served@),
            VisitThen::Failed(error) => VisitedThen::Failed(error),
        }
    }
}

/// What a message does to a visit: switch to `keys`, where there are any (what goes out, then
/// what comes in), then send these.
pub struct VisitTurn {
    pub keys: Option<(Cipher, Cipher)>,
    pub sent: Vec<Vec<u8>>,
    pub outcome: VisitThen,
}

/// What a message does to a visit.
pub ghost struct VisitMoved {
    pub keys: Option<(Sealing, Sealing)>,
    pub sent: Seq<Seq<u8>>,
    pub outcome: VisitedThen,
}

impl View for VisitTurn {
    type V = VisitMoved;

    open spec fn view(&self) -> VisitMoved {
        VisitMoved { keys: seals(self.keys), sent: messages(self.sent@), outcome: self.outcome@ }
    }
}

/// A visit that awaits another message after some were sent.
pub open spec fn goes_on(
    files: Map<Seq<char>, Seq<u8>>,
    at: VisitAt,
    sent: Seq<Seq<u8>>,
) -> VisitMoved {
    VisitMoved { keys: None, sent, outcome: VisitedThen::Wait(Visited { files, at }) }
}

/// A visit that is given up with nothing more to send.
pub open spec fn given_up(error: Error) -> VisitMoved {
    VisitMoved { keys: None, sent: Seq::empty(), outcome: VisitedThen::Failed(error) }
}

/// What a message does to a visit, `host` being the seed of the key the far end signs with and
/// `secret` the ephemeral secret where one is drawn.
pub open spec fn visit_step(
    visited: Visited,
    message: Seq<u8>,
    host: Seq<u8>,
    secret: Seq<u8>,
) -> VisitMoved {
    let files = visited.files;
    match visited.at {
        VisitAt::Exchanging(at) => match server_step(at, message, host, secret) {
            Err(error) => given_up(error),
            Ok(Moved::Send { at, messages }) => goes_on(
                files,
                VisitAt::Exchanging(at),
                messages,
            ),
            Ok(Moved::Done { session_id, tx, rx }) => VisitMoved {
                keys: Some((tx, rx)),
                ..goes_on(
                    files,
                    VisitAt::Authenticating { session_id, stage: ServeStage::Listening },
                    Seq::empty(),
                )
            },
        },
        VisitAt::Authenticating { session_id, stage } => match serve_step(
            stage,
            message,
            session_id,
        ) {
            Err(error) => given_up(error),
            Ok(Serving::Send { stage, message }) => goes_on(
                files,
                VisitAt::Authenticating { session_id, stage },
                seq![message],
            ),
            Ok(Serving::Admitted { who, message }) => goes_on(
                files,
                VisitAt::Accepting { session_id, who, stage: AcceptStage::Listening },
                seq![message],
            ),
        },
        VisitAt::Accepting { session_id, who, stage: AcceptStage::Listening } => match session_opened(
            message,
        ) {
            Err(error) => given_up(error),
            Ok((remote_id, largest)) => goes_on(
                files,
                VisitAt::Accepting {
                    session_id,
                    who,
                    stage: AcceptStage::Confirmed { remote_id, largest },
                },
                seq![confirmation_message(remote_id)],
            ),
        },
        VisitAt::Accepting {
            session_id,
            who,
            stage: AcceptStage::Confirmed { remote_id, largest },
        } => match subsystem_asked(message) {
            Err(error) => given_up(error),
            Ok(_) => goes_on(
                files,
                VisitAt::Serving {
                    session_id,
                    who,
                    stream: fresh(remote_id, largest),
                    handles: Map::empty(),
                    next: 0,
                },
                seq![bare_message(CHANNEL_SUCCESS, remote_id)],
            ),
        },
        VisitAt::Serving { session_id, who, stream, handles, next } => match stream.pump(message) {
            Err(error) => given_up(error),
            Ok((stream, more)) => {
                let done = attend(Desk { files, handles, next }, stream, more);
                VisitMoved {
                    keys: None,
                    sent: done.messages,
                    outcome: match done.finish {
                        Some(Finish::End) => VisitedThen::Done(
                            Left { files: done.desk.files, who, session_id },
                        ),
                        Some(Finish::Failed(error)) => VisitedThen::Failed(error),
                        _ => VisitedThen::Wait(
                            Visited {
                                files: done.desk.files,
                                at: VisitAt::Serving {
                                    session_id,
                                    who,
                                    stream: done.stream,
                                    handles: done.desk.handles,
                                    next: done.desk.next,
                                },
                            },
                        ),
                    },
                }
            },
        },
    }
}

impl Visit {
    /// Begin to serve the peer that identified itself as `peer`, over `files`: the key-exchange
    /// offer to send.
    pub fn begin(peer: &str, files: Files) -> (begun: Result<(Self, Vec<u8>), Error>)
        ensures
            match begun {
                Ok((visit, message)) => {
                    &&& visit@ == (Visited {
                        files: files@,
                        at: VisitAt::Exchanging(
                            ServerAt::Offered {
                                v_c: peer@,
                                v_s: IDENTIFICATION@,
                                i_s: message@,
                            },
                        ),
                    })
                    &&& exists|cookie: Seq<u8>|
                        cookie.len() == 16 && message@ == #[trigger] offer(cookie)
                },
                Err(error) => error == Error::NoCookie,
            },
    {
        let (stage, message) = server_offer(peer, IDENTIFICATION)?;
        Ok((Visit { files, stage: VisitStage::Exchanging(stage) }, message))
    }
}

fn give_up(error: Error) -> (turn: VisitTurn)
    ensures
        turn@ == given_up(error),
{
    VisitTurn { keys: None, sent: none(), outcome: VisitThen::Failed(error) }
}

/// Serve one connection, signing as `host`: what the message that was due brings about.
pub fn serve(visit: Visit, message: &[u8], host: &SigningKey) -> (turn: VisitTurn)
    ensures
        (exists|secret: Seq<u8>|
            secret.len() == 32 && turn@ == #[trigger] visit_step(visit@, message@, host@, secret))
            || turn@ == given_up(Error::NoSecret) && visit@.draws() && init_in(message@) is Ok,
{
    let draws = match &visit.stage {
        VisitStage::Exchanging(stage) => match stage {
            ServerStage::Agreed { .. } => read_init(message).is_ok(),
            _ => false,
        },
        _ => false,
    };
    let secret = if draws {
        match ephemeral() {
            Ok((secret, _)) => secret,
            Err(_) => {
                return give_up(Error::NoSecret);
            },
        }
    } else {
        [0u8; 32]
    };
    let turn = serve_with(visit, message, host, &secret);
    assert(turn@ == visit_step(visit@, message@, host@, secret@));
    turn
}

/// Serve one connection, `secret` being the ephemeral secret where this is the message after
/// which one is drawn.
pub fn serve_with(visit: Visit, message: &[u8], host: &SigningKey, secret: &[u8; 32]) -> (turn:
    VisitTurn)
    ensures
        turn@ == visit_step(visit@, message@, host@, secret@),
{
    let Visit { files, stage } = visit;
    match stage {
        VisitStage::Exchanging(stage) => match server_with(stage, message, host, secret) {
            Err(error) => give_up(error),
            Ok(ServerTurn::Send { stage, sent }) => VisitTurn {
                keys: None,
                sent,
                outcome: VisitThen::Wait(Visit { files, stage: VisitStage::Exchanging(stage) }),
            },
            Ok(ServerTurn::Done { exchanged, tx, rx }) => VisitTurn {
                keys: Some((tx, rx)),
                sent: none(),
                outcome: VisitThen::Wait(
                    Visit {
                        files,
                        stage: VisitStage::Authenticating {
                            session_id: exchanged.session_id,
                            stage: ServeStage::Listening,
                        },
                    },
                ),
            },
        },
        VisitStage::Authenticating { session_id, stage } => authenticate_on(
            files,
            session_id,
            stage,
            message,
        ),
        VisitStage::Accepting { session_id, who, stage } => match Channel::accept(stage, message) {
            Err(error) => give_up(error),
            Ok(AcceptTurn::Send { stage, message }) => VisitTurn {
                keys: None,
                sent: only(message),
                outcome: VisitThen::Wait(
                    Visit { files, stage: VisitStage::Accepting { session_id, who, stage } },
                ),
            },
            Ok(AcceptTurn::Open { channel, message }) => VisitTurn {
                keys: None,
                sent: only(message),
                outcome: VisitThen::Wait(
                    Visit {
                        files,
                        stage: VisitStage::Serving {
                            session_id,
                            who,
                            channel,
                            handles: NameMap::new(),
                            next: 0,
                        },
                    },
                ),
            },
        },
        VisitStage::Serving { session_id, who, channel, handles, next } => serve_on(
            files,
            session_id,
            who,
            channel,
            handles,
            next,
            message,
        ),
    }
}

fn authenticate_on(files: Files, session_id: Vec<u8>, stage: ServeStage, message: &[u8]) -> (turn:
    VisitTurn)
    ensures
        forall|host: Seq<u8>, secret: Seq<u8>|
            turn@ == #[trigger] visit_step(
                Visited {
                    files: files@,
                    at: VisitAt::Authenticating { session_id: session_id@, stage },
                },
                message@,
                host,
                secret,
            ),
{
    match crate::userauth::serve(stage, message, &session_id) {
        Err(error) => give_up(error),
        Ok(ServeTurn::Send { stage, message }) => VisitTurn {
            keys: None,
            sent: only(message),
            outcome: VisitThen::Wait(
                Visit { files, stage: VisitStage::Authenticating { session_id, stage } },
            ),
        },
        Ok(ServeTurn::Admitted { who, message }) => VisitTurn {
            keys: None,
            sent: only(message),
            outcome: VisitThen::Wait(
                Visit {
                    files,
                    stage: VisitStage::Accepting {
                        session_id,
                        who,
                        stage: AcceptStage::Listening,
                    },
                },
            ),
        },
    }
}

fn serve_on(
    files: Files,
    session_id: Vec<u8>,
    who: Authenticated,
    channel: Channel,
    handles: Handles,
    next: u64,
    message: &[u8],
) -> (turn: VisitTurn)
    ensures
        forall|host: Seq<u8>, secret: Seq<u8>|
            turn@ == #[trigger] visit_step(
                Visited {
                    files: files@,
                    at: VisitAt::Serving {
                        session_id: session_id@,
                        who: who@,
                        stream: channel@,
                        handles: handles@,
                        next,
                    },
                },
                message@,
                host,
                secret,
            ),
{
    let mut files = files;
    let mut channel = channel;
    let mut handles = handles;
    let mut next: u64 = next;
    match channel.pump(message) {
        Err(error) => give_up(error),
        Ok(more) => {
            let (sent, finish) = crate::directory::serve(
                &mut channel,
                &mut files,
                &mut handles,
                &mut next,
                more,
            );
            let outcome = match finish {
                Finish::Wait => VisitThen::Wait(
                    Visit {
                        files,
                        stage: VisitStage::Serving { session_id, who, channel, handles, next },
                    },
                ),
                Finish::End => VisitThen::Done(Served { files, who, session_id }),
                Finish::Failed(error) => VisitThen::Failed(error),
            };
            VisitTurn { keys: None, sent, outcome }
        },
    }
}

/// A visit goes through the key exchange: an error ends it, the messages of the exchange go out, and
/// where the keys are exchanged both directions turn to them, nothing goes out, and the service is
/// awaited. The files are not touched.
pub proof fn law_a_visit_begins_with_the_keys(
    files: Map<Seq<char>, Seq<u8>>,
    at: ServerAt,
    message: Seq<u8>,
    host: Seq<u8>,
    secret: Seq<u8>,
)
    ensures
        ({
            let moved = visit_step(
                Visited { files, at: VisitAt::Exchanging(at) },
                message,
                host,
                secret,
            );
            match server_step(at, message, host, secret) {
                Err(error) => moved.keys is None && moved.sent.len() == 0 && moved.outcome
                    == VisitedThen::Failed(error),
                Ok(Moved::Send { at: then, messages }) => moved.keys is None && moved.sent
                    == messages && moved.outcome == VisitedThen::Wait(
                    Visited { files, at: VisitAt::Exchanging(then) },
                ),
                Ok(Moved::Done { session_id, tx, rx }) => moved.keys == Some((tx, rx))
                    && moved.sent.len() == 0 && moved.outcome == VisitedThen::Wait(
                    Visited {
                        files,
                        at: VisitAt::Authenticating { session_id, stage: ServeStage::Listening },
                    },
                ),
            }
        }),
{
}

/// A visit lets its client in as the authentication says: what that sends goes out, and who was
/// admitted is who the visit is of, in the session that was settled. Then the channel is awaited.
pub proof fn law_a_visit_is_of_who_was_admitted(
    files: Map<Seq<char>, Seq<u8>>,
    session_id: Seq<u8>,
    stage: ServeStage,
    message: Seq<u8>,
    host: Seq<u8>,
    secret: Seq<u8>,
)
    ensures
        ({
            let moved = visit_step(
                Visited { files, at: VisitAt::Authenticating { session_id, stage } },
                message,
                host,
                secret,
            );
            &&& moved.keys is None
            &&& match serve_step(stage, message, session_id) {
                Err(error) => moved.sent.len() == 0 && moved.outcome == VisitedThen::Failed(error),
                Ok(Serving::Send { stage: then, message: back }) => moved.sent == seq![back]
                    && moved.outcome == VisitedThen::Wait(
                    Visited { files, at: VisitAt::Authenticating { session_id, stage: then } },
                ),
                Ok(Serving::Admitted { who, message: back }) => moved.sent == seq![back]
                    && moved.outcome == VisitedThen::Wait(
                    Visited {
                        files,
                        at: VisitAt::Accepting { session_id, who, stage: AcceptStage::Listening },
                    },
                ),
            }
        }),
{
}

/// A visit opens one channel: it confirms the session under the client's number, and grants the
/// subsystem with message 99. From then on it serves, with no handle given out and the first
/// numbered 0.
pub proof fn law_a_visit_opens_one_channel(
    files: Map<Seq<char>, Seq<u8>>,
    session_id: Seq<u8>,
    who: Who,
    remote_id: u32,
    largest: u32,
    message: Seq<u8>,
    host: Seq<u8>,
    secret: Seq<u8>,
)
    ensures
        ({
            let moved = visit_step(
                Visited {
                    files,
                    at: VisitAt::Accepting { session_id, who, stage: AcceptStage::Listening },
                },
                message,
                host,
                secret,
            );
            &&& moved.keys is None
            &&& match session_opened(message) {
                Err(error) => moved.sent.len() == 0 && moved.outcome == VisitedThen::Failed(error),
                Ok((id, size)) => moved.sent.len() == 1 && reads(
                    moved.sent[0],
                    fields(Field::Byte(91))
                        .push(Field::Number(id))
                        .push(Field::Number(0))
                        .push(Field::Number(67_108_864))
                        .push(Field::Number(32_768)),
                ) && moved.outcome == VisitedThen::Wait(
                    Visited {
                        files,
                        at: VisitAt::Accepting {
                            session_id,
                            who,
                            stage: AcceptStage::Confirmed { remote_id: id, largest: size },
                        },
                    },
                ),
            }
        }),
        ({
            let moved = visit_step(
                Visited {
                    files,
                    at: VisitAt::Accepting {
                        session_id,
                        who,
                        stage: AcceptStage::Confirmed { remote_id, largest },
                    },
                },
                message,
                host,
                secret,
            );
            &&& moved.keys is None
            &&& match subsystem_asked(message) {
                Err(error) => moved.sent.len() == 0 && moved.outcome == VisitedThen::Failed(error),
                Ok(_) => moved.sent.len() == 1 && reads(
                    moved.sent[0],
                    fields(Field::Byte(99)).push(Field::Number(remote_id)),
                ) && moved.outcome == VisitedThen::Wait(
                    Visited {
                        files,
                        at: VisitAt::Serving {
                            session_id,
                            who,
                            stream: fresh(remote_id, largest),
                            handles: Map::empty(),
                            next: 0,
                        },
                    },
                ),
            }
        }),
{
    match session_opened(message) {
        Ok((id, _)) => {
            law_the_opening_field_by_field(id);
        },
        Err(_) => {},
    }
    law_the_opening_field_by_field(remote_id);
}

/// A visit serves what arrives at the desk as it stands, and its answers go out; it is done where
/// the serving ends, and then leaves the files behind, with who it was and the session; where the
/// serving fails, it does; otherwise it awaits more, with all that it holds.
pub proof fn law_a_visit_leaves_the_files_behind(
    files: Map<Seq<char>, Seq<u8>>,
    session_id: Seq<u8>,
    who: Who,
    stream: Stream,
    handles: Map<Seq<char>, Held>,
    next: u64,
    message: Seq<u8>,
    host: Seq<u8>,
    secret: Seq<u8>,
)
    ensures
        ({
            let moved = visit_step(
                Visited {
                    files,
                    at: VisitAt::Serving { session_id, who, stream, handles, next },
                },
                message,
                host,
                secret,
            );
            &&& moved.keys is None
            &&& match stream.pump(message) {
                Err(error) => moved.sent.len() == 0 && moved.outcome == VisitedThen::Failed(error),
                Ok((held, more)) => {
                    let done = attend(Desk { files, handles, next }, held, more);
                    &&& moved.sent == done.messages
                    &&& done.finish == Some(Finish::End) ==> moved.outcome == VisitedThen::Done(
                        Left { files: done.desk.files, who, session_id },
                    )
                    &&& done.finish matches Some(Finish::Failed(error)) ==> moved.outcome
                        == VisitedThen::Failed(error)
                    &&& done.finish == Some(Finish::Wait) ==> moved.outcome == VisitedThen::Wait(
                        Visited {
                            files: done.desk.files,
                            at: VisitAt::Serving {
                                session_id,
                                who,
                                stream: done.stream,
                                handles: done.desk.handles,
                                next: done.desk.next,
                            },
                        },
                    )
                },
            }
        }),
{
}

/// What a visit, what it left behind and a turn of it stand for is what they hold.
pub proof fn law_a_visit_is_what_it_holds(served: Served, visit: Visit, turn: VisitTurn)
    ensures
        served@.files == served.files@,
        served@.who == served.who@,
        served@.session_id == served.session_id@,
        visit@.files == visit.files@,
        match visit.stage {
            VisitStage::Exchanging(stage) => visit@.at == VisitAt::Exchanging(stage@),
            VisitStage::Authenticating { session_id, stage } => visit@.at == (
            VisitAt::Authenticating { session_id: session_id@, stage }),
            VisitStage::Accepting { session_id, who, stage } => visit@.at == (VisitAt::Accepting {
                session_id: session_id@,
                who: who@,
                stage,
            }),
            VisitStage::Serving { session_id, who, channel, handles, next } => visit@.at == (
            VisitAt::Serving {
                session_id: session_id@,
                who: who@,
                stream: channel@,
                handles: handles@,
                next,
            }),
        },
        match turn.keys {
            Some((tx, rx)) => turn@.keys == Some((tx@, rx@)),
            None => turn@.keys is None,
        },
        turn@.sent.len() == turn.sent@.len(),
        forall|i: int| 0 <= i < turn.sent@.len() ==> #[trigger] turn@.sent[i] == turn.sent@[i]@,
        match turn.outcome {
            VisitThen::Wait(then) => turn@.outcome == VisitedThen::Wait(then@),
            VisitThen::Done(left) => turn@.outcome == VisitedThen::Done(left@),
            VisitThen::Failed(error) => turn@.outcome == VisitedThen::Failed(error),
        },
{
}

/// The ephemeral secret of a visit is drawn after the client's ephemeral key, and at no other time;
/// a visit that is given up sends nothing, switches no keys and leaves only why.
pub proof fn law_when_a_visit_draws_its_secret(visited: Visited, error: Error)
    ensures
        visited.draws() <==> (visited.at matches VisitAt::Exchanging(on) && on is Agreed),
        given_up(error).outcome == VisitedThen::Failed(error),
        given_up(error).keys is None,
        given_up(error).sent.len() == 0,
{
}

} // verus!
