//! What the two ends come to when they meet over one channel: each message that one end sends is
//! handed to the other, however the packets are split into messages, and an errand ends with the
//! far end holding what the errand was to leave there.

use vstd::prelude::*;
use vstd::utf8::encode_utf8;

use crate::channel::{
    bare_message, confirmation_message, confirmed, data_message, data_messages, fresh, goodbye,
    law_the_ends_open_one_channel, law_what_is_written_arrives, lemma_data_is_taken_in, limit,
    open_message, session_opened, subsystem_asked, subsystem_message, AcceptStage, OpenStage,
    Stream, CHANNEL_EOF, CHANNEL_SUCCESS, MAX_CHANNEL_PACKET,
};
use crate::client::{login_step, LoginAt, LoginMoved, Proven};
use crate::crypto::{
    ed25519_holds, ed25519_point, ed25519_public, ed25519_signature, x25519_public, x25519_shared,
};
use crate::directory::{attend, attend_one, query, Attended, Desk, Finish, Query};
use crate::errand::{
    arrive, follow, progress, progress_one, Arrived, Busy, Duty, Follow, Gained, Going,
    Ordered, Pace, Progress, starting,
};
use crate::error::Error;
use crate::harvest::{
    but_for, harvestable, law_an_errand_gets_the_file, law_an_errand_harvests_the_directory,
    law_an_errand_lists_the_directory, law_an_errand_puts_the_file, law_an_errand_removes_the_file,
    run, run_order, with_bytes,
};
use crate::kex::{
    init_message, law_both_ends_settle_one_session, settled, ClientAt, ServerAt, Transcript,
    SERVICE_ACCEPT, SERVICE_REQUEST,
};
use crate::names::lists;
use crate::packet::due;
use crate::server::{goes_on, visit_step, Left, VisitAt, VisitMoved, Visited, VisitedThen};
use crate::subsystem::{
    framed, kept, received, step, Doing, Receiving, Requests, Step, INIT, PROTOCOL,
};
use crate::transfer::{
    countable, law_a_packet_is_received, law_a_request_crosses_the_channel, listable, reads,
    tellable, writes,
};
use crate::userauth::{
    law_a_key_is_admitted_by_its_own_signature, law_a_password_names_the_user_and_keeps_no_key,
    law_the_service_is_granted, service_message, ServeStage, Who, USERAUTH_SUCCESS,
};
use crate::wire::{be32, from_be32, law_u32_reads_back};

verus! {

/// An errand after a run of messages: the messages that are sent, and what it came to. What
/// follows the end is not looked at.
pub open spec fn arrive_all(going: Going, arrived: Seq<Seq<u8>>) -> (Seq<Seq<u8>>, Arrived)
    decreases arrived.len(),
{
    if arrived.len() == 0 {
        (Seq::empty(), Arrived::Wait(going))
    } else {
        let (sent, came) = arrive(going, arrived[0]);
        match came {
            Arrived::Wait(next) => {
                let (more, last) = arrive_all(next, arrived.skip(1));
                (sent + more, last)
            },
            _ => (sent, came),
        }
    }
}

/// A visit after a run of messages: the messages that are sent, and what came of it. What
/// follows the end is not looked at.
pub open spec fn visit_all(
    visited: Visited,
    arrived: Seq<Seq<u8>>,
    host: Seq<u8>,
    secret: Seq<u8>,
) -> (Seq<Seq<u8>>, VisitedThen)
    decreases arrived.len(),
{
    if arrived.len() == 0 {
        (Seq::empty(), VisitedThen::Wait(visited))
    } else {
        let moved = visit_step(visited, arrived[0], host, secret);
        match moved.outcome {
            VisitedThen::Wait(next) => {
                let (more, last) = visit_all(next, arrived.skip(1), host, secret);
                (moved.sent + more, last)
            },
            _ => (moved.sent, moved.outcome),
        }
    }
}

/// A client that is being served, over `stream`.
pub open spec fn served_from(
    desk: Desk,
    stream: Stream,
    who: Who,
    session_id: Seq<u8>,
) -> Visited {
    Visited {
        files: desk.files,
        at: VisitAt::Serving { session_id, who, stream, handles: desk.handles, next: desk.next },
    }
}

/// How a meeting has ended: what the errand brought back, and what became of the visit.
pub ghost struct Met {
    pub gained: Gained,
    pub far: VisitedThen,
}

/// A meeting, from the messages that the client has sent on: they are handed to the far end, the
/// messages that it sends are handed to the client, and so on. Nothing where the errand has not
/// come to a good end within `turns` requests.
pub open spec fn meet(
    busy: Busy,
    visited: Visited,
    sent: Seq<Seq<u8>>,
    host: Seq<u8>,
    secret: Seq<u8>,
    turns: nat,
) -> Option<Met>
    decreases turns,
{
    if turns == 0 {
        None
    } else {
        match visit_all(visited, sent, host, secret) {
            (back, VisitedThen::Wait(next)) => match arrive_all(Going::Running(busy), back) {
                (forth, Arrived::Wait(Going::Running(busy))) => meet(
                    busy,
                    next,
                    forth,
                    host,
                    secret,
                    (turns - 1) as nat,
                ),
                (forth, Arrived::Done(gained)) => Some(
                    Met { gained, far: visit_all(next, forth, host, secret).1 },
                ),
                _ => None,
            },
            _ => None,
        }
    }
}

/// A login at a far end, from the same offers on: the far end answers the client's ephemeral key,
/// the client accepts the answer and both switch to the exchanged keys, what one seals being what
/// the other opens, in both directions, in a session with the exchange hash for its identifier.
/// The premises are what the primitives keep.
pub proof fn law_the_keys_are_exchanged(
    parts: Transcript,
    files: Map<Seq<char>, Seq<u8>>,
    user: Seq<char>,
    proven: Proven,
    host: Seq<u8>,
    here: Seq<u8>,
    there: Seq<u8>,
)
    requires
        parts == settled(parts.v_c, parts.v_s, parts.i_c, parts.i_s, host, here, there),
        x25519_shared(here, x25519_public(there)@) == x25519_shared(there, x25519_public(here)@),
        ed25519_point(ed25519_public(host)@),
        ed25519_holds(
            ed25519_public(host)@,
            parts.hash(),
            ed25519_signature(host, parts.hash())@,
        ),
    ensures
        ({
            let Transcript { v_c, v_s, i_c, i_s, .. } = parts;
            let client = LoginAt::Exchanging(ClientAt::Sent { v_c, v_s, i_c, i_s, secret: here });
            let server = Visited {
                files,
                at: VisitAt::Exchanging(ServerAt::Agreed { v_c, v_s, i_c, i_s }),
            };
            let answer = visit_step(server, init_message(parts.q_c), host, there);
            &&& answer.outcome matches VisitedThen::Wait(answered)
            &&& login_step(client, user, proven, answer.sent[0], here) matches Ok(
                LoginMoved::Go { at: accepted, keys: None, messages: back },
            )
            &&& login_step(accepted, user, proven, answer.sent[1], here) matches Ok(
                LoginMoved::Go { at: near, keys: Some((tx, rx)), messages: first },
            )
            &&& near == (LoginAt::Requesting { session_id: parts.hash() })
            &&& first == seq![service_message(SERVICE_REQUEST)]
            &&& visit_step(answered, back[0], host, there) == (VisitMoved {
                keys: Some((rx, tx)),
                sent: Seq::empty(),
                outcome: VisitedThen::Wait(
                    Visited {
                        files,
                        at: VisitAt::Authenticating {
                            session_id: parts.hash(),
                            stage: ServeStage::Listening,
                        },
                    },
                ),
            })
        }),
{
    law_both_ends_settle_one_session(parts, host, here, there);
}

/// A login in a settled session is let in: the service is asked for and granted, the credential
/// presented and admitted, and the far end has the client down for what the credential says. The
/// premise of a key is that the signature it makes holds.
pub proof fn law_a_client_is_let_in(
    files: Map<Seq<char>, Seq<u8>>,
    user: Seq<char>,
    proven: Proven,
    session_id: Seq<u8>,
    host: Seq<u8>,
    secret: Seq<u8>,
)
    requires
        encode_utf8(user).len() <= u32::MAX,
        proven.tellable(),
        proven.stands(user, session_id),
    ensures
        visit_step(
            Visited {
                files,
                at: VisitAt::Authenticating { session_id, stage: ServeStage::Listening },
            },
            service_message(SERVICE_REQUEST),
            host,
            secret,
        ) == goes_on(
            files,
            VisitAt::Authenticating { session_id, stage: ServeStage::Granted },
            seq![service_message(SERVICE_ACCEPT)],
        ),
        login_step(
            LoginAt::Requesting { session_id },
            user,
            proven,
            service_message(SERVICE_ACCEPT),
            secret,
        ) == Ok::<LoginMoved, Error>(
            LoginMoved::Go {
                at: LoginAt::Presenting { session_id },
                keys: None,
                messages: seq![proven.message(user, session_id)],
            },
        ),
        visit_step(
            Visited {
                files,
                at: VisitAt::Authenticating { session_id, stage: ServeStage::Granted },
            },
            proven.message(user, session_id),
            host,
            secret,
        ) == goes_on(
            files,
            VisitAt::Accepting {
                session_id,
                who: proven.who(user, session_id),
                stage: AcceptStage::Listening,
            },
            seq![seq![USERAUTH_SUCCESS]],
        ),
        login_step(
            LoginAt::Presenting { session_id },
            user,
            proven,
            seq![USERAUTH_SUCCESS],
            secret,
        ) == Ok::<LoginMoved, Error>(LoginMoved::Connected { session_id }),
{
    law_the_service_is_granted(session_id);
    match proven {
        Proven::Password(password) => {
            law_a_password_names_the_user_and_keeps_no_key(user, password, session_id);
        },
        Proven::PublicKey(key) => {
            law_a_key_is_admitted_by_its_own_signature(user, key, session_id);
        },
    }
}

/// A client that was let in opens its channel: the session is opened and confirmed, the subsystem
/// asked for and granted, and the errand begins to start the subsystem at a far end that has its
/// files and no handle open.
pub proof fn law_a_channel_is_opened(
    files: Map<Seq<char>, Seq<u8>>,
    ordered: Ordered,
    who: Who,
    session_id: Seq<u8>,
    host: Seq<u8>,
    secret: Seq<u8>,
)
    ensures
        visit_step(
            Visited {
                files,
                at: VisitAt::Accepting { session_id, who, stage: AcceptStage::Listening },
            },
            open_message(),
            host,
            secret,
        ) == goes_on(
            files,
            VisitAt::Accepting {
                session_id,
                who,
                stage: AcceptStage::Confirmed {
                    remote_id: 0,
                    largest: MAX_CHANNEL_PACKET as u32,
                },
            },
            seq![confirmation_message(0)],
        ),
        arrive(
            Going::Opening { ordered, stage: OpenStage::Asked },
            confirmation_message(0),
        ) == (
            seq![subsystem_message(0)],
            Arrived::Wait(
                Going::Opening {
                    ordered,
                    stage: OpenStage::Requested {
                        remote_id: 0,
                        largest: MAX_CHANNEL_PACKET as u32,
                    },
                },
            ),
        ),
        visit_step(
            Visited {
                files,
                at: VisitAt::Accepting {
                    session_id,
                    who,
                    stage: AcceptStage::Confirmed {
                        remote_id: 0,
                        largest: MAX_CHANNEL_PACKET as u32,
                    },
                },
            },
            subsystem_message(0),
            host,
            secret,
        ) == goes_on(
            files,
            served_from(opened_on(files), fresh(0, MAX_CHANNEL_PACKET as u32), who, session_id).at,
            seq![bare_message(CHANNEL_SUCCESS, 0)],
        ),
        arrive(
            Going::Opening {
                ordered,
                stage: OpenStage::Requested { remote_id: 0, largest: MAX_CHANNEL_PACKET as u32 },
            },
            bare_message(CHANNEL_SUCCESS, 0),
        ) == (
            fresh(0, MAX_CHANNEL_PACKET as u32).sends(framed(INIT, be32(PROTOCOL))),
            Arrived::Wait(Going::Running(starting(ordered, 0, MAX_CHANNEL_PACKET as u32))),
        ),
{
    law_the_ends_open_one_channel(0);
    let largest = MAX_CHANNEL_PACKET as u32;
    lemma_session_is_accepted(files, who, session_id, open_message(), 0, largest, host, secret);
    lemma_session_is_confirmed(ordered, confirmation_message(0), 0, largest);
    lemma_subsystem_is_granted(
        files,
        who,
        session_id,
        subsystem_message(0),
        0,
        largest,
        host,
        secret,
    );
    lemma_subsystem_is_there(ordered, bare_message(CHANNEL_SUCCESS, 0), 0, largest);
}

proof fn lemma_session_is_accepted(
    files: Map<Seq<char>, Seq<u8>>,
    who: Who,
    session_id: Seq<u8>,
    message: Seq<u8>,
    remote_id: u32,
    largest: u32,
    host: Seq<u8>,
    secret: Seq<u8>,
)
    requires
        session_opened(message) == Ok::<(u32, u32), Error>((remote_id, largest)),
    ensures
        visit_step(
            Visited {
                files,
                at: VisitAt::Accepting { session_id, who, stage: AcceptStage::Listening },
            },
            message,
            host,
            secret,
        ) == goes_on(
            files,
            VisitAt::Accepting {
                session_id,
                who,
                stage: AcceptStage::Confirmed { remote_id, largest },
            },
            seq![confirmation_message(remote_id)],
        ),
{
}

proof fn lemma_session_is_confirmed(
    ordered: Ordered,
    message: Seq<u8>,
    remote_id: u32,
    largest: u32,
)
    requires
        confirmed(message) == Ok::<(u32, u32), Error>((remote_id, largest)),
    ensures
        arrive(Going::Opening { ordered, stage: OpenStage::Asked }, message) == (
            seq![subsystem_message(remote_id)],
            Arrived::Wait(
                Going::Opening { ordered, stage: OpenStage::Requested { remote_id, largest } },
            ),
        ),
{
}

proof fn lemma_subsystem_is_granted(
    files: Map<Seq<char>, Seq<u8>>,
    who: Who,
    session_id: Seq<u8>,
    message: Seq<u8>,
    remote_id: u32,
    largest: u32,
    host: Seq<u8>,
    secret: Seq<u8>,
)
    requires
        subsystem_asked(message) == Ok::<(), Error>(()),
    ensures
        visit_step(
            Visited {
                files,
                at: VisitAt::Accepting {
                    session_id,
                    who,
                    stage: AcceptStage::Confirmed { remote_id, largest },
                },
            },
            message,
            host,
            secret,
        ) == goes_on(
            files,
            served_from(opened_on(files), fresh(remote_id, largest), who, session_id).at,
            seq![bare_message(CHANNEL_SUCCESS, remote_id)],
        ),
{
}

proof fn lemma_subsystem_is_there(
    ordered: Ordered,
    message: Seq<u8>,
    remote_id: u32,
    largest: u32,
)
    requires
        due(message, CHANNEL_SUCCESS, "the subsystem confirmation") == Ok::<(), Error>(()),
    ensures
        arrive(
            Going::Opening { ordered, stage: OpenStage::Requested { remote_id, largest } },
            message,
        ) == (
            fresh(remote_id, largest).sends(framed(INIT, be32(PROTOCOL))),
            Arrived::Wait(Going::Running(starting(ordered, remote_id, largest))),
        ),
{
}

/// The beginning of a packet tells the packet's length, once four bytes of it are there.
proof fn lemma_header(kind: u8, body: Seq<u8>, part: Seq<u8>)
    requires
        countable(body),
        part.is_prefix_of(framed(kind, body)),
        part.len() >= 4,
    ensures
        from_be32(part.take(4)) == body.len() + 1,
        part.take(4).len() == 4,
{
    let all = framed(kind, body);
    let count = (body.len() + 1) as u32;
    let rest = seq![kind] + body;
    assert(all =~= be32(count) + rest);
    law_u32_reads_back(count, rest);
    assert(part.take(4) =~= all.take(4));
}

/// The far end waits for the rest of a request.
proof fn lemma_far_waits(desk: Desk, stream: Stream, kind: u8, body: Seq<u8>)
    requires
        countable(body),
        !stream.done(),
        stream.incoming.is_prefix_of(framed(kind, body)),
        stream.incoming.len() < framed(kind, body).len(),
    ensures
        attend(desk, stream, true) == (Attended {
            desk,
            stream,
            messages: Seq::empty(),
            finish: Some(Finish::Wait),
        }),
{
    reveal(attend_one);
    if stream.incoming.len() >= 4 {
        lemma_header(kind, body, stream.incoming);
    }
}

/// The far end answers a request that is there whole.
proof fn lemma_far_answers(desk: Desk, stream: Stream, kind: u8, body: Seq<u8>, asked: Query)
    requires
        countable(body),
        query(kind, body) == Ok::<Query, Error>(asked),
        desk.room(asked),
        countable(desk.serve(asked).1.body),
        !stream.done(),
        stream.incoming == framed(kind, body),
    ensures
        attend(desk, stream, true) == (Attended {
            desk: desk.serve(asked).0,
            stream: Stream { incoming: Seq::empty(), ..stream },
            messages: stream.sends(desk.serve(asked).1.frame()),
            finish: Some(Finish::Wait),
        }),
{
    let none = Stream { incoming: Seq::empty(), ..stream };
    law_a_request_crosses_the_channel(desk, asked, kind, body, none, none);
    law_what_is_written_arrives(none, none.remote_id, none.largest, framed(kind, body));
    assert(none.incoming + framed(kind, body) =~= stream.incoming);
}

/// What a message with more of a request does to a visit.
proof fn lemma_far_takes_in(
    desk: Desk,
    stream: Stream,
    who: Who,
    session_id: Seq<u8>,
    remote_id: u32,
    chunk: Seq<u8>,
    host: Seq<u8>,
    secret: Seq<u8>,
)
    requires
        !stream.done(),
        chunk.len() <= u32::MAX,
        attend(desk, Stream { incoming: stream.incoming + chunk, ..stream }, true).finish == Some(
            Finish::Wait,
        ),
    ensures
        ({
            let next = Stream { incoming: stream.incoming + chunk, ..stream };
            let done = attend(desk, next, true);
            let moved = visit_step(
                served_from(desk, stream, who, session_id),
                data_message(remote_id, chunk),
                host,
                secret,
            );
            &&& moved.sent == done.messages
            &&& moved.outcome == VisitedThen::Wait(
                served_from(done.desk, done.stream, who, session_id),
            )
        }),
{
    lemma_data_is_taken_in(stream, remote_id, chunk);
    assert(desk == (Desk { files: desk.files, handles: desk.handles, next: desk.next }));
}

/// A request that is sent to the far end in messages is answered when the last of them is there.
/// `part` is what has arrived of it, `rest` what is still to come.
proof fn lemma_request_is_answered(
    desk: Desk,
    stream: Stream,
    who: Who,
    session_id: Seq<u8>,
    remote_id: u32,
    largest: u32,
    kind: u8,
    body: Seq<u8>,
    asked: Query,
    rest: Seq<u8>,
    host: Seq<u8>,
    secret: Seq<u8>,
)
    requires
        countable(body),
        query(kind, body) == Ok::<Query, Error>(asked),
        desk.room(asked),
        countable(desk.serve(asked).1.body),
        !stream.done(),
        stream.incoming + rest == framed(kind, body),
        rest.len() > 0,
    ensures
        visit_all(
            served_from(desk, stream, who, session_id),
            data_messages(remote_id, limit(largest), rest),
            host,
            secret,
        ) == (
            stream.sends(desk.serve(asked).1.frame()),
            VisitedThen::Wait(
                served_from(
                    desk.serve(asked).0,
                    Stream { incoming: Seq::empty(), ..stream },
                    who,
                    session_id,
                ),
            ),
        ),
    decreases rest.len(),
{
    reveal_with_fuel(visit_all, 2);
    let most = limit(largest);
    let sent = data_messages(remote_id, most, rest);
    let answer = stream.sends(desk.serve(asked).1.frame());
    if rest.len() <= most {
        let whole = Stream { incoming: stream.incoming + rest, ..stream };
        lemma_far_answers(desk, whole, kind, body, asked);
        lemma_far_takes_in(desk, stream, who, session_id, remote_id, rest, host, secret);
        assert(sent.skip(1) =~= Seq::<Seq<u8>>::empty());
        assert(answer + Seq::<Seq<u8>>::empty() =~= answer);
    } else {
        let chunk = rest.take(most as int);
        let left = rest.skip(most as int);
        let next = Stream { incoming: stream.incoming + chunk, ..stream };
        assert(next.incoming + left =~= framed(kind, body));
        assert(next.incoming.is_prefix_of(framed(kind, body))) by {
            assert(framed(kind, body).subrange(0, next.incoming.len() as int) =~= next.incoming);
        }
        lemma_far_waits(desk, next, kind, body);
        lemma_far_takes_in(desk, stream, who, session_id, remote_id, chunk, host, secret);
        lemma_request_is_answered(
            desk,
            next,
            who,
            session_id,
            remote_id,
            largest,
            kind,
            body,
            asked,
            left,
            host,
            secret,
        );
        assert(sent[0] == data_message(remote_id, chunk));
        assert(sent.skip(1) =~= data_messages(remote_id, most, left));
        assert(Seq::<Seq<u8>>::empty() + answer =~= answer);
    }
}

/// An errand that has received `part` of a packet with `count` bytes behind its length.
spec fn halfway(busy: Busy, part: Seq<u8>, count: nat) -> Busy {
    if part.len() < 4 {
        Busy {
            requests: Requests { due: None, ..busy.requests },
            stream: Stream { incoming: part, ..busy.stream },
            ..busy
        }
    } else {
        Busy {
            requests: Requests { due: Some(count), ..busy.requests },
            stream: Stream { incoming: part.skip(4), ..busy.stream },
            ..busy
        }
    }
}

/// An errand that awaits a reply, nothing of which is there.
pub open spec fn awaits(busy: Busy) -> bool {
    busy.requests.due is None && busy.stream.incoming.len() == 0 && !busy.stream.done()
}

/// The errand `busy` with `chunk` more of what it receives.
spec fn with_chunk(busy: Busy, chunk: Seq<u8>) -> Busy {
    Busy { stream: Stream { incoming: busy.stream.incoming + chunk, ..busy.stream }, ..busy }
}

/// The client waits for the rest of a reply.
#[verifier::rlimit(40)]
proof fn lemma_near_waits(busy: Busy, part: Seq<u8>, chunk: Seq<u8>, kind: u8, body: Seq<u8>)
    requires
        awaits(busy),
        countable(body),
        (part + chunk).is_prefix_of(framed(kind, body)),
        (part + chunk).len() < framed(kind, body).len(),
    ensures
        ({
            let count = body.len() + 1;
            progress(with_chunk(halfway(busy, part, count), chunk), true) == (Progress {
                busy: halfway(busy, part + chunk, count),
                sent: Seq::empty(),
                pace: Pace::Wait,
            })
        }),
{
    reveal(progress_one);
    let count = body.len() + 1;
    let both = part + chunk;
    if both.len() >= 4 {
        lemma_header(kind, body, both);
        if part.len() >= 4 {
            assert(part.skip(4) + chunk =~= both.skip(4));
        }
    }
}

/// The client has received a reply once all of it is there.
proof fn lemma_near_receives(busy: Busy, part: Seq<u8>, chunk: Seq<u8>, kind: u8, body: Seq<u8>)
    requires
        awaits(busy),
        countable(body),
        part + chunk == framed(kind, body),
        chunk.len() > 0,
    ensures
        ({
            let now = with_chunk(halfway(busy, part, body.len() + 1), chunk);
            received(now.requests.due, now.stream, true) == (Receiving::Packet {
                kind,
                body,
                stream: busy.stream,
            })
        }),
{
    let all = framed(kind, body);
    let now = with_chunk(halfway(busy, part, body.len() + 1), chunk);
    let content = seq![kind] + body;
    assert(busy.stream.incoming =~= Seq::<u8>::empty());
    if part.len() < 4 {
        assert(now.stream.incoming =~= all + Seq::<u8>::empty());
        law_a_packet_is_received(now.stream, kind, body, Seq::empty(), true);
    } else {
        assert(now.stream.incoming =~= all.skip(4));
        assert(all.skip(4) =~= content);
        assert(content.take(content.len() as int) =~= content);
        assert(content.skip(1) =~= body);
        assert(content.skip(content.len() as int) =~= Seq::<u8>::empty());
    }
}

/// What a reply brings about: the messages that are sent, and what the errand comes to.
pub open spec fn replied(busy: Busy, kind: u8, body: Seq<u8>) -> (Seq<Seq<u8>>, Arrived) {
    let remote_id = busy.stream.remote_id;
    let id = busy.requests.next_id;
    let asking = |duty: Duty, doing: Doing, kind: u8, body: Seq<u8>|
        (
            busy.stream.sends(framed(kind, body)),
            Arrived::Wait(
                Going::Running(Busy { duty, doing, requests: busy.requests.asked(), ..busy }),
            ),
        );
    match step(busy.doing, id, kind, body) {
        Err(error) => (Seq::empty(), Arrived::Failed(error)),
        Ok(Step::Ask { doing, kind, body }) => asking(busy.duty, doing, kind, body),
        Ok(Step::Done(came)) => match follow(busy.duty, came, id) {
            Follow::Begin { duty, doing, kind, body } => asking(duty, doing, kind, body),
            Follow::Done(gained) => (goodbye(remote_id), Arrived::Done(gained)),
        },
    }
}

/// An errand that awaits a reply goes on awaiting it.
proof fn lemma_nothing_to_go_on_with(busy: Busy)
    requires
        awaits(busy),
    ensures
        progress(busy, true) == (Progress { busy, sent: Seq::empty(), pace: Pace::Wait }),
{
    reveal(progress_one);
}

/// The client goes on with a reply once all of it is there.
proof fn lemma_near_goes_on(busy: Busy, part: Seq<u8>, chunk: Seq<u8>, kind: u8, body: Seq<u8>)
    requires
        awaits(busy),
        countable(body),
        part + chunk == framed(kind, body),
        chunk.len() > 0,
    ensures
        ({
            let then = progress(with_chunk(halfway(busy, part, body.len() + 1), chunk), true);
            let (sent, came) = replied(busy, kind, body);
            &&& then.sent == sent
            &&& came == match then.pace {
                Pace::Done(gained) => Arrived::Done(gained),
                Pace::Failed(error) => Arrived::Failed(error),
                _ => Arrived::Wait(Going::Running(then.busy)),
            }
        }),
{
    let now = with_chunk(halfway(busy, part, body.len() + 1), chunk);
    lemma_near_receives(busy, part, chunk, kind, body);
    let one = progress_one(now, true);
    let id = busy.requests.next_id;
    assert(match step(busy.doing, id, kind, body) {
        Err(error) => one.pace == Pace::Failed(error) && one.sent == Seq::<Seq<u8>>::empty(),
        Ok(Step::Done(came)) => follow(busy.duty, came, id) matches Follow::Done(gained)
            ==> one.pace == Pace::Done(gained) && one.sent == goodbye(busy.stream.remote_id),
        _ => true,
    }) by {
        reveal(progress_one);
    }
    if one.pace is On {
        assert(awaits(one.busy) && replied(busy, kind, body) == (
            one.sent,
            Arrived::Wait(Going::Running(one.busy)),
        )) by {
            reveal(progress_one);
        }
        lemma_nothing_to_go_on_with(one.busy);
        assert(one.sent + Seq::<Seq<u8>>::empty() =~= one.sent);
    } else {
        assert(one.pace is Done || one.pace is Failed) by {
            reveal(progress_one);
        }
        assert(replied(busy, kind, body).0 == one.sent && replied(busy, kind, body).1
            == match one.pace {
            Pace::Done(gained) => Arrived::Done(gained),
            Pace::Failed(error) => Arrived::Failed(error),
            _ => Arrived::Wait(Going::Running(one.busy)),
        }) by {
            reveal(progress_one);
        }
    }
}

/// A reply that is sent to the client in messages is gone on with when the last of them is
/// there. `part` is what has arrived of it, `rest` what is still to come.
#[verifier::rlimit(40)]
proof fn lemma_reply_is_gone_on_with(
    busy: Busy,
    part: Seq<u8>,
    rest: Seq<u8>,
    remote_id: u32,
    largest: u32,
    kind: u8,
    body: Seq<u8>,
)
    requires
        awaits(busy),
        countable(body),
        part + rest == framed(kind, body),
        rest.len() > 0,
    ensures
        arrive_all(
            Going::Running(halfway(busy, part, body.len() + 1)),
            data_messages(remote_id, limit(largest), rest),
        ) == replied(busy, kind, body),
    decreases rest.len(),
{
    reveal_with_fuel(arrive_all, 2);
    let count = body.len() + 1;
    let most = limit(largest);
    let sent = data_messages(remote_id, most, rest);
    let now = halfway(busy, part, count);
    if rest.len() <= most {
        lemma_data_is_taken_in(now.stream, remote_id, rest);
        lemma_near_goes_on(busy, part, rest, kind, body);
        assert(sent[0] == data_message(remote_id, rest));
        assert(sent.skip(1) =~= Seq::<Seq<u8>>::empty());
        let told = replied(busy, kind, body);
        assert(told.0 + Seq::<Seq<u8>>::empty() =~= told.0);
    } else {
        let chunk = rest.take(most as int);
        let left = rest.skip(most as int);
        let both = part + chunk;
        lemma_data_is_taken_in(now.stream, remote_id, chunk);
        assert(both + left =~= framed(kind, body));
        assert(both.is_prefix_of(framed(kind, body))) by {
            assert(framed(kind, body).subrange(0, both.len() as int) =~= both);
        }
        lemma_near_waits(busy, part, chunk, kind, body);
        lemma_reply_is_gone_on_with(busy, both, left, remote_id, largest, kind, body);
        assert(sent[0] == data_message(remote_id, chunk));
        assert(sent.skip(1) =~= data_messages(remote_id, most, left));
        let told = replied(busy, kind, body);
        assert(Seq::<Seq<u8>>::empty() + told.0 =~= told.0);
    }
}

/// A whole reply, from its first message on.
proof fn lemma_whole_reply(busy: Busy, there: Stream, kind: u8, body: Seq<u8>)
    requires
        awaits(busy),
        countable(body),
    ensures
        arrive_all(Going::Running(busy), there.sends(framed(kind, body))) == replied(
            busy,
            kind,
            body,
        ),
{
    let none = Seq::<u8>::empty();
    assert(none + framed(kind, body) =~= framed(kind, body));
    assert(busy.stream.incoming =~= none);
    assert(halfway(busy, none, body.len() + 1) == busy);
    lemma_reply_is_gone_on_with(
        busy,
        none,
        framed(kind, body),
        there.remote_id,
        there.largest,
        kind,
        body,
    );
}

/// A client that says goodbye ends the visit, and what the far end holds is what is left.
proof fn lemma_goodbye(
    desk: Desk,
    stream: Stream,
    who: Who,
    session_id: Seq<u8>,
    remote_id: u32,
    host: Seq<u8>,
    secret: Seq<u8>,
)
    requires
        stream.incoming.len() == 0,
    ensures
        visit_all(
            served_from(desk, stream, who, session_id),
            goodbye(remote_id),
            host,
            secret,
        ).1 == VisitedThen::Done(Left { files: desk.files, who, session_id }),
{
    reveal(attend_one);
    let message = bare_message(CHANNEL_EOF, remote_id);
    assert(goodbye(remote_id)[0] == message);
    assert(message[0] == CHANNEL_EOF);
}

/// An errand over messages comes to what it comes to request by request: where an errand against
/// what the far end holds ends well, the meeting of the two ends does, with the same that is
/// brought back, and what the far end is left with is what it holds then.
pub proof fn law_a_meeting_comes_to_what_the_errand_does(
    busy: Busy,
    desk: Desk,
    there: Stream,
    who: Who,
    session_id: Seq<u8>,
    kind: u8,
    body: Seq<u8>,
    host: Seq<u8>,
    secret: Seq<u8>,
    turns: nat,
)
    requires
        awaits(busy),
        there.incoming.len() == 0,
        !there.done(),
        run(busy.duty, busy.doing, busy.requests.next_id, kind, body, desk, turns) matches Some(
            ran,
        ) && ran.gained is Ok,
    ensures
        ({
            let ran = run(
                busy.duty,
                busy.doing,
                busy.requests.next_id,
                kind,
                body,
                desk,
                turns,
            )->0;
            meet(
                busy,
                served_from(desk, there, who, session_id),
                busy.stream.sends(framed(kind, body)),
                host,
                secret,
                turns,
            ) == Some(
                Met {
                    gained: ran.gained->Ok_0,
                    far: VisitedThen::Done(Left { files: ran.desk.files, who, session_id }),
                },
            )
        }),
    decreases turns,
{
    let id = busy.requests.next_id;
    let asked = query(kind, body)->Ok_0;
    let (after, reply) = desk.serve(asked);
    let left = (turns - 1) as nat;
    let remote_id = busy.stream.remote_id;
    assert(there.incoming =~= Seq::<u8>::empty());
    assert(there.incoming + framed(kind, body) =~= framed(kind, body));
    lemma_request_is_answered(
        desk,
        there,
        who,
        session_id,
        remote_id,
        busy.stream.largest,
        kind,
        body,
        asked,
        framed(kind, body),
        host,
        secret,
    );
    lemma_whole_reply(busy, there, reply.kind, reply.body);
    match step(busy.doing, id, reply.kind, reply.body) {
        Err(_) => {},
        Ok(Step::Ask { doing, kind, body }) => {
            let next = Busy { doing, requests: busy.requests.asked(), ..busy };
            law_a_meeting_comes_to_what_the_errand_does(
                next,
                after,
                there,
                who,
                session_id,
                kind,
                body,
                host,
                secret,
                left,
            );
        },
        Ok(Step::Done(came)) => match follow(busy.duty, came, id) {
            Follow::Begin { duty, doing, kind, body } => {
                let next = Busy { duty, doing, requests: busy.requests.asked(), ..busy };
                law_a_meeting_comes_to_what_the_errand_does(
                    next,
                    after,
                    there,
                    who,
                    session_id,
                    kind,
                    body,
                    host,
                    secret,
                    left,
                );
            },
            Follow::Done(_) => {
                lemma_goodbye(after, there, who, session_id, remote_id, host, secret);
            },
        },
    }
}

/// A put, from the opening of the subsystem on, ends with the file in the directory that the far
/// end is left with: the bytes that were put under the name they were put under, whatever was
/// there before, and every other file as it was.
pub proof fn law_a_put_leaves_the_file(
    name: Seq<char>,
    bytes: Seq<u8>,
    files: Map<Seq<char>, Seq<u8>>,
    here: u32,
    here_largest: u32,
    there: u32,
    there_largest: u32,
    who: Who,
    session_id: Seq<u8>,
    host: Seq<u8>,
    secret: Seq<u8>,
    turns: nat,
)
    requires
        tellable(name),
        bytes.len() <= isize::MAX,
        turns >= 3 + writes(bytes.len()),
    ensures
        meet(
            starting(Ordered::Put { name, bytes }, here, here_largest),
            served_from(opened_on(files), fresh(there, there_largest), who, session_id),
            fresh(here, here_largest).sends(framed(INIT, be32(PROTOCOL))),
            host,
            secret,
            turns,
        ) == Some(
            Met {
                gained: Gained::Put,
                far: VisitedThen::Done(
                    Left { files: files.insert(name, bytes), who, session_id },
                ),
            },
        ),
{
    let busy = starting(Ordered::Put { name, bytes }, here, here_largest);
    law_an_errand_puts_the_file(opened_on(files), name, bytes, turns);
    law_a_meeting_comes_to_what_the_errand_does(
        busy,
        opened_on(files),
        fresh(there, there_largest),
        who,
        session_id,
        INIT,
        be32(PROTOCOL),
        host,
        secret,
        turns,
    );
}

/// What the far end holds when a channel has just been opened.
pub open spec fn opened_on(files: Map<Seq<char>, Seq<u8>>) -> Desk {
    Desk { files, handles: Map::empty(), next: 0 }
}

/// A get, from the opening of the subsystem on, brings the bytes that the file has, and the far
/// end is left with the files as they were.
pub proof fn law_a_get_brings_the_file(
    name: Seq<char>,
    files: Map<Seq<char>, Seq<u8>>,
    here: u32,
    here_largest: u32,
    there: u32,
    there_largest: u32,
    who: Who,
    session_id: Seq<u8>,
    host: Seq<u8>,
    secret: Seq<u8>,
    turns: nat,
)
    requires
        tellable(name),
        files.dom().contains(name),
        files[name].len() <= u64::MAX,
        turns >= 3 + reads(files[name].len()),
    ensures
        meet(
            starting(Ordered::Get { name }, here, here_largest),
            served_from(opened_on(files), fresh(there, there_largest), who, session_id),
            fresh(here, here_largest).sends(framed(INIT, be32(PROTOCOL))),
            host,
            secret,
            turns,
        ) == Some(
            Met {
                gained: Gained::Got(files[name]),
                far: VisitedThen::Done(Left { files, who, session_id }),
            },
        ),
{
    law_an_errand_gets_the_file(opened_on(files), name, turns);
    law_a_meeting_comes_to_what_the_errand_does(
        starting(Ordered::Get { name }, here, here_largest),
        opened_on(files),
        fresh(there, there_largest),
        who,
        session_id,
        INIT,
        be32(PROTOCOL),
        host,
        secret,
        turns,
    );
}

/// A listing, from the opening of the subsystem on, brings the names of the files in their order,
/// `.` and `..` left out, and the far end is left with the files as they were.
pub proof fn law_a_listing_brings_the_names(
    names: Seq<Seq<char>>,
    files: Map<Seq<char>, Seq<u8>>,
    here: u32,
    here_largest: u32,
    there: u32,
    there_largest: u32,
    who: Who,
    session_id: Seq<u8>,
    host: Seq<u8>,
    secret: Seq<u8>,
    turns: nat,
)
    requires
        lists(names, files.dom()),
        listable(names),
        turns >= 5,
    ensures
        meet(
            starting(Ordered::List, here, here_largest),
            served_from(opened_on(files), fresh(there, there_largest), who, session_id),
            fresh(here, here_largest).sends(framed(INIT, be32(PROTOCOL))),
            host,
            secret,
            turns,
        ) == Some(
            Met {
                gained: Gained::Listed(kept(names)),
                far: VisitedThen::Done(Left { files, who, session_id }),
            },
        ),
{
    law_an_errand_lists_the_directory(opened_on(files), names, turns);
    law_a_meeting_comes_to_what_the_errand_does(
        starting(Ordered::List, here, here_largest),
        opened_on(files),
        fresh(there, there_largest),
        who,
        session_id,
        INIT,
        be32(PROTOCOL),
        host,
        secret,
        turns,
    );
}

/// A remove, from the opening of the subsystem on, leaves the far end without the file, and with
/// every other file as it was.
pub proof fn law_a_remove_takes_the_file_out(
    name: Seq<char>,
    files: Map<Seq<char>, Seq<u8>>,
    here: u32,
    here_largest: u32,
    there: u32,
    there_largest: u32,
    who: Who,
    session_id: Seq<u8>,
    host: Seq<u8>,
    secret: Seq<u8>,
    turns: nat,
)
    requires
        tellable(name),
        files.dom().contains(name),
        turns >= 2,
    ensures
        meet(
            starting(Ordered::Remove { name }, here, here_largest),
            served_from(opened_on(files), fresh(there, there_largest), who, session_id),
            fresh(here, here_largest).sends(framed(INIT, be32(PROTOCOL))),
            host,
            secret,
            turns,
        ) == Some(
            Met {
                gained: Gained::Removed,
                far: VisitedThen::Done(Left { files: files.remove(name), who, session_id }),
            },
        ),
{
    law_an_errand_removes_the_file(opened_on(files), name, turns);
    law_a_meeting_comes_to_what_the_errand_does(
        starting(Ordered::Remove { name }, here, here_largest),
        opened_on(files),
        fresh(there, there_largest),
        who,
        session_id,
        INIT,
        be32(PROTOCOL),
        host,
        secret,
        turns,
    );
}

/// A harvest, from the opening of the subsystem on, brings every file of the directory back,
/// each with the bytes it had and in the order of their names, and the far end is left with none
/// but those of the names `.` and `..`.
pub proof fn law_a_harvest_empties_the_directory(
    names: Seq<Seq<char>>,
    files: Map<Seq<char>, Seq<u8>>,
    here: u32,
    here_largest: u32,
    there: u32,
    there_largest: u32,
    who: Who,
    session_id: Seq<u8>,
    host: Seq<u8>,
    secret: Seq<u8>,
)
    requires
        lists(names, files.dom()),
        listable(names),
        harvestable(names, files),
    ensures
        exists|turns: nat|
            (#[trigger] meet(
                starting(Ordered::Harvest, here, here_largest),
                served_from(opened_on(files), fresh(there, there_largest), who, session_id),
                fresh(here, here_largest).sends(framed(INIT, be32(PROTOCOL))),
                host,
                secret,
                turns,
            )) == Some(
                Met {
                    gained: Gained::Harvest(with_bytes(kept(names), files)),
                    far: VisitedThen::Done(
                        Left { files: but_for(files, kept(names)), who, session_id },
                    ),
                },
            ),
        forall|name: Seq<char>| #[trigger]
            but_for(files, kept(names)).dom().contains(name) ==> name == "."@ || name == ".."@,
{
    let desk = opened_on(files);
    law_an_errand_harvests_the_directory(desk, names);
    let turns = choose|turns: nat|
        (#[trigger] run_order(Ordered::Harvest, desk, turns)) matches Some(ran) && ran.gained
            == Ok::<Gained, Error>(Gained::Harvest(with_bytes(kept(names), files)))
            && ran.desk.files == but_for(files, kept(names));
    law_a_meeting_comes_to_what_the_errand_does(
        starting(Ordered::Harvest, here, here_largest),
        desk,
        fresh(there, there_largest),
        who,
        session_id,
        INIT,
        be32(PROTOCOL),
        host,
        secret,
        turns,
    );
}

} // verus!
