//! What a client does over one channel: open it, start the subsystem, put, get or remove one file,
//! list the directory or harvest it, and close the channel. An errand is begun by the client and
//! goes on with every message that arrives, [`Errand::go_on`] giving the messages to send.

use vstd::prelude::*;
use vstd::string::*;
use vstd::utf8::encode_utf8;

use crate::channel::{
    confirmed, data_messages, fresh, goodbye, limit, messages, none, only, open_message,
    subsystem_message, Channel, OpenStage, OpenTurn, Stream, CHANNEL_SUCCESS,
};
use crate::error::Error;
use crate::layout::{fields, law_the_requests_field_by_field, reads, Field};
use crate::names::texts;
use crate::packet::due;
use crate::subsystem::{
    framed, named_body, open_body, received, step, Came, Doing, Outcome, Receiving, Requests, Sftp,
    Step, Task, Turn, F_PUT, F_READ, INIT, OPEN, OPENDIR, PROTOCOL, REMOVE,
};
use crate::text::law_encoding_is_short;
use crate::wire::be32;

verus! {

/// What a client is sent for.
pub enum Order {
    /// Put `bytes` into the directory as `name`.
    Put { name: String, bytes: Vec<u8> },
    /// Get the file `name`, and leave it where it is.
    Get { name: String },
    /// List the names of the files in the directory.
    List,
    /// Remove the file `name`.
    Remove { name: String },
    /// Take and remove every file in the directory.
    Harvest,
}

/// What a client is sent for.
pub ghost enum Ordered {
    Put { name: Seq<char>, bytes: Seq<u8> },
    Get { name: Seq<char> },
    List,
    Remove { name: Seq<char> },
    Harvest,
}

impl View for Order {
    type V = Ordered;

    open spec fn view(&self) -> Ordered {
        match *self {
            Order::Put { name, bytes } => Ordered::Put { name: name@, bytes: bytes@ },
            Order::Get { name } => Ordered::Get { name: name@ },
            Order::List => Ordered::List,
            Order::Remove { name } => Ordered::Remove { name: name@ },
            Order::Harvest => Ordered::Harvest,
        }
    }
}

/// How much of an order is done: the task that is being done belongs to it.
pub enum Work {
    /// The subsystem is being started.
    Starting(Order),
    /// The file is being put.
    Putting,
    /// The file is being got, and nothing follows.
    GettingOne,
    /// The directory is being listed, and nothing follows.
    ListingOnly,
    /// The file is being removed, and nothing follows.
    RemovingOne,
    /// The directory is being listed, to be harvested.
    Listing,
    /// The file `at` is being got.
    Getting { names: Vec<String>, at: usize, taken: Vec<(String, Vec<u8>)> },
    /// The file `at` is got, and being removed.
    Removing { names: Vec<String>, at: usize, taken: Vec<(String, Vec<u8>)> },
}

/// How much of an order is done.
pub ghost enum Duty {
    Starting(Ordered),
    Putting,
    GettingOne,
    ListingOnly,
    RemovingOne,
    Listing,
    Getting { names: Seq<Seq<char>>, at: nat, taken: Seq<(Seq<char>, Seq<u8>)> },
    Removing { names: Seq<Seq<char>>, at: nat, taken: Seq<(Seq<char>, Seq<u8>)> },
}

/// Files, each its name and its bytes.
pub open spec fn pairs(taken: Seq<(String, Vec<u8>)>) -> Seq<(Seq<char>, Seq<u8>)> {
    taken.map_values(|file: (String, Vec<u8>)| (file.0@, file.1@))
}

impl View for Work {
    type V = Duty;

    open spec fn view(&self) -> Duty {
        match *self {
            Work::Starting(order) => Duty::Starting(order@),
            Work::Putting => Duty::Putting,
            Work::GettingOne => Duty::GettingOne,
            Work::ListingOnly => Duty::ListingOnly,
            Work::RemovingOne => Duty::RemovingOne,
            Work::Listing => Duty::Listing,
            Work::Getting { names, at, taken } => Duty::Getting {
                names: texts(names@),
                at: at as nat,
                taken: pairs(taken@),
            },
            Work::Removing { names, at, taken } => Duty::Removing {
                names: texts(names@),
                at: at as nat,
                taken: pairs(taken@),
            },
        }
    }
}

/// What an errand brings back.
pub enum Gain {
    /// The file is in the directory.
    Put,
    /// The bytes of the file.
    Got(Vec<u8>),
    /// The names of the files in the directory.
    Listed(Vec<String>),
    /// The file is out of the directory.
    Removed,
    /// The files that were in the directory, each taken and removed.
    Harvest(Vec<(String, Vec<u8>)>),
}

/// What an errand brings back.
pub ghost enum Gained {
    Put,
    Got(Seq<u8>),
    Listed(Seq<Seq<char>>),
    Removed,
    Harvest(Seq<(Seq<char>, Seq<u8>)>),
}

impl View for Gain {
    type V = Gained;

    open spec fn view(&self) -> Gained {
        match *self {
            Gain::Put => Gained::Put,
            Gain::Got(bytes) => Gained::Got(bytes@),
            Gain::Listed(names) => Gained::Listed(texts(names@)),
            Gain::Removed => Gained::Removed,
            Gain::Harvest(taken) => Gained::Harvest(pairs(taken@)),
        }
    }
}

/// Whether a task belongs to the work that is being done.
pub open spec fn belongs(doing: Doing, duty: Duty) -> bool {
    match duty {
        Duty::Starting(_) => doing is Starting,
        Duty::Putting => doing is PutOpening || doing is Writing || (doing is Closing
            && doing->came is Put),
        Duty::GettingOne => doing is GetOpening || doing is Reading || (doing is Closing
            && doing->came is Got),
        Duty::ListingOnly | Duty::Listing => doing is ListOpening || doing is Listing || (
        doing is Closing && doing->came is Listed),
        Duty::RemovingOne => doing is Removing,
        Duty::Getting { names, at, .. } => at < names.len() && (doing is GetOpening
            || doing is Reading || (doing is Closing && doing->came is Got)),
        Duty::Removing { names, at, .. } => at < names.len() && doing is Removing,
    }
}

/// Whether this is what the work's task comes to.
pub open spec fn fits(came: Came, duty: Duty) -> bool {
    match duty {
        Duty::Starting(_) => came is Started,
        Duty::Putting => came is Put,
        Duty::GettingOne => came is Got,
        Duty::ListingOnly | Duty::Listing => came is Listed,
        Duty::RemovingOne => came is Removed,
        Duty::Getting { names, at, .. } => at < names.len() && came is Got,
        Duty::Removing { names, at, .. } => at < names.len() && came is Removed,
    }
}

/// What follows a task.
pub ghost enum Follow {
    /// Another task is begun with a request.
    Begin { duty: Duty, doing: Doing, kind: u8, body: Seq<u8> },
    /// The work is done.
    Done(Gained),
}

/// The harvest goes on with the file `at`, or is done where there is none.
pub open spec fn harvest_on(
    names: Seq<Seq<char>>,
    at: nat,
    taken: Seq<(Seq<char>, Seq<u8>)>,
    id: u32,
) -> Follow {
    if at < names.len() {
        Follow::Begin {
            duty: Duty::Getting { names, at, taken },
            doing: Doing::GetOpening,
            kind: OPEN,
            body: open_body(id, names[at as int], F_READ),
        }
    } else {
        Follow::Done(Gained::Harvest(taken))
    }
}

/// What follows a task, `id` being the next request's number: a put or a get opens its file, a
/// remove names its own, a listing opens the directory, and what each comes to is brought back; a
/// harvest lists the directory, then gets and removes one file after the other.
pub open spec fn follow(duty: Duty, came: Came, id: u32) -> Follow {
    match duty {
        Duty::Starting(Ordered::Put { name, bytes }) => Follow::Begin {
            duty: Duty::Putting,
            doing: Doing::PutOpening { bytes },
            kind: OPEN,
            body: open_body(id, name, F_PUT),
        },
        Duty::Putting => Follow::Done(Gained::Put),
        Duty::Starting(Ordered::Get { name }) => Follow::Begin {
            duty: Duty::GettingOne,
            doing: Doing::GetOpening,
            kind: OPEN,
            body: open_body(id, name, F_READ),
        },
        Duty::GettingOne => Follow::Done(Gained::Got(came->Got_0)),
        Duty::Starting(Ordered::List) => Follow::Begin {
            duty: Duty::ListingOnly,
            doing: Doing::ListOpening,
            kind: OPENDIR,
            body: named_body(id, "."@),
        },
        Duty::ListingOnly => Follow::Done(Gained::Listed(came->Listed_0)),
        Duty::Starting(Ordered::Remove { name }) => Follow::Begin {
            duty: Duty::RemovingOne,
            doing: Doing::Removing,
            kind: REMOVE,
            body: named_body(id, name),
        },
        Duty::RemovingOne => Follow::Done(Gained::Removed),
        Duty::Starting(Ordered::Harvest) => Follow::Begin {
            duty: Duty::Listing,
            doing: Doing::ListOpening,
            kind: OPENDIR,
            body: named_body(id, "."@),
        },
        Duty::Listing => harvest_on(came->Listed_0, 0, Seq::empty(), id),
        Duty::Getting { names, at, taken } => Follow::Begin {
            duty: Duty::Removing {
                names,
                at,
                taken: taken.push((names[at as int], came->Got_0)),
            },
            doing: Doing::Removing,
            kind: REMOVE,
            body: named_body(id, names[at as int]),
        },
        Duty::Removing { names, at, taken } => harvest_on(names, at + 1, taken, id),
    }
}

/// A task goes on within its work, and comes to what its work awaits.
pub proof fn law_a_task_stays_with_its_work(
    duty: Duty,
    doing: Doing,
    id: u32,
    kind: u8,
    body: Seq<u8>,
)
    requires
        belongs(doing, duty),
    ensures
        match step(doing, id, kind, body) {
            Ok(Step::Ask { doing: next, .. }) => belongs(next, duty),
            Ok(Step::Done(came)) => {
                &&& fits(came, duty)
                &&& follow(duty, came, id) matches Follow::Begin { duty: then, doing: next, .. }
                    ==> belongs(next, then)
            },
            Err(_) => true,
        },
{
    reveal(step);
}

/// What follows a task.
enum Next {
    Begin { work: Work, task: Task, packet: Vec<u8> },
    Done(Gain),
}

impl Next {
    spec fn takes(self, follow: Follow) -> bool {
        match follow {
            Follow::Begin { duty, doing, kind, body } => {
                &&& self is Begin
                &&& self->work@ == duty
                &&& self->task@ == doing
                &&& self->packet@ == framed(kind, body)
            },
            Follow::Done(gained) => self is Done && self->0@ == gained,
        }
    }
}

/// The requests after the next task was begun.
spec fn begun(requests: Requests, follow: Follow) -> Requests {
    match follow {
        Follow::Begin { .. } => requests.asked(),
        Follow::Done(_) => requests,
    }
}

fn get_next(
    names: Vec<String>,
    at: usize,
    taken: Vec<(String, Vec<u8>)>,
    sftp: &mut Sftp,
) -> (next: Next)
    ensures
        next.takes(harvest_on(texts(names@), at as nat, pairs(taken@), old(sftp)@.next_id)),
        final(sftp)@ == begun(
            old(sftp)@,
            harvest_on(texts(names@), at as nat, pairs(taken@), old(sftp)@.next_id),
        ),
{
    if at < names.len() {
        let (task, packet) = sftp.get(names[at].as_str());
        Next::Begin { work: Work::Getting { names, at, taken }, task, packet }
    } else {
        Next::Done(Gain::Harvest(taken))
    }
}

fn remove_next(
    names: Vec<String>,
    at: usize,
    taken: Vec<(String, Vec<u8>)>,
    bytes: Vec<u8>,
    sftp: &mut Sftp,
) -> (next: Next)
    requires
        at < names@.len(),
    ensures
        next.takes(
            Follow::Begin {
                duty: Duty::Removing {
                    names: texts(names@),
                    at: at as nat,
                    taken: pairs(taken@).push((texts(names@)[at as int], bytes@)),
                },
                doing: Doing::Removing,
                kind: REMOVE,
                body: named_body(old(sftp)@.next_id, texts(names@)[at as int]),
            },
        ),
        final(sftp)@ == old(sftp)@.asked(),
{
    let ghost had = taken@;
    let (task, packet) = sftp.remove(names[at].as_str());
    let mut taken = taken;
    taken.push((names[at].clone(), bytes));
    assert(pairs(taken@) =~= pairs(had).push((texts(names@)[at as int], bytes@)));
    Next::Begin { work: Work::Removing { names, at, taken }, task, packet }
}

/// The bytes that a get came to.
fn got(outcome: Outcome) -> (bytes: Vec<u8>)
    requires
        outcome@ is Got,
    ensures
        outcome@ == Came::Got(bytes@),
{
    match outcome {
        Outcome::Got(bytes) => bytes,
        _ => Vec::new(),
    }
}

/// The names that a listing came to.
fn listed(outcome: Outcome) -> (names: Vec<String>)
    requires
        outcome@ is Listed,
    ensures
        outcome@ == Came::Listed(texts(names@)),
{
    match outcome {
        Outcome::Listed(names) => names,
        _ => Vec::new(),
    }
}

/// Go on with the work now that its task has come to `outcome`.
fn next_task(work: Work, outcome: Outcome, sftp: &mut Sftp) -> (next: Next)
    requires
        fits(outcome@, work@),
    ensures
        next.takes(follow(work@, outcome@, old(sftp)@.next_id)),
        final(sftp)@ == begun(old(sftp)@, follow(work@, outcome@, old(sftp)@.next_id)),
{
    match work {
        Work::Starting(Order::Put { name, bytes }) => {
            let (task, packet) = sftp.put(name.as_str(), &bytes);
            Next::Begin { work: Work::Putting, task, packet }
        },
        Work::Putting => Next::Done(Gain::Put),
        Work::Starting(Order::Get { name }) => {
            let (task, packet) = sftp.get(name.as_str());
            Next::Begin { work: Work::GettingOne, task, packet }
        },
        Work::GettingOne => Next::Done(Gain::Got(got(outcome))),
        Work::Starting(Order::List) => {
            let (task, packet) = sftp.list();
            Next::Begin { work: Work::ListingOnly, task, packet }
        },
        Work::ListingOnly => Next::Done(Gain::Listed(listed(outcome))),
        Work::Starting(Order::Remove { name }) => {
            let (task, packet) = sftp.remove(name.as_str());
            Next::Begin { work: Work::RemovingOne, task, packet }
        },
        Work::RemovingOne => Next::Done(Gain::Removed),
        Work::Starting(Order::Harvest) => {
            let (task, packet) = sftp.list();
            Next::Begin { work: Work::Listing, task, packet }
        },
        Work::Listing => {
            let taken: Vec<(String, Vec<u8>)> = Vec::new();
            assert(pairs(taken@) =~= Seq::<(Seq<char>, Seq<u8>)>::empty());
            get_next(listed(outcome), 0, taken, sftp)
        },
        Work::Getting { names, at, taken } => remove_next(names, at, taken, got(outcome), sftp),
        Work::Removing { names, at, taken } => {
            assert(at < names.len());
            get_next(names, at + 1, taken, sftp)
        },
    }
}

/// An errand over an open channel, as it stands.
pub ghost struct Busy {
    pub duty: Duty,
    pub doing: Doing,
    pub requests: Requests,
    pub stream: Stream,
}

/// How an errand goes.
pub ghost enum Pace {
    /// It goes on with what has arrived.
    On,
    /// More has to arrive.
    Wait,
    /// It is done.
    Done(Gained),
    /// It is given up.
    Failed(Error),
}

/// What a reply brings about: how the errand stands, the messages that are sent, how it goes.
pub ghost struct Progress {
    pub busy: Busy,
    pub sent: Seq<Seq<u8>>,
    pub pace: Pace,
}

/// Go on with the reply that the stream begins with.
#[verifier::opaque]
pub open spec fn progress_one(busy: Busy, more: bool) -> Progress {
    let remote_id = busy.stream.remote_id;
    let id = busy.requests.next_id;
    let asking = |duty: Duty, doing: Doing, kind: u8, body: Seq<u8>, stream: Stream|
        Progress {
            busy: Busy {
                duty,
                doing,
                requests: Requests { due: None, ..busy.requests }.asked(),
                stream,
            },
            sent: busy.stream.sends(framed(kind, body)),
            pace: Pace::On,
        };
    match received(busy.requests.due, busy.stream, more) {
        Receiving::Wait { due, stream } => Progress {
            busy: Busy { requests: Requests { due, ..busy.requests }, stream, ..busy },
            sent: Seq::empty(),
            pace: Pace::Wait,
        },
        Receiving::Failed { error, .. } => Progress {
            busy,
            sent: Seq::empty(),
            pace: Pace::Failed(error),
        },
        Receiving::Packet { kind, body, stream } => match step(busy.doing, id, kind, body) {
            Err(error) => Progress { busy, sent: Seq::empty(), pace: Pace::Failed(error) },
            Ok(Step::Ask { doing, kind, body }) => asking(busy.duty, doing, kind, body, stream),
            Ok(Step::Done(came)) => match follow(busy.duty, came, id) {
                Follow::Begin { duty, doing, kind, body } => asking(
                    duty,
                    doing,
                    kind,
                    body,
                    stream,
                ),
                Follow::Done(gained) => Progress {
                    busy,
                    sent: goodbye(remote_id),
                    pace: Pace::Done(gained),
                },
            },
        },
    }
}

/// A reply that was gone on with is off the stream.
pub proof fn lemma_a_reply_is_taken(busy: Busy, more: bool)
    ensures
        progress_one(busy, more).pace is On ==> progress_one(busy, more).busy.stream.incoming.len()
            < busy.stream.incoming.len(),
{
    reveal(progress_one);
}

/// Go on with the replies on the stream, one after the other.
pub open spec fn progress(busy: Busy, more: bool) -> Progress
    decreases busy.stream.incoming.len(),
{
    let one = progress_one(busy, more);
    if one.pace is On {
        proof {
            lemma_a_reply_is_taken(busy, more);
        }
        let then = progress(one.busy, true);
        Progress { sent: one.sent + then.sent, ..then }
    } else {
        one
    }
}

/// An errand over an open channel: the work, the task that is being done of it, and what they
/// are done with.
pub struct Running {
    work: Work,
    task: Task,
    sftp: Sftp,
    channel: Channel,
}

impl View for Running {
    type V = Busy;

    closed spec fn view(&self) -> Busy {
        Busy {
            duty: self.work@,
            doing: self.task@,
            requests: self.sftp@,
            stream: self.channel@,
        }
    }
}

impl Running {
    #[verifier::type_invariant]
    spec fn in_order(self) -> bool {
        belongs(self.task@, self.work@)
    }
}

/// How an errand goes.
enum Stride {
    On { work: Work, task: Task },
    Wait { work: Work, task: Task },
    Done(Gain),
    Failed(Error),
}

/// Go on with the reply that the channel begins with.
fn stride(work: Work, task: Task, sftp: &mut Sftp, channel: &mut Channel, more: bool) -> (went: (
    Vec<Vec<u8>>,
    Stride,
))
    requires
        belongs(task@, work@),
    ensures
        ({
            let busy = Busy {
                duty: work@,
                doing: task@,
                requests: old(sftp)@,
                stream: old(channel)@,
            };
            let due = progress_one(busy, more);
            &&& messages(went.0@) == due.sent
            &&& match went.1 {
                Stride::On { work, task } | Stride::Wait { work, task } => {
                    &&& due.pace == if went.1 is On {
                        Pace::On
                    } else {
                        Pace::Wait
                    }
                    &&& due.busy == (Busy {
                        duty: work@,
                        doing: task@,
                        requests: final(sftp)@,
                        stream: final(channel)@,
                    })
                    &&& belongs(task@, work@)
                },
                Stride::Done(gain) => due.pace == Pace::Done(gain@),
                Stride::Failed(error) => due.pace == Pace::Failed(error),
            }
        }),
{
    reveal(progress_one);
    let (kind, body) = match sftp.recv(channel, more) {
        Ok(Some(packet)) => packet,
        Ok(None) => {
            return (none(), Stride::Wait { work, task });
        },
        Err(error) => {
            return (none(), Stride::Failed(error));
        },
    };
    proof {
        law_a_task_stays_with_its_work(work@, task@, sftp@.next_id, kind, body@);
    }
    match sftp.reply(task, kind, &body) {
        Err(error) => (none(), Stride::Failed(error)),
        Ok(Turn::Request { task, packet }) => (channel.write(&packet), Stride::On { work, task }),
        Ok(Turn::Done(outcome)) => match next_task(work, outcome, sftp) {
            Next::Begin { work, task, packet } => (
                channel.write(&packet),
                Stride::On { work, task },
            ),
            Next::Done(gain) => (channel.close(), Stride::Done(gain)),
        },
    }
}

/// An errand, from the opening of its channel on.
pub enum Errand {
    /// The channel is being opened.
    Opening { order: Order, stage: OpenStage },
    /// The subsystem is there.
    Running(Running),
}

/// An errand, from the opening of its channel on.
pub ghost enum Going {
    Opening { ordered: Ordered, stage: OpenStage },
    Running(Busy),
}

impl View for Errand {
    type V = Going;

    open spec fn view(&self) -> Going {
        match *self {
            Errand::Opening { order, stage } => Going::Opening { ordered: order@, stage },
            Errand::Running(running) => Going::Running(running@),
        }
    }
}

/// What a message brings about.
pub enum Arrival {
    /// The errand awaits another message.
    Wait(Errand),
    /// The errand is done.
    Done(Gain),
    /// The errand is given up.
    Failed(Error),
}

/// What a message brings about.
pub ghost enum Arrived {
    Wait(Going),
    Done(Gained),
    Failed(Error),
}

impl View for Arrival {
    type V = Arrived;

    open spec fn view(&self) -> Arrived {
        match *self {
            Arrival::Wait(errand) => Arrived::Wait(errand@),
            Arrival::Done(gain) => Arrived::Done(gain@),
            Arrival::Failed(error) => Arrived::Failed(error),
        }
    }
}

/// An errand whose channel has just been opened: the subsystem is being started.
pub open spec fn starting(ordered: Ordered, remote_id: u32, largest: u32) -> Busy {
    Busy {
        duty: Duty::Starting(ordered),
        doing: Doing::Starting,
        requests: Requests { next_id: 1, due: None },
        stream: fresh(remote_id, largest),
    }
}

/// The messages that are sent after a message has arrived, and what it brings about.
pub open spec fn arrive(going: Going, message: Seq<u8>) -> (Seq<Seq<u8>>, Arrived) {
    match going {
        Going::Opening { ordered, stage: OpenStage::Asked } => match confirmed(message) {
            Err(error) => (Seq::empty(), Arrived::Failed(error)),
            Ok((remote_id, largest)) => (
                seq![subsystem_message(remote_id)],
                Arrived::Wait(
                    Going::Opening {
                        ordered,
                        stage: OpenStage::Requested { remote_id, largest },
                    },
                ),
            ),
        },
        Going::Opening {
            ordered,
            stage: OpenStage::Requested { remote_id, largest },
        } => match due(message, CHANNEL_SUCCESS, "the subsystem confirmation") {
            Err(error) => (Seq::empty(), Arrived::Failed(error)),
            Ok(_) => (
                fresh(remote_id, largest).sends(framed(INIT, be32(PROTOCOL))),
                Arrived::Wait(Going::Running(starting(ordered, remote_id, largest))),
            ),
        },
        Going::Running(busy) => match busy.stream.pump(message) {
            Err(error) => (Seq::empty(), Arrived::Failed(error)),
            Ok((stream, more)) => {
                let then = progress(Busy { stream, ..busy }, more);
                (
                    then.sent,
                    match then.pace {
                        Pace::Done(gained) => Arrived::Done(gained),
                        Pace::Failed(error) => Arrived::Failed(error),
                        _ => Arrived::Wait(Going::Running(then.busy)),
                    },
                )
            },
        },
    }
}

impl Errand {
    /// Begin an errand: the message that opens its channel.
    pub fn begin(order: Order) -> (begun: (Self, Vec<u8>))
        ensures
            begun.0@ == (Going::Opening { ordered: order@, stage: OpenStage::Asked }),
            begun.1@ == open_message(),
    {
        (Errand::Opening { order, stage: OpenStage::Asked }, Channel::ask())
    }

    /// Go on with the errand now that a message has arrived: the messages to send, and what it
    /// came to.
    pub fn go_on(self, message: &[u8]) -> (went: (Vec<Vec<u8>>, Arrival))
        ensures
            (messages(went.0@), went.1@) == arrive(self@, message@),
    {
        match self {
            Errand::Opening { order, stage } => open_on(order, stage, message),
            Errand::Running(running) => run_on(running, message),
        }
    }
}

fn open_on(order: Order, stage: OpenStage, message: &[u8]) -> (went: (Vec<Vec<u8>>, Arrival))
    ensures
        (messages(went.0@), went.1@) == arrive(
            Going::Opening { ordered: order@, stage },
            message@,
        ),
{
    match Channel::open(stage, message) {
        Err(error) => (none(), Arrival::Failed(error)),
        Ok(OpenTurn::Send { stage, message }) => (
            only(message),
            Arrival::Wait(Errand::Opening { order, stage }),
        ),
        Ok(OpenTurn::Open(channel)) => {
            let (sftp, task, packet) = Sftp::start();
            let sent = channel.write(&packet);
            let running = Running { work: Work::Starting(order), task, sftp, channel };
            (sent, Arrival::Wait(Errand::Running(running)))
        },
    }
}

fn run_on(running: Running, message: &[u8]) -> (went: (Vec<Vec<u8>>, Arrival))
    ensures
        (messages(went.0@), went.1@) == arrive(Going::Running(running@), message@),
{
    proof {
        use_type_invariant(&running);
    }
    let ghost busy = running@;
    let Running { work, task, sftp, channel } = running;
    let mut sent = none();
    let mut channel = channel;
    let more = match channel.pump(message) {
        Ok(more) => more,
        Err(error) => {
            return (sent, Arrival::Failed(error));
        },
    };
    let mut work = work;
    let mut task = task;
    let mut sftp = sftp;
    let mut coming = more;
    let ghost due = progress(Busy { stream: channel@, ..busy }, more);
    assert(Seq::<Seq<u8>>::empty() + due.sent =~= due.sent);
    loop
        invariant
            busy == running@,
            belongs(task@, work@),
            busy.stream.pump(message@) matches Ok((stream, expected)) && due == progress(
                Busy { stream, ..busy },
                expected,
            ),
            ({
                let now = Busy {
                    duty: work@,
                    doing: task@,
                    requests: sftp@,
                    stream: channel@,
                };
                let then = progress(now, coming);
                &&& due.sent == messages(sent@) + then.sent
                &&& due.busy == then.busy
                &&& due.pace == then.pace
            }),
        decreases channel@.incoming.len(),
    {
        let ghost had = sent@;
        let ghost now = Busy { duty: work@, doing: task@, requests: sftp@, stream: channel@ };
        proof {
            lemma_a_reply_is_taken(now, coming);
        }
        let (carried, went) = stride(work, task, &mut sftp, &mut channel, coming);
        let mut carried = carried;
        let ghost parts = carried@;
        sent.append(&mut carried);
        assert(messages(sent@) =~= messages(had) + messages(parts));
        match went {
            Stride::On { work: then_work, task: then_task } => {
                work = then_work;
                task = then_task;
                coming = true;
                proof {
                    let now = Busy {
                        duty: work@,
                        doing: task@,
                        requests: sftp@,
                        stream: channel@,
                    };
                    let then = progress(now, true);
                    assert(messages(had) + (messages(parts) + then.sent) =~= messages(sent@)
                        + then.sent);
                }
            },
            Stride::Wait { work, task } => {
                let waiting = Running { work, task, sftp, channel };
                return (sent, Arrival::Wait(Errand::Running(waiting)));
            },
            Stride::Done(gain) => {
                return (sent, Arrival::Done(gain));
            },
            Stride::Failed(error) => {
                return (sent, Arrival::Failed(error));
            },
        }
    }
}

/// What an order, what an errand brings back, the files that were taken, and the work on an order
/// stand for is what they hold.
pub proof fn law_an_order_is_what_it_holds(
    order: Order,
    gain: Gain,
    work: Work,
    taken: Seq<(String, Vec<u8>)>,
)
    ensures
        match order {
            Order::Put { name, bytes } => order@ == (Ordered::Put { name: name@, bytes: bytes@ }),
            Order::Get { name } => order@ == (Ordered::Get { name: name@ }),
            Order::List => order@ == Ordered::List,
            Order::Remove { name } => order@ == (Ordered::Remove { name: name@ }),
            Order::Harvest => order@ == Ordered::Harvest,
        },
        match gain {
            Gain::Put => gain@ == Gained::Put,
            Gain::Got(bytes) => gain@ == Gained::Got(bytes@),
            Gain::Listed(names) => gain@ == Gained::Listed(texts(names@)),
            Gain::Removed => gain@ == Gained::Removed,
            Gain::Harvest(files) => gain@ == Gained::Harvest(pairs(files@)),
        },
        match work {
            Work::Starting(given) => work@ == Duty::Starting(given@),
            Work::Putting => work@ == Duty::Putting,
            Work::GettingOne => work@ == Duty::GettingOne,
            Work::ListingOnly => work@ == Duty::ListingOnly,
            Work::RemovingOne => work@ == Duty::RemovingOne,
            Work::Listing => work@ == Duty::Listing,
            Work::Getting { names, at, taken } => work@ == (Duty::Getting {
                names: texts(names@),
                at: at as nat,
                taken: pairs(taken@),
            }),
            Work::Removing { names, at, taken } => work@ == (Duty::Removing {
                names: texts(names@),
                at: at as nat,
                taken: pairs(taken@),
            }),
        },
        pairs(taken).len() == taken.len(),
        forall|i: int|
            0 <= i < taken.len() ==> #[trigger] pairs(taken)[i] == (taken[i].0@, taken[i].1@),
{
}

/// An order of one task begins with its request once the subsystem is open: a put opens its file to
/// write it, created and emptied, with the bytes to put; a get opens its file to read it; a remove
/// names its own; a listing opens the directory.
pub proof fn law_an_order_begins_with_its_request(name: Seq<char>, bytes: Seq<u8>, id: u32)
    requires
        encode_utf8(name).len() <= u32::MAX,
    ensures
        ({
            let opened = |flags: u32|
                fields(Field::Number(id))
                    .push(Field::Text(encode_utf8(name)))
                    .push(Field::Number(flags))
                    .push(Field::Number(0));
            let named = |what: Seq<char>|
                fields(Field::Number(id)).push(Field::Text(encode_utf8(what)));
            let came = Came::Started;
            &&& follow(
                Duty::Starting(Ordered::Put { name, bytes }),
                came,
                id,
            ) matches Follow::Begin { duty, doing, kind, body } && duty is Putting && doing == (
            Doing::PutOpening { bytes }) && kind == 3 && reads(body, opened(0x1a))
            &&& follow(
                Duty::Starting(Ordered::Get { name }),
                came,
                id,
            ) matches Follow::Begin { duty, doing, kind, body } && duty is GettingOne
                && doing is GetOpening && kind == 3 && reads(body, opened(1))
            &&& follow(
                Duty::Starting(Ordered::Remove { name }),
                came,
                id,
            ) matches Follow::Begin { duty, doing, kind, body } && duty is RemovingOne
                && doing is Removing && kind == 13 && reads(body, named(name))
            &&& follow(
                Duty::Starting(Ordered::List),
                came,
                id,
            ) matches Follow::Begin { duty, doing, kind, body } && duty is ListingOnly
                && doing is ListOpening && kind == 11 && reads(body, named("."@))
            &&& follow(
                Duty::Starting(Ordered::Harvest),
                came,
                id,
            ) matches Follow::Begin { duty, doing, kind, body } && duty is Listing
                && doing is ListOpening && kind == 11 && reads(body, named("."@))
        }),
{
    law_the_requests_field_by_field(id, name);
    reveal_strlit(".");
    law_encoding_is_short("."@);
    law_the_requests_field_by_field(id, "."@);
}

/// An order of one task is done when its task is, and brings back what that came to: the bytes that
/// were got, the names that were listed, or that it is done.
pub proof fn law_an_order_brings_back_what_its_task_came_to(
    bytes: Seq<u8>,
    names: Seq<Seq<char>>,
    id: u32,
)
    ensures
        follow(Duty::Putting, Came::Put, id) == Follow::Done(Gained::Put),
        follow(Duty::GettingOne, Came::Got(bytes), id) == Follow::Done(Gained::Got(bytes)),
        follow(Duty::ListingOnly, Came::Listed(names), id) == Follow::Done(Gained::Listed(names)),
        follow(Duty::RemovingOne, Came::Removed, id) == Follow::Done(Gained::Removed),
{
}

/// A harvest gets the first file that was listed, and after each one the next; each is removed once
/// it was got, and what it brings back grows by the name of the file and the bytes that were got of
/// it. Where no file is left it is done, with all that were taken.
pub proof fn law_a_harvest_goes_file_by_file(
    names: Seq<Seq<char>>,
    at: nat,
    taken: Seq<(Seq<char>, Seq<u8>)>,
    bytes: Seq<u8>,
    id: u32,
)
    requires
        at < names.len(),
        encode_utf8(names[at as int]).len() <= u32::MAX,
    ensures
        ({
            let named = fields(Field::Number(id)).push(Field::Text(encode_utf8(names[at as int])));
            let got = taken.push((names[at as int], bytes));
            &&& follow(
                Duty::Getting { names, at, taken },
                Came::Got(bytes),
                id,
            ) matches Follow::Begin { duty, doing, kind, body } && duty == (Duty::Removing {
                names,
                at,
                taken: got,
            }) && doing is Removing && kind == 13 && reads(body, named)
            &&& at > 0 ==> (follow(
                Duty::Removing { names, at: (at - 1) as nat, taken },
                Came::Removed,
                id,
            ) matches Follow::Begin { duty, doing, kind, body } && duty == (Duty::Getting {
                names,
                at,
                taken,
            }) && doing is GetOpening && kind == 3 && reads(
                body,
                named.push(Field::Number(1)).push(Field::Number(0)),
            ))
            &&& at == 0 ==> (follow(
                Duty::Listing,
                Came::Listed(names),
                id,
            ) matches Follow::Begin { duty, doing, kind, body } && duty == (Duty::Getting {
                names,
                at: 0,
                taken: Seq::empty(),
            }) && doing is GetOpening && kind == 3 && reads(
                body,
                named.push(Field::Number(1)).push(Field::Number(0)),
            ))
            &&& at + 1 == names.len() ==> follow(
                Duty::Removing { names, at, taken },
                Came::Removed,
                id,
            ) == Follow::Done(Gained::Harvest(taken))
        }),
        follow(Duty::Listing, Came::Listed(Seq::empty()), id) == Follow::Done(
            Gained::Harvest(Seq::empty()),
        ),
{
    law_the_requests_field_by_field(id, names[at as int]);
}

/// A reply that is there whole is gone on with: the task takes its next step, or its work begins
/// another task, and the packet goes out to the peer's channel, framed and in its packet size; an
/// errand that is done says goodbye. A reply that makes no sense ends the errand; one that is not
/// there is awaited.
pub proof fn law_a_reply_is_gone_on_with(busy: Busy, more: bool)
    ensures
        ({
            let id = busy.requests.next_id;
            let went = progress_one(busy, more);
            let out = |kind: u8, body: Seq<u8>|
                data_messages(busy.stream.remote_id, limit(busy.stream.largest), framed(kind, body));
            let numbered = Requests {
                next_id: ((id + 1) % 0x1_0000_0000) as u32,
                due: None,
            };
            match received(busy.requests.due, busy.stream, more) {
                Receiving::Wait { due, stream } => {
                    &&& went.pace is Wait
                    &&& went.sent.len() == 0
                    &&& went.busy == (Busy {
                        requests: Requests { next_id: id, due },
                        stream,
                        ..busy
                    })
                },
                Receiving::Failed { error, .. } => went.pace == Pace::Failed(error)
                    && went.sent.len() == 0,
                Receiving::Packet { kind, body, stream } => match step(
                    busy.doing,
                    id,
                    kind,
                    body,
                ) {
                    Err(error) => went.pace == Pace::Failed(error) && went.sent.len() == 0,
                    Ok(Step::Ask { doing, kind: asked, body: packet }) => {
                        &&& went.pace is On
                        &&& went.sent == out(asked, packet)
                        &&& went.busy == (Busy {
                            duty: busy.duty,
                            doing,
                            requests: numbered,
                            stream,
                        })
                    },
                    Ok(Step::Done(came)) => match follow(busy.duty, came, id) {
                        Follow::Begin { duty, doing, kind: asked, body: packet } => {
                            &&& went.pace is On
                            &&& went.sent == out(asked, packet)
                            &&& went.busy == (Busy { duty, doing, requests: numbered, stream })
                        },
                        Follow::Done(gained) => {
                            &&& went.pace == Pace::Done(gained)
                            &&& went.sent == goodbye(busy.stream.remote_id)
                        },
                    },
                },
            }
        }),
{
    reveal(progress_one);
}

/// Replies are gone on with one after the other, each with the errand as the one before it left it,
/// and what is sent goes out in that order, until one is awaited or the errand ends.
pub proof fn law_replies_are_gone_on_with_in_turn(busy: Busy, more: bool)
    ensures
        ({
            let one = progress_one(busy, more);
            let all = progress(busy, more);
            let later = progress(one.busy, true);
            if one.pace is On {
                &&& all.sent == one.sent + later.sent
                &&& all.busy == later.busy
                &&& all.pace == later.pace
            } else {
                all == one
            }
        }),
{
}

/// An errand opens its channel, asks for the subsystem on it, and starts that with the version;
/// then every message that arrives is taken into the stream, and the errand goes on with the
/// replies that are there. It begins with the first request numbered 1.
pub proof fn law_a_message_brings_the_errand_on(
    ordered: Ordered,
    remote_id: u32,
    largest: u32,
    busy: Busy,
    message: Seq<u8>,
)
    ensures
        match confirmed(message) {
            Err(error) => arrive(Going::Opening { ordered, stage: OpenStage::Asked }, message) == (
                Seq::<Seq<u8>>::empty(),
                Arrived::Failed(error),
            ),
            Ok((id, size)) => {
                let (sent, came) = arrive(
                    Going::Opening { ordered, stage: OpenStage::Asked },
                    message,
                );
                &&& sent == seq![subsystem_message(id)]
                &&& came == Arrived::Wait(
                    Going::Opening {
                        ordered,
                        stage: OpenStage::Requested { remote_id: id, largest: size },
                    },
                )
            },
        },
        ({
            let stage = OpenStage::Requested { remote_id, largest };
            let (sent, came) = arrive(Going::Opening { ordered, stage }, message);
            if message.len() > 0 && message[0] == 99 {
                &&& sent == data_messages(remote_id, limit(largest), framed(1, be32(3)))
                &&& came matches Arrived::Wait(Going::Running(now))
                &&& now.duty == Duty::Starting(ordered)
                &&& now.doing is Starting
                &&& now.requests == (Requests { next_id: 1, due: None })
                &&& now.stream == fresh(remote_id, largest)
            } else {
                sent.len() == 0 && came is Failed
            }
        }),
        ({
            let (sent, came) = arrive(Going::Running(busy), message);
            match busy.stream.pump(message) {
                Err(error) => sent.len() == 0 && came == Arrived::Failed(error),
                Ok((stream, more)) => {
                    let went = progress(Busy { stream, ..busy }, more);
                    &&& sent == went.sent
                    &&& went.pace matches Pace::Done(gained) ==> came == Arrived::Done(gained)
                    &&& went.pace matches Pace::Failed(error) ==> came == Arrived::Failed(error)
                    &&& went.pace is Wait ==> came == Arrived::Wait(Going::Running(went.busy))
                },
            }
        }),
{
}

/// What an errand and what a message brings about stand for is what they hold.
pub proof fn law_an_errand_is_what_it_holds(errand: Errand, arrival: Arrival)
    ensures
        match errand {
            Errand::Opening { order, stage } => errand@ == (Going::Opening {
                ordered: order@,
                stage,
            }),
            Errand::Running(running) => errand@ == Going::Running(running@),
        },
        match arrival {
            Arrival::Wait(then) => arrival@ == Arrived::Wait(then@),
            Arrival::Done(gain) => arrival@ == Arrived::Done(gain@),
            Arrival::Failed(error) => arrival@ == Arrived::Failed(error),
        },
{
}

} // verus!
