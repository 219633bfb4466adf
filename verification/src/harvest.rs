//! What a whole errand comes to against the far end: a put leaves the file in the directory, a get
//! brings it and a remove takes it out, a listing brings the names, and a harvest brings every
//! file back and leaves none behind, however many requests that takes.

use vstd::prelude::*;

use crate::directory::{query, Desk};
use crate::errand::{fits, follow, harvest_on, Duty, Follow, Gained, Ordered};
use crate::error::Error;
use crate::names::{ascending, law_names_are_totally_ordered, lists};
use crate::packet::next32;
use crate::subsystem::{
    kept, named_body, open_body, step, Came, Doing, Step, F_READ, INIT, NO_SUCH_FILE, OPEN,
    OPENDIR, PROTOCOL, REMOVE,
};
use crate::transfer::{
    converse, countable, law_get_of_no_file_is_refused, law_get_takes_the_file,
    law_list_gives_the_names, law_put_stores_the_file, law_remove_of_no_file_is_refused,
    law_remove_takes_the_file_out, listable, reads, tellable, writes, Talk,
};
use crate::wire::{be32, law_u32_reads_back};

verus! {

/// How an errand has ended: what it brought back, and what the far end holds.
pub ghost struct Ran {
    pub gained: Result<Gained, Error>,
    pub desk: Desk,
}

/// An errand against the far end, from the request of type `kind` with the body `body` on: the
/// far end serves the request, the task goes on with the reply, and the work goes on with what
/// the task comes to. Nothing where the errand has not ended within `turns` requests, or where a
/// packet is longer than its length field can tell. `id` is the number of the request after this
/// one.
pub open spec fn run(
    duty: Duty,
    doing: Doing,
    id: u32,
    kind: u8,
    body: Seq<u8>,
    desk: Desk,
    turns: nat,
) -> Option<Ran>
    decreases turns,
{
    if turns == 0 || !countable(body) {
        None
    } else {
        match query(kind, body) {
            Err(error) => Some(Ran { gained: Err(error), desk }),
            Ok(asked) => if !desk.room(asked) {
                Some(Ran { gained: Err(Error::Unservable), desk })
            } else {
                let (after, reply) = desk.serve(asked);
                let left = (turns - 1) as nat;
                if !countable(reply.body) {
                    None
                } else {
                    match step(doing, id, reply.kind, reply.body) {
                        Err(error) => Some(Ran { gained: Err(error), desk: after }),
                        Ok(Step::Ask { doing, kind, body }) => run(
                            duty,
                            doing,
                            next32(id),
                            kind,
                            body,
                            after,
                            left,
                        ),
                        Ok(Step::Done(came)) => match follow(duty, came, id) {
                            Follow::Done(gained) => Some(Ran { gained: Ok(gained), desk: after }),
                            Follow::Begin { duty, doing, kind, body } => run(
                                duty,
                                doing,
                                next32(id),
                                kind,
                                body,
                                after,
                                left,
                            ),
                        },
                    }
                }
            },
        }
    }
}

/// The errand from what follows a task on.
pub open spec fn run_from(then: Follow, id: u32, desk: Desk, turns: nat) -> Option<Ran> {
    match then {
        Follow::Done(gained) => Some(Ran { gained: Ok(gained), desk }),
        Follow::Begin { duty, doing, kind, body } => run(
            duty,
            doing,
            next32(id),
            kind,
            body,
            desk,
            turns,
        ),
    }
}

/// An order from the start: the subsystem is started first.
pub open spec fn run_order(ordered: Ordered, desk: Desk, turns: nat) -> Option<Ran> {
    run(Duty::Starting(ordered), Doing::Starting, 1, INIT, be32(PROTOCOL), desk, turns)
}

/// An errand that has ended has ended: more turns do not change what it came to.
pub proof fn law_an_errand_comes_to_one_end(
    duty: Duty,
    doing: Doing,
    id: u32,
    kind: u8,
    body: Seq<u8>,
    desk: Desk,
    turns: nat,
    more: nat,
)
    requires
        run(duty, doing, id, kind, body, desk, turns) is Some,
        turns <= more,
    ensures
        run(duty, doing, id, kind, body, desk, more) == run(
            duty,
            doing,
            id,
            kind,
            body,
            desk,
            turns,
        ),
    decreases turns,
{
    if query(kind, body) is Ok && desk.room(query(kind, body)->Ok_0) {
        let (after, reply) = desk.serve(query(kind, body)->Ok_0);
        let left = (turns - 1) as nat;
        let left_more = (more - 1) as nat;
        match step(doing, id, reply.kind, reply.body) {
            Ok(Step::Ask { doing, kind, body }) => {
                law_an_errand_comes_to_one_end(
                    duty,
                    doing,
                    next32(id),
                    kind,
                    body,
                    after,
                    left,
                    left_more,
                );
            },
            Ok(Step::Done(came)) => {
                if let Follow::Begin { duty, doing, kind, body } = follow(duty, came, id) {
                    law_an_errand_comes_to_one_end(
                        duty,
                        doing,
                        next32(id),
                        kind,
                        body,
                        after,
                        left,
                        left_more,
                    );
                }
            },
            Err(_) => {},
        }
    }
}

proof fn lemma_from_more(then: Follow, id: u32, desk: Desk, turns: nat, more: nat)
    requires
        run_from(then, id, desk, turns) is Some,
        turns <= more,
    ensures
        run_from(then, id, desk, more) == run_from(then, id, desk, turns),
{
    if let Follow::Begin { duty, doing, kind, body } = then {
        law_an_errand_comes_to_one_end(
            duty,
            doing,
            next32(id),
            kind,
            body,
            desk,
            turns,
            more,
        );
    }
}

/// An errand goes on from what its task came to.
proof fn lemma_task_then_work(
    duty: Duty,
    doing: Doing,
    id: u32,
    kind: u8,
    body: Seq<u8>,
    desk: Desk,
    turns: nat,
    more: nat,
)
    requires
        converse(doing, id, kind, body, desk, turns) matches Some(talk) && talk.came is Ok
            && run_from(follow(duty, talk.came->Ok_0, talk.id), talk.id, talk.desk, more) is Some,
    ensures
        converse(doing, id, kind, body, desk, turns) matches Some(talk) && run(
            duty,
            doing,
            id,
            kind,
            body,
            desk,
            turns + more,
        ) == run_from(follow(duty, talk.came->Ok_0, talk.id), talk.id, talk.desk, more),
    decreases turns,
{
    let asked = query(kind, body)->Ok_0;
    let (after, reply) = desk.serve(asked);
    match step(doing, id, reply.kind, reply.body) {
        Ok(Step::Ask { doing, kind, body }) => {
            lemma_task_then_work(
                duty,
                doing,
                next32(id),
                kind,
                body,
                after,
                (turns - 1) as nat,
                more,
            );
            assert((turns - 1) as nat + more == (turns + more - 1) as nat);
        },
        Ok(Step::Done(came)) => {
            lemma_from_more(follow(duty, came, id), id, after, more, (turns + more - 1) as nat);
        },
        Err(_) => {},
    }
}

/// The far end speaks the version that the client asks for.
proof fn lemma_started(desk: Desk, turns: nat)
    requires
        turns > 0,
    ensures
        converse(Doing::Starting, 1, INIT, be32(PROTOCOL), desk, turns) == Some(
            Talk { came: Ok(Came::Started), id: 1, desk },
        ),
{
    reveal(query);
    reveal(step);
    assert(be32(PROTOCOL) + Seq::<u8>::empty() =~= be32(PROTOCOL));
    law_u32_reads_back(PROTOCOL, Seq::empty());
}

/// An errand whose task fails is given up with the task's error.
proof fn lemma_task_fails(
    duty: Duty,
    doing: Doing,
    id: u32,
    kind: u8,
    body: Seq<u8>,
    desk: Desk,
    turns: nat,
)
    requires
        converse(doing, id, kind, body, desk, turns) matches Some(talk) && talk.came is Err,
    ensures
        converse(doing, id, kind, body, desk, turns) matches Some(talk) && run(
            duty,
            doing,
            id,
            kind,
            body,
            desk,
            turns,
        ) == Some(Ran { gained: Err(talk.came->Err_0), desk: talk.desk }),
    decreases turns,
{
    if query(kind, body) is Ok && desk.room(query(kind, body)->Ok_0) {
        let (after, reply) = desk.serve(query(kind, body)->Ok_0);
        if let Ok(Step::Ask { doing, kind, body }) = step(doing, id, reply.kind, reply.body) {
            lemma_task_fails(duty, doing, next32(id), kind, body, after, (turns - 1) as nat);
        }
    }
}

/// The one task of an order, its first request being the first after the start: the task against
/// the far end, within `turns` requests.
spec fn one_task(ordered: Ordered, desk: Desk, turns: nat) -> Option<Talk> {
    match follow(Duty::Starting(ordered), Came::Started, 1) {
        Follow::Begin { doing, kind, body, .. } => converse(
            doing,
            next32(1),
            kind,
            body,
            desk,
            turns,
        ),
        Follow::Done(_) => None,
    }
}

/// What a task brings back where nothing follows it.
spec fn brought(came: Came) -> Gained {
    match came {
        Came::Got(bytes) => Gained::Got(bytes),
        Came::Listed(names) => Gained::Listed(names),
        Came::Removed => Gained::Removed,
        _ => Gained::Put,
    }
}

/// An order of one task comes to what its task comes to.
proof fn lemma_order_of_one_task(ordered: Ordered, desk: Desk, left: nat, turns: nat)
    requires
        !(ordered is Harvest),
        one_task(ordered, desk, left) matches Some(talk) && (talk.came matches Ok(came) ==> fits(
            came,
            follow(Duty::Starting(ordered), Came::Started, 1)->duty,
        )),
        turns >= 1 + left,
    ensures
        one_task(ordered, desk, left) matches Some(talk) && run_order(ordered, desk, turns) == Some(
            Ran {
                gained: match talk.came {
                    Ok(came) => Ok(brought(came)),
                    Err(error) => Err(error),
                },
                desk: talk.desk,
            },
        ),
{
    let begun = follow(Duty::Starting(ordered), Came::Started, 1);
    let (duty, doing, kind, body) = (begun->duty, begun->doing, begun->kind, begun->body);
    let talk = one_task(ordered, desk, left)->0;
    match talk.came {
        Ok(_) => {
            lemma_task_then_work(duty, doing, next32(1), kind, body, desk, left, 0);
        },
        Err(_) => {
            lemma_task_fails(duty, doing, next32(1), kind, body, desk, left);
        },
    }
    lemma_started(desk, 1);
    lemma_task_then_work(
        Duty::Starting(ordered),
        Doing::Starting,
        1,
        INIT,
        be32(PROTOCOL),
        desk,
        1,
        left,
    );
    law_an_errand_comes_to_one_end(
        Duty::Starting(ordered),
        Doing::Starting,
        1,
        INIT,
        be32(PROTOCOL),
        desk,
        1 + left,
        turns,
    );
}

/// A client that is sent to put a file comes back with the file in the directory, with the bytes
/// that were put and in place of what was there; no other file has changed.
pub proof fn law_an_errand_puts_the_file(desk: Desk, name: Seq<char>, bytes: Seq<u8>, turns: nat)
    requires
        tellable(name),
        bytes.len() <= isize::MAX,
        desk.next < u64::MAX,
        turns >= 3 + writes(bytes.len()),
    ensures
        run_order(Ordered::Put { name, bytes }, desk, turns) matches Some(ran) && ran.gained == Ok::<
            Gained,
            Error,
        >(Gained::Put) && ran.desk.files == desk.files.insert(name, bytes),
{
    let left = 2 + writes(bytes.len());
    law_put_stores_the_file(desk, name, bytes, 1, left);
    lemma_order_of_one_task(Ordered::Put { name, bytes }, desk, left, turns);
}

/// A client that is sent to get a file comes back with the bytes that the file has, and no file
/// has changed.
pub proof fn law_an_errand_gets_the_file(desk: Desk, name: Seq<char>, turns: nat)
    requires
        tellable(name),
        desk.files.dom().contains(name),
        desk.files[name].len() <= u64::MAX,
        desk.next < u64::MAX,
        turns >= 3 + reads(desk.files[name].len()),
    ensures
        run_order(Ordered::Get { name }, desk, turns) matches Some(ran) && ran.gained == Ok::<
            Gained,
            Error,
        >(Gained::Got(desk.files[name])) && ran.desk.files == desk.files,
{
    let left = 2 + reads(desk.files[name].len());
    law_get_takes_the_file(desk, name, 1, left);
    lemma_order_of_one_task(Ordered::Get { name }, desk, left, turns);
}

/// A client that is sent to get a file that is not there comes back with the refusal, and no file
/// has changed.
pub proof fn law_an_errand_for_no_file_is_refused(desk: Desk, name: Seq<char>, turns: nat)
    requires
        tellable(name),
        !desk.files.dom().contains(name),
        desk.next < u64::MAX,
        turns >= 2,
    ensures
        run_order(Ordered::Get { name }, desk, turns) matches Some(ran) && ran.gained == Err::<
            Gained,
            Error,
        >(Error::Refused { what: "the open", code: NO_SUCH_FILE }) && ran.desk.files == desk.files,
        run_order(Ordered::Remove { name }, desk, turns) matches Some(ran) && ran.gained == Err::<
            Gained,
            Error,
        >(Error::Refused { what: "the remove", code: NO_SUCH_FILE }) && ran.desk.files
            == desk.files,
{
    law_get_of_no_file_is_refused(desk, name, 1, 1);
    lemma_order_of_one_task(Ordered::Get { name }, desk, 1, turns);
    law_remove_of_no_file_is_refused(desk, name, 1, 1);
    lemma_order_of_one_task(Ordered::Remove { name }, desk, 1, turns);
}

/// A client that is sent to list the directory comes back with the names of its files in their
/// order, `.` and `..` left out, and no file has changed.
pub proof fn law_an_errand_lists_the_directory(desk: Desk, names: Seq<Seq<char>>, turns: nat)
    requires
        lists(names, desk.files.dom()),
        listable(names),
        desk.next < u64::MAX,
        turns >= 5,
    ensures
        run_order(Ordered::List, desk, turns) matches Some(ran) && ran.gained == Ok::<
            Gained,
            Error,
        >(Gained::Listed(kept(names))) && ran.desk.files == desk.files,
{
    law_list_gives_the_names(desk, names, 1, 4);
    lemma_order_of_one_task(Ordered::List, desk, 4, turns);
}

/// A client that is sent to remove a file comes back with the file out of the directory, and no
/// other file has changed.
pub proof fn law_an_errand_removes_the_file(desk: Desk, name: Seq<char>, turns: nat)
    requires
        tellable(name),
        desk.files.dom().contains(name),
        turns >= 2,
    ensures
        run_order(Ordered::Remove { name }, desk, turns) matches Some(ran) && ran.gained == Ok::<
            Gained,
            Error,
        >(Gained::Removed) && ran.desk.files == desk.files.remove(name),
{
    law_remove_takes_the_file_out(desk, name, 1, 1);
    lemma_order_of_one_task(Ordered::Remove { name }, desk, 1, turns);
}

/// Files by their names, each with the bytes it has.
pub open spec fn with_bytes(names: Seq<Seq<char>>, files: Map<Seq<char>, Seq<u8>>) -> Seq<
    (Seq<char>, Seq<u8>),
> {
    names.map_values(|name: Seq<char>| (name, files[name]))
}

/// The files but for those with these names.
pub open spec fn but_for(files: Map<Seq<char>, Seq<u8>>, names: Seq<Seq<char>>) -> Map<
    Seq<char>,
    Seq<u8>,
> {
    files.remove_keys(names.to_set())
}

/// Whether each of the files with these names can be harvested.
pub open spec fn harvestable(names: Seq<Seq<char>>, files: Map<Seq<char>, Seq<u8>>) -> bool {
    forall|i: int|
        0 <= i < names.len() ==> tellable(#[trigger] names[i]) && files.dom().contains(names[i])
            && files[names[i]].len() <= u64::MAX
}

/// A harvest from the file after `at` on, `then` being the number of the next request and what
/// the far end holds by then.
spec fn rest_of(
    names: Seq<Seq<char>>,
    at: nat,
    taken: Seq<(Seq<char>, Seq<u8>)>,
    desk: Desk,
    then: (u32, Desk),
    more: nat,
) -> Option<Ran> {
    let name = names[at as int];
    run_from(
        harvest_on(names, at + 1, taken.push((name, desk.files[name])), then.0),
        then.0,
        then.1,
        more,
    )
}

/// One file of a harvest: it is got, then removed.
proof fn lemma_one_file(
    names: Seq<Seq<char>>,
    at: nat,
    taken: Seq<(Seq<char>, Seq<u8>)>,
    id: u32,
    desk: Desk,
) -> (then: (u32, Desk))
    requires
        at < names.len(),
        tellable(names[at as int]),
        desk.files.dom().contains(names[at as int]),
        desk.files[names[at as int]].len() <= u64::MAX,
        desk.next < u64::MAX,
    ensures
        then.1.files == desk.files.remove(names[at as int]),
        then.1.next == desk.next + 1,
        forall|more: nat|
            (#[trigger] rest_of(names, at, taken, desk, then, more)) is Some ==> exists|turns: nat|
                #[trigger] run_from(harvest_on(names, at, taken, id), id, desk, turns) == rest_of(
                    names,
                    at,
                    taken,
                    desk,
                    then,
                    more,
                ),
{
    let name = names[at as int];
    let bytes = desk.files[name];
    let held = taken.push((name, bytes));
    let getting = Duty::Getting { names, at, taken };
    let removing = Duty::Removing { names, at, taken: held };
    let turns = 2 + reads(bytes.len());
    let body = open_body(id, name, F_READ);
    law_get_takes_the_file(desk, name, id, turns);
    let got = converse(Doing::GetOpening, next32(id), OPEN, body, desk, turns)->0;
    law_remove_takes_the_file_out(got.desk, name, got.id, 1);
    let after = Desk { files: got.desk.files.remove(name), ..got.desk };
    let then = (next32(got.id), after);
    assert forall|more: nat|
        (#[trigger] rest_of(names, at, taken, desk, then, more)) is Some implies exists|turns: nat|
        #[trigger] run_from(harvest_on(names, at, taken, id), id, desk, turns) == rest_of(
            names,
            at,
            taken,
            desk,
            then,
            more,
        ) by {
        lemma_task_then_work(
            removing,
            Doing::Removing,
            next32(got.id),
            REMOVE,
            named_body(got.id, name),
            got.desk,
            1,
            more,
        );
        lemma_task_then_work(
            getting,
            Doing::GetOpening,
            next32(id),
            OPEN,
            body,
            desk,
            turns,
            1 + more,
        );
        assert(run_from(harvest_on(names, at, taken, id), id, desk, turns + (1 + more))
            == run_from(harvest_on(names, at + 1, held, then.0), then.0, then.1, more));
    }
    then
}

/// The harvest of the files from `at` on.
#[verifier::rlimit(40)]
proof fn lemma_harvesting(
    names: Seq<Seq<char>>,
    at: nat,
    taken: Seq<(Seq<char>, Seq<u8>)>,
    id: u32,
    desk: Desk,
)
    requires
        at <= names.len(),
        names.no_duplicates(),
        harvestable(names.skip(at as int), desk.files),
        desk.next + (names.len() - at) <= u64::MAX,
    ensures
        exists|turns: nat|
            (#[trigger] run_from(harvest_on(names, at, taken, id), id, desk, turns)) matches Some(
                ran,
            ) && ran.gained == Ok::<Gained, Error>(
                Gained::Harvest(taken + with_bytes(names.skip(at as int), desk.files)),
            ) && ran.desk.files == but_for(desk.files, names.skip(at as int)),
    decreases names.len() - at,
{
    let rest = names.skip(at as int);
    if at == names.len() {
        assert(taken + with_bytes(rest, desk.files) =~= taken);
        assert(but_for(desk.files, rest) =~= desk.files);
        assert(run_from(harvest_on(names, at, taken, id), id, desk, 0) is Some);
    } else {
        let name = names[at as int];
        assert(rest[0] == name);
        let bytes = desk.files[name];
        let held = taken.push((name, bytes));
        let others = names.skip(at as int + 1);
        let (next, after) = lemma_one_file(names, at, taken, id, desk);
        assert(harvestable(others, after.files)) by {
            assert forall|i: int| 0 <= i < others.len() implies tellable(#[trigger] others[i])
                && after.files.dom().contains(others[i]) && after.files[others[i]].len()
                <= u64::MAX by {
                assert(others[i] == rest[i + 1]);
                assert(names[at + 1 + i] != names[at as int]);
            }
        }
        lemma_harvesting(names, at + 1, held, next, after);
        let more = choose|more: nat|
            (#[trigger] run_from(harvest_on(names, at + 1, held, next), next, after, more))
                matches Some(ran) && ran.gained == Ok::<Gained, Error>(
                Gained::Harvest(held + with_bytes(others, after.files)),
            ) && ran.desk.files == but_for(after.files, others);
        let ended = rest_of(names, at, taken, desk, (next, after), more);
        let turns = choose|turns: nat| #[trigger]
            run_from(harvest_on(names, at, taken, id), id, desk, turns) == ended;
        assert(run_from(harvest_on(names, at, taken, id), id, desk, turns) == ended);
        assert(held + with_bytes(others, after.files) =~= taken + with_bytes(rest, desk.files)) by {
            assert forall|i: int| 0 <= i < others.len() implies with_bytes(others, after.files)[i]
                == with_bytes(rest, desk.files)[i + 1] by {
                assert(others[i] == rest[i + 1]);
                assert(names[at + 1 + i] != names[at as int]);
            }
        }
        assert(but_for(after.files, others) =~= but_for(desk.files, rest)) by {
            assert(rest =~= seq![name] + others);
            assert forall|n: Seq<char>| rest.contains(n) <==> (n == name || others.contains(n)) by {
                if others.contains(n) {
                    let i = choose|i: int| 0 <= i < others.len() && others[i] == n;
                    assert(rest[i + 1] == n);
                }
                if rest.contains(n) && n != name {
                    let i = choose|i: int| 0 <= i < rest.len() && rest[i] == n;
                    assert(others[i - 1] == n);
                }
            }
        }
    }
}

/// The names that a listing keeps: all but `.` and `..`, none twice.
proof fn lemma_kept(names: Seq<Seq<char>>)
    requires
        ascending(names),
    ensures
        kept(names).no_duplicates(),
        kept(names).len() <= names.len(),
        forall|name: Seq<char>| #[trigger]
            kept(names).contains(name) <==> names.contains(name) && name != "."@ && name != ".."@,
    decreases names.len(),
{
    let wanted = |name: Seq<char>| name != "."@ && name != ".."@;
    reveal(Seq::filter);
    if names.len() > 0 {
        let front = names.drop_last();
        assert(ascending(front)) by {
            assert forall|i: int, j: int|
                #![trigger front[i], front[j]]
                0 <= i < j < front.len() implies crate::names::before(front[i], front[j]) by {
                assert(crate::names::before(names[i], names[j]));
            }
        }
        lemma_kept(front);
        let last = names.last();
        assert(!front.contains(last)) by {
            if front.contains(last) {
                let i = choose|i: int| 0 <= i < front.len() && front[i] == last;
                assert(crate::names::before(names[i], names[names.len() - 1]));
                law_names_are_totally_ordered(last, last, last);
            }
        }
        let had = kept(front);
        assert forall|name: Seq<char>| #[trigger] kept(names).contains(name) <==> names.contains(
            name,
        ) && name != "."@ && name != ".."@ by {
            assert(names.contains(name) <==> front.contains(name) || name == last) by {
                if names.contains(name) && name != last {
                    let i = choose|i: int| 0 <= i < names.len() && names[i] == name;
                    assert(front[i] == name);
                }
                if front.contains(name) {
                    let i = choose|i: int| 0 <= i < front.len() && front[i] == name;
                    assert(names[i] == name);
                }
                if name == last {
                    assert(names[names.len() - 1] == name);
                }
            }
            if wanted(last) {
                assert(kept(names) == had.push(last));
                if kept(names).contains(name) && name != last {
                    let i = choose|i: int| 0 <= i < kept(names).len() && kept(names)[i] == name;
                    assert(had[i] == name);
                }
                if had.contains(name) {
                    let i = choose|i: int| 0 <= i < had.len() && had[i] == name;
                    assert(kept(names)[i] == name);
                }
                if name == last {
                    assert(kept(names)[had.len() as int] == name);
                }
            }
        }
        if wanted(last) {
            assert(kept(names) == had.push(last));
            assert(!had.contains(last));
        }
    }
}

/// A client that is sent to harvest comes back with every file of the directory, each with the
/// bytes it had and in the order of their names, and leaves the directory empty. A file of the
/// name `.` or `..` is neither brought nor removed.
pub proof fn law_an_errand_harvests_the_directory(desk: Desk, names: Seq<Seq<char>>)
    requires
        lists(names, desk.files.dom()),
        listable(names),
        harvestable(names, desk.files),
        desk.next + names.len() < u64::MAX,
    ensures
        exists|turns: nat|
            (#[trigger] run_order(Ordered::Harvest, desk, turns)) matches Some(ran)
                && ran.gained == Ok::<Gained, Error>(
                Gained::Harvest(with_bytes(kept(names), desk.files)),
            ) && ran.desk.files == but_for(desk.files, kept(names)),
        forall|name: Seq<char>| #[trigger]
            but_for(desk.files, kept(names)).dom().contains(name) ==> name == "."@ || name == ".."@,
{
    let wanted = kept(names);
    lemma_kept(names);
    assert forall|name: Seq<char>| #[trigger]
        but_for(desk.files, wanted).dom().contains(name) implies name == "."@ || name == ".."@ by {
        assert(names.contains(name));
        assert(!wanted.contains(name));
    }
    let body = named_body(1, "."@);
    law_list_gives_the_names(desk, names, 1, 4);
    let talk = converse(Doing::ListOpening, next32(1), OPENDIR, body, desk, 4)->0;
    let none = Seq::<(Seq<char>, Seq<u8>)>::empty();
    assert(wanted.skip(0) =~= wanted);
    assert(harvestable(wanted, desk.files)) by {
        assert forall|i: int| 0 <= i < wanted.len() implies tellable(#[trigger] wanted[i])
            && desk.files.dom().contains(wanted[i]) && desk.files[wanted[i]].len() <= u64::MAX by {
            assert(wanted.contains(wanted[i]));
            let j = choose|j: int| 0 <= j < names.len() && names[j] == wanted[i];
            assert(tellable(names[j]));
        }
    }
    lemma_harvesting(wanted, 0, none, talk.id, talk.desk);
    let more = choose|more: nat|
        (#[trigger] run_from(harvest_on(wanted, 0, none, talk.id), talk.id, talk.desk, more))
            matches Some(ran) && ran.gained == Ok::<Gained, Error>(
            Gained::Harvest(none + with_bytes(wanted, talk.desk.files)),
        ) && ran.desk.files == but_for(talk.desk.files, wanted);
    assert(none + with_bytes(wanted, desk.files) =~= with_bytes(wanted, desk.files));
    lemma_task_then_work(Duty::Listing, Doing::ListOpening, next32(1), OPENDIR, body, desk, 4, more);
    lemma_started(desk, 1);
    lemma_task_then_work(
        Duty::Starting(Ordered::Harvest),
        Doing::Starting,
        1,
        INIT,
        be32(PROTOCOL),
        desk,
        1,
        4 + more,
    );
    assert(run_order(Ordered::Harvest, desk, 1 + (4 + more)) is Some);
}

/// A file that was put by one client is brought by the next one that harvests, with the bytes
/// that were put, and the directory is empty again.
pub proof fn law_a_harvest_brings_what_was_put(name: Seq<char>, bytes: Seq<u8>, desk: Desk)
    requires
        tellable(name),
        listable(seq![name]),
        bytes.len() <= isize::MAX,
        name != "."@,
        name != ".."@,
        desk.files == Map::<Seq<char>, Seq<u8>>::empty().insert(name, bytes),
        desk.next < u64::MAX - 1,
    ensures
        exists|turns: nat|
            (#[trigger] run_order(Ordered::Harvest, desk, turns)) matches Some(ran)
                && ran.gained == Ok::<Gained, Error>(Gained::Harvest(seq![(name, bytes)]))
                && ran.desk.files == Map::<Seq<char>, Seq<u8>>::empty(),
{
    let names = seq![name];
    assert(lists(names, desk.files.dom())) by {
        assert forall|n: Seq<char>| #[trigger] desk.files.dom().contains(n) <==> names.contains(
            n,
        ) by {
            assert(names[0] == name);
        }
    }
    law_an_errand_harvests_the_directory(desk, names);
    assert(kept(names) =~= names) by {
        reveal(Seq::filter);
        assert(names.drop_last() =~= Seq::<Seq<char>>::empty());
        assert(names.last() == name);
    }
    assert(with_bytes(names, desk.files) =~= seq![(name, bytes)]);
    assert(but_for(desk.files, names) =~= Map::<Seq<char>, Seq<u8>>::empty()) by {
        assert(names.contains(names[0]));
    }
    let turns = choose|turns: nat|
        (#[trigger] run_order(Ordered::Harvest, desk, turns)) matches Some(ran) && ran.gained
            == Ok::<Gained, Error>(Gained::Harvest(with_bytes(kept(names), desk.files)))
            && ran.desk.files == but_for(desk.files, kept(names));
    assert(run_order(Ordered::Harvest, desk, turns) is Some);
}

/// A harvest pairs each name with the bytes of its file, and what is left are the files whose names
/// were not harvested, as they were.
pub proof fn law_a_harvest_is_told_file_by_file(
    names: Seq<Seq<char>>,
    files: Map<Seq<char>, Seq<u8>>,
    name: Seq<char>,
)
    ensures
        with_bytes(names, files).len() == names.len(),
        forall|i: int|
            0 <= i < names.len() ==> #[trigger] with_bytes(names, files)[i] == (
                names[i],
                files[names[i]],
            ),
        but_for(files, names).dom().contains(name) <==> files.dom().contains(name)
            && !names.contains(name),
        but_for(files, names).dom().contains(name) ==> but_for(files, names)[name] == files[name],
{
}

} // verus!
