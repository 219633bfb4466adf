//! SFTP as a transport: where the server is, who calls there and by what, where a target leads,
//! and what a harvest is handed on as.

use std::time::Duration;

use vstd::prelude::*;
use vstd::string::*;

use crate::client::{Credential, Login, LoginAt, Proven};
use crate::errand::pairs;
use crate::error::Error;
use crate::kex::{offer, ClientAt, IDENTIFICATION};
use crate::keys::SigningKey;

verus! {

/// One file that has arrived, with where it came from.
pub struct Arrived {
    pub origin_uri: String,
    pub bytes: Vec<u8>,
}

/// One file that has arrived: its origin and its bytes.
pub open spec fn arrived(one: Arrived) -> (Seq<char>, Seq<u8>) {
    (one.origin_uri@, one.bytes@)
}

/// The files that have arrived.
pub open spec fn all_arrived(all: Seq<Arrived>) -> Seq<(Seq<char>, Seq<u8>)> {
    all.map_values(|one: Arrived| arrived(one))
}

/// Which ways a transport carries.
#[derive(Clone, Copy, Debug, PartialEq, Eq, Structural)]
pub enum Directions {
    Receive,
    Send,
    Both,
}

/// A claim on what is being picked up that nothing native backs: the far end locks no file.
#[derive(Clone, Copy, Debug, PartialEq, Eq, Structural)]
pub struct NoNativeClaim;

/// Where the first `/` of a text is; its length where there is none.
pub open spec fn first_slash(s: Seq<char>) -> nat
    decreases s.len(),
{
    if s.len() == 0 || s[0] == '/' {
        0
    } else {
        1 + first_slash(s.skip(1))
    }
}

/// What follows the last `/` of a text; all of it where there is none.
pub open spec fn after_last_slash(s: Seq<char>) -> Seq<char>
    decreases s.len(),
{
    if s.len() == 0 || s.last() == '/' {
        Seq::empty()
    } else {
        after_last_slash(s.drop_last()).push(s.last())
    }
}

/// Whether a path ends with this name, no `/` in it, and right before it either a `/` or nothing.
pub open spec fn ends_with_segment(path: Seq<char>, name: Seq<char>) -> bool {
    &&& name.len() <= path.len()
    &&& path.skip(path.len() - name.len()) == name
    &&& forall|i: int| 0 <= i < name.len() ==> name[i] != '/'
    &&& name.len() == path.len() || path[path.len() - name.len() - 1] == '/'
}

/// The authority and the path that an `sftp://` target names, the `/` between them in neither.
pub open spec fn target_of(s: Seq<char>) -> Option<(Seq<char>, Seq<char>)> {
    let scheme = "sftp://"@;
    if scheme.is_prefix_of(s) {
        let rest = s.skip(scheme.len() as int);
        let n = first_slash(rest);
        Some(
            (
                rest.take(n as int),
                if n < rest.len() {
                    rest.skip(n as int + 1)
                } else {
                    Seq::empty()
                },
            ),
        )
    } else {
        None
    }
}

/// Whether `text` begins with `prefix`.
fn starts_with(text: &str, prefix: &str) -> (begins: bool)
    ensures
        begins == prefix@.is_prefix_of(text@),
{
    let count: usize = prefix.unicode_len();
    if text.unicode_len() < count {
        return false;
    }
    let mut i: usize = 0;
    while i < count
        invariant
            i <= count,
            count == prefix@.len(),
            count <= text@.len(),
            forall|j: int| 0 <= j < i ==> prefix@[j] == text@[j],
        decreases count - i,
    {
        if prefix.get_char(i) != text.get_char(i) {
            assert(text@.subrange(0, count as int)[i as int] != prefix@[i as int]);
            return false;
        }
        i += 1;
    }
    assert(text@.subrange(0, count as int) =~= prefix@);
    true
}

/// The authority and the path that an `sftp://` target names.
pub fn target(uri: &str) -> (parts: Option<(&str, &str)>)
    ensures
        match target_of(uri@) {
            Some((authority, path)) => parts matches Some((a, p)) && a@ == authority && p@ == path,
            None => parts is None,
        },
{
    let scheme = "sftp://";
    if !starts_with(uri, scheme) {
        return None;
    }
    let len: usize = uri.unicode_len();
    let from: usize = scheme.unicode_len();
    let ghost rest = uri@.skip(from as int);
    let mut at: usize = from;
    assert(rest.skip(0) =~= rest);
    while at < len && uri.get_char(at) != '/'
        invariant
            from <= at <= len,
            len == uri@.len(),
            rest == uri@.skip(from as int),
            first_slash(rest) == (at - from) + first_slash(rest.skip(at - from)),
        decreases len - at,
    {
        assert(rest.skip(at - from)[0] == uri@[at as int]);
        assert(rest.skip(at - from).skip(1) =~= rest.skip(at + 1 - from));
        at += 1;
    }
    proof {
        if at < len {
            assert(rest.skip(at - from)[0] == uri@[at as int]);
        }
        assert(first_slash(rest) == at - from);
        assert(rest.take(at - from) =~= uri@.subrange(from as int, at as int));
    }
    let authority = uri.substring_char(from, at);
    if at < len {
        let path = uri.substring_char(at + 1, len);
        assert(rest.skip(at - from + 1) =~= path@);
        Some((authority, path))
    } else {
        Some((authority, uri.substring_char(len, len)))
    }
}

/// The last `/`-separated segment of `path`, the file's own name.
pub fn last_segment(path: &str) -> (name: &str)
    ensures
        name@ == after_last_slash(path@),
        ends_with_segment(path@, name@),
{
    proof {
        law_the_name_is_behind_the_last_slash(path@);
    }
    let len: usize = path.unicode_len();
    let mut from: usize = len;
    let ghost all = after_last_slash(path@);
    assert(path@.take(len as int) =~= path@);
    assert(all + path@.skip(len as int) =~= all);
    while from > 0 && path.get_char(from - 1) != '/'
        invariant
            from <= len,
            len == path@.len(),
            all == after_last_slash(path@.take(from as int)) + path@.skip(from as int),
        decreases from,
    {
        let ghost head = path@.take(from as int);
        proof {
            assert(head.last() == path@[from - 1]);
            assert(head.drop_last() =~= path@.take(from - 1));
            assert(after_last_slash(head) + path@.skip(from as int) =~= after_last_slash(
                path@.take(from - 1),
            ) + path@.skip(from - 1));
        }
        from -= 1;
    }
    let name = path.substring_char(from, len);
    proof {
        let head = path@.take(from as int);
        if from > 0 {
            assert(head.last() == path@[from - 1]);
        }
        assert(after_last_slash(head) =~= Seq::<char>::empty());
        assert(name@ =~= path@.skip(from as int));
        assert(name@ =~= all);
    }
    name
}

/// Speak SFTP as a client, and stand up a far end of its own.
pub struct SftpTransport {
    endpoint: String,
    user: String,
    credential: Credential,
    timeout: Option<Duration>,
}

/// How a transport is set up.
pub ghost struct Setup {
    pub endpoint: Seq<char>,
    pub user: Seq<char>,
    pub proven: Proven,
    pub timeout: Option<Duration>,
}

impl View for SftpTransport {
    type V = Setup;

    closed spec fn view(&self) -> Setup {
        Setup {
            endpoint: self.endpoint@,
            user: self.user@,
            proven: self.credential@,
            timeout: self.timeout,
        }
    }
}

impl Setup {
    /// The authority that the endpoint names, or the endpoint itself where it is bare.
    pub open spec fn authority(self) -> Seq<char> {
        match target_of(self.endpoint) {
            Some((authority, _)) => authority,
            None => self.endpoint,
        }
    }

    /// The server and the file that a target names: those in it, or a name alone on this
    /// transport's server.
    pub open spec fn resolve(self, target: Seq<char>) -> (Seq<char>, Seq<char>) {
        match target_of(target) {
            Some((authority, path)) => (authority, after_last_slash(path)),
            None => (self.authority(), target),
        }
    }

    /// Where a file that was harvested comes from.
    pub open spec fn origin(self, name: Seq<char>) -> Seq<char> {
        "sftp://"@ + self.authority() + "/"@ + name
    }

    /// The files of a harvest, each with its origin.
    pub open spec fn harvested(self, taken: Seq<(Seq<char>, Seq<u8>)>) -> Seq<
        (Seq<char>, Seq<u8>),
    > {
        taken.map_values(|file: (Seq<char>, Seq<u8>)| (self.origin(file.0), file.1))
    }
}

impl SftpTransport {
    /// The largest payload the in-memory far end carries whole in one round: sixteen mebibytes.
    /// A fact of this far end, not a wire limit of SFTP, which chunks and streams without a size
    /// of its own.
    pub const CEILING: usize = 16_777_216;

    /// Speak to the server at `endpoint`, which is `sftp://host:port/dir` or `host:port`, as
    /// user `xmip` with the password `xmip` until [`Self::as_user`], [`Self::with_password`] or
    /// [`Self::with_key`].
    pub fn new(endpoint: &str) -> (made: Self)
        ensures
            made@ == (Setup {
                endpoint: endpoint@,
                user: "xmip"@,
                proven: Proven::Password("xmip"@),
                timeout: None,
            }),
    {
        SftpTransport {
            endpoint: endpoint.to_string(),
            user: "xmip".to_string(),
            credential: Credential::Password("xmip".to_string()),
            timeout: None,
        }
    }

    /// Authenticate as this user.
    pub fn as_user(self, user: &str) -> (made: Self)
        ensures
            made@ == (Setup { user: user@, ..self@ }),
    {
        SftpTransport { user: user.to_string(), ..self }
    }

    /// Authenticate with this password.
    pub fn with_password(self, password: &str) -> (made: Self)
        ensures
            made@ == (Setup { proven: Proven::Password(password@), ..self@ }),
    {
        SftpTransport { credential: Credential::Password(password.to_string()), ..self }
    }

    /// Authenticate with this key, so the peer can be held to its fingerprint.
    pub fn with_key(self, key: SigningKey) -> (made: Self)
        ensures
            made@ == (Setup { proven: Proven::PublicKey(key@), ..self@ }),
    {
        SftpTransport { credential: Credential::PublicKey(Box::new(key)), ..self }
    }

    /// Give up on a peer that stops mid-exchange.
    pub fn timing_out_after(self, timeout: Duration) -> (made: Self)
        ensures
            made@ == (Setup { timeout: Some(timeout), ..self@ }),
    {
        SftpTransport { timeout: Some(timeout), ..self }
    }

    /// Both ends on this machine: an ephemeral local port, the given timeout, and a fixed key so
    /// every arrival carries the same fingerprint.
    pub fn loopback(timeout: Duration) -> (made: Self)
        ensures
            made@ == (Setup {
                endpoint: "127.0.0.1:0"@,
                user: "xmip"@,
                proven: Proven::PublicKey(Seq::new(32, |i: int| 0x7cu8)),
                timeout: Some(timeout),
            }),
    {
        let seed: [u8; 32] = [0x7c; 32];
        assert(seed@ =~= Seq::new(32, |i: int| 0x7cu8));
        Self::new("127.0.0.1:0").with_key(SigningKey::from_bytes(&seed)).timing_out_after(timeout)
    }

    /// The authority the endpoint names, or the endpoint itself where it is bare.
    pub fn authority(&self) -> (authority: &str)
        ensures
            authority@ == self@.authority(),
    {
        match target(self.endpoint.as_str()) {
            Some((authority, _)) => authority,
            None => self.endpoint.as_str(),
        }
    }

    /// Where a target names the server and file, as `sftp://host/dir/name` does, or is a name
    /// alone on this transport's server.
    pub fn resolve<'a>(&'a self, target: &'a str) -> (found: (&'a str, &'a str))
        ensures
            (found.0@, found.1@) == self@.resolve(target@),
    {
        match self::target(target) {
            Some((authority, path)) => (authority, last_segment(path)),
            None => (self.authority(), target),
        }
    }

    /// How long to wait for a peer, where that has a limit.
    pub fn timeout(&self) -> (limit: Option<Duration>)
        ensures
            limit == self@.timeout,
    {
        self.timeout
    }

    /// Begin to log in, as both sending and receiving do: the key-exchange offer to send.
    pub fn connect(&self, peer: &str) -> (begun: Result<(Login, Vec<u8>), Error>)
        ensures
            match begun {
                Ok((login, message)) => {
                    &&& login.user@ == self@.user
                    &&& login.credential@ == self@.proven
                    &&& login.stage@ == LoginAt::Exchanging(
                        ClientAt::Offered { v_c: IDENTIFICATION@, v_s: peer@, i_c: message@ },
                    )
                    &&& exists|cookie: Seq<u8>|
                        cookie.len() == 16 && message@ == #[trigger] offer(cookie)
                },
                Err(error) => error == Error::NoCookie,
            },
    {
        Login::begin(peer, self.user.as_str(), &self.credential)
    }

    /// The transport's name.
    pub fn name(&self) -> (name: &'static str)
        ensures
            name@ == "sftp"@,
    {
        "sftp"
    }

    /// The transport carries both ways.
    pub fn directions(&self) -> (ways: Directions)
        ensures
            ways == Directions::Both,
    {
        Directions::Both
    }

    /// What is being picked up can be claimed, though nothing native backs the claim.
    pub fn claims(&self) -> (claim: Option<NoNativeClaim>)
        ensures
            claim == Some(NoNativeClaim),
    {
        Some(NoNativeClaim)
    }

    /// What a harvest is handed on as: every file with its origin. A scheduled pickup, so the
    /// arrival carries no peer: the key in play was the client's own.
    pub fn receive(&self, taken: Vec<(String, Vec<u8>)>) -> (all: Vec<Arrived>)
        ensures
            all_arrived(all@) == self@.harvested(pairs(taken@)),
            all@.len() == taken@.len(),
            forall|i: int|
                0 <= i < all@.len() ==> {
                    &&& (#[trigger] all@[i]).bytes@ == taken@[i].1@
                    &&& all@[i].origin_uri@ == "sftp://"@ + self@.authority() + "/"@ + taken@[i].0@
                },
    {
        let authority = self.authority();
        let mut all: Vec<Arrived> = Vec::new();
        let mut left = taken;
        let ghost files = pairs(taken@);
        let ghost due = self@.harvested(files);
        assert(files.take(0).len() == 0);
        while left.len() > 0
            invariant
                authority@ == self@.authority(),
                files == pairs(taken@),
                due == self@.harvested(files),
                all@.len() + left@.len() == taken@.len(),
                left@ == taken@.skip(all@.len() as int),
                all_arrived(all@) =~= due.take(all@.len() as int),
            decreases left@.len(),
        {
            let ghost had = all@;
            let ghost n = all@.len() as int;
            assert(left@[0] == taken@[n]);
            let (name, bytes) = left.remove(0);
            let mut origin_uri = "sftp://".to_string();
            origin_uri.append(authority);
            origin_uri.append("/");
            origin_uri.append(name.as_str());
            all.push(Arrived { origin_uri, bytes });
            proof {
                assert(files[n] == (name@, bytes@));
                assert(due[n] == (self@.origin(name@), bytes@));
                assert(arrived(all@[n]) == due[n]);
                assert(left@ =~= taken@.skip(n + 1));
                assert(all_arrived(all@) =~= all_arrived(had).push(due[n]));
                assert(due.take(n + 1) =~= due.take(n).push(due[n]));
            }
        }
        assert(due.take(due.len() as int) =~= due);
        proof {
            law_a_harvest_is_handed_on_whole(self@, taken@, all@);
        }
        all
    }
}

/// The file's own name is what a path ends with: no `/` is in it, and it is the whole path or has
/// a `/` right before it.
pub proof fn law_the_name_is_behind_the_last_slash(path: Seq<char>)
    ensures
        ({
            let name = after_last_slash(path);
            &&& name.len() <= path.len()
            &&& path.skip(path.len() - name.len()) == name
            &&& forall|i: int| 0 <= i < name.len() ==> name[i] != '/'
            &&& name.len() == path.len() || path[path.len() - name.len() - 1] == '/'
        }),
    decreases path.len(),
{
    let name = after_last_slash(path);
    if path.len() == 0 || path.last() == '/' {
        assert(path.skip(path.len() as int) =~= name);
    } else {
        law_the_name_is_behind_the_last_slash(path.drop_last());
        let front = after_last_slash(path.drop_last());
        let from = path.len() - name.len();
        assert(path.drop_last().skip(from) == front);
        assert(path.skip(from) =~= front.push(path.last()));
        assert forall|i: int| 0 <= i < name.len() implies name[i] != '/' by {
            if i < front.len() {
                assert(name[i] == front[i]);
            }
        }
    }
}

/// A path has one name: whatever it ends with that has no `/` in it, and a `/` or nothing right
/// before it.
pub proof fn law_a_path_has_one_name(path: Seq<char>, name: Seq<char>)
    requires
        ends_with_segment(path, name),
    ensures
        name == after_last_slash(path),
{
    let other = after_last_slash(path);
    law_the_name_is_behind_the_last_slash(path);
    if name.len() < other.len() {
        assert(other[other.len() - name.len() - 1] == path[path.len() - name.len() - 1]);
    } else if other.len() < name.len() {
        assert(name[name.len() - other.len() - 1] == path[path.len() - other.len() - 1]);
    }
}

/// Where the first `/` is: none before it.
proof fn lemma_first_slash(s: Seq<char>)
    ensures
        first_slash(s) <= s.len(),
        forall|i: int| 0 <= i < first_slash(s) ==> s[i] != '/',
        first_slash(s) < s.len() ==> s[first_slash(s) as int] == '/',
    decreases s.len(),
{
    if s.len() > 0 && s[0] != '/' {
        lemma_first_slash(s.skip(1));
        assert forall|i: int| 0 <= i < first_slash(s) implies s[i] != '/' by {
            if i > 0 {
                assert(s[i] == s.skip(1)[i - 1]);
            }
        }
    }
}

/// A target is `sftp://`, the authority, and behind a `/` the path: the authority has no `/` in
/// it, and the path is all that follows the first. A text that does not begin with `sftp://` is no
/// target.
pub proof fn law_a_target_is_taken_apart(s: Seq<char>)
    ensures
        target_of(s) is Some <==> "sftp://"@.is_prefix_of(s),
        target_of(s) matches Some((authority, path)) ==> {
            &&& forall|i: int| 0 <= i < authority.len() ==> authority[i] != '/'
            &&& s == "sftp://"@ + authority + "/"@ + path || s == "sftp://"@ + authority
                && path.len() == 0
        },
{
    reveal_strlit("sftp://");
    reveal_strlit("/");
    if "sftp://"@.is_prefix_of(s) {
        let rest = s.skip(7);
        let n = first_slash(rest) as int;
        lemma_first_slash(rest);
        assert(s =~= "sftp://"@ + rest);
        if n < rest.len() {
            assert(rest =~= rest.take(n) + "/"@ + rest.skip(n + 1));
            assert(s =~= "sftp://"@ + rest.take(n) + "/"@ + rest.skip(n + 1));
        } else {
            assert(rest.take(n) =~= rest);
        }
    }
}

/// The authority that is put into a target is the one that is found in it, and so is the path.
pub proof fn law_a_target_reads_back(authority: Seq<char>, path: Seq<char>)
    requires
        forall|i: int| 0 <= i < authority.len() ==> authority[i] != '/',
    ensures
        target_of("sftp://"@ + authority + "/"@ + path) == Some((authority, path)),
        target_of("sftp://"@ + authority) == Some((authority, Seq::<char>::empty())),
{
    reveal_strlit("sftp://");
    reveal_strlit("/");
    let s = "sftp://"@ + authority + "/"@ + path;
    assert(s.subrange(0, 7) =~= "sftp://"@);
    assert(s.skip(7) =~= authority + "/"@ + path);
    let rest = authority + "/"@ + path;
    let n = authority.len() as int;
    lemma_first_slash(rest);
    assert(rest[n] == '/');
    assert forall|i: int| 0 <= i < n implies rest[i] != '/' by {
        assert(rest[i] == authority[i]);
    }
    assert(first_slash(rest) == n);
    assert(rest.take(n) =~= authority);
    assert(rest.skip(n + 1) =~= path);
    let t = "sftp://"@ + authority;
    assert(t.subrange(0, 7) =~= "sftp://"@);
    assert(t.skip(7) =~= authority);
    lemma_first_slash(authority);
    assert(authority.take(n) =~= authority);
}

/// Where a target leads: to the server it names, and to the file that its path ends with; a text
/// that is no target is the name of a file on the transport's own server, which is the authority
/// of its endpoint, or the endpoint itself where that is bare.
pub proof fn law_where_a_target_leads(
    setup: Setup,
    authority: Seq<char>,
    path: Seq<char>,
    bare: Seq<char>,
)
    requires
        forall|i: int| 0 <= i < authority.len() ==> authority[i] != '/',
        !"sftp://"@.is_prefix_of(bare),
    ensures
        ({
            let (server, name) = setup.resolve("sftp://"@ + authority + "/"@ + path);
            &&& server == authority
            &&& ends_with_segment(path, name)
        }),
        setup.resolve(bare) == (setup.authority(), bare),
        (Setup { endpoint: "sftp://"@ + authority + "/"@ + path, ..setup }).authority()
            == authority,
        (Setup { endpoint: "sftp://"@ + authority, ..setup }).authority() == authority,
        (Setup { endpoint: bare, ..setup }).authority() == bare,
{
    law_a_target_reads_back(authority, path);
    law_the_name_is_behind_the_last_slash(path);
}

/// A harvest is handed on whole: as many arrivals as files were taken, in their order, each with
/// all the bytes of its file and an origin of the transport's authority and the file's name.
pub proof fn law_a_harvest_is_handed_on_whole(
    setup: Setup,
    taken: Seq<(String, Vec<u8>)>,
    all: Seq<Arrived>,
)
    requires
        all_arrived(all) == setup.harvested(pairs(taken)),
    ensures
        all.len() == taken.len(),
        forall|i: int|
            0 <= i < all.len() ==> {
                &&& (#[trigger] all[i]).bytes@ == taken[i].1@
                &&& all[i].origin_uri@ == "sftp://"@ + setup.authority() + "/"@ + taken[i].0@
            },
{
    assert(all_arrived(all).len() == all.len());
    assert(setup.harvested(pairs(taken)).len() == taken.len());
    assert forall|i: int| 0 <= i < all.len() implies {
        &&& (#[trigger] all[i]).bytes@ == taken[i].1@
        &&& all[i].origin_uri@ == "sftp://"@ + setup.authority() + "/"@ + taken[i].0@
    } by {
        assert(all_arrived(all)[i] == arrived(all[i]));
        assert(pairs(taken)[i] == (taken[i].0@, taken[i].1@));
        assert(setup.harvested(pairs(taken))[i] == (setup.origin(taken[i].0@), taken[i].1@));
    }
}

} // verus!
