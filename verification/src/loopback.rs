//! SFTP at both ends on one machine: a client putting one file into the far end's directory, and
//! the one file taken back as the arrival with the peer promoted onto it.

use vstd::prelude::*;
use vstd::slice::slice_to_vec;
use vstd::string::*;

use crate::error::Error;
use crate::keys::SigningKey;
use crate::names::{law_a_set_has_one_listing, listing, lists};
use crate::server::{Left, Served};
use crate::text::{decimal, digits};
use crate::transport::{arrived, Arrived, SftpTransport};
use crate::userauth::{base64, base64_text};

verus! {

/// The file name the near end puts.
pub const PROBE: &'static str = "probe.bin";

/// The property that carries the user who authenticated.
pub const SSH_USER: &'static str = "ssh.user";
/// The property that carries the fingerprint of the key.
pub const SSH_KEY: &'static str = "ssh.key";
/// The property that carries the signature the key made.
pub const SSH_SIGNATURE: &'static str = "ssh.signature";
/// The property that carries the session the signature was made over.
pub const SSH_SESSION: &'static str = "ssh.session";

/// Why a payload of `len` bytes is refused.
pub open spec fn refusal(len: nat) -> Seq<char> {
    "a payload of "@ + digits(len) + " bytes, over the "@ + digits(SftpTransport::CEILING as nat)
        + " the in-memory far end holds whole"@
}

impl SftpTransport {
    /// The most one round carries.
    pub fn ceiling(&self) -> (most: Option<usize>)
        ensures
            most == Some(Self::CEILING),
    {
        Some(Self::CEILING)
    }

    /// Why a payload is refused, where it is over what the far end holds.
    pub fn refuses(&self, payload: &[u8]) -> (why: Option<String>)
        ensures
            match why {
                Some(text) => payload@.len() > Self::CEILING && text@ == refusal(payload@.len()),
                None => payload@.len() <= Self::CEILING,
            },
    {
        if payload.len() <= Self::CEILING {
            return None;
        }
        let mut text = "a payload of ".to_string();
        text.append(decimal(payload.len() as u64).as_str());
        text.append(" bytes, over the ");
        text.append(decimal(Self::CEILING as u64).as_str());
        text.append(" the in-memory far end holds whole");
        Some(text)
    }

    /// Why no far end can be stood up here: nothing stands in the way of one held in memory.
    pub fn unavailable(&self) -> (why: Option<String>)
        ensures
            why is None,
    {
        None
    }

    /// The key that the far end on this machine signs with.
    pub fn host_key() -> (key: SigningKey)
        ensures
            key@ == Seq::new(32, |i: int| 0x5eu8),
    {
        let seed: [u8; 32] = [0x5e; 32];
        assert(seed@ =~= Seq::new(32, |i: int| 0x5eu8));
        SigningKey::from_bytes(&seed)
    }
}

/// A property of an origin, as it is written behind the path.
pub open spec fn property(name: Seq<char>, value: Seq<char>) -> Seq<char> {
    name + "="@ + value
}

/// The origin of a file that a peer put: where from, which file, and who put it. A key that
/// authenticated is there with its fingerprint, the signature it made and the session that was
/// signed; a password leaves only the user.
pub open spec fn promoted(peer: Seq<char>, name: Seq<char>, left: Left) -> Seq<char> {
    "sftp://"@ + peer + "/"@ + name + "?"@ + property(SSH_USER@, left.who.user) + (
    match left.who.fingerprint {
        Some(fingerprint) => "&"@ + property(SSH_KEY@, fingerprint),
        None => Seq::empty(),
    }) + (match left.who.signature {
        Some(signature) => "&"@ + property(SSH_SIGNATURE@, base64_text(signature)) + "&"@
            + property(SSH_SESSION@, base64_text(left.session_id)),
        None => Seq::empty(),
    })
}

/// Append a property behind `mark`.
fn promote(origin: &mut String, mark: &str, name: &str, value: &str)
    ensures
        final(origin)@ == old(origin)@ + (mark@ + property(name@, value@)),
{
    origin.append(mark);
    origin.append(name);
    origin.append("=");
    origin.append(value);
    assert(origin@ =~= old(origin)@ + (mark@ + property(name@, value@)));
}

/// The one file the client put, as an arrival with the peer promoted onto its origin for the
/// identity gate: the first in the order of the names.
pub fn arrival(peer: &str, served: &Served) -> (made: Result<Arrived, Error>)
    ensures
        if served@.files == Map::<Seq<char>, Seq<u8>>::empty() {
            made == Err::<Arrived, Error>(Error::NothingPut)
        } else {
            let name = listing(served@.files.dom())[0];
            made matches Ok(one) && arrived(one) == (
                promoted(peer@, name, served@),
                served@.files[name],
            )
        },
{
    let (name, bytes) = match served.files.first() {
        Some(entry) => entry,
        None => {
            return Err(Error::NothingPut);
        },
    };
    assert(served@.files.dom().contains(name@));
    let mut origin = "sftp://".to_string();
    origin.append(peer);
    origin.append("/");
    origin.append(name.as_str());
    promote(&mut origin, "?", SSH_USER, served.who.user.as_str());
    let ghost with_user = origin@;
    match &served.who.fingerprint {
        Some(fingerprint) => {
            promote(&mut origin, "&", SSH_KEY, fingerprint.as_str());
        },
        None => {},
    }
    let ghost with_key = origin@;
    match &served.who.signature {
        Some(signature) => {
            promote(&mut origin, "&", SSH_SIGNATURE, base64(signature).as_str());
            promote(&mut origin, "&", SSH_SESSION, base64(&served.session_id).as_str());
        },
        None => {},
    }
    assert(with_user =~= "sftp://"@ + peer@ + "/"@ + name@ + "?"@ + property(
        SSH_USER@,
        served@.who.user,
    ));
    assert(origin@ =~= promoted(peer@, name@, served@));
    Ok(Arrived { origin_uri: origin, bytes: slice_to_vec(bytes) })
}

/// Where one file was put into an empty directory, that file is what arrives, with the bytes
/// that were put.
pub proof fn law_what_was_put_arrives(left: Left, name: Seq<char>, bytes: Seq<u8>)
    requires
        left.files == Map::<Seq<char>, Seq<u8>>::empty().insert(name, bytes),
    ensures
        left.files != Map::<Seq<char>, Seq<u8>>::empty(),
        listing(left.files.dom())[0] == name,
        left.files[listing(left.files.dom())[0]] == bytes,
{
    let names = seq![name];
    assert(left.files.dom().contains(name));
    assert(lists(names, left.files.dom())) by {
        assert forall|n: Seq<char>| #[trigger] left.files.dom().contains(n) <==> names.contains(
            n,
        ) by {
            assert(names[0] == name);
        }
    }
    law_a_set_has_one_listing(names, names, left.files.dom());
}

/// A payload is refused where it is over 16 mebibytes, and the refusal tells its length and that.
pub proof fn law_the_refusal_tells_both_lengths(len: nat)
    ensures
        SftpTransport::CEILING == 16_777_216,
        refusal(len) == "a payload of "@ + digits(len) + " bytes, over the "@ + digits(16_777_216)
            + " the in-memory far end holds whole"@,
{
}

/// The origin of a file that was put: the peer, the file, the user, and of a key that authenticated
/// its fingerprint, the signature it made and the session that was signed, each under its name and
/// in this order. A password leaves the user alone.
pub proof fn law_the_origin_names_the_peer(
    peer: Seq<char>,
    name: Seq<char>,
    left: Left,
    print: Seq<char>,
    signature: Seq<u8>,
)
    ensures
        left.who.fingerprint is None && left.who.signature is None ==> promoted(peer, name, left)
            == "sftp://"@ + peer + "/"@ + name + "?"@ + "ssh.user"@ + "="@ + left.who.user,
        left.who.fingerprint == Some(print) && left.who.signature == Some(signature) ==> promoted(
            peer,
            name,
            left,
        ) == "sftp://"@ + peer + "/"@ + name + "?"@ + "ssh.user"@ + "="@ + left.who.user + "&"@
            + "ssh.key"@ + "="@ + print + "&"@ + "ssh.signature"@ + "="@ + base64_text(signature)
            + "&"@ + "ssh.session"@ + "="@ + base64_text(left.session_id),
        left.who.fingerprint == Some(print) && left.who.signature is None ==> promoted(
            peer,
            name,
            left,
        ) == "sftp://"@ + peer + "/"@ + name + "?"@ + "ssh.user"@ + "="@ + left.who.user + "&"@
            + "ssh.key"@ + "="@ + print,
        left.who.fingerprint is None && left.who.signature == Some(signature) ==> promoted(
            peer,
            name,
            left,
        ) == "sftp://"@ + peer + "/"@ + name + "?"@ + "ssh.user"@ + "="@ + left.who.user + "&"@
            + "ssh.signature"@ + "="@ + base64_text(signature) + "&"@ + "ssh.session"@ + "="@
            + base64_text(left.session_id),
{
    let head = "sftp://"@ + peer + "/"@ + name + "?"@;
    let none = Seq::<char>::empty();
    let user = head + "ssh.user"@ + "="@ + left.who.user;
    let key = user + "&"@ + "ssh.key"@ + "="@ + print;
    let signed = "&"@ + property("ssh.signature"@, base64_text(signature)) + "&"@ + property(
        "ssh.session"@,
        base64_text(left.session_id),
    );
    lemma_property(head, none, "ssh.user"@, left.who.user);
    lemma_property(user, "&"@, "ssh.key"@, print);
    lemma_signed(user + none, signature, left.session_id);
    lemma_signed(key, signature, left.session_id);
    assert(none + property("ssh.user"@, left.who.user) =~= property("ssh.user"@, left.who.user));
    assert(head + none =~= head);
    assert(user + none =~= user);
    assert(key + none =~= key);
}

proof fn lemma_property(before: Seq<char>, mark: Seq<char>, name: Seq<char>, value: Seq<char>)
    ensures
        before + (mark + property(name, value)) == before + mark + name + "="@ + value,
{
    assert(before + (mark + property(name, value)) =~= before + mark + name + "="@ + value);
}

proof fn lemma_signed(before: Seq<char>, signature: Seq<u8>, session_id: Seq<u8>)
    ensures
        before + ("&"@ + property("ssh.signature"@, base64_text(signature)) + "&"@ + property(
            "ssh.session"@,
            base64_text(session_id),
        )) == before + "&"@ + "ssh.signature"@ + "="@ + base64_text(signature) + "&"@
            + "ssh.session"@ + "="@ + base64_text(session_id),
{
    let first = "&"@ + property("ssh.signature"@, base64_text(signature));
    let second = "&"@ + property("ssh.session"@, base64_text(session_id));
    lemma_property(before, "&"@, "ssh.signature"@, base64_text(signature));
    lemma_property(before + first, "&"@, "ssh.session"@, base64_text(session_id));
    assert(first + "&"@ + property("ssh.session"@, base64_text(session_id)) =~= first + second);
    assert(before + (first + second) =~= before + first + second);
}

/// What arrived is told as it is held: where it is from, and its bytes.
pub proof fn law_an_arrival_is_told_as_it_is(one: Arrived)
    ensures
        arrived(one) == (one.origin_uri@, one.bytes@),
{
}

} // verus!
