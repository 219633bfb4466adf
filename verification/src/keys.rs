//! Ed25519 keys as the exchange carries them (RFC 8709): the key that signs, and the blobs that
//! hold a public key or a signature, each behind the name of the algorithm.

use vstd::prelude::*;
use vstd::string::*;
use vstd::utf8::encode_utf8;

use crate::cipher::array;
use crate::crypto::{
    ed25519_holds, ed25519_point, ed25519_public, ed25519_signature, on_curve, sign,
    signing_public,
};
use crate::error::Error;
use crate::text::law_encoding_is_short;
use crate::wire::{law_string_reads_back, same_bytes, string, take_string, Reader, Writer};

verus! {

/// The algorithm name of the keys and signatures here.
pub const HOST_KEY: &'static str = "ssh-ed25519";

/// A key that signs, held as the seed it is made from.
pub struct SigningKey {
    seed: [u8; 32],
}

impl View for SigningKey {
    type V = Seq<u8>;

    /// The seed.
    closed spec fn view(&self) -> Seq<u8> {
        self.seed@
    }
}

impl Clone for SigningKey {
    fn clone(&self) -> (same: Self)
        ensures
            same@ == self@,
    {
        SigningKey { seed: self.seed }
    }
}

impl SigningKey {
    /// The key that `seed` makes.
    pub fn from_bytes(seed: &[u8; 32]) -> (made: Self)
        ensures
            made@ == seed@,
    {
        SigningKey { seed: *seed }
    }

    /// The public key that goes with this one.
    pub fn verifying_key(&self) -> (public: [u8; 32])
        ensures
            public == ed25519_public(self@),
            ed25519_point(public@),
    {
        signing_public(&self.seed)
    }

    /// The signature over `message`, which holds against the public key.
    pub fn sign(&self, message: &[u8]) -> (signature: [u8; 64])
        ensures
            signature == ed25519_signature(self@, message@),
            ed25519_holds(ed25519_public(self@)@, message@, signature@),
    {
        sign(&self.seed, message)
    }
}

/// A blob: the algorithm name and some bytes, each a string.
pub open spec fn blob(bytes: Seq<u8>) -> Seq<u8> {
    string(encode_utf8(HOST_KEY@)) + string(bytes)
}

/// Lay a blob out.
pub(crate) fn write_blob(bytes: &[u8]) -> (made: Vec<u8>)
    ensures
        made@ == blob(bytes@),
{
    let mut writer = Writer::new();
    writer.string(HOST_KEY.as_bytes());
    writer.string(bytes);
    let made = writer.finish();
    assert(made@ =~= blob(bytes@));
    made
}

/// The bytes in a blob, or `kind` where the algorithm is another one.
pub open spec fn unblob(s: Seq<u8>, kind: Error) -> Result<Seq<u8>, Error> {
    match take_string(s) {
        None => Err(Error::Truncated),
        Some((name, rest)) => if name != encode_utf8(HOST_KEY@) {
            Err(kind)
        } else {
            match take_string(rest) {
                None => Err(Error::Truncated),
                Some((bytes, _)) => Ok(bytes),
            }
        },
    }
}

/// Take a blob apart.
fn read_blob(s: &[u8], kind: Error) -> (bytes: Result<&[u8], Error>)
    ensures
        match unblob(s@, kind) {
            Ok(held) => bytes is Ok && bytes->Ok_0@ == held,
            Err(error) => bytes == Err::<&[u8], Error>(error),
        },
{
    let mut reader = Reader::new(s);
    let name = reader.string()?;
    if !same_bytes(name, HOST_KEY.as_bytes()) {
        return Err(kind);
    }
    reader.string()
}

/// What is said of a public key that is none.
#[derive(Clone, Copy)]
pub struct KeyFaults {
    /// It is of another algorithm.
    pub kind: Error,
    /// It has another size.
    pub size: Error,
    /// It is no point of the curve.
    pub point: Error,
}

/// The public key in a blob.
pub open spec fn public_in(s: Seq<u8>, faults: KeyFaults) -> Result<Seq<u8>, Error> {
    match unblob(s, faults.kind) {
        Err(error) => Err(error),
        Ok(public) => if public.len() != 32 {
            Err(faults.size)
        } else if !ed25519_point(public) {
            Err(faults.point)
        } else {
            Ok(public)
        },
    }
}

/// The public key in a blob.
pub(crate) fn read_public(s: &[u8], faults: KeyFaults) -> (public: Result<[u8; 32], Error>)
    ensures
        match public_in(s@, faults) {
            Ok(held) => public is Ok && public->Ok_0@ == held,
            Err(error) => public == Err::<[u8; 32], Error>(error),
        },
{
    let bytes = read_blob(s, faults.kind)?;
    match array::<32>(bytes) {
        None => Err(faults.size),
        Some(public) => if on_curve(&public) {
            Ok(public)
        } else {
            Err(faults.point)
        },
    }
}

/// The signature in a blob.
pub open spec fn signature_in(s: Seq<u8>) -> Result<Seq<u8>, Error> {
    match unblob(s, Error::SignatureKind) {
        Err(error) => Err(error),
        Ok(signature) => if signature.len() != 64 {
            Err(Error::SignatureSize)
        } else {
            Ok(signature)
        },
    }
}

/// The signature in a blob.
pub(crate) fn read_signature(s: &[u8]) -> (signature: Result<[u8; 64], Error>)
    ensures
        match signature_in(s@) {
            Ok(held) => signature is Ok && signature->Ok_0@ == held,
            Err(error) => signature == Err::<[u8; 64], Error>(error),
        },
{
    let bytes = read_blob(s, Error::SignatureKind)?;
    match array::<64>(bytes) {
        None => Err(Error::SignatureSize),
        Some(signature) => Ok(signature),
    }
}

/// What a signature over `message`, in a blob, is worth against a public key in a blob; `bad`
/// where it does not hold.
pub open spec fn verdict(
    key: Seq<u8>,
    signature: Seq<u8>,
    message: Seq<u8>,
    faults: KeyFaults,
    bad: Error,
) -> Result<(), Error> {
    match public_in(key, faults) {
        Err(error) => Err(error),
        Ok(public) => match signature_in(signature) {
            Err(error) => Err(error),
            Ok(signed) => if ed25519_holds(public, message, signed) {
                Ok(())
            } else {
                Err(bad)
            },
        },
    }
}

/// Hold a signature in a blob against a public key in a blob.
pub(crate) fn judge(
    key: &[u8],
    signature: &[u8],
    message: &[u8],
    faults: KeyFaults,
    bad: Error,
) -> (outcome: Result<(), Error>)
    ensures
        outcome == verdict(key@, signature@, message@, faults, bad),
{
    let public = read_public(key, faults)?;
    let signed = read_signature(signature)?;
    if crate::crypto::verify(&public, message, &signed) {
        Ok(())
    } else {
        Err(bad)
    }
}

/// A blob is little longer than what it holds.
pub proof fn lemma_blob_length(bytes: Seq<u8>)
    ensures
        blob(bytes).len() <= 8 + 4 * 11 + bytes.len(),
{
    reveal_strlit("ssh-ed25519");
    law_encoding_is_short(HOST_KEY@);
}

/// What is laid out in a blob is read from it, whatever follows.
pub proof fn law_a_blob_reads_back(bytes: Seq<u8>, kind: Error, rest: Seq<u8>)
    requires
        bytes.len() <= u32::MAX,
    ensures
        unblob(blob(bytes) + rest, kind) == Ok::<Seq<u8>, Error>(bytes),
{
    reveal_strlit("ssh-ed25519");
    law_encoding_is_short(HOST_KEY@);
    let name = encode_utf8(HOST_KEY@);
    assert(blob(bytes) + rest =~= string(name) + (string(bytes) + rest));
    law_string_reads_back(name, string(bytes) + rest);
    law_string_reads_back(bytes, rest);
}

/// A signature that holds against a public key is found to hold, each in its blob.
pub proof fn law_a_good_signature_is_accepted(
    public: [u8; 32],
    signature: [u8; 64],
    message: Seq<u8>,
    faults: KeyFaults,
    bad: Error,
)
    requires
        ed25519_point(public@),
        ed25519_holds(public@, message, signature@),
    ensures
        verdict(blob(public@), blob(signature@), message, faults, bad) == Ok::<(), Error>(()),
{
    law_a_blob_reads_back(public@, faults.kind, Seq::empty());
    law_a_blob_reads_back(signature@, Error::SignatureKind, Seq::empty());
    assert(blob(public@) + Seq::<u8>::empty() =~= blob(public@));
    assert(blob(signature@) + Seq::<u8>::empty() =~= blob(signature@));
}

/// A signature is accepted exactly where the key and the signature each stand behind the name
/// `ssh-ed25519`, the key has thirty-two bytes and is a point of the curve, the signature has
/// sixty-four, and it holds over the message.
pub proof fn law_what_is_accepted_is_signed(
    key: Seq<u8>,
    signature: Seq<u8>,
    message: Seq<u8>,
    faults: KeyFaults,
    bad: Error,
)
    ensures
        verdict(key, signature, message, faults, bad) is Ok <==> {
            &&& take_string(key) matches Some((name, behind))
            &&& name == encode_utf8("ssh-ed25519"@)
            &&& take_string(behind) matches Some((public, _))
            &&& public.len() == 32
            &&& ed25519_point(public)
            &&& take_string(signature) matches Some((kind, rest))
            &&& kind == encode_utf8("ssh-ed25519"@)
            &&& take_string(rest) matches Some((made, _))
            &&& made.len() == 64
            &&& ed25519_holds(public, message, made)
        },
{
}

/// What is said of a key or a signature that is refused: of a key what `faults` says of it, then of
/// a signature what it lacks, and `bad` only where both are what they should be.
pub proof fn law_what_is_said_of_a_refused_signature(
    name: Seq<u8>,
    public: Seq<u8>,
    kind: Seq<u8>,
    made: Seq<u8>,
    message: Seq<u8>,
    faults: KeyFaults,
    bad: Error,
)
    requires
        name.len() <= u32::MAX && public.len() <= u32::MAX,
        kind.len() <= u32::MAX && made.len() <= u32::MAX,
    ensures
        ({
            let key = string(name) + string(public);
            let signature = string(kind) + string(made);
            let said = verdict(key, signature, message, faults, bad);
            let ours = encode_utf8("ssh-ed25519"@);
            if name != ours {
                said == Err::<(), Error>(faults.kind)
            } else if public.len() != 32 {
                said == Err::<(), Error>(faults.size)
            } else if !ed25519_point(public) {
                said == Err::<(), Error>(faults.point)
            } else if kind != ours {
                said == Err::<(), Error>(Error::SignatureKind)
            } else if made.len() != 64 {
                said == Err::<(), Error>(Error::SignatureSize)
            } else {
                said == if ed25519_holds(public, message, made) {
                    Ok::<(), Error>(())
                } else {
                    Err(bad)
                }
            }
        }),
{
    law_string_reads_back(name, string(public));
    law_string_reads_back(public, Seq::empty());
    law_string_reads_back(kind, string(made));
    law_string_reads_back(made, Seq::empty());
    assert(string(public) + Seq::<u8>::empty() =~= string(public));
    assert(string(made) + Seq::<u8>::empty() =~= string(made));
}

} // verus!
