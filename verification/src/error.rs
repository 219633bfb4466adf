//! What can go wrong in an exchange, each case with the words it is reported in.

use vstd::prelude::*;
use vstd::string::*;

use crate::text::{decimal, digits};

verus! {

/// Why an exchange was given up.
#[derive(Clone, Copy, Debug, PartialEq, Eq)]
pub enum Error {
    /// A message ended before one of its fields did.
    Truncated,
    /// The system drew no randomness for the key-exchange cookie.
    NoCookie,
    /// The system drew no randomness for a Curve25519 secret.
    NoSecret,
    /// The system drew no randomness for an Ed25519 key.
    NoEd25519,
    /// The system drew no randomness for a packet's padding.
    NoPadding,
    /// The cipher was given a key or an initialisation vector of another size.
    AesKeySize,
    /// One direction has carried so many bytes that the keystream position cannot be counted on.
    KeystreamSpent,
    /// The message authentication code does not belong to the packet.
    MacMismatch,
    /// The packet is empty where its padding length was due.
    NoPaddingLength,
    /// The padding is longer than the packet that carries it.
    PaddingTooLong,
    /// The packet length is outside what is carried.
    PacketLength(usize),
    /// Another message than the one that was due.
    Unexpected { what: &'static str, expected: u8, number: u8 },
    /// No message number where one was due.
    Empty { what: &'static str },
    /// The peer's identification string is not text.
    IdentificationNotUtf8,
    /// The peer sent no identification string.
    NoIdentification,
    /// The server's ephemeral key has another size.
    ServerEphemeralSize,
    /// The client's ephemeral key has another size.
    ClientEphemeralSize,
    /// The host key is of another algorithm.
    HostKeyKind,
    /// The host key has another size.
    HostKeySize,
    /// The host key is no point of the curve.
    HostKeyPoint,
    /// The signature is of another algorithm.
    SignatureKind,
    /// The signature has another size.
    SignatureSize,
    /// The host's signature does not verify.
    HostSignature,
    /// The public key is of another algorithm.
    PublicKeyKind,
    /// The public key has another size.
    PublicKeySize,
    /// The public key is no point of the curve.
    PublicKeyPoint,
    /// The signature made with the public key does not verify.
    PublicKeySignature,
    /// The server granted another service.
    OtherService,
    /// The client asked for another service.
    NotUserauth,
    /// The server turned the credential down.
    CredentialRefused,
    /// Another message where the authentication answer was due.
    NoAuthAnswer,
    /// The user name is not text.
    UserNotUtf8,
    /// The channel was opened for something else than a session.
    NotSession,
    /// The channel request was for something else than a subsystem.
    NotSubsystem,
    /// The subsystem asked for is another one.
    NotSftp,
    /// The channel ended before what was being read was complete.
    ChannelEnded,
    /// A message that has no place on a channel.
    ChannelMessage(Option<u8>),
    /// The server speaks another version of the protocol.
    SftpVersion,
    /// A packet of the subsystem without a type.
    SftpNoType,
    /// The reply to a read is neither data nor a status.
    NeitherDataNorStatus,
    /// The reply to a listing is neither names nor a status.
    NeitherNamesNorStatus,
    /// The handle is not text.
    HandleNotUtf8,
    /// Another reply where a handle was due.
    NoHandle,
    /// Another reply where a status was due.
    NoStatus { what: &'static str },
    /// The server refused a request, with a status code.
    Refused { what: &'static str, code: u32 },
    /// A name or a handle in a subsystem packet is not text.
    NameNotUtf8,
    /// A request of a type the far end does not serve.
    RequestType(u8),
    /// A request that this machine cannot address or count.
    Unservable,
    /// The client connected and put nothing.
    NothingPut,
}

/// A number as the reports write it.
pub open spec fn written(n: int) -> Seq<char> {
    digits(n as nat)
}

/// The words an error is reported in.
pub open spec fn words(error: Error) -> Seq<char> {
    match error {
        Error::Truncated => "a message that ended before its fields did"@,
        Error::NoCookie => "the system would not draw a key-exchange cookie"@,
        Error::NoSecret => "the system would not draw a Curve25519 secret"@,
        Error::NoEd25519 => "the system would not draw an Ed25519 key"@,
        Error::NoPadding => "the system would not draw padding"@,
        Error::AesKeySize => "an AES-256 key or IV of the wrong length"@,
        Error::KeystreamSpent => "a direction that has carried more than its keystream can be counted for"@,
        Error::MacMismatch => "a packet whose message authentication code did not agree"@,
        Error::NoPaddingLength => "a packet with no padding length"@,
        Error::PaddingTooLong => "a packet whose padding is longer than the packet"@,
        Error::IdentificationNotUtf8 => "an identification string that is not UTF-8"@,
        Error::NoIdentification => "a peer that sent no SSH identification"@,
        Error::ServerEphemeralSize => "a server ephemeral key that is not 32 bytes"@,
        Error::ClientEphemeralSize => "a client ephemeral key that is not 32 bytes"@,
        Error::HostKeyKind => "a host key that is not ssh-ed25519"@,
        Error::HostKeySize => "a host key that is not 32 bytes"@,
        Error::HostKeyPoint => "a host key that is not a valid Ed25519 point"@,
        Error::SignatureKind => "a signature that is not ssh-ed25519"@,
        Error::SignatureSize => "a signature that is not 64 bytes"@,
        Error::HostSignature => "a host signature that did not verify"@,
        Error::PublicKeyKind => "a public key that is not ssh-ed25519"@,
        Error::PublicKeySize => "a public key that is not 32 bytes"@,
        Error::PublicKeyPoint => "a public key that is not a valid Ed25519 point"@,
        Error::PublicKeySignature => "a public-key signature that did not verify"@,
        Error::OtherService => "the server accepted another service"@,
        Error::NotUserauth => "a service request that was not for userauth"@,
        Error::CredentialRefused => "the server turned the credential down"@,
        Error::NoAuthAnswer => "a message where the authentication answer was due"@,
        Error::UserNotUtf8 => "a user name that is not UTF-8"@,
        Error::NotSession => "a channel open that was not for a session"@,
        Error::NotSubsystem => "a channel request that was not a subsystem"@,
        Error::NotSftp => "a subsystem other than sftp"@,
        Error::ChannelEnded => "the channel closed before the reply was complete"@,
        Error::SftpVersion => "a server that does not speak SFTP version 3"@,
        Error::SftpNoType => "an SFTP packet with no type"@,
        Error::NeitherDataNorStatus => "a reply that was neither data nor status"@,
        Error::NeitherNamesNorStatus => "a reply that was neither names nor status"@,
        Error::HandleNotUtf8 => "a handle that is not UTF-8"@,
        Error::NoHandle => "a reply where a handle was due"@,
        Error::NameNotUtf8 => "an SFTP name or handle that is not UTF-8"@,
        Error::Unservable => "an SFTP request that this machine cannot hold or count"@,
        Error::NothingPut => "a client that connected and put nothing"@,
        Error::PacketLength(length) => "a binary packet of "@ + written(length as int)
            + " bytes, outside what is carried"@,
        Error::Unexpected { what, expected, number } => "expected "@ + what@ + " ("@ + written(
            expected as int,
        ) + "), and the peer sent message "@ + written(number as int),
        Error::Empty { what } => "an empty message where "@ + what@ + " was due"@,
        Error::ChannelMessage(Some(number)) => "an unexpected message Some("@ + written(
            number as int,
        ) + ") on the channel"@,
        Error::ChannelMessage(None) => "an unexpected message None on the channel"@,
        Error::NoStatus { what } => "a reply where a status for "@ + what@ + " was due"@,
        Error::Refused { what, code } => "the server refused "@ + what@ + " with SFTP status "@
            + written(code as int),
        Error::RequestType(kind) => "an SFTP request of type "@ + written(kind as int),
    }
}

impl Error {
    /// The words this error is reported in.
    pub fn message(&self) -> (text: String)
        ensures
            text@ == words(*self),
    {
        match *self {
            Error::Truncated => "a message that ended before its fields did".to_string(),
            Error::NoCookie => "the system would not draw a key-exchange cookie".to_string(),
            Error::NoSecret => "the system would not draw a Curve25519 secret".to_string(),
            Error::NoEd25519 => "the system would not draw an Ed25519 key".to_string(),
            Error::NoPadding => "the system would not draw padding".to_string(),
            Error::AesKeySize => "an AES-256 key or IV of the wrong length".to_string(),
            Error::KeystreamSpent => "a direction that has carried more than its keystream can be counted for".to_string(),
            Error::MacMismatch => "a packet whose message authentication code did not agree".to_string(),
            Error::NoPaddingLength => "a packet with no padding length".to_string(),
            Error::PaddingTooLong => "a packet whose padding is longer than the packet".to_string(),
            Error::IdentificationNotUtf8 => "an identification string that is not UTF-8".to_string(),
            Error::NoIdentification => "a peer that sent no SSH identification".to_string(),
            Error::ServerEphemeralSize => "a server ephemeral key that is not 32 bytes".to_string(),
            Error::ClientEphemeralSize => "a client ephemeral key that is not 32 bytes".to_string(),
            Error::HostKeyKind => "a host key that is not ssh-ed25519".to_string(),
            Error::HostKeySize => "a host key that is not 32 bytes".to_string(),
            Error::HostKeyPoint => "a host key that is not a valid Ed25519 point".to_string(),
            Error::SignatureKind => "a signature that is not ssh-ed25519".to_string(),
            Error::SignatureSize => "a signature that is not 64 bytes".to_string(),
            Error::HostSignature => "a host signature that did not verify".to_string(),
            Error::PublicKeyKind => "a public key that is not ssh-ed25519".to_string(),
            Error::PublicKeySize => "a public key that is not 32 bytes".to_string(),
            Error::PublicKeyPoint => "a public key that is not a valid Ed25519 point".to_string(),
            Error::PublicKeySignature => "a public-key signature that did not verify".to_string(),
            Error::OtherService => "the server accepted another service".to_string(),
            Error::NotUserauth => "a service request that was not for userauth".to_string(),
            Error::CredentialRefused => "the server turned the credential down".to_string(),
            Error::NoAuthAnswer => "a message where the authentication answer was due".to_string(),
            Error::UserNotUtf8 => "a user name that is not UTF-8".to_string(),
            Error::NotSession => "a channel open that was not for a session".to_string(),
            Error::NotSubsystem => "a channel request that was not a subsystem".to_string(),
            Error::NotSftp => "a subsystem other than sftp".to_string(),
            Error::ChannelEnded => "the channel closed before the reply was complete".to_string(),
            Error::SftpVersion => "a server that does not speak SFTP version 3".to_string(),
            Error::SftpNoType => "an SFTP packet with no type".to_string(),
            Error::NeitherDataNorStatus => "a reply that was neither data nor status".to_string(),
            Error::NeitherNamesNorStatus => "a reply that was neither names nor status".to_string(),
            Error::HandleNotUtf8 => "a handle that is not UTF-8".to_string(),
            Error::NoHandle => "a reply where a handle was due".to_string(),
            Error::NameNotUtf8 => "an SFTP name or handle that is not UTF-8".to_string(),
            Error::Unservable => "an SFTP request that this machine cannot hold or count".to_string(),
            Error::NothingPut => "a client that connected and put nothing".to_string(),
            Error::PacketLength(length) => join(
                "a binary packet of ",
                decimal(length as u64).as_str(),
                " bytes, outside what is carried",
            ),
            Error::Unexpected { what, expected, number } => {
                let mut text = join("expected ", what, " (");
                text.append(decimal(expected as u64).as_str());
                text.append("), and the peer sent message ");
                text.append(decimal(number as u64).as_str());
                text
            },
            Error::Empty { what } => join("an empty message where ", what, " was due"),
            Error::ChannelMessage(Some(number)) => join(
                "an unexpected message Some(",
                decimal(number as u64).as_str(),
                ") on the channel",
            ),
            Error::ChannelMessage(None) => "an unexpected message None on the channel".to_string(),
            Error::NoStatus { what } => join("a reply where a status for ", what, " was due"),
            Error::Refused { what, code } => {
                let mut text = join("the server refused ", what, " with SFTP status ");
                text.append(decimal(code as u64).as_str());
                text
            },
            Error::RequestType(kind) => {
                let mut text = "an SFTP request of type ".to_string();
                text.append(decimal(kind as u64).as_str());
                text
            },
        }
    }
}

fn join(first: &str, second: &str, third: &str) -> (text: String)
    ensures
        text@ == first@ + second@ + third@,
{
    let mut text = first.to_string();
    text.append(second);
    text.append(third);
    text
}

/// Every error is told in its own words, with the numbers in it in decimal.
pub proof fn law_every_error_has_its_words(
    what: &'static str,
    length: usize,
    expected: u8,
    number: u8,
    code: u32,
)
    ensures
        words(Error::Truncated) == "a message that ended before its fields did"@,
        words(Error::NoCookie) == "the system would not draw a key-exchange cookie"@,
        words(Error::NoSecret) == "the system would not draw a Curve25519 secret"@,
        words(Error::NoEd25519) == "the system would not draw an Ed25519 key"@,
        words(Error::NoPadding) == "the system would not draw padding"@,
        words(Error::AesKeySize) == "an AES-256 key or IV of the wrong length"@,
        words(Error::KeystreamSpent)
            == "a direction that has carried more than its keystream can be counted for"@,
        words(Error::MacMismatch) == "a packet whose message authentication code did not agree"@,
        words(Error::NoPaddingLength) == "a packet with no padding length"@,
        words(Error::PaddingTooLong) == "a packet whose padding is longer than the packet"@,
        words(Error::IdentificationNotUtf8) == "an identification string that is not UTF-8"@,
        words(Error::NoIdentification) == "a peer that sent no SSH identification"@,
        words(Error::ServerEphemeralSize) == "a server ephemeral key that is not 32 bytes"@,
        words(Error::ClientEphemeralSize) == "a client ephemeral key that is not 32 bytes"@,
        words(Error::HostKeyKind) == "a host key that is not ssh-ed25519"@,
        words(Error::HostKeySize) == "a host key that is not 32 bytes"@,
        words(Error::HostKeyPoint) == "a host key that is not a valid Ed25519 point"@,
        words(Error::SignatureKind) == "a signature that is not ssh-ed25519"@,
        words(Error::SignatureSize) == "a signature that is not 64 bytes"@,
        words(Error::HostSignature) == "a host signature that did not verify"@,
        words(Error::PublicKeyKind) == "a public key that is not ssh-ed25519"@,
        words(Error::PublicKeySize) == "a public key that is not 32 bytes"@,
        words(Error::PublicKeyPoint) == "a public key that is not a valid Ed25519 point"@,
        words(Error::PublicKeySignature) == "a public-key signature that did not verify"@,
        words(Error::OtherService) == "the server accepted another service"@,
        words(Error::NotUserauth) == "a service request that was not for userauth"@,
        words(Error::CredentialRefused) == "the server turned the credential down"@,
        words(Error::NoAuthAnswer) == "a message where the authentication answer was due"@,
        words(Error::UserNotUtf8) == "a user name that is not UTF-8"@,
        words(Error::NotSession) == "a channel open that was not for a session"@,
        words(Error::NotSubsystem) == "a channel request that was not a subsystem"@,
        words(Error::NotSftp) == "a subsystem other than sftp"@,
        words(Error::ChannelEnded) == "the channel closed before the reply was complete"@,
        words(Error::SftpVersion) == "a server that does not speak SFTP version 3"@,
        words(Error::SftpNoType) == "an SFTP packet with no type"@,
        words(Error::NeitherDataNorStatus) == "a reply that was neither data nor status"@,
        words(Error::NeitherNamesNorStatus) == "a reply that was neither names nor status"@,
        words(Error::HandleNotUtf8) == "a handle that is not UTF-8"@,
        words(Error::NoHandle) == "a reply where a handle was due"@,
        words(Error::NameNotUtf8) == "an SFTP name or handle that is not UTF-8"@,
        words(Error::Unservable) == "an SFTP request that this machine cannot hold or count"@,
        words(Error::NothingPut) == "a client that connected and put nothing"@,
        words(Error::PacketLength(length)) == "a binary packet of "@ + digits(length as nat)
            + " bytes, outside what is carried"@,
        words(Error::Unexpected { what, expected, number }) == "expected "@ + what@ + " ("@
            + digits(expected as nat) + "), and the peer sent message "@ + digits(number as nat),
        words(Error::Empty { what }) == "an empty message where "@ + what@ + " was due"@,
        words(Error::ChannelMessage(Some(number))) == "an unexpected message Some("@ + digits(
            number as nat,
        ) + ") on the channel"@,
        words(Error::ChannelMessage(None)) == "an unexpected message None on the channel"@,
        words(Error::NoStatus { what }) == "a reply where a status for "@ + what@ + " was due"@,
        words(Error::Refused { what, code }) == "the server refused "@ + what@
            + " with SFTP status "@ + digits(code as nat),
        words(Error::RequestType(number)) == "an SFTP request of type "@ + digits(number as nat),
{
}

} // verus!
