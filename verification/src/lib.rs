//! Streams that arrive as files over SFTP. One file is one Stream, the peer that put it kept
//! beside it.
//!
//! SFTP is a file transfer that rides inside SSH rather than beside it: the SSH transport layer
//! (RFC 4253) exchanges keys and encrypts the line, user authentication (RFC 4252) proves who is
//! calling, one session channel (RFC 4254) carries the `sftp` subsystem, and over that byte
//! stream the SFTP protocol (draft-ietf-secsh-filexfer-02, version 3) opens, writes, reads,
//! lists and removes files. A Send Location connects and puts a file into a directory; a Receive
//! Location connects, lists a directory, takes each file and removes it.
//!
//! The library is both ends of the exchange and does no input or output of its own: a
//! [`packet::Conn`] turns bytes into messages and back, a [`Client`] and a [`server::Visit`] say
//! which message follows which. It is a real handshake (Curve25519 key exchange, an Ed25519 host
//! key, `aes256-ctr` with `hmac-sha2-256`); what the far end is not is a general server, and it
//! admits every credential rather than checking one, because it is a counterparty and not a
//! gatekeeper.
//!
//! Where the client authenticated by a public key, the far end promotes the peer onto the
//! arrival for the identity gate that follows: the origin carries the key's fingerprint as
//! `ssh.key`, the user as `ssh.user`, and the signature and session identifier as
//! `ssh.signature` and `ssh.session`. A password authentication carries only `ssh.user`.
//!
//! What is not here: only `aes256-ctr` with `hmac-sha2-256` is offered, so a peer that will
//! speak nothing else cannot connect; there is no known-hosts check, so the host key is taken as
//! presented; and the far end holds each directory whole in memory, which is the
//! [`SftpTransport::CEILING`] a payload may not exceed.

pub mod channel;
pub mod cipher;
pub mod client;
pub mod crypto;
pub mod directory;
pub mod errand;
pub mod error;
pub mod harvest;
pub mod kex;
pub mod layout;
pub mod keys;
pub mod loopback;
pub mod meeting;
pub mod names;
pub mod packet;
pub mod server;
pub mod subsystem;
pub mod text;
pub mod transfer;
pub mod transport;
pub mod userauth;
pub mod wire;

pub use client::{Client, Credential};
pub use server::Served;
pub use transport::SftpTransport;
