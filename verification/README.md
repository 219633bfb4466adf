# sftp

SFTP as a transport, both ends of it: the SSH file transfer protocol over an SSH session, with a
client that puts files into a directory or harvests one, and a far end that serves a directory
held in memory.

One file is one Stream, carried over a real SSH handshake: Curve25519 key exchange, an Ed25519
host key, `aes256-ctr` with `hmac-sha2-256`, then password or public-key authentication and the
`sftp` subsystem over one channel. A public-key login is promoted onto the arrival as `ssh.key`,
`ssh.user`, `ssh.signature` and `ssh.session`.

The library under `src/` is written in Verus and does no input or output: it takes bytes and
messages and says which follow. `app/` puts it on TCP sockets.

| module | what it holds |
| --- | --- |
| `wire`, `text`, `names` | the SSH wire types, text and numbers, things held by name in order |
| `crypto` | the primitives, each behind one trusted function |
| `cipher`, `packet` | sealing and opening binary packets; the connection that counts them |
| `keys`, `kex` | Ed25519 keys in their blobs; the two halves of the key exchange |
| `userauth` | authentication by password or public key, fingerprints, base64 |
| `channel` | one session channel as a byte stream |
| `subsystem`, `directory` | the SFTP client's tasks; the far end's answers |
| `errand`, `client`, `server` | what a client is sent for, its login, and the far end's visit |
| `transport`, `loopback` | endpoints and targets; the arrival of what was put |
| `transfer`, `harvest`, `meeting` | what the two ends come to together |
| `error` | what can go wrong, in words |

What the proofs rest on beside Verus and its library are the functions in `crypto` and two
functions of the standard library in `text`; each says what is believed of it.
