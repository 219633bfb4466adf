use sftp::client::{Client, Credential, Login, LoginTurn};
use sftp::errand::{Arrival, Errand, Gain, Order};
use sftp::error::Error;
use sftp::kex::{fresh_ed25519, IDENTIFICATION};
use sftp::keys::SigningKey;
use sftp::loopback::{arrival, PROBE};
use sftp::packet::Conn;
use sftp::server::{serve, Served, Visit, VisitThen};
use sftp::subsystem::Files;
use sftp::transport::{Arrived, SftpTransport};
use std::time::Duration;

/// What the client is sent for.
enum Wish<'a> {
    Put(&'a str, &'a [u8]),
    Get(&'a str),
    List,
    Remove(&'a str),
    Harvest,
}

/// The client's side of a meeting.
enum Near {
    In(Login),
    Out(Errand),
    Home(Gain),
}

fn seal(conn: &mut Conn, payloads: &[Vec<u8>]) -> Result<Vec<u8>, Error> {
    let mut wire = Vec::new();
    for payload in payloads {
        wire.extend_from_slice(&conn.send(payload)?);
    }
    Ok(wire)
}

fn near_on(conn: &mut Conn, near: Near, message: &[u8], wish: &Wish) -> Result<(Near, Vec<u8>), Error> {
    match near {
        Near::In(login) => match Client::connect(login, message)? {
            LoginTurn::Go { login, keys, sent } => {
                if let Some((tx, rx)) = keys {
                    conn.rekey(tx, rx);
                }
                Ok((Near::In(login), seal(conn, &sent)?))
            }
            LoginTurn::Connected(client) => {
                let (errand, message) = match wish {
                    Wish::Put(name, bytes) => client.put(name, bytes),
                    Wish::Get(name) => client.with_subsystem(Order::Get { name: name.to_string() }),
                    Wish::List => client.with_subsystem(Order::List),
                    Wish::Remove(name) => {
                        client.with_subsystem(Order::Remove { name: name.to_string() })
                    }
                    Wish::Harvest => client.harvest(),
                };
                Ok((Near::Out(errand), conn.send(&message)?))
            }
        },
        Near::Out(errand) => {
            let (sent, came) = errand.go_on(message);
            let wire = seal(conn, &sent)?;
            match came {
                Arrival::Wait(errand) => Ok((Near::Out(errand), wire)),
                Arrival::Done(gain) => Ok((Near::Home(gain), wire)),
                Arrival::Failed(error) => Err(error),
            }
        }
        Near::Home(_) => panic!("the client has gone home"),
    }
}

fn greet(conn: &mut Conn) -> String {
    conn.receive(&Conn::greeting(IDENTIFICATION));
    conn.banner(false).expect("banner").expect("whole")
}

/// Both ends on one line, `step` bytes of it at a time.
fn meet(
    wish: Wish,
    user: &str,
    credential: &Credential,
    host: &SigningKey,
    files: Files,
    step: usize,
) -> Result<(Gain, Served), Error> {
    let (mut here, mut there) = (Conn::new(), Conn::new());
    let (login, offer) = Login::begin(&greet(&mut here), user, credential)?;
    let (visit, answer) = Visit::begin(&greet(&mut there), files)?;
    let mut near = Near::In(login);
    let mut far = Some(visit);
    let mut served = None;
    let mut to_far = here.send(&offer)?;
    let mut to_near = there.send(&answer)?;
    loop {
        for part in std::mem::take(&mut to_far).chunks(step) {
            there.receive(part);
            while let Some(visit) = far.take() {
                let message = match there.recv()? {
                    Some(message) => message,
                    None => {
                        far = Some(visit);
                        break;
                    }
                };
                let turn = serve(visit, &message, host);
                if let Some((tx, rx)) = turn.keys {
                    there.rekey(tx, rx);
                }
                to_near.extend_from_slice(&seal(&mut there, &turn.sent)?);
                match turn.outcome {
                    VisitThen::Wait(visit) => far = Some(visit),
                    VisitThen::Done(left) => served = Some(left),
                    VisitThen::Failed(error) => return Err(error),
                }
            }
        }
        if let Some(left) = served {
            match near {
                Near::Home(gain) => return Ok((gain, left)),
                _ => panic!("the far end left first"),
            }
        }
        for part in std::mem::take(&mut to_near).chunks(step) {
            here.receive(part);
            while let Some(message) = here.recv()? {
                let (next, wire) = near_on(&mut here, near, &message, &wish)?;
                near = next;
                to_far.extend_from_slice(&wire);
            }
        }
    }
}

fn patterned(len: usize) -> Vec<u8> {
    (0..len).map(|i| (i % 251) as u8).collect()
}

#[test]
fn a_client_puts_a_file_and_the_far_end_keeps_it_with_the_peers_key() {
    let host = fresh_ed25519().expect("host");
    let auth = fresh_ed25519().expect("auth");
    let credential = Credential::PublicKey(Box::new(auth));
    let wish = Wish::Put("probe.bin", b"one exchange");
    let (gain, served) =
        meet(wish, "xmip", &credential, &host, Files::new(), 4096).expect("put");
    assert!(matches!(gain, Gain::Put));
    assert_eq!(
        served.files.get("probe.bin").expect("kept"),
        b"one exchange"
    );
    assert_eq!(served.who.user, "xmip");
    assert!(
        served
            .who
            .fingerprint
            .expect("a key")
            .starts_with("SHA256:")
    );
}

#[test]
fn a_client_harvests_a_populated_directory_and_leaves_it_empty() {
    let host = fresh_ed25519().expect("host");
    let mut files = Files::new();
    files.insert("a.edi".to_string(), b"first".to_vec());
    files.insert("b.edi".to_string(), b"second".to_vec());
    let credential = Credential::Password("open".into());
    let (gain, served) =
        meet(Wish::Harvest, "partner", &credential, &host, files, 4096).expect("harvest");
    let mut taken = match gain {
        Gain::Harvest(taken) => taken,
        _ => panic!("files were due"),
    };
    taken.sort();
    assert_eq!(taken.len(), 2);
    assert_eq!(taken[0], ("a.edi".to_string(), b"first".to_vec()));
    assert_eq!(taken[1], ("b.edi".to_string(), b"second".to_vec()));
    assert!(served.files.is_empty(), "harvested files are removed");
    assert!(served.who.fingerprint.is_none(), "a password keeps no key");
}

#[test]
fn a_large_file_crosses_whole_through_many_write_chunks() {
    let host = fresh_ed25519().expect("host");
    let auth = fresh_ed25519().expect("auth");
    let payload = patterned(200_000);
    let credential = Credential::PublicKey(Box::new(auth));
    let wish = Wish::Put("big.bin", &payload);
    let (_, served) =
        meet(wish, "xmip", &credential, &host, Files::new(), 8192).expect("put");
    assert_eq!(served.files.get("big.bin").expect("kept"), &payload);
}

#[test]
fn a_large_file_is_harvested_whole_through_many_read_chunks() {
    let host = fresh_ed25519().expect("host");
    let payload = patterned(100_000);
    let mut files = Files::new();
    files.insert("big.bin".to_string(), payload.clone());
    files.insert("empty".to_string(), Vec::new());
    files.insert(".".to_string(), b"stays".to_vec());
    let credential = Credential::Password("open".into());
    let (gain, served) =
        meet(Wish::Harvest, "partner", &credential, &host, files, 1000).expect("harvest");
    match gain {
        Gain::Harvest(taken) => {
            assert_eq!(
                taken,
                vec![("big.bin".to_string(), payload), ("empty".to_string(), Vec::new())]
            );
        }
        _ => panic!("files were due"),
    }
    assert_eq!(served.files.keys(), vec!["."]);
}

fn some_files() -> Files {
    let mut files = Files::new();
    files.insert("b".to_string(), patterned(70_000));
    files.insert("a".to_string(), b"first".to_vec());
    files.insert("..".to_string(), b"stays".to_vec());
    files
}

#[test]
fn a_client_gets_one_file_and_leaves_it() {
    let host = fresh_ed25519().expect("host");
    let credential = Credential::Password("open".into());
    let (gain, served) =
        meet(Wish::Get("b"), "u", &credential, &host, some_files(), 4096).expect("get");
    assert!(matches!(gain, Gain::Got(bytes) if bytes == patterned(70_000)));
    assert_eq!(served.files.keys(), vec!["..", "a", "b"]);
    assert_eq!(served.files.get("b"), Some(&patterned(70_000)));
}

#[test]
fn a_client_lists_the_directory_and_leaves_it() {
    let host = fresh_ed25519().expect("host");
    let credential = Credential::Password("open".into());
    let (gain, served) =
        meet(Wish::List, "u", &credential, &host, some_files(), 4096).expect("list");
    assert!(matches!(gain, Gain::Listed(names) if names == ["a", "b"]));
    assert_eq!(served.files.keys(), vec!["..", "a", "b"]);
}

#[test]
fn a_client_removes_one_file_and_no_other() {
    let host = fresh_ed25519().expect("host");
    let credential = Credential::Password("open".into());
    let (gain, served) =
        meet(Wish::Remove("a"), "u", &credential, &host, some_files(), 4096).expect("remove");
    assert!(matches!(gain, Gain::Removed));
    assert_eq!(served.files.keys(), vec!["..", "b"]);
}

#[test]
fn a_client_that_asks_for_no_file_is_refused() {
    let host = fresh_ed25519().expect("host");
    let credential = Credential::Password("open".into());
    let refused = meet(Wish::Get("c"), "u", &credential, &host, some_files(), 4096);
    assert_eq!(refused.err(), Some(Error::Refused { what: "the open", code: 2 }));
    let refused = meet(Wish::Remove("c"), "u", &credential, &host, some_files(), 4096);
    assert_eq!(refused.err(), Some(Error::Refused { what: "the remove", code: 2 }));
}

#[test]
fn an_exchange_crosses_a_byte_at_a_time() {
    let host = SigningKey::from_bytes(&[1; 32]);
    let credential = Credential::Password("open".into());
    let wish = Wish::Put("f", b"drip");
    let (_, served) = meet(wish, "u", &credential, &host, Files::new(), 1).expect("put");
    assert_eq!(served.files.get("f").expect("kept"), b"drip");
    assert_eq!(served.session_id.len(), 32);
}

/// One round of the transport with its own far end.
fn round(transport: &SftpTransport, bytes: &[u8]) -> Result<Arrived, Error> {
    let (login, _) = transport.connect(IDENTIFICATION)?;
    let host = SftpTransport::host_key();
    let wish = Wish::Put(PROBE, bytes);
    let (_, served) =
        meet(wish, &login.user, &login.credential, &host, Files::new(), 16384)?;
    arrival("127.0.0.1:4022", &served)
}

#[test]
fn the_loopback_puts_a_file_and_takes_it_with_the_peer_on_the_arrival() {
    let pair = SftpTransport::loopback(Duration::from_secs(5));
    let arrived = round(&pair, b"UNA:+.? '").expect("round");
    assert_eq!(arrived.bytes, b"UNA:+.? '");
    assert!(
        arrived.origin_uri.starts_with("sftp://127.0.0.1:"),
        "{}",
        arrived.origin_uri
    );
    assert!(
        arrived.origin_uri.contains("/probe.bin?"),
        "{}",
        arrived.origin_uri
    );
    assert!(
        arrived.origin_uri.contains("ssh.user=xmip"),
        "{}",
        arrived.origin_uri
    );
    assert!(
        arrived.origin_uri.contains("ssh.key=SHA256:"),
        "{}",
        arrived.origin_uri
    );
    assert!(
        arrived.origin_uri.contains("ssh.signature="),
        "{}",
        arrived.origin_uri
    );
    assert!(
        arrived.origin_uri.contains("ssh.session="),
        "{}",
        arrived.origin_uri
    );
}

#[test]
fn the_loopback_returns_the_edge_payloads_whole() {
    let transport = SftpTransport::loopback(Duration::from_secs(5));
    assert_eq!(transport.ceiling(), Some(SftpTransport::CEILING));
    let every: Vec<u8> = (0..=255).collect();
    for (name, bytes) in [
        ("empty", Vec::new()),
        ("one byte", vec![0]),
        ("every byte", every),
        ("line ends", b"a\r\nb\nc\r".to_vec()),
        ("under a chunk", patterned(32_767)),
        ("a chunk", patterned(32_768)),
        ("over a chunk", patterned(32_769)),
        ("some chunks", patterned(70_000)),
    ] {
        assert!(transport.refuses(&bytes).is_none(), "{name}");
        let arrived = round(&transport, &bytes)
            .unwrap_or_else(|error| panic!("{name}: {}", error.message()));
        assert_eq!(arrived.bytes, bytes, "{name}");
    }
}

#[test]
fn a_payload_over_the_ceiling_is_refused_with_its_reason() {
    let transport = SftpTransport::loopback(Duration::from_secs(5));
    let over = vec![0u8; SftpTransport::CEILING + 1];
    let why = transport.refuses(&over).expect("refused");
    assert!(why.contains("over the"), "{why}");
    assert!(why.contains("holds whole"), "{why}");
    assert!(transport.unavailable().is_none());
    assert_eq!(
        why,
        "a payload of 16777217 bytes, over the 16777216 the in-memory far end holds whole"
    );
}

#[test]
fn an_arrival_by_password_carries_only_the_user() {
    let host = SigningKey::from_bytes(&[1; 32]);
    let credential = Credential::Password("open".into());
    let wish = Wish::Put("f", b"x");
    let (_, served) = meet(wish, "partner", &credential, &host, Files::new(), 512).expect("put");
    let arrived = arrival("10.0.0.1:9", &served).expect("arrival");
    assert_eq!(arrived.origin_uri, "sftp://10.0.0.1:9/f?ssh.user=partner");
    assert_eq!(arrived.bytes, b"x");
}

#[test]
fn an_arrival_carries_what_the_key_signed() {
    let host = SigningKey::from_bytes(&[1; 32]);
    let key = SigningKey::from_bytes(&[2; 32]);
    let credential = Credential::PublicKey(Box::new(key.clone()));
    let wish = Wish::Put("f", b"x");
    let (_, served) = meet(wish, "xmip", &credential, &host, Files::new(), 512).expect("put");
    let arrived = arrival("p", &served).expect("arrival");
    let blob = sftp::kex::host_key_blob(&key.verifying_key());
    let signed = sftp::userauth::signed_data(&served.session_id, "xmip", &blob);
    let signature = sftp::kex::signature_blob(&key.sign(&signed));
    assert_eq!(
        arrived.origin_uri,
        format!(
            "sftp://p/f?ssh.user=xmip&ssh.key={}&ssh.signature={}&ssh.session={}",
            sftp::userauth::fingerprint(&blob),
            sftp::userauth::base64(&signature),
            sftp::userauth::base64(&served.session_id)
        )
    );
}

#[test]
fn a_client_that_put_nothing_leaves_no_arrival() {
    let host = SigningKey::from_bytes(&[1; 32]);
    let credential = Credential::Password("open".into());
    let (gain, served) =
        meet(Wish::Harvest, "u", &credential, &host, Files::new(), 512).expect("harvest");
    assert!(matches!(gain, Gain::Harvest(taken) if taken.is_empty()));
    assert_eq!(arrival("p", &served).err(), Some(Error::NothingPut));
}

#[test]
fn a_file_that_was_there_is_replaced_and_the_others_stay() {
    let host = SigningKey::from_bytes(&[1; 32]);
    let credential = Credential::Password("open".into());
    let mut files = Files::new();
    files.insert("f".to_string(), b"a longer text that was there".to_vec());
    files.insert("g".to_string(), b"other".to_vec());
    let wish = Wish::Put("f", b"new");
    let (_, served) = meet(wish, "u", &credential, &host, files, 512).expect("put");
    assert_eq!(served.files.get("f").expect("kept"), b"new");
    assert_eq!(served.files.get("g").expect("kept"), b"other");
}
