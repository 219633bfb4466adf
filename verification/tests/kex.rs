use sftp::cipher::Cipher;
use sftp::error::Error;
use sftp::kex::{
    client, client_offer, client_with, diffie_hellman, ephemeral, exchange_hash, fresh_ed25519,
    host_key_blob, kexinit, kexinit_with, server, server_offer, server_with, shared_mpint,
    signature_blob, verify_host, ClientStage, ClientTurn, HashParts, ServerStage, ServerTurn,
    HOST_KEY, KEXINIT, NEWKEYS,
};
use sftp::keys::SigningKey;
use sftp::wire::{Reader, Writer};
use sha2::{Digest, Sha256};

#[test]
fn the_offer_lists_one_name_on_every_axis() {
    let payload = kexinit().expect("kexinit");
    assert_eq!(payload[0], KEXINIT);
    // byte, 16-byte cookie, then the first name-list is the kex algorithm.
    let mut reader = Reader::new(&payload[17..]);
    assert_eq!(reader.string().expect("kex"), b"curve25519-sha256");
    assert_eq!(reader.string().expect("host key"), HOST_KEY.as_bytes());
    assert_eq!(reader.string().expect("cipher"), b"aes256-ctr");
}

#[test]
fn the_offer_ends_with_its_last_lists_and_no_guess() {
    let payload = kexinit_with(&[7; 16]);
    assert_eq!(&payload[1..17], &[7; 16]);
    let mut reader = Reader::new(&payload[17..]);
    let lists: Vec<&[u8]> = (0..10).map(|_| reader.string().expect("list")).collect();
    assert_eq!(lists[3], b"aes256-ctr");
    assert_eq!(lists[4], b"hmac-sha2-256");
    assert_eq!(lists[5], b"hmac-sha2-256");
    assert_eq!(lists[6], b"none");
    assert_eq!(lists[7], b"none");
    assert_eq!(lists[8], b"");
    assert_eq!(lists[9], b"");
    assert_eq!(reader.bool(), Ok(false));
    assert_eq!(reader.u32(), Ok(0));
    assert_eq!(reader.byte(), Err(Error::Truncated));
    assert_ne!(kexinit().expect("kexinit"), kexinit().expect("kexinit"));
}

#[test]
fn a_host_signature_verifies_and_a_tampered_one_does_not() {
    let host = fresh_ed25519().expect("host");
    let hash = [0x11u8; 32];
    let blob = signature_blob(&host.sign(&hash));
    let k_s = host_key_blob(&host.verifying_key());
    assert!(verify_host(&k_s, &blob, &hash).is_ok());
    let other = [0x22u8; 32];
    assert!(verify_host(&k_s, &blob, &other).is_err());
}

#[test]
fn a_host_key_or_signature_of_another_shape_is_refused() {
    let host = SigningKey::from_bytes(&[3; 32]);
    let hash = [0x11u8; 32];
    let signature = signature_blob(&host.sign(&hash));
    let k_s = host_key_blob(&host.verifying_key());
    let blob = |name: &[u8], bytes: &[u8]| {
        let mut writer = Writer::new();
        writer.string(name).string(bytes);
        writer.finish()
    };
    assert_eq!(verify_host(&blob(b"ssh-rsa", &[0; 32]), &signature, &hash), Err(Error::HostKeyKind));
    assert_eq!(
        verify_host(&blob(HOST_KEY.as_bytes(), &[0; 31]), &signature, &hash),
        Err(Error::HostKeySize)
    );
    let mut no_point = [0u8; 32];
    no_point[0] = 2;
    assert_eq!(
        verify_host(&blob(HOST_KEY.as_bytes(), &no_point), &signature, &hash),
        Err(Error::HostKeyPoint)
    );
    assert_eq!(verify_host(&k_s, &blob(b"x", &[0; 64]), &hash), Err(Error::SignatureKind));
    assert_eq!(
        verify_host(&k_s, &blob(HOST_KEY.as_bytes(), &[0; 63]), &hash),
        Err(Error::SignatureSize)
    );
    assert_eq!(verify_host(&k_s, &signature, &[0; 32]), Err(Error::HostSignature));
    assert_eq!(verify_host(&[], &signature, &hash), Err(Error::Truncated));
}

#[test]
fn an_ed25519_key_signs_as_the_standard_has_it() {
    // RFC 8032 section 7.1, the first test vector.
    let seed = [
        0x9d, 0x61, 0xb1, 0x9d, 0xef, 0xfd, 0x5a, 0x60, 0xba, 0x84, 0x4a, 0xf4, 0x92, 0xec, 0x2c,
        0xc4, 0x44, 0x49, 0xc5, 0x69, 0x7b, 0x32, 0x69, 0x19, 0x70, 0x3b, 0xac, 0x03, 0x1c, 0xae,
        0x7f, 0x60,
    ];
    let key = SigningKey::from_bytes(&seed);
    let public = key.verifying_key();
    assert_eq!(&public[..4], &[0xd7, 0x5a, 0x98, 0x01]);
    let signature = key.sign(b"");
    assert_eq!(&signature[..4], &[0xe5, 0x56, 0x43, 0x00]);
    assert_eq!(key.clone().verifying_key(), public);
}

#[test]
fn the_shared_secret_encodes_the_same_mpint_on_both_sides() {
    let (client_secret, client_public) = ephemeral().expect("client");
    let (server_secret, server_public) = ephemeral().expect("server");
    let at_client = diffie_hellman(&client_secret, &server_public);
    let at_server = diffie_hellman(&server_secret, &client_public);
    assert_eq!(at_client, at_server);
    assert_eq!(shared_mpint(&at_client), shared_mpint(&at_server));
}

#[test]
fn a_shared_secret_is_an_mpint_without_leading_zeros_and_never_negative() {
    assert_eq!(shared_mpint(&[0, 0, 1]), [0, 0, 0, 1, 1]);
    assert_eq!(shared_mpint(&[0x80]), [0, 0, 0, 2, 0, 0x80]);
    assert_eq!(shared_mpint(&[0, 0]), [0, 0, 0, 0]);
}

#[test]
fn the_exchange_hash_changes_when_any_part_changes() {
    let base = HashParts {
        v_c: "SSH-2.0-a",
        v_s: "SSH-2.0-b",
        i_c: b"ic",
        i_s: b"is",
        k_s: b"ks",
        q_c: b"qc",
        q_s: b"qs",
        k_mpint: b"\x00\x00\x00\x01\x02",
    };
    let one = exchange_hash(&base);
    let changed = HashParts {
        q_s: b"other",
        ..base
    };
    assert_ne!(one, exchange_hash(&changed));
    assert_eq!(one.len(), 32);
}

#[test]
fn the_exchange_hash_is_over_the_pieces_in_their_order() {
    let parts = HashParts {
        v_c: "a",
        v_s: "b",
        i_c: b"c",
        i_s: b"d",
        k_s: b"e",
        q_c: b"f",
        q_s: b"g",
        k_mpint: b"h",
    };
    let mut data = Vec::new();
    for piece in [b'a', b'b', b'c', b'd', b'e', b'f', b'g'] {
        data.extend_from_slice(&[0, 0, 0, 1, piece]);
    }
    data.push(b'h');
    assert_eq!(exchange_hash(&parts), Sha256::digest(&data).to_vec());
}

fn client_sends(turn: Result<ClientTurn, Error>) -> (ClientStage, Vec<u8>) {
    match turn {
        Ok(ClientTurn::Send { stage, message }) => (stage, message),
        Ok(ClientTurn::Done { .. }) => panic!("a message was due"),
        Err(error) => panic!("{}", error.message()),
    }
}

fn server_sends(turn: Result<ServerTurn, Error>) -> (ServerStage, Vec<Vec<u8>>) {
    match turn {
        Ok(ServerTurn::Send { stage, sent }) => (stage, sent),
        Ok(ServerTurn::Done { .. }) => panic!("messages were due"),
        Err(error) => panic!("{}", error.message()),
    }
}

fn crosses(tx: &mut Cipher, rx: &mut Cipher) {
    let mut line = tx.seal(7, b"sealed").expect("seal");
    assert_eq!(rx.open(7, &mut line), Ok(Some(b"sealed".to_vec())));
}

#[test]
fn both_ends_settle_one_session_and_keys_that_fit() {
    let host = fresh_ed25519().expect("host");
    let (near, i_c) = client_offer("SSH-2.0-near", "SSH-2.0-far").expect("offer");
    let (far, i_s) = server_offer("SSH-2.0-near", "SSH-2.0-far").expect("offer");
    let (near, init) = client_sends(client(near, &i_s));
    let (far, sent) = server_sends(server(far, &i_c, &host));
    assert!(sent.is_empty());
    let (far, sent) = server_sends(server(far, &init, &host));
    assert_eq!(sent.len(), 2);
    let (near, announced) = client_sends(client(near, &sent[0]));
    assert_eq!(announced, [NEWKEYS]);
    let here = client(near, &sent[1]);
    let there = server(far, &announced, &host);
    match (here, there) {
        (
            Ok(ClientTurn::Done { exchanged, mut tx, mut rx }),
            Ok(ServerTurn::Done { exchanged: other, tx: mut far_tx, rx: mut far_rx }),
        ) => {
            assert_eq!(exchanged.session_id, other.session_id);
            assert_eq!(exchanged.session_id.len(), 32);
            crosses(&mut tx, &mut far_rx);
            crosses(&mut far_tx, &mut rx);
        }
        _ => panic!("the keys were due"),
    }
}

#[test]
fn the_client_seals_with_the_client_to_server_keys() {
    let host = SigningKey::from_bytes(&[4; 32]);
    let (near, i_c) = client_offer("c", "s").expect("offer");
    let (far, i_s) = server_offer("c", "s").expect("offer");
    let (near, init) = client_sends(client_with(near, &i_s, &[1; 32]));
    let (far, _) = server_sends(server_with(far, &i_c, &host, &[2; 32]));
    let (_, sent) = server_sends(server_with(far, &init, &host, &[2; 32]));
    let (near, _) = client_sends(client_with(near, &sent[0], &[1; 32]));
    let mut reader = Reader::new(&init[1..]);
    let q_c = reader.string().expect("key");
    let mut reader = Reader::new(&sent[0][1..]);
    let k_s = reader.string().expect("host");
    let q_s = reader.string().expect("key");
    let mut peer = [0u8; 32];
    peer.copy_from_slice(q_s);
    let k_mpint = shared_mpint(&diffie_hellman(&[1; 32], &peer));
    let hash = exchange_hash(&HashParts {
        v_c: "c",
        v_s: "s",
        i_c: &i_c,
        i_s: &i_s,
        k_s,
        q_c,
        q_s,
        k_mpint: &k_mpint,
    });
    match client_with(near, &[NEWKEYS], &[1; 32]) {
        Ok(ClientTurn::Done { exchanged, mut tx, .. }) => {
            assert_eq!(exchanged.session_id, hash);
            let mut to_server = sftp::cipher::suite(&k_mpint, &hash, &hash, true).expect("suite");
            crosses(&mut tx, &mut to_server);
        }
        _ => panic!("the keys were due"),
    }
}

#[test]
fn a_message_out_of_order_is_refused() {
    let host = SigningKey::from_bytes(&[4; 32]);
    let (near, _) = client_offer("c", "s").expect("offer");
    assert_eq!(
        client(near, &[30]).err(),
        Some(Error::Unexpected {
            what: "the server's key-exchange offer",
            expected: 20,
            number: 30
        })
    );
    let (far, _) = server_offer("c", "s").expect("offer");
    assert_eq!(
        server(far, &[], &host).err(),
        Some(Error::Empty {
            what: "the client's key-exchange offer"
        })
    );
    let (far, _) = server_offer("c", "s").expect("offer");
    let (far, _) = server_sends(server(far, &[KEXINIT], &host));
    assert_eq!(server(far, &[30, 0, 0, 0, 1, 9], &host).err(), Some(Error::ClientEphemeralSize));
    let (near, _) = client_offer("c", "s").expect("offer");
    let (near, _) = client_sends(client(near, &[KEXINIT]));
    let mut reply = Writer::new();
    reply.byte(31).string(b"k").string(b"q").string(b"s");
    assert_eq!(client(near, &reply.finish()).err(), Some(Error::ServerEphemeralSize));
}

#[test]
fn a_reply_that_was_tampered_with_is_refused() {
    let host = SigningKey::from_bytes(&[4; 32]);
    let (near, _) = client_offer("c", "s").expect("offer");
    let (far, i_s) = server_offer("c", "s").expect("offer");
    let (near, init) = client_sends(client(near, &i_s));
    let (far, _) = server_sends(server(far, &[KEXINIT, 1], &host));
    let (_, sent) = server_sends(server(far, &init, &host));
    assert_eq!(client(near, &sent[0]).err(), Some(Error::HostSignature));
}
