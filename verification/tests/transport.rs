use sftp::client::LoginStage;
use sftp::keys::SigningKey;
use sftp::transport::{last_segment, target, Directions, SftpTransport};
use std::time::Duration;

#[test]
fn the_transport_names_itself_and_claims_without_locking() {
    let transport = SftpTransport::new("sftp://host:22/in");
    assert_eq!(transport.name(), "sftp");
    assert_eq!(transport.directions(), Directions::Both);
    assert!(transport.claims().is_some());
    assert_eq!(transport.authority(), "host:22");
    assert_eq!(
        transport.resolve("sftp://other:22/a/b.edi"),
        ("other:22", "b.edi")
    );
    assert_eq!(transport.resolve("plain.edi"), ("host:22", "plain.edi"));
}

#[test]
fn a_bare_endpoint_is_its_own_authority() {
    let transport = SftpTransport::new("host:22");
    assert_eq!(transport.authority(), "host:22");
    assert_eq!(target("host:22"), None);
    assert_eq!(target("sftp://host"), Some(("host", "")));
    assert_eq!(target("sftp://h\u{e9}/d\u{e9}/x"), Some(("h\u{e9}", "d\u{e9}/x")));
    assert_eq!(target("sftp:/"), None);
}

#[test]
fn the_last_segment_is_what_follows_the_last_slash() {
    assert_eq!(last_segment("a/b/c.edi"), "c.edi");
    assert_eq!(last_segment("c.edi"), "c.edi");
    assert_eq!(last_segment("a/"), "");
    assert_eq!(last_segment(""), "");
}

#[test]
fn a_transport_logs_in_as_it_was_set_up() {
    let (login, _) = SftpTransport::new("h").connect("SSH-2.0-x").expect("connect");
    assert_eq!(login.user, "xmip");
    assert!(matches!(login.stage, LoginStage::Exchanging(_)));
    assert!(matches!(login.credential, sftp::Credential::Password(ref secret) if secret == "xmip"));
    let transport = SftpTransport::new("h")
        .as_user("partner")
        .with_password("open")
        .timing_out_after(Duration::from_secs(3));
    let (login, _) = transport.connect("SSH-2.0-x").expect("connect");
    assert_eq!(login.user, "partner");
    assert!(matches!(login.credential, sftp::Credential::Password(ref secret) if secret == "open"));
    assert_eq!(transport.timeout(), Some(Duration::from_secs(3)));
    let key = SigningKey::from_bytes(&[6; 32]);
    let transport = SftpTransport::new("h").with_key(key.clone());
    let (login, _) = transport.connect("SSH-2.0-x").expect("connect");
    match login.credential {
        sftp::Credential::PublicKey(held) => {
            assert_eq!(held.verifying_key(), key.verifying_key());
        }
        sftp::Credential::Password(_) => panic!("a key was due"),
    }
}

#[test]
fn a_harvest_is_handed_on_with_its_origins() {
    let transport = SftpTransport::new("sftp://host:22/in");
    let all = transport.receive(vec![
        ("a.edi".to_string(), b"first".to_vec()),
        ("b.edi".to_string(), b"second".to_vec()),
    ]);
    assert_eq!(all.len(), 2);
    assert_eq!(all[0].origin_uri, "sftp://host:22/a.edi");
    assert_eq!(all[0].bytes, b"first");
    assert_eq!(all[1].origin_uri, "sftp://host:22/b.edi");
    assert_eq!(all[1].bytes, b"second");
    assert!(transport.receive(Vec::new()).is_empty());
}
