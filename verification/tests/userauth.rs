use sftp::error::Error;
use sftp::kex::{fresh_ed25519, host_key_blob, signature_blob, HOST_KEY};
use sftp::keys::SigningKey;
use sftp::userauth::{
    admits, admitted, base64, fingerprint, password, public_key, request_service, serve,
    service_granted, signed_data, verify_public_key, Authenticated, ServeStage, ServeTurn,
    CONNECTION, USERAUTH_FAILURE, USERAUTH_REQUEST, USERAUTH_SUCCESS,
};
use sftp::wire::Writer;
use sha2::{Digest, Sha256};

#[test]
fn a_public_key_request_verifies_against_its_own_key() {
    let key = fresh_ed25519().expect("key");
    let blob = host_key_blob(&key.verifying_key());
    let session = [0x5au8; 32];
    let signed = signed_data(&session, "xmip", &blob);
    let signature = signature_blob(&key.sign(&signed));
    assert!(verify_public_key(&session, "xmip", &blob, &signature).is_ok());
    // Another session identifier is another signature.
    assert!(verify_public_key(&[0u8; 32], "xmip", &blob, &signature).is_err());
    // Another user is another signature.
    assert!(verify_public_key(&session, "someone", &blob, &signature).is_err());
}

#[test]
fn a_fingerprint_is_sha256_and_forty_three_base64_characters() {
    let key = fresh_ed25519().expect("key");
    let print = fingerprint(&host_key_blob(&key.verifying_key()));
    assert!(print.starts_with("SHA256:"), "{print}");
    assert_eq!(print.len() - "SHA256:".len(), 43, "{print}");
}

#[test]
fn a_fingerprint_is_the_base64_of_the_digest() {
    let print = fingerprint(b"abc");
    assert_eq!(print, format!("SHA256:{}", base64(&Sha256::digest(b"abc"))));
    assert_eq!(print, "SHA256:ungWv48Bz+pBQUDeXa4iI7ADYaOWF3qctBD/YfIAFa0");
}

#[test]
fn base64_matches_a_known_vector_without_padding() {
    assert_eq!(base64(b""), "");
    assert_eq!(base64(b"f"), "Zg");
    assert_eq!(base64(b"fo"), "Zm8");
    assert_eq!(base64(b"foo"), "Zm9v");
    assert_eq!(base64(b"foobar"), "Zm9vYmFy");
}

#[test]
fn a_password_request_names_the_user_and_keeps_no_key() {
    let mut request = Writer::new();
    request
        .byte(USERAUTH_REQUEST)
        .string(b"partner")
        .string(CONNECTION.as_bytes())
        .string(b"password")
        .bool(false)
        .string(b"secret");
    let who = admits(&request.finish(), &[0u8; 32])
        .expect("read")
        .expect("admitted");
    assert_eq!(who.user, "partner");
    assert!(who.fingerprint.is_none());
}

fn sends(turn: Result<ServeTurn, Error>) -> (ServeStage, Vec<u8>) {
    match turn {
        Ok(ServeTurn::Send { stage, message }) => (stage, message),
        Ok(ServeTurn::Admitted { .. }) => panic!("another try was due"),
        Err(error) => panic!("{}", error.message()),
    }
}

fn lets_in(turn: Result<ServeTurn, Error>) -> (Authenticated, Vec<u8>) {
    match turn {
        Ok(ServeTurn::Admitted { who, message }) => (who, message),
        Ok(ServeTurn::Send { .. }) => panic!("an admission was due"),
        Err(error) => panic!("{}", error.message()),
    }
}

#[test]
fn a_key_is_admitted_and_what_it_signed_is_kept() {
    let key = SigningKey::from_bytes(&[8; 32]);
    let session = [1u8; 32];
    let (stage, accept) = sends(serve(ServeStage::Listening, &request_service(), &session));
    assert_eq!(service_granted(&accept), Ok(()));
    let message = public_key("xmip", &key, &session);
    let (who, answer) = lets_in(serve(stage, &message, &session));
    assert_eq!(answer, [USERAUTH_SUCCESS]);
    assert_eq!(admitted(&answer), Ok(()));
    let blob = host_key_blob(&key.verifying_key());
    let signature = signature_blob(&key.sign(&signed_data(&session, "xmip", &blob)));
    assert_eq!(who.user, "xmip");
    assert_eq!(who.fingerprint, Some(fingerprint(&blob)));
    assert_eq!(who.signature, Some(signature));
}

#[test]
fn a_password_is_admitted_through_the_service() {
    let (who, _) = lets_in(serve(ServeStage::Granted, &password("partner", "open"), &[]));
    assert_eq!(who.user, "partner");
    assert_eq!(who.fingerprint, None);
    assert_eq!(who.signature, None);
}

fn request(method: &[u8], rest: &[u8]) -> Vec<u8> {
    let mut request = Writer::new();
    request.byte(USERAUTH_REQUEST).string(b"u").string(b"s").string(method);
    let mut message = request.finish();
    message.extend_from_slice(rest);
    message
}

#[test]
fn another_method_or_an_unsigned_key_may_try_again() {
    for message in [request(b"none", &[]), request(b"publickey", &[0])] {
        let (stage, answer) = sends(serve(ServeStage::Granted, &message, &[]));
        assert!(matches!(stage, ServeStage::Granted));
        let mut failure = Writer::new();
        failure.byte(USERAUTH_FAILURE).string(b"publickey,password").bool(false);
        assert_eq!(answer, failure.finish());
        assert_eq!(admitted(&answer), Err(Error::CredentialRefused));
    }
}

#[test]
fn what_is_out_of_place_in_an_authentication_is_refused() {
    assert_eq!(admitted(&[]), Err(Error::NoAuthAnswer));
    assert_eq!(admitted(&[1]), Err(Error::NoAuthAnswer));
    let mut other = Writer::new();
    other.byte(6).string(b"other");
    assert_eq!(service_granted(&other.finish()), Err(Error::OtherService));
    let mut other = Writer::new();
    other.byte(5).string(b"other");
    let turn = serve(ServeStage::Listening, &other.finish(), &[]);
    assert_eq!(turn.err(), Some(Error::NotUserauth));
    let mut bytes = Writer::new();
    bytes.byte(USERAUTH_REQUEST).string(&[0xff]).string(b"").string(b"none");
    let turn = serve(ServeStage::Granted, &bytes.finish(), &[]);
    assert_eq!(turn.err(), Some(Error::UserNotUtf8));
    let turn = serve(ServeStage::Granted, &request(b"password", &[]), &[]);
    assert_eq!(turn.err(), Some(Error::Truncated));
}

#[test]
fn a_public_key_of_another_shape_is_refused() {
    let key = SigningKey::from_bytes(&[8; 32]);
    let blob = |name: &[u8], bytes: &[u8]| {
        let mut writer = Writer::new();
        writer.string(name).string(bytes);
        writer.finish()
    };
    let name = HOST_KEY.as_bytes();
    let good = host_key_blob(&key.verifying_key());
    let sig = signature_blob(&key.sign(b"something else"));
    assert_eq!(verify_public_key(&[], "u", &blob(b"x", &[0; 32]), &sig), Err(Error::PublicKeyKind));
    assert_eq!(verify_public_key(&[], "u", &blob(name, &[0; 3]), &sig), Err(Error::PublicKeySize));
    let mut no_point = [0u8; 32];
    no_point[0] = 2;
    assert_eq!(
        verify_public_key(&[], "u", &blob(name, &no_point), &sig),
        Err(Error::PublicKeyPoint)
    );
    assert_eq!(verify_public_key(&[], "u", &good, &sig), Err(Error::PublicKeySignature));
}
