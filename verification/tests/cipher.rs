use aes::Aes256;
use ctr::cipher::{KeyIvInit, StreamCipher};
use ctr::Ctr128BE;
use hmac::{Hmac, Mac};
use sha2::{Digest, Sha256};
use sftp::cipher::{
    check_length, frame, pad, padding_length, plain, suite, unframe, AesCtrHmac, Cipher,
    MAX_PAYLOAD,
};
use sftp::error::Error;
use sftp::packet::MAX_PACKET;

#[test]
fn a_frame_is_padded_to_the_block_and_reads_its_payload_back() {
    for block in [8usize, 16] {
        let framed = frame(b"hello", block).expect("frame");
        assert_eq!((framed.len()) % block, 0, "block {block}");
        let payload = unframe(&framed[4..]).expect("unframe");
        assert_eq!(payload, b"hello");
    }
}

#[test]
fn the_derived_key_is_the_length_asked_for_and_extends_past_one_hash() {
    let short = sftp::cipher::derive(b"k", b"h", b'C', b"s", 16);
    assert_eq!(short.len(), 16);
    let long = sftp::cipher::derive(b"k", b"h", b'C', b"s", 64);
    assert_eq!(long.len(), 64);
    // The first 32 bytes are the first hash; the rest is the extension.
    assert_eq!(&long[..32], &sftp::cipher::derive(b"k", b"h", b'C', b"s", 32)[..]);
}

#[test]
fn a_derived_key_is_the_hash_of_its_pieces() {
    let first = Sha256::digest(b"khCs").to_vec();
    assert_eq!(sftp::cipher::derive(b"k", b"h", b'C', b"s", 32), first);
    let mut again = b"kh".to_vec();
    again.extend_from_slice(&first);
    let second = Sha256::digest(&again).to_vec();
    assert_eq!(sftp::cipher::derive(b"k", b"h", b'C', b"s", 40)[32..], second[..8]);
    assert_eq!(sftp::cipher::derive(b"k", b"h", b'C', b"s", 0), Vec::<u8>::new());
}

#[test]
fn a_sealed_packet_opens_only_under_its_own_sequence_number() {
    let (key, iv, mac) = ([7u8; 32], [3u8; 16], vec![9u8; 32]);
    let mut sealer = Cipher::Suite(AesCtrHmac::new(&key, &iv, mac.clone()).expect("cipher"));
    let wire = sealer.seal(5, b"a payload of some length").expect("seal");
    // A fresh opener with the same key opens the same stream position.
    let mut opener = AesCtrHmac::new(&key, &iv, mac.clone()).expect("cipher");
    let tag_ok = {
        let mut check = Hmac::<Sha256>::new_from_slice(&[9u8; 32]).expect("mac");
        check.update(&5u32.to_be_bytes());
        let mut decrypted = wire[..wire.len() - 32].to_vec();
        let mut plain = Ctr128BE::<Aes256>::new(&key.into(), &iv.into());
        plain.apply_keystream(&mut decrypted);
        check.update(&decrypted);
        check.verify_slice(&wire[wire.len() - 32..]).is_ok()
    };
    assert!(tag_ok, "the code covers the sequence number and the packet");
    let mut line = wire.clone();
    let opened = opener.open(5, &mut line).expect("open").expect("whole");
    assert_eq!(opened, b"a payload of some length");
    assert!(line.is_empty());
    let mut other = AesCtrHmac::new(&key, &iv, mac).expect("cipher");
    let mut line = wire;
    assert_eq!(other.open(6, &mut line), Err(Error::MacMismatch));
}

#[test]
fn a_length_outside_the_bounds_is_refused() {
    assert!(check_length(4).is_err());
    assert!(check_length(MAX_PACKET + 1).is_err());
    assert!(check_length(64).is_ok());
}

#[test]
fn the_bounds_of_a_length_are_twelve_and_the_largest_packet() {
    assert_eq!(check_length(11), Err(Error::PacketLength(11)));
    assert_eq!(check_length(12), Ok(()));
    assert_eq!(check_length(MAX_PACKET), Ok(()));
    assert_eq!(check_length(MAX_PACKET + 1), Err(Error::PacketLength(MAX_PACKET + 1)));
}

#[test]
fn padding_is_at_least_four_bytes_and_fills_the_block() {
    assert_eq!(padding_length(0, 8), 11);
    assert_eq!(padding_length(5, 8), 6);
    assert_eq!(padding_length(7, 8), 4);
    assert_eq!(padding_length(8, 8), 11);
    assert_eq!(padding_length(7, 16), 4);
    assert_eq!(pad(b"ab", &[9, 9, 9, 9]), [0, 0, 0, 7, 4, b'a', b'b', 9, 9, 9, 9]);
}

#[test]
fn a_packet_without_its_padding_is_refused() {
    assert_eq!(unframe(&[]), Err(Error::NoPaddingLength));
    assert_eq!(unframe(&[3, 1, 2]), Err(Error::PaddingTooLong));
    assert_eq!(unframe(&[2, 1, 2]), Ok(Vec::new()));
}

#[test]
fn a_key_of_another_size_is_refused() {
    assert_eq!(AesCtrHmac::new(&[0; 31], &[0; 16], vec![]).err(), Some(Error::AesKeySize));
    assert_eq!(AesCtrHmac::new(&[0; 32], &[0; 15], vec![]).err(), Some(Error::AesKeySize));
}

#[test]
fn a_line_of_packets_opens_in_order_and_waits_for_a_cut_one() {
    let mut sealer = suite(b"k", b"h", b"s", true).expect("suite");
    let mut opener = suite(b"k", b"h", b"s", true).expect("suite");
    let mut wire = sealer.seal(0, b"first").expect("seal");
    wire.extend_from_slice(&sealer.seal(1, b"second").expect("seal"));
    let mut line = wire[..wire.len() - 1].to_vec();
    assert_eq!(opener.open(0, &mut line), Ok(Some(b"first".to_vec())));
    assert_eq!(opener.open(1, &mut line), Ok(None));
    line.push(wire[wire.len() - 1]);
    assert_eq!(opener.open(1, &mut line), Ok(Some(b"second".to_vec())));
    let mut other = suite(b"k", b"h", b"s", false).expect("suite");
    let mut line = wire;
    assert!(other.open(0, &mut line).is_err(), "the directions have keys of their own");
}

#[test]
fn a_packet_with_any_bit_behind_its_length_changed_is_refused() {
    let wire = suite(b"k", b"h", b"s", true).expect("suite").seal(3, b"a payload").expect("seal");
    for at in 4..wire.len() {
        for bit in 0..8 {
            let mut line = wire.clone();
            line[at] ^= 1 << bit;
            line.push(9);
            let mut opener = suite(b"k", b"h", b"s", true).expect("suite");
            assert_eq!(opener.open(3, &mut line), Err(Error::MacMismatch), "byte {at}, bit {bit}");
            assert_eq!(line, [9], "the packet is off the line");
        }
    }
}

#[test]
fn packets_open_in_turn_and_each_takes_its_own_bytes() {
    let mut sealer = suite(b"k", b"h", b"s", true).expect("suite");
    let mut opener = suite(b"k", b"h", b"s", true).expect("suite");
    let payloads: Vec<Vec<u8>> = (0..20usize).map(|i| vec![i as u8; i * 7]).collect();
    let first = u32::MAX - 9;
    let mut line = Vec::new();
    let mut sizes = Vec::new();
    for (i, payload) in payloads.iter().enumerate() {
        let wire = sealer.seal(first.wrapping_add(i as u32), payload).expect("seal");
        sizes.push(wire.len());
        line.extend_from_slice(&wire);
    }
    line.extend_from_slice(b"rest");
    for (i, payload) in payloads.iter().enumerate() {
        let before = line.len();
        let opened = opener.open(first.wrapping_add(i as u32), &mut line).expect("open");
        assert_eq!(opened.as_ref(), Some(payload));
        assert_eq!(before - line.len(), sizes[i]);
    }
    assert_eq!(line, b"rest");
}

#[test]
fn the_largest_payload_is_carried_and_no_larger_one() {
    for keyed in [true, false] {
        let cipher = || if keyed { suite(b"k", b"h", b"s", true).expect("suite") } else { plain() };
        let payload = vec![7u8; MAX_PAYLOAD];
        let mut line = cipher().seal(0, &payload).expect("seal");
        assert_eq!(cipher().open(0, &mut line), Ok(Some(payload)));
        let mut line = cipher().seal(0, &vec![7u8; MAX_PAYLOAD + 1]).expect("seal");
        assert!(matches!(cipher().open(0, &mut line), Err(Error::PacketLength(_))));
    }
}

#[test]
fn the_clear_framing_carries_a_payload_and_refuses_a_bad_length() {
    let mut sealer = plain();
    let mut line = sealer.seal(0, b"in the clear").expect("seal");
    assert_eq!(line.len() % 8, 0);
    assert_eq!(plain().open(0, &mut line), Ok(Some(b"in the clear".to_vec())));
    let mut bad = vec![0, 0, 0, 1, 0];
    assert_eq!(plain().open(0, &mut bad), Err(Error::PacketLength(1)));
}
