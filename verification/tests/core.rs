use chacha20poly1305::aead::{AeadInPlace, KeyInit};
use hybridcrypt::body::ReadOutcome;
use hybridcrypt::container::{
    derivation_info, derive_session_key, recipient_binding, seal_header, start_container,
};
use hybridcrypt::error::CryptoError;
use hybridcrypt::fingerprint::{digest_fingerprint, pubkey_fingerprint};
use hybridcrypt::header::{check_header, header_bytes, take_header, ContainerHeader};
use hybridcrypt::keyfile::{
    derive_kek, generate_judged, generate_keypair, new_keypair, open_private_blob, parse_payload,
    parse_public_blob, public_blob, seal_private_blob, MAGIC_KEY, MAGIC_PUB,
};
use hybridcrypt::passphrase::{
    check_passphrase_strength, judge_strength, normalize_passphrase, MIN_GUESSES,
};
use hybridcrypt::secure::SecureBuf;
use hybridcrypt::strength::{
    crowded, estimate, estimate_groups, estimate_parts, joint_guesses, least, parts_to_estimate,
    score_of, weakest,
};
use hybridcrypt::stream::{decrypt_stream, encrypt_stream, DecryptStep, Decryptor};
use ml_kem::{EncodedSizeUser, KemCore};

const GOOD: &str = "anker wolke tiger lampe fluss berg";

fn secret(text: &str) -> SecureBuf {
    SecureBuf::from_slice(text.as_bytes())
}

/// What Argon2id makes of the passphrase `p` and a salt of threes with the costs of a new file.
const KEK: [u8; 32] = [
    80, 231, 118, 189, 63, 189, 40, 131, 147, 40, 170, 65, 62, 64, 91, 107, 63, 132, 156, 4, 110,
    198, 214, 161, 176, 146, 38, 221, 74, 41, 94, 30,
];

/// A private key file with these costs, this salt and this key, with whatever content.
fn key_file(costs: (u32, u32, u32), salt: u8, kek: &[u8; 32], content: &[u8]) -> Vec<u8> {
    let mut file = b"HSK2".to_vec();
    file.extend_from_slice(&costs.0.to_le_bytes());
    file.extend_from_slice(&costs.1.to_le_bytes());
    file.extend_from_slice(&costs.2.to_le_bytes());
    file.extend_from_slice(&[salt; 16]);
    file.extend_from_slice(&[9; 12]);
    let cipher = chacha20poly1305::ChaCha20Poly1305::new(chacha20poly1305::Key::from_slice(kek));
    let mut body = content.to_vec();
    let nonce = [9u8; 12];
    let tag = cipher
        .encrypt_in_place_detached(chacha20poly1305::Nonce::from_slice(&nonce), &file, &mut body)
        .unwrap();
    file.extend_from_slice(&body);
    file.extend_from_slice(&tag);
    file
}

/// A private key file under cheap parameters, with whatever content.
fn cheap_key_file(passphrase: &str, content: &[u8]) -> Vec<u8> {
    let mut kek = [0u8; 32];
    let r = derive_kek(passphrase.as_bytes(), &[7; 16], 32, 1, 1, &mut kek);
    assert_eq!(r, Ok(()));
    key_file((32, 1, 1), 7, &kek, content)
}

fn payload(dk: &[u8], sk: &[u8]) -> Vec<u8> {
    let mut v = (dk.len() as u32).to_le_bytes().to_vec();
    v.extend_from_slice(dk);
    v.extend_from_slice(&(sk.len() as u32).to_le_bytes());
    v.extend_from_slice(sk);
    v
}

fn keys_of(file: &[u8], passphrase: &str) -> Result<(Vec<u8>, Vec<u8>), CryptoError> {
    match open_private_blob(file, &secret(passphrase)) {
        Ok((a, b)) => Ok((a.as_slice().to_vec(), b.as_slice().to_vec())),
        Err(e) => Err(e),
    }
}

// -- passphrases

#[test]
fn passphrases_are_normalized() {
    let composed = normalize_passphrase(&secret("caf\u{e9} \u{fb01}n")).ok().unwrap();
    let decomposed = normalize_passphrase(&secret("cafe\u{301} fin")).ok().unwrap();
    assert_eq!(composed.as_slice(), "caf\u{e9} fin".as_bytes());
    assert_eq!(decomposed.as_slice(), composed.as_slice());
    assert_eq!(
        normalize_passphrase(&SecureBuf::from_slice(&[0xff, 0xfe])).err(),
        Some(CryptoError::Internal)
    );
}

#[test]
fn weak_passphrases_are_refused() {
    for weak in ["", "kurz", "elf zeichen", "Summer2026!!", "Tr0ub4dor&3", "aaaaaaaaaaaaaaaa"] {
        assert_eq!(check_passphrase_strength(&secret(weak)), Err(CryptoError::WeakPassphrase));
    }
    let no_text = SecureBuf::from_slice(&[0xff; 40]);
    assert_eq!(check_passphrase_strength(&no_text), Err(CryptoError::WeakPassphrase));
    assert_eq!(check_passphrase_strength(&secret(GOOD)), Ok(()));
}

#[test]
fn crowded_texts_are_cut_in_pieces() {
    let chars = |t: &str| -> Vec<char> { t.chars().collect() };
    for free in [
        GOOD,
        "aB3$kL9!xQ2#mN7&........................",
        "is it on as at we to by do no go up of he an so my",
        "correct horse battery staple mountain window garden",
        "qpzmwlxkvnbgytrhdjfcqzsxwvplkmbn",
        "la la la la la la la la la",
        "iiiiiiiiiiiii",
        "Gr\u{fc}\u{df}e\u{e4}\u{f6}\u{fc}Gr\u{fc}\u{df}e\u{e4}\u{f6}\u{fc}x\u{e9}y\u{e9}z\u{e9}w\u{e9}v",
    ] {
        assert!(!crowded(&chars(free)));
        assert_eq!(parts_to_estimate(free), vec![vec![free.to_string()]]);
    }
    for full in [
        "iiiiiiiiiiiiii",
        "1!|iI1!|iI1!|i",
        "isitonasatwetobydonogoupofhe",
        "123456789012345678901234567890",
        "4f9c2d7e8a1b3c5d6e7f8091a2b3c4d5e6f7a8b9c0d1e2f3",
        "qpzmwlxkvnbgytr \u{130}",
    ] {
        assert!(crowded(&chars(full)));
    }
    assert!(crowded(&chars(&"qw".repeat(15))));
    assert!(crowded(&chars(&"12".repeat(20))));
    let long = "word ".repeat(40);
    assert_eq!(parts_to_estimate(&long), vec![vec![long.clone()]]);
    let ways = parts_to_estimate("isitonasatwetobydonogoupofheansomy");
    assert_eq!(ways.len(), 23);
    assert_eq!(ways[0], ["isitonasatwetobydonogoupofh", "eansomy"]);
    assert_eq!(ways[1], ["isitonasatwetobydonogoupof", "heansomy"]);
    assert_eq!(ways[22], ["isito", "nasatwetobydonogoupofheansom", "y"]);
    let ways = parts_to_estimate(&"i".repeat(16));
    assert_eq!(ways.len(), 14);
    assert_eq!(ways[0], ["iiiiiiiiiiiii", "iii"]);
    assert_eq!(ways[12], ["i", "iiiiiiiiiiiii", "ii"]);
    assert_eq!(ways[13], ["i"]);
    let ways = parts_to_estimate(&"uncharacteristically".repeat(3));
    assert_eq!(ways.len(), 24);
    assert_eq!(ways[23], ["uncharacteristically"]);
}

#[test]
fn guesses_for_pieces_multiply_and_the_fewest_count() {
    assert_eq!(joint_guesses(&vec![]), 1);
    assert_eq!(joint_guesses(&vec![6, 7, 5]), 210);
    assert_eq!(joint_guesses(&vec![u64::MAX, 1]), u64::MAX);
    assert_eq!(joint_guesses(&vec![1 << 32, 1 << 31]), 1 << 63);
    assert_eq!(joint_guesses(&vec![1 << 32, 1 << 32]), u64::MAX);
    assert_eq!(joint_guesses(&vec![1 << 32, 1 << 32, 0]), 0);
    assert_eq!(least(&vec![9, 4, 7, 4]), 4);
    assert_eq!(weakest(&vec![vec![9]]), (0, 9));
    let ways = vec![vec![1_000, 1_000_000], vec![2_000, 400_000], vec![900_000_000]];
    assert_eq!(weakest(&ways), (3, 800_000_000));
    assert_eq!(weakest(&vec![vec![1 << 40, 1 << 40]]), (4, u64::MAX));
    for (guesses, score) in [
        (0, 0),
        (1_004, 0),
        (1_005, 1),
        (1_000_004, 1),
        (1_000_005, 2),
        (100_000_004, 2),
        (100_000_005, 3),
        (10_000_000_004, 3),
        (10_000_000_005, 4),
    ] {
        assert_eq!(score_of(guesses), score);
    }
}

#[test]
fn parts_are_estimated_one_by_one() {
    let parts = vec!["".to_string(), "qpzmwlxkvnbgytrhdjfc".to_string(), "password".to_string()];
    let guesses = estimate_parts(&parts);
    assert_eq!(guesses.len(), 3);
    assert_eq!(guesses[0], 0);
    assert_eq!(score_of(guesses[1]), 4);
    assert_eq!(score_of(guesses[2]), 0);
    assert_eq!(estimate_groups(&vec![parts.clone(), vec![]]), vec![guesses, vec![]]);
    assert_eq!(estimate(""), (0, 0));
    assert_eq!(estimate("password"), (0, estimate_parts(&vec!["password".to_string()])[0]));
}

#[test]
fn crowded_texts_of_strong_pieces_are_strong() {
    let text = "aB3$kL9!xQ2#mN7&........................";
    assert_eq!(check_passphrase_strength(&secret(text)), Ok(()));
    let words = "internationalgovernmentchampionshipuniversityparliamentarycelebration";
    assert_eq!(check_passphrase_strength(&secret(words)), Ok(()));
}

#[test]
fn crowded_texts_of_few_words_are_weak() {
    let repeated = "uncharacteristically".repeat(3);
    assert_eq!(check_passphrase_strength(&secret(&repeated)), Err(CryptoError::WeakPassphrase));
    let two = "internationalizationuncharacteristically12";
    assert_eq!(check_passphrase_strength(&secret(two)), Err(CryptoError::WeakPassphrase));
}

#[test]
fn keyboard_walks_do_not_overflow_the_estimate() {
    for weak in ["12".repeat(30), "1q".repeat(40), "Qw".repeat(50), "i".repeat(60)] {
        assert_eq!(check_passphrase_strength(&secret(&weak)), Err(CryptoError::WeakPassphrase));
    }
}

#[test]
fn long_random_texts_are_strong() {
    let text = "qpzmwlxkvnbgytrhdjfcqzsxwvplkmbn";
    assert_eq!(check_passphrase_strength(&secret(text)), Ok(()));
}

#[test]
fn judged_passphrases_decide_on_the_key_pair() {
    let mut public = Vec::new();
    let mut private = Vec::new();
    let mut judged = |text: &[u8], score: u8, guesses: u64| {
        let p = SecureBuf::from_slice(text);
        generate_judged(&p, score, guesses, &mut public, &mut private)
    };
    let weak = Err(CryptoError::WeakPassphrase);
    assert_eq!(judged(GOOD.as_bytes(), 3, u64::MAX), weak);
    assert_eq!(judged(GOOD.as_bytes(), 4, MIN_GUESSES - 1), weak);
    assert_eq!(judged(b"too short", 4, u64::MAX), weak);
    assert_eq!(judged(&[0xff; 40], 4, u64::MAX), weak);
    assert!(public.is_empty() && private.is_empty());
}

#[test]
fn strength_needs_length_score_and_guesses() {
    assert_eq!(MIN_GUESSES, 1_000_000_000_000);
    assert_eq!(judge_strength(12, 4, MIN_GUESSES), Ok(()));
    assert_eq!(judge_strength(11, 4, u64::MAX), Err(CryptoError::WeakPassphrase));
    assert_eq!(judge_strength(40, 3, u64::MAX), Err(CryptoError::WeakPassphrase));
    assert_eq!(judge_strength(40, 4, MIN_GUESSES - 1), Err(CryptoError::WeakPassphrase));
}

#[test]
fn weak_passphrase_makes_no_key_pair() {
    let mut public = vec![1];
    let mut private = vec![2];
    let r = generate_keypair(&secret("passwort1234"), &mut public, &mut private);
    assert_eq!(r, Err(CryptoError::WeakPassphrase));
    assert_eq!((public, private), (vec![1], vec![2]));
}

#[test]
fn bytes_that_are_no_text_make_no_key_pair() {
    let mut public = vec![1];
    let mut private = vec![2];
    let no_text = SecureBuf::from_slice(&[0xff; 40]);
    assert_eq!(
        new_keypair(&no_text, &mut public, &mut private),
        Err(CryptoError::Internal)
    );
    assert_eq!(
        generate_keypair(&no_text, &mut public, &mut private),
        Err(CryptoError::WeakPassphrase)
    );
    assert_eq!((public, private), (vec![1], vec![2]));
}

// -- key files

#[test]
fn public_file_has_its_exact_bytes() {
    let blob = public_blob(&[1, 2], &[3]);
    assert_eq!(blob, b"HPB2\x02\x00\x00\x00\x01\x02\x01\x00\x00\x00\x03".to_vec());
    assert_eq!(parse_public_blob(&blob), Ok((&[1u8, 2][..], &[3u8][..])));
    assert_eq!(&blob[..4], &MAGIC_PUB);
}

#[test]
fn damaged_public_files_are_refused() {
    let blob = public_blob(&[1, 2], &[3]);
    for cut in 0..blob.len() {
        assert_eq!(parse_public_blob(&blob[..cut]), Err(CryptoError::BadKeyFile));
    }
    let mut long = blob.clone();
    long.push(0);
    assert_eq!(parse_public_blob(&long), Err(CryptoError::BadKeyFile));
    let mut other = blob.clone();
    other[3] = b'1';
    assert_eq!(parse_public_blob(&other), Err(CryptoError::BadKeyFile));
}

#[test]
fn private_content_is_read() {
    let (dk, sk) = parse_payload(&payload(&[1, 2, 3], &[4])).ok().unwrap();
    assert_eq!((dk.as_slice(), sk.as_slice()), (&[1u8, 2, 3][..], &[4u8][..]));
    let mut longer = payload(&[1, 2, 3], &[4]);
    longer.push(9);
    assert!(parse_payload(&longer).is_ok());
    assert_eq!(parse_payload(&longer[..11]).err(), Some(CryptoError::BadKeyFile));
    assert_eq!(parse_payload(&[]).err(), Some(CryptoError::BadKeyFile));
}

#[test]
fn argon2_has_its_exact_output() {
    let mut out = [0u8; 32];
    let r = derive_kek(b"password", b"somesalt", 65536, 2, 1, &mut out);
    assert_eq!(r, Ok(()));
    let expected: [u8; 32] = [
        0x09, 0x31, 0x61, 0x15, 0xd5, 0xcf, 0x24, 0xed, 0x5a, 0x15, 0xa3, 0x1a, 0x3b, 0xa3, 0x26,
        0xe5, 0xcf, 0x32, 0xed, 0xc2, 0x47, 0x02, 0x98, 0x7c, 0x02, 0xb6, 0x56, 0x6f, 0x61, 0x91,
        0x3c, 0xf7,
    ];
    assert_eq!(out, expected);
}

#[test]
fn unusable_argon2_inputs_are_told_apart() {
    let mut out = [0u8; 32];
    assert_eq!(derive_kek(b"p", &[0; 16], 7, 1, 1, &mut out), Err(CryptoError::BadKeyFile));
    assert_eq!(derive_kek(b"p", &[0; 16], 31, 1, 4, &mut out), Err(CryptoError::BadKeyFile));
    assert_eq!(derive_kek(b"p", &[0; 16], 32, 0, 4, &mut out), Err(CryptoError::BadKeyFile));
    assert_eq!(derive_kek(b"p", &[0; 16], 32, 1, 0, &mut out), Err(CryptoError::BadKeyFile));
    assert_eq!(derive_kek(b"p", &[0; 7], 32, 1, 1, &mut out), Err(CryptoError::Internal));
    assert_eq!(derive_kek(b"p", &[0; 8], 32, 1, 1, &mut out), Ok(()));
    assert_ne!(out, [0u8; 32]);
}

#[test]
fn excessive_costs_are_refused_without_argon2() {
    let cases = [
        (1048577, 4, 1),
        (u32::MAX, 4, 1),
        (131072, 11, 1),
        (131072, u32::MAX, 1),
        (131072, 4, 5),
        (131072, 4, u32::MAX),
    ];
    for (m, t, p) in cases {
        let mut file = b"HSK2".to_vec();
        file.extend_from_slice(&u32::to_le_bytes(m));
        file.extend_from_slice(&u32::to_le_bytes(t));
        file.extend_from_slice(&u32::to_le_bytes(p));
        file.extend_from_slice(&[0; 200]);
        assert_eq!(keys_of(&file, GOOD), Err(CryptoError::BadKeyFile));
    }
}

#[test]
fn short_or_foreign_private_files_are_refused() {
    assert_eq!(keys_of(&[], GOOD), Err(CryptoError::BadKeyFile));
    assert_eq!(keys_of(b"HSK2", GOOD), Err(CryptoError::BadKeyFile));
    let mut file = MAGIC_KEY.to_vec();
    file.extend_from_slice(&[0; 55]);
    assert_eq!(file.len(), 59);
    assert_eq!(keys_of(&file, GOOD), Err(CryptoError::BadKeyFile));
    let mut file = b"HSK1".to_vec();
    file.extend_from_slice(&[0; 100]);
    assert_eq!(keys_of(&file, GOOD), Err(CryptoError::BadKeyFile));
}

#[test]
fn errors_of_a_private_file_have_their_order() {
    let no_text = SecureBuf::from_slice(&[0xff]);
    let mut zero_costs = MAGIC_KEY.to_vec();
    zero_costs.extend_from_slice(&[0; 60]);
    assert_eq!(open_private_blob(&zero_costs, &no_text).err(), Some(CryptoError::Internal));
    assert_eq!(keys_of(&zero_costs, "x"), Err(CryptoError::BadKeyFile));
}

#[test]
fn private_files_open_with_their_passphrase() {
    let file = cheap_key_file("p\u{e9}", &payload(&[1, 2, 3], &[4, 5]));
    assert_eq!(keys_of(&file, "p\u{e9}"), Ok((vec![1, 2, 3], vec![4, 5])));
    assert_eq!(keys_of(&file, "pe\u{301}"), Ok((vec![1, 2, 3], vec![4, 5])));
    assert_eq!(keys_of(&file, "pe"), Err(CryptoError::BadPassphrase));
    for at in [5, 20, 35, 44, 50, file.len() - 1] {
        let mut bad = file.clone();
        bad[at] ^= 1;
        let e = keys_of(&bad, "p\u{e9}").err();
        assert!(e == Some(CryptoError::BadPassphrase) || e == Some(CryptoError::BadKeyFile));
    }
    let broken = cheap_key_file("p", &[1, 0, 0]);
    assert_eq!(keys_of(&broken, "p"), Err(CryptoError::BadKeyFile));
}

#[test]
fn sealed_private_file_has_its_parts() {
    let dk = SecureBuf::from_slice(&[1; 3168]);
    let sk = SecureBuf::from_slice(&[2; 48]);
    let mut file = Vec::new();
    let r = seal_private_blob(&secret("p"), &[3; 16], &[9; 12], &dk, &sk, &mut file);
    assert_eq!(r, Ok(()));
    assert_eq!(file.len(), 44 + 4 + 3168 + 4 + 48 + 16);
    assert_eq!(&file[..16], b"HSK2\x00\x00\x02\x00\x04\x00\x00\x00\x01\x00\x00\x00");
    assert_eq!(file, key_file((131072, 4, 1), 3, &KEK, &payload(&[1; 3168], &[2; 48])));
}

#[test]
fn private_file_with_own_costs_opens() {
    let file = key_file((131072, 4, 1), 3, &KEK, &payload(&[1; 3168], &[2; 48]));
    assert_eq!(keys_of(&file, "p"), Ok((vec![1; 3168], vec![2; 48])));
}

#[test]
fn new_key_pair_can_be_encrypted_for() {
    let mut public = vec![1];
    let mut private = vec![2];
    assert_eq!(generate_keypair(&secret(GOOD), &mut public, &mut private), Ok(()));
    assert_eq!((public[0], private[0]), (1, 2));
    let (public, private) = (&public[1..], &private[1..]);
    assert_eq!(public.len(), 4 + 4 + 1568 + 4 + 97);
    assert_eq!(private.len(), 3284);
    assert_eq!(&private[..16], b"HSK2\x00\x00\x02\x00\x04\x00\x00\x00\x01\x00\x00\x00");
    let (ek, pk) = parse_public_blob(public).ok().unwrap();
    assert_eq!((ek.len(), pk.len(), pk[0]), (1568, 97, 4));
    let mut container = Vec::new();
    assert_eq!(encrypt_stream(public, b"x", &mut container), Ok(()));
    assert_eq!(container.len(), 1689 + 21);
}

// -- fingerprints

#[test]
fn fingerprint_has_its_exact_form() {
    let digest: Vec<u8> = (0..32).collect();
    assert_eq!(digest_fingerprint(&digest), "AAA QEA YEA UDA OCAJ");
    assert_eq!(digest_fingerprint(&[0xff; 32]), "777 777 777 777 7777");
    assert_eq!(pubkey_fingerprint(b""), "4OY MIQ UY7 QOB JGX3");
    assert_eq!(pubkey_fingerprint(b"hybridcrypt"), "FYM 3YM LZH URG GPOY");
}

#[test]
fn fingerprint_depends_on_ten_bytes() {
    let mut digest = [5u8; 32];
    let before = digest_fingerprint(&digest);
    digest[10] = 6;
    assert_eq!(digest_fingerprint(&digest), before);
    digest[9] = 4;
    assert_ne!(digest_fingerprint(&digest), before);
}

// -- containers

#[test]
fn session_key_has_its_exact_value() {
    let key = derive_session_key(
        &SecureBuf::from_slice(&[1; 32]),
        &SecureBuf::from_slice(&[2; 48]),
        b"header",
        &[3; 32],
    )
    .ok()
    .unwrap();
    let expected: Vec<u8> = vec![
        80, 215, 218, 98, 154, 24, 67, 0, 243, 80, 43, 180, 107, 226, 174, 174, 161, 86, 177, 83,
        135, 74, 98, 191, 237, 227, 38, 121, 86, 102, 171, 104,
    ];
    assert_eq!(key.as_slice(), &expected[..]);
    assert_eq!(derivation_info(b"H", b"B"), b"hybridcrypt-v3HB".to_vec());
    assert_ne!(derivation_info(b"H", &[1; 32]), derivation_info(b"H", &[2; 32]));
    assert_ne!(derivation_info(b"G", &[1; 32]), derivation_info(b"H", &[1; 32]));
}

#[test]
fn recipient_binding_has_its_exact_value() {
    let expected: Vec<u8> = vec![
        109, 3, 36, 168, 95, 113, 188, 109, 98, 137, 117, 218, 241, 182, 172, 102, 140, 48, 126,
        142, 181, 136, 202, 1, 95, 188, 25, 33, 225, 199, 185, 241,
    ];
    assert_eq!(recipient_binding(b"ek", b"pk"), expected);
}

#[test]
fn header_round_trip() {
    let raw = header_bytes(&[1, 2, 3], &[4, 5], &[6; 12]);
    let mut with_body = raw.clone();
    with_body.extend_from_slice(b"body");
    let mut cursor: &[u8] = &with_body;
    let h = take_header(&mut cursor).ok().unwrap();
    assert_eq!((h.kem_ct, h.eph_pk, h.base_nonce), (vec![1, 2, 3], vec![4, 5], vec![6; 12]));
    assert_eq!(cursor, b"body");
    for cut in 0..raw.len() {
        let mut cursor: &[u8] = &raw[..cut];
        assert_eq!(take_header(&mut cursor).err(), Some(CryptoError::BadContainer));
    }
}

#[test]
fn unusable_headers_are_refused() {
    let header = |ct: usize, pk: &[u8]| ContainerHeader {
        kem_ct: vec![0; ct],
        eph_pk: pk.to_vec(),
        base_nonce: vec![0; 12],
    };
    assert_eq!(check_header(&header(1567, &[4; 97])), Err(CryptoError::BadContainer));
    assert_eq!(check_header(&header(1568, &[4; 97])), Err(CryptoError::BadContainer));
    assert_eq!(check_header(&header(1568, &[0])), Err(CryptoError::BadContainer));
    let sk = p384::SecretKey::from_slice(&[1; 48]).ok().unwrap();
    let point = sk.public_key().to_sec1_bytes();
    assert_eq!(check_header(&header(1568, &point)), Ok(()));
}

#[test]
fn full_round_trip() {
    let dk = ml_kem_dk();
    let sk = [1u8; 48];
    let private = key_file((131072, 4, 1), 3, &KEK, &payload(&dk.0, &sk));
    let point = p384::SecretKey::from_slice(&sk).ok().unwrap().public_key().to_sec1_bytes();
    let public = public_blob(&dk.1, &point);
    let data: Vec<u8> = (0..65537u32).map(|i| (i % 251) as u8).collect();
    let mut container = b"prefix".to_vec();
    assert_eq!(encrypt_stream(&public, &data, &mut container), Ok(()));
    let container = &container[6..];
    assert_eq!(container.len(), 4 + 4 + 1568 + 4 + 97 + 12 + data.len() + 2 * 20);
    let mut plain = b"kept".to_vec();
    assert_eq!(decrypt_stream(&private, &secret("p"), container, &mut plain), Ok(()));
    assert_eq!(&plain[..4], b"kept");
    assert_eq!(&plain[4..], &data[..]);
}

#[test]
fn small_files_round_trip() {
    let dk = ml_kem_dk();
    let sk = [1u8; 48];
    let private = cheap_key_file("p", &payload(&dk.0, &sk));
    let point = p384::SecretKey::from_slice(&sk).ok().unwrap().public_key().to_sec1_bytes();
    let public = public_blob(&dk.1, &point);
    for data in [&b""[..], &b"x"[..], &b"0123456789"[..]] {
        let mut container = Vec::new();
        assert_eq!(encrypt_stream(&public, data, &mut container), Ok(()));
        assert_eq!(container.len(), 1689 + 20 + data.len());
        let mut plain = Vec::new();
        assert_eq!(decrypt_stream(&private, &secret("p"), &container, &mut plain), Ok(()));
        assert_eq!(plain, data.to_vec());
    }
}

#[test]
fn wrong_recipient_is_refused() {
    let point = p384::SecretKey::from_slice(&[1; 48]).ok().unwrap().public_key().to_sec1_bytes();
    let public = public_blob(&ml_kem_dk().1, &point);
    let private = cheap_key_file("p", &payload(&ml_kem_dk().0, &[2; 48]));
    let mut container = Vec::new();
    assert_eq!(encrypt_stream(&public, b"secret", &mut container), Ok(()));
    let mut plain = Vec::new();
    let r = decrypt_stream(&private, &secret("p"), &container, &mut plain);
    assert_eq!(r, Err(CryptoError::BadContainer));
    assert!(plain.is_empty());
}

#[test]
fn wrong_passphrase_is_refused() {
    let point = p384::SecretKey::from_slice(&[1; 48]).ok().unwrap().public_key().to_sec1_bytes();
    let dk = ml_kem_dk();
    let public = public_blob(&dk.1, &point);
    let private = cheap_key_file("p", &payload(&dk.0, &[1; 48]));
    let mut container = Vec::new();
    assert_eq!(encrypt_stream(&public, b"secret", &mut container), Ok(()));
    let mut plain = Vec::new();
    let r = decrypt_stream(&private, &secret("falsch"), &container, &mut plain);
    assert_eq!(r, Err(CryptoError::BadPassphrase));
    assert!(plain.is_empty());
}

#[test]
fn manipulated_headers_give_nothing_away() {
    let dk = ml_kem_dk();
    let sk = [1u8; 48];
    let private = cheap_key_file("p", &payload(&dk.0, &sk));
    let point = p384::SecretKey::from_slice(&sk).ok().unwrap().public_key().to_sec1_bytes();
    let public = public_blob(&dk.1, &point);
    let mut container = Vec::new();
    assert_eq!(encrypt_stream(&public, b"secret", &mut container), Ok(()));
    let mut plain = Vec::new();
    assert_eq!(decrypt_stream(&private, &secret("p"), &container, &mut plain), Ok(()));
    assert_eq!(plain, b"secret".to_vec());
    for at in [0, 3, 4, 5, 7, 8, 800, 1575, 1576, 1579, 1580, 1600, 1676, 1677, 1688] {
        let mut bad = container.clone();
        bad[at] ^= 1;
        let mut plain = Vec::new();
        let r = decrypt_stream(&private, &secret("p"), &bad, &mut plain);
        assert_eq!(r, Err(CryptoError::BadContainer));
        assert!(plain.is_empty());
    }
}

#[test]
fn containers_can_be_decrypted_piece_by_piece() {
    let dk = ml_kem_dk();
    let sk = [1u8; 48];
    let private = cheap_key_file("p", &payload(&dk.0, &sk));
    let point = p384::SecretKey::from_slice(&sk).ok().unwrap().public_key().to_sec1_bytes();
    let public = public_blob(&dk.1, &point);
    let data: Vec<u8> = (0..70000u32).map(|i| (i % 253) as u8).collect();
    let mut container = Vec::new();
    assert_eq!(encrypt_stream(&public, &data, &mut container), Ok(()));
    let mut d = Decryptor::new();
    let mut rest: &[u8] = &container;
    let mut plain = Vec::new();
    let mut unlocked_at = None;
    loop {
        match d.step() {
            DecryptStep::Read(n) => {
                assert!(!d.exhausted());
                d.advance(ReadOutcome::Interrupted, &[]);
                let n = n.min(1000).min(rest.len());
                d.advance(ReadOutcome::Bytes(n), &rest[..n]);
                rest = &rest[n..];
            }
            DecryptStep::Unlock => {
                unlocked_at = Some(container.len() - rest.len());
                d.unlock(&private, &secret("p"));
            }
            DecryptStep::Write => {
                plain.extend_from_slice(d.plain());
                d.written();
            }
            DecryptStep::Finished => break,
            DecryptStep::Failed(_) => panic!("failed"),
        }
    }
    assert_eq!(unlocked_at, Some(1689));
    assert_eq!(plain, data);
}

#[test]
fn unreadable_headers_and_short_ones_are_told_apart() {
    let mut d = Decryptor::new();
    d.advance(ReadOutcome::Failed, &[]);
    assert_eq!(d.step(), DecryptStep::Failed(CryptoError::Io));
    let mut d = Decryptor::new();
    d.advance(ReadOutcome::Bytes(4), b"HCX3");
    d.advance(ReadOutcome::Failed, &[]);
    assert_eq!(d.step(), DecryptStep::Failed(CryptoError::Io));
    let mut d = Decryptor::new();
    d.advance(ReadOutcome::Bytes(2), b"HC");
    assert_eq!(d.step(), DecryptStep::Read(2));
    d.advance(ReadOutcome::Bytes(0), &[]);
    assert_eq!(d.step(), DecryptStep::Failed(CryptoError::BadContainer));
}

#[test]
fn changed_and_cut_containers_give_whole_chunks() {
    let dk = ml_kem_dk();
    let sk = [1u8; 48];
    let private = cheap_key_file("p", &payload(&dk.0, &sk));
    let point = p384::SecretKey::from_slice(&sk).ok().unwrap().public_key().to_sec1_bytes();
    let public = public_blob(&dk.1, &point);
    let data: Vec<u8> = (0..140000u32).map(|i| (i % 253) as u8).collect();
    let mut container = Vec::new();
    assert_eq!(encrypt_stream(&public, &data, &mut container), Ok(()));
    let refused = |bad: &[u8], chunks: usize| {
        let mut plain = Vec::new();
        let r = decrypt_stream(&private, &secret("p"), bad, &mut plain);
        assert_eq!(r, Err(CryptoError::BadContainer));
        assert_eq!(plain, data[..chunks * 65536].to_vec());
    };
    let chunk = 65536 + 20;
    for (cut, chunks) in [
        (0, 0),
        (1688, 0),
        (1689, 0),
        (1689 + 3, 0),
        (1689 + chunk, 0),
        (1689 + chunk + 3, 0),
        (1689 + chunk + 4, 1),
        (1689 + 2 * chunk, 1),
        (container.len() - 1, 2),
    ] {
        refused(&container[..cut], chunks);
    }
    for (at, chunks) in [(1700, 0), (1689 + chunk + 50, 1), (container.len() - 1, 2)] {
        let mut bad = container.clone();
        bad[at] ^= 0x10;
        refused(&bad, chunks);
    }
    let mut longer = container.clone();
    longer.extend_from_slice(&[0; 20]);
    refused(&longer, 2);
}

/// A decapsulation key and the encapsulation key that belongs to it.
fn ml_kem_dk() -> (Vec<u8>, Vec<u8>) {
    let (dk, ek) = ml_kem::MlKem1024::generate(&mut rand::rngs::OsRng);
    (dk.as_bytes().to_vec(), ek.as_bytes().to_vec())
}

#[test]
fn bad_containers_are_refused_before_the_key_file() {
    let mut plain = Vec::new();
    let r = decrypt_stream(b"no key file", &secret("p"), b"no container", &mut plain);
    assert_eq!(r, Err(CryptoError::BadContainer));
    let short = header_bytes(&[0; 10], &[4; 97], &[0; 12]);
    let r = decrypt_stream(b"no key file", &secret("p"), &short, &mut plain);
    assert_eq!(r, Err(CryptoError::BadContainer));
    let point = p384::SecretKey::from_slice(&[1; 48]).ok().unwrap().public_key().to_sec1_bytes();
    let header = header_bytes(&[0; 1568], &point, &[0; 12]);
    let r = decrypt_stream(b"no key file", &secret("p"), &header, &mut plain);
    assert_eq!(r, Err(CryptoError::BadKeyFile));
    assert!(plain.is_empty());
}

#[test]
fn unusable_private_keys_are_refused() {
    let point = p384::SecretKey::from_slice(&[1; 48]).ok().unwrap().public_key().to_sec1_bytes();
    let header = header_bytes(&[0; 1568], &point, &[0; 12]);
    let mut plain = Vec::new();
    let short = cheap_key_file("p", &payload(&[1; 3167], &[1; 48]));
    let r = decrypt_stream(&short, &secret("p"), &header, &mut plain);
    assert_eq!(r, Err(CryptoError::BadKeyFile));
    let zero = cheap_key_file("p", &payload(&ml_kem_dk().0, &[0; 48]));
    let r = decrypt_stream(&zero, &secret("p"), &header, &mut plain);
    assert_eq!(r, Err(CryptoError::BadKeyFile));
    assert!(plain.is_empty());
}

#[test]
fn unusable_public_files_are_refused() {
    let point = p384::SecretKey::from_slice(&[1; 48]).ok().unwrap().public_key().to_sec1_bytes();
    let mut compressed = vec![2 + (point[96] & 1)];
    compressed.extend_from_slice(&point[1..49]);
    assert!(p384::PublicKey::from_sec1_bytes(&compressed).is_ok());
    let mut out = Vec::new();
    for blob in [
        b"HPB2".to_vec(),
        public_blob(&[0; 1567], &point),
        public_blob(&[0; 1568], &[4; 97]),
        public_blob(&[0; 1568], &[]),
        public_blob(&[0; 1568], &compressed),
    ] {
        assert_eq!(encrypt_stream(&blob, b"x", &mut out), Err(CryptoError::BadKeyFile));
        assert_eq!(start_container(&blob, &mut out).err(), Some(CryptoError::BadKeyFile));
    }
    assert!(out.is_empty());
}

#[test]
fn every_container_is_made_with_fresh_values() {
    let dk = ml_kem_dk();
    let point = p384::SecretKey::from_slice(&[1; 48]).ok().unwrap().public_key().to_sec1_bytes();
    let public = public_blob(&dk.1, &point);
    let mut seen = std::collections::HashSet::new();
    for _ in 0..20 {
        let mut container = Vec::new();
        assert_eq!(encrypt_stream(&public, b"same", &mut container), Ok(()));
        let mut cursor: &[u8] = &container;
        let h = take_header(&mut cursor).ok().unwrap();
        assert!(seen.insert(h.kem_ct));
        assert!(seen.insert(h.eph_pk));
        assert!(seen.insert(h.base_nonce));
        assert!(seen.insert(cursor.to_vec()));
    }
}

#[test]
fn sealed_header_names_the_ephemeral_point() {
    let sk = [1u8; 48];
    let point = p384::SecretKey::from_slice(&sk).ok().unwrap().public_key().to_sec1_bytes();
    let mut out = Vec::new();
    let r = seal_header(
        &[5; 1568],
        &point,
        &[6; 1568],
        &SecureBuf::from_slice(&[7; 32]),
        &SecureBuf::from_slice(&[2; 48]),
        &[8; 12],
        &mut out,
    );
    assert!(r.is_ok());
    let eph = p384::SecretKey::from_slice(&[2; 48]).ok().unwrap().public_key().to_sec1_bytes();
    assert_eq!(out, header_bytes(&[6; 1568], &eph, &[8; 12]));
}

#[test]
fn errors_have_their_exit_codes() {
    assert_eq!(CryptoError::Internal.exit_code(), 1);
    assert_eq!(CryptoError::BadPassphrase.exit_code(), 2);
    assert_eq!(CryptoError::BadKeyFile.exit_code(), 3);
    assert_eq!(CryptoError::BadContainer.exit_code(), 4);
    assert_eq!(CryptoError::Io.exit_code(), 5);
    assert_eq!(CryptoError::WeakPassphrase.exit_code(), 6);
}
