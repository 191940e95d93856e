//! Key files: the public `.hpub` and the private `.hkey`, which a passphrase protects.

use crate::error::CryptoError;
use crate::fresh::{
    draw_bytes, draw_kem_pair, draw_scalar, drawn_bytes, drawn_kem_pair, drawn_scalar,
};
use crate::passphrase::{
    estimate_passphrase, judge_strength, normalize_passphrase, normalized, strong_enough,
    MIN_PASSPHRASE_CHARS,
};
use crate::primitives::{
    aead_open, aead_seal, argon2_hash, argon2_input_ok, argon2_params, argon2_params_ok, argon2id,
    chacha_open, chacha_seal, ml_kem_public, nfkc, p384_point_valid, p384_public, p384_public_of,
    AEAD_MAX_LEN, KEM_DK_LEN, KEM_EK_LEN, KEY_LEN,
    NONCE_LEN, P384_POINT_LEN, P384_SCALAR_LEN, TAG_LEN,
};
use crate::secure::SecureBuf;
use crate::strength::is_estimate;
use crate::wire::{
    bytes_eq, from_le32, law_le32_round_trip, law_le32_weighs_bytes, law_prefix_is_the_length,
    law_prefixed_is_canonical, law_split_prefixed, le32, prefix_len, prefixed, push_all, push_le32,
    push_u32_prefixed, read_le32, split_prefixed, take_exact, take_u32_prefixed,
};
use vstd::prelude::*;
use vstd::string::*;
use vstd::utf8::{decode_utf8, encode_utf8, encode_utf8_decode_utf8, valid_utf8};

verus! {

/// The first bytes of a public key file: `HPB2`.
pub const MAGIC_PUB: [u8; 4] = [72, 80, 66, 50];

/// The first bytes of a private key file: `HSK2`.
pub const MAGIC_KEY: [u8; 4] = [72, 83, 75, 50];

/// The length of the salt in a private key file.
pub const SALT_LEN: usize = 16;

/// The length of what stands before the ciphertext in a private key file.
pub const KEY_HEADER_LEN: usize = 44;

/// The length of a public key file.
pub const PUBLIC_FILE_LEN: usize = 1677;

/// The length of a private key file.
pub const PRIVATE_FILE_LEN: usize = 3284;

/// The memory, in KiB, that a new key file asks of Argon2.
pub const ARGON_M_COST: u32 = 131072;

/// The passes that a new key file asks of Argon2.
pub const ARGON_T_COST: u32 = 4;

/// The lanes that a new key file asks of Argon2.
pub const ARGON_LANES: u32 = 1;

/// The most memory, in KiB, that a key file may ask for.
pub const ARGON_M_COST_MAX: u32 = 1048576;

/// The most passes that a key file may ask for.
pub const ARGON_T_COST_MAX: u32 = 10;

/// The most lanes that a key file may ask for.
pub const ARGON_LANES_MAX: u32 = 4;

// ---------------------------------------------------------------------------
// Public key file
// ---------------------------------------------------------------------------

/// A public key file with these two keys.
pub open spec fn encode_public(ek: Seq<u8>, pk: Seq<u8>) -> Seq<u8> {
    MAGIC_PUB@ + prefixed(ek) + prefixed(pk)
}

/// The two keys in a public key file. Nothing may follow them.
pub open spec fn decode_public(blob: Seq<u8>) -> Option<(Seq<u8>, Seq<u8>)> {
    if blob.len() < 4 || blob.take(4) != MAGIC_PUB@ {
        None
    } else {
        match split_prefixed(blob.skip(4)) {
            None => None,
            Some((ek, rest)) => match split_prefixed(rest) {
                None => None,
                Some((pk, rest)) => if rest.len() == 0 {
                    Some((ek, pk))
                } else {
                    None
                },
            },
        }
    }
}

/// The keys of a public key file that one can encrypt for: both are there and have their lengths,
/// which for the point is that of the uncompressed form, and the point is one of the curve.
pub open spec fn usable_public(blob: Seq<u8>) -> Option<(Seq<u8>, Seq<u8>)> {
    match decode_public(blob) {
        Some((ek, pk)) => if ek.len() == KEM_EK_LEN && pk.len() == P384_POINT_LEN
            && p384_point_valid(pk) {
            Some((ek, pk))
        } else {
            None
        },
        None => None,
    }
}

/// Reading a public key file that was written gives the two keys.
pub proof fn law_public_round_trip(ek: Seq<u8>, pk: Seq<u8>)
    requires
        ek.len() <= u32::MAX,
        pk.len() <= u32::MAX,
    ensures
        decode_public(encode_public(ek, pk)) == Some((ek, pk)),
{
    let blob = encode_public(ek, pk);
    assert(blob.take(4) =~= MAGIC_PUB@);
    assert(blob.skip(4) =~= prefixed(ek) + prefixed(pk));
    law_split_prefixed(ek, prefixed(pk));
    law_split_prefixed(pk, Seq::empty());
    assert(prefixed(pk) + Seq::<u8>::empty() =~= prefixed(pk));
}

/// A public key file that can be read is what writing its keys gives: no two files hold the
/// same keys, and a fingerprint over the file is one over the keys.
pub proof fn law_public_is_canonical(blob: Seq<u8>)
    ensures
        decode_public(blob) matches Some((ek, pk)) ==> encode_public(ek, pk) == blob,
{
    if let Some((ek, pk)) = decode_public(blob) {
        law_prefixed_is_canonical(blob.skip(4));
        let rest = (split_prefixed(blob.skip(4))->0).1;
        law_prefixed_is_canonical(rest);
        let end = (split_prefixed(rest)->0).1;
        assert(prefixed(pk) + end =~= prefixed(pk));
        assert(blob =~= blob.take(4) + blob.skip(4));
        assert(encode_public(ek, pk) =~= MAGIC_PUB@ + (prefixed(ek) + prefixed(pk)));
    }
}

/// Bytes behind the two keys make a public key file unreadable.
pub proof fn law_trailing_bytes_are_refused(blob: Seq<u8>, extra: Seq<u8>)
    requires
        decode_public(blob) is Some,
        extra.len() > 0,
    ensures
        decode_public(blob + extra) is None,
{
    if decode_public(blob + extra) is Some {
        let (ek, pk) = decode_public(blob)->0;
        let long = blob + extra;
        assert(long.take(4) =~= blob.take(4));
        assert(long.skip(4) =~= blob.skip(4) + extra);
        law_public_is_canonical(blob);
        assert(split_prefixed(blob.skip(4)) is Some);
        let (a, rest) = split_prefixed(blob.skip(4))->0;
        law_prefixed_is_canonical(blob.skip(4));
        law_prefixed_is_canonical(rest);
        assert(a.len() <= u32::MAX && pk.len() <= u32::MAX);
        assert(long.skip(4) =~= prefixed(a) + (rest + extra));
        law_split_prefixed(a, rest + extra);
        assert(rest + extra =~= prefixed(pk) + extra);
        law_split_prefixed(pk, extra);
    }
}

/// A public key file is `HPB2`, the length and the bytes of the encapsulation key, and the length
/// and the bytes of the point, in this order and with nothing else.
pub proof fn law_public_file_layout(ek: Seq<u8>, pk: Seq<u8>)
    requires
        ek.len() <= u32::MAX,
        pk.len() <= u32::MAX,
    ensures
        ({
            let b = encode_public(ek, pk);
            let k = ek.len() as int;
            let p = pk.len() as int;
            &&& b.len() == 12 + k + p
            &&& b.take(4) == seq![72u8, 80u8, 66u8, 50u8]
            &&& b[4] + 256 * b[5] + 65536 * b[6] + 16777216 * b[7] == k
            &&& b.subrange(8, 8 + k) == ek
            &&& b[8 + k] + 256 * b[9 + k] + 65536 * b[10 + k] + 16777216 * b[11 + k] == p
            &&& b.skip(12 + k) == pk
        }),
{
    let b = encode_public(ek, pk);
    let k = ek.len() as int;
    law_prefix_is_the_length(ek);
    law_prefix_is_the_length(pk);
    let x = prefixed(ek);
    let y = prefixed(pk);
    assert(b.take(4) =~= seq![72u8, 80u8, 66u8, 50u8]);
    assert(b[4] == x[0] && b[5] == x[1] && b[6] == x[2] && b[7] == x[3]);
    assert(b.subrange(8, 8 + k) =~= x.skip(4));
    assert(b[8 + k] == y[0] && b[9 + k] == y[1] && b[10 + k] == y[2] && b[11 + k] == y[3]);
    assert(b.skip(12 + k) =~= y.skip(4));
}

/// One can encrypt for a public key file exactly where it holds an encapsulation key of 1568 bytes
/// and a point of the curve in 97 bytes.
pub proof fn law_usable_public_file(blob: Seq<u8>, ek: Seq<u8>, pk: Seq<u8>)
    ensures
        usable_public(blob) == Some((ek, pk)) <==> {
            &&& blob == encode_public(ek, pk)
            &&& ek.len() == 1568
            &&& pk.len() == 97
            &&& p384_point_valid(pk)
        },
{
    law_public_is_canonical(blob);
    if ek.len() == 1568 && pk.len() == 97 {
        law_public_round_trip(ek, pk);
    }
}

/// Writes a public key file.
pub fn public_blob(ek: &[u8], pk: &[u8]) -> (blob: Vec<u8>)
    ensures
        blob@ == encode_public(ek@, pk@),
{
    let magic: [u8; 4] = MAGIC_PUB;
    let mut blob: Vec<u8> = Vec::new();
    push_all(&mut blob, magic.as_slice());
    push_u32_prefixed(&mut blob, ek);
    push_u32_prefixed(&mut blob, pk);
    assert(blob@ =~= encode_public(ek@, pk@));
    blob
}

/// Reads a public key file.
pub fn parse_public_blob(blob: &[u8]) -> (r: Result<(&[u8], &[u8]), CryptoError>)
    ensures
        r is Ok <==> decode_public(blob@) is Some,
        r matches Ok((ek, pk)) ==> decode_public(blob@) == Some((ek@, pk@)),
        r matches Err(e) ==> e == CryptoError::BadKeyFile,
{
    let magic: [u8; 4] = MAGIC_PUB;
    let mut cursor: &[u8] = blob;
    match take_exact(&mut cursor, 4) {
        Some(head) => {
            if !bytes_eq(head, magic.as_slice()) {
                return Err(CryptoError::BadKeyFile);
            }
        },
        None => return Err(CryptoError::BadKeyFile),
    }
    let ek = match take_u32_prefixed(&mut cursor) {
        Some(ek) => ek,
        None => return Err(CryptoError::BadKeyFile),
    };
    let pk = match take_u32_prefixed(&mut cursor) {
        Some(pk) => pk,
        None => return Err(CryptoError::BadKeyFile),
    };
    if cursor.len() != 0 {
        return Err(CryptoError::BadKeyFile);
    }
    Ok((ek, pk))
}

// ---------------------------------------------------------------------------
// Private key file
// ---------------------------------------------------------------------------

/// What stands before the ciphertext in a private key file, all of it authenticated.
pub open spec fn key_header(
    m_cost: u32,
    t_cost: u32,
    lanes: u32,
    salt: Seq<u8>,
    nonce: Seq<u8>,
) -> Seq<u8> {
    MAGIC_KEY@ + le32(m_cost) + le32(t_cost) + le32(lanes) + salt + nonce
}

/// The secret content of a private key file.
pub open spec fn key_payload(dk: Seq<u8>, sk: Seq<u8>) -> Seq<u8> {
    prefixed(dk) + prefixed(sk)
}

/// The two keys in the secret content. What follows them is not looked at.
pub open spec fn decode_payload(plain: Seq<u8>) -> Option<(Seq<u8>, Seq<u8>)> {
    match split_prefixed(plain) {
        None => None,
        Some((dk, rest)) => match split_prefixed(rest) {
            None => None,
            Some((sk, _)) => Some((dk, sk)),
        },
    }
}

/// A private key file of new keys: `passphrase` is in normal form.
pub open spec fn encode_private(
    passphrase: Seq<u8>,
    salt: Seq<u8>,
    nonce: Seq<u8>,
    dk: Seq<u8>,
    sk: Seq<u8>,
) -> Seq<u8> {
    let header = key_header(ARGON_M_COST, ARGON_T_COST, ARGON_LANES, salt, nonce);
    let kek = argon2id(
        passphrase,
        salt,
        ARGON_M_COST,
        ARGON_T_COST,
        ARGON_LANES,
        KEY_LEN as nat,
    );
    let (ct, tag) = chacha_seal(kek, nonce, header, key_payload(dk, sk));
    header + ct + tag
}

/// Whether a key file asks for no more than the limits.
pub open spec fn costs_within_limits(m_cost: u32, t_cost: u32, lanes: u32) -> bool {
    &&& m_cost <= ARGON_M_COST_MAX
    &&& t_cost <= ARGON_T_COST_MAX
    &&& lanes <= ARGON_LANES_MAX
}

/// Whether a private key file has its form and asks for no more than the limits. This needs no
/// passphrase and no key derivation.
pub open spec fn private_form_ok(blob: Seq<u8>) -> bool {
    &&& blob.len() >= KEY_HEADER_LEN + TAG_LEN
    &&& blob.take(4) == MAGIC_KEY@
    &&& costs_within_limits(
        from_le32(blob.subrange(4, 8)),
        from_le32(blob.subrange(8, 12)),
        from_le32(blob.subrange(12, 16)),
    )
}

/// The secret content of a private key file whose key-encryption key is `kek`. There is none where
/// the tag does not match, or where the file is longer than the cipher takes.
pub open spec fn private_content(blob: Seq<u8>, kek: Seq<u8>) -> Option<Seq<u8>> {
    let ct = blob.subrange(KEY_HEADER_LEN as int, blob.len() - TAG_LEN);
    if ct.len() > AEAD_MAX_LEN {
        None
    } else {
        chacha_open(
            kek,
            blob.subrange(32, KEY_HEADER_LEN as int),
            blob.take(KEY_HEADER_LEN as int),
            ct,
            blob.skip(blob.len() - TAG_LEN),
        )
    }
}

/// Whether Argon2 can run with the costs of a private key file.
pub open spec fn costs_usable(blob: Seq<u8>) -> bool {
    argon2_params_ok(
        from_le32(blob.subrange(4, 8)) as int,
        from_le32(blob.subrange(8, 12)) as int,
        from_le32(blob.subrange(12, 16)) as int,
        KEY_LEN as int,
    )
}

/// The key-encryption key that a passphrase gives with the costs and the salt of a private key
/// file.
pub open spec fn file_kek(blob: Seq<u8>, passphrase: Seq<u8>) -> Seq<u8> {
    argon2id(
        normalized(passphrase),
        blob.subrange(16, 32),
        from_le32(blob.subrange(4, 8)),
        from_le32(blob.subrange(8, 12)),
        from_le32(blob.subrange(12, 16)),
        KEY_LEN as nat,
    )
}

/// What opening a private key file with a passphrase gives: the two keys, or the first error
/// in this order. The file has not its form or asks for too much; the passphrase is no text;
/// the key derivation cannot run with the parameters; it cannot run with the passphrase; the
/// content is not authentic; the content is not two keys.
pub open spec fn decode_private(blob: Seq<u8>, passphrase: Seq<u8>) -> Result<
    (Seq<u8>, Seq<u8>),
    CryptoError,
> {
    let salt = blob.subrange(16, 32);
    if !private_form_ok(blob) {
        Err(CryptoError::BadKeyFile)
    } else if !valid_utf8(passphrase) {
        Err(CryptoError::Internal)
    } else if !costs_usable(blob) {
        Err(CryptoError::BadKeyFile)
    } else if !argon2_input_ok(normalized(passphrase), salt) {
        Err(CryptoError::Internal)
    } else {
        match private_content(blob, file_kek(blob, passphrase)) {
            None => Err(CryptoError::BadPassphrase),
            Some(plain) => match decode_payload(plain) {
                None => Err(CryptoError::BadKeyFile),
                Some(keys) => Ok(keys),
            },
        }
    }
}

/// Reading the secret content that was written gives the two keys.
pub proof fn law_payload_round_trip(dk: Seq<u8>, sk: Seq<u8>)
    requires
        dk.len() <= u32::MAX,
        sk.len() <= u32::MAX,
    ensures
        decode_payload(key_payload(dk, sk)) == Some((dk, sk)),
{
    law_split_prefixed(dk, prefixed(sk));
    law_split_prefixed(sk, Seq::empty());
    assert(prefixed(sk) + Seq::<u8>::empty() =~= prefixed(sk));
}

/// A key file that asks for more than the limits is refused as such, whatever the passphrase
/// and whatever else it holds.
pub proof fn law_excessive_costs_are_refused(blob: Seq<u8>, passphrase: Seq<u8>)
    requires
        blob.len() >= KEY_HEADER_LEN + TAG_LEN,
        !costs_within_limits(
            from_le32(blob.subrange(4, 8)),
            from_le32(blob.subrange(8, 12)),
            from_le32(blob.subrange(12, 16)),
        ),
    ensures
        decode_private(blob, passphrase) == Err::<(Seq<u8>, Seq<u8>), CryptoError>(
            CryptoError::BadKeyFile,
        ),
{
}

/// Two passphrases with the same normal form open the same key files to the same keys.
pub proof fn law_equivalent_passphrases(blob: Seq<u8>, a: Seq<u8>, b: Seq<u8>)
    requires
        valid_utf8(a),
        valid_utf8(b),
        normalized(a) == normalized(b),
    ensures
        decode_private(blob, a) == decode_private(blob, b),
{
}

/// Different costs, salts or nonces give different headers. The header is authenticated, so none
/// of them can be changed unnoticed.
pub proof fn law_key_header_is_injective(
    m_a: u32,
    t_a: u32,
    lanes_a: u32,
    salt_a: Seq<u8>,
    nonce_a: Seq<u8>,
    m_b: u32,
    t_b: u32,
    lanes_b: u32,
    salt_b: Seq<u8>,
    nonce_b: Seq<u8>,
)
    requires
        salt_a.len() == SALT_LEN,
        salt_b.len() == SALT_LEN,
        nonce_a.len() == NONCE_LEN,
        nonce_b.len() == NONCE_LEN,
        key_header(m_a, t_a, lanes_a, salt_a, nonce_a) == key_header(
            m_b,
            t_b,
            lanes_b,
            salt_b,
            nonce_b,
        ),
    ensures
        m_a == m_b,
        t_a == t_b,
        lanes_a == lanes_b,
        salt_a == salt_b,
        nonce_a == nonce_b,
{
    let tag = Seq::new(TAG_LEN as nat, |i: int| 0u8);
    lemma_private_parts(m_a, t_a, lanes_a, salt_a, nonce_a, Seq::empty(), tag);
    lemma_private_parts(m_b, t_b, lanes_b, salt_b, nonce_b, Seq::empty(), tag);
}

/// The parts of a key file that was put together of a header, a ciphertext and a tag.
proof fn lemma_private_parts(
    m_cost: u32,
    t_cost: u32,
    lanes: u32,
    salt: Seq<u8>,
    nonce: Seq<u8>,
    ct: Seq<u8>,
    tag: Seq<u8>,
)
    requires
        salt.len() == SALT_LEN,
        nonce.len() == NONCE_LEN,
        tag.len() == TAG_LEN,
    ensures
        ({
            let header = key_header(m_cost, t_cost, lanes, salt, nonce);
            let blob = header + ct + tag;
            &&& header.len() == KEY_HEADER_LEN
            &&& blob.len() == KEY_HEADER_LEN + ct.len() + TAG_LEN
            &&& blob.take(4) == MAGIC_KEY@
            &&& from_le32(blob.subrange(4, 8)) == m_cost
            &&& from_le32(blob.subrange(8, 12)) == t_cost
            &&& from_le32(blob.subrange(12, 16)) == lanes
            &&& blob.subrange(16, 32) == salt
            &&& blob.subrange(32, KEY_HEADER_LEN as int) == nonce
            &&& blob.take(KEY_HEADER_LEN as int) == header
            &&& blob.subrange(KEY_HEADER_LEN as int, blob.len() - TAG_LEN) == ct
            &&& blob.skip(blob.len() - TAG_LEN) == tag
        }),
{
    law_le32_round_trip(m_cost);
    law_le32_round_trip(t_cost);
    law_le32_round_trip(lanes);
    let header = key_header(m_cost, t_cost, lanes, salt, nonce);
    let blob = header + ct + tag;
    assert(blob.take(4) =~= MAGIC_KEY@);
    assert(blob.subrange(4, 8) =~= le32(m_cost));
    assert(blob.subrange(8, 12) =~= le32(t_cost));
    assert(blob.subrange(12, 16) =~= le32(lanes));
    assert(blob.subrange(16, 32) =~= salt);
    assert(blob.subrange(32, KEY_HEADER_LEN as int) =~= nonce);
    assert(blob.take(KEY_HEADER_LEN as int) =~= header);
    assert(blob.subrange(KEY_HEADER_LEN as int, blob.len() - TAG_LEN) =~= ct);
    assert(blob.skip(blob.len() - TAG_LEN) =~= tag);
}

/// The secret content is the two keys, each behind its length, and it is read whatever follows
/// them.
pub proof fn law_payload_is_two_fields(
    dk: Seq<u8>,
    sk: Seq<u8>,
    extra: Seq<u8>,
    plain: Seq<u8>,
)
    requires
        dk.len() <= u32::MAX,
        sk.len() <= u32::MAX,
    ensures
        key_payload(dk, sk) == prefixed(dk) + prefixed(sk),
        decode_payload(prefixed(dk) + prefixed(sk) + extra) == Some((dk, sk)),
        decode_payload(plain) matches Some((a, b)) ==> {
            let front = prefixed(a) + prefixed(b);
            front.len() <= plain.len() && plain.take(front.len() as int) == front
        },
{
    law_split_prefixed(dk, prefixed(sk) + extra);
    law_split_prefixed(sk, extra);
    assert(prefixed(dk) + prefixed(sk) + extra =~= prefixed(dk) + (prefixed(sk) + extra));
    if let Some((a, b)) = decode_payload(plain) {
        law_prefixed_is_canonical(plain);
        let rest = (split_prefixed(plain)->0).1;
        law_prefixed_is_canonical(rest);
        let end = (split_prefixed(rest)->0).1;
        let front = prefixed(a) + prefixed(b);
        assert(plain =~= front + end);
        assert(plain.take(front.len() as int) =~= front);
    }
}

/// A private key file is `HSK2`, the costs of 131072 KiB, four passes and one lane, the salt, the
/// nonce, and the two keys, sealed under what Argon2id makes of the passphrase and the salt with
/// these costs, with all that stands before them authenticated.
pub proof fn law_private_file_layout(
    passphrase: Seq<u8>,
    salt: Seq<u8>,
    nonce: Seq<u8>,
    dk: Seq<u8>,
    sk: Seq<u8>,
)
    requires
        salt.len() == 16,
        nonce.len() == 12,
    ensures
        ({
            let b = encode_private(passphrase, salt, nonce, dk, sk);
            let head = b.take(44);
            let (ct, tag) = chacha_seal(
                argon2id(passphrase, salt, 131072, 4, 1, 32),
                nonce,
                head,
                prefixed(dk) + prefixed(sk),
            );
            &&& b.len() == 44 + ct.len() + tag.len()
            &&& b.take(16) == seq![
                72u8, 83u8, 75u8, 50u8, 0u8, 0u8, 2u8, 0u8, 4u8, 0u8, 0u8, 0u8, 1u8, 0u8, 0u8, 0u8,
            ]
            &&& b.subrange(16, 32) == salt
            &&& b.subrange(32, 44) == nonce
            &&& b.skip(44) == ct + tag
        }),
{
    law_le32_weighs_bytes(131072);
    law_le32_weighs_bytes(4);
    law_le32_weighs_bytes(1);
    let b = encode_private(passphrase, salt, nonce, dk, sk);
    let header = key_header(131072, 4, 1, salt, nonce);
    let (ct, tag) = chacha_seal(
        argon2id(passphrase, salt, 131072, 4, 1, 32),
        nonce,
        header,
        prefixed(dk) + prefixed(sk),
    );
    assert(b.take(44) =~= header);
    assert(b.skip(44) =~= ct + tag);
    assert(b.subrange(16, 32) =~= salt);
    assert(b.subrange(32, 44) =~= nonce);
    assert(b.take(16) =~= MAGIC_KEY@ + le32(131072) + le32(4) + le32(1));
    assert(b.take(16) =~= seq![
        72u8, 83u8, 75u8, 50u8, 0u8, 0u8, 2u8, 0u8, 4u8, 0u8, 0u8, 0u8, 1u8, 0u8, 0u8, 0u8,
    ]);
}

/// Whatever stands in a private key file, it is opened under what Argon2id makes of all of the
/// passphrase's NFKC text, the salt and the costs of the file. The errors come in this order: the
/// file asks for more than 1048576 KiB, ten passes or four lanes; the passphrase is no text; Argon2
/// cannot run with the costs; it cannot run with the passphrase; the content is not authentic; the
/// content is not two keys.
pub proof fn law_private_file_opens_under_the_whole_passphrase(
    m_cost: u32,
    t_cost: u32,
    lanes: u32,
    salt: Seq<u8>,
    nonce: Seq<u8>,
    ct: Seq<u8>,
    tag: Seq<u8>,
    passphrase: Seq<u8>,
)
    requires
        salt.len() == 16,
        nonce.len() == 12,
        tag.len() == 16,
    ensures
        ({
            let head = seq![72u8, 83u8, 75u8, 50u8] + le32(m_cost) + le32(t_cost) + le32(lanes)
                + salt + nonce;
            let text = encode_utf8(nfkc(decode_utf8(passphrase)));
            let r = decode_private(head + ct + tag, passphrase);
            let key_file = Err::<(Seq<u8>, Seq<u8>), CryptoError>(CryptoError::BadKeyFile);
            let internal = Err::<(Seq<u8>, Seq<u8>), CryptoError>(CryptoError::Internal);
            if m_cost > 1048576 || t_cost > 10 || lanes > 4 {
                r == key_file
            } else if !valid_utf8(passphrase) {
                r == internal
            } else if m_cost < 8 || m_cost < 8 * lanes || t_cost < 1 || lanes < 1 {
                r == key_file
            } else if text.len() > 0xFFFF_FFFF {
                r == internal
            } else {
                match chacha_open(
                    argon2id(text, salt, m_cost, t_cost, lanes, 32),
                    nonce,
                    head,
                    ct,
                    tag,
                ) {
                    Some(plain) if ct.len() <= 0x3F_FFFF_FF80 => match decode_payload(plain) {
                        Some(keys) => r == Ok::<(Seq<u8>, Seq<u8>), CryptoError>(keys),
                        None => r == key_file,
                    },
                    _ => r == Err::<(Seq<u8>, Seq<u8>), CryptoError>(CryptoError::BadPassphrase),
                }
            }
        }),
{
    assert(MAGIC_KEY@ =~= seq![72u8, 83u8, 75u8, 50u8]);
    lemma_private_parts(m_cost, t_cost, lanes, salt, nonce, ct, tag);
}

/// A file of less than 60 bytes, or one that does not begin with `HSK2`, is no private key file,
/// whatever the passphrase.
pub proof fn law_foreign_files_are_no_key_files(blob: Seq<u8>, passphrase: Seq<u8>)
    requires
        blob.len() < 60 || blob.take(4) != seq![72u8, 83u8, 75u8, 50u8],
    ensures
        decode_private(blob, passphrase) == Err::<(Seq<u8>, Seq<u8>), CryptoError>(
            CryptoError::BadKeyFile,
        ),
{
    assert(MAGIC_KEY@ =~= seq![72u8, 83u8, 75u8, 50u8]);
}

/// Takes a length-prefixed field off the front into memory that is wiped.
pub fn take_u32_prefixed_secure(cursor: &mut &[u8]) -> (r: Option<SecureBuf>)
    ensures
        r is Some <==> split_prefixed(old(cursor)@) is Some,
        r matches Some(a) ==> a.wf() && split_prefixed(old(cursor)@) == Some(
            (a@, final(cursor)@),
        ),
{
    match take_u32_prefixed(cursor) {
        Some(slice) => Some(SecureBuf::from_slice(slice)),
        None => None,
    }
}

/// Reads the secret content of a private key file.
pub fn parse_payload(plain: &[u8]) -> (r: Result<(SecureBuf, SecureBuf), CryptoError>)
    ensures
        r is Ok <==> decode_payload(plain@) is Some,
        r matches Ok((dk, sk)) ==> {
            &&& dk.wf()
            &&& sk.wf()
            &&& decode_payload(plain@) == Some((dk@, sk@))
        },
        r matches Err(e) ==> e == CryptoError::BadKeyFile,
{
    let mut cursor: &[u8] = plain;
    let dk = match take_u32_prefixed_secure(&mut cursor) {
        Some(dk) => dk,
        None => return Err(CryptoError::BadKeyFile),
    };
    let sk = match take_u32_prefixed_secure(&mut cursor) {
        Some(sk) => sk,
        None => return Err(CryptoError::BadKeyFile),
    };
    Ok((dk, sk))
}

/// Derives a key from a passphrase into `out`. Parameters that Argon2 does not take are the key
/// file's fault; inputs that it does not take are not.
pub fn derive_kek(
    passphrase: &[u8],
    salt: &[u8],
    m_cost: u32,
    t_cost: u32,
    lanes: u32,
    out: &mut [u8],
) -> (r: Result<(), CryptoError>)
    requires
        lanes <= 0x1FFF_FFFF,
    ensures
        final(out)@.len() == old(out)@.len(),
        ({
            let len = old(out)@.len();
            if !argon2_params_ok(m_cost as int, t_cost as int, lanes as int, len as int) {
                r == Err::<(), CryptoError>(CryptoError::BadKeyFile)
            } else if !argon2_input_ok(passphrase@, salt@) {
                r == Err::<(), CryptoError>(CryptoError::Internal)
            } else {
                &&& r is Ok
                &&& final(out)@ == argon2id(passphrase@, salt@, m_cost, t_cost, lanes, len)
            }
        }),
{
    let len: usize = out.len();
    match argon2_params(m_cost, t_cost, lanes, len) {
        Ok(()) => {},
        Err(_) => return Err(CryptoError::BadKeyFile),
    }
    match argon2_hash(passphrase, salt, m_cost, t_cost, lanes, out) {
        Ok(()) => Ok(()),
        Err(_) => Err(CryptoError::Internal),
    }
}

/// Opens a private key file with a passphrase.
pub fn open_private_blob(blob: &[u8], passphrase: &SecureBuf) -> (r: Result<
    (SecureBuf, SecureBuf),
    CryptoError,
>)
    requires
        passphrase.wf(),
    ensures
        match decode_private(blob@, passphrase@) {
            Ok((dk, sk)) => r matches Ok((a, b)) && a.wf() && b.wf() && a@ == dk && b@ == sk,
            Err(e) => r matches Err(f) && f == e,
        },
{
    let magic: [u8; 4] = MAGIC_KEY;
    if blob.len() < KEY_HEADER_LEN + TAG_LEN {
        return Err(CryptoError::BadKeyFile);
    }
    let (start, _rest) = blob.split_at(4);
    assert(start@ =~= blob@.take(4));
    if !bytes_eq(start, magic.as_slice()) {
        return Err(CryptoError::BadKeyFile);
    }
    let m_cost: u32 = read_le32(blob, 4);
    let t_cost: u32 = read_le32(blob, 8);
    let lanes: u32 = read_le32(blob, 12);
    let (header, body) = blob.split_at(KEY_HEADER_LEN);
    let (prelude, nonce) = header.split_at(32);
    let (_costs, salt) = prelude.split_at(16);
    let (ct, tag) = body.split_at(body.len() - TAG_LEN);
    proof {
        assert(header@ =~= blob@.take(KEY_HEADER_LEN as int));
        assert(nonce@ =~= blob@.subrange(32, KEY_HEADER_LEN as int));
        assert(salt@ =~= blob@.subrange(16, 32));
        assert(ct@ =~= blob@.subrange(KEY_HEADER_LEN as int, blob@.len() - TAG_LEN));
        assert(tag@ =~= blob@.skip(blob@.len() - TAG_LEN));
    }
    if m_cost > ARGON_M_COST_MAX || t_cost > ARGON_T_COST_MAX || lanes > ARGON_LANES_MAX {
        return Err(CryptoError::BadKeyFile);
    }
    let norm = match normalize_passphrase(passphrase) {
        Ok(norm) => norm,
        Err(e) => return Err(e),
    };
    let mut kek = SecureBuf::with_capacity(KEY_LEN);
    kek.fill_to_capacity();
    match derive_kek(norm.as_slice(), salt, m_cost, t_cost, lanes, kek.as_mut_slice()) {
        Ok(()) => {},
        Err(e) => return Err(e),
    }
    if ct.len() as u64 > AEAD_MAX_LEN {
        return Err(CryptoError::BadPassphrase);
    }
    let mut plain = SecureBuf::from_slice(ct);
    match aead_open(kek.as_slice(), nonce, header, plain.as_mut_slice(), tag) {
        Ok(()) => {},
        Err(_) => return Err(CryptoError::BadPassphrase),
    }
    parse_payload(plain.as_slice())
}

// ---------------------------------------------------------------------------
// New key pairs
// ---------------------------------------------------------------------------

/// Appends to `out` the private key file of two new keys, under a passphrase in normal form.
/// The file opens with every passphrase of that normal form to these keys.
pub fn seal_private_blob(
    passphrase: &SecureBuf,
    salt: &[u8],
    nonce: &[u8],
    dk: &SecureBuf,
    sk: &SecureBuf,
    out: &mut Vec<u8>,
) -> (r: Result<(), CryptoError>)
    requires
        passphrase.wf(),
        salt@.len() == SALT_LEN,
        nonce@.len() == NONCE_LEN,
        dk.wf(),
        sk.wf(),
        dk@.len() == KEM_DK_LEN,
        sk@.len() == P384_SCALAR_LEN,
    ensures
        r == (if argon2_input_ok(passphrase@, salt@) {
            Ok::<(), CryptoError>(())
        } else {
            Err::<(), CryptoError>(CryptoError::Internal)
        }),
        r is Err ==> final(out)@ == old(out)@,
        r is Ok ==> {
            let file = encode_private(passphrase@, salt@, nonce@, dk@, sk@);
            &&& final(out)@ == old(out)@ + file
            &&& file.len() == KEY_HEADER_LEN + 8 + KEM_DK_LEN + P384_SCALAR_LEN + TAG_LEN
            &&& forall|typed: Seq<u8>|
                valid_utf8(typed) && #[trigger] normalized(typed) == passphrase@
                    ==> decode_private(file, typed) == Ok::<(Seq<u8>, Seq<u8>), CryptoError>(
                    (dk@, sk@),
                )
        },
{
    let magic: [u8; 4] = MAGIC_KEY;
    let mut payload = SecureBuf::with_capacity(8 + KEM_DK_LEN + P384_SCALAR_LEN + TAG_LEN);
    let mut length: Vec<u8> = Vec::new();
    proof {
        law_le32_round_trip(KEM_DK_LEN as u32);
        law_le32_round_trip(P384_SCALAR_LEN as u32);
    }
    push_le32(&mut length, prefix_len(dk.as_slice()));
    payload.push_bytes(length.as_slice());
    payload.push_bytes(dk.as_slice());
    length.clear();
    push_le32(&mut length, prefix_len(sk.as_slice()));
    payload.push_bytes(length.as_slice());
    payload.push_bytes(sk.as_slice());
    let ghost plain = payload@;
    assert(plain =~= key_payload(dk@, sk@));

    let mut header: Vec<u8> = Vec::new();
    push_all(&mut header, magic.as_slice());
    push_le32(&mut header, ARGON_M_COST);
    push_le32(&mut header, ARGON_T_COST);
    push_le32(&mut header, ARGON_LANES);
    push_all(&mut header, salt);
    push_all(&mut header, nonce);
    assert(header@ =~= key_header(ARGON_M_COST, ARGON_T_COST, ARGON_LANES, salt@, nonce@));

    let mut kek = SecureBuf::with_capacity(KEY_LEN);
    kek.fill_to_capacity();
    match derive_kek(
        passphrase.as_slice(),
        salt,
        ARGON_M_COST,
        ARGON_T_COST,
        ARGON_LANES,
        kek.as_mut_slice(),
    ) {
        Ok(()) => {},
        Err(e) => return Err(e),
    }
    let tag = match aead_seal(kek.as_slice(), nonce, header.as_slice(), payload.as_mut_slice()) {
        Ok(tag) => tag,
        Err(_) => return Err(CryptoError::Internal),
    };
    let ghost start = out@;
    push_all(out, header.as_slice());
    push_all(out, payload.as_slice());
    push_all(out, tag.as_slice());
    proof {
        let file = encode_private(passphrase@, salt@, nonce@, dk@, sk@);
        assert(out@ =~= start + file);
        lemma_private_parts(
            ARGON_M_COST,
            ARGON_T_COST,
            ARGON_LANES,
            salt@,
            nonce@,
            payload@,
            tag@,
        );
        assert(file == header@ + payload@ + tag@);
        law_payload_round_trip(dk@, sk@);
        assert forall|typed: Seq<u8>|
            valid_utf8(typed) && #[trigger] normalized(typed) == passphrase@ implies decode_private(
            file,
            typed,
        ) == Ok::<(Seq<u8>, Seq<u8>), CryptoError>((dk@, sk@)) by {
            assert(private_form_ok(file));
            assert(private_content(file, kek@) == Some(plain));
        }
    }
    Ok(())
}

/// The files of a new key pair: the public file holds the public keys of the two private keys,
/// and the private file holds those under the passphrase.
pub open spec fn is_key_pair(
    passphrase: Seq<u8>,
    dk: Seq<u8>,
    sk: Seq<u8>,
    salt: Seq<u8>,
    nonce: Seq<u8>,
    public_file: Seq<u8>,
    private_file: Seq<u8>,
) -> bool {
    &&& dk.len() == KEM_DK_LEN
    &&& sk.len() == P384_SCALAR_LEN
    &&& salt.len() == SALT_LEN
    &&& nonce.len() == NONCE_LEN
    &&& p384_public(sk) is Some
    &&& ml_kem_public(dk).len() == KEM_EK_LEN
    &&& (p384_public(sk)->0).len() == P384_POINT_LEN
    &&& (p384_public(sk)->0)[0] == 4
    &&& public_file.len() == PUBLIC_FILE_LEN
    &&& private_file.len() == PRIVATE_FILE_LEN
    &&& private_file == encode_private(normalized(passphrase), salt, nonce, dk, sk)
    &&& decode_private(private_file, passphrase) == Ok::<(Seq<u8>, Seq<u8>), CryptoError>((dk, sk))
    &&& public_file == encode_public(ml_kem_public(dk), p384_public(sk)->0)
    &&& usable_public(public_file) == Some((ml_kem_public(dk), p384_public(sk)->0))
}

/// Whether `public_file` and `private_file` are the files of some new key pair under a passphrase.
pub open spec fn are_key_pair(
    passphrase: Seq<u8>,
    public_file: Seq<u8>,
    private_file: Seq<u8>,
) -> bool {
    exists|dk: Seq<u8>, sk: Seq<u8>, salt: Seq<u8>, nonce: Seq<u8>| #[trigger]
        is_key_pair(passphrase, dk, sk, salt, nonce, public_file, private_file)
}

/// What was appended to two outputs are the files of a new key pair.
pub open spec fn appended_key_pair(
    passphrase: Seq<u8>,
    pub_before: Seq<u8>,
    pub_after: Seq<u8>,
    key_before: Seq<u8>,
    key_after: Seq<u8>,
) -> bool {
    &&& pub_before.len() <= pub_after.len()
    &&& key_before.len() <= key_after.len()
    &&& pub_after.take(pub_before.len() as int) == pub_before
    &&& key_after.take(key_before.len() as int) == key_before
    &&& are_key_pair(
        passphrase,
        pub_after.skip(pub_before.len() as int),
        key_after.skip(key_before.len() as int),
    )
}

/// The files of a key pair whose private keys, salt and nonce were drawn.
pub open spec fn drawn_key_pair(
    passphrase: Seq<u8>,
    public_file: Seq<u8>,
    private_file: Seq<u8>,
) -> bool {
    exists|dk: Seq<u8>, sk: Seq<u8>, salt: Seq<u8>, nonce: Seq<u8>|
        {
            &&& #[trigger] is_key_pair(
                passphrase,
                dk,
                sk,
                salt,
                nonce,
                public_file,
                private_file,
            )
            &&& drawn_kem_pair(dk, ml_kem_public(dk))
            &&& drawn_scalar(sk)
            &&& drawn_bytes(salt)
            &&& drawn_bytes(nonce)
        }
}

/// The files of a new key pair: the private file opens with the passphrase to two keys that were
/// drawn, its salt and its nonce were drawn, and the public file holds the public keys of these two
/// and nothing else.
pub proof fn law_new_keys_are_drawn(
    passphrase: Seq<u8>,
    public_file: Seq<u8>,
    private_file: Seq<u8>,
)
    requires
        drawn_key_pair(passphrase, public_file, private_file),
    ensures
        private_file.len() == 3284,
        drawn_bytes(private_file.subrange(16, 32)),
        drawn_bytes(private_file.subrange(32, 44)),
        decode_private(private_file, passphrase) matches Ok((dk, sk)) && {
            &&& drawn_kem_pair(dk, ml_kem_public(dk))
            &&& drawn_scalar(sk)
            &&& dk.len() == 3168
            &&& sk.len() == 48
            &&& p384_public(sk) matches Some(pk) && public_file == encode_public(
                ml_kem_public(dk),
                pk,
            ) && usable_public(public_file) == Some((ml_kem_public(dk), pk))
            &&& private_file == encode_private(
                encode_utf8(nfkc(decode_utf8(passphrase))),
                private_file.subrange(16, 32),
                private_file.subrange(32, 44),
                dk,
                sk,
            )
        },
{
    let (dk, sk, salt, nonce) = choose|dk: Seq<u8>, sk: Seq<u8>, salt: Seq<u8>, nonce: Seq<u8>|
        {
            &&& #[trigger] is_key_pair(
                passphrase,
                dk,
                sk,
                salt,
                nonce,
                public_file,
                private_file,
            )
            &&& drawn_kem_pair(dk, ml_kem_public(dk))
            &&& drawn_scalar(sk)
            &&& drawn_bytes(salt)
            &&& drawn_bytes(nonce)
        };
    law_private_file_layout(normalized(passphrase), salt, nonce, dk, sk);
}

/// What was there stays, and the files of a key pair stand behind it.
pub proof fn law_key_pairs_are_appended(
    passphrase: Seq<u8>,
    pub_before: Seq<u8>,
    pub_after: Seq<u8>,
    key_before: Seq<u8>,
    key_after: Seq<u8>,
)
    requires
        appended_key_pair(passphrase, pub_before, pub_after, key_before, key_after),
    ensures
        exists|public_file: Seq<u8>, private_file: Seq<u8>|
            {
                &&& #[trigger] are_key_pair(passphrase, public_file, private_file)
                &&& pub_after == pub_before + public_file
                &&& key_after == key_before + private_file
            },
{
    let public_file = pub_after.skip(pub_before.len() as int);
    let private_file = key_after.skip(key_before.len() as int);
    assert(pub_after =~= pub_before + public_file);
    assert(key_after =~= key_before + private_file);
    assert(are_key_pair(passphrase, public_file, private_file));
}

/// A passphrase with another normal form than that of a new key pair does not open its private
/// file, unless the cipher accepts the file under the key that it gives.
pub proof fn law_wrong_passphrase_is_refused(
    passphrase: Seq<u8>,
    dk: Seq<u8>,
    sk: Seq<u8>,
    salt: Seq<u8>,
    nonce: Seq<u8>,
    public_file: Seq<u8>,
    private_file: Seq<u8>,
    other: Seq<u8>,
)
    requires
        is_key_pair(passphrase, dk, sk, salt, nonce, public_file, private_file),
        valid_utf8(other),
        normalized(other).len() <= 0xFFFF_FFFF,
        normalized(other) != normalized(passphrase),
        private_content(private_file, file_kek(private_file, other)) is None,
    ensures
        decode_private(private_file, other) == Err::<(Seq<u8>, Seq<u8>), CryptoError>(
            CryptoError::BadPassphrase,
        ),
{
}

/// A private file of a new key pair that was changed in any way does not open, unless the cipher
/// accepts the changed bytes where it is asked: that is where the changed file still has the form
/// of one and its costs can be used. Where the mark at its front was changed, it is no key file;
/// where nothing was changed before the salt and it has not become too short, the passphrase counts
/// as wrong; where the costs were changed, it is one or the other.
pub proof fn law_changed_key_file_is_refused(
    passphrase: Seq<u8>,
    dk: Seq<u8>,
    sk: Seq<u8>,
    salt: Seq<u8>,
    nonce: Seq<u8>,
    public_file: Seq<u8>,
    private_file: Seq<u8>,
    changed: Seq<u8>,
)
    requires
        is_key_pair(passphrase, dk, sk, salt, nonce, public_file, private_file),
        changed != private_file,
        private_form_ok(changed) && costs_usable(changed) ==> private_content(
            changed,
            file_kek(changed, passphrase),
        ) is None,
    ensures
        ({
            let r = decode_private(changed, passphrase);
            &&& r == Err::<(Seq<u8>, Seq<u8>), CryptoError>(CryptoError::BadKeyFile) || r == Err::<
                (Seq<u8>, Seq<u8>),
                CryptoError,
            >(CryptoError::BadPassphrase)
            &&& changed.take(4) != MAGIC_KEY@ ==> r == Err::<(Seq<u8>, Seq<u8>), CryptoError>(
                CryptoError::BadKeyFile,
            )
            &&& changed.len() >= KEY_HEADER_LEN + TAG_LEN && changed.take(16) == private_file.take(
                16,
            ) ==> r == Err::<(Seq<u8>, Seq<u8>), CryptoError>(CryptoError::BadPassphrase)
        }),
{
    if changed.len() >= KEY_HEADER_LEN + TAG_LEN && changed.take(16) == private_file.take(16) {
        assert(changed.take(4) =~= changed.take(16).take(4));
        assert(private_file.take(4) =~= private_file.take(16).take(4));
        assert(changed.subrange(4, 8) =~= changed.take(16).subrange(4, 8));
        assert(private_file.subrange(4, 8) =~= private_file.take(16).subrange(4, 8));
        assert(changed.subrange(8, 12) =~= changed.take(16).subrange(8, 12));
        assert(private_file.subrange(8, 12) =~= private_file.take(16).subrange(8, 12));
        assert(changed.subrange(12, 16) =~= changed.take(16).subrange(12, 16));
        assert(private_file.subrange(12, 16) =~= private_file.take(16).subrange(12, 16));
    }
}

/// Generates a key pair under a passphrase of whatever strength and appends its files to `pub_out`
/// and `key_out`. The private file opens again, and one can encrypt for the public file. This
/// succeeds with every text that Argon2 takes; otherwise nothing is written.
pub fn new_keypair(
    passphrase: &SecureBuf,
    pub_out: &mut Vec<u8>,
    key_out: &mut Vec<u8>,
) -> (r: Result<(), CryptoError>)
    requires
        passphrase.wf(),
    ensures
        r == (if valid_utf8(passphrase@) && normalized(passphrase@).len() <= 0xFFFF_FFFF {
            Ok::<(), CryptoError>(())
        } else {
            Err::<(), CryptoError>(CryptoError::Internal)
        }),
        r is Err ==> final(pub_out)@ == old(pub_out)@ && final(key_out)@ == old(key_out)@,
        r is Ok ==> appended_key_pair(
            passphrase@,
            old(pub_out)@,
            final(pub_out)@,
            old(key_out)@,
            final(key_out)@,
        ),
        r is Ok ==> drawn_key_pair(
            passphrase@,
            final(pub_out)@.skip(old(pub_out)@.len() as int),
            final(key_out)@.skip(old(key_out)@.len() as int),
        ),
{
    let norm = match normalize_passphrase(passphrase) {
        Ok(norm) => norm,
        Err(e) => return Err(e),
    };
    let (dk, ek) = draw_kem_pair();
    let sk = draw_scalar();
    let pk = match p384_public_of(sk.as_slice()) {
        Ok(pk) => pk,
        Err(_) => return Err(CryptoError::Internal),
    };
    let public_file = public_blob(ek.as_slice(), pk.as_slice());

    let salt = draw_bytes(SALT_LEN);
    let nonce = draw_bytes(NONCE_LEN);
    let ghost key_before = key_out@;
    let ghost pub_before = pub_out@;
    match seal_private_blob(&norm, salt.as_slice(), nonce.as_slice(), &dk, &sk, key_out) {
        Ok(()) => {},
        Err(e) => return Err(e),
    }
    push_all(pub_out, public_file.as_slice());
    proof {
        law_public_round_trip(ek@, pk@);
        let private_file = encode_private(norm@, salt@, nonce@, dk@, sk@);
        assert(pub_out@.skip(pub_before.len() as int) =~= public_file@);
        assert(key_out@.skip(key_before.len() as int) =~= private_file);
        assert(pub_out@.take(pub_before.len() as int) =~= pub_before);
        assert(key_out@.take(key_before.len() as int) =~= key_before);
        assert(is_key_pair(
            passphrase@,
            dk@,
            sk@,
            salt@,
            nonce@,
            public_file@,
            private_file,
        ));
        assert(drawn_key_pair(passphrase@, public_file@, private_file));
    }
    Ok(())
}

/// Generates a key pair, if the passphrase is strong enough by an estimate that was made of it, and
/// appends its files to `pub_out` and `key_out`. Nothing is written on failure.
pub fn generate_judged(
    passphrase: &SecureBuf,
    score: u8,
    guesses: u64,
    pub_out: &mut Vec<u8>,
    key_out: &mut Vec<u8>,
) -> (r: Result<(), CryptoError>)
    requires
        passphrase.wf(),
    ensures
        r == (if !valid_utf8(passphrase@) || !strong_enough(
            decode_utf8(passphrase@).len(),
            score,
            guesses,
        ) {
            Err::<(), CryptoError>(CryptoError::WeakPassphrase)
        } else if normalized(passphrase@).len() > 0xFFFF_FFFF {
            Err::<(), CryptoError>(CryptoError::Internal)
        } else {
            Ok::<(), CryptoError>(())
        }),
        r is Err ==> final(pub_out)@ == old(pub_out)@ && final(key_out)@ == old(key_out)@,
        r is Ok ==> appended_key_pair(
            passphrase@,
            old(pub_out)@,
            final(pub_out)@,
            old(key_out)@,
            final(key_out)@,
        ),
        r is Ok ==> drawn_key_pair(
            passphrase@,
            final(pub_out)@.skip(old(pub_out)@.len() as int),
            final(key_out)@.skip(old(key_out)@.len() as int),
        ),
{
    let text = match core::str::from_utf8(passphrase.as_slice()) {
        Ok(text) => text,
        Err(_) => return Err(CryptoError::WeakPassphrase),
    };
    proof {
        encode_utf8_decode_utf8(text@);
    }
    match judge_strength(text.unicode_len(), score, guesses) {
        Ok(()) => new_keypair(passphrase, pub_out, key_out),
        Err(e) => Err(e),
    }
}

/// Generates a key pair, if the passphrase is strong enough, and appends its files to `pub_out` and
/// `key_out`. A passphrase that is no text or too short is refused; of the others the strength
/// estimate decides. Nothing is written on failure.
pub fn generate_keypair(
    passphrase: &SecureBuf,
    pub_out: &mut Vec<u8>,
    key_out: &mut Vec<u8>,
) -> (r: Result<(), CryptoError>)
    requires
        passphrase.wf(),
    ensures
        r is Err ==> final(pub_out)@ == old(pub_out)@ && final(key_out)@ == old(key_out)@,
        r matches Err(e) ==> e == CryptoError::WeakPassphrase || e == CryptoError::Internal,
        r == Err::<(), CryptoError>(CryptoError::Internal) ==> normalized(passphrase@).len()
            > 0xFFFF_FFFF,
        !valid_utf8(passphrase@) ==> r == Err::<(), CryptoError>(CryptoError::WeakPassphrase),
        decode_utf8(passphrase@).len() < MIN_PASSPHRASE_CHARS ==> r == Err::<(), CryptoError>(
            CryptoError::WeakPassphrase,
        ),
        r is Ok ==> appended_key_pair(
            passphrase@,
            old(pub_out)@,
            final(pub_out)@,
            old(key_out)@,
            final(key_out)@,
        ),
        r is Ok ==> drawn_key_pair(
            passphrase@,
            final(pub_out)@.skip(old(pub_out)@.len() as int),
            final(key_out)@.skip(old(key_out)@.len() as int),
        ),
        r !is Err || r->Err_0 == CryptoError::Internal ==> {
            &&& valid_utf8(passphrase@)
            &&& decode_utf8(passphrase@).len() >= 12
            &&& exists|score: u8, guesses: u64|
                {
                    &&& #[trigger] is_estimate(decode_utf8(passphrase@), score, guesses)
                    &&& score >= 4
                    &&& guesses >= 1_000_000_000_000
                }
        },
        r == Err::<(), CryptoError>(CryptoError::WeakPassphrase) && valid_utf8(passphrase@)
            && decode_utf8(passphrase@).len() >= 12 ==> exists|score: u8, guesses: u64|
            {
                &&& #[trigger] is_estimate(decode_utf8(passphrase@), score, guesses)
                &&& score < 4 || guesses < 1_000_000_000_000
            },
{
    match estimate_passphrase(passphrase) {
        Ok((_chars, score, guesses)) => generate_judged(
            passphrase,
            score,
            guesses,
            pub_out,
            key_out,
        ),
        Err(e) => Err(e),
    }
}

} // verus!
