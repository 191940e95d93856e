//! The cryptographic primitives and text functions of other crates, each behind one function
//! whose contract says what the library relies on.

use argon2::{Algorithm, Argon2, Block, Params, Version};
use crate::strength::can_be_estimated;
use chacha20poly1305::aead::{AeadInPlace, KeyInit};
use chacha20poly1305::{ChaCha20Poly1305, Key, Nonce, Tag};
use hkdf::Hkdf;
use ml_kem::kem::{Decapsulate, Encapsulate};
use ml_kem::{Ciphertext, Encoded, EncodedSizeUser, KemCore, MlKem1024};
use p384::ecdh::diffie_hellman;
use p384::{PublicKey, SecretKey};
use rand::rngs::OsRng;
use rand::RngCore;
use sha2::{Digest, Sha256};
use unicode_normalization::UnicodeNormalization;
use vstd::prelude::*;
use vstd::utf8::{encode_utf8, valid_utf8};
use zeroize::Zeroize;

verus! {

/// The length of a nonce.
pub const NONCE_LEN: usize = 12;

/// The length of an authentication tag.
pub const TAG_LEN: usize = 16;

/// The length of a symmetric key.
pub const KEY_LEN: usize = 32;

/// The length of a SHA-256 digest.
pub const DIGEST_LEN: usize = 32;

/// The length of an ML-KEM-1024 encapsulation key.
pub const KEM_EK_LEN: usize = 1568;

/// The length of an ML-KEM-1024 decapsulation key.
pub const KEM_DK_LEN: usize = 3168;

/// The length of an ML-KEM-1024 ciphertext.
pub const KEM_CT_LEN: usize = 1568;

/// The length of an ML-KEM shared secret.
pub const KEM_SHARED_LEN: usize = 32;

/// The length of a P-384 point as this library writes it, uncompressed.
pub const P384_POINT_LEN: usize = 97;

/// The length of a P-384 scalar as this library writes it.
pub const P384_SCALAR_LEN: usize = 48;

/// The length of a P-384 shared secret.
pub const P384_SHARED_LEN: usize = 48;

/// The longest message that is handed to the cipher: one block short of what its 32-bit block
/// counter can number.
pub const AEAD_MAX_LEN: u64 = 0x3F_FFFF_FF80;

// ---------------------------------------------------------------------------
// Outside types
// ---------------------------------------------------------------------------

/// The error of a cipher that refuses a message.
#[verifier::external_type_specification]
#[verifier::external_body]
pub struct ExAeadError(chacha20poly1305::Error);

/// The error of a key derivation that is asked for too many bytes.
#[verifier::external_type_specification]
#[verifier::external_body]
pub struct ExHkdfError(hkdf::InvalidLength);

/// The error of an Argon2 run.
#[verifier::external_type_specification]
#[verifier::external_body]
pub struct ExArgonError(argon2::Error);

/// The error of a curve operation on unusable bytes.
#[verifier::external_type_specification]
#[verifier::external_body]
pub struct ExCurveError(p384::elliptic_curve::Error);

/// The error of a text decoding.
#[verifier::external_type_specification]
#[verifier::external_body]
pub struct ExUtf8Error(core::str::Utf8Error);

// ---------------------------------------------------------------------------
// Names for what the primitives compute
// ---------------------------------------------------------------------------

/// The SHA-256 digest of `data`.
pub uninterp spec fn sha256(data: Seq<u8>) -> Seq<u8>;

/// The first `len` bytes of HKDF-SHA256 without a salt.
pub uninterp spec fn hkdf_sha256(ikm: Seq<u8>, info: Seq<u8>, len: nat) -> Seq<u8>;

/// The first `len` bytes of Argon2id, version 0x13, with the given memory, passes and lanes.
pub uninterp spec fn argon2id(
    password: Seq<u8>,
    salt: Seq<u8>,
    m_cost: u32,
    t_cost: u32,
    lanes: u32,
    len: nat,
) -> Seq<u8>;

/// The ciphertext and the tag that ChaCha20-Poly1305 makes of `plain`.
pub uninterp spec fn chacha_seal(
    key: Seq<u8>,
    nonce: Seq<u8>,
    aad: Seq<u8>,
    plain: Seq<u8>,
) -> (Seq<u8>, Seq<u8>);

/// What ChaCha20-Poly1305 makes of a ciphertext and its tag: the message, or nothing where the
/// tag does not match.
pub uninterp spec fn chacha_open(
    key: Seq<u8>,
    nonce: Seq<u8>,
    aad: Seq<u8>,
    ct: Seq<u8>,
    tag: Seq<u8>,
) -> Option<Seq<u8>>;

/// The encapsulation key that belongs to a decapsulation key of ML-KEM-1024.
pub uninterp spec fn ml_kem_public(dk: Seq<u8>) -> Seq<u8>;

/// The ciphertext and the shared secret that ML-KEM-1024 makes for an encapsulation key out of
/// 32 random bytes.
pub uninterp spec fn ml_kem_encaps(ek: Seq<u8>, random: Seq<u8>) -> (Seq<u8>, Seq<u8>);

/// The shared secret that a decapsulation key of ML-KEM-1024 finds in a ciphertext.
pub uninterp spec fn ml_kem_decaps(dk: Seq<u8>, ct: Seq<u8>) -> Seq<u8>;

/// Whether the bytes are a point of P-384 in SEC1 form, other than the identity.
pub uninterp spec fn p384_point_valid(point: Seq<u8>) -> bool;

/// The public point of a P-384 scalar, uncompressed, or nothing where the bytes are no secret
/// key of the curve.
pub uninterp spec fn p384_public(scalar: Seq<u8>) -> Option<Seq<u8>>;

/// The x-coordinate of a point multiplied by a scalar.
pub uninterp spec fn p384_dh(scalar: Seq<u8>, point: Seq<u8>) -> Seq<u8>;

/// The NFKC normalisation of a text.
pub uninterp spec fn nfkc(text: Seq<char>) -> Seq<char>;

// ---------------------------------------------------------------------------
// Calls
// ---------------------------------------------------------------------------

/// `Sha256::digest`: the digest of `data`, 32 bytes long.
#[verifier::external_body]
pub(crate) fn sha256_digest(data: &[u8]) -> (r: Vec<u8>)
    ensures
        r@ == sha256(data@),
        r@.len() == DIGEST_LEN,
{
    Sha256::digest(data).to_vec()
}

/// `Hkdf::<Sha256>::new` without a salt, then `expand`: fills `out`, unless it is longer than
/// 255 digests, in which case nothing is written.
#[verifier::external_body]
pub(crate) fn hkdf_expand(ikm: &[u8], info: &[u8], out: &mut [u8]) -> (r: Result<
    (),
    hkdf::InvalidLength,
>)
    ensures
        r is Ok <==> old(out)@.len() <= 255 * DIGEST_LEN,
        r is Ok ==> final(out)@ == hkdf_sha256(ikm@, info@, old(out)@.len()),
        r is Err ==> final(out)@ == old(out)@,
        final(out)@.len() == old(out)@.len(),
{
    Hkdf::<Sha256>::new(None, ikm).expand(info, out)
}

/// The Argon2 parameters that `Params::new` accepts.
pub open spec fn argon2_params_ok(m_cost: int, t_cost: int, lanes: int, len: int) -> bool {
    &&& m_cost >= 8
    &&& m_cost >= 8 * lanes
    &&& t_cost >= 1
    &&& 1 <= lanes <= 0xFF_FFFF
    &&& 4 <= len <= 0xFFFF_FFFF
}

/// `Params::new`: whether Argon2 can run with these parameters. A number of lanes of which the
/// eightfold overflows is left out.
#[verifier::external_body]
pub(crate) fn argon2_params(m_cost: u32, t_cost: u32, lanes: u32, len: usize) -> (r: Result<
    (),
    argon2::Error,
>)
    requires
        lanes <= 0x1FFF_FFFF,
    ensures
        r is Ok <==> argon2_params_ok(m_cost as int, t_cost as int, lanes as int, len as int),
{
    Params::new(m_cost, t_cost, lanes, Some(len)).map(|_params| ())
}

/// The passwords and salts that Argon2 takes, by their lengths.
pub open spec fn argon2_input_ok(password: Seq<u8>, salt: Seq<u8>) -> bool {
    &&& password.len() <= 0xFFFF_FFFF
    &&& 8 <= salt.len() <= 0xFFFF_FFFF
}

/// `Argon2::hash_password_into_with_memory` with Argon2id in version 0x13, in memory that is
/// wiped afterwards: fills `out`, unless the password or the salt has a length that Argon2 does
/// not take. The machine has to have `m_cost` KiB to give.
#[verifier::external_body]
pub(crate) fn argon2_hash(
    password: &[u8],
    salt: &[u8],
    m_cost: u32,
    t_cost: u32,
    lanes: u32,
    out: &mut [u8],
) -> (r: Result<(), argon2::Error>)
    requires
        argon2_params_ok(m_cost as int, t_cost as int, lanes as int, old(out)@.len() as int),
    ensures
        r is Ok <==> argon2_input_ok(password@, salt@),
        r is Ok ==> final(out)@ == argon2id(
            password@,
            salt@,
            m_cost,
            t_cost,
            lanes,
            old(out)@.len(),
        ),
        final(out)@.len() == old(out)@.len(),
{
    let params = Params::new(m_cost, t_cost, lanes, Some(out.len()))?;
    let mut memory = vec![Block::default(); params.block_count()];
    let argon2 = Argon2::new(Algorithm::Argon2id, Version::V0x13, params);
    let r = argon2.hash_password_into_with_memory(password, salt, out, &mut memory);
    memory.zeroize();
    r
}

/// `encrypt_in_place_detached` of ChaCha20-Poly1305: turns the message into its ciphertext and
/// returns the tag. The ciphertext is as long as the message, and opening it under the same
/// key, nonce and associated data gives the message back. Messages longer than `AEAD_MAX_LEN`
/// are left out.
#[verifier::external_body]
pub(crate) fn aead_seal(key: &[u8], nonce: &[u8], aad: &[u8], buf: &mut [u8]) -> (r: Result<
    Vec<u8>,
    chacha20poly1305::Error,
>)
    requires
        key@.len() == KEY_LEN,
        nonce@.len() == NONCE_LEN,
        old(buf)@.len() <= AEAD_MAX_LEN,
    ensures
        r is Ok,
        final(buf)@.len() == old(buf)@.len(),
        r matches Ok(tag) ==> {
            &&& (final(buf)@, tag@) == chacha_seal(key@, nonce@, aad@, old(buf)@)
            &&& tag@.len() == TAG_LEN
            &&& chacha_open(key@, nonce@, aad@, final(buf)@, tag@) == Some(old(buf)@)
        },
{
    let cipher = ChaCha20Poly1305::new(Key::from_slice(key));
    let tag = cipher.encrypt_in_place_detached(Nonce::from_slice(nonce), aad, buf)?;
    Ok(tag.to_vec())
}

/// `decrypt_in_place_detached` of ChaCha20-Poly1305: checks the tag, and where it matches turns
/// the ciphertext into the message. Sealing that message again gives the ciphertext and the tag.
/// Where the tag does not match nothing is written. Ciphertexts longer than `AEAD_MAX_LEN` are
/// left out.
#[verifier::external_body]
pub(crate) fn aead_open(key: &[u8], nonce: &[u8], aad: &[u8], buf: &mut [u8], tag: &[u8]) -> (r:
    Result<(), chacha20poly1305::Error>)
    requires
        key@.len() == KEY_LEN,
        nonce@.len() == NONCE_LEN,
        tag@.len() == TAG_LEN,
        old(buf)@.len() <= AEAD_MAX_LEN,
    ensures
        final(buf)@.len() == old(buf)@.len(),
        r is Ok <==> chacha_open(key@, nonce@, aad@, old(buf)@, tag@) is Some,
        r is Ok ==> chacha_open(key@, nonce@, aad@, old(buf)@, tag@) == Some(final(buf)@),
        r is Ok ==> chacha_seal(key@, nonce@, aad@, final(buf)@) == (old(buf)@, tag@),
        r is Err ==> final(buf)@ == old(buf)@,
{
    let cipher = ChaCha20Poly1305::new(Key::from_slice(key));
    cipher.decrypt_in_place_detached(Nonce::from_slice(nonce), aad, buf, Tag::from_slice(tag))
}

/// `MlKem1024::generate`: a fresh key pair. The decapsulation key is written to `dk` and the
/// encapsulation key that belongs to it is returned. That no two calls give the same keys is a
/// matter of chance and not stated. Panics where the system has no randomness to give.
#[verifier::external_body]
pub(crate) fn ml_kem_generate(dk: &mut [u8]) -> (ek: Vec<u8>)
    requires
        old(dk)@.len() == KEM_DK_LEN,
    ensures
        final(dk)@.len() == KEM_DK_LEN,
        ek@.len() == KEM_EK_LEN,
        ek@ == ml_kem_public(final(dk)@),
{
    let (secret, public) = MlKem1024::generate(&mut OsRng);
    let mut encoded = secret.as_bytes();
    dk.copy_from_slice(&encoded);
    encoded.as_mut_slice().zeroize();
    public.as_bytes().to_vec()
}

/// `encapsulation_key` of an ML-KEM-1024 decapsulation key read by `from_bytes`.
#[verifier::external_body]
pub(crate) fn ml_kem_public_of(dk: &[u8]) -> (ek: Vec<u8>)
    requires
        dk@.len() == KEM_DK_LEN,
    ensures
        ek@ == ml_kem_public(dk@),
        ek@.len() == KEM_EK_LEN,
{
    let encoded = Encoded::<<MlKem1024 as KemCore>::DecapsulationKey>::try_from(dk).unwrap();
    let key = <MlKem1024 as KemCore>::DecapsulationKey::from_bytes(&encoded);
    key.encapsulation_key().as_bytes().to_vec()
}

/// `encapsulate` of an ML-KEM-1024 encapsulation key read by `from_bytes`: draws 32 random
/// bytes, writes the shared secret they give to `shared` and returns the ciphertext. It does
/// not fail. That the decapsulation key finds the same secret in the ciphertext is not stated:
/// for a few of the random bytes, with negligible probability, it does not. Panics where the
/// system has no randomness to give.
#[verifier::external_body]
pub(crate) fn ml_kem_encapsulate(ek: &[u8], shared: &mut [u8]) -> (r: Result<Vec<u8>, ()>)
    requires
        ek@.len() == KEM_EK_LEN,
        old(shared)@.len() == KEM_SHARED_LEN,
    ensures
        r is Ok,
        final(shared)@.len() == KEM_SHARED_LEN,
        r matches Ok(ct) ==> {
            &&& ct@.len() == KEM_CT_LEN
            &&& exists|random: Seq<u8>|
                random.len() == 32 && (ct@, final(shared)@) == #[trigger] ml_kem_encaps(ek@, random)
        },
{
    let encoded = Encoded::<<MlKem1024 as KemCore>::EncapsulationKey>::try_from(ek).unwrap();
    let key = <MlKem1024 as KemCore>::EncapsulationKey::from_bytes(&encoded);
    let (ct, mut secret) = key.encapsulate(&mut OsRng)?;
    shared.copy_from_slice(&secret);
    secret.as_mut_slice().zeroize();
    Ok(ct.to_vec())
}

/// `decapsulate` of an ML-KEM-1024 decapsulation key read by `from_bytes`: writes the shared
/// secret to `shared`. It does not fail: a ciphertext that was tampered with gives a secret
/// that nobody else has.
#[verifier::external_body]
pub(crate) fn ml_kem_decapsulate(dk: &[u8], ct: &[u8], shared: &mut [u8]) -> (r: Result<(), ()>)
    requires
        dk@.len() == KEM_DK_LEN,
        ct@.len() == KEM_CT_LEN,
        old(shared)@.len() == KEM_SHARED_LEN,
    ensures
        r is Ok,
        final(shared)@ == ml_kem_decaps(dk@, ct@),
        final(shared)@.len() == KEM_SHARED_LEN,
{
    let encoded = Encoded::<<MlKem1024 as KemCore>::DecapsulationKey>::try_from(dk).unwrap();
    let key = <MlKem1024 as KemCore>::DecapsulationKey::from_bytes(&encoded);
    let mut secret = key.decapsulate(&Ciphertext::<MlKem1024>::try_from(ct).unwrap())?;
    shared.copy_from_slice(&secret);
    secret.as_mut_slice().zeroize();
    Ok(())
}

/// `PublicKey::from_sec1_bytes` of P-384: whether the bytes are a public key.
#[verifier::external_body]
pub(crate) fn p384_check_point(point: &[u8]) -> (r: Result<(), p384::elliptic_curve::Error>)
    ensures
        r is Ok <==> p384_point_valid(point@),
{
    PublicKey::from_sec1_bytes(point).map(|_key| ())
}

/// `SecretKey::random` of P-384: writes a fresh secret key to `scalar`. That no two calls give the
/// same key is a matter of chance and not stated. Panics where the system has no randomness to
/// give.
#[verifier::external_body]
pub(crate) fn p384_generate(scalar: &mut [u8])
    requires
        old(scalar)@.len() == P384_SCALAR_LEN,
    ensures
        final(scalar)@.len() == P384_SCALAR_LEN,
        p384_public(final(scalar)@) is Some,
{
    let mut encoded = SecretKey::random(&mut OsRng).to_bytes();
    scalar.copy_from_slice(&encoded);
    encoded.as_mut_slice().zeroize();
}

/// `SecretKey::from_slice` of P-384, then `public_key` in uncompressed form: the public point
/// of a scalar, which is a valid point of 97 bytes that begins with 4, the mark of this form, or an
/// error where the bytes are no secret key.
#[verifier::external_body]
pub(crate) fn p384_public_of(scalar: &[u8]) -> (r: Result<Vec<u8>, p384::elliptic_curve::Error>)
    ensures
        r is Ok <==> p384_public(scalar@) is Some,
        r matches Ok(point) ==> {
            &&& p384_public(scalar@) == Some(point@)
            &&& p384_point_valid(point@)
            &&& point@.len() == P384_POINT_LEN
            &&& point@[0] == 4
        },
{
    let key = SecretKey::from_slice(scalar)?;
    Ok(key.public_key().to_sec1_bytes().to_vec())
}

/// `diffie_hellman` on P-384: writes the shared secret of a scalar and a point to `shared`.
/// Whoever holds the scalar of that point finds the same secret with the public point of
/// `scalar`.
#[verifier::external_body]
pub(crate) fn p384_agree(scalar: &[u8], point: &[u8], shared: &mut [u8]) -> (r: Result<
    (),
    p384::elliptic_curve::Error,
>)
    requires
        p384_public(scalar@) is Some,
        p384_point_valid(point@),
        old(shared)@.len() == P384_SHARED_LEN,
    ensures
        r is Ok,
        final(shared)@ == p384_dh(scalar@, point@),
        final(shared)@.len() == P384_SHARED_LEN,
        forall|other: Seq<u8>| #[trigger]
            p384_public(other) == Some(point@) ==> final(shared)@ == p384_dh(
                other,
                p384_public(scalar@)->0,
            ),
{
    let secret = SecretKey::from_slice(scalar)?;
    let public = PublicKey::from_sec1_bytes(point)?;
    let agreed = diffie_hellman(secret.to_nonzero_scalar(), public.as_affine());
    shared.copy_from_slice(agreed.raw_secret_bytes());
    Ok(())
}

/// `OsRng::fill_bytes`: random bytes of the operating system. Nothing is promised of them but
/// their number. Panics where the system has no randomness to give.
#[verifier::external_body]
pub(crate) fn random_bytes(out: &mut [u8])
    ensures
        final(out)@.len() == old(out)@.len(),
{
    OsRng.fill_bytes(out)
}

/// `from_utf8`: the bytes as text, where they are well-formed UTF-8.
pub assume_specification[ core::str::from_utf8 ](v: &[u8]) -> (r: Result<
    &str,
    core::str::Utf8Error,
>)
    ensures
        r is Ok <==> valid_utf8(v@),
        r matches Ok(s) ==> encode_utf8(s@) == v@,
;

/// `nfkc` of unicode-normalization, collected: the UTF-8 bytes of the normalised text.
#[verifier::external_body]
pub(crate) fn nfkc_bytes(text: &str) -> (r: Vec<u8>)
    ensures
        r@ == encode_utf8(nfkc(text@)),
{
    text.nfkc().collect::<String>().into_bytes()
}

/// The score that zxcvbn derives from a number of guesses.
pub open spec fn zxcvbn_score(guesses: u64) -> u8 {
    if guesses < 1_005 {
        0
    } else if guesses < 1_000_005 {
        1
    } else if guesses < 100_000_005 {
        2
    } else if guesses < 10_000_000_005 {
        3
    } else {
        4
    }
}

/// `zxcvbn` without user inputs: the score and the estimated number of guesses. The estimate takes
/// account of the current year and of the order in which hash maps are walked, so no more is said
/// of it than that the score follows from it and that an empty password is guessed at once.
///
/// Crowded texts are left out, because on some of them sums, powers and factorials of its scoring
/// overflow, which is a panic where overflow is checked for. On the others nothing of it can
/// overflow. A walk over a keyboard has fewer than 28 steps, and the 27th power of five, the most
/// neighbours that a key counts with, fits. A sequence of matches with more than five members
/// always counts as the most guesses there are, so that it grows by words, walks, repetitions,
/// sequences, years and dates alone, each of them right behind the other. At most 13 of these come
/// to the five, one more within something that is repeated, and the factorial of 20 fits; where
/// addresses have 32 bits, at most 5 do, and that of 12 fits. The words of its lists have at most
/// 23 characters.
#[verifier::external_body]
pub(crate) fn zxcvbn_estimate(text: &str) -> (r: (u8, u64))
    requires
        can_be_estimated(text@),
    ensures
        r.0 == zxcvbn_score(r.1),
        text@.len() == 0 ==> r.1 == 0,
{
    let estimate = zxcvbn::zxcvbn(text, &[]);
    (u8::from(estimate.score()), estimate.guesses())
}

} // verus!
