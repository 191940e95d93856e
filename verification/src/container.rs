//! The container: the session key that the header and the recipient are bound into, and what a
//! container is for its sender and for its recipient.

use crate::chunks::{open_chunks, seal_chunks, ChunkStream};
use crate::error::CryptoError;
use crate::fresh::{
    draw_bytes, draw_encapsulation, draw_scalar, drawn_bytes, drawn_encapsulation, drawn_scalar,
};
use crate::header::{
    check_header, encode_header, header_bytes, law_header_round_trip, split_header, ContainerHeader,
};
use crate::keyfile::{
    decode_private, is_key_pair, open_private_blob, parse_public_blob, usable_public,
};
use crate::primitives::{
    hkdf_expand, hkdf_sha256, ml_kem_decaps, ml_kem_decapsulate, ml_kem_encaps, ml_kem_public,
    ml_kem_public_of, p384_agree, p384_check_point, p384_dh, p384_point_valid, p384_public,
    p384_public_of, sha256, sha256_digest, DIGEST_LEN, KEM_CT_LEN, KEM_DK_LEN, KEM_EK_LEN,
    KEM_SHARED_LEN, KEY_LEN, NONCE_LEN, P384_POINT_LEN, P384_SCALAR_LEN, P384_SHARED_LEN,
};
use crate::secure::SecureBuf;
use crate::wire::push_all;
use vstd::prelude::*;

verus! {

/// What the key derivation is labelled with: `hybridcrypt-v3`.
pub const KDF_LABEL: [u8; 14] = [104, 121, 98, 114, 105, 100, 99, 114, 121, 112, 116, 45, 118, 51];

// ---------------------------------------------------------------------------
// Session key
// ---------------------------------------------------------------------------

/// The digest that binds a session key to its recipient.
pub open spec fn binding_of(ek: Seq<u8>, pk: Seq<u8>) -> Seq<u8> {
    sha256(ek + pk)
}

/// What the key derivation is told besides the secrets: the label, the header, the recipient.
pub open spec fn session_info(header: Seq<u8>, binding: Seq<u8>) -> Seq<u8> {
    KDF_LABEL@ + header + binding
}

/// The secrets that a session key is derived from: that of the encapsulation, then that of the
/// curve.
pub open spec fn keying_material(kem_shared: Seq<u8>, ecdh_shared: Seq<u8>) -> Seq<u8> {
    kem_shared + ecdh_shared
}

/// The session key of two shared secrets, a header and a recipient.
pub open spec fn session_key(
    kem_shared: Seq<u8>,
    ecdh_shared: Seq<u8>,
    header: Seq<u8>,
    binding: Seq<u8>,
) -> Seq<u8> {
    hkdf_sha256(
        keying_material(kem_shared, ecdh_shared),
        session_info(header, binding),
        KEY_LEN as nat,
    )
}

/// Different headers or different recipients enter the key derivation as different inputs.
pub proof fn law_session_info_is_injective(
    header_a: Seq<u8>,
    binding_a: Seq<u8>,
    header_b: Seq<u8>,
    binding_b: Seq<u8>,
)
    requires
        binding_a.len() == DIGEST_LEN,
        binding_b.len() == DIGEST_LEN,
        session_info(header_a, binding_a) == session_info(header_b, binding_b),
    ensures
        header_a == header_b,
        binding_a == binding_b,
{
    let a = session_info(header_a, binding_a);
    let b = session_info(header_b, binding_b);
    assert(header_a =~= a.subrange(14, a.len() - DIGEST_LEN));
    assert(header_b =~= b.subrange(14, b.len() - DIGEST_LEN));
    assert(binding_a =~= a.skip(a.len() - DIGEST_LEN));
    assert(binding_b =~= b.skip(b.len() - DIGEST_LEN));
}

/// Both secrets enter the key derivation, and all of each: where one of them is another, of the
/// same length, the input of the derivation is another.
pub proof fn law_both_secrets_enter_the_key(
    kem_a: Seq<u8>,
    ecdh_a: Seq<u8>,
    kem_b: Seq<u8>,
    ecdh_b: Seq<u8>,
)
    requires
        kem_a.len() == kem_b.len(),
    ensures
        keying_material(kem_a, ecdh_a) == keying_material(kem_b, ecdh_b) <==> kem_a == kem_b
            && ecdh_a == ecdh_b,
        keying_material(kem_a, ecdh_a).len() == kem_a.len() + ecdh_a.len(),
        keying_material(kem_a, ecdh_a).take(kem_a.len() as int) == kem_a,
        keying_material(kem_a, ecdh_a).skip(kem_a.len() as int) == ecdh_a,
{
    let n = kem_a.len() as int;
    let a = keying_material(kem_a, ecdh_a);
    let b = keying_material(kem_b, ecdh_b);
    assert(a.take(n) =~= kem_a);
    assert(a.skip(n) =~= ecdh_a);
    assert(b.take(n) =~= kem_b);
    assert(b.skip(n) =~= ecdh_b);
}

/// The key of a container is what HKDF-SHA256 makes of the encapsulated secret followed by the
/// secret of the curve, told `hybridcrypt-v3`, the header and the digest of the recipient's two
/// keys, in 32 bytes, for the sender as for the recipient.
pub proof fn law_container_key_is_derived_from_both_secrets(
    ek: Seq<u8>,
    pk: Seq<u8>,
    kem_ct: Seq<u8>,
    kem_shared: Seq<u8>,
    eph_sk: Seq<u8>,
    dk: Seq<u8>,
    sk: Seq<u8>,
    eph_pk: Seq<u8>,
    nonce: Seq<u8>,
)
    ensures
        sender_key(ek, pk, kem_ct, kem_shared, eph_sk, nonce) == hkdf_sha256(
            kem_shared + p384_dh(eph_sk, pk),
            seq![
                104u8, 121u8, 98u8, 114u8, 105u8, 100u8, 99u8, 114u8, 121u8, 112u8, 116u8, 45u8,
                118u8, 51u8,
            ] + encode_header(kem_ct, p384_public(eph_sk)->0, nonce) + sha256(ek + pk),
            32,
        ),
        recipient_key(dk, sk, kem_ct, eph_pk, nonce) == hkdf_sha256(
            ml_kem_decaps(dk, kem_ct) + p384_dh(sk, eph_pk),
            seq![
                104u8, 121u8, 98u8, 114u8, 105u8, 100u8, 99u8, 114u8, 121u8, 112u8, 116u8, 45u8,
                118u8, 51u8,
            ] + encode_header(kem_ct, eph_pk, nonce) + sha256(
                ml_kem_public(dk) + p384_public(sk)->0,
            ),
            32,
        ),
{
    assert(KDF_LABEL@ =~= seq![
        104u8, 121u8, 98u8, 114u8, 105u8, 100u8, 99u8, 114u8, 121u8, 112u8, 116u8, 45u8,
        118u8, 51u8,
    ]);
}

/// A container is decrypted under the key that is derived from both secrets. The errors come in
/// this order: that of the private key file, that of unusable private keys, that of the body; and
/// what is written is what comes of the body.
pub proof fn law_container_is_decrypted_with_both_secrets(
    key_blob: Seq<u8>,
    passphrase: Seq<u8>,
    kem_ct: Seq<u8>,
    eph_pk: Seq<u8>,
    nonce: Seq<u8>,
    body: Seq<u8>,
)
    requires
        kem_ct.len() == 1568,
        eph_pk.len() <= 256,
        p384_point_valid(eph_pk),
        nonce.len() == 12,
    ensures
        ({
            let r = decode_container(
                key_blob,
                passphrase,
                encode_header(kem_ct, eph_pk, nonce) + body,
            );
            match decode_private(key_blob, passphrase) {
                Err(e) => r == (Seq::<u8>::empty(), Err::<(), CryptoError>(e)),
                Ok((dk, sk)) => if dk.len() != 3168 || p384_public(sk) is None {
                    r == (Seq::<u8>::empty(), Err::<(), CryptoError>(CryptoError::BadKeyFile))
                } else {
                    let key = hkdf_sha256(
                        ml_kem_decaps(dk, kem_ct) + p384_dh(sk, eph_pk),
                        seq![
                            104u8, 121u8, 98u8, 114u8, 105u8, 100u8, 99u8, 114u8, 121u8, 112u8,
                            116u8, 45u8, 118u8, 51u8,
                        ] + encode_header(kem_ct, eph_pk, nonce) + sha256(
                            ml_kem_public(dk) + p384_public(sk)->0,
                        ),
                        32,
                    );
                    &&& r.0 == open_chunks(key, nonce, 0, body).0
                    &&& r.1 == (if open_chunks(key, nonce, 0, body).1 {
                        Ok::<(), CryptoError>(())
                    } else {
                        Err::<(), CryptoError>(CryptoError::BadContainer)
                    })
                },
            }
        }),
{
    law_header_round_trip(kem_ct, eph_pk, nonce, body);
    if let Ok((dk, sk)) = decode_private(key_blob, passphrase) {
        law_container_key_is_derived_from_both_secrets(
            ml_kem_public(dk),
            Seq::empty(),
            kem_ct,
            Seq::empty(),
            Seq::empty(),
            dk,
            sk,
            eph_pk,
            nonce,
        );
    }
}

/// The digest that binds a session key to its recipient.
pub fn recipient_binding(ek: &[u8], pk: &[u8]) -> (r: Vec<u8>)
    ensures
        r@ == binding_of(ek@, pk@),
        r@ == sha256(ek@ + pk@),
        r@.len() == DIGEST_LEN,
{
    let mut keys: Vec<u8> = Vec::new();
    push_all(&mut keys, ek);
    push_all(&mut keys, pk);
    assert(keys@ =~= ek@ + pk@);
    sha256_digest(keys.as_slice())
}

/// What the key derivation is told besides the secrets.
pub fn derivation_info(header: &[u8], binding: &[u8]) -> (info: Vec<u8>)
    ensures
        info@ == session_info(header@, binding@),
        info@ == seq![
            104u8, 121u8, 98u8, 114u8, 105u8, 100u8, 99u8, 114u8, 121u8, 112u8, 116u8, 45u8,
            118u8, 51u8,
        ] + header@ + binding@,
{
    let label: [u8; 14] = KDF_LABEL;
    let mut info: Vec<u8> = Vec::new();
    push_all(&mut info, label.as_slice());
    push_all(&mut info, header);
    push_all(&mut info, binding);
    assert(info@ =~= session_info(header@, binding@));
    assert(KDF_LABEL@ =~= seq![
        104u8, 121u8, 98u8, 114u8, 105u8, 100u8, 99u8, 114u8, 121u8, 112u8, 116u8, 45u8,
        118u8, 51u8,
    ]);
    info
}

/// Derives the session key into memory that is wiped.
pub fn derive_session_key(
    kem_shared: &SecureBuf,
    ecdh_shared: &SecureBuf,
    header: &[u8],
    binding: &[u8],
) -> (r: Result<SecureBuf, CryptoError>)
    requires
        kem_shared.wf(),
        ecdh_shared.wf(),
        kem_shared@.len() + ecdh_shared@.len() <= usize::MAX,
    ensures
        r is Ok,
        r matches Ok(key) ==> {
            &&& key.wf()
            &&& key@ == session_key(kem_shared@, ecdh_shared@, header@, binding@)
            &&& key@.len() == KEY_LEN
            &&& key@ == hkdf_sha256(
                kem_shared@ + ecdh_shared@,
                seq![
                    104u8, 121u8, 98u8, 114u8, 105u8, 100u8, 99u8, 114u8, 121u8, 112u8, 116u8, 45u8,
                    118u8, 51u8,
                ] + header@ + binding@,
                32,
            )
        },
{
    let mut ikm = SecureBuf::with_capacity(kem_shared.len() + ecdh_shared.len());
    ikm.push_bytes(kem_shared.as_slice());
    ikm.push_bytes(ecdh_shared.as_slice());
    assert(ikm@ =~= kem_shared@ + ecdh_shared@);
    let info = derivation_info(header, binding);
    let mut key = SecureBuf::with_capacity(KEY_LEN);
    key.fill_to_capacity();
    match hkdf_expand(ikm.as_slice(), info.as_slice(), key.as_mut_slice()) {
        Ok(()) => Ok(key),
        Err(_) => Err(CryptoError::Internal),
    }
}

// ---------------------------------------------------------------------------
// What a container is
// ---------------------------------------------------------------------------

/// The key of a container for the recipient `ek`, `pk`, made with these shared secrets.
pub open spec fn sender_key(
    ek: Seq<u8>,
    pk: Seq<u8>,
    kem_ct: Seq<u8>,
    kem_shared: Seq<u8>,
    eph_sk: Seq<u8>,
    nonce: Seq<u8>,
) -> Seq<u8> {
    session_key(
        kem_shared,
        p384_dh(eph_sk, pk),
        encode_header(kem_ct, p384_public(eph_sk)->0, nonce),
        binding_of(ek, pk),
    )
}

/// The container of `plain` for the recipient `ek`, `pk`, given the encapsulated key and its
/// shared secret, the ephemeral scalar and the base nonce.
pub open spec fn encode_container(
    ek: Seq<u8>,
    pk: Seq<u8>,
    kem_ct: Seq<u8>,
    kem_shared: Seq<u8>,
    eph_sk: Seq<u8>,
    nonce: Seq<u8>,
    plain: Seq<u8>,
) -> Seq<u8> {
    encode_header(kem_ct, p384_public(eph_sk)->0, nonce) + seal_chunks(
        sender_key(ek, pk, kem_ct, kem_shared, eph_sk, nonce),
        nonce,
        0,
        plain,
    )
}

/// The key of a container for whoever holds the private keys.
pub open spec fn recipient_key(
    dk: Seq<u8>,
    sk: Seq<u8>,
    kem_ct: Seq<u8>,
    eph_pk: Seq<u8>,
    nonce: Seq<u8>,
) -> Seq<u8> {
    session_key(
        ml_kem_decaps(dk, kem_ct),
        p384_dh(sk, eph_pk),
        encode_header(kem_ct, eph_pk, nonce),
        binding_of(ml_kem_public(dk), p384_public(sk)->0),
    )
}

/// What decrypting a container gives: what is written, and the outcome. The header comes first
/// and is checked before the key file is opened, so that a damaged container is told apart from
/// a wrong passphrase and costs no key derivation.
pub open spec fn decode_container(
    key_blob: Seq<u8>,
    passphrase: Seq<u8>,
    container: Seq<u8>,
) -> (Seq<u8>, Result<(), CryptoError>) {
    match split_header(container) {
        None => (Seq::empty(), Err(CryptoError::BadContainer)),
        Some((kem_ct, eph_pk, nonce, body)) => {
            if kem_ct.len() != KEM_CT_LEN || !p384_point_valid(eph_pk) {
                (Seq::empty(), Err(CryptoError::BadContainer))
            } else {
                match decode_private(key_blob, passphrase) {
                    Err(e) => (Seq::empty(), Err(e)),
                    Ok((dk, sk)) => {
                        if dk.len() != KEM_DK_LEN || p384_public(sk) is None {
                            (Seq::empty(), Err(CryptoError::BadKeyFile))
                        } else {
                            let key = recipient_key(dk, sk, kem_ct, eph_pk, nonce);
                            let (plain, ok) = open_chunks(key, nonce, 0, body);
                            (
                                plain,
                                if ok {
                                    Ok(())
                                } else {
                                    Err(CryptoError::BadContainer)
                                },
                            )
                        }
                    },
                }
            }
        },
    }
}

/// A container whose header cannot be used is refused as such, whatever the key file and the
/// passphrase: the header is checked first.
pub proof fn law_bad_header_is_refused_first(
    key_blob: Seq<u8>,
    passphrase: Seq<u8>,
    container: Seq<u8>,
)
    requires
        match split_header(container) {
            None => true,
            Some((kem_ct, eph_pk, _, _)) => kem_ct.len() != KEM_CT_LEN || !p384_point_valid(eph_pk),
        },
    ensures
        decode_container(key_blob, passphrase, container) == (
            Seq::<u8>::empty(),
            Err::<(), CryptoError>(CryptoError::BadContainer),
        ),
{
}

/// A key file that does not open lets nothing of a container out.
pub proof fn law_no_key_no_output(key_blob: Seq<u8>, passphrase: Seq<u8>, container: Seq<u8>)
    requires
        decode_private(key_blob, passphrase) is Err,
    ensures
        decode_container(key_blob, passphrase, container).0 == Seq::<u8>::empty(),
        decode_container(key_blob, passphrase, container).1 is Err,
{
}

/// The private keys of `key_blob` under `passphrase` belong to `ek` and `pk` and find `kem_shared`
/// in `kem_ct`.
pub open spec fn is_recipient(
    key_blob: Seq<u8>,
    passphrase: Seq<u8>,
    ek: Seq<u8>,
    pk: Seq<u8>,
    kem_ct: Seq<u8>,
    kem_shared: Seq<u8>,
) -> bool {
    match decode_private(key_blob, passphrase) {
        Ok((dk, sk)) => {
            &&& dk.len() == KEM_DK_LEN
            &&& ml_kem_public(dk) == ek
            &&& p384_public(sk) == Some(pk)
            &&& ml_kem_decaps(dk, kem_ct) == kem_shared
        },
        Err(_) => false,
    }
}

/// Every recipient that finds the encapsulated secret reads `plain` in the container.
pub open spec fn recipients_read(
    ek: Seq<u8>,
    pk: Seq<u8>,
    kem_ct: Seq<u8>,
    kem_shared: Seq<u8>,
    container: Seq<u8>,
    plain: Seq<u8>,
) -> bool {
    forall|key_blob: Seq<u8>, passphrase: Seq<u8>|
        is_recipient(key_blob, passphrase, ek, pk, kem_ct, kem_shared)
            ==> #[trigger] decode_container(key_blob, passphrase, container) == (
            plain,
            Ok::<(), CryptoError>(()),
        )
}

/// Sender and recipient derive the same key.
pub open spec fn keys_agree(eph_sk: Seq<u8>, pk: Seq<u8>) -> bool {
    forall|sk: Seq<u8>| #[trigger]
        p384_public(sk) == Some(pk) ==> p384_dh(eph_sk, pk) == p384_dh(sk, p384_public(eph_sk)->0)
}

/// Where the cipher opens what it sealed, and both sides of the curve agree, every recipient that
/// finds the encapsulated secret reads the plaintext in the container.
pub proof fn law_recipients_read(
    ek: Seq<u8>,
    pk: Seq<u8>,
    kem_ct: Seq<u8>,
    kem_shared: Seq<u8>,
    eph_sk: Seq<u8>,
    nonce: Seq<u8>,
    plain: Seq<u8>,
)
    requires
        kem_ct.len() == KEM_CT_LEN,
        nonce.len() == NONCE_LEN,
        p384_public(eph_sk) is Some,
        (p384_public(eph_sk)->0).len() == P384_POINT_LEN,
        p384_point_valid(p384_public(eph_sk)->0),
        keys_agree(eph_sk, pk),
        ({
            let key = sender_key(ek, pk, kem_ct, kem_shared, eph_sk, nonce);
            open_chunks(key, nonce, 0, seal_chunks(key, nonce, 0, plain)) == (plain, true)
        }),
    ensures
        recipients_read(
            ek,
            pk,
            kem_ct,
            kem_shared,
            encode_container(ek, pk, kem_ct, kem_shared, eph_sk, nonce, plain),
            plain,
        ),
{
    let container = encode_container(ek, pk, kem_ct, kem_shared, eph_sk, nonce, plain);
    let eph_pk = p384_public(eph_sk)->0;
    let key = sender_key(ek, pk, kem_ct, kem_shared, eph_sk, nonce);
    law_header_round_trip(kem_ct, eph_pk, nonce, seal_chunks(key, nonce, 0, plain));
    assert forall|key_blob: Seq<u8>, passphrase: Seq<u8>|
        is_recipient(
            key_blob,
            passphrase,
            ek,
            pk,
            kem_ct,
            kem_shared,
        ) implies #[trigger] decode_container(key_blob, passphrase, container) == (
        plain,
        Ok::<(), CryptoError>(()),
    ) by {
        let (dk, sk) = decode_private(key_blob, passphrase)->Ok_0;
        assert(p384_public(sk) == Some(pk));
        assert(recipient_key(dk, sk, kem_ct, eph_pk, nonce) == key);
    }
}

/// A file that was encrypted for a new key pair is decrypted with its private file and its
/// passphrase to what it was, provided that the recipient finds the encapsulated secret. ML-KEM
/// fails in that with a probability that is negligible but not zero.
pub proof fn law_container_round_trip(
    passphrase: Seq<u8>,
    dk: Seq<u8>,
    sk: Seq<u8>,
    salt: Seq<u8>,
    key_nonce: Seq<u8>,
    public_file: Seq<u8>,
    private_file: Seq<u8>,
    kem_ct: Seq<u8>,
    kem_shared: Seq<u8>,
    container: Seq<u8>,
    plain: Seq<u8>,
)
    requires
        is_key_pair(passphrase, dk, sk, salt, key_nonce, public_file, private_file),
        usable_public(public_file) matches Some((ek, pk)) && recipients_read(
            ek,
            pk,
            kem_ct,
            kem_shared,
            container,
            plain,
        ),
        ml_kem_decaps(dk, kem_ct) == kem_shared,
    ensures
        decode_container(private_file, passphrase, container) == (plain, Ok::<(), CryptoError>(())),
{
    let (ek, pk) = usable_public(public_file)->0;
    assert(is_recipient(private_file, passphrase, ek, pk, kem_ct, kem_shared));
}

// ---------------------------------------------------------------------------
// Encryption
// ---------------------------------------------------------------------------

/// Appends the header of a container to `out` and returns the stream that its chunks are sealed
/// with. The shared secret of the encapsulated key, the ephemeral scalar and the base nonce are
/// the caller's, and have to be fresh for every container.
pub fn seal_header(
    ek: &[u8],
    pk: &[u8],
    kem_ct: &[u8],
    kem_shared: &SecureBuf,
    eph_sk: &SecureBuf,
    base_nonce: &[u8],
    out: &mut Vec<u8>,
) -> (r: Result<ChunkStream, CryptoError>)
    requires
        p384_point_valid(pk@),
        kem_shared.wf(),
        kem_shared@.len() == KEM_SHARED_LEN,
        eph_sk.wf(),
        p384_public(eph_sk@) is Some,
        base_nonce@.len() == NONCE_LEN,
    ensures
        r is Ok,
        r matches Ok(stream) ==> {
            &&& stream.wf()
            &&& stream.counter() == 0
            &&& stream.base() == base_nonce@
            &&& stream.key() == sender_key(
                ek@,
                pk@,
                kem_ct@,
                kem_shared@,
                eph_sk@,
                base_nonce@,
            )
            &&& stream.key() == hkdf_sha256(
                kem_shared@ + p384_dh(eph_sk@, pk@),
                seq![
                    104u8, 121u8, 98u8, 114u8, 105u8, 100u8, 99u8, 114u8, 121u8, 112u8, 116u8, 45u8,
                    118u8, 51u8,
                ] + encode_header(kem_ct@, p384_public(eph_sk@)->0, base_nonce@) + sha256(
                    ek@ + pk@,
                ),
                32,
            )
        },
        final(out)@ == old(out)@ + encode_header(
            kem_ct@,
            p384_public(eph_sk@)->0,
            base_nonce@,
        ),
        (p384_public(eph_sk@)->0).len() == P384_POINT_LEN,
        p384_point_valid(p384_public(eph_sk@)->0),
        keys_agree(eph_sk@, pk@),
{
    let binding = recipient_binding(ek, pk);
    let eph_pk = match p384_public_of(eph_sk.as_slice()) {
        Ok(point) => point,
        Err(_) => return Err(CryptoError::Internal),
    };
    let mut ecdh = SecureBuf::with_capacity(P384_SHARED_LEN);
    ecdh.fill_to_capacity();
    match p384_agree(eph_sk.as_slice(), pk, ecdh.as_mut_slice()) {
        Ok(()) => {},
        Err(_) => return Err(CryptoError::Internal),
    }
    let header = header_bytes(kem_ct, eph_pk.as_slice(), base_nonce);
    let key = match derive_session_key(kem_shared, &ecdh, header.as_slice(), binding.as_slice()) {
        Ok(key) => key,
        Err(e) => return Err(e),
    };
    push_all(out, header.as_slice());
    Ok(ChunkStream::new(key, base_nonce))
}

/// What a new container was made with: random bytes for the encapsulation, the ephemeral scalar
/// and the base nonce.
pub open spec fn fresh_parts(random: Seq<u8>, eph_sk: Seq<u8>, nonce: Seq<u8>) -> bool {
    &&& random.len() == 32
    &&& eph_sk.len() == P384_SCALAR_LEN
    &&& p384_public(eph_sk) is Some
    &&& nonce.len() == NONCE_LEN
}

/// A stream for the chunks of a new container, and the header that stands before them.
pub open spec fn is_new_container(
    ek: Seq<u8>,
    pk: Seq<u8>,
    random: Seq<u8>,
    eph_sk: Seq<u8>,
    nonce: Seq<u8>,
    header: Seq<u8>,
    key: Seq<u8>,
) -> bool {
    let (kem_ct, kem_shared) = ml_kem_encaps(ek, random);
    &&& fresh_parts(random, eph_sk, nonce)
    &&& kem_ct.len() == KEM_CT_LEN
    &&& header == encode_header(kem_ct, p384_public(eph_sk)->0, nonce)
    &&& key == sender_key(ek, pk, kem_ct, kem_shared, eph_sk, nonce)
    &&& (p384_public(eph_sk)->0).len() == P384_POINT_LEN
    &&& p384_point_valid(p384_public(eph_sk)->0)
    &&& keys_agree(eph_sk, pk)
}

/// Starts a container for the recipient of a public key file: draws what has to be fresh,
/// appends the header to `out` and returns the stream for the chunks. Fails exactly where the
/// public key file cannot be used.
pub fn start_container(recipient_public_blob: &[u8], out: &mut Vec<u8>) -> (r: Result<
    ChunkStream,
    CryptoError,
>)
    ensures
        r is Ok <==> usable_public(recipient_public_blob@) is Some,
        r matches Err(e) ==> e == CryptoError::BadKeyFile && final(out)@ == old(out)@,
        r matches Ok(stream) ==> {
            &&& stream.wf()
            &&& stream.counter() == 0
            &&& exists|random: Seq<u8>, eph_sk: Seq<u8>, header: Seq<u8>|
                {
                    &&& #[trigger] is_new_container(
                        (usable_public(recipient_public_blob@)->0).0,
                        (usable_public(recipient_public_blob@)->0).1,
                        random,
                        eph_sk,
                        stream.base(),
                        header,
                        stream.key(),
                    )
                    &&& final(out)@ == old(out)@ + header
                    &&& drawn_bytes(stream.base())
                    &&& drawn_scalar(eph_sk)
                    &&& drawn_encapsulation(
                        (usable_public(recipient_public_blob@)->0).0,
                        ml_kem_encaps((usable_public(recipient_public_blob@)->0).0, random).0,
                        ml_kem_encaps((usable_public(recipient_public_blob@)->0).0, random).1,
                    )
                    &&& header == encode_header(
                        ml_kem_encaps((usable_public(recipient_public_blob@)->0).0, random).0,
                        p384_public(eph_sk)->0,
                        stream.base(),
                    )
                    &&& stream.key() == hkdf_sha256(
                        ml_kem_encaps((usable_public(recipient_public_blob@)->0).0, random).1
                            + p384_dh(eph_sk, (usable_public(recipient_public_blob@)->0).1),
                        seq![
                            104u8, 121u8, 98u8, 114u8, 105u8, 100u8, 99u8, 114u8, 121u8, 112u8,
                            116u8, 45u8, 118u8, 51u8,
                        ] + header + sha256(
                            (usable_public(recipient_public_blob@)->0).0 + (usable_public(
                                recipient_public_blob@,
                            )->0).1,
                        ),
                        32,
                    )
                }
        },
{
    let (ek, pk) = match parse_public_blob(recipient_public_blob) {
        Ok(keys) => keys,
        Err(e) => return Err(e),
    };
    if ek.len() != KEM_EK_LEN || pk.len() != P384_POINT_LEN {
        return Err(CryptoError::BadKeyFile);
    }
    match p384_check_point(pk) {
        Ok(()) => {},
        Err(_) => return Err(CryptoError::BadKeyFile),
    }
    let (kem_ct, kem_shared) = draw_encapsulation(ek);
    let eph_sk = draw_scalar();
    let base_nonce = draw_bytes(NONCE_LEN);
    let ghost random = choose|random: Seq<u8>|
        random.len() == 32 && (kem_ct@, kem_shared@) == #[trigger] ml_kem_encaps(ek@, random);
    let stream = match seal_header(
        ek,
        pk,
        kem_ct.as_slice(),
        &kem_shared,
        &eph_sk,
        base_nonce.as_slice(),
        out,
    ) {
        Ok(stream) => stream,
        Err(e) => return Err(e),
    };
    proof {
        assert(is_new_container(
            ek@,
            pk@,
            random,
            eph_sk@,
            base_nonce@,
            encode_header(kem_ct@, p384_public(eph_sk@)->0, base_nonce@),
            stream.key(),
        ));
    }
    Ok(stream)
}

// ---------------------------------------------------------------------------
// Decryption
// ---------------------------------------------------------------------------

/// Derives the stream for the chunks of a container from the private keys.
pub fn open_session(dk: &SecureBuf, sk: &SecureBuf, header: &ContainerHeader) -> (r: Result<
    ChunkStream,
    CryptoError,
>)
    requires
        dk.wf(),
        sk.wf(),
        header.usable(),
    ensures
        r is Ok <==> dk@.len() == KEM_DK_LEN && p384_public(sk@) is Some,
        r matches Err(e) ==> e == CryptoError::BadKeyFile,
        r matches Ok(stream) ==> {
            &&& stream.wf()
            &&& stream.counter() == 0
            &&& stream.base() == header.base_nonce@
            &&& stream.key() == recipient_key(
                dk@,
                sk@,
                header.kem_ct@,
                header.eph_pk@,
                header.base_nonce@,
            )
            &&& stream.key() == hkdf_sha256(
                ml_kem_decaps(dk@, header.kem_ct@) + p384_dh(sk@, header.eph_pk@),
                seq![
                    104u8, 121u8, 98u8, 114u8, 105u8, 100u8, 99u8, 114u8, 121u8, 112u8, 116u8, 45u8,
                    118u8, 51u8,
                ] + encode_header(header.kem_ct@, header.eph_pk@, header.base_nonce@) + sha256(
                    ml_kem_public(dk@) + p384_public(sk@)->0,
                ),
                32,
            )
        },
{
    if dk.len() != KEM_DK_LEN {
        return Err(CryptoError::BadKeyFile);
    }
    let own_pk = match p384_public_of(sk.as_slice()) {
        Ok(point) => point,
        Err(_) => return Err(CryptoError::BadKeyFile),
    };
    let own_ek = ml_kem_public_of(dk.as_slice());
    let binding = recipient_binding(own_ek.as_slice(), own_pk.as_slice());
    let mut kem_shared = SecureBuf::with_capacity(KEM_SHARED_LEN);
    kem_shared.fill_to_capacity();
    match ml_kem_decapsulate(dk.as_slice(), header.kem_ct.as_slice(), kem_shared.as_mut_slice()) {
        Ok(()) => {},
        Err(_) => return Err(CryptoError::BadContainer),
    }
    let mut ecdh = SecureBuf::with_capacity(P384_SHARED_LEN);
    ecdh.fill_to_capacity();
    match p384_agree(sk.as_slice(), header.eph_pk.as_slice(), ecdh.as_mut_slice()) {
        Ok(()) => {},
        Err(_) => return Err(CryptoError::BadContainer),
    }
    let raw = header_bytes(
        header.kem_ct.as_slice(),
        header.eph_pk.as_slice(),
        header.base_nonce.as_slice(),
    );
    let key = match derive_session_key(&kem_shared, &ecdh, raw.as_slice(), binding.as_slice()) {
        Ok(key) => key,
        Err(e) => return Err(e),
    };
    Ok(ChunkStream::new(key, header.base_nonce.as_slice()))
}

/// Opens a container up to its chunks: checks the header, opens the private key file with the
/// passphrase and derives the stream for the chunks.
pub fn resume_container(
    encrypted_private_blob: &[u8],
    passphrase: &SecureBuf,
    header: &ContainerHeader,
) -> (r: Result<ChunkStream, CryptoError>)
    requires
        passphrase.wf(),
        header.base_nonce@.len() == NONCE_LEN,
    ensures
        !header.usable() ==> (r matches Err(e) && e == CryptoError::BadContainer),
        header.usable() ==> match decode_private(encrypted_private_blob@, passphrase@) {
            Err(e) => r matches Err(f) && f == e,
            Ok((dk, sk)) => if dk.len() != KEM_DK_LEN || p384_public(sk) is None {
                r matches Err(f) && f == CryptoError::BadKeyFile
            } else {
                r matches Ok(stream) && {
                    &&& stream.wf()
                    &&& stream.counter() == 0
                    &&& stream.base() == header.base_nonce@
                    &&& stream.key() == recipient_key(
                        dk,
                        sk,
                        header.kem_ct@,
                        header.eph_pk@,
                        header.base_nonce@,
                    )
                    &&& stream.key() == hkdf_sha256(
                        ml_kem_decaps(dk, header.kem_ct@) + p384_dh(sk, header.eph_pk@),
                        seq![
                            104u8, 121u8, 98u8, 114u8, 105u8, 100u8, 99u8, 114u8, 121u8, 112u8,
                            116u8, 45u8, 118u8, 51u8,
                        ] + encode_header(header.kem_ct@, header.eph_pk@, header.base_nonce@)
                            + sha256(ml_kem_public(dk) + p384_public(sk)->0),
                        32,
                    )
                }
            },
        },
{
    match check_header(header) {
        Ok(()) => {},
        Err(e) => return Err(e),
    }
    match open_private_blob(encrypted_private_blob, passphrase) {
        Ok((dk, sk)) => open_session(&dk, &sk, header),
        Err(e) => Err(e),
    }
}

} // verus!
