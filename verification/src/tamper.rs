//! What becomes of containers that were changed or cut short, or that meet the wrong keys. None of
//! this can hold without a condition, since nothing keeps the cipher from accepting a forgery by
//! chance. Each law names the very bytes that it would have to accept.

use crate::chunks::{
    aad_of, cut_is_accepted, holds_forgery, is_whole_chunks, law_manipulation_needs_a_forgery,
    law_truncation_is_noticed, nonce_of, open_chunks, seal_chunks, split_chunk,
};
use crate::container::{decode_container, is_recipient, recipient_key, sender_key};
use crate::error::CryptoError;
use crate::header::{
    encode_header, law_header_is_canonical, law_header_round_trip, split_header,
};
use crate::keyfile::{
    decode_private, file_kek, is_key_pair, law_wrong_passphrase_is_refused, private_content,
};
use crate::passphrase::normalized;
use crate::primitives::{
    chacha_open, ml_kem_encaps, p384_point_valid, p384_public, KEM_CT_LEN, KEM_DK_LEN,
};
use crate::stream::is_container_of;
use crate::wire::law_le32_round_trip;
use vstd::prelude::*;
use vstd::utf8::valid_utf8;

verus! {

/// The cipher accepts the first chunk of a body.
pub open spec fn first_chunk_accepted(key: Seq<u8>, base: Seq<u8>, body: Seq<u8>) -> bool {
    match split_chunk(body) {
        Some((ct, tag, rest)) => chacha_open(
            key,
            nonce_of(base, 0),
            aad_of(0, rest.len() == 0),
            ct,
            tag,
        ) is Some,
        None => false,
    }
}

/// A header with these parts can be used.
pub open spec fn header_usable(kem_ct: Seq<u8>, eph_pk: Seq<u8>) -> bool {
    &&& kem_ct.len() == KEM_CT_LEN
    &&& p384_point_valid(eph_pk)
}

/// `changed` has the header of `container`.
pub open spec fn same_header(container: Seq<u8>, changed: Seq<u8>) -> bool {
    match (split_header(container), split_header(changed)) {
        (Some((a, b, c, _)), Some((x, y, z, _))) => a == x && b == y && c == z,
        _ => false,
    }
}

/// The cipher accepts something in `changed` that was not sealed: one of its chunks in a place that
/// it was not sealed for, or, where the header is another one that can be used, its first chunk
/// under the key that follows from that header.
pub open spec fn container_holds_forgery(
    key_blob: Seq<u8>,
    passphrase: Seq<u8>,
    container: Seq<u8>,
    plain: Seq<u8>,
    changed: Seq<u8>,
) -> bool {
    match (split_header(changed), decode_private(key_blob, passphrase)) {
        (Some((kem_ct, eph_pk, nonce, body)), Ok((dk, sk))) => {
            let key = recipient_key(dk, sk, kem_ct, eph_pk, nonce);
            if !header_usable(kem_ct, eph_pk) {
                false
            } else if same_header(container, changed) {
                holds_forgery(key, nonce, 0, plain, body)
            } else {
                first_chunk_accepted(key, nonce, body)
            }
        },
        _ => false,
    }
}

/// A body of which the first chunk is not accepted gives nothing.
proof fn lemma_refused_first_chunk(key: Seq<u8>, base: Seq<u8>, body: Seq<u8>)
    requires
        !first_chunk_accepted(key, base, body),
    ensures
        open_chunks(key, base, 0, body) == (Seq::<u8>::empty(), false),
{
}

/// What the header, the key and the body of a new container are for its recipient.
proof fn lemma_parts_for_recipient(
    ek: Seq<u8>,
    pk: Seq<u8>,
    random: Seq<u8>,
    eph_sk: Seq<u8>,
    nonce: Seq<u8>,
    container: Seq<u8>,
    plain: Seq<u8>,
    key_blob: Seq<u8>,
    passphrase: Seq<u8>,
)
    requires
        is_container_of(ek, pk, random, eph_sk, nonce, container, plain),
        is_recipient(
            key_blob,
            passphrase,
            ek,
            pk,
            ml_kem_encaps(ek, random).0,
            ml_kem_encaps(ek, random).1,
        ),
    ensures
        ({
            let (kem_ct, kem_shared) = ml_kem_encaps(ek, random);
            let eph_pk = p384_public(eph_sk)->0;
            let key = sender_key(ek, pk, kem_ct, kem_shared, eph_sk, nonce);
            let body = seal_chunks(key, nonce, 0, plain);
            let header = encode_header(kem_ct, eph_pk, nonce);
            &&& container == header + body
            &&& header.len() == HEADER_LEN
            &&& split_header(container) == Some((kem_ct, eph_pk, nonce, body))
            &&& decode_private(key_blob, passphrase) matches Ok((dk, sk)) && dk.len() == KEM_DK_LEN
                && p384_public(sk) is Some && recipient_key(dk, sk, kem_ct, eph_pk, nonce) == key
        }),
{
    let (kem_ct, kem_shared) = ml_kem_encaps(ek, random);
    let eph_pk = p384_public(eph_sk)->0;
    let key = sender_key(ek, pk, kem_ct, kem_shared, eph_sk, nonce);
    let body = seal_chunks(key, nonce, 0, plain);
    law_header_round_trip(kem_ct, eph_pk, nonce, body);
    law_le32_round_trip(kem_ct.len() as u32);
    law_le32_round_trip(eph_pk.len() as u32);
    let (dk, sk) = decode_private(key_blob, passphrase)->Ok_0;
    assert(p384_public(sk) == Some(pk));
}

/// The length of the header of a new container.
pub const HEADER_LEN: usize = 1689;

/// A container that was changed in any way is refused as damaged, with the right keys too, and what
/// comes out of it is whole chunks of the plaintext without the last; nothing comes out where the
/// header was changed. The condition is that the changed container holds no forgery. This covers
/// every flipped bit and every chunk that was swapped, repeated, removed or added.
pub proof fn law_changed_container_is_refused(
    ek: Seq<u8>,
    pk: Seq<u8>,
    random: Seq<u8>,
    eph_sk: Seq<u8>,
    nonce: Seq<u8>,
    container: Seq<u8>,
    plain: Seq<u8>,
    key_blob: Seq<u8>,
    passphrase: Seq<u8>,
    changed: Seq<u8>,
)
    requires
        is_container_of(ek, pk, random, eph_sk, nonce, container, plain),
        is_recipient(
            key_blob,
            passphrase,
            ek,
            pk,
            ml_kem_encaps(ek, random).0,
            ml_kem_encaps(ek, random).1,
        ),
        changed != container,
        !container_holds_forgery(key_blob, passphrase, container, plain, changed),
    ensures
        ({
            let (out, r) = decode_container(key_blob, passphrase, changed);
            &&& r == Err::<(), CryptoError>(CryptoError::BadContainer)
            &&& exists|k: nat| #[trigger] is_whole_chunks(plain, out, k)
            &&& changed.len() < HEADER_LEN || changed.take(HEADER_LEN as int) != container.take(
                HEADER_LEN as int,
            ) ==> out == Seq::<u8>::empty()
        }),
{
    lemma_parts_for_recipient(
        ek,
        pk,
        random,
        eph_sk,
        nonce,
        container,
        plain,
        key_blob,
        passphrase,
    );
    let out = decode_container(key_blob, passphrase, changed).0;
    assert(plain.take(0) =~= Seq::<u8>::empty());
    assert(is_whole_chunks(plain, Seq::empty(), 0));
    match split_header(changed) {
        None => {
            assert(is_whole_chunks(plain, out, 0));
        },
        Some((kem_ct, eph_pk, nonce2, body)) => {
            let (dk, sk) = decode_private(key_blob, passphrase)->Ok_0;
            let key = recipient_key(dk, sk, kem_ct, eph_pk, nonce2);
            if !header_usable(kem_ct, eph_pk) {
                assert(is_whole_chunks(plain, out, 0));
            } else if same_header(container, changed) {
                law_header_is_canonical(changed);
                let header = encode_header(kem_ct, eph_pk, nonce);
                assert(changed.take(HEADER_LEN as int) =~= header);
                assert(container.take(HEADER_LEN as int) =~= header);
                law_manipulation_needs_a_forgery(key, nonce, 0, plain, body);
                assert(!open_chunks(key, nonce, 0, body).1);
                let k = choose|k: nat| #[trigger]
                    is_whole_chunks(plain, open_chunks(key, nonce, 0, body).0, k);
                assert(is_whole_chunks(plain, out, k));
            } else {
                lemma_refused_first_chunk(key, nonce2, body);
                assert(is_whole_chunks(plain, out, 0));
            }
        },
    }
}

/// A header that is cut short is no header.
proof fn lemma_short_header(header: Seq<u8>, body: Seq<u8>, cut: int)
    requires
        split_header(header + body) matches Some((_, _, _, b)) && b == body,
        0 <= cut < header.len(),
    ensures
        split_header((header + body).take(cut)) is None,
{
    let whole = header + body;
    let short = whole.take(cut);
    if let Some((a, b, c, rest)) = split_header(short) {
        let behind = whole.skip(cut);
        law_header_is_canonical(short);
        law_header_round_trip(a, b, c, rest + behind);
        assert(whole =~= short + behind);
        assert((encode_header(a, b, c) + rest) + behind =~= encode_header(a, b, c) + (rest
            + behind));
        assert(body == rest + behind);
    }
}

/// A container that was cut short, anywhere, is refused as damaged, with the right keys too, and
/// what comes out of it is whole chunks of the plaintext without the last; nothing comes out
/// where it was cut within the header or right behind it. The condition concerns the chunk before
/// the cut alone, and only where the cut lies between two chunks: the cipher does not accept it
/// as the last.
pub proof fn law_truncated_container_is_refused(
    ek: Seq<u8>,
    pk: Seq<u8>,
    random: Seq<u8>,
    eph_sk: Seq<u8>,
    nonce: Seq<u8>,
    container: Seq<u8>,
    plain: Seq<u8>,
    key_blob: Seq<u8>,
    passphrase: Seq<u8>,
    cut: int,
)
    requires
        is_container_of(ek, pk, random, eph_sk, nonce, container, plain),
        is_recipient(
            key_blob,
            passphrase,
            ek,
            pk,
            ml_kem_encaps(ek, random).0,
            ml_kem_encaps(ek, random).1,
        ),
        0 <= cut < container.len(),
        !cut_is_accepted(
            sender_key(
                ek,
                pk,
                ml_kem_encaps(ek, random).0,
                ml_kem_encaps(ek, random).1,
                eph_sk,
                nonce,
            ),
            nonce,
            0,
            plain,
            cut - HEADER_LEN,
        ),
    ensures
        ({
            let (out, r) = decode_container(key_blob, passphrase, container.take(cut));
            &&& r == Err::<(), CryptoError>(CryptoError::BadContainer)
            &&& exists|k: nat| #[trigger] is_whole_chunks(plain, out, k)
            &&& cut <= HEADER_LEN ==> out == Seq::<u8>::empty()
        }),
{
    lemma_parts_for_recipient(
        ek,
        pk,
        random,
        eph_sk,
        nonce,
        container,
        plain,
        key_blob,
        passphrase,
    );
    let (kem_ct, kem_shared) = ml_kem_encaps(ek, random);
    let eph_pk = p384_public(eph_sk)->0;
    let key = sender_key(ek, pk, kem_ct, kem_shared, eph_sk, nonce);
    let body = seal_chunks(key, nonce, 0, plain);
    let header = encode_header(kem_ct, eph_pk, nonce);
    let short = container.take(cut);
    let out = decode_container(key_blob, passphrase, short).0;
    assert(plain.take(0) =~= Seq::<u8>::empty());
    assert(is_whole_chunks(plain, Seq::empty(), 0));
    if cut < HEADER_LEN {
        lemma_short_header(header, body, cut);
        assert(is_whole_chunks(plain, out, 0));
    } else {
        let rest = body.take(cut - HEADER_LEN);
        assert(short =~= header + rest);
        law_header_round_trip(kem_ct, eph_pk, nonce, rest);
        law_truncation_is_noticed(key, nonce, 0, plain, cut - HEADER_LEN);
        let k = choose|k: nat| #[trigger]
            is_whole_chunks(plain, open_chunks(key, nonce, 0, rest).0, k);
        assert(is_whole_chunks(plain, out, k));
    }
}

/// A container that is meant for somebody else is refused as damaged, and nothing comes out of it,
/// unless the cipher accepts its first chunk under the key that the wrong private keys give.
pub proof fn law_foreign_container_is_refused(
    key_blob: Seq<u8>,
    passphrase: Seq<u8>,
    dk: Seq<u8>,
    sk: Seq<u8>,
    container: Seq<u8>,
)
    requires
        decode_private(key_blob, passphrase) == Ok::<(Seq<u8>, Seq<u8>), CryptoError>((dk, sk)),
        dk.len() == KEM_DK_LEN,
        p384_public(sk) is Some,
        split_header(container) matches Some((kem_ct, eph_pk, nonce, body)) ==> header_usable(
            kem_ct,
            eph_pk,
        ) ==> !first_chunk_accepted(recipient_key(dk, sk, kem_ct, eph_pk, nonce), nonce, body),
    ensures
        decode_container(key_blob, passphrase, container) == (
            Seq::<u8>::empty(),
            Err::<(), CryptoError>(CryptoError::BadContainer),
        ),
{
    if let Some((kem_ct, eph_pk, nonce, body)) = split_header(container) {
        if header_usable(kem_ct, eph_pk) {
            lemma_refused_first_chunk(recipient_key(dk, sk, kem_ct, eph_pk, nonce), nonce, body);
        }
    }
}

/// With a passphrase that has another normal form than that of a new key pair, a container with a
/// usable header is refused as one with a wrong passphrase, and nothing comes out of it, unless the
/// cipher accepts the private file under the key that the wrong passphrase gives.
pub proof fn law_wrong_passphrase_gives_nothing(
    passphrase: Seq<u8>,
    dk: Seq<u8>,
    sk: Seq<u8>,
    salt: Seq<u8>,
    key_nonce: Seq<u8>,
    public_file: Seq<u8>,
    private_file: Seq<u8>,
    other: Seq<u8>,
    container: Seq<u8>,
)
    requires
        is_key_pair(passphrase, dk, sk, salt, key_nonce, public_file, private_file),
        valid_utf8(other),
        normalized(other).len() <= 0xFFFF_FFFF,
        normalized(other) != normalized(passphrase),
        private_content(private_file, file_kek(private_file, other)) is None,
        split_header(container) matches Some((kem_ct, eph_pk, _, _)) && header_usable(
            kem_ct,
            eph_pk,
        ),
    ensures
        decode_container(private_file, other, container) == (
            Seq::<u8>::empty(),
            Err::<(), CryptoError>(CryptoError::BadPassphrase),
        ),
{
    law_wrong_passphrase_is_refused(
        passphrase,
        dk,
        sk,
        salt,
        key_nonce,
        public_file,
        private_file,
        other,
    );
}

} // verus!
