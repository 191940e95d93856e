//! The encryption and decryption of whole files, at once or piece by piece.

use crate::body::{encrypt_chunks, BodyOpener, BodyStep, OpenState, ReadOutcome};
use crate::chunks::{
    chunk_count, chunks_open, chunks_reseal, is_sealing_of, law_authentic_body_is_a_sealing,
    seal_chunks, CHUNK_OVERHEAD,
};
use crate::container::{
    decode_container, encode_container, fresh_parts, is_new_container, keys_agree,
    law_container_key_is_derived_from_both_secrets, law_recipients_read, recipient_key,
    recipients_read, resume_container, sender_key, start_container,
};
use crate::error::CryptoError;
use crate::fresh::{drawn_bytes, drawn_encapsulation, drawn_scalar};
use crate::header::{
    encode_header, header_need, law_complete_header_is_readable, law_header_is_canonical,
    law_header_is_read_exactly, law_header_round_trip, spec_header_need, split_header, take_header,
    ContainerHeader,
};
use crate::keyfile::{decode_private, usable_public};
use crate::primitives::{
    hkdf_sha256, ml_kem_encaps, p384_dh, p384_point_valid, p384_public, sha256, KEM_CT_LEN,
    NONCE_LEN, P384_POINT_LEN,
};
use crate::secure::SecureBuf;
use crate::wire::{law_le32_round_trip, push_all, take_exact, Need};
use vstd::prelude::*;

verus! {

/// What encryption appends: a container made with fresh parts, of which the cipher opens every
/// chunk, in which every recipient that finds the encapsulated secret reads the plaintext, and
/// which is longer than the plaintext by the header and 20 bytes for each chunk.
pub open spec fn is_container_of(
    ek: Seq<u8>,
    pk: Seq<u8>,
    random: Seq<u8>,
    eph_sk: Seq<u8>,
    nonce: Seq<u8>,
    container: Seq<u8>,
    plain: Seq<u8>,
) -> bool {
    let (kem_ct, kem_shared) = ml_kem_encaps(ek, random);
    &&& fresh_parts(random, eph_sk, nonce)
    &&& container == encode_container(ek, pk, kem_ct, kem_shared, eph_sk, nonce, plain)
    &&& kem_ct.len() == KEM_CT_LEN
    &&& (p384_public(eph_sk)->0).len() == P384_POINT_LEN
    &&& p384_point_valid(p384_public(eph_sk)->0)
    &&& keys_agree(eph_sk, pk)
    &&& container.len() == 4 + 4 + KEM_CT_LEN + 4 + P384_POINT_LEN + NONCE_LEN + plain.len()
        + CHUNK_OVERHEAD * chunk_count(plain.len())
    &&& chunks_open(sender_key(ek, pk, kem_ct, kem_shared, eph_sk, nonce), nonce, 0, plain)
    &&& recipients_read(ek, pk, kem_ct, kem_shared, container, plain)
}

/// A container is its header followed by the chunks of the plaintext, numbered from zero and sealed
/// under the key that HKDF-SHA256 makes of the encapsulated secret followed by the secret of the
/// curve.
pub proof fn law_container_is_header_and_chunks(
    ek: Seq<u8>,
    pk: Seq<u8>,
    random: Seq<u8>,
    eph_sk: Seq<u8>,
    nonce: Seq<u8>,
    container: Seq<u8>,
    plain: Seq<u8>,
)
    requires
        is_container_of(ek, pk, random, eph_sk, nonce, container, plain),
    ensures
        ({
            let header = encode_header(ml_kem_encaps(ek, random).0, p384_public(eph_sk)->0, nonce);
            container == header + seal_chunks(
                hkdf_sha256(
                    ml_kem_encaps(ek, random).1 + p384_dh(eph_sk, pk),
                    seq![
                        104u8, 121u8, 98u8, 114u8, 105u8, 100u8, 99u8, 114u8, 121u8, 112u8, 116u8,
                        45u8, 118u8, 51u8,
                    ] + header + sha256(ek + pk),
                    32,
                ),
                nonce,
                0,
                plain,
            )
        }),
        ml_kem_encaps(ek, random).0.len() == 1568,
        (p384_public(eph_sk)->0).len() == 97,
        nonce.len() == 12,
        random.len() == 32,
        eph_sk.len() == 48,
{
    law_container_key_is_derived_from_both_secrets(
        ek,
        pk,
        ml_kem_encaps(ek, random).0,
        ml_kem_encaps(ek, random).1,
        eph_sk,
        Seq::empty(),
        Seq::empty(),
        Seq::empty(),
        nonce,
    );
}

/// Encrypts `input` for the recipient of a public key file and appends the container to
/// `output`. Fails exactly where the public key file cannot be used, and then writes nothing.
pub fn encrypt_stream(
    recipient_public_blob: &[u8],
    input: &[u8],
    output: &mut Vec<u8>,
) -> (r: Result<(), CryptoError>)
    ensures
        r == (if usable_public(recipient_public_blob@) is Some {
            Ok::<(), CryptoError>(())
        } else {
            Err::<(), CryptoError>(CryptoError::BadKeyFile)
        }),
        r is Err ==> final(output)@ == old(output)@,
        r is Ok ==> exists|random: Seq<u8>, eph_sk: Seq<u8>, nonce: Seq<u8>, container: Seq<u8>|
            {
                &&& #[trigger] is_container_of(
                    (usable_public(recipient_public_blob@)->0).0,
                    (usable_public(recipient_public_blob@)->0).1,
                    random,
                    eph_sk,
                    nonce,
                    container,
                    input@,
                )
                &&& final(output)@ == old(output)@ + container
                &&& drawn_bytes(nonce)
                &&& drawn_scalar(eph_sk)
                &&& drawn_encapsulation(
                    (usable_public(recipient_public_blob@)->0).0,
                    ml_kem_encaps((usable_public(recipient_public_blob@)->0).0, random).0,
                    ml_kem_encaps((usable_public(recipient_public_blob@)->0).0, random).1,
                )
            },
{
    let ghost start = output@;
    let stream = match start_container(recipient_public_blob, output) {
        Ok(stream) => stream,
        Err(e) => return Err(e),
    };
    let ghost (ek, pk) = usable_public(recipient_public_blob@)->0;
    let ghost key = stream.key();
    let ghost nonce = stream.base();
    let ghost (random, eph_sk, header): (Seq<u8>, Seq<u8>, Seq<u8>) = choose|
        random: Seq<u8>,
        eph_sk: Seq<u8>,
        header: Seq<u8>,
    |
        #[trigger] is_new_container(ek, pk, random, eph_sk, nonce, header, key) && output@ == start
            + header && drawn_bytes(nonce) && drawn_scalar(eph_sk) && drawn_encapsulation(
            ek,
            ml_kem_encaps(ek, random).0,
            ml_kem_encaps(ek, random).1,
        );
    match encrypt_chunks(stream, input, output) {
        Ok(()) => {},
        Err(e) => return Err(e),
    }
    proof {
        let (kem_ct, kem_shared) = ml_kem_encaps(ek, random);
        let body = seal_chunks(key, nonce, 0, input@);
        let container = header + body;
        law_recipients_read(ek, pk, kem_ct, kem_shared, eph_sk, nonce, input@);
        law_le32_round_trip(kem_ct.len() as u32);
        law_le32_round_trip(P384_POINT_LEN as u32);
        assert(output@ =~= start + container);
        assert(is_container_of(ek, pk, random, eph_sk, nonce, container, input@));
    }
    Ok(())
}

/// What to do next with a container that is decrypted.
#[derive(Clone, Copy, Debug, PartialEq, Eq, Structural)]
pub enum DecryptStep {
    /// Read some bytes of the container, at most so many.
    Read(usize),
    /// Open the private key file with the passphrase. The header is there and can be read.
    Unlock,
    /// Write the plaintext that is ready.
    Write,
    /// Nothing: all is done.
    Finished,
    /// Give up.
    Failed(CryptoError),
}

/// Where a decryption stands.
pub enum DecryptPhase {
    /// The header is being read.
    Header,
    /// The header was read, and the key file is not opened yet.
    Locked(ContainerHeader),
    /// The body is being read.
    Body(BodyOpener),
    /// The container cannot be decrypted.
    Failed(CryptoError),
}

/// Decrypts a container that is read piece by piece.
pub struct Decryptor {
    raw: Vec<u8>,
    phase: DecryptPhase,
}

/// Sealing gives back what the private keys of the key file open in the body of a container.
pub open spec fn container_reseals(
    key_blob: Seq<u8>,
    passphrase: Seq<u8>,
    container: Seq<u8>,
) -> bool {
    match (split_header(container), decode_private(key_blob, passphrase)) {
        (Some((kem_ct, eph_pk, nonce, body)), Ok((dk, sk))) => chunks_reseal(
            recipient_key(dk, sk, kem_ct, eph_pk, nonce),
            nonce,
            0,
            body,
        ),
        _ => false,
    }
}

impl Decryptor {
    /// What was read of the header.
    pub closed spec fn raw(&self) -> Seq<u8> {
        self.raw@
    }

    /// Where the decryption stands.
    pub closed spec fn phase(&self) -> DecryptPhase {
        self.phase
    }

    /// While the header is being read, more of it is needed; once it was read, nothing behind it
    /// was.
    pub open spec fn wf(&self) -> bool {
        match self.phase() {
            DecryptPhase::Header => spec_header_need(self.raw()) is More,
            DecryptPhase::Locked(h) => split_header(self.raw()) == Some(
                (h.kem_ct@, h.eph_pk@, h.base_nonce@, Seq::<u8>::empty()),
            ),
            DecryptPhase::Body(b) => b.wf(),
            DecryptPhase::Failed(_) => true,
        }
    }

    /// What still comes of the container with this key file and this passphrase when `rest` is
    /// still to be read: the plaintext still to be written, and the outcome.
    pub open spec fn outcome(&self, key_blob: Seq<u8>, passphrase: Seq<u8>, rest: Seq<u8>) -> (
        Seq<u8>,
        Result<(), CryptoError>,
    ) {
        match self.phase() {
            DecryptPhase::Header => decode_container(key_blob, passphrase, self.raw() + rest),
            DecryptPhase::Locked(_) => decode_container(key_blob, passphrase, self.raw() + rest),
            DecryptPhase::Body(b) => b.outcome(rest),
            DecryptPhase::Failed(e) => (Seq::empty(), Err(e)),
        }
    }

    /// Sealing gives back what is still to be opened.
    pub open spec fn reseals(
        &self,
        key_blob: Seq<u8>,
        passphrase: Seq<u8>,
        rest: Seq<u8>,
    ) -> bool {
        match self.phase() {
            DecryptPhase::Header => container_reseals(key_blob, passphrase, self.raw() + rest),
            DecryptPhase::Locked(_) => container_reseals(key_blob, passphrase, self.raw() + rest),
            DecryptPhase::Body(b) => b.reseals(rest),
            DecryptPhase::Failed(_) => false,
        }
    }

    /// What to do next.
    pub open spec fn next_step(&self) -> DecryptStep {
        match self.phase() {
            DecryptPhase::Header => match spec_header_need(self.raw()) {
                Need::More(n) => DecryptStep::Read(n),
                _ => DecryptStep::Failed(CryptoError::BadContainer),
            },
            DecryptPhase::Locked(_) => DecryptStep::Unlock,
            DecryptPhase::Body(b) => match b.next_step() {
                BodyStep::Read(n) => DecryptStep::Read(n),
                BodyStep::Write => DecryptStep::Write,
                BodyStep::Finished => DecryptStep::Finished,
                BodyStep::Failed(e) => DecryptStep::Failed(e),
            },
            DecryptPhase::Failed(e) => DecryptStep::Failed(e),
        }
    }

    /// A lower bound for the bytes of the body that were read.
    pub open spec fn body_read(&self) -> int {
        match self.phase() {
            DecryptPhase::Body(b) => match b.state() {
                OpenState::Reading => b.counter() * CHUNK_OVERHEAD + b.pending().len(),
                OpenState::Writing { last: false } => b.counter() * CHUNK_OVERHEAD
                    + b.pending().len(),
                _ => 0,
            },
            _ => 0,
        }
    }

    /// Whether the plaintext of the last chunk is ready to be written.
    pub open spec fn is_last(&self) -> bool {
        self.phase() matches DecryptPhase::Body(b) && b.state() == (OpenState::Writing {
            last: true,
        })
    }

    /// Whether the numbers of chunks are used up.
    pub open spec fn is_exhausted(&self) -> bool {
        match self.phase() {
            DecryptPhase::Body(b) => b.counter() == u64::MAX,
            _ => false,
        }
    }

    /// Until the key file is opened, what comes is what comes of the container that was read so far
    /// and is still to be read; then it is what comes of its body; and nothing comes after a
    /// failure.
    pub proof fn law_all_that_is_read_is_decrypted(
        &self,
        key_blob: Seq<u8>,
        passphrase: Seq<u8>,
        rest: Seq<u8>,
    )
        ensures
            match self.phase() {
                DecryptPhase::Body(b) => self.outcome(key_blob, passphrase, rest) == b.outcome(
                    rest,
                ),
                DecryptPhase::Failed(e) => self.outcome(key_blob, passphrase, rest) == (
                    Seq::<u8>::empty(),
                    Err::<(), CryptoError>(e),
                ),
                _ => self.outcome(key_blob, passphrase, rest) == decode_container(
                    key_blob,
                    passphrase,
                    self.raw() + rest,
                ),
            },
    {
    }

    /// A decryption that has read nothing yet.
    pub fn new() -> (r: Decryptor)
        ensures
            r.wf(),
            r.raw() == Seq::<u8>::empty(),
            r.phase() is Header,
    {
        Decryptor { raw: Vec::new(), phase: DecryptPhase::Header }
    }

    /// What to do next.
    pub fn step(&self) -> (r: DecryptStep)
        requires
            self.wf(),
        ensures
            r == self.next_step(),
            r matches DecryptStep::Read(n) ==> n > 0,
            r is Unlock <==> self.phase() is Locked,
            self.phase() is Header ==> r is Read,
            self.phase() matches DecryptPhase::Failed(e) ==> r == DecryptStep::Failed(e),
    {
        match &self.phase {
            DecryptPhase::Header => {
                proof {
                    law_header_is_read_exactly(self.raw@, Seq::empty());
                }
                match header_need(self.raw.as_slice()) {
                    Need::More(n) => DecryptStep::Read(n),
                    _ => DecryptStep::Failed(CryptoError::BadContainer),
                }
            },
            DecryptPhase::Locked(_) => DecryptStep::Unlock,
            DecryptPhase::Body(b) => match b.step() {
                BodyStep::Read(n) => DecryptStep::Read(n),
                BodyStep::Write => DecryptStep::Write,
                BodyStep::Finished => DecryptStep::Finished,
                BodyStep::Failed(e) => DecryptStep::Failed(e),
            },
            DecryptPhase::Failed(e) => DecryptStep::Failed(*e),
        }
    }

    /// Whether the numbers of chunks are used up, so that nothing more can be read.
    pub fn exhausted(&self) -> (r: bool)
        requires
            self.wf(),
        ensures
            r == self.is_exhausted(),
    {
        match &self.phase {
            DecryptPhase::Body(b) => b.chunk_number() == u64::MAX,
            _ => false,
        }
    }

    /// A piece of the header was read, no more than was asked for.
    fn take_header_piece(&mut self, piece: &[u8])
        requires
            old(self).wf(),
            old(self).phase() is Header,
            0 < piece@.len() <= old(self).next_step()->Read_0,
        ensures
            final(self).wf(),
            final(self).phase() !is Body,
            final(self).phase() is Header ==> final(self).raw() == old(self).raw() + piece@,
            forall|key_blob: Seq<u8>, passphrase: Seq<u8>, rest: Seq<u8>| #[trigger]
                final(self).outcome(key_blob, passphrase, rest) == old(self).outcome(
                    key_blob,
                    passphrase,
                    piece@ + rest,
                ),
            forall|key_blob: Seq<u8>, passphrase: Seq<u8>, rest: Seq<u8>| #[trigger]
                final(self).reseals(key_blob, passphrase, rest) ==> old(self).reseals(
                    key_blob,
                    passphrase,
                    piece@ + rest,
                ),
    {
        let ghost before = self.raw@;
        push_all(&mut self.raw, piece);
        let ghost all = self.raw@;
        proof {
            assert forall|rest: Seq<u8>| #[trigger] (all + rest) == before + (piece@ + rest) by {
                assert(all + rest =~= before + (piece@ + rest));
            }
            law_header_is_read_exactly(before, piece@);
            law_complete_header_is_readable(all);
        }
        match header_need(self.raw.as_slice()) {
            Need::More(_) => {},
            Need::Bad => {
                self.phase = DecryptPhase::Failed(CryptoError::BadContainer);
                proof {
                    assert forall|rest: Seq<u8>| split_header(#[trigger] (all + rest)) is None by {
                        law_header_is_read_exactly(all, rest);
                    }
                }
            },
            Need::Complete => {
                let mut cursor: &[u8] = self.raw.as_slice();
                match take_header(&mut cursor) {
                    Ok(header) => {
                        assert(cursor@ =~= Seq::<u8>::empty());
                        self.phase = DecryptPhase::Locked(header);
                    },
                    Err(e) => {
                        self.phase = DecryptPhase::Failed(e);
                    },
                }
            },
        }
        proof {
            assert forall|key_blob: Seq<u8>, passphrase: Seq<u8>, rest: Seq<u8>| #[trigger]
                self.outcome(key_blob, passphrase, rest) == old(self).outcome(
                    key_blob,
                    passphrase,
                    piece@ + rest,
                ) by {
                assert(all + rest == before + (piece@ + rest));
            }
            assert forall|key_blob: Seq<u8>, passphrase: Seq<u8>, rest: Seq<u8>| #[trigger]
                self.reseals(key_blob, passphrase, rest) implies old(self).reseals(
                key_blob,
                passphrase,
                piece@ + rest,
            ) by {
                assert(all + rest == before + (piece@ + rest));
            }
        }
    }

    /// Takes account of a read. An interrupted read changes nothing; what was read makes no
    /// difference to what comes of the container, in whatever pieces it comes; the input may end
    /// only behind the last chunk; a failed read ends everything.
    pub fn advance(&mut self, outcome: ReadOutcome, bytes: &[u8])
        requires
            old(self).wf(),
            old(self).next_step() is Read,
            !old(self).is_exhausted(),
            outcome matches ReadOutcome::Bytes(m) ==> m <= bytes@.len() && m
                <= old(self).next_step()->Read_0,
        ensures
            final(self).wf(),
            match outcome {
                ReadOutcome::Interrupted => {
                    &&& final(self).next_step() == old(self).next_step()
                    &&& forall|key_blob: Seq<u8>, passphrase: Seq<u8>, rest: Seq<u8>| #[trigger]
                        final(self).outcome(key_blob, passphrase, rest) == old(self).outcome(
                            key_blob,
                            passphrase,
                            rest,
                        )
                },
                ReadOutcome::Failed => final(self).next_step() == DecryptStep::Failed(
                    CryptoError::Io,
                ),
                ReadOutcome::Bytes(m) => {
                    let piece = bytes@.take(m as int);
                    &&& forall|key_blob: Seq<u8>, passphrase: Seq<u8>, rest: Seq<u8>|
                        (m == 0 ==> rest == Seq::<u8>::empty())
                            ==> #[trigger] final(self).outcome(key_blob, passphrase, rest)
                            == old(self).outcome(key_blob, passphrase, piece + rest)
                    &&& forall|key_blob: Seq<u8>, passphrase: Seq<u8>, rest: Seq<u8>|
                        (m == 0 ==> rest == Seq::<u8>::empty())
                            && #[trigger] final(self).reseals(key_blob, passphrase, rest)
                            ==> old(self).reseals(key_blob, passphrase, piece + rest)
                    &&& m == 0 ==> final(self).is_last() || final(self).next_step() is Failed
                    &&& final(self).body_read() <= old(self).body_read() + m
                },
            },
    {
        let ghost before = *self;
        match &mut self.phase {
            DecryptPhase::Body(b) => {
                b.advance(outcome, bytes);
                proof {
                    if let ReadOutcome::Bytes(m) = outcome {
                        if m == 0 {
                            assert(bytes@.take(0) + Seq::<u8>::empty() =~= Seq::<u8>::empty());
                        }
                    }
                }
            },
            _ => match outcome {
                ReadOutcome::Interrupted => {},
                ReadOutcome::Failed => {
                    self.phase = DecryptPhase::Failed(CryptoError::Io);
                },
                ReadOutcome::Bytes(m) => {
                    if m == 0 {
                        self.phase = DecryptPhase::Failed(CryptoError::BadContainer);
                        proof {
                            let none = Seq::<u8>::empty();
                            law_complete_header_is_readable(before.raw());
                            assert(before.raw() + (bytes@.take(0) + none) =~= before.raw());
                        }
                    } else {
                        let (piece, _rest) = bytes.split_at(m);
                        assert(piece@ =~= bytes@.take(m as int));
                        self.take_header_piece(piece);
                    }
                },
            },
        }
    }

    /// Opens the private key file, once the header is there: whatever then comes is what comes with
    /// that key file and that passphrase.
    pub fn unlock(&mut self, encrypted_private_blob: &[u8], passphrase: &SecureBuf)
        requires
            old(self).wf(),
            old(self).next_step() is Unlock,
            passphrase.wf(),
        ensures
            final(self).wf(),
            final(self).next_step() is Read || final(self).next_step() is Failed,
            forall|rest: Seq<u8>| #[trigger]
                final(self).outcome(encrypted_private_blob@, passphrase@, rest)
                    == old(self).outcome(encrypted_private_blob@, passphrase@, rest),
            forall|rest: Seq<u8>| #[trigger]
                final(self).reseals(encrypted_private_blob@, passphrase@, rest)
                    ==> old(self).reseals(encrypted_private_blob@, passphrase@, rest),
            final(self).body_read() == 0,
    {
        let ghost before = *self;
        proof {
            lemma_header_then_rest(self.raw@);
        }
        let next = match &self.phase {
            DecryptPhase::Locked(header) => match resume_container(
                encrypted_private_blob,
                passphrase,
                header,
            ) {
                Ok(stream) => DecryptPhase::Body(BodyOpener::new(stream)),
                Err(e) => DecryptPhase::Failed(e),
            },
            _ => DecryptPhase::Failed(CryptoError::Internal),
        };
        self.phase = next;
        proof {
            assert forall|rest: Seq<u8>| #[trigger]
                self.outcome(encrypted_private_blob@, passphrase@, rest) == before.outcome(
                    encrypted_private_blob@,
                    passphrase@,
                    rest,
                ) by {
                assert(Seq::<u8>::empty() + rest =~= rest);
                assert(split_header(before.raw() + rest) is Some);
            }
            assert forall|rest: Seq<u8>| #[trigger]
                self.reseals(encrypted_private_blob@, passphrase@, rest) implies before.reseals(
                encrypted_private_blob@,
                passphrase@,
                rest,
            ) by {
                assert(Seq::<u8>::empty() + rest =~= rest);
                assert(split_header(before.raw() + rest) is Some);
            }
        }
    }

    /// The plaintext that is ready to be written.
    pub open spec fn ready(&self) -> Seq<u8> {
        match self.phase() {
            DecryptPhase::Body(b) => b.chunk(),
            _ => Seq::empty(),
        }
    }

    /// The plaintext that is ready to be written.
    pub fn plain(&self) -> (r: &[u8])
        requires
            self.wf(),
            self.next_step() is Write,
        ensures
            r@ == self.ready(),
    {
        match &self.phase {
            DecryptPhase::Body(b) => b.plain(),
            _ => self.raw.as_slice(),
        }
    }

    /// The plaintext that was ready is written, and wiped here.
    pub fn written(&mut self)
        requires
            old(self).wf(),
            old(self).next_step() is Write,
        ensures
            final(self).wf(),
            final(self).ready().len() == 0,
            final(self).next_step() !is Write,
            final(self).next_step() !is Unlock,
            final(self).next_step() is Finished <==> old(self).is_last(),
            final(self).body_read() <= old(self).body_read(),
            forall|key_blob: Seq<u8>, passphrase: Seq<u8>, rest: Seq<u8>|
                {
                    &&& old(self).outcome(key_blob, passphrase, rest).0 == old(self).ready() + (
                    #[trigger] final(self).outcome(key_blob, passphrase, rest)).0
                    &&& old(self).outcome(key_blob, passphrase, rest).1 == final(self).outcome(
                        key_blob,
                        passphrase,
                        rest,
                    ).1
                },
            forall|key_blob: Seq<u8>, passphrase: Seq<u8>, rest: Seq<u8>| #[trigger]
                final(self).reseals(key_blob, passphrase, rest) ==> old(self).reseals(
                    key_blob,
                    passphrase,
                    rest,
                ),
    {
        match &mut self.phase {
            DecryptPhase::Body(b) => b.written(),
            _ => {},
        }
    }
}

/// What follows a complete header is the body.
proof fn lemma_header_then_rest(raw: Seq<u8>)
    ensures
        split_header(raw) matches Some((kem_ct, eph_pk, nonce, body)) ==> {
            &&& nonce.len() == NONCE_LEN
            &&& body.len() == 0 ==> forall|rest: Seq<u8>|
                split_header(#[trigger] (raw + rest)) == Some((kem_ct, eph_pk, nonce, rest))
        },
{
    if let Some((kem_ct, eph_pk, nonce, body)) = split_header(raw) {
        law_header_is_canonical(raw);
        if body.len() == 0 {
            let header = encode_header(kem_ct, eph_pk, nonce);
            assert(header + body =~= header);
            assert forall|rest: Seq<u8>| split_header(#[trigger] (raw + rest)) == Some(
                (kem_ct, eph_pk, nonce, rest),
            ) by {
                law_header_round_trip(kem_ct, eph_pk, nonce, rest);
            }
        }
    }
}

/// Decrypts the container `input` and appends to `output` the plaintext of all chunks up to the
/// first that is not authentic. Where it succeeds, the body of the container is nothing but the
/// sealing of the chunks that make up the plaintext.
pub fn decrypt_stream(
    encrypted_private_blob: &[u8],
    passphrase: &SecureBuf,
    input: &[u8],
    output: &mut Vec<u8>,
) -> (r: Result<(), CryptoError>)
    requires
        passphrase.wf(),
    ensures
        final(output)@ == old(output)@ + decode_container(
            encrypted_private_blob@,
            passphrase@,
            input@,
        ).0,
        r == decode_container(encrypted_private_blob@, passphrase@, input@).1,
        r is Ok ==> match (
            split_header(input@),
            decode_private(encrypted_private_blob@, passphrase@),
        ) {
            (Some((kem_ct, eph_pk, nonce, body)), Ok((dk, sk))) => exists|chunks: Seq<Seq<u8>>|
                #[trigger] is_sealing_of(
                    recipient_key(dk, sk, kem_ct, eph_pk, nonce),
                    nonce,
                    0,
                    body,
                    decode_container(encrypted_private_blob@, passphrase@, input@).0,
                    chunks,
                ),
            _ => false,
        },
{
    let ghost key_blob = encrypted_private_blob@;
    let ghost typed = passphrase@;
    let ghost start = output@;
    let ghost all = decode_container(key_blob, typed, input@);
    let total: usize = input.len();
    let mut decryptor = Decryptor::new();
    let mut cursor: &[u8] = input;
    let mut ended: bool = false;
    proof {
        assert(decryptor.raw() + input@ =~= input@);
        assert(output@ == start);
    }
    loop
        invariant
            key_blob == encrypted_private_blob@,
            typed == passphrase@,
            passphrase.wf(),
            total == input@.len(),
            start == old(output)@,
            all == decode_container(key_blob, typed, input@),
            decryptor.wf(),
            decryptor.body_read() + cursor@.len() <= total,
            ended ==> cursor@.len() == 0 && (decryptor.is_last()
                || decryptor.next_step() is Finished || decryptor.next_step() is Failed),
            start + all.0 == output@ + decryptor.outcome(key_blob, typed, cursor@).0,
            all.1 == decryptor.outcome(key_blob, typed, cursor@).1,
            decryptor.reseals(key_blob, typed, cursor@) ==> container_reseals(
                key_blob,
                typed,
                input@,
            ),
        decreases
                4 * cursor@.len() + (match decryptor.next_step() {
                    DecryptStep::Unlock => 3int,
                    DecryptStep::Write => if ended {
                        1int
                    } else {
                        3int
                    },
                    DecryptStep::Read(_) => 2int,
                    _ => 0int,
                }),
    {
        let ghost rest = cursor@;
        let ghost before = decryptor;
        match decryptor.step() {
            DecryptStep::Read(want) => {
                let n: usize = if cursor.len() < want {
                    cursor.len()
                } else {
                    want
                };
                if let Some(piece) = take_exact(&mut cursor, n) {
                    decryptor.advance(ReadOutcome::Bytes(n), piece);
                    if n == 0 {
                        ended = true;
                    }
                    proof {
                        assert(piece@.take(n as int) =~= piece@);
                        assert(rest =~= piece@ + cursor@);
                        if n == 0 {
                            assert(cursor@ =~= Seq::<u8>::empty());
                        }
                        assert(decryptor.outcome(key_blob, typed, cursor@) == before.outcome(
                            key_blob,
                            typed,
                            rest,
                        ));
                    }
                }
            },
            DecryptStep::Unlock => {
                decryptor.unlock(encrypted_private_blob, passphrase);
                assert(decryptor.outcome(key_blob, typed, rest) == before.outcome(
                    key_blob,
                    typed,
                    rest,
                ));
            },
            DecryptStep::Write => {
                let ghost written = output@;
                push_all(output, decryptor.plain());
                decryptor.written();
                proof {
                    let after = decryptor.outcome(key_blob, typed, rest);
                    assert(before.outcome(key_blob, typed, rest).0 == before.ready() + after.0);
                    assert(written + (before.ready() + after.0) =~= output@ + after.0);
                }
            },
            DecryptStep::Finished => {
                assert(output@ + Seq::<u8>::empty() =~= output@);
                proof {
                    let (kem_ct, eph_pk, nonce, body) = split_header(input@)->0;
                    let (dk, sk) = decode_private(key_blob, typed)->Ok_0;
                    let key = recipient_key(dk, sk, kem_ct, eph_pk, nonce);
                    assert(container_reseals(key_blob, typed, input@));
                    law_authentic_body_is_a_sealing(key, nonce, 0, body);
                }
                return Ok(());
            },
            DecryptStep::Failed(e) => {
                assert(output@ + Seq::<u8>::empty() =~= output@);
                return Err(e);
            },
        }
    }
}

} // verus!
