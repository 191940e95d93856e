//! What has to be fresh for every key pair and every container, drawn from the generators of the
//! system and of the two schemes. That nothing is ever drawn twice is a matter of chance.

use crate::primitives::{
    ml_kem_encaps, ml_kem_encapsulate, ml_kem_generate, ml_kem_public, p384_generate, p384_public,
    random_bytes, KEM_CT_LEN, KEM_DK_LEN, KEM_EK_LEN, KEM_SHARED_LEN, P384_SCALAR_LEN,
};
use crate::secure::SecureBuf;
use vstd::prelude::*;

verus! {

// ---------------------------------------------------------------------------
// What was drawn
// ---------------------------------------------------------------------------

/// These bytes were drawn as random ones.
pub closed spec fn drawn_bytes(bytes: Seq<u8>) -> bool {
    exists|n: usize, r: Vec<u8>| r@ == bytes && #[trigger] call_ensures(fresh_bytes, (n,), r)
}

/// This secret key of P-384 was drawn.
pub closed spec fn drawn_scalar(scalar: Seq<u8>) -> bool {
    exists|r: SecureBuf| r@ == scalar && #[trigger] call_ensures(fresh_scalar, (), r)
}

/// This key pair of ML-KEM-1024 was drawn.
pub closed spec fn drawn_kem_pair(dk: Seq<u8>, ek: Seq<u8>) -> bool {
    exists|r: (SecureBuf, Vec<u8>)|
        r.0@ == dk && r.1@ == ek && #[trigger] call_ensures(fresh_kem_pair, (), r)
}

/// This encapsulated key and this shared secret were drawn for the encapsulation key `ek`.
pub closed spec fn drawn_encapsulation(ek: Seq<u8>, ct: Seq<u8>, shared: Seq<u8>) -> bool {
    exists|k: &[u8], r: (Vec<u8>, SecureBuf)|
        {
            &&& k@ == ek
            &&& r.0@ == ct
            &&& r.1@ == shared
            &&& #[trigger] call_ensures(fresh_encapsulation, (k,), r)
        }
}

/// Random bytes come from the generator of the operating system.
pub(crate) proof fn law_bytes_come_from_the_system(bytes: Seq<u8>)
    requires
        drawn_bytes(bytes),
    ensures
        exists|o: &mut [u8]|
            final(o)@ == bytes && #[trigger] call_ensures(random_bytes, (o,), ()),
{
}

/// Secret keys of P-384 come from its generator.
pub(crate) proof fn law_scalars_come_from_the_curve(scalar: Seq<u8>)
    requires
        drawn_scalar(scalar),
    ensures
        exists|o: &mut [u8]|
            final(o)@ == scalar && #[trigger] call_ensures(p384_generate, (o,), ()),
{
}

/// Key pairs of ML-KEM come from its generator.
pub(crate) proof fn law_kem_pairs_come_from_the_scheme(dk: Seq<u8>, ek: Seq<u8>)
    requires
        drawn_kem_pair(dk, ek),
    ensures
        ek == ml_kem_public(dk),
        exists|o: &mut [u8], e: Vec<u8>|
            final(o)@ == dk && e@ == ek && #[trigger] call_ensures(ml_kem_generate, (o,), e),
{
}

/// Encapsulated keys and their secrets come from the scheme, asked with the encapsulation key.
pub(crate) proof fn law_encapsulations_come_from_the_scheme(
    ek: Seq<u8>,
    ct: Seq<u8>,
    shared: Seq<u8>,
)
    requires
        drawn_encapsulation(ek, ct, shared),
    ensures
        exists|k: &[u8], o: &mut [u8], c: Vec<u8>|
            {
                &&& k@ == ek
                &&& final(o)@ == shared
                &&& c@ == ct
                &&& #[trigger] call_ensures(ml_kem_encapsulate, (k, o), Ok::<Vec<u8>, ()>(c))
            },
{
}

// ---------------------------------------------------------------------------
// Drawing
// ---------------------------------------------------------------------------

fn fresh_bytes(n: usize) -> (r: Vec<u8>)
    ensures
        r@.len() == n,
        exists|o: &mut [u8]| final(o)@ == r@ && #[trigger] call_ensures(random_bytes, (o,), ()),
{
    let mut r: Vec<u8> = vec![0u8; n];
    random_bytes(r.as_mut_slice());
    r
}

fn fresh_scalar() -> (r: SecureBuf)
    ensures
        r.wf(),
        r@.len() == P384_SCALAR_LEN,
        p384_public(r@) is Some,
        exists|o: &mut [u8]| final(o)@ == r@ && #[trigger] call_ensures(p384_generate, (o,), ()),
{
    let mut r = SecureBuf::with_capacity(P384_SCALAR_LEN);
    r.fill_to_capacity();
    p384_generate(r.as_mut_slice());
    r
}

fn fresh_kem_pair() -> (r: (SecureBuf, Vec<u8>))
    ensures
        r.0.wf(),
        r.0@.len() == KEM_DK_LEN,
        r.1@.len() == KEM_EK_LEN,
        r.1@ == ml_kem_public(r.0@),
        exists|o: &mut [u8], e: Vec<u8>|
            final(o)@ == r.0@ && e@ == r.1@ && #[trigger] call_ensures(ml_kem_generate, (o,), e),
{
    let mut dk = SecureBuf::with_capacity(KEM_DK_LEN);
    dk.fill_to_capacity();
    let ek = ml_kem_generate(dk.as_mut_slice());
    (dk, ek)
}

fn fresh_encapsulation(ek: &[u8]) -> (r: (Vec<u8>, SecureBuf))
    requires
        ek@.len() == KEM_EK_LEN,
    ensures
        r.0@.len() == KEM_CT_LEN,
        r.1.wf(),
        r.1@.len() == KEM_SHARED_LEN,
        exists|random: Seq<u8>|
            random.len() == 32 && (r.0@, r.1@) == #[trigger] ml_kem_encaps(ek@, random),
        exists|k: &[u8], o: &mut [u8], c: Vec<u8>|
            {
                &&& k@ == ek@
                &&& final(o)@ == r.1@
                &&& c@ == r.0@
                &&& #[trigger] call_ensures(ml_kem_encapsulate, (k, o), Ok::<Vec<u8>, ()>(c))
            },
{
    let mut shared = SecureBuf::with_capacity(KEM_SHARED_LEN);
    shared.fill_to_capacity();
    match ml_kem_encapsulate(ek, shared.as_mut_slice()) {
        Ok(ct) => (ct, shared),
        Err(_) => (Vec::new(), shared),
    }
}

/// Draws `n` random bytes.
pub(crate) fn draw_bytes(n: usize) -> (r: Vec<u8>)
    ensures
        r@.len() == n,
        drawn_bytes(r@),
{
    fresh_bytes(n)
}

/// Draws a secret key of P-384.
pub(crate) fn draw_scalar() -> (r: SecureBuf)
    ensures
        r.wf(),
        r@.len() == P384_SCALAR_LEN,
        p384_public(r@) is Some,
        drawn_scalar(r@),
{
    fresh_scalar()
}

/// Draws a key pair of ML-KEM-1024: the decapsulation key and the encapsulation key.
pub(crate) fn draw_kem_pair() -> (r: (SecureBuf, Vec<u8>))
    ensures
        r.0.wf(),
        r.0@.len() == KEM_DK_LEN,
        r.1@.len() == KEM_EK_LEN,
        r.1@ == ml_kem_public(r.0@),
        drawn_kem_pair(r.0@, r.1@),
{
    fresh_kem_pair()
}

/// Draws a shared secret and encapsulates it: the encapsulated key and the secret.
pub(crate) fn draw_encapsulation(ek: &[u8]) -> (r: (Vec<u8>, SecureBuf))
    requires
        ek@.len() == KEM_EK_LEN,
    ensures
        r.0@.len() == KEM_CT_LEN,
        r.1.wf(),
        r.1@.len() == KEM_SHARED_LEN,
        exists|random: Seq<u8>|
            random.len() == 32 && (r.0@, r.1@) == #[trigger] ml_kem_encaps(ek@, random),
        drawn_encapsulation(ek@, r.0@, r.1@),
{
    fresh_encapsulation(ek)
}

} // verus!
