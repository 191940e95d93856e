//! The header of a container: how it is written, how it is read, and how much of it is still
//! missing while it comes in piece by piece.

use crate::error::CryptoError;
use crate::primitives::{p384_check_point, p384_point_valid, KEM_CT_LEN, NONCE_LEN};
use crate::wire::{
    bytes_eq, copied, field_need, law_field_is_read_exactly, law_field_need_is_what_is_missing,
    law_limit_decides_on_fields, law_prefix_is_the_length, law_prefixed_is_canonical,
    law_split_prefixed, limited_need, prefixed, push_all, push_u32_prefixed, split_limited,
    split_prefixed, take_exact, take_u32_prefixed, Need,
};
use vstd::prelude::*;

verus! {

/// The first bytes of a container: `HCX3`.
pub const MAGIC_CT: [u8; 4] = [72, 67, 88, 51];

/// The longest first field that a header is read with.
pub const MAX_KEM_FIELD: usize = 4096;

/// The longest second field that a header is read with.
pub const MAX_POINT_FIELD: usize = 256;

// ---------------------------------------------------------------------------
// The parts of a header
// ---------------------------------------------------------------------------

/// A header with these parts.
pub open spec fn encode_header(kem_ct: Seq<u8>, eph_pk: Seq<u8>, nonce: Seq<u8>) -> Seq<u8> {
    MAGIC_CT@ + prefixed(kem_ct) + prefixed(eph_pk) + nonce
}

/// Splits a header off the front of a container: the encapsulated key, the ephemeral point, the
/// base nonce, and what follows the header.
pub open spec fn split_header(s: Seq<u8>) -> Option<(Seq<u8>, Seq<u8>, Seq<u8>, Seq<u8>)> {
    if s.len() < 4 || s.take(4) != MAGIC_CT@ {
        None
    } else {
        match split_limited(s.skip(4), MAX_KEM_FIELD as int) {
            None => None,
            Some((kem_ct, rest)) => match split_limited(rest, MAX_POINT_FIELD as int) {
                None => None,
                Some((eph_pk, rest)) => if rest.len() < NONCE_LEN {
                    None
                } else {
                    Some(
                        (kem_ct, eph_pk, rest.take(NONCE_LEN as int), rest.skip(NONCE_LEN as int)),
                    )
                },
            },
        }
    }
}

/// Reading a header that was written gives its parts, whatever follows it.
pub proof fn law_header_round_trip(
    kem_ct: Seq<u8>,
    eph_pk: Seq<u8>,
    nonce: Seq<u8>,
    body: Seq<u8>,
)
    requires
        kem_ct.len() <= MAX_KEM_FIELD,
        eph_pk.len() <= MAX_POINT_FIELD,
        nonce.len() == NONCE_LEN,
    ensures
        split_header(encode_header(kem_ct, eph_pk, nonce) + body) == Some(
            (kem_ct, eph_pk, nonce, body),
        ),
{
    let s = encode_header(kem_ct, eph_pk, nonce) + body;
    assert(s.take(4) =~= MAGIC_CT@);
    assert(s.skip(4) =~= prefixed(kem_ct) + (prefixed(eph_pk) + (nonce + body)));
    law_split_prefixed(kem_ct, prefixed(eph_pk) + (nonce + body));
    law_split_prefixed(eph_pk, nonce + body);
    assert((nonce + body).take(NONCE_LEN as int) =~= nonce);
    assert((nonce + body).skip(NONCE_LEN as int) =~= body);
}

/// A header that can be read is what writing its parts gives.
pub proof fn law_header_is_canonical(s: Seq<u8>)
    ensures
        split_header(s) matches Some((kem_ct, eph_pk, nonce, body)) ==> encode_header(
            kem_ct,
            eph_pk,
            nonce,
        ) + body == s,
{
    if let Some((kem_ct, eph_pk, nonce, body)) = split_header(s) {
        law_prefixed_is_canonical(s.skip(4));
        let rest = (split_prefixed(s.skip(4))->0).1;
        law_prefixed_is_canonical(rest);
        let end = (split_prefixed(rest)->0).1;
        assert(end =~= nonce + body);
        assert(s =~= MAGIC_CT@ + (prefixed(kem_ct) + (prefixed(eph_pk) + (nonce + body))));
        assert(encode_header(kem_ct, eph_pk, nonce) + body =~= MAGIC_CT@ + (prefixed(kem_ct) + (
        prefixed(eph_pk) + (nonce + body))));
    }
}

/// A header is `HCX3`, the length and the bytes of the encapsulated key, the length and the bytes
/// of the ephemeral point, and the nonce, in this order and with nothing between them.
pub proof fn law_header_layout(kem_ct: Seq<u8>, eph_pk: Seq<u8>, nonce: Seq<u8>)
    requires
        kem_ct.len() <= u32::MAX,
        eph_pk.len() <= u32::MAX,
    ensures
        ({
            let h = encode_header(kem_ct, eph_pk, nonce);
            let k = kem_ct.len() as int;
            let p = eph_pk.len() as int;
            &&& h.len() == 12 + k + p + nonce.len()
            &&& h.take(4) == seq![72u8, 67u8, 88u8, 51u8]
            &&& h[4] + 256 * h[5] + 65536 * h[6] + 16777216 * h[7] == k
            &&& h.subrange(8, 8 + k) == kem_ct
            &&& h[8 + k] + 256 * h[9 + k] + 65536 * h[10 + k] + 16777216 * h[11
                + k] == p
            &&& h.subrange(12 + k, 12 + k + p) == eph_pk
            &&& h.skip(12 + k + p) == nonce
        }),
{
    let h = encode_header(kem_ct, eph_pk, nonce);
    let k = kem_ct.len() as int;
    let p = eph_pk.len() as int;
    law_prefix_is_the_length(kem_ct);
    law_prefix_is_the_length(eph_pk);
    let a = prefixed(kem_ct);
    let b = prefixed(eph_pk);
    assert(h.take(4) =~= seq![72u8, 67u8, 88u8, 51u8]);
    assert(h[4] == a[0] && h[5] == a[1] && h[6] == a[2] && h[7] == a[3]);
    assert(h.subrange(8, 8 + k) =~= a.skip(4));
    assert(h[8 + k] == b[0] && h[9 + k] == b[1] && h[10 + k] == b[2] && h[11 + k] == b[3]);
    assert(h.subrange(12 + k, 12 + k + p) =~= b.skip(4));
    assert(h.skip(12 + k + p) =~= nonce);
}

/// A header is read whatever follows it, as long as the encapsulated key has at most 4096 bytes,
/// the point at most 256 and the nonce 12, and what is read was such a header.
pub proof fn law_headers_are_read_within_limits(
    kem_ct: Seq<u8>,
    eph_pk: Seq<u8>,
    nonce: Seq<u8>,
    body: Seq<u8>,
    s: Seq<u8>,
)
    requires
        kem_ct.len() <= u32::MAX,
        eph_pk.len() <= u32::MAX,
        nonce.len() == 12,
    ensures
        split_header(encode_header(kem_ct, eph_pk, nonce) + body) == (if kem_ct.len() <= 4096
            && eph_pk.len() <= 256 {
            Some((kem_ct, eph_pk, nonce, body))
        } else {
            None
        }),
        split_header(s) matches Some((a, b, c, rest)) ==> {
            &&& a.len() <= 4096
            &&& b.len() <= 256
            &&& c.len() == 12
            &&& s == encode_header(a, b, c) + rest
        },
{
    law_header_is_canonical(s);
    if kem_ct.len() <= 4096 && eph_pk.len() <= 256 {
        law_header_round_trip(kem_ct, eph_pk, nonce, body);
    } else {
        let h = encode_header(kem_ct, eph_pk, nonce) + body;
        let behind = prefixed(eph_pk) + (nonce + body);
        assert(h.skip(4) =~= prefixed(kem_ct) + behind);
        law_split_prefixed(kem_ct, behind);
        law_split_prefixed(eph_pk, nonce + body);
    }
}

/// The parts of a header.
pub struct ContainerHeader {
    /// The key that was encapsulated for the recipient.
    pub kem_ct: Vec<u8>,
    /// The sender's ephemeral point.
    pub eph_pk: Vec<u8>,
    /// The nonce that the chunks' nonces are made of.
    pub base_nonce: Vec<u8>,
}

impl ContainerHeader {
    /// The bytes of the header.
    pub open spec fn encoded(&self) -> Seq<u8> {
        encode_header(self.kem_ct@, self.eph_pk@, self.base_nonce@)
    }

    /// Whether the header can be used: the nonce has its length, the encapsulated key too, and
    /// the point is one.
    pub open spec fn usable(&self) -> bool {
        &&& self.base_nonce@.len() == NONCE_LEN
        &&& self.kem_ct@.len() == KEM_CT_LEN
        &&& p384_point_valid(self.eph_pk@)
    }
}

/// Writes a header.
pub fn header_bytes(kem_ct: &[u8], eph_pk: &[u8], base_nonce: &[u8]) -> (header: Vec<u8>)
    ensures
        header@ == encode_header(kem_ct@, eph_pk@, base_nonce@),
{
    let magic: [u8; 4] = MAGIC_CT;
    let mut header: Vec<u8> = Vec::new();
    push_all(&mut header, magic.as_slice());
    push_u32_prefixed(&mut header, kem_ct);
    push_u32_prefixed(&mut header, eph_pk);
    push_all(&mut header, base_nonce);
    assert(header@ =~= encode_header(kem_ct@, eph_pk@, base_nonce@));
    header
}

/// Takes a length-prefixed field of at most `max` bytes off the front.
fn take_limited<'a>(cursor: &mut &'a [u8], max: usize) -> (r: Result<&'a [u8], CryptoError>)
    ensures
        r is Ok <==> split_limited(old(cursor)@, max as int) is Some,
        r matches Ok(field) ==> split_limited(old(cursor)@, max as int) == Some(
            (field@, final(cursor)@),
        ),
        r matches Err(e) ==> e == CryptoError::BadContainer,
{
    match take_u32_prefixed(cursor) {
        Some(field) => {
            if field.len() > max {
                Err(CryptoError::BadContainer)
            } else {
                Ok(field)
            }
        },
        None => Err(CryptoError::BadContainer),
    }
}

/// Takes a header off the front of a container.
pub fn take_header(cursor: &mut &[u8]) -> (r: Result<ContainerHeader, CryptoError>)
    ensures
        r is Ok <==> split_header(old(cursor)@) is Some,
        r matches Ok(h) ==> split_header(old(cursor)@) == Some(
            (h.kem_ct@, h.eph_pk@, h.base_nonce@, final(cursor)@),
        ),
        r matches Err(e) ==> e == CryptoError::BadContainer,
{
    let magic: [u8; 4] = MAGIC_CT;
    match take_exact(cursor, 4) {
        Some(head) => {
            if !bytes_eq(head, magic.as_slice()) {
                return Err(CryptoError::BadContainer);
            }
        },
        None => return Err(CryptoError::BadContainer),
    }
    let kem_ct = match take_limited(cursor, MAX_KEM_FIELD) {
        Ok(field) => field,
        Err(e) => return Err(e),
    };
    let eph_pk = match take_limited(cursor, MAX_POINT_FIELD) {
        Ok(field) => field,
        Err(e) => return Err(e),
    };
    match take_exact(cursor, NONCE_LEN) {
        Some(nonce) => Ok(
            ContainerHeader {
                kem_ct: copied(kem_ct),
                eph_pk: copied(eph_pk),
                base_nonce: copied(nonce),
            },
        ),
        None => Err(CryptoError::BadContainer),
    }
}

/// Checks that a header can be used, before anything expensive is done.
pub fn check_header(header: &ContainerHeader) -> (r: Result<(), CryptoError>)
    requires
        header.base_nonce@.len() == NONCE_LEN,
    ensures
        r == (if header.usable() {
            Ok::<(), CryptoError>(())
        } else {
            Err::<(), CryptoError>(CryptoError::BadContainer)
        }),
        r is Ok <==> header.kem_ct@.len() == 1568 && p384_point_valid(header.eph_pk@),
{
    if header.kem_ct.len() != KEM_CT_LEN {
        return Err(CryptoError::BadContainer);
    }
    match p384_check_point(header.eph_pk.as_slice()) {
        Ok(()) => Ok(()),
        Err(_) => Err(CryptoError::BadContainer),
    }
}

// ---------------------------------------------------------------------------
// Reading a header piece by piece
// ---------------------------------------------------------------------------

/// What a header of which the bytes `s` were read still needs.
pub open spec fn spec_header_need(s: Seq<u8>) -> Need {
    if s.len() < 4 {
        Need::More((4 - s.len()) as usize)
    } else if s.take(4) != MAGIC_CT@ {
        Need::Bad
    } else {
        match field_need(s.skip(4), MAX_KEM_FIELD as int) {
            Need::Complete => {
                let rest = (split_prefixed(s.skip(4))->0).1;
                match field_need(rest, MAX_POINT_FIELD as int) {
                    Need::Complete => {
                        let end = (split_prefixed(rest)->0).1;
                        if end.len() < NONCE_LEN {
                            Need::More((NONCE_LEN - end.len()) as usize)
                        } else {
                            Need::Complete
                        }
                    },
                    need => need,
                }
            },
            need => need,
        }
    }
}

/// Tells what a header of which `bytes` were read still needs.
pub fn header_need(bytes: &[u8]) -> (r: Need)
    ensures
        r == spec_header_need(bytes@),
{
    let magic: [u8; 4] = MAGIC_CT;
    if bytes.len() < 4 {
        return Need::More(4 - bytes.len());
    }
    let (start, _rest) = bytes.split_at(4);
    assert(start@ =~= bytes@.take(4));
    if !bytes_eq(start, magic.as_slice()) {
        return Need::Bad;
    }
    let (need, at) = limited_need(bytes, 4, MAX_KEM_FIELD);
    match need {
        Need::Complete => {},
        other => return other,
    }
    let (need, at) = limited_need(bytes, at, MAX_POINT_FIELD);
    match need {
        Need::Complete => {},
        other => return other,
    }
    let left: usize = bytes.len() - at;
    if left < NONCE_LEN {
        Need::More(NONCE_LEN - left)
    } else {
        Need::Complete
    }
}

/// A header is complete exactly where it can be read.
pub proof fn law_complete_header_is_readable(s: Seq<u8>)
    ensures
        spec_header_need(s) is Complete <==> split_header(s) is Some,
{
}

/// A header needs its four first bytes, which have to be `HCX3`, then its two fields, of at most
/// 4096 and 256 bytes, and then twelve bytes, one after the other, and each only as much as is
/// missing.
pub proof fn law_header_need_is_what_is_missing(
    start: Seq<u8>,
    kem_ct: Seq<u8>,
    eph_pk: Seq<u8>,
    part: Seq<u8>,
)
    requires
        kem_ct.len() <= 4096,
        eph_pk.len() <= 256,
    ensures
        start.len() < 4 ==> spec_header_need(start) == Need::More((4 - start.len()) as usize),
        start.len() == 4 && start != seq![72u8, 67u8, 88u8, 51u8] ==> spec_header_need(start + part)
            is Bad,
        ({
            let magic = seq![72u8, 67u8, 88u8, 51u8];
            &&& field_need(part, 4096) !is Complete ==> spec_header_need(magic + part)
                == field_need(part, 4096)
            &&& field_need(part, 256) !is Complete ==> spec_header_need(
                magic + prefixed(kem_ct) + part,
            ) == field_need(part, 256)
            &&& part.len() < 12 ==> spec_header_need(
                magic + prefixed(kem_ct) + prefixed(eph_pk) + part,
            ) == Need::More((12 - part.len()) as usize)
            &&& part.len() >= 12 ==> spec_header_need(
                magic + prefixed(kem_ct) + prefixed(eph_pk) + part,
            ) is Complete
        }),
{
    let magic = seq![72u8, 67u8, 88u8, 51u8];
    assert(magic =~= MAGIC_CT@);
    if start.len() == 4 {
        assert((start + part).take(4) =~= start);
    }
    let one = magic + part;
    assert(one.take(4) =~= magic);
    assert(one.skip(4) =~= part);
    let two = magic + prefixed(kem_ct) + part;
    assert(two.take(4) =~= magic);
    assert(two.skip(4) =~= prefixed(kem_ct) + part);
    law_split_prefixed(kem_ct, part);
    lemma_field_is_complete(kem_ct, part, 4096);
    let behind = prefixed(eph_pk) + part;
    let three = magic + prefixed(kem_ct) + prefixed(eph_pk) + part;
    assert(three.take(4) =~= magic);
    assert(three.skip(4) =~= prefixed(kem_ct) + behind);
    law_split_prefixed(kem_ct, behind);
    lemma_field_is_complete(kem_ct, behind, 4096);
    law_split_prefixed(eph_pk, part);
    lemma_field_is_complete(eph_pk, part, 256);
}

proof fn lemma_field_is_complete(field: Seq<u8>, behind: Seq<u8>, max: int)
    requires
        field.len() <= max <= 1048576,
    ensures
        field_need(prefixed(field) + behind, max) is Complete,
{
    law_limit_decides_on_fields(field, behind, prefixed(field) + behind, max);
    law_field_need_is_what_is_missing(prefixed(field) + behind, max);
}

/// Reading a header piece by piece, each time as much as it still needs: what is bad stays bad,
/// nothing less than what is needed makes the header readable, and when it is readable nothing
/// behind it was read.
pub proof fn law_header_is_read_exactly(s: Seq<u8>, t: Seq<u8>)
    ensures
        spec_header_need(s) is Bad ==> split_header(s + t) is None,
        spec_header_need(s) matches Need::More(n) ==> {
            &&& 0 < n
            &&& t.len() < n ==> split_header(s + t) is None
            &&& t.len() == n ==> (split_header(s + t) matches Some((_, _, _, body)) ==> body.len()
                == 0)
        },
{
    let both = s + t;
    law_complete_header_is_readable(both);
    if s.len() >= 4 {
        assert(both.take(4) =~= s.take(4));
        assert(both.skip(4) =~= s.skip(4) + t);
        let first = s.skip(4);
        law_field_is_read_exactly(first, t, MAX_KEM_FIELD as int);
        if field_need(first, MAX_KEM_FIELD as int) is Complete {
            let second = (split_prefixed(first)->0).1;
            law_field_is_read_exactly(second, t, MAX_POINT_FIELD as int);
        }
    }
}

} // verus!
