//! The body of a container: chunks of at most 64 KiB, each sealed under a nonce and associated
//! data made of its number, with the last one marked as such.

use crate::error::CryptoError;
use crate::primitives::{
    aead_open, aead_seal, chacha_open, chacha_seal, KEY_LEN, NONCE_LEN, TAG_LEN,
};
use crate::secure::SecureBuf;
use crate::wire::{
    from_le32, law_from_le32_round_trip, law_from_le32_weighs_bytes, law_le32_round_trip,
    law_le32_weighs_bytes, law_le64_round_trip, law_le64_weighs_bytes, le32, le64, push_all,
    push_le32, push_le64,
};
use vstd::prelude::*;

verus! {

/// The number of plaintext bytes in every chunk but the last.
pub const CHUNK_SIZE: usize = 65536;

/// The bytes that a chunk adds to its plaintext: the length before it and the tag behind it.
pub const CHUNK_OVERHEAD: usize = 20;

// ---------------------------------------------------------------------------
// Nonce and associated data
// ---------------------------------------------------------------------------

/// The associated data of a chunk: its number and whether it is the last.
pub open spec fn aad_of(counter: u64, last: bool) -> Seq<u8> {
    le64(counter).push(if last {
        1u8
    } else {
        0u8
    })
}

/// The nonce of a chunk: the base nonce with the number folded into its last eight bytes.
pub open spec fn nonce_of(base: Seq<u8>, counter: u64) -> Seq<u8> {
    base.take(4) + Seq::new(8, |i: int| base[4 + i] ^ le64(counter)[i])
}

/// Different numbers or flags give different associated data.
pub proof fn law_aad_is_injective(a: u64, a_last: bool, b: u64, b_last: bool)
    requires
        aad_of(a, a_last) == aad_of(b, b_last),
    ensures
        a == b,
        a_last == b_last,
{
    law_le64_round_trip(a);
    law_le64_round_trip(b);
    assert(aad_of(a, a_last).take(8) =~= le64(a));
    assert(aad_of(b, b_last).take(8) =~= le64(b));
    assert(aad_of(a, a_last)[8] == if a_last {
        1u8
    } else {
        0u8
    });
    assert(aad_of(b, b_last)[8] == if b_last {
        1u8
    } else {
        0u8
    });
}

/// Under one base nonce no two numbers share a nonce.
pub proof fn law_nonces_are_distinct(base: Seq<u8>, a: u64, b: u64)
    requires
        base.len() == NONCE_LEN,
        nonce_of(base, a) == nonce_of(base, b),
    ensures
        a == b,
{
    law_le64_round_trip(a);
    law_le64_round_trip(b);
    assert forall|i: int| 0 <= i < 8 implies le64(a)[i] == le64(b)[i] by {
        let x = base[4 + i];
        let p = le64(a)[i];
        let q = le64(b)[i];
        assert(nonce_of(base, a)[4 + i] == x ^ p);
        assert(nonce_of(base, b)[4 + i] == x ^ q);
        assert(x ^ p == x ^ q ==> p == q) by (bit_vector);
    }
    assert(le64(a) =~= le64(b));
}

/// The associated data is the number of the chunk in eight bytes, each weighing 256 times as much
/// as the one before it, and a ninth byte that is one for the last chunk and zero for the others.
pub proof fn law_aad_layout(counter: u64, last: bool)
    ensures
        ({
            let a = aad_of(counter, last);
            &&& a.len() == 9
            &&& a[0] + 0x100 * a[1] + 0x1_0000 * a[2] + 0x100_0000 * a[3] + 0x1_0000_0000 * a[4]
                + 0x100_0000_0000 * a[5] + 0x1_0000_0000_0000 * a[6] + 0x100_0000_0000_0000 * a[7]
                == counter
            &&& last ==> a[8] == 1
            &&& !last ==> a[8] == 0
        }),
{
    law_le64_weighs_bytes(counter);
    let a = aad_of(counter, last);
    let b = le64(counter);
    assert(a[0] == b[0] && a[1] == b[1] && a[2] == b[2] && a[3] == b[3]);
    assert(a[4] == b[4] && a[5] == b[5] && a[6] == b[6] && a[7] == b[7]);
}

/// The nonce of a chunk begins like the base nonce, and where it differs from it in the other eight
/// bytes, the difference is the number of the chunk, each byte weighing 256 times as much as the
/// one before it.
pub proof fn law_nonce_differs_by_the_number(base: Seq<u8>, counter: u64)
    requires
        base.len() == 12,
    ensures
        ({
            let n = nonce_of(base, counter);
            let d = Seq::new(8, |i: int| n[4 + i] ^ base[4 + i]);
            &&& n.len() == 12
            &&& n.take(4) == base.take(4)
            &&& d[0] + 0x100 * d[1] + 0x1_0000 * d[2] + 0x100_0000 * d[3] + 0x1_0000_0000 * d[4]
                + 0x100_0000_0000 * d[5] + 0x1_0000_0000_0000 * d[6] + 0x100_0000_0000_0000 * d[7]
                == counter
        }),
{
    law_le64_weighs_bytes(counter);
    let n = nonce_of(base, counter);
    let b = le64(counter);
    assert(n.take(4) =~= base.take(4));
    let d = Seq::new(8, |i: int| n[4 + i] ^ base[4 + i]);
    assert forall|i: int| 0 <= i < 8 implies d[i] == b[i] by {
        let x = base[4 + i];
        let y = b[i];
        assert(n[4 + i] == x ^ y);
        assert((x ^ y) ^ x == y) by (bit_vector);
    }
    assert(d[0] == b[0] && d[1] == b[1] && d[2] == b[2] && d[3] == b[3]);
    assert(d[4] == b[4] && d[5] == b[5] && d[6] == b[6] && d[7] == b[7]);
}

/// The associated data of a chunk.
pub fn chunk_aad(counter: u64, last: bool) -> (aad: Vec<u8>)
    ensures
        aad@ == aad_of(counter, last),
        aad@.len() == 9,
{
    let mut aad: Vec<u8> = Vec::new();
    push_le64(&mut aad, counter);
    aad.push(if last {
        1u8
    } else {
        0u8
    });
    proof {
        law_le64_round_trip(counter);
        assert(aad@ =~= aad_of(counter, last));
    }
    aad
}

/// The nonce of a chunk.
pub fn counter_nonce(base: &[u8], counter: u64) -> (nonce: Vec<u8>)
    requires
        base@.len() == NONCE_LEN,
    ensures
        nonce@ == nonce_of(base@, counter),
        nonce@.len() == NONCE_LEN,
{
    let mut c: Vec<u8> = Vec::new();
    push_le64(&mut c, counter);
    proof {
        law_le64_round_trip(counter);
        assert(c@ =~= le64(counter));
    }
    let mut nonce: Vec<u8> = Vec::new();
    let (head, _tail) = base.split_at(4);
    push_all(&mut nonce, head);
    let mut i: usize = 0;
    while i < 8
        invariant
            i <= 8,
            base@.len() == NONCE_LEN,
            c@ == le64(counter),
            c@.len() == 8,
            nonce@ == nonce_of(base@, counter).take(4 + i),
        decreases 8 - i,
    {
        nonce.push(base[4 + i] ^ c[i]);
        i = i + 1;
        assert(nonce@ =~= nonce_of(base@, counter).take(4 + i));
    }
    assert(nonce@ =~= nonce_of(base@, counter));
    nonce
}

// ---------------------------------------------------------------------------
// What a body is
// ---------------------------------------------------------------------------

/// A chunk as it stands in the container.
pub open spec fn seal_chunk(
    key: Seq<u8>,
    base: Seq<u8>,
    counter: u64,
    last: bool,
    plain: Seq<u8>,
) -> Seq<u8> {
    let (ct, tag) = chacha_seal(key, nonce_of(base, counter), aad_of(counter, last), plain);
    le32(plain.len() as u32) + ct + tag
}

/// The body of a container that holds `plain`: full chunks while more than one chunk is left,
/// then what is left as the last chunk. An empty plaintext is one empty chunk.
pub open spec fn seal_chunks(key: Seq<u8>, base: Seq<u8>, counter: nat, plain: Seq<u8>) -> Seq<u8>
    decreases plain.len(),
{
    if plain.len() <= CHUNK_SIZE {
        seal_chunk(key, base, counter as u64, true, plain)
    } else {
        seal_chunk(key, base, counter as u64, false, plain.take(CHUNK_SIZE as int)) + seal_chunks(
            key,
            base,
            counter + 1,
            plain.skip(CHUNK_SIZE as int),
        )
    }
}

/// A chunk at the front of a body: its ciphertext, its tag and what follows it. There is none
/// where the length or the chunk is cut short, where the length is over the limit, or where
/// less than a whole length follows.
pub open spec fn split_chunk(s: Seq<u8>) -> Option<(Seq<u8>, Seq<u8>, Seq<u8>)> {
    if s.len() < 4 {
        None
    } else {
        let n = from_le32(s.take(4)) as int;
        let rest = s.skip(4 + n + TAG_LEN);
        if n > CHUNK_SIZE || s.len() < 4 + n + TAG_LEN || 0 < rest.len() < 4 {
            None
        } else {
            Some((s.subrange(4, 4 + n), s.subrange(4 + n, 4 + n + TAG_LEN), rest))
        }
    }
}

/// What a body holds: the plaintext of all chunks up to the first that is not authentic, and
/// whether the body is authentic as a whole.
pub open spec fn open_chunks(key: Seq<u8>, base: Seq<u8>, counter: nat, body: Seq<u8>) -> (
    Seq<u8>,
    bool,
)
    decreases body.len(),
{
    match split_chunk(body) {
        None => (Seq::empty(), false),
        Some((ct, tag, rest)) => {
            let last = rest.len() == 0;
            match chacha_open(
                key,
                nonce_of(base, counter as u64),
                aad_of(counter as u64, last),
                ct,
                tag,
            ) {
                None => (Seq::empty(), false),
                Some(plain) => if last {
                    (plain, true)
                } else {
                    let (more, ok) = open_chunks(key, base, counter + 1, rest);
                    (plain + more, ok)
                },
            }
        },
    }
}

/// The number of chunks of a plaintext of `len` bytes.
pub open spec fn chunk_count(len: nat) -> nat {
    if len <= CHUNK_SIZE {
        1
    } else {
        ((len + CHUNK_SIZE - 1) / CHUNK_SIZE as int) as nat
    }
}

/// The cipher opens what it sealed for this chunk, and the parts have their usual lengths.
pub open spec fn chunk_opens(
    key: Seq<u8>,
    base: Seq<u8>,
    counter: u64,
    last: bool,
    plain: Seq<u8>,
) -> bool {
    let nonce = nonce_of(base, counter);
    let aad = aad_of(counter, last);
    let (ct, tag) = chacha_seal(key, nonce, aad, plain);
    &&& ct.len() == plain.len()
    &&& tag.len() == TAG_LEN
    &&& chacha_open(key, nonce, aad, ct, tag) == Some(plain)
}

/// The cipher opens what it sealed for every chunk of `plain`.
pub open spec fn chunks_open(key: Seq<u8>, base: Seq<u8>, counter: nat, plain: Seq<u8>) -> bool
    decreases plain.len(),
{
    if plain.len() <= CHUNK_SIZE {
        chunk_opens(key, base, counter as u64, true, plain)
    } else {
        &&& chunk_opens(key, base, counter as u64, false, plain.take(CHUNK_SIZE as int))
        &&& chunks_open(key, base, counter + 1, plain.skip(CHUNK_SIZE as int))
    }
}

proof fn lemma_split_sealed(
    key: Seq<u8>,
    base: Seq<u8>,
    counter: u64,
    last: bool,
    plain: Seq<u8>,
    rest: Seq<u8>,
)
    requires
        chunk_opens(key, base, counter, last, plain),
        plain.len() <= CHUNK_SIZE,
        rest.len() == 0 || rest.len() >= 4,
    ensures
        seal_chunk(key, base, counter, last, plain).len() == plain.len() + CHUNK_OVERHEAD,
        split_chunk(seal_chunk(key, base, counter, last, plain) + rest) == ({
            let (ct, tag) = chacha_seal(key, nonce_of(base, counter), aad_of(counter, last), plain);
            Some((ct, tag, rest))
        }),
{
    let (ct, tag) = chacha_seal(key, nonce_of(base, counter), aad_of(counter, last), plain);
    let n = plain.len() as u32;
    law_le32_round_trip(n);
    let s = seal_chunk(key, base, counter, last, plain) + rest;
    assert(s.take(4) =~= le32(n));
    assert(s.subrange(4, 4 + n) =~= ct);
    assert(s.subrange(4 + n, 4 + n + TAG_LEN) =~= tag);
    assert(s.skip(4 + n + TAG_LEN) =~= rest);
}

/// Where the cipher opens what it sealed, opening a sealed body gives the plaintext back, and
/// the body is longer than the plaintext by 20 bytes for each chunk.
pub proof fn law_chunks_round_trip(key: Seq<u8>, base: Seq<u8>, counter: nat, plain: Seq<u8>)
    requires
        chunks_open(key, base, counter, plain),
    ensures
        open_chunks(key, base, counter, seal_chunks(key, base, counter, plain)) == (plain, true),
        seal_chunks(key, base, counter, plain).len() == plain.len() + CHUNK_OVERHEAD * chunk_count(
            plain.len(),
        ),
    decreases plain.len(),
{
    let sealed = seal_chunks(key, base, counter, plain);
    if plain.len() <= CHUNK_SIZE {
        lemma_split_sealed(key, base, counter as u64, true, plain, Seq::empty());
        assert(sealed + Seq::<u8>::empty() =~= sealed);
    } else {
        let first = plain.take(CHUNK_SIZE as int);
        let others = plain.skip(CHUNK_SIZE as int);
        law_chunks_round_trip(key, base, counter + 1, others);
        let rest = seal_chunks(key, base, counter + 1, others);
        lemma_split_sealed(key, base, counter as u64, false, first, rest);
        assert(first + others =~= plain);
        assert(chunk_count(plain.len()) == 1 + chunk_count(others.len()));
    }
}

/// A plaintext has as many chunks as it takes to hold it in chunks of 65536 bytes, and one at
/// least.
pub proof fn law_chunk_count(len: nat)
    ensures
        chunk_count(len) >= 1,
        len <= 65536 * chunk_count(len),
        len > 0 ==> 65536 * (chunk_count(len) - 1) < len,
        len == 0 ==> chunk_count(len) == 1,
{
}

/// A chunk stands in the container as four bytes, whose sum, each weighing 256 times as much as the
/// one before it, is the length of its plaintext, and then what the cipher makes of the plaintext
/// under the nonce and the associated data of that number: the ciphertext and the tag.
pub proof fn law_chunk_layout(
    key: Seq<u8>,
    base: Seq<u8>,
    counter: u64,
    last: bool,
    plain: Seq<u8>,
)
    requires
        plain.len() <= u32::MAX,
    ensures
        ({
            let s = seal_chunk(key, base, counter, last, plain);
            let (ct, tag) = chacha_seal(key, nonce_of(base, counter), aad_of(counter, last), plain);
            &&& s.len() == 4 + ct.len() + tag.len()
            &&& s[0] + 256 * s[1] + 65536 * s[2] + 16777216 * s[3] == plain.len()
            &&& s.skip(4) == ct + tag
        }),
{
    let s = seal_chunk(key, base, counter, last, plain);
    let (ct, tag) = chacha_seal(key, nonce_of(base, counter), aad_of(counter, last), plain);
    let n = plain.len() as u32;
    law_le32_weighs_bytes(n);
    assert(s[0] == le32(n)[0] && s[1] == le32(n)[1] && s[2] == le32(n)[2] && s[3] == le32(n)[3]);
    assert(s.skip(4) =~= ct + tag);
}

/// Chunk number `k` of a body stands behind `k` full chunks of 65556 bytes, holds the bytes of the
/// plaintext from `65536 * k` on, at most 65536 of them, is sealed under its own number, and is
/// marked as the last where it is.
pub proof fn law_body_is_its_chunks(
    key: Seq<u8>,
    base: Seq<u8>,
    counter: nat,
    plain: Seq<u8>,
    k: int,
)
    requires
        chunks_open(key, base, counter, plain),
        0 <= k < chunk_count(plain.len()),
    ensures
        ({
            let body = seal_chunks(key, base, counter, plain);
            let last = k + 1 == chunk_count(plain.len());
            let end = if last {
                plain.len() as int
            } else {
                65536 * (k + 1)
            };
            &&& 65536 * k <= end <= plain.len()
            &&& 65556 * k <= body.len()
            &&& last ==> body.skip(65556 * k) == seal_chunk(
                key,
                base,
                (counter + k) as u64,
                true,
                plain.subrange(65536 * k, end),
            )
            &&& !last ==> {
                &&& 65556 * (k + 1) <= body.len()
                &&& body.subrange(65556 * k, 65556 * (k + 1)) == seal_chunk(
                    key,
                    base,
                    (counter + k) as u64,
                    false,
                    plain.subrange(65536 * k, end),
                )
            }
        }),
    decreases k,
{
    let body = seal_chunks(key, base, counter, plain);
    law_chunks_round_trip(key, base, counter, plain);
    law_chunk_count(plain.len());
    if plain.len() <= CHUNK_SIZE {
        assert(k == 0);
        assert(body.skip(0) =~= body);
        assert(plain.subrange(0, plain.len() as int) =~= plain);
    } else {
        let first = plain.take(CHUNK_SIZE as int);
        let others = plain.skip(CHUNK_SIZE as int);
        let frame = seal_chunk(key, base, counter as u64, false, first);
        let rest = seal_chunks(key, base, counter + 1, others);
        lemma_split_sealed(key, base, counter as u64, false, first, Seq::empty());
        assert(frame.len() == 65556);
        assert(body == frame + rest);
        assert(chunk_count(plain.len()) == 1 + chunk_count(others.len()));
        if k == 0 {
            assert(body.subrange(0, 65556) =~= frame);
            assert(plain.subrange(0, 65536) =~= first);
        } else {
            let j = k - 1;
            law_body_is_its_chunks(key, base, counter + 1, others, j);
            let last = k + 1 == chunk_count(plain.len());
            if last {
                assert(body.skip(65556 * k) =~= rest.skip(65556 * j));
                assert(plain.subrange(65536 * k, plain.len() as int) =~= others.subrange(
                    65536 * j,
                    others.len() as int,
                ));
            } else {
                assert(body.subrange(65556 * k, 65556 * (k + 1)) =~= rest.subrange(
                    65556 * j,
                    65556 * (j + 1),
                ));
                assert(plain.subrange(65536 * k, 65536 * (k + 1)) =~= others.subrange(
                    65536 * j,
                    65536 * (j + 1),
                ));
            }
        }
    }
}

/// A body is opened chunk by chunk: one that begins with the length of a ciphertext of at most
/// 65536 bytes, the ciphertext and a tag of 16 bytes, with nothing behind them or at least the next
/// length, gives what the cipher makes of that chunk under its number and its flag, followed by
/// what comes of the rest, which is asked for only where the cipher accepts the chunk.
pub proof fn law_chunks_are_opened_one_by_one(
    key: Seq<u8>,
    base: Seq<u8>,
    counter: nat,
    ct: Seq<u8>,
    tag: Seq<u8>,
    rest: Seq<u8>,
)
    requires
        ct.len() <= 65536,
        tag.len() == 16,
        rest.len() == 0 || rest.len() >= 4,
    ensures
        open_chunks(key, base, counter, le32(ct.len() as u32) + ct + tag + rest) == (
        match chacha_open(
            key,
            nonce_of(base, counter as u64),
            aad_of(counter as u64, rest.len() == 0),
            ct,
            tag,
        ) {
            None => (Seq::<u8>::empty(), false),
            Some(plain) => if rest.len() == 0 {
                (plain, true)
            } else {
                (
                    plain + open_chunks(key, base, counter + 1, rest).0,
                    open_chunks(key, base, counter + 1, rest).1,
                )
            },
        }),
{
    let n = ct.len() as u32;
    let s = le32(n) + ct + tag + rest;
    law_le32_round_trip(n);
    assert(s.take(4) =~= le32(n));
    assert(s.subrange(4, 4 + n) =~= ct);
    assert(s.subrange(4 + n, 20 + n) =~= tag);
    assert(s.skip(20 + n) =~= rest);
}

/// Nothing comes out of a body that is cut short before the end of its first chunk or within the
/// length behind it, or whose first length is over 65536.
pub proof fn law_broken_frames_give_nothing(
    key: Seq<u8>,
    base: Seq<u8>,
    counter: nat,
    body: Seq<u8>,
)
    ensures
        body.len() < 4 ==> open_chunks(key, base, counter, body) == (Seq::<u8>::empty(), false),
        body.len() >= 4 ==> {
            let n = body[0] + 256 * body[1] + 65536 * body[2] + 16777216 * body[3];
            n > 65536 || body.len() < 20 + n || 20 + n < body.len() < 24 + n ==> open_chunks(
                key,
                base,
                counter,
                body,
            ) == (Seq::<u8>::empty(), false)
        },
{
    if body.len() >= 4 {
        law_from_le32_weighs_bytes(body.take(4));
    }
}

// ---------------------------------------------------------------------------
// Manipulation
// ---------------------------------------------------------------------------

/// `out` is the first `k` chunks of `plain`, and not all of them.
pub open spec fn is_whole_chunks(plain: Seq<u8>, out: Seq<u8>, k: nat) -> bool {
    &&& k < chunk_count(plain.len())
    &&& k * CHUNK_SIZE <= plain.len()
    &&& out == plain.take(k * CHUNK_SIZE)
}

/// The first chunk of a body that holds `plain` has this flag, this ciphertext and this tag.
pub open spec fn is_first_chunk(
    key: Seq<u8>,
    base: Seq<u8>,
    counter: nat,
    plain: Seq<u8>,
    last: bool,
    ct: Seq<u8>,
    tag: Seq<u8>,
) -> bool {
    let only = plain.len() <= CHUNK_SIZE;
    let chunk = if only {
        plain
    } else {
        plain.take(CHUNK_SIZE as int)
    };
    &&& last == only
    &&& (ct, tag) == chacha_seal(
        key,
        nonce_of(base, counter as u64),
        aad_of(counter as u64, last),
        chunk,
    )
}

/// The cipher accepts something as chunk number `counter` that is not what was sealed as such.
pub open spec fn is_forgery(
    key: Seq<u8>,
    base: Seq<u8>,
    counter: nat,
    plain: Seq<u8>,
    last: bool,
    ct: Seq<u8>,
    tag: Seq<u8>,
) -> bool {
    &&& chacha_open(
        key,
        nonce_of(base, counter as u64),
        aad_of(counter as u64, last),
        ct,
        tag,
    ) is Some
    &&& !is_first_chunk(key, base, counter, plain, last, ct, tag)
}

/// One of the chunks of `body` is accepted by the cipher in its place though it is not what was
/// sealed for that place. Chunks behind one that is refused are not looked at.
pub open spec fn holds_forgery(
    key: Seq<u8>,
    base: Seq<u8>,
    counter: nat,
    plain: Seq<u8>,
    body: Seq<u8>,
) -> bool
    decreases plain.len(),
{
    match split_chunk(body) {
        None => false,
        Some((ct, tag, rest)) => {
            ||| is_forgery(key, base, counter, plain, rest.len() == 0, ct, tag)
            ||| chacha_open(
                key,
                nonce_of(base, counter as u64),
                aad_of(counter as u64, rest.len() == 0),
                ct,
                tag,
            ) is Some && plain.len() > CHUNK_SIZE && holds_forgery(
                key,
                base,
                counter + 1,
                plain.skip(CHUNK_SIZE as int),
                rest,
            )
        },
    }
}

proof fn lemma_more_whole_chunks(plain: Seq<u8>, out: Seq<u8>, k: nat)
    requires
        plain.len() > CHUNK_SIZE,
        is_whole_chunks(plain.skip(CHUNK_SIZE as int), out, k),
    ensures
        is_whole_chunks(plain, plain.take(CHUNK_SIZE as int) + out, k + 1),
{
    let others = plain.skip(CHUNK_SIZE as int);
    assert(chunk_count(plain.len()) == 1 + chunk_count(others.len()));
    assert((k + 1) * CHUNK_SIZE == k * CHUNK_SIZE + CHUNK_SIZE) by (nonlinear_arith);
    assert(plain.take(CHUNK_SIZE as int) + out =~= plain.take((k + 1) * CHUNK_SIZE));
}

proof fn lemma_no_chunks(plain: Seq<u8>)
    ensures
        is_whole_chunks(plain, Seq::empty(), 0),
{
    assert(plain.take(0) =~= Seq::<u8>::empty());
}

/// Whatever is made of the body that holds `plain`, by changing, cutting, swapping, repeating,
/// removing or adding: it is accepted only if it is that body, and otherwise what comes out of it
/// is whole chunks of the plaintext without the last, unless one of its chunks is a forgery.
pub proof fn law_manipulation_needs_a_forgery(
    key: Seq<u8>,
    base: Seq<u8>,
    counter: nat,
    plain: Seq<u8>,
    body: Seq<u8>,
)
    requires
        chunks_open(key, base, counter, plain),
        !holds_forgery(key, base, counter, plain, body),
    ensures
        open_chunks(key, base, counter, body).1 ==> {
            &&& body == seal_chunks(key, base, counter, plain)
            &&& open_chunks(key, base, counter, body).0 == plain
        },
        !open_chunks(key, base, counter, body).1 ==> exists|k: nat| #[trigger]
            is_whole_chunks(plain, open_chunks(key, base, counter, body).0, k),
    decreases plain.len(),
{
    lemma_no_chunks(plain);
    if let Some((ct, tag, rest)) = split_chunk(body) {
        let last = rest.len() == 0;
        let only = plain.len() <= CHUNK_SIZE;
        let chunk = if only {
            plain
        } else {
            plain.take(CHUNK_SIZE as int)
        };
        let nonce = nonce_of(base, counter as u64);
        if chacha_open(key, nonce, aad_of(counter as u64, last), ct, tag) is Some {
            assert(is_first_chunk(key, base, counter, plain, last, ct, tag));
            assert(chunk_opens(key, base, counter as u64, last, chunk));
            law_from_le32_round_trip(body.take(4));
            assert(body =~= seal_chunk(key, base, counter as u64, last, chunk) + rest);
            if last {
                assert(body =~= seal_chunk(key, base, counter as u64, last, chunk));
            } else {
                let others = plain.skip(CHUNK_SIZE as int);
                law_manipulation_needs_a_forgery(key, base, counter + 1, others, rest);
                let (more, ok) = open_chunks(key, base, counter + 1, rest);
                assert(plain =~= chunk + others);
                assert(open_chunks(key, base, counter, body) == (chunk + more, ok));
                if !ok {
                    let k = choose|k: nat| #[trigger] is_whole_chunks(others, more, k);
                    lemma_more_whole_chunks(plain, more, k);
                    assert(is_whole_chunks(
                        plain,
                        open_chunks(key, base, counter, body).0,
                        k + 1,
                    ));
                }
            }
        } else {
            assert(is_whole_chunks(plain, open_chunks(key, base, counter, body).0, 0));
        }
    } else {
        assert(is_whole_chunks(plain, open_chunks(key, base, counter, body).0, 0));
    }
}

/// The length of a full chunk as it stands in the container.
pub const FULL_CHUNK_LEN: usize = 65556;

/// A body that holds `plain` is cut between two chunks, and the cipher accepts the chunk before the
/// cut as the last one, though it was not sealed as such.
pub open spec fn cut_is_accepted(
    key: Seq<u8>,
    base: Seq<u8>,
    counter: nat,
    plain: Seq<u8>,
    cut: int,
) -> bool
    decreases plain.len(),
{
    if plain.len() <= CHUNK_SIZE || cut < FULL_CHUNK_LEN {
        false
    } else if cut == FULL_CHUNK_LEN {
        let nonce = nonce_of(base, counter as u64);
        let (ct, tag) = chacha_seal(
            key,
            nonce,
            aad_of(counter as u64, false),
            plain.take(CHUNK_SIZE as int),
        );
        chacha_open(key, nonce, aad_of(counter as u64, true), ct, tag) is Some
    } else {
        cut_is_accepted(
            key,
            base,
            counter + 1,
            plain.skip(CHUNK_SIZE as int),
            cut - FULL_CHUNK_LEN,
        )
    }
}

/// A body that is cut short, anywhere, is not authentic, and what comes out of it is whole chunks
/// of the plaintext without the last, unless it is cut between two chunks and the cipher accepts
/// the one before the cut under the flag of the last.
pub proof fn law_truncation_is_noticed(
    key: Seq<u8>,
    base: Seq<u8>,
    counter: nat,
    plain: Seq<u8>,
    cut: int,
)
    requires
        chunks_open(key, base, counter, plain),
        0 <= cut < seal_chunks(key, base, counter, plain).len(),
        !cut_is_accepted(key, base, counter, plain, cut),
    ensures
        ({
            let (out, ok) = open_chunks(
                key,
                base,
                counter,
                seal_chunks(key, base, counter, plain).take(cut),
            );
            &&& !ok
            &&& exists|k: nat| #[trigger] is_whole_chunks(plain, out, k)
        }),
    decreases plain.len(),
{
    let sealed = seal_chunks(key, base, counter, plain);
    let short = sealed.take(cut);
    lemma_no_chunks(plain);
    if plain.len() <= CHUNK_SIZE {
        lemma_split_sealed(key, base, counter as u64, true, plain, Seq::empty());
        lemma_cut_chunk(key, base, counter as u64, true, plain, Seq::empty(), cut);
        assert(sealed + Seq::<u8>::empty() =~= sealed);
        assert(is_whole_chunks(plain, open_chunks(key, base, counter, short).0, 0));
    } else {
        let first = plain.take(CHUNK_SIZE as int);
        let others = plain.skip(CHUNK_SIZE as int);
        let rest = seal_chunks(key, base, counter + 1, others);
        law_chunks_round_trip(key, base, counter + 1, others);
        let frame = seal_chunk(key, base, counter as u64, false, first);
        lemma_split_sealed(key, base, counter as u64, false, first, rest);
        assert(frame.len() == FULL_CHUNK_LEN);
        assert(sealed == frame + rest);
        if cut < FULL_CHUNK_LEN + 4 && cut != FULL_CHUNK_LEN {
            lemma_cut_chunk(key, base, counter as u64, false, first, rest, cut);
            assert(is_whole_chunks(plain, open_chunks(key, base, counter, short).0, 0));
        } else {
            lemma_split_sealed(
                key,
                base,
                counter as u64,
                false,
                first,
                rest.take(cut - FULL_CHUNK_LEN),
            );
            assert(short =~= frame + rest.take(cut - FULL_CHUNK_LEN));
            if cut > FULL_CHUNK_LEN {
                law_truncation_is_noticed(key, base, counter + 1, others, cut - FULL_CHUNK_LEN);
                let more = open_chunks(
                    key,
                    base,
                    counter + 1,
                    rest.take(cut - FULL_CHUNK_LEN),
                ).0;
                let k = choose|k: nat| #[trigger] is_whole_chunks(others, more, k);
                lemma_more_whole_chunks(plain, more, k);
                assert(open_chunks(key, base, counter, short) == (first + more, false));
                assert(is_whole_chunks(
                    plain,
                    open_chunks(key, base, counter, short).0,
                    k + 1,
                ));
            } else {
                assert(is_whole_chunks(plain, open_chunks(key, base, counter, short).0, 0));
            }
        }
    }
}

/// A chunk that is cut short, or behind which less than a whole length is left, is no chunk.
proof fn lemma_cut_chunk(
    key: Seq<u8>,
    base: Seq<u8>,
    counter: u64,
    last: bool,
    plain: Seq<u8>,
    rest: Seq<u8>,
    cut: int,
)
    requires
        chunk_opens(key, base, counter, last, plain),
        plain.len() <= CHUNK_SIZE,
        0 <= cut < plain.len() + CHUNK_OVERHEAD + 4,
        cut != plain.len() + CHUNK_OVERHEAD,
        cut <= plain.len() + CHUNK_OVERHEAD + rest.len(),
    ensures
        split_chunk((seal_chunk(key, base, counter, last, plain) + rest).take(cut)) is None,
{
    let n = plain.len() as u32;
    law_le32_round_trip(n);
    let s = (seal_chunk(key, base, counter, last, plain) + rest).take(cut);
    if cut >= 4 {
        assert(s.take(4) =~= le32(n));
    }
}

// ---------------------------------------------------------------------------
// What an authentic body is made of
// ---------------------------------------------------------------------------

/// The body made of these chunks, of whatever sizes, the last of them marked.
pub open spec fn seal_sequence(
    key: Seq<u8>,
    base: Seq<u8>,
    counter: nat,
    chunks: Seq<Seq<u8>>,
) -> Seq<u8>
    decreases chunks.len(),
{
    if chunks.len() <= 1 {
        seal_chunk(key, base, counter as u64, true, chunks[0])
    } else {
        seal_chunk(key, base, counter as u64, false, chunks[0]) + seal_sequence(
            key,
            base,
            counter + 1,
            chunks.skip(1),
        )
    }
}

/// All chunks in a row.
pub open spec fn joined(chunks: Seq<Seq<u8>>) -> Seq<u8>
    decreases chunks.len(),
{
    if chunks.len() == 0 {
        Seq::empty()
    } else {
        chunks[0] + joined(chunks.skip(1))
    }
}

/// `body` is what sealing these chunks gives, and `plain` is the chunks in a row.
pub open spec fn is_sealing_of(
    key: Seq<u8>,
    base: Seq<u8>,
    counter: nat,
    body: Seq<u8>,
    plain: Seq<u8>,
    chunks: Seq<Seq<u8>>,
) -> bool {
    &&& chunks.len() >= 1
    &&& body == seal_sequence(key, base, counter, chunks)
    &&& plain == joined(chunks)
}

proof fn lemma_prepend_chunk(
    key: Seq<u8>,
    base: Seq<u8>,
    counter: nat,
    first: Seq<u8>,
    body: Seq<u8>,
    plain: Seq<u8>,
    chunks: Seq<Seq<u8>>,
)
    requires
        is_sealing_of(key, base, counter + 1, body, plain, chunks),
    ensures
        is_sealing_of(
            key,
            base,
            counter,
            seal_chunk(key, base, counter as u64, false, first) + body,
            first + plain,
            seq![first] + chunks,
        ),
{
    let all = seq![first] + chunks;
    assert(all.skip(1) =~= chunks);
}

/// Sealing what the cipher opened gives the same ciphertext and tag, for every chunk of `body`
/// up to the first that is not authentic.
pub open spec fn chunks_reseal(key: Seq<u8>, base: Seq<u8>, counter: nat, body: Seq<u8>) -> bool
    decreases body.len(),
{
    match split_chunk(body) {
        None => true,
        Some((ct, tag, rest)) => {
            let last = rest.len() == 0;
            let nonce = nonce_of(base, counter as u64);
            let aad = aad_of(counter as u64, last);
            match chacha_open(key, nonce, aad, ct, tag) {
                None => true,
                Some(plain) => {
                    &&& plain.len() == ct.len()
                    &&& chacha_seal(key, nonce, aad, plain) == (ct, tag)
                    &&& last || chunks_reseal(key, base, counter + 1, rest)
                },
            }
        },
    }
}

/// Where sealing gives back what was opened, an authentic body is nothing but the sealing of
/// the chunks that it opens to.
pub proof fn law_authentic_body_is_a_sealing(
    key: Seq<u8>,
    base: Seq<u8>,
    counter: nat,
    body: Seq<u8>,
)
    requires
        chunks_reseal(key, base, counter, body),
        open_chunks(key, base, counter, body).1,
    ensures
        exists|chunks: Seq<Seq<u8>>| #[trigger]
            is_sealing_of(
                key,
                base,
                counter,
                body,
                open_chunks(key, base, counter, body).0,
                chunks,
            ),
    decreases body.len(),
{
    let (ct, tag, rest) = split_chunk(body)->0;
    let last = rest.len() == 0;
    let plain = chacha_open(
        key,
        nonce_of(base, counter as u64),
        aad_of(counter as u64, last),
        ct,
        tag,
    )->0;
    law_from_le32_round_trip(body.take(4));
    assert(body =~= seal_chunk(key, base, counter as u64, last, plain) + rest);
    if last {
        let chunks = seq![plain];
        assert(body =~= seal_chunk(key, base, counter as u64, last, plain));
        assert(chunks.skip(1) =~= Seq::<Seq<u8>>::empty());
        assert(joined(chunks.skip(1)) =~= Seq::<u8>::empty());
        assert(joined(chunks) =~= plain);
        assert(open_chunks(key, base, counter, body).0 == plain);
        assert(is_sealing_of(key, base, counter, body, plain, chunks));
    } else {
        law_authentic_body_is_a_sealing(key, base, counter + 1, rest);
        let more = open_chunks(key, base, counter + 1, rest).0;
        let chunks = choose|chunks: Seq<Seq<u8>>| #[trigger]
            is_sealing_of(key, base, counter + 1, rest, more, chunks);
        lemma_prepend_chunk(key, base, counter, plain, rest, more, chunks);
        assert(open_chunks(key, base, counter, body).0 == plain + more);
        assert(is_sealing_of(key, base, counter, body, plain + more, seq![plain] + chunks));
    }
}

// ---------------------------------------------------------------------------
// Sealing and opening one chunk
// ---------------------------------------------------------------------------

/// The key, the base nonce and the number of the next chunk.
pub struct ChunkStream {
    key: SecureBuf,
    base: Vec<u8>,
    counter: u64,
}

impl ChunkStream {
    /// Key and base nonce have their lengths.
    pub closed spec fn wf(&self) -> bool {
        &&& self.key.wf()
        &&& self.key@.len() == KEY_LEN
        &&& self.base@.len() == NONCE_LEN
    }

    /// The session key.
    pub closed spec fn key(&self) -> Seq<u8> {
        self.key@
    }

    /// The base nonce.
    pub closed spec fn base(&self) -> Seq<u8> {
        self.base@
    }

    /// The number of the next chunk.
    pub closed spec fn counter(&self) -> u64 {
        self.counter
    }

    /// A stream that stands before its first chunk.
    pub fn new(key: SecureBuf, base_nonce: &[u8]) -> (r: ChunkStream)
        requires
            key.wf(),
            key@.len() == KEY_LEN,
            base_nonce@.len() == NONCE_LEN,
        ensures
            r.wf(),
            r.key() == key@,
            r.base() == base_nonce@,
            r.counter() == 0,
    {
        let mut base: Vec<u8> = Vec::new();
        push_all(&mut base, base_nonce);
        assert(base@ =~= base_nonce@);
        ChunkStream { key, base, counter: 0 }
    }

    /// The number of the next chunk.
    pub fn chunk_number(&self) -> (r: u64)
        ensures
            r == self.counter(),
    {
        self.counter
    }

    /// Seals the chunk in place, appends it to `out` as it stands in a container, and empties
    /// it. Opening the chunk under the same number and flag gives it back.
    pub fn seal_next(&mut self, chunk: &mut SecureBuf, last: bool, out: &mut Vec<u8>) -> (r: Result<
        (),
        CryptoError,
    >)
        requires
            old(self).wf(),
            old(chunk).wf(),
            old(chunk)@.len() <= CHUNK_SIZE,
            last || old(self).counter() < u64::MAX,
        ensures
            r is Ok,
            final(self).wf(),
            final(self).key() == old(self).key(),
            final(self).base() == old(self).base(),
            final(self).counter() == old(self).counter() + if last {
                0int
            } else {
                1int
            },
            final(chunk).wf(),
            final(chunk)@ == Seq::<u8>::empty(),
            final(chunk).capacity() == old(chunk).capacity(),
            final(out)@ == old(out)@ + seal_chunk(
                old(self).key(),
                old(self).base(),
                old(self).counter(),
                last,
                old(chunk)@,
            ),
            chunk_opens(
                old(self).key(),
                old(self).base(),
                old(self).counter(),
                last,
                old(chunk)@,
            ),
    {
        let ghost plain = chunk@;
        let aad = chunk_aad(self.counter, last);
        let nonce = counter_nonce(self.base.as_slice(), self.counter);
        let plain_len: u32 = chunk.len() as u32;
        let tag = match aead_seal(
            self.key.as_slice(),
            nonce.as_slice(),
            aad.as_slice(),
            chunk.as_mut_slice(),
        ) {
            Ok(tag) => tag,
            Err(_) => return Err(CryptoError::Internal),
        };
        let ghost start = out@;
        push_le32(out, plain_len);
        push_all(out, chunk.as_slice());
        push_all(out, tag.as_slice());
        assert(out@ =~= start + seal_chunk(self.key(), self.base(), self.counter, last, plain));
        chunk.clear();
        if !last {
            self.counter = self.counter + 1;
        }
        Ok(())
    }

    /// Opens a chunk in place. Where it is not authentic nothing is changed. Sealing what an
    /// authentic chunk holds gives that chunk again.
    pub fn open_next(&mut self, chunk: &mut SecureBuf, tag: &[u8], last: bool) -> (r: Result<
        (),
        CryptoError,
    >)
        requires
            old(self).wf(),
            old(chunk).wf(),
            old(chunk)@.len() <= CHUNK_SIZE,
            tag@.len() == TAG_LEN,
            last || old(self).counter() < u64::MAX,
        ensures
            final(self).wf(),
            final(self).key() == old(self).key(),
            final(self).base() == old(self).base(),
            final(chunk).wf(),
            final(chunk).capacity() == old(chunk).capacity(),
            ({
                let opened = chacha_open(
                    old(self).key(),
                    nonce_of(old(self).base(), old(self).counter()),
                    aad_of(old(self).counter(), last),
                    old(chunk)@,
                    tag@,
                );
                match opened {
                    Some(plain) => {
                        &&& r is Ok
                        &&& final(chunk)@ == plain
                        &&& plain.len() == old(chunk)@.len()
                        &&& final(self).counter() == old(self).counter() + if last {
                            0int
                        } else {
                            1int
                        }
                        &&& chacha_seal(
                            old(self).key(),
                            nonce_of(old(self).base(), old(self).counter()),
                            aad_of(old(self).counter(), last),
                            plain,
                        ) == (old(chunk)@, tag@)
                    },
                    None => {
                        &&& r == Err::<(), CryptoError>(CryptoError::BadContainer)
                        &&& final(chunk)@ == old(chunk)@
                        &&& final(self).counter() == old(self).counter()
                    },
                }
            }),
    {
        let aad = chunk_aad(self.counter, last);
        let nonce = counter_nonce(self.base.as_slice(), self.counter);
        match aead_open(
            self.key.as_slice(),
            nonce.as_slice(),
            aad.as_slice(),
            chunk.as_mut_slice(),
            tag,
        ) {
            Ok(()) => {
                if !last {
                    self.counter = self.counter + 1;
                }
                Ok(())
            },
            Err(_) => Err(CryptoError::BadContainer),
        }
    }
}

} // verus!
