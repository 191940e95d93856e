//! The fingerprint of a public key file, short enough to be compared by people.

use crate::primitives::{sha256, sha256_digest, DIGEST_LEN};
use vstd::prelude::*;
use vstd::string::*;

verus! {

/// The number of characters of a fingerprint, spaces among them.
pub const FINGERPRINT_CHARS: usize = 20;

/// The Base32 character of a number below 32: the letters, then the digits from 2 on.
pub open spec fn base32_char(digit: u8) -> char {
    if digit < 26 {
        (65 + digit) as char
    } else {
        (24 + digit) as char
    }
}

/// A power of 32.
pub open spec fn spec_pow32(i: int) -> u64 {
    if i == 0 {
        1
    } else if i == 1 {
        32
    } else if i == 2 {
        1024
    } else if i == 3 {
        32768
    } else if i == 4 {
        1048576
    } else if i == 5 {
        33554432
    } else if i == 6 {
        1073741824
    } else {
        34359738368
    }
}

/// The number that five bytes of the digest make, the first of them most significant.
pub open spec fn block_value(digest: Seq<u8>, block: int) -> u64 {
    (digest[5 * block] * 0x1_0000_0000 + digest[5 * block + 1] * 0x100_0000 + digest[5 * block + 2]
        * 0x1_0000 + digest[5 * block + 3] * 0x100 + digest[5 * block + 4]) as u64
}

/// The Base32 digit number `k` of the digest: eight digits for each block of five bytes.
pub open spec fn base32_digit(digest: Seq<u8>, k: int) -> u8 {
    (block_value(digest, k / 8) / spec_pow32(7 - k % 8) % 32) as u8
}

/// Whether a space stands at this place of a fingerprint.
pub open spec fn is_gap(i: int) -> bool {
    i == 3 || i == 7 || i == 11 || i == 15
}

/// How many gaps stand before this place of a fingerprint.
pub open spec fn gaps_before(i: int) -> int {
    if i < 16 {
        (i + 1) / 4
    } else {
        4
    }
}

/// The fingerprint that a digest gives: the first ten bytes as sixteen Base32 digits, in groups
/// that end with the second, fourth, sixth, eighth and tenth byte.
pub open spec fn fingerprint_text(digest: Seq<u8>) -> Seq<char> {
    Seq::new(
        FINGERPRINT_CHARS as nat,
        |i: int|
            if is_gap(i) {
                ' '
            } else {
                base32_char(base32_digit(digest, i - gaps_before(i)))
            },
    )
}

proof fn lemma_base32_char_is_injective(a: u8, b: u8)
    requires
        a < 32,
        b < 32,
        base32_char(a) == base32_char(b),
    ensures
        a == b,
{
    assert((65 + a) as u8 as char as u32 == 65 + a);
    assert((24 + a) as u8 as char as u32 == 24 + a);
    assert((65 + b) as u8 as char as u32 == 65 + b);
    assert((24 + b) as u8 as char as u32 == 24 + b);
}

proof fn lemma_digits_determine_value(v: u64, w: u64)
    requires
        v < 0x100_0000_0000,
        w < 0x100_0000_0000,
        forall|i: int| 0 <= i < 8 ==> v / #[trigger] spec_pow32(i) % 32 == w / spec_pow32(i) % 32,
    ensures
        v == w,
{
    assert(v / spec_pow32(7) % 32 == w / spec_pow32(7) % 32);
    assert(v / spec_pow32(6) % 32 == w / spec_pow32(6) % 32);
    assert(v / spec_pow32(5) % 32 == w / spec_pow32(5) % 32);
    assert(v / spec_pow32(4) % 32 == w / spec_pow32(4) % 32);
    assert(v / spec_pow32(3) % 32 == w / spec_pow32(3) % 32);
    assert(v / spec_pow32(2) % 32 == w / spec_pow32(2) % 32);
    assert(v / spec_pow32(1) % 32 == w / spec_pow32(1) % 32);
    assert(v / spec_pow32(0) % 32 == w / spec_pow32(0) % 32);
    assert(v == w) by (bit_vector)
        requires
            v < 0x100_0000_0000,
            w < 0x100_0000_0000,
            v / 34359738368 % 32 == w / 34359738368 % 32,
            v / 1073741824 % 32 == w / 1073741824 % 32,
            v / 33554432 % 32 == w / 33554432 % 32,
            v / 1048576 % 32 == w / 1048576 % 32,
            v / 32768 % 32 == w / 32768 % 32,
            v / 1024 % 32 == w / 1024 % 32,
            v / 32 % 32 == w / 32 % 32,
            v / 1 % 32 == w / 1 % 32,
    ;
}

/// Where the digit number `k` stands in a fingerprint.
spec fn place_of_digit(k: int) -> int {
    if k < 12 {
        k + k / 3
    } else {
        k + 4
    }
}

proof fn lemma_same_digit(a: Seq<u8>, b: Seq<u8>, k: int)
    requires
        fingerprint_text(a) == fingerprint_text(b),
        0 <= k < 16,
    ensures
        base32_digit(a, k) == base32_digit(b, k),
{
    let i = place_of_digit(k);
    assert(!is_gap(i) && i - gaps_before(i) == k);
    let x = base32_digit(a, k);
    let y = base32_digit(b, k);
    assert(fingerprint_text(a)[i] == base32_char(x));
    assert(fingerprint_text(b)[i] == base32_char(y));
    assert(x < 32 && y < 32);
    lemma_base32_char_is_injective(x, y);
}

proof fn lemma_same_block(a: Seq<u8>, b: Seq<u8>, n: int)
    requires
        fingerprint_text(a) == fingerprint_text(b),
        n == 0 || n == 1,
    ensures
        block_value(a, n) == block_value(b, n),
{
    let v = block_value(a, n);
    let w = block_value(b, n);
    assert forall|i: int| 0 <= i < 8 implies v / #[trigger] spec_pow32(i) % 32 == w / spec_pow32(i)
        % 32 by {
        let k = 8 * n + 7 - i;
        assert(k / 8 == n && 7 - k % 8 == i);
        lemma_same_digit(a, b, k);
        let x = v / spec_pow32(i) % 32;
        let y = w / spec_pow32(i) % 32;
        assert(x < 32 && y < 32);
        assert(x as u8 == y as u8);
    }
    lemma_digits_determine_value(v, w);
}

proof fn lemma_same_bytes(a: Seq<u8>, b: Seq<u8>, n: int)
    requires
        block_value(a, n) == block_value(b, n),
    ensures
        forall|i: int| 5 * n <= i < 5 * n + 5 ==> a[i] == b[i],
{
    let (a0, a1, a2, a3, a4) = (a[5 * n], a[5 * n + 1], a[5 * n + 2], a[5 * n + 3], a[5 * n + 4]);
    let (b0, b1, b2, b3, b4) = (b[5 * n], b[5 * n + 1], b[5 * n + 2], b[5 * n + 3], b[5 * n + 4]);
    assert(a0 * 0x1_0000_0000 + a1 * 0x100_0000 + a2 * 0x1_0000 + a3 * 0x100 + a4 == b0
        * 0x1_0000_0000 + b1 * 0x100_0000 + b2 * 0x1_0000 + b3 * 0x100 + b4);
    assert(a0 == b0);
    assert(a1 == b1);
    assert(a2 == b2);
    assert(a3 == b3);
    assert(a4 == b4);
}

/// Two digests have the same fingerprint only where their first ten bytes are the same.
pub proof fn law_fingerprint_fixes_ten_bytes(a: Seq<u8>, b: Seq<u8>)
    requires
        a.len() == DIGEST_LEN,
        b.len() == DIGEST_LEN,
        fingerprint_text(a) == fingerprint_text(b),
    ensures
        a.take(10) == b.take(10),
{
    lemma_same_block(a, b, 0);
    lemma_same_block(a, b, 1);
    lemma_same_bytes(a, b, 0);
    lemma_same_bytes(a, b, 1);
    assert(a.take(10) =~= b.take(10));
}

/// The character of each digit is the one at its place in the alphabet of Base32.
pub proof fn law_digits_have_their_characters(digit: u8)
    requires
        digit < 32,
    ensures
        "ABCDEFGHIJKLMNOPQRSTUVWXYZ234567"@.len() == 32,
        base32_char(digit) == "ABCDEFGHIJKLMNOPQRSTUVWXYZ234567"@[digit as int],
{
    reveal_strlit("ABCDEFGHIJKLMNOPQRSTUVWXYZ234567");
    let t = "ABCDEFGHIJKLMNOPQRSTUVWXYZ234567"@;
    assert(t[0] == 'A');
    assert(t[1] == 'B');
    assert(t[2] == 'C');
    assert(t[3] == 'D');
    assert(t[4] == 'E');
    assert(t[5] == 'F');
    assert(t[6] == 'G');
    assert(t[7] == 'H');
    assert(t[8] == 'I');
    assert(t[9] == 'J');
    assert(t[10] == 'K');
    assert(t[11] == 'L');
    assert(t[12] == 'M');
    assert(t[13] == 'N');
    assert(t[14] == 'O');
    assert(t[15] == 'P');
    assert(t[16] == 'Q');
    assert(t[17] == 'R');
    assert(t[18] == 'S');
    assert(t[19] == 'T');
    assert(t[20] == 'U');
    assert(t[21] == 'V');
    assert(t[22] == 'W');
    assert(t[23] == 'X');
    assert(t[24] == 'Y');
    assert(t[25] == 'Z');
    assert(t[26] == '2');
    assert(t[27] == '3');
    assert(t[28] == '4');
    assert(t[29] == '5');
    assert(t[30] == '6');
    assert(t[31] == '7');
    assert(t[digit as int] == base32_char(digit));
}

/// Eight digits, each weighing 32 times as much as the one behind it, are the same number as the
/// five bytes that they stand for, each weighing 256 times as much as the one behind it.
pub proof fn law_digits_spell_the_bytes(digest: Seq<u8>, n: int)
    requires
        digest.len() == 32,
        n == 0 || n == 1,
    ensures
        forall|k: int| 0 <= k < 16 ==> #[trigger] base32_digit(digest, k) < 32,
        34359738368 * base32_digit(digest, 8 * n) + 1073741824 * base32_digit(digest, 8 * n + 1)
            + 33554432 * base32_digit(digest, 8 * n + 2) + 1048576 * base32_digit(digest, 8 * n + 3)
            + 32768 * base32_digit(digest, 8 * n + 4) + 1024 * base32_digit(digest, 8 * n + 5) + 32
            * base32_digit(digest, 8 * n + 6) + base32_digit(digest, 8 * n + 7) == 4294967296
            * digest[5 * n] + 16777216 * digest[5 * n + 1] + 65536 * digest[5 * n + 2] + 256
            * digest[5 * n + 3] + digest[5 * n + 4],
{
    lemma_block_value(digest, n);
    lemma_digits_of_a_number(block_value(digest, n));
    lemma_digit_of_block(digest, n, 0);
    lemma_digit_of_block(digest, n, 1);
    lemma_digit_of_block(digest, n, 2);
    lemma_digit_of_block(digest, n, 3);
    lemma_digit_of_block(digest, n, 4);
    lemma_digit_of_block(digest, n, 5);
    lemma_digit_of_block(digest, n, 6);
    lemma_digit_of_block(digest, n, 7);
    assert forall|k: int| 0 <= k < 16 implies #[trigger] base32_digit(digest, k) < 32 by {
        lemma_digit_of_block(digest, k / 8, k % 8);
    }
}

proof fn lemma_block_value(digest: Seq<u8>, n: int)
    ensures
        block_value(digest, n) < 0x100_0000_0000,
        block_value(digest, n) == 4294967296 * digest[5 * n] + 16777216 * digest[5 * n + 1] + 65536
            * digest[5 * n + 2] + 256 * digest[5 * n + 3] + digest[5 * n + 4],
{
}

proof fn lemma_digit_of_block(digest: Seq<u8>, n: int, i: int)
    requires
        0 <= i < 8,
    ensures
        base32_digit(digest, 8 * n + i) == block_value(digest, n) / spec_pow32(7 - i) % 32,
        base32_digit(digest, 8 * n + i) < 32,
{
    let k = 8 * n + i;
    assert(k / 8 == n && k % 8 == i);
    let d = block_value(digest, n) / spec_pow32(7 - i) % 32;
    assert(d < 32);
}

proof fn lemma_digits_of_a_number(v: u64)
    requires
        v < 0x100_0000_0000,
    ensures
        34359738368 * (v / 34359738368 % 32) + 1073741824 * (v / 1073741824 % 32) + 33554432 * (v
            / 33554432 % 32) + 1048576 * (v / 1048576 % 32) + 32768 * (v / 32768 % 32) + 1024 * (v
            / 1024 % 32) + 32 * (v / 32 % 32) + v / 1 % 32 == v,
{
    let a = v / 32;
    let b = a / 32;
    let c = b / 32;
    let d = c / 32;
    let e = d / 32;
    let f = e / 32;
    let g = f / 32;
    assert(v / 1024 == b && v / 32768 == c && v / 1048576 == d);
    assert(v / 33554432 == e && v / 1073741824 == f && v / 34359738368 == g);
    assert(g < 32);
    assert(f == 32 * g + f % 32);
    assert(e == 32 * f + e % 32);
    assert(d == 32 * e + d % 32);
    assert(c == 32 * d + c % 32);
    assert(b == 32 * c + b % 32);
    assert(a == 32 * b + a % 32);
    assert(v == 32 * a + v % 32);
}

/// A fingerprint is the first ten bytes of a digest in Base32: sixteen characters of the alphabet,
/// whose places in it, each weighing 32 times as much as the next within its half, are the same
/// number as the five bytes of that half, each weighing 256 times as much as the next. A space
/// stands behind the third, sixth, ninth and twelfth of them.
pub proof fn law_fingerprint_is_base32(digest: Seq<u8>)
    requires
        digest.len() == 32,
    ensures
        ({
            let text = fingerprint_text(digest);
            let d = digest;
            &&& text.len() == 20
            &&& text[3] == ' ' && text[7] == ' ' && text[11] == ' ' && text[15] == ' '
            &&& exists|q: Seq<u8>|
                {
                    &&& #[trigger] q.len() == 16
                    &&& forall|k: int| 0 <= k < 16 ==> #[trigger] q[k] < 32
                    &&& forall|k: int|
                        0 <= k < 12 ==> text[k + k / 3]
                            == "ABCDEFGHIJKLMNOPQRSTUVWXYZ234567"@[#[trigger] q[k] as int]
                    &&& forall|k: int|
                        12 <= k < 16 ==> text[k + 4]
                            == "ABCDEFGHIJKLMNOPQRSTUVWXYZ234567"@[#[trigger] q[k] as int]
                    &&& 34359738368 * q[0] + 1073741824 * q[1] + 33554432 * q[2] + 1048576 * q[3]
                        + 32768 * q[4] + 1024 * q[5] + 32 * q[6] + q[7] == 4294967296 * d[0]
                        + 16777216 * d[1] + 65536 * d[2] + 256 * d[3] + d[4]
                    &&& 34359738368 * q[8] + 1073741824 * q[9] + 33554432 * q[10] + 1048576 * q[11]
                        + 32768 * q[12] + 1024 * q[13] + 32 * q[14] + q[15] == 4294967296 * d[5]
                        + 16777216 * d[6] + 65536 * d[7] + 256 * d[8] + d[9]
                }
        }),
{
    let text = fingerprint_text(digest);
    let q = Seq::new(16, |k: int| base32_digit(digest, k));
    law_digits_spell_the_bytes(digest, 0);
    law_digits_spell_the_bytes(digest, 1);
    assert forall|k: int| 0 <= k < 12 implies text[k + k / 3]
        == "ABCDEFGHIJKLMNOPQRSTUVWXYZ234567"@[#[trigger] q[k] as int] by {
        let i = place_of_digit(k);
        assert(!is_gap(i) && i - gaps_before(i) == k);
        law_digits_have_their_characters(q[k]);
    }
    assert forall|k: int| 12 <= k < 16 implies text[k + 4]
        == "ABCDEFGHIJKLMNOPQRSTUVWXYZ234567"@[#[trigger] q[k] as int] by {
        let i = place_of_digit(k);
        assert(!is_gap(i) && i - gaps_before(i) == k);
        law_digits_have_their_characters(q[k]);
    }
    assert(q.len() == 16);
}

fn pow32(i: usize) -> (p: u64)
    requires
        i < 8,
    ensures
        p == spec_pow32(i as int),
        p > 0,
{
    match i {
        0 => 1,
        1 => 32,
        2 => 1024,
        3 => 32768,
        4 => 1048576,
        5 => 33554432,
        6 => 1073741824,
        _ => 34359738368,
    }
}

fn digit_char(digit: u8) -> (c: char)
    requires
        digit < 32,
    ensures
        c == base32_char(digit),
        c == "ABCDEFGHIJKLMNOPQRSTUVWXYZ234567"@[digit as int],
{
    proof {
        law_digits_have_their_characters(digit);
    }
    if digit < 26 {
        (65 + digit) as char
    } else {
        (24 + digit) as char
    }
}

/// The fingerprint of a digest.
pub fn digest_fingerprint(digest: &[u8]) -> (r: String)
    requires
        digest@.len() == DIGEST_LEN,
    ensures
        r@ == fingerprint_text(digest@),
{
    let mut out = String::new();
    let mut i: usize = 0;
    while i < FINGERPRINT_CHARS
        invariant
            i <= FINGERPRINT_CHARS,
            digest@.len() == DIGEST_LEN,
            out@ == fingerprint_text(digest@).take(i as int),
        decreases FINGERPRINT_CHARS - i,
    {
        if i == 3 || i == 7 || i == 11 || i == 15 {
            out.push(' ');
        } else {
            let gaps: usize = if i < 16 {
                (i + 1) / 4
            } else {
                4
            };
            let k: usize = i - gaps;
            let at: usize = k / 8 * 5;
            let value: u64 = digest[at] as u64 * 0x1_0000_0000 + digest[at + 1] as u64 * 0x100_0000
                + digest[at + 2] as u64 * 0x1_0000 + digest[at + 3] as u64 * 0x100 + digest[at
                + 4] as u64;
            assert(value == block_value(digest@, k as int / 8));
            let digit: u8 = (value / pow32(7 - k % 8) % 32) as u8;
            assert(digit == base32_digit(digest@, k as int));
            out.push(digit_char(digit));
        }
        i = i + 1;
        assert(out@ =~= fingerprint_text(digest@).take(i as int));
    }
    assert(out@ =~= fingerprint_text(digest@));
    out
}

/// The fingerprint of a public key file.
pub fn pubkey_fingerprint(pub_blob: &[u8]) -> (r: String)
    ensures
        r@ == fingerprint_text(sha256(pub_blob@)),
{
    digest_fingerprint(sha256_digest(pub_blob).as_slice())
}

} // verus!
