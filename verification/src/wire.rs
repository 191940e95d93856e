//! Little-endian integers and length-prefixed fields, the building blocks of every format.

use vstd::prelude::*;

verus! {

/// The four bytes of `x`, least significant first.
#[verifier::opaque]
pub open spec fn le32(x: u32) -> Seq<u8> {
    seq![
        (x % 256) as u8,
        (x / 256 % 256) as u8,
        (x / 65536 % 256) as u8,
        (x / 16777216 % 256) as u8,
    ]
}

/// The number whose four bytes, least significant first, are `s`.
#[verifier::opaque]
pub open spec fn from_le32(s: Seq<u8>) -> u32
    recommends
        s.len() == 4,
{
    (s[0] + 256 * s[1] + 65536 * s[2] + 16777216 * s[3]) as u32
}

/// The eight bytes of `x`, least significant first.
#[verifier::opaque]
pub open spec fn le64(x: u64) -> Seq<u8> {
    le32((x % 0x1_0000_0000) as u32) + le32((x / 0x1_0000_0000) as u32)
}

/// The number whose eight bytes, least significant first, are `s`.
#[verifier::opaque]
pub open spec fn from_le64(s: Seq<u8>) -> u64
    recommends
        s.len() == 8,
{
    (from_le32(s.take(4)) + 0x1_0000_0000 * from_le32(s.skip(4))) as u64
}

/// `data` behind its length as a 32-bit number. A length that does not fit wraps around.
pub open spec fn prefixed(data: Seq<u8>) -> Seq<u8> {
    le32((data.len() % 0x1_0000_0000) as u32) + data
}

/// Splits a length-prefixed field off the front: the field and what follows it.
pub open spec fn split_prefixed(s: Seq<u8>) -> Option<(Seq<u8>, Seq<u8>)> {
    if s.len() < 4 {
        None
    } else {
        let n = from_le32(s.take(4)) as int;
        if s.len() < 4 + n {
            None
        } else {
            Some((s.subrange(4, 4 + n), s.skip(4 + n)))
        }
    }
}

/// Splits a length-prefixed field of at most `max` bytes off the front.
pub open spec fn split_limited(s: Seq<u8>, max: int) -> Option<(Seq<u8>, Seq<u8>)> {
    match split_prefixed(s) {
        Some((field, rest)) => if field.len() <= max {
            Some((field, rest))
        } else {
            None
        },
        None => None,
    }
}

/// What something that is being read still needs.
#[derive(Clone, Copy, Debug, PartialEq, Eq, Structural)]
pub enum Need {
    /// So many bytes more, before anything else can be said.
    More(usize),
    /// Nothing: it is all there.
    Complete,
    /// Nothing can mend it.
    Bad,
}

/// What a length-prefixed field of at most `max` bytes still needs.
pub open spec fn field_need(s: Seq<u8>, max: int) -> Need {
    if s.len() < 4 {
        Need::More((4 - s.len()) as usize)
    } else {
        let n = from_le32(s.take(4)) as int;
        if n > max {
            Need::Bad
        } else if s.len() < 4 + n {
            Need::More((4 + n - s.len()) as usize)
        } else {
            Need::Complete
        }
    }
}

/// Reading back what `le32` wrote gives the number.
pub proof fn law_le32_round_trip(x: u32)
    ensures
        le32(x).len() == 4,
        from_le32(le32(x)) == x,
{
    reveal(le32);
    reveal(from_le32);
}

/// Writing a number that was read gives the bytes it was read from.
pub proof fn law_from_le32_round_trip(s: Seq<u8>)
    requires
        s.len() == 4,
    ensures
        le32(from_le32(s)) == s,
{
    reveal(le32);
    reveal(from_le32);
    let (a, b, c, d) = (s[0], s[1], s[2], s[3]);
    let x = from_le32(s);
    assert(x == a + 256 * b + 65536 * c + 16777216 * d);
    assert(x % 256 == a);
    assert(x / 256 == b + 256 * c + 65536 * d);
    assert(x / 256 % 256 == b);
    assert(x / 65536 == c + 256 * d);
    assert(x / 65536 % 256 == c);
    assert(x / 16777216 == d);
    assert(le32(x) =~= s);
}

/// Reading back what `le64` wrote gives the number.
pub proof fn law_le64_round_trip(x: u64)
    ensures
        le64(x).len() == 8,
        from_le64(le64(x)) == x,
{
    reveal(le64);
    reveal(from_le64);
    let lo = (x % 0x1_0000_0000) as u32;
    let hi = (x / 0x1_0000_0000) as u32;
    law_le32_round_trip(lo);
    law_le32_round_trip(hi);
    assert(le64(x).take(4) =~= le32(lo));
    assert(le64(x).skip(4) =~= le32(hi));
}

/// A prefixed field splits off whole and leaves what follows it, whatever that is.
pub proof fn law_split_prefixed(data: Seq<u8>, rest: Seq<u8>)
    requires
        data.len() <= u32::MAX,
    ensures
        split_prefixed(prefixed(data) + rest) == Some((data, rest)),
{
    let n = data.len() as u32;
    let s = prefixed(data) + rest;
    law_le32_round_trip(n);
    assert(s.take(4) =~= le32(n));
    assert(s.subrange(4, 4 + n) =~= data);
    assert(s.skip(4 + n) =~= rest);
}

/// A field that splits off is the only way to write those bytes: the prefix, the field and
/// the rest put together are the input.
pub proof fn law_prefixed_is_canonical(s: Seq<u8>)
    ensures
        split_prefixed(s) matches Some((data, rest)) ==> prefixed(data) + rest == s,
{
    if let Some((data, rest)) = split_prefixed(s) {
        law_from_le32_round_trip(s.take(4));
        assert(prefixed(data) + rest =~= s);
    }
}

/// A number is the sum of its four bytes, each weighing 256 times as much as the one before it.
pub proof fn law_le32_weighs_bytes(x: u32)
    ensures
        le32(x).len() == 4,
        le32(x)[0] + 256 * le32(x)[1] + 65536 * le32(x)[2] + 16777216 * le32(x)[3] == x,
{
    reveal(le32);
}

/// A number that is read is the sum of its four bytes, each weighing 256 times as much as the one
/// before it.
pub proof fn law_from_le32_weighs_bytes(s: Seq<u8>)
    requires
        s.len() == 4,
    ensures
        from_le32(s) == s[0] + 256 * s[1] + 65536 * s[2] + 16777216 * s[3],
{
    reveal(from_le32);
}

/// A number is the sum of its eight bytes, each weighing 256 times as much as the one before it.
pub proof fn law_le64_weighs_bytes(x: u64)
    ensures
        le64(x).len() == 8,
        ({
            let b = le64(x);
            b[0] + 0x100 * b[1] + 0x1_0000 * b[2] + 0x100_0000 * b[3] + 0x1_0000_0000 * b[4]
                + 0x100_0000_0000 * b[5] + 0x1_0000_0000_0000 * b[6] + 0x100_0000_0000_0000 * b[7]
                == x
        }),
{
    reveal(le64);
    let lo = (x % 0x1_0000_0000) as u32;
    let hi = (x / 0x1_0000_0000) as u32;
    law_le32_weighs_bytes(lo);
    law_le32_weighs_bytes(hi);
    let b = le64(x);
    assert(b[0] == le32(lo)[0] && b[1] == le32(lo)[1] && b[2] == le32(lo)[2] && b[3] == le32(
        lo,
    )[3]);
    assert(b[4] == le32(hi)[0] && b[5] == le32(hi)[1] && b[6] == le32(hi)[2] && b[7] == le32(
        hi,
    )[3]);
}

/// A field stands unchanged behind four bytes, whose sum, each weighing 256 times as much as the
/// one before it, is its length.
pub proof fn law_prefix_is_the_length(data: Seq<u8>)
    requires
        data.len() <= u32::MAX,
    ensures
        ({
            let p = prefixed(data);
            &&& p.len() == 4 + data.len()
            &&& p.skip(4) == data
            &&& p[0] + 256 * p[1] + 65536 * p[2] + 16777216 * p[3] == data.len()
        }),
{
    let n = data.len() as u32;
    law_le32_weighs_bytes(n);
    let p = prefixed(data);
    assert(p.skip(4) =~= data);
    assert(p[0] == le32(n)[0] && p[1] == le32(n)[1] && p[2] == le32(n)[2] && p[3] == le32(n)[3]);
}

/// A field within the limit splits off whole, a longer one does not, and what splits off was such a
/// field.
pub proof fn law_limit_decides_on_fields(data: Seq<u8>, rest: Seq<u8>, s: Seq<u8>, max: int)
    requires
        data.len() <= u32::MAX,
    ensures
        data.len() <= max ==> split_limited(prefixed(data) + rest, max) == Some((data, rest)),
        data.len() > max ==> split_limited(prefixed(data) + rest, max) is None,
        split_limited(s, max) matches Some((field, behind)) ==> {
            &&& field.len() <= max
            &&& s == prefixed(field) + behind
        },
        split_limited(s, max) is Some ==> split_prefixed(s) == split_limited(s, max),
{
    law_split_prefixed(data, rest);
    law_prefixed_is_canonical(s);
}

/// A field still needs what is missing of the four bytes before it, and then what is missing of the
/// length that they give. It is bad exactly where that is over the limit, and complete exactly
/// where it can be split off.
pub proof fn law_field_need_is_what_is_missing(s: Seq<u8>, max: int)
    requires
        0 <= max <= 1048576,
    ensures
        s.len() < 4 ==> field_need(s, max) == Need::More((4 - s.len()) as usize),
        s.len() >= 4 ==> {
            let n = s[0] + 256 * s[1] + 65536 * s[2] + 16777216 * s[3];
            &&& n > max <==> field_need(s, max) is Bad
            &&& n <= max && s.len() < 4 + n <==> field_need(s, max) is More
            &&& n <= max && s.len() < 4 + n ==> field_need(s, max) == Need::More(
                (4 + n - s.len()) as usize,
            )
        },
        field_need(s, max) is Complete <==> split_limited(s, max) is Some,
{
    if s.len() >= 4 {
        law_from_le32_weighs_bytes(s.take(4));
    }
}

/// Appends the four bytes of `x`.
pub fn push_le32(out: &mut Vec<u8>, x: u32)
    ensures
        final(out)@ == old(out)@ + le32(x),
{
    proof {
        reveal(le32);
    }
    out.push((x % 256) as u8);
    out.push((x / 256 % 256) as u8);
    out.push((x / 65536 % 256) as u8);
    out.push((x / 16777216 % 256) as u8);
    assert(out@ =~= old(out)@ + le32(x));
}

/// Appends the eight bytes of `x`.
pub fn push_le64(out: &mut Vec<u8>, x: u64)
    ensures
        final(out)@ == old(out)@ + le64(x),
{
    proof {
        reveal(le64);
    }
    push_le32(out, (x % 0x1_0000_0000) as u32);
    push_le32(out, (x / 0x1_0000_0000) as u32);
    assert(out@ =~= old(out)@ + le64(x));
}

/// Reads the number in the four bytes that start at `at`.
pub fn read_le32(s: &[u8], at: usize) -> (x: u32)
    requires
        at + 4 <= s@.len(),
    ensures
        x == from_le32(s@.subrange(at as int, at + 4)),
{
    proof {
        reveal(from_le32);
    }
    s[at] as u32 + 256 * (s[at + 1] as u32) + 65536 * (s[at + 2] as u32) + 16777216 * (s[at
        + 3] as u32)
}

/// Appends a copy of `data`.
pub fn push_all(out: &mut Vec<u8>, data: &[u8])
    ensures
        final(out)@ == old(out)@ + data@,
{
    out.extend_from_slice(data);
    assert(out@ =~= old(out)@ + data@);
}

/// A copy of `data`.
pub fn copied(data: &[u8]) -> (r: Vec<u8>)
    ensures
        r@ == data@,
{
    let mut r: Vec<u8> = Vec::new();
    push_all(&mut r, data);
    assert(r@ =~= data@);
    r
}

/// Tells whether two byte strings are equal. Not for secrets.
pub fn bytes_eq(a: &[u8], b: &[u8]) -> (r: bool)
    ensures
        r == (a@ == b@),
{
    if a.len() != b.len() {
        return false;
    }
    let mut i: usize = 0;
    while i < a.len()
        invariant
            i <= a@.len(),
            a@.len() == b@.len(),
            forall|j: int| 0 <= j < i ==> a@[j] == b@[j],
        decreases a@.len() - i,
    {
        if a[i] != b[i] {
            assert(a@[i as int] != b@[i as int]);
            return false;
        }
        i = i + 1;
    }
    assert(a@ =~= b@);
    true
}

/// The length of `data` as the 32-bit number that stands before it.
pub fn prefix_len(data: &[u8]) -> (n: u32)
    ensures
        n == (data@.len() % 0x1_0000_0000) as u32,
{
    let len: u64 = data.len() as u64;
    (len % 0x1_0000_0000) as u32
}

/// Appends `data` behind its length as a 32-bit number.
pub fn push_u32_prefixed(out: &mut Vec<u8>, data: &[u8])
    ensures
        final(out)@ == old(out)@ + prefixed(data@),
{
    push_le32(out, prefix_len(data));
    push_all(out, data);
    assert(out@ =~= old(out)@ + prefixed(data@));
}

/// Takes exactly `n` bytes off the front, or nothing where fewer are left.
pub fn take_exact<'a>(cursor: &mut &'a [u8], n: usize) -> (r: Option<&'a [u8]>)
    ensures
        r is Some <==> n <= old(cursor)@.len(),
        r is None ==> final(cursor)@ == old(cursor)@,
        r matches Some(a) ==> {
            &&& a@ == old(cursor)@.take(n as int)
            &&& final(cursor)@ == old(cursor)@.skip(n as int)
        },
{
    if cursor.len() < n {
        return None;
    }
    let (a, b) = cursor.split_at(n);
    *cursor = b;
    Some(a)
}

/// Takes a length-prefixed field off the front. Where the field is cut short, the length in
/// front of it is gone from the cursor.
pub fn take_u32_prefixed<'a>(cursor: &mut &'a [u8]) -> (r: Option<&'a [u8]>)
    ensures
        r is Some <==> split_prefixed(old(cursor)@) is Some,
        r matches Some(a) ==> split_prefixed(old(cursor)@) == Some((a@, final(cursor)@)),
        r is None ==> final(cursor)@ == if old(cursor)@.len() < 4 {
            old(cursor)@
        } else {
            old(cursor)@.skip(4)
        },
{
    let ghost start = cursor@;
    let len_bytes = match take_exact(cursor, 4) {
        Some(b) => b,
        None => return None,
    };
    assert(len_bytes@.subrange(0, 4) =~= start.take(4));
    let len: usize = read_le32(len_bytes, 0) as usize;
    let field = take_exact(cursor, len);
    proof {
        if let Some(a) = field {
            assert(a@ =~= start.subrange(4, 4 + len));
            assert(cursor@ =~= start.skip(4 + len));
        }
    }
    field
}

/// Tells what a length-prefixed field of at most `max` bytes at `at` still needs, and where it
/// ends.
pub fn limited_need(s: &[u8], at: usize, max: usize) -> (r: (Need, usize))
    requires
        at <= s@.len(),
        max <= 1048576,
    ensures
        r.0 == field_need(s@.skip(at as int), max as int),
        r.0 is Complete ==> {
            &&& split_prefixed(s@.skip(at as int)) matches Some((_, rest)) && rest == s@.skip(
                r.1 as int,
            )
            &&& at <= r.1 <= s@.len()
        },
{
    let ghost field = s@.skip(at as int);
    let left: usize = s.len() - at;
    if left < 4 {
        return (Need::More(4 - left), at);
    }
    let n: usize = read_le32(s, at) as usize;
    assert(s@.subrange(at as int, at + 4) =~= field.take(4));
    if n > max {
        return (Need::Bad, at);
    }
    if left < 4 + n {
        return (Need::More(4 + n - left), at);
    }
    assert(field.skip(4 + n) =~= s@.skip(at + 4 + n));
    (Need::Complete, at + 4 + n)
}

/// What a field still needs when more is read: what is bad stays bad, what is there stays there,
/// and nothing less than what is needed makes it complete.
pub proof fn law_field_is_read_exactly(s: Seq<u8>, t: Seq<u8>, max: int)
    requires
        max <= 1048576,
    ensures
        field_need(s, max) is Bad ==> field_need(s + t, max) is Bad,
        field_need(s, max) is Complete ==> {
            &&& field_need(s + t, max) is Complete
            &&& (split_prefixed(s + t)->0).1 == (split_prefixed(s)->0).1 + t
        },
        field_need(s, max) matches Need::More(n) ==> {
            &&& 0 < n
            &&& t.len() < n ==> field_need(s + t, max) is More
            &&& t.len() == n && field_need(s + t, max) is Complete ==> (split_prefixed(s
                + t)->0).1.len() == 0
        },
{
    let both = s + t;
    if s.len() >= 4 {
        assert(both.take(4) =~= s.take(4));
        let n = from_le32(s.take(4)) as int;
        if s.len() >= 4 + n {
            assert(both.skip(4 + n) =~= s.skip(4 + n) + t);
        }
    }
}

} // verus!
