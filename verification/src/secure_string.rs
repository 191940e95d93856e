//! A passphrase as it is typed: text in memory that is wiped, edited a character at a time.

use crate::secure::SecureBuf;
use vstd::prelude::*;
use vstd::utf8::*;

verus! {

/// The most bytes that a passphrase can have. The memory is reserved at once, so that nothing
/// is ever copied to a larger place.
pub const MAX_PASSPHRASE: usize = 1024;

// ---------------------------------------------------------------------------
// The shape of encoded text
// ---------------------------------------------------------------------------

proof fn lemma_encode_concat(a: Seq<char>, b: Seq<char>)
    ensures
        encode_utf8(a + b) == encode_utf8(a) + encode_utf8(b),
    decreases a.len(),
{
    if a.len() == 0 {
        assert(a + b =~= b);
        assert(encode_utf8(a) + encode_utf8(b) =~= encode_utf8(b));
    } else {
        assert((a + b).drop_first() =~= a.drop_first() + b);
        lemma_encode_concat(a.drop_first(), b);
        assert(encode_utf8(a + b) =~= encode_utf8(a) + encode_utf8(b));
    }
}

/// One character is encoded as a byte that is no continuation, followed by continuations.
proof fn lemma_scalar_shape(c: char)
    ensures
        ({
            let s = encode_scalar(c as u32);
            &&& encode_utf8(seq![c]) == s
            &&& s.len() >= 1
            &&& !is_continuation_byte(s[0])
            &&& forall|i: int| 1 <= i < s.len() ==> is_continuation_byte(#[trigger] s[i])
        }),
{
    let one = seq![c];
    let s = encode_scalar(c as u32);
    encode_utf8_first_scalar(one);
    assert(one.drop_first() =~= Seq::<char>::empty());
    assert(encode_utf8(one.drop_first()) =~= Seq::<u8>::empty());
    assert(encode_utf8(one) =~= s);
}

proof fn lemma_encode_last(chars: Seq<char>)
    requires
        chars.len() > 0,
    ensures
        encode_utf8(chars) == encode_utf8(chars.drop_last()) + encode_scalar(chars.last() as u32),
{
    assert(chars =~= chars.drop_last() + seq![chars.last()]);
    lemma_encode_concat(chars.drop_last(), seq![chars.last()]);
    lemma_scalar_shape(chars.last());
}

/// The number of bytes that are no continuations.
spec fn lead_count(bytes: Seq<u8>) -> nat
    decreases bytes.len(),
{
    if bytes.len() == 0 {
        0
    } else {
        lead_count(bytes.drop_last()) + if is_continuation_byte(bytes.last()) {
            0nat
        } else {
            1nat
        }
    }
}

proof fn lemma_lead_count_scalar(head: Seq<u8>, s: Seq<u8>)
    requires
        s.len() >= 1,
        !is_continuation_byte(s[0]),
        forall|i: int| 1 <= i < s.len() ==> is_continuation_byte(#[trigger] s[i]),
    ensures
        lead_count(head + s) == lead_count(head) + 1,
    decreases s.len(),
{
    let all = head + s;
    assert(all.last() == s.last());
    if s.len() == 1 {
        assert(all.drop_last() =~= head);
    } else {
        assert(all.drop_last() =~= head + s.drop_last());
        assert forall|i: int| 1 <= i < s.drop_last().len() implies is_continuation_byte(
            #[trigger] s.drop_last()[i],
        ) by {
            assert(s.drop_last()[i] == s[i]);
        }
        lemma_lead_count_scalar(head, s.drop_last());
    }
}

proof fn lemma_lead_count_is_char_count(chars: Seq<char>)
    ensures
        lead_count(encode_utf8(chars)) == chars.len(),
    decreases chars.len(),
{
    if chars.len() > 0 {
        lemma_encode_last(chars);
        lemma_scalar_shape(chars.last());
        lemma_lead_count_scalar(encode_utf8(chars.drop_last()), encode_scalar(chars.last() as u32));
        lemma_lead_count_is_char_count(chars.drop_last());
    }
}

fn is_continuation(b: u8) -> (r: bool)
    ensures
        r == is_continuation_byte(b),
{
    assert((b & 0xC0) == 0x80 <==> 0x80 <= b <= 0xbf) by (bit_vector);
    (b & 0xC0) == 0x80
}

// ---------------------------------------------------------------------------
// The passphrase
// ---------------------------------------------------------------------------

/// A passphrase after a text was typed: the text is appended if all of it fits.
pub open spec fn after_push(chars: Seq<char>, text: Seq<char>) -> Seq<char> {
    if encode_utf8(chars).len() + encode_utf8(text).len() <= MAX_PASSPHRASE {
        chars + text
    } else {
        chars
    }
}

/// A passphrase after its last character was removed.
pub open spec fn after_pop(chars: Seq<char>) -> Seq<char> {
    if chars.len() == 0 {
        chars
    } else {
        chars.drop_last()
    }
}

/// Removing a character undoes typing it, whatever the number of its bytes, where it fitted.
pub proof fn law_pop_undoes_push(chars: Seq<char>, c: char)
    requires
        encode_utf8(chars).len() + encode_utf8(seq![c]).len() <= MAX_PASSPHRASE,
    ensures
        after_pop(after_push(chars, seq![c])) == chars,
{
    assert((chars + seq![c]).drop_last() =~= chars);
}

/// A typed text is appended whole where the passphrase then has at most 1024 bytes, and not at all
/// otherwise. Removing takes the last character away, and nothing from an empty passphrase.
pub proof fn law_typing_and_removing(chars: Seq<char>, text: Seq<char>, c: char)
    ensures
        encode_utf8(chars + text).len() <= 1024 ==> after_push(chars, text) == chars + text,
        encode_utf8(chars + text).len() > 1024 ==> after_push(chars, text) == chars,
        after_pop(chars.push(c)) == chars,
        after_pop(Seq::empty()) == Seq::<char>::empty(),
{
    lemma_encode_concat(chars, text);
    assert(chars.push(c).drop_last() =~= chars);
}

/// Typing never makes a passphrase longer than the limit.
pub proof fn law_push_keeps_the_limit(chars: Seq<char>, text: Seq<char>)
    requires
        encode_utf8(chars).len() <= MAX_PASSPHRASE,
    ensures
        encode_utf8(after_push(chars, text)).len() <= MAX_PASSPHRASE,
{
    lemma_encode_concat(chars, text);
}

/// A passphrase of at most `MAX_PASSPHRASE` bytes.
pub struct SecureString {
    buf: SecureBuf,
}

impl SecureString {
    /// The bytes are text, and there is room for the longest passphrase.
    pub closed spec fn wf(&self) -> bool {
        &&& self.buf.wf()
        &&& self.buf.capacity() == MAX_PASSPHRASE
        &&& valid_utf8(self.buf@)
    }

    /// The bytes of the passphrase.
    pub closed spec fn bytes(&self) -> Seq<u8> {
        self.buf@
    }

    /// The characters of the passphrase.
    pub closed spec fn view(&self) -> Seq<char> {
        decode_utf8(self.buf@)
    }

    /// The bytes of a passphrase are the UTF-8 form of its characters, and at most
    /// `MAX_PASSPHRASE` of them.
    pub proof fn law_bytes_are_utf8(&self)
        requires
            self.wf(),
        ensures
            self.bytes() == encode_utf8(self@),
            self.bytes().len() <= MAX_PASSPHRASE,
            valid_utf8(self.bytes()),
            self@ == decode_utf8(self.bytes()),
    {
        decode_utf8_encode_utf8(self.buf@);
        self.buf.law_spare_memory_is_zero();
    }

    /// An empty passphrase.
    pub fn new() -> (r: SecureString)
        ensures
            r.wf(),
            r@ == Seq::<char>::empty(),
    {
        SecureString { buf: SecureBuf::with_capacity(MAX_PASSPHRASE) }
    }

    /// Appends a text, if all of it fits. Otherwise nothing changes.
    pub fn push_str(&mut self, s: &str)
        requires
            old(self).wf(),
        ensures
            final(self).wf(),
            final(self)@ == after_push(old(self)@, s@),
            final(self)@ == if encode_utf8(old(self)@).len() + encode_utf8(s@).len() <= 1024 {
                old(self)@ + s@
            } else {
                old(self)@
            },
    {
        let bytes = s.as_bytes();
        proof {
            self.law_bytes_are_utf8();
        }
        if bytes.len() <= MAX_PASSPHRASE - self.buf.len() {
            let ghost chars = self@ + s@;
            proof {
                lemma_encode_concat(self@, s@);
                encode_utf8_valid_utf8(chars);
                encode_utf8_decode_utf8(chars);
            }
            self.buf.push_bytes(bytes);
        }
    }

    /// Removes the last character, with all of its bytes. An empty passphrase stays empty.
    pub fn pop_char(&mut self)
        requires
            old(self).wf(),
        ensures
            final(self).wf(),
            final(self)@ == after_pop(old(self)@),
            old(self)@.len() > 0 ==> final(self)@ == old(self)@.drop_last(),
            old(self)@.len() == 0 ==> final(self)@ == old(self)@,
    {
        let n: usize = self.buf.len();
        proof {
            self.law_bytes_are_utf8();
        }
        if n == 0 {
            return ;
        }
        let ghost chars = self@;
        let ghost head = encode_utf8(chars.drop_last());
        let ghost s = encode_scalar(chars.last() as u32);
        proof {
            assert(chars.len() > 0);
            lemma_encode_last(chars);
            lemma_scalar_shape(chars.last());
        }
        let bytes = self.buf.as_slice();
        let mut i: usize = n - 1;
        while i > 0 && is_continuation(bytes[i])
            invariant
                bytes@ == head + s,
                s.len() >= 1,
                !is_continuation_byte(s[0]),
                forall|j: int| 1 <= j < s.len() ==> is_continuation_byte(#[trigger] s[j]),
                head.len() <= i < bytes@.len(),
            ensures
                i == head.len(),
            decreases i,
        {
            assert(bytes@[head.len() as int] == s[0]);
            i = i - 1;
        }
        self.buf.truncate_wiped(i);
        proof {
            assert(self.buf@ =~= head);
            encode_utf8_valid_utf8(chars.drop_last());
            encode_utf8_decode_utf8(chars.drop_last());
        }
    }

    /// The number of characters.
    pub fn char_count(&self) -> (n: usize)
        requires
            self.wf(),
        ensures
            n == self@.len(),
    {
        let bytes = self.buf.as_slice();
        let mut n: usize = 0;
        let mut i: usize = 0;
        while i < bytes.len()
            invariant
                i <= bytes@.len(),
                n <= i,
                n == lead_count(bytes@.take(i as int)),
            decreases bytes@.len() - i,
        {
            assert(bytes@.take(i + 1).drop_last() =~= bytes@.take(i as int));
            if !is_continuation(bytes[i]) {
                n = n + 1;
            }
            i = i + 1;
        }
        proof {
            assert(bytes@.take(i as int) =~= bytes@);
            self.law_bytes_are_utf8();
            lemma_lead_count_is_char_count(self@);
        }
        n
    }

    /// The bytes of the passphrase.
    pub fn as_bytes(&self) -> (s: &[u8])
        requires
            self.wf(),
        ensures
            s@ == self.bytes(),
            s@ == encode_utf8(self@),
    {
        proof {
            self.law_bytes_are_utf8();
        }
        self.buf.as_slice()
    }

    /// Whether nothing was typed.
    pub fn is_empty(&self) -> (r: bool)
        requires
            self.wf(),
        ensures
            r == (self@.len() == 0),
    {
        proof {
            self.law_bytes_are_utf8();
            if self@.len() > 0 {
                lemma_encode_last(self@);
                lemma_scalar_shape(self@.last());
            }
        }
        self.buf.len() == 0
    }

    /// Wipes the passphrase.
    pub fn clear(&mut self)
        requires
            old(self).wf(),
        ensures
            final(self).wf(),
            final(self)@ == Seq::<char>::empty(),
    {
        self.buf.clear();
    }

    /// Hands the passphrase over and leaves an empty one behind.
    pub fn take(&mut self) -> (r: SecureString)
        requires
            old(self).wf(),
        ensures
            r.wf(),
            r@ == old(self)@,
            final(self).wf(),
            final(self)@ == Seq::<char>::empty(),
    {
        let mut r = SecureString::new();
        std::mem::swap(self, &mut r);
        r
    }
}

/// Whether two byte strings are equal, found out in a time that depends on their lengths alone.
pub fn ct_eq(a: &[u8], b: &[u8]) -> (r: bool)
    ensures
        r == (a@ == b@),
{
    if a.len() != b.len() {
        return false;
    }
    let mut diff: u8 = 0;
    let mut i: usize = 0;
    assert(a@.take(0) =~= b@.take(0));
    while i < a.len()
        invariant
            i <= a@.len(),
            a@.len() == b@.len(),
            diff == 0 <==> a@.take(i as int) == b@.take(i as int),
        decreases a@.len() - i,
    {
        let x: u8 = a[i];
        let y: u8 = b[i];
        let ghost before = diff;
        diff = diff | (x ^ y);
        proof {
            assert((before | (x ^ y)) == 0 <==> before == 0 && x == y) by (bit_vector);
            let p = a@.take(i as int);
            let q = b@.take(i as int);
            assert(a@.take(i + 1) =~= p.push(x));
            assert(b@.take(i + 1) =~= q.push(y));
            assert(p.push(x).drop_last() =~= p);
            assert(q.push(y).drop_last() =~= q);
            assert(p.push(x).last() == x);
            assert(q.push(y).last() == y);
        }
        i = i + 1;
    }
    proof {
        assert(a@.take(i as int) =~= a@);
        assert(b@.take(i as int) =~= b@);
    }
    fence();
    diff == 0
}

/// `compiler_fence`: keeps the compiler from moving memory accesses across this place. It
/// changes no value.
#[verifier::external_body]
fn fence() {
    std::sync::atomic::compiler_fence(std::sync::atomic::Ordering::SeqCst)
}

} // verus!
