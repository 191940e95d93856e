//! Memory for secrets: buffers that never reallocate and are wiped when they are shortened
//! or dropped, the layout of a guarded region of pages, and the record of failed locks.

use vstd::prelude::*;
use zeroize::Zeroize;

verus! {

/// Exit code of a process in strict mode when a region could not be locked.
pub const EXIT_CODE_STRICT_MLOCK_FAILED: i32 = 7;

/// Exit code of an operation that succeeded although a region could not be locked. What it
/// wrote is correct and complete.
pub const EXIT_CODE_DEGRADED_LOCK: i32 = 8;

/// How a process deals with regions that could not be locked, and how many there were.
#[derive(Clone, Copy, Debug, PartialEq, Eq, Structural)]
pub struct LockState {
    /// In strict mode the first failure ends the process.
    pub strict: bool,
    /// The number of failures so far.
    pub failures: u32,
}

/// Switches strict mode on or off. The count of failures stays.
pub fn set_strict_mode(state: &mut LockState, on: bool)
    ensures
        *final(state) == (LockState { strict: on, failures: old(state).failures }),
{
    state.strict = on;
}

/// The number of failures so far.
pub fn lock_failure_count(state: &LockState) -> (n: u32)
    ensures
        n == state.failures,
{
    state.failures
}

/// Counts a failure. The result is the exit code with which a process in strict mode has to
/// end at once; outside strict mode the process goes on. The count wraps around.
pub fn record_lock_failure(state: &mut LockState) -> (exit: Option<i32>)
    ensures
        final(state).strict == old(state).strict,
        final(state).failures == (if old(state).failures == u32::MAX {
            0
        } else {
            old(state).failures + 1
        }),
        exit == (if old(state).strict {
            Some(EXIT_CODE_STRICT_MLOCK_FAILED)
        } else {
            None
        }),
        exit == (if old(state).strict {
            Some(7i32)
        } else {
            None
        }),
{
    state.failures = state.failures.wrapping_add(1);
    if state.strict {
        Some(EXIT_CODE_STRICT_MLOCK_FAILED)
    } else {
        None
    }
}

/// Counts what became of the locking of a new region. The result is the exit code with which the
/// process has to end at once, if it has to.
pub fn note_lock(state: &mut LockState, locked: bool) -> (exit: Option<i32>)
    ensures
        *final(state) == after_lock(*old(state), locked),
        exit == (if old(state).strict && !locked {
            Some(EXIT_CODE_STRICT_MLOCK_FAILED)
        } else {
            None
        }),
        exit == (if old(state).strict && !locked {
            Some(7i32)
        } else {
            None
        }),
        final(state).strict == old(state).strict,
        locked ==> final(state).failures == old(state).failures,
        !locked && old(state).failures < u32::MAX ==> final(state).failures == old(state).failures
            + 1,
{
    if locked {
        None
    } else {
        record_lock_failure(state)
    }
}

/// The state after the locking of a region succeeded or failed.
pub open spec fn after_lock(state: LockState, locked: bool) -> LockState {
    if locked {
        state
    } else {
        LockState {
            failures: if state.failures == u32::MAX {
                0
            } else {
                (state.failures + 1) as u32
            },
            ..state
        }
    }
}

/// The state after the locking of one region after the other.
pub open spec fn after_locks(state: LockState, locked: Seq<bool>) -> LockState
    decreases locked.len(),
{
    if locked.len() == 0 {
        state
    } else {
        after_lock(after_locks(state, locked.drop_last()), locked.last())
    }
}

/// How many lockings failed.
pub open spec fn failed_locks(locked: Seq<bool>) -> nat
    decreases locked.len(),
{
    if locked.len() == 0 {
        0
    } else {
        failed_locks(locked.drop_last()) + if locked.last() {
            0nat
        } else {
            1nat
        }
    }
}

/// The count is the number of lockings that failed since the process began, as long as that fits,
/// and the mode stays as it was.
pub proof fn law_count_is_the_number_of_failures(strict: bool, locked: Seq<bool>)
    requires
        failed_locks(locked) <= u32::MAX,
    ensures
        after_locks(LockState { strict, failures: 0 }, locked) == (LockState {
            strict,
            failures: failed_locks(locked) as u32,
        }),
    decreases locked.len(),
{
    if locked.len() > 0 {
        law_count_is_the_number_of_failures(strict, locked.drop_last());
    }
}

/// The count never decreases while it fits.
pub proof fn law_count_never_decreases(state: LockState, locked: Seq<bool>)
    requires
        state.failures + failed_locks(locked) <= u32::MAX,
    ensures
        after_locks(state, locked).failures == state.failures + failed_locks(locked),
        after_locks(state, locked).failures >= state.failures,
    decreases locked.len(),
{
    if locked.len() > 0 {
        law_count_never_decreases(state, locked.drop_last());
    }
}

/// The least multiple of `page` that is not below `n`.
pub open spec fn spec_round_up_to_page(n: int, page: int) -> int {
    if n % page == 0 {
        n
    } else {
        n - n % page + page
    }
}

/// The page size to reckon with, given what the system reported. A report that makes no
/// sense counts as 4096.
pub fn page_size(reported: i64) -> (page: usize)
    requires
        reported <= usize::MAX,
    ensures
        page == if reported > 0 {
            reported as int
        } else {
            4096
        },
        page > 0,
{
    if reported > 0 {
        reported as usize
    } else {
        4096
    }
}

/// Rounds `n` up to whole pages.
pub fn round_up_to_page(n: usize, page: usize) -> (r: usize)
    requires
        page > 0,
        spec_round_up_to_page(n as int, page as int) <= usize::MAX,
    ensures
        r == spec_round_up_to_page(n as int, page as int),
{
    let rest: usize = n % page;
    if rest == 0 {
        n
    } else {
        proof {
            vstd::arithmetic::div_mod::lemma_mod_decreases(n as nat, page as nat);
        }
        n - rest + page
    }
}

/// Rounding up gives whole pages, as few as hold `n` bytes.
pub proof fn law_round_up_to_page(n: int, page: int)
    requires
        n >= 0,
        page > 0,
    ensures
        spec_round_up_to_page(n, page) % page == 0,
        n <= spec_round_up_to_page(n, page) < n + page,
{
    let rest = n % page;
    assert(0 <= rest < page) by (nonlinear_arith)
        requires
            page > 0,
            rest == n % page,
    ;
    vstd::arithmetic::div_mod::lemma_fundamental_div_mod(n, page);
    let q = n / page;
    assert(n - rest == q * page) by (nonlinear_arith)
        requires
            n == page * q + rest,
    ;
    vstd::arithmetic::div_mod::lemma_mod_multiples_basic(q, page);
    assert((q + 1) * page == q * page + page) by (nonlinear_arith);
    vstd::arithmetic::div_mod::lemma_mod_multiples_basic(q + 1, page);
}

/// Where the parts of a mapping lie: an inaccessible page, the data, an inaccessible page.
#[derive(Clone, Copy, Debug, PartialEq, Eq, Structural)]
pub struct RegionLayout {
    /// The length of the whole mapping.
    pub total_len: usize,
    /// Where the data begins. The pages before it are the front guard.
    pub data_offset: usize,
    /// The length of the data, in whole pages.
    pub data_cap: usize,
    /// Where the rear guard begins.
    pub rear_guard_offset: usize,
    /// The length of each guard.
    pub guard_len: usize,
}

/// The data pages that a region for `min_bytes` bytes has.
pub open spec fn region_data_cap(min_bytes: int, page: int) -> int {
    spec_round_up_to_page(if min_bytes < 1 {
        1
    } else {
        min_bytes
    }, page)
}

/// Lays out a region that holds at least `min_bytes` bytes, or `None` where its length does
/// not fit in memory.
pub fn region_layout(min_bytes: usize, page: usize) -> (r: Option<RegionLayout>)
    requires
        page > 0,
    ensures
        r is Some <==> region_data_cap(min_bytes as int, page as int) + 2 * page <= usize::MAX,
        r matches Some(l) ==> {
            &&& l.data_cap == region_data_cap(min_bytes as int, page as int)
            &&& l.guard_len == page
            &&& l.data_offset == page
            &&& l.rear_guard_offset == page + l.data_cap
            &&& l.total_len == l.data_cap + 2 * page
        },
{
    let wanted: usize = if min_bytes < 1 {
        1
    } else {
        min_bytes
    };
    proof {
        law_round_up_to_page(wanted as int, page as int);
    }
    let rest: usize = wanted % page;
    assert(rest < page) by (nonlinear_arith)
        requires
            page > 0,
            rest == wanted % page,
    ;
    let missing: usize = if rest == 0 {
        0
    } else {
        page - rest
    };
    if missing > usize::MAX - wanted {
        return None;
    }
    let data_cap: usize = round_up_to_page(wanted, page);
    if page > usize::MAX - data_cap || page > usize::MAX - data_cap - page {
        return None;
    }
    Some(
        RegionLayout {
            total_len: data_cap + page + page,
            data_offset: page,
            data_cap,
            rear_guard_offset: page + data_cap,
            guard_len: page,
        },
    )
}

/// A laid out region holds what was asked for, in whole pages, and its guards enclose the
/// data without a gap and without touching it.
pub proof fn law_guards_enclose_data(min_bytes: int, page: int)
    requires
        min_bytes >= 0,
        page > 0,
    ensures
        ({
            let cap = region_data_cap(min_bytes, page);
            &&& cap >= min_bytes
            &&& cap >= page
            &&& cap % page == 0
            &&& (page + cap) % page == 0
        }),
{
    let wanted = if min_bytes < 1 {
        1
    } else {
        min_bytes
    };
    law_round_up_to_page(wanted, page);
    let cap = region_data_cap(min_bytes, page);
    vstd::arithmetic::div_mod::lemma_mod_add_multiples_vanish(cap, page);
    assert(cap >= page) by {
        if cap < page {
            vstd::arithmetic::div_mod::lemma_small_mod(cap as nat, page as nat);
        }
    }
}

/// A region has no more pages than it takes to hold what was asked for.
pub proof fn law_regions_are_no_larger_than_needed(min_bytes: int, page: int)
    requires
        min_bytes >= 0,
        page > 0,
    ensures
        min_bytes > 0 ==> region_data_cap(min_bytes, page) < min_bytes + page,
        min_bytes == 0 ==> region_data_cap(min_bytes, page) == page,
{
    law_guards_enclose_data(min_bytes, page);
    law_round_up_to_page(if min_bytes < 1 {
        1
    } else {
        min_bytes
    }, page);
}

/// Wiped memory is nothing but zeros.
pub proof fn law_zeros(n: nat)
    ensures
        zeros(n as int).len() == n,
        forall|i: int| 0 <= i < n ==> #[trigger] zeros(n as int)[i] == 0,
{
}

/// A string of `n` zero bytes.
pub open spec fn zeros(n: int) -> Seq<u8> {
    Seq::new(n as nat, |i: int| 0u8)
}

/// Overwrites the bytes from `from` on by `zeroize`, which writes zeros in a way that the
/// compiler does not remove. The bytes before `from` stay.
#[verifier::external_body]
pub(crate) fn wipe(bytes: &mut Vec<u8>, from: usize)
    requires
        from <= old(bytes)@.len(),
    ensures
        final(bytes)@ == old(bytes)@.take(from as int) + zeros(old(bytes)@.len() - from),
    opens_invariants none
    no_unwind
{
    bytes[from..].zeroize();
}

/// A block of memory of a fixed size for a secret. It is wiped when it is dropped.
pub struct SecureBytes {
    bytes: Vec<u8>,
}

impl SecureBytes {
    /// The bytes of the block.
    pub closed spec fn view(&self) -> Seq<u8> {
        self.bytes@
    }

    /// A block of `min_bytes` zero bytes, and of one byte where none is asked for.
    pub fn new(min_bytes: usize) -> (r: SecureBytes)
        ensures
            r@ == zeros(if min_bytes < 1 {
                1
            } else {
                min_bytes as int
            }),
    {
        let n: usize = if min_bytes < 1 {
            1
        } else {
            min_bytes
        };
        let r = SecureBytes { bytes: vec![0u8; n] };
        assert(r.bytes@ =~= zeros(n as int));
        r
    }

    /// The whole block, to be written.
    pub fn as_mut_ptr(&mut self) -> (s: &mut [u8])
        ensures
            s@ == old(self)@,
            final(self)@ == final(s)@,
    {
        self.bytes.as_mut_slice()
    }
}

impl Drop for SecureBytes {
    /// Wipes the whole block.
    fn drop(&mut self)
        ensures
            final(self)@ == zeros(old(self)@.len() as int),
        opens_invariants none
        no_unwind
    {
        wipe(&mut self.bytes, 0);
    }
}

/// A buffer for a secret, with a capacity that never changes. What lies beyond its length is
/// zero, so that nothing of a secret outlives its removal.
pub struct SecureBuf {
    mem: SecureBytes,
    cap: usize,
    len: usize,
}

impl SecureBuf {
    /// The bytes in use.
    pub closed spec fn view(&self) -> Seq<u8> {
        self.mem@.take(self.len as int)
    }

    /// How many bytes the buffer can hold.
    pub closed spec fn capacity(&self) -> nat {
        self.cap as nat
    }

    /// The bytes in use fit, and all others are zero.
    pub closed spec fn wf(&self) -> bool {
        &&& self.mem@.len() == if self.cap < 1 {
            1
        } else {
            self.cap as nat
        }
        &&& self.len <= self.cap
        &&& self.mem@.skip(self.len as int) == zeros(self.mem@.len() - self.len)
    }

    /// The whole memory of the buffer, in use or not.
    pub closed spec fn memory(&self) -> Seq<u8> {
        self.mem@
    }

    /// A well-formed buffer holds no more than it has room for, has memory for at least one byte,
    /// and its memory is what it holds followed by zeros.
    pub proof fn law_spare_memory_is_zero(&self)
        requires
            self.wf(),
        ensures
            self@.len() <= self.capacity() <= usize::MAX,
            self.memory().len() == if self.capacity() < 1 {
                1
            } else {
                self.capacity()
            },
            self.memory() == self@ + zeros(self.memory().len() - self@.len()),
    {
        assert(self.memory() =~= self@ + self.mem@.skip(self.len as int));
    }

    /// An empty buffer for `capacity` bytes.
    pub fn with_capacity(capacity: usize) -> (r: SecureBuf)
        ensures
            r.wf(),
            r@ == Seq::<u8>::empty(),
            r.capacity() == capacity,
    {
        let r = SecureBuf { mem: SecureBytes::new(capacity), cap: capacity, len: 0 };
        assert(r@ =~= Seq::<u8>::empty());
        assert(r.mem@.skip(0) =~= r.mem@);
        r
    }

    /// A buffer that holds a copy of `src` and has room for nothing more.
    pub fn from_slice(src: &[u8]) -> (r: SecureBuf)
        ensures
            r.wf(),
            r@ == src@,
            r.capacity() == src@.len(),
    {
        let mut b = SecureBuf::with_capacity(src.len());
        b.push_bytes(src);
        assert(b@ =~= src@);
        b
    }

    /// Appends `extra`, which has to fit: the buffer never reallocates.
    pub fn push_bytes(&mut self, extra: &[u8])
        requires
            old(self).wf(),
            old(self)@.len() + extra@.len() <= old(self).capacity(),
        ensures
            final(self).wf(),
            final(self)@ == old(self)@ + extra@,
            final(self).capacity() == old(self).capacity(),
    {
        let start: usize = self.len;
        let cap: usize = self.cap;
        let ghost before = self.mem@;
        let mut i: usize = 0;
        while i < extra.len()
            invariant
                self.len == start,
                self.cap == cap,
                start + extra@.len() <= before.len() <= usize::MAX,
                i <= extra@.len(),
                self.mem@.len() == before.len(),
                self.mem@ == before.take(start as int) + extra@.take(i as int) + before.skip(
                    start + i,
                ),
            decreases extra@.len() - i,
        {
            self.mem.bytes[start + i] = extra[i];
            i = i + 1;
            assert(self.mem@ =~= before.take(start as int) + extra@.take(i as int) + before.skip(
                start + i,
            ));
        }
        self.len = start + extra.len();
        proof {
            assert(extra@.take(i as int) =~= extra@);
            assert(self@ =~= before.take(start as int) + extra@);
            let tail = self.mem@.skip(self.len as int);
            assert(tail =~= before.skip(start + i));
            assert forall|j: int| 0 <= j < tail.len() implies tail[j] == 0 by {
                assert(before.skip(start as int)[j + i] == 0);
            }
            assert(tail =~= zeros(self.mem@.len() - self.len));
        }
    }

    /// Extends the buffer to its capacity with zeros, so that it can be written in place.
    pub fn fill_to_capacity(&mut self)
        requires
            old(self).wf(),
        ensures
            final(self).wf(),
            final(self).capacity() == old(self).capacity(),
            final(self)@ == old(self)@ + zeros(old(self).capacity() - old(self)@.len()),
    {
        let ghost before = *self;
        proof {
            before.law_spare_memory_is_zero();
        }
        self.len = self.cap;
        assert(self@ =~= before@ + zeros(before.capacity() - before@.len()));
        assert(self.mem@.skip(self.len as int) =~= zeros(self.mem@.len() - self.len));
    }

    /// Shortens the buffer to `n` bytes and wipes the rest. A buffer that is not longer stays
    /// as it is.
    pub fn truncate_wiped(&mut self, n: usize)
        requires
            old(self).wf(),
        ensures
            final(self).wf(),
            final(self).capacity() == old(self).capacity(),
            final(self)@ == if n < old(self)@.len() {
                old(self)@.take(n as int)
            } else {
                old(self)@
            },
    {
        if n < self.len {
            let ghost before = *self;
            wipe(&mut self.mem.bytes, n);
            self.len = n;
            proof {
                assert(self@ =~= before@.take(n as int));
                assert(self.mem@.skip(n as int) =~= zeros(self.mem@.len() - n));
            }
        }
    }

    /// The number of bytes in use.
    pub fn len(&self) -> (n: usize)
        requires
            self.wf(),
        ensures
            n == self@.len(),
    {
        self.len
    }

    /// The bytes in use.
    pub fn as_slice(&self) -> (s: &[u8])
        requires
            self.wf(),
        ensures
            s@ == self@,
    {
        let (head, _tail) = self.mem.bytes.as_slice().split_at(self.len);
        head
    }

    /// The bytes in use, to be written in place.
    pub fn as_mut_slice(&mut self) -> (s: &mut [u8])
        requires
            old(self).wf(),
        ensures
            s@ == old(self)@,
            final(s)@.len() == s@.len() ==> {
                &&& final(self).wf()
                &&& final(self)@ == final(s)@
                &&& final(self).capacity() == old(self).capacity()
            },
    {
        let ghost before = *self;
        let (head, _tail) = self.mem.bytes.as_mut_slice().split_at_mut(self.len);
        assert(final(head)@.len() == before.len ==> (final(head)@ + before.mem@.skip(
            before.len as int,
        )).take(before.len as int) =~= final(head)@);
        assert(final(head)@.len() == before.len ==> (final(head)@ + before.mem@.skip(
            before.len as int,
        )).skip(before.len as int) =~= before.mem@.skip(before.len as int));
        head
    }

    /// Wipes the bytes in use and makes the buffer empty. The capacity stays.
    pub fn clear(&mut self)
        requires
            old(self).wf(),
        ensures
            final(self).wf(),
            final(self)@ == Seq::<u8>::empty(),
            final(self).capacity() == old(self).capacity(),
    {
        self.truncate_wiped(0);
        assert(self@ =~= Seq::<u8>::empty());
    }
}

} // verus!
