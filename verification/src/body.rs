//! Reading and writing the body of a container piece by piece, however the pieces fall.

use crate::chunks::{
    chunk_count, chunks_open, chunks_reseal, is_sealing_of, law_authentic_body_is_a_sealing,
    law_chunks_round_trip, open_chunks, seal_chunk, seal_chunks, split_chunk, ChunkStream,
    CHUNK_OVERHEAD, CHUNK_SIZE,
};
use crate::error::CryptoError;
use crate::primitives::TAG_LEN;
use crate::secure::SecureBuf;
use crate::wire::{
    copied, from_le32, law_from_le32_weighs_bytes, push_all, read_le32, take_exact,
};
use vstd::prelude::*;

verus! {

/// What a single read from a file or a pipe came to.
#[derive(Clone, Copy, Debug, PartialEq, Eq, Structural)]
pub enum ReadOutcome {
    /// So many bytes were read. None means that the input is at its end.
    Bytes(usize),
    /// A signal came in between: nothing was read, and nothing is wrong.
    Interrupted,
    /// The read failed.
    Failed,
}

/// What to do next with the plaintext that is sealed or the body that is opened.
#[derive(Clone, Copy, Debug, PartialEq, Eq, Structural)]
pub enum BodyStep {
    /// Read some bytes, at most so many.
    Read(usize),
    /// Write the chunk that is ready.
    Write,
    /// Nothing: all is done.
    Finished,
    /// Give up.
    Failed(CryptoError),
}

// ---------------------------------------------------------------------------
// Sealing
// ---------------------------------------------------------------------------

/// Where the sealing of a body stands.
#[derive(Clone, Copy, Debug, PartialEq, Eq, Structural)]
pub enum SealState {
    /// There may be more to read.
    Reading,
    /// All was read.
    Ended,
    /// The last chunk was sealed.
    Finished,
    /// The input could not be read.
    Failed,
}

/// Seals a body. It holds two chunks: the one to be sealed next, and the one behind it, which
/// tells whether the first is the last.
pub struct BodySealer {
    stream: ChunkStream,
    cur: SecureBuf,
    look: SecureBuf,
    state: SealState,
}

impl BodySealer {
    /// The session key.
    pub closed spec fn key(&self) -> Seq<u8> {
        self.stream.key()
    }

    /// The base nonce.
    pub closed spec fn base(&self) -> Seq<u8> {
        self.stream.base()
    }

    /// The number of the next chunk.
    pub closed spec fn counter(&self) -> u64 {
        self.stream.counter()
    }

    /// What was read and is not sealed yet.
    pub closed spec fn pending(&self) -> Seq<u8> {
        self.cur@ + self.look@
    }

    /// Where the sealing stands.
    pub closed spec fn state(&self) -> SealState {
        self.state
    }

    /// The second chunk is begun only when the first is full.
    pub closed spec fn wf(&self) -> bool {
        &&& self.stream.wf()
        &&& self.cur.wf()
        &&& self.look.wf()
        &&& self.cur.capacity() >= CHUNK_SIZE
        &&& self.look.capacity() >= CHUNK_SIZE
        &&& self.cur@.len() <= CHUNK_SIZE
        &&& self.look@.len() <= CHUNK_SIZE
        &&& self.look@.len() > 0 ==> self.cur@.len() == CHUNK_SIZE
    }

    /// What is still to be written when `rest` is still to be read.
    pub open spec fn to_write(&self, rest: Seq<u8>) -> Seq<u8> {
        match self.state() {
            SealState::Finished => Seq::empty(),
            SealState::Failed => Seq::empty(),
            _ => seal_chunks(
                self.key(),
                self.base(),
                self.counter() as nat,
                self.pending() + rest,
            ),
        }
    }

    /// The cipher opens what it is still to seal when `rest` is still to be read.
    pub open spec fn opens(&self, rest: Seq<u8>) -> bool {
        match self.state() {
            SealState::Finished => true,
            SealState::Failed => false,
            _ => chunks_open(
                self.key(),
                self.base(),
                self.counter() as nat,
                self.pending() + rest,
            ),
        }
    }

    /// What to do next: fill both chunks while there is more to read, then seal the first.
    pub open spec fn next_step(&self) -> BodyStep {
        match self.state() {
            SealState::Finished => BodyStep::Finished,
            SealState::Failed => BodyStep::Failed(CryptoError::Io),
            SealState::Ended => BodyStep::Write,
            SealState::Reading => {
                let n = self.pending().len();
                if n < CHUNK_SIZE {
                    BodyStep::Read((CHUNK_SIZE - n) as usize)
                } else if n < 2 * CHUNK_SIZE {
                    BodyStep::Read((2 * CHUNK_SIZE - n) as usize)
                } else {
                    BodyStep::Write
                }
            },
        }
    }

    /// What is still to be written is the chunks of all that was read and not sealed yet and of all
    /// that is still to be read, numbered from the next number on, and nothing once the last chunk
    /// was sealed or the input could not be read.
    pub proof fn law_all_that_is_read_is_written(&self, rest: Seq<u8>)
        ensures
            self.state() is Reading || self.state() is Ended ==> self.to_write(rest) == seal_chunks(
                self.key(),
                self.base(),
                self.counter() as nat,
                self.pending() + rest,
            ),
            self.state() is Finished || self.state() is Failed ==> self.to_write(rest).len() == 0,
    {
    }

    /// A sealer that has read nothing yet.
    pub fn new(stream: ChunkStream) -> (r: BodySealer)
        requires
            stream.wf(),
        ensures
            r.wf(),
            r.key() == stream.key(),
            r.base() == stream.base(),
            r.counter() == stream.counter(),
            r.pending() == Seq::<u8>::empty(),
            r.state() == SealState::Reading,
    {
        let r = BodySealer {
            stream,
            cur: SecureBuf::with_capacity(CHUNK_SIZE),
            look: SecureBuf::with_capacity(CHUNK_SIZE),
            state: SealState::Reading,
        };
        assert(r.pending() =~= Seq::<u8>::empty());
        r
    }

    /// The number of the next chunk.
    pub fn chunk_number(&self) -> (r: u64)
        ensures
            r == self.counter(),
    {
        self.stream.chunk_number()
    }

    /// What to do next. At most a chunk is read at a time.
    pub fn step(&self) -> (r: BodyStep)
        requires
            self.wf(),
        ensures
            r == self.next_step(),
            r matches BodyStep::Read(n) ==> 0 < n <= CHUNK_SIZE,
            r is Write <==> self.state() is Ended || self.state() is Reading && self.pending().len()
                == 131072,
            r is Finished <==> self.state() is Finished,
            r is Failed <==> self.state() is Failed,
            r is Failed ==> r == BodyStep::Failed(CryptoError::Io),
    {
        match self.state {
            SealState::Finished => BodyStep::Finished,
            SealState::Failed => BodyStep::Failed(CryptoError::Io),
            SealState::Ended => BodyStep::Write,
            SealState::Reading => {
                let n: usize = self.cur.len();
                let m: usize = self.look.len();
                if n < CHUNK_SIZE {
                    BodyStep::Read(CHUNK_SIZE - n)
                } else if m < CHUNK_SIZE {
                    BodyStep::Read(CHUNK_SIZE - m)
                } else {
                    BodyStep::Write
                }
            },
        }
    }

    /// Takes account of a read. An interrupted read changes nothing; what was read makes no
    /// difference to what is still to be written, in whatever pieces it comes; a failed read ends
    /// everything.
    pub fn advance(&mut self, outcome: ReadOutcome, bytes: &[u8])
        requires
            old(self).wf(),
            old(self).next_step() is Read,
            outcome matches ReadOutcome::Bytes(m) ==> m <= bytes@.len() && m
                <= old(self).next_step()->Read_0,
        ensures
            final(self).wf(),
            final(self).key() == old(self).key(),
            final(self).base() == old(self).base(),
            final(self).counter() == old(self).counter(),
            match outcome {
                ReadOutcome::Interrupted => {
                    &&& final(self).state() == old(self).state()
                    &&& final(self).pending() == old(self).pending()
                },
                ReadOutcome::Failed => final(self).state() == SealState::Failed,
                ReadOutcome::Bytes(m) => {
                    &&& final(self).state() == if m == 0 {
                        SealState::Ended
                    } else {
                        SealState::Reading
                    }
                    &&& final(self).pending() == old(self).pending() + bytes@.take(m as int)
                },
            },
    {
        match outcome {
            ReadOutcome::Interrupted => {},
            ReadOutcome::Failed => {
                self.state = SealState::Failed;
            },
            ReadOutcome::Bytes(m) => {
                let ghost before = self.pending();
                if m == 0 {
                    self.state = SealState::Ended;
                    assert(self.pending() =~= before + bytes@.take(0));
                } else {
                    let (head, _tail) = bytes.split_at(m);
                    assert(head@ =~= bytes@.take(m as int));
                    if self.cur.len() < CHUNK_SIZE {
                        assert(self.look@ =~= Seq::<u8>::empty());
                        self.cur.push_bytes(head);
                    } else {
                        self.look.push_bytes(head);
                    }
                    assert(self.pending() =~= before + bytes@.take(m as int));
                }
            },
        }
    }

    /// Seals the first chunk and appends it to `out`. What is appended and what is then still to
    /// be written is what was to be written before.
    pub fn seal(&mut self, out: &mut Vec<u8>) -> (r: Result<(), CryptoError>)
        requires
            old(self).wf(),
            old(self).next_step() is Write,
            old(self).counter() < u64::MAX,
        ensures
            r is Ok,
            final(self).wf(),
            final(self).key() == old(self).key(),
            final(self).base() == old(self).base(),
            final(self).counter() <= old(self).counter() + 1,
            final(self).state() == if old(self).pending().len() <= CHUNK_SIZE {
                SealState::Finished
            } else {
                old(self).state()
            },
            old(self).pending().len() > CHUNK_SIZE ==> {
                &&& final(self).pending() == old(self).pending().skip(CHUNK_SIZE as int)
                &&& final(self).counter() == old(self).counter() + 1
            },
            final(out)@ == old(out)@ + if old(self).pending().len() <= 65536 {
                seal_chunk(
                    old(self).key(),
                    old(self).base(),
                    old(self).counter(),
                    true,
                    old(self).pending(),
                )
            } else {
                seal_chunk(
                    old(self).key(),
                    old(self).base(),
                    old(self).counter(),
                    false,
                    old(self).pending().take(65536),
                )
            },
            exists|sealed: Seq<u8>|
                {
                    &&& final(out)@ == old(out)@ + sealed
                    &&& forall|rest: Seq<u8>|
                        (old(self).state() == SealState::Ended ==> rest.len() == 0) ==> {
                            &&& #[trigger] old(self).to_write(rest) == sealed
                                + final(self).to_write(rest)
                            &&& final(self).opens(rest) ==> old(self).opens(rest)
                        }
                },
    {
        let ghost before = *self;
        let ghost key = self.key();
        let ghost base = self.base();
        let ghost counter = self.counter();
        let ghost chunk = self.cur@;
        let ghost behind = self.look@;
        let last: bool = self.look.len() == 0;
        let ghost start = out@;
        match self.stream.seal_next(&mut self.cur, last, out) {
            Ok(()) => {},
            Err(e) => return Err(e),
        }
        let ghost sealed = seal_chunk(key, base, counter, last, chunk);
        if last {
            self.state = SealState::Finished;
        } else {
            std::mem::swap(&mut self.cur, &mut self.look);
            assert(self.pending() =~= behind);
            assert(before.pending().skip(CHUNK_SIZE as int) =~= behind);
        }
        proof {
            assert forall|rest: Seq<u8>|
                (before.state() == SealState::Ended ==> rest.len() == 0) implies {
                &&& #[trigger] before.to_write(rest) == sealed + self.to_write(rest)
                &&& self.opens(rest) ==> before.opens(rest)
            } by {
                let all = before.pending() + rest;
                if last {
                    assert(behind =~= Seq::<u8>::empty());
                    assert(rest =~= Seq::<u8>::empty());
                    assert(all =~= chunk);
                    assert(sealed + Seq::<u8>::empty() =~= sealed);
                } else {
                    assert(all.take(CHUNK_SIZE as int) =~= chunk);
                    assert(all.skip(CHUNK_SIZE as int) =~= behind + rest);
                }
            }
            assert(out@ == start + sealed);
            if last {
                assert(behind =~= Seq::<u8>::empty());
                assert(before.pending() =~= chunk);
            } else {
                assert(before.pending().take(65536) =~= chunk);
            }
        }
        Ok(())
    }
}

/// Seals all of `input` and appends the body to `out`. Opening the body gives `input` back, and it
/// is longer than `input` by 20 bytes for each chunk.
pub fn encrypt_chunks(stream: ChunkStream, input: &[u8], out: &mut Vec<u8>) -> (r: Result<
    (),
    CryptoError,
>)
    requires
        stream.wf(),
        stream.counter() == 0,
    ensures
        r is Ok,
        final(out)@ == old(out)@ + seal_chunks(stream.key(), stream.base(), 0, input@),
        chunks_open(stream.key(), stream.base(), 0, input@),
        open_chunks(
            stream.key(),
            stream.base(),
            0,
            seal_chunks(stream.key(), stream.base(), 0, input@),
        ) == (input@, true),
        seal_chunks(stream.key(), stream.base(), 0, input@).len() == input@.len()
            + CHUNK_OVERHEAD * chunk_count(input@.len()),
{
    let ghost key = stream.key();
    let ghost base = stream.base();
    let ghost all = seal_chunks(key, base, 0, input@);
    let ghost start = out@;
    let total: usize = input.len();
    let mut sealer = BodySealer::new(stream);
    let mut cursor: &[u8] = input;
    proof {
        assert(sealer.pending() + input@ =~= input@);
        assert(start + all =~= start + sealer.to_write(input@));
    }
    loop
        invariant_except_break
            total == input@.len(),
            key == stream.key(),
            base == stream.base(),
            start == old(out)@,
            all == seal_chunks(key, base, 0, input@),
            sealer.wf(),
            sealer.key() == key,
            sealer.base() == base,
            sealer.state() != SealState::Failed,
            sealer.state() == SealState::Reading || cursor@.len() == 0,
            sealer.counter() * CHUNK_SIZE + sealer.pending().len() + cursor@.len() <= total
                || sealer.state() == SealState::Finished,
            start + all == out@ + sealer.to_write(cursor@),
            sealer.opens(cursor@) ==> chunks_open(key, base, 0, input@),
        ensures
            out@ == start + all,
            chunks_open(key, base, 0, input@),
        decreases
                (if sealer.state() == SealState::Finished {
                    0int
                } else {
                    1 + sealer.pending().len() + 2 * cursor@.len() + if sealer.state()
                        == SealState::Reading {
                        1int
                    } else {
                        0int
                    }
                }),
    {
        let ghost rest = cursor@;
        match sealer.step() {
            BodyStep::Read(want) => {
                let n: usize = if cursor.len() < want {
                    cursor.len()
                } else {
                    want
                };
                let ghost before = sealer;
                if let Some(piece) = take_exact(&mut cursor, n) {
                    sealer.advance(ReadOutcome::Bytes(n), piece);
                    proof {
                        assert(piece@.take(n as int) =~= piece@);
                        assert(rest =~= piece@ + cursor@);
                        assert(before.pending() + rest =~= sealer.pending() + cursor@);
                    }
                }
            },
            BodyStep::Write => {
                let ghost before = sealer;
                let ghost written = out@;
                match sealer.seal(out) {
                    Ok(()) => {},
                    Err(e) => return Err(e),
                }
                proof {
                    let sealed = choose|sealed: Seq<u8>|
                        {
                            &&& out@ == written + sealed
                            &&& forall|rest: Seq<u8>|
                                (before.state() == SealState::Ended ==> rest.len() == 0) ==> {
                                    &&& #[trigger] before.to_write(rest) == sealed
                                        + sealer.to_write(rest)
                                    &&& sealer.opens(rest) ==> before.opens(rest)
                                }
                        };
                    assert(before.to_write(rest) == sealed + sealer.to_write(rest));
                    assert(start + all =~= out@ + sealer.to_write(rest));
                }
            },
            BodyStep::Finished => {
                assert(out@ + Seq::<u8>::empty() =~= out@);
                break;
            },
            BodyStep::Failed(e) => return Err(e),
        }
    }
    proof {
        law_chunks_round_trip(key, base, 0, input@);
    }
    Ok(())
}

// ---------------------------------------------------------------------------
// Opening
// ---------------------------------------------------------------------------

/// Where the opening of a body stands.
#[derive(Clone, Copy, Debug, PartialEq, Eq, Structural)]
pub enum OpenState {
    /// A chunk is being read, and the length behind it.
    Reading,
    /// The plaintext of a chunk is ready to be written.
    Writing { last: bool },
    /// The last chunk was written.
    Finished,
    /// The body is not authentic or could not be read.
    Failed(CryptoError),
}

/// The length of the chunk at the front of a body, of which at least four bytes are there.
pub open spec fn frame_len(s: Seq<u8>) -> int {
    4 + from_le32(s.take(4)) + TAG_LEN
}

/// Whether more of a body has to be read before anything can be said of its first chunk: not all
/// of the chunk is there, or not all of the length behind it.
pub open spec fn is_partial(s: Seq<u8>) -> bool {
    s.len() < 4 || (from_le32(s.take(4)) <= CHUNK_SIZE && s.len() < frame_len(s) + 4)
}

/// The outcome of opening a whole body: the plaintext that comes out, and whether it is authentic.
pub open spec fn body_outcome(key: Seq<u8>, base: Seq<u8>, counter: nat, body: Seq<u8>) -> (
    Seq<u8>,
    Result<(), CryptoError>,
) {
    let (plain, ok) = open_chunks(key, base, counter, body);
    (
        plain,
        if ok {
            Ok(())
        } else {
            Err(CryptoError::BadContainer)
        },
    )
}

/// What comes out of a body is what its chunks hold, and it is refused as damaged exactly where it
/// is not authentic as a whole.
pub proof fn law_body_outcome(key: Seq<u8>, base: Seq<u8>, counter: nat, body: Seq<u8>)
    ensures
        body_outcome(key, base, counter, body).0 == open_chunks(key, base, counter, body).0,
        body_outcome(key, base, counter, body).1 is Ok <==> open_chunks(
            key,
            base,
            counter,
            body,
        ).1,
        body_outcome(key, base, counter, body).1 matches Err(e) ==> e == CryptoError::BadContainer,
{
}

/// Of a body that begins with a length of at most 65536, that many bytes, twenty more and the
/// length behind them are read before anything is said of its first chunk, and nothing beyond.
pub proof fn law_frames_are_read_exactly(s: Seq<u8>)
    requires
        s.len() >= 4,
    ensures
        ({
            let n = s[0] + 256 * s[1] + 65536 * s[2] + 16777216 * s[3];
            &&& frame_len(s) == 20 + n
            &&& is_partial(s) <==> n <= 65536 && s.len() < 24 + n
        }),
{
    law_from_le32_weighs_bytes(s.take(4));
}

/// Opens a body. It holds what was read of the chunk at its front and of the length behind that,
/// which tells whether the chunk is the last.
pub struct BodyOpener {
    stream: ChunkStream,
    pending: Vec<u8>,
    chunk: SecureBuf,
    state: OpenState,
}

impl BodyOpener {
    /// The session key.
    pub closed spec fn key(&self) -> Seq<u8> {
        self.stream.key()
    }

    /// The base nonce.
    pub closed spec fn base(&self) -> Seq<u8> {
        self.stream.base()
    }

    /// The number of the next chunk.
    pub closed spec fn counter(&self) -> u64 {
        self.stream.counter()
    }

    /// What was read and is not opened yet.
    pub closed spec fn pending(&self) -> Seq<u8> {
        self.pending@
    }

    /// The plaintext that is ready to be written.
    pub closed spec fn chunk(&self) -> Seq<u8> {
        self.chunk@
    }

    /// Where the opening stands.
    pub closed spec fn state(&self) -> OpenState {
        self.state
    }

    /// The stream and the buffer are well-formed.
    closed spec fn parts_wf(&self) -> bool {
        &&& self.stream.wf()
        &&& self.chunk.wf()
        &&& self.chunk.capacity() >= CHUNK_SIZE
    }

    /// While a chunk is being read, it is not all there; while one is written, the length of the
    /// next was read, unless there is none.
    pub closed spec fn wf(&self) -> bool {
        &&& self.parts_wf()
        &&& match self.state {
            OpenState::Reading => is_partial(self.pending@),
            OpenState::Writing { last } => last || self.pending@.len() == 4,
            _ => true,
        }
    }

    /// What still comes of the body when `rest` is still to be read: the plaintext still to be
    /// written, and the outcome.
    pub open spec fn outcome(&self, rest: Seq<u8>) -> (Seq<u8>, Result<(), CryptoError>) {
        let more = body_outcome(
            self.key(),
            self.base(),
            self.counter() as nat,
            self.pending() + rest,
        );
        match self.state() {
            OpenState::Reading => more,
            OpenState::Writing { last } => if last {
                (self.chunk(), Ok(()))
            } else {
                (self.chunk() + more.0, more.1)
            },
            OpenState::Finished => (Seq::empty(), Ok(())),
            OpenState::Failed(e) => (Seq::empty(), Err(e)),
        }
    }

    /// Sealing gives back what is still to be opened when `rest` is still to be read.
    pub open spec fn reseals(&self, rest: Seq<u8>) -> bool {
        match self.state() {
            OpenState::Finished => true,
            OpenState::Failed(_) => true,
            OpenState::Writing { last: true } => true,
            _ => chunks_reseal(
                self.key(),
                self.base(),
                self.counter() as nat,
                self.pending() + rest,
            ),
        }
    }

    /// What to do next. Nothing is read beyond the length behind the chunk that is being read.
    pub open spec fn next_step(&self) -> BodyStep {
        match self.state() {
            OpenState::Reading => BodyStep::Read(
                if self.pending().len() < 4 {
                    (4 - self.pending().len()) as usize
                } else {
                    (frame_len(self.pending()) + 4 - self.pending().len()) as usize
                },
            ),
            OpenState::Writing { .. } => BodyStep::Write,
            OpenState::Finished => BodyStep::Finished,
            OpenState::Failed(e) => BodyStep::Failed(e),
        }
    }

    /// What still comes out is what all that was read and not opened yet, and all that is still to
    /// be read, holds from the next number on, behind what is ready to be written. Nothing comes
    /// after the last chunk or after a failure.
    pub proof fn law_all_that_is_read_is_opened(&self, rest: Seq<u8>)
        ensures
            ({
                let more = open_chunks(
                    self.key(),
                    self.base(),
                    self.counter() as nat,
                    self.pending() + rest,
                );
                let end = if more.1 {
                    Ok::<(), CryptoError>(())
                } else {
                    Err::<(), CryptoError>(CryptoError::BadContainer)
                };
                match self.state() {
                    OpenState::Reading => self.outcome(rest) == (more.0, end),
                    OpenState::Writing { last: false } => self.outcome(rest) == (
                        self.chunk() + more.0,
                        end,
                    ),
                    OpenState::Writing { last: true } => self.outcome(rest) == (
                        self.chunk(),
                        Ok::<(), CryptoError>(()),
                    ),
                    OpenState::Finished => self.outcome(rest) == (
                        Seq::<u8>::empty(),
                        Ok::<(), CryptoError>(()),
                    ),
                    OpenState::Failed(e) => self.outcome(rest) == (
                        Seq::<u8>::empty(),
                        Err::<(), CryptoError>(e),
                    ),
                }
            }),
    {
    }

    /// An opener that has read nothing yet.
    pub fn new(stream: ChunkStream) -> (r: BodyOpener)
        requires
            stream.wf(),
        ensures
            r.wf(),
            r.key() == stream.key(),
            r.base() == stream.base(),
            r.counter() == stream.counter(),
            r.pending() == Seq::<u8>::empty(),
            r.state() == OpenState::Reading,
    {
        BodyOpener {
            stream,
            pending: Vec::new(),
            chunk: SecureBuf::with_capacity(CHUNK_SIZE),
            state: OpenState::Reading,
        }
    }

    /// What to do next.
    pub fn step(&self) -> (r: BodyStep)
        requires
            self.wf(),
        ensures
            r == self.next_step(),
            r matches BodyStep::Read(n) ==> n > 0,
            r is Read <==> self.state() is Reading,
            r is Write <==> self.state() is Writing,
            r is Finished <==> self.state() is Finished,
            self.state() matches OpenState::Failed(e) ==> r == BodyStep::Failed(e),
    {
        match self.state {
            OpenState::Reading => {
                let have: usize = self.pending.len();
                if have < 4 {
                    BodyStep::Read(4 - have)
                } else {
                    let n: usize = read_le32(self.pending.as_slice(), 0) as usize;
                    assert(self.pending@.subrange(0, 4) =~= self.pending@.take(4));
                    BodyStep::Read(4 + n + TAG_LEN + 4 - have)
                }
            },
            OpenState::Writing { .. } => BodyStep::Write,
            OpenState::Finished => BodyStep::Finished,
            OpenState::Failed(e) => BodyStep::Failed(e),
        }
    }

    /// The number of the next chunk.
    pub fn chunk_number(&self) -> (r: u64)
        ensures
            r == self.counter(),
    {
        self.stream.chunk_number()
    }

    /// The plaintext that is ready to be written.
    pub fn plain(&self) -> (r: &[u8])
        requires
            self.wf(),
        ensures
            r@ == self.chunk(),
    {
        self.chunk.as_slice()
    }

    /// Opens the chunk at the front, which is all there.
    fn open_front(&mut self, last: bool)
        requires
            old(self).parts_wf(),
            old(self).state() == OpenState::Reading,
            old(self).pending().len() >= 4,
            from_le32(old(self).pending().take(4)) <= CHUNK_SIZE,
            old(self).pending().len() == frame_len(old(self).pending()) + if last {
                0int
            } else {
                4int
            },
            old(self).counter() < u64::MAX,
        ensures
            final(self).wf(),
            final(self).key() == old(self).key(),
            final(self).base() == old(self).base(),
            final(self).state() is Failed || final(self).state() == (OpenState::Writing { last }),
            final(self).pending().len() == if last {
                0int
            } else {
                4int
            },
            final(self).counter() == if last || final(self).state() is Failed {
                old(self).counter() as int
            } else {
                old(self).counter() + 1
            },
            forall|rest: Seq<u8>|
                (last ==> rest.len() == 0) ==> #[trigger] final(self).outcome(rest)
                    == old(self).outcome(rest),
            forall|rest: Seq<u8>|
                (last ==> rest.len() == 0) && #[trigger] final(self).reseals(rest)
                    ==> old(self).reseals(rest),
    {
        let ghost before = *self;
        let ghost all = self.pending@;
        let ghost counter = self.counter();
        let n: usize = read_le32(self.pending.as_slice(), 0) as usize;
        assert(all.subrange(0, 4) =~= all.take(4));
        let (frame, after) = self.pending.as_slice().split_at(4 + n + TAG_LEN);
        let (head, tag) = frame.split_at(4 + n);
        let (_length, ct) = head.split_at(4);
        proof {
            assert(ct@ =~= all.subrange(4, 4 + n));
            assert(tag@ =~= all.subrange(4 + n, 4 + n + TAG_LEN));
            assert(after@ =~= all.skip(4 + n + TAG_LEN));
        }
        self.chunk.clear();
        self.chunk.push_bytes(ct);
        assert(self.chunk@ =~= ct@);
        let next = copied(after);
        let r = self.stream.open_next(&mut self.chunk, tag, last);
        self.pending = next;
        self.state =
        match r {
            Ok(()) => OpenState::Writing { last },
            Err(e) => OpenState::Failed(e),
        };
        proof {
            assert forall|rest: Seq<u8>| (last ==> rest.len() == 0) implies split_chunk(
                #[trigger] (all + rest),
            ) == Some((ct@, tag@, after@ + rest)) && ((after@ + rest).len() == 0 <==> last) by {
                let body = all + rest;
                assert(body.take(4) =~= all.take(4));
                assert(body.subrange(4, 4 + n) =~= ct@);
                assert(body.subrange(4 + n, 4 + n + TAG_LEN) =~= tag@);
                assert(body.skip(4 + n + TAG_LEN) =~= after@ + rest);
            }
            assert forall|rest: Seq<u8>| (last ==> rest.len() == 0) implies #[trigger] self.outcome(
                rest,
            ) == before.outcome(rest) by {
                assert(split_chunk(all + rest) == Some((ct@, tag@, after@ + rest)));
            }
            assert forall|rest: Seq<u8>|
                (last ==> rest.len() == 0) && #[trigger] self.reseals(rest) implies before.reseals(
                rest,
            ) by {
                assert(split_chunk(all + rest) == Some((ct@, tag@, after@ + rest)));
            }
        }
    }

    /// Takes account of a read. An interrupted read changes nothing; what was read makes no
    /// difference to what comes of the body, in whatever pieces it comes; at the end of the input
    /// the chunk that was read has to be the last; a failed read ends everything.
    pub fn advance(&mut self, outcome: ReadOutcome, bytes: &[u8])
        requires
            old(self).wf(),
            old(self).next_step() is Read,
            old(self).counter() < u64::MAX,
            outcome matches ReadOutcome::Bytes(m) ==> m <= bytes@.len() && m
                <= old(self).next_step()->Read_0,
        ensures
            final(self).wf(),
            final(self).key() == old(self).key(),
            final(self).base() == old(self).base(),
            match outcome {
                ReadOutcome::Interrupted => {
                    &&& final(self).state() == old(self).state()
                    &&& final(self).pending() == old(self).pending()
                    &&& final(self).counter() == old(self).counter()
                },
                ReadOutcome::Failed => final(self).state() == OpenState::Failed(CryptoError::Io),
                ReadOutcome::Bytes(m) => if m == 0 {
                    &&& final(self).state() is Failed || final(self).state() == (
                    OpenState::Writing { last: true })
                    &&& final(self).outcome(Seq::empty()) == old(self).outcome(Seq::empty())
                    &&& final(self).reseals(Seq::empty()) ==> old(self).reseals(Seq::empty())
                } else {
                    &&& final(self).state() != (OpenState::Writing { last: true })
                    &&& final(self).state() != OpenState::Finished
                    &&& final(self).state() is Reading ==> final(self).pending()
                        == old(self).pending() + bytes@.take(m as int)
                    &&& forall|rest: Seq<u8>| #[trigger]
                        final(self).outcome(rest) == old(self).outcome(
                            bytes@.take(m as int) + rest,
                        )
                    &&& forall|rest: Seq<u8>| #[trigger]
                        final(self).reseals(rest) ==> old(self).reseals(
                            bytes@.take(m as int) + rest,
                        )
                },
            },
            final(self).state() is Reading ==> final(self).counter() == old(self).counter(),
            final(self).state() == (OpenState::Writing { last: false }) ==> {
                &&& final(self).counter() == old(self).counter() + 1
                &&& final(self).pending().len() == 4
                &&& outcome matches ReadOutcome::Bytes(m) && old(self).pending().len() + m
                    >= CHUNK_OVERHEAD + 4
            },
            final(self).state() == (OpenState::Writing { last: true }) ==> final(self).counter()
                == old(self).counter(),
    {
        match outcome {
            ReadOutcome::Interrupted => {},
            ReadOutcome::Failed => {
                self.state = OpenState::Failed(CryptoError::Io);
            },
            ReadOutcome::Bytes(m) => {
                if m == 0 {
                    self.end_of_input();
                } else {
                    let (piece, _rest) = bytes.split_at(m);
                    assert(piece@ =~= bytes@.take(m as int));
                    self.take_piece(piece);
                }
            },
        }
    }

    /// The input is at its end: what was read has to be the last chunk.
    fn end_of_input(&mut self)
        requires
            old(self).wf(),
            old(self).state() is Reading,
            old(self).counter() < u64::MAX,
        ensures
            final(self).wf(),
            final(self).key() == old(self).key(),
            final(self).base() == old(self).base(),
            final(self).counter() == old(self).counter(),
            final(self).state() is Failed || final(self).state() == (OpenState::Writing {
                last: true,
            }),
            final(self).outcome(Seq::empty()) == old(self).outcome(Seq::empty()),
            final(self).reseals(Seq::empty()) ==> old(self).reseals(Seq::empty()),
    {
        let ghost before = *self;
        let have: usize = self.pending.len();
        assert(self.pending() + Seq::<u8>::empty() =~= self.pending());
        if have >= 4 {
            let n: usize = read_le32(self.pending.as_slice(), 0) as usize;
            assert(self.pending@.subrange(0, 4) =~= self.pending@.take(4));
            if have == 4 + n + TAG_LEN {
                self.open_front(true);
                return ;
            }
        }
        self.state = OpenState::Failed(CryptoError::BadContainer);
        assert(split_chunk(before.pending()) is None);
    }

    /// A piece of the body was read, no more than was asked for.
    fn take_piece(&mut self, piece: &[u8])
        requires
            old(self).wf(),
            old(self).next_step() is Read,
            old(self).counter() < u64::MAX,
            0 < piece@.len() <= old(self).next_step()->Read_0,
        ensures
            final(self).wf(),
            final(self).key() == old(self).key(),
            final(self).base() == old(self).base(),
            final(self).state() is Reading ==> {
                &&& final(self).pending() == old(self).pending() + piece@
                &&& final(self).counter() == old(self).counter()
            },
            final(self).state() != (OpenState::Writing { last: true }),
            final(self).state() != OpenState::Finished,
            final(self).state() is Writing ==> {
                &&& final(self).counter() == old(self).counter() + 1
                &&& final(self).pending().len() == 4
                &&& old(self).pending().len() + piece@.len() >= CHUNK_OVERHEAD + 4
            },
            forall|rest: Seq<u8>| #[trigger]
                final(self).outcome(rest) == old(self).outcome(piece@ + rest),
            forall|rest: Seq<u8>| #[trigger]
                final(self).reseals(rest) ==> old(self).reseals(piece@ + rest),
    {
        let ghost before = *self;
        push_all(&mut self.pending, piece);
        let ghost all = self.pending@;
        proof {
            assert forall|rest: Seq<u8>| #[trigger] (all + rest) == before.pending() + (piece@
                + rest) by {
                assert(all + rest =~= before.pending() + (piece@ + rest));
            }
            if before.pending().len() >= 4 {
                assert(all.take(4) =~= before.pending().take(4));
            }
        }
        let have: usize = self.pending.len();
        if have >= 4 {
            let n: usize = read_le32(self.pending.as_slice(), 0) as usize;
            assert(all.subrange(0, 4) =~= all.take(4));
            if n > CHUNK_SIZE {
                self.state = OpenState::Failed(CryptoError::BadContainer);
                proof {
                    assert forall|rest: Seq<u8>| split_chunk(#[trigger] (all + rest)) is None by {
                        assert((all + rest).take(4) =~= all.take(4));
                    }
                    assert forall|rest: Seq<u8>| #[trigger]
                        self.outcome(rest) == before.outcome(piece@ + rest) by {
                        assert(all + rest == before.pending() + (piece@ + rest));
                    }
                    assert forall|rest: Seq<u8>| #[trigger]
                        self.reseals(rest) implies before.reseals(piece@ + rest) by {
                        assert(all + rest == before.pending() + (piece@ + rest));
                    }
                }
                return ;
            }
            if have == 4 + n + TAG_LEN + 4 {
                let ghost full = *self;
                self.open_front(false);
                proof {
                    assert forall|rest: Seq<u8>| #[trigger]
                        self.outcome(rest) == before.outcome(piece@ + rest) by {
                        assert(all + rest == before.pending() + (piece@ + rest));
                        assert(self.outcome(rest) == full.outcome(rest));
                    }
                    assert forall|rest: Seq<u8>| #[trigger]
                        self.reseals(rest) implies before.reseals(piece@ + rest) by {
                        assert(all + rest == before.pending() + (piece@ + rest));
                        assert(full.reseals(rest));
                    }
                }
                return ;
            }
        }
        proof {
            assert forall|rest: Seq<u8>| #[trigger] self.outcome(rest) == before.outcome(
                piece@ + rest,
            ) by {
                assert(all + rest == before.pending() + (piece@ + rest));
            }
            assert forall|rest: Seq<u8>| #[trigger] self.reseals(rest) implies before.reseals(
                piece@ + rest,
            ) by {
                assert(all + rest == before.pending() + (piece@ + rest));
            }
        }
    }

    /// The plaintext that was ready is written, and wiped here. What was written and what then
    /// still comes is what came before.
    pub fn written(&mut self)
        requires
            old(self).wf(),
            old(self).next_step() is Write,
        ensures
            final(self).wf(),
            final(self).key() == old(self).key(),
            final(self).base() == old(self).base(),
            final(self).counter() == old(self).counter(),
            final(self).pending() == old(self).pending(),
            final(self).chunk().len() == 0,
            final(self).state() !is Writing,
            final(self).state() is Finished <==> old(self).state() == (OpenState::Writing {
                last: true,
            }),
            forall|rest: Seq<u8>|
                {
                    &&& old(self).outcome(rest).0 == old(self).chunk() + (
                    #[trigger] final(self).outcome(rest)).0
                    &&& old(self).outcome(rest).1 == final(self).outcome(rest).1
                },
            forall|rest: Seq<u8>| #[trigger]
                final(self).reseals(rest) ==> old(self).reseals(rest),
    {
        let ghost before = *self;
        self.chunk.clear();
        match self.state {
            OpenState::Writing { last } => {
                if last {
                    self.state = OpenState::Finished;
                } else {
                    let n: usize = read_le32(self.pending.as_slice(), 0) as usize;
                    assert(self.pending@.subrange(0, 4) =~= self.pending@.take(4));
                    if n > CHUNK_SIZE {
                        self.state = OpenState::Failed(CryptoError::BadContainer);
                    } else {
                        self.state = OpenState::Reading;
                    }
                }
            },
            _ => {},
        }
        proof {
            assert(before.chunk() + Seq::<u8>::empty() =~= before.chunk());
            if self.state() is Failed {
                assert forall|rest: Seq<u8>|
                    split_chunk(#[trigger] (self.pending() + rest)) is None by {
                    assert((self.pending() + rest).take(4) =~= self.pending().take(4));
                }
            }
            assert forall|rest: Seq<u8>|
                {
                    &&& before.outcome(rest).0 == before.chunk() + (#[trigger] self.outcome(
                        rest,
                    )).0
                    &&& before.outcome(rest).1 == self.outcome(rest).1
                } by {
                let body = self.pending() + rest;
                assert(self.state() is Failed ==> split_chunk(body) is None);
            }
            assert forall|rest: Seq<u8>| #[trigger] self.reseals(rest) implies before.reseals(
                rest,
            ) by {
                let body = self.pending() + rest;
                assert(self.state() is Failed ==> split_chunk(body) is None);
            }
        }
    }
}

/// Opens a whole body and appends to `out` the plaintext of every chunk up to the first that is
/// not authentic. Fails unless the body as a whole is authentic, and then it is the sealing of
/// the chunks that it opens to.
pub fn decrypt_chunks(stream: ChunkStream, body: &[u8], out: &mut Vec<u8>) -> (r: Result<
    (),
    CryptoError,
>)
    requires
        stream.wf(),
        stream.counter() == 0,
    ensures
        final(out)@ == old(out)@ + open_chunks(stream.key(), stream.base(), 0, body@).0,
        r == (if open_chunks(stream.key(), stream.base(), 0, body@).1 {
            Ok::<(), CryptoError>(())
        } else {
            Err::<(), CryptoError>(CryptoError::BadContainer)
        }),
        r is Ok ==> exists|chunks: Seq<Seq<u8>>| #[trigger]
            is_sealing_of(
                stream.key(),
                stream.base(),
                0,
                body@,
                open_chunks(stream.key(), stream.base(), 0, body@).0,
                chunks,
            ),
{
    let ghost key = stream.key();
    let ghost base = stream.base();
    let ghost start = out@;
    let total: usize = body.len();
    let mut opener = BodyOpener::new(stream);
    let mut cursor: &[u8] = body;
    proof {
        assert(opener.pending() + body@ =~= body@);
        assert(start + opener.outcome(body@).0 == out@ + opener.outcome(body@).0);
    }
    loop
        invariant
            total == body@.len(),
            key == stream.key(),
            base == stream.base(),
            start == old(out)@,
            opener.wf(),
            opener.key() == key,
            opener.base() == base,
            opener.state() is Reading || opener.state() == (OpenState::Writing { last: false })
                ==> opener.counter() * CHUNK_OVERHEAD + opener.pending().len() + cursor@.len()
                <= total,
            opener.state() is Reading || opener.state() == (OpenState::Writing { last: false })
                || cursor@.len() == 0 || opener.state() is Failed,
            start + body_outcome(key, base, 0, body@).0 == out@ + opener.outcome(cursor@).0,
            body_outcome(key, base, 0, body@).1 == opener.outcome(cursor@).1,
            opener.reseals(cursor@) ==> chunks_reseal(key, base, 0, body@),
        decreases
                (match opener.state() {
                    OpenState::Finished => 0int,
                    OpenState::Failed(_) => 0int,
                    OpenState::Writing { last: true } => 1int,
                    OpenState::Writing { last: false } => 3int + 2 * cursor@.len(),
                    OpenState::Reading => 2int + 2 * cursor@.len(),
                }),
    {
        let ghost rest = cursor@;
        let ghost before = opener;
        match opener.step() {
            BodyStep::Read(want) => {
                let n: usize = if cursor.len() < want {
                    cursor.len()
                } else {
                    want
                };
                if let Some(piece) = take_exact(&mut cursor, n) {
                    opener.advance(ReadOutcome::Bytes(n), piece);
                    proof {
                        assert(piece@.take(n as int) =~= piece@);
                        assert(rest =~= piece@ + cursor@);
                        if n == 0 {
                            assert(rest =~= Seq::<u8>::empty());
                            assert(cursor@ =~= Seq::<u8>::empty());
                        } else {
                            assert(opener.outcome(cursor@) == before.outcome(piece@ + cursor@));
                        }
                    }
                }
            },
            BodyStep::Write => {
                let ghost written = out@;
                push_all(out, opener.plain());
                opener.written();
                proof {
                    let after = opener.outcome(rest);
                    assert(before.outcome(rest).0 == before.chunk() + after.0);
                    assert(written + (before.chunk() + after.0) =~= out@ + after.0);
                }
            },
            BodyStep::Finished => {
                assert(out@ + Seq::<u8>::empty() =~= out@);
                proof {
                    law_authentic_body_is_a_sealing(key, base, 0, body@);
                }
                return Ok(());
            },
            BodyStep::Failed(e) => {
                assert(out@ + Seq::<u8>::empty() =~= out@);
                return Err(e);
            },
        }
    }
}

} // verus!
