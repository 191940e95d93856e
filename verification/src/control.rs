//! The worker process: what it is told over its control channel, and how it reports its end.

use crate::error::CryptoError;
use crate::secure::{SecureBuf, EXIT_CODE_DEGRADED_LOCK};
use crate::wire::{
    bytes_eq, copied, field_need, law_field_is_read_exactly, law_field_need_is_what_is_missing,
    law_le32_round_trip, law_limit_decides_on_fields, law_prefix_is_the_length,
    law_prefixed_is_canonical, law_split_prefixed, limited_need, prefix_len, prefixed, push_le32,
    split_limited, split_prefixed, take_exact, take_u32_prefixed, Need,
};
use vstd::prelude::*;

verus! {

/// The descriptor of the worker's control channel.
pub const FD_CONTROL: i32 = 3;

/// The descriptor of the worker's second output, the private file of a new key pair.
pub const FD_KEY_OUT: i32 = 4;

/// The lowest descriptor that is closed before the worker starts.
pub const FIRST_CLOSEABLE_FD: i32 = 5;

/// The descriptor from which on none is closed any more.
pub const CLOSE_SWEEP_UPPER_BOUND: i32 = 1024;

/// The request for a new key pair.
pub const OP_KEYGEN: u8 = 1;

/// The request for an encryption.
pub const OP_ENCRYPT: u8 = 2;

/// The request for a decryption.
pub const OP_DECRYPT: u8 = 3;

/// The longest field that the worker takes from its control channel.
pub const MAX_CONTROL_FIELD: usize = 1048576;

/// What the worker is to do.
#[derive(Clone, Copy, Debug, PartialEq, Eq, Structural)]
pub enum Operation {
    Keygen,
    Encrypt,
    Decrypt,
}

/// The operation that a byte asks for.
pub open spec fn operation_of(op: u8) -> Option<Operation> {
    if op == OP_KEYGEN {
        Some(Operation::Keygen)
    } else if op == OP_ENCRYPT {
        Some(Operation::Encrypt)
    } else if op == OP_DECRYPT {
        Some(Operation::Decrypt)
    } else {
        None
    }
}

/// Tells the operation that a byte asks for.
pub fn parse_operation(op: u8) -> (r: Result<Operation, CryptoError>)
    ensures
        r == (match operation_of(op) {
            Some(o) => Ok::<Operation, CryptoError>(o),
            None => Err::<Operation, CryptoError>(CryptoError::Internal),
        }),
{
    match op {
        OP_KEYGEN => Ok(Operation::Keygen),
        OP_ENCRYPT => Ok(Operation::Encrypt),
        OP_DECRYPT => Ok(Operation::Decrypt),
        _ => Err(CryptoError::Internal),
    }
}

/// What the worker is asked for.
pub enum Request {
    /// A new key pair under this passphrase.
    Keygen { passphrase: SecureBuf },
    /// The encryption of the input for this public key file.
    Encrypt { recipient: Vec<u8> },
    /// The decryption of the input with this private key file and its passphrase.
    Decrypt { key_blob: Vec<u8>, passphrase: SecureBuf },
}

/// A request, with its fields as bytes.
pub enum RequestView {
    Keygen(Seq<u8>),
    Encrypt(Seq<u8>),
    Decrypt(Seq<u8>, Seq<u8>),
}

impl Request {
    /// The request, with its fields as bytes.
    pub open spec fn view(&self) -> RequestView {
        match self {
            Request::Keygen { passphrase } => RequestView::Keygen(passphrase@),
            Request::Encrypt { recipient } => RequestView::Encrypt(recipient@),
            Request::Decrypt { key_blob, passphrase } => RequestView::Decrypt(
                key_blob@,
                passphrase@,
            ),
        }
    }

    /// Its buffers are well-formed.
    pub open spec fn wf(&self) -> bool {
        match self {
            Request::Keygen { passphrase } => passphrase.wf(),
            Request::Encrypt { .. } => true,
            Request::Decrypt { passphrase, .. } => passphrase.wf(),
        }
    }
}

impl RequestView {
    /// The bytes that ask for this.
    pub open spec fn message(self) -> Seq<u8> {
        match self {
            RequestView::Keygen(passphrase) => seq![OP_KEYGEN] + prefixed(passphrase),
            RequestView::Encrypt(recipient) => seq![OP_ENCRYPT] + prefixed(recipient),
            RequestView::Decrypt(key_blob, passphrase) => seq![OP_DECRYPT] + (prefixed(key_blob)
                + prefixed(passphrase)),
        }
    }

    /// Whether every field is within the limit of a control field.
    pub open spec fn within_limits(self) -> bool {
        match self {
            RequestView::Keygen(passphrase) => passphrase.len() <= MAX_CONTROL_FIELD,
            RequestView::Encrypt(recipient) => recipient.len() <= MAX_CONTROL_FIELD,
            RequestView::Decrypt(key_blob, passphrase) => key_blob.len() <= MAX_CONTROL_FIELD
                && passphrase.len() <= MAX_CONTROL_FIELD,
        }
    }
}

/// What a message asks for. What follows the last field is not looked at.
pub open spec fn decode_request(message: Seq<u8>) -> Option<RequestView> {
    if message.len() == 0 {
        None
    } else {
        match operation_of(message[0]) {
            None => None,
            Some(op) => match split_limited(message.skip(1), MAX_CONTROL_FIELD as int) {
                None => None,
                Some((first, rest)) => match op {
                    Operation::Keygen => Some(RequestView::Keygen(first)),
                    Operation::Encrypt => Some(RequestView::Encrypt(first)),
                    Operation::Decrypt => match split_limited(rest, MAX_CONTROL_FIELD as int) {
                        None => None,
                        Some((second, _)) => Some(RequestView::Decrypt(first, second)),
                    },
                },
            },
        }
    }
}

/// The worker understands every request within the limits as it was meant.
pub proof fn law_request_round_trip(request: RequestView)
    requires
        request.within_limits(),
    ensures
        decode_request(request.message()) == Some(request),
{
    let message = request.message();
    match request {
        RequestView::Keygen(field) => {
            assert(message.skip(1) =~= prefixed(field) + Seq::<u8>::empty());
            law_split_prefixed(field, Seq::empty());
        },
        RequestView::Encrypt(field) => {
            assert(message.skip(1) =~= prefixed(field) + Seq::<u8>::empty());
            law_split_prefixed(field, Seq::empty());
        },
        RequestView::Decrypt(key_blob, passphrase) => {
            assert(message.skip(1) =~= prefixed(key_blob) + prefixed(passphrase));
            law_split_prefixed(key_blob, prefixed(passphrase));
            assert(prefixed(passphrase) + Seq::<u8>::empty() =~= prefixed(passphrase));
            law_split_prefixed(passphrase, Seq::empty());
        },
    }
}

/// A request is what stands in its fields.
pub proof fn law_request_is_its_fields(request: Request)
    ensures
        match request {
            Request::Keygen { passphrase } => request@ == RequestView::Keygen(passphrase@),
            Request::Encrypt { recipient } => request@ == RequestView::Encrypt(recipient@),
            Request::Decrypt { key_blob, passphrase } => request@ == RequestView::Decrypt(
                key_blob@,
                passphrase@,
            ),
        },
{
}

/// The worker finds its control channel and its second output right behind the three standard
/// descriptors, and no descriptor that is closed for it is one of these.
pub proof fn law_descriptors_stay_open(fd: i32)
    requires
        FIRST_CLOSEABLE_FD <= fd < CLOSE_SWEEP_UPPER_BOUND,
    ensures
        FD_CONTROL == 3,
        FD_KEY_OUT == 4,
        fd > FD_CONTROL,
        fd > FD_KEY_OUT,
        5 <= fd < 1024,
{
}

/// Every descriptor from five on is closed for the worker, up to the bound.
pub proof fn law_other_descriptors_are_closed(fd: i32)
    requires
        5 <= fd < 1024,
    ensures
        FIRST_CLOSEABLE_FD <= fd < CLOSE_SWEEP_UPPER_BOUND,
{
}

/// The operations have their numbers: one for a new key pair, two for an encryption, three for a
/// decryption.
pub proof fn law_operations_have_their_numbers(op: u8)
    ensures
        operation_of(op) == Some(Operation::Keygen) <==> op == 1,
        operation_of(op) == Some(Operation::Encrypt) <==> op == 2,
        operation_of(op) == Some(Operation::Decrypt) <==> op == 3,
        operation_of(op) is None <==> op == 0 || op > 3,
{
}

/// A request is its number, followed by its fields, each behind its length.
pub proof fn law_messages_have_their_bytes(first: Seq<u8>, second: Seq<u8>)
    ensures
        RequestView::Keygen(first).message() == seq![1u8] + prefixed(first),
        RequestView::Encrypt(first).message() == seq![2u8] + prefixed(first),
        RequestView::Decrypt(first, second).message() == seq![3u8] + prefixed(first) + prefixed(
            second,
        ),
{
    assert(RequestView::Decrypt(first, second).message() =~= seq![3u8] + prefixed(first)
        + prefixed(second));
}

/// Fields of up to 1048576 bytes are understood, longer ones are not, and what is understood was a
/// request, with whatever behind it.
pub proof fn law_requests_are_read_within_limits(request: RequestView, message: Seq<u8>)
    ensures
        request.within_limits() <==> match request {
            RequestView::Keygen(passphrase) => passphrase.len() <= 1048576,
            RequestView::Encrypt(recipient) => recipient.len() <= 1048576,
            RequestView::Decrypt(key_blob, passphrase) => key_blob.len() <= 1048576
                && passphrase.len() <= 1048576,
        },
        decode_request(message) matches Some(r) ==> {
            &&& r.within_limits()
            &&& r.message().len() <= message.len()
            &&& message.take(r.message().len() as int) == r.message()
        },
{
    if let Some(r) = decode_request(message) {
        lemma_message_of_request(message);
        assert(message.take(r.message().len() as int) =~= r.message());
    }
}

/// Appends a length-prefixed field to a buffer that has room for it.
fn push_field(out: &mut SecureBuf, data: &[u8])
    requires
        old(out).wf(),
        old(out)@.len() + 4 + data@.len() <= old(out).capacity(),
    ensures
        final(out).wf(),
        final(out).capacity() == old(out).capacity(),
        final(out)@ == old(out)@ + prefixed(data@),
        final(out)@.len() == old(out)@.len() + 4 + data@.len(),
{
    let ghost start = out@;
    let mut length: Vec<u8> = Vec::new();
    let n: u32 = prefix_len(data);
    push_le32(&mut length, n);
    proof {
        law_le32_round_trip(n);
    }
    out.push_bytes(length.as_slice());
    out.push_bytes(data);
    assert(out@ =~= start + prefixed(data@));
}

/// Writes a request, in memory that is wiped. The fields have to be within the limits.
pub fn encode_request(request: &Request) -> (r: SecureBuf)
    requires
        request.wf(),
        request@.within_limits(),
    ensures
        r.wf(),
        r@ == request@.message(),
        decode_request(r@) == Some(request@),
{
    let mut out;
    match request {
        Request::Keygen { passphrase } => {
            let op: [u8; 1] = [OP_KEYGEN];
            out = SecureBuf::with_capacity(5 + passphrase.len());
            out.push_bytes(op.as_slice());
            push_field(&mut out, passphrase.as_slice());
        },
        Request::Encrypt { recipient } => {
            let op: [u8; 1] = [OP_ENCRYPT];
            out = SecureBuf::with_capacity(5 + recipient.len());
            out.push_bytes(op.as_slice());
            push_field(&mut out, recipient.as_slice());
        },
        Request::Decrypt { key_blob, passphrase } => {
            let op: [u8; 1] = [OP_DECRYPT];
            out = SecureBuf::with_capacity(9 + key_blob.len() + passphrase.len());
            out.push_bytes(op.as_slice());
            push_field(&mut out, key_blob.as_slice());
            push_field(&mut out, passphrase.as_slice());
        },
    }
    proof {
        assert(out@ =~= request@.message());
        law_request_round_trip(request@);
    }
    out
}

/// Takes a control field off the front of a message.
fn take_control_field<'a>(cursor: &mut &'a [u8]) -> (r: Result<&'a [u8], CryptoError>)
    ensures
        r is Ok <==> split_limited(old(cursor)@, MAX_CONTROL_FIELD as int) is Some,
        r matches Ok(field) ==> split_limited(old(cursor)@, MAX_CONTROL_FIELD as int) == Some(
            (field@, final(cursor)@),
        ),
        r matches Err(e) ==> e == CryptoError::Internal,
{
    match take_u32_prefixed(cursor) {
        Some(field) => {
            if field.len() > MAX_CONTROL_FIELD {
                Err(CryptoError::Internal)
            } else {
                Ok(field)
            }
        },
        None => Err(CryptoError::Internal),
    }
}

/// Reads a request.
pub fn parse_request(message: &[u8]) -> (r: Result<Request, CryptoError>)
    ensures
        r is Ok <==> decode_request(message@) is Some,
        r matches Ok(request) ==> request.wf() && decode_request(message@) == Some(request@),
        r matches Err(e) ==> e == CryptoError::Internal,
{
    let mut cursor: &[u8] = message;
    let op = match take_exact(&mut cursor, 1) {
        Some(op) => op,
        None => return Err(CryptoError::Internal),
    };
    let op: Operation = match parse_operation(op[0]) {
        Ok(op) => op,
        Err(e) => return Err(e),
    };
    let first = match take_control_field(&mut cursor) {
        Ok(field) => field,
        Err(e) => return Err(e),
    };
    match op {
        Operation::Keygen => Ok(Request::Keygen { passphrase: SecureBuf::from_slice(first) }),
        Operation::Encrypt => Ok(Request::Encrypt { recipient: copied(first) }),
        Operation::Decrypt => {
            let second = match take_control_field(&mut cursor) {
                Ok(field) => field,
                Err(e) => return Err(e),
            };
            Ok(
                Request::Decrypt {
                    key_blob: copied(first),
                    passphrase: SecureBuf::from_slice(second),
                },
            )
        },
    }
}

// ---------------------------------------------------------------------------
// Reading a request piece by piece
// ---------------------------------------------------------------------------

/// The length of the longest request.
pub const MAX_REQUEST_LEN: usize = 2097161;

/// What a request of which the bytes `s` were read still needs.
pub open spec fn spec_request_need(s: Seq<u8>) -> Need {
    if s.len() == 0 {
        Need::More(1)
    } else {
        match operation_of(s[0]) {
            None => Need::Bad,
            Some(op) => match field_need(s.skip(1), MAX_CONTROL_FIELD as int) {
                Need::Complete => if op == Operation::Decrypt {
                    field_need((split_prefixed(s.skip(1))->0).1, MAX_CONTROL_FIELD as int)
                } else {
                    Need::Complete
                },
                need => need,
            },
        }
    }
}

/// No request within the limits is longer than the longest.
pub proof fn law_no_request_is_longer(request: RequestView)
    requires
        request.within_limits(),
    ensures
        request.message().len() <= MAX_REQUEST_LEN,
        request matches RequestView::Decrypt(key_blob, passphrase) ==> key_blob.len() == 1048576
            && passphrase.len() == 1048576 ==> request.message().len() == MAX_REQUEST_LEN,
{
    match request {
        RequestView::Keygen(field) => law_prefix_is_the_length(field),
        RequestView::Encrypt(field) => law_prefix_is_the_length(field),
        RequestView::Decrypt(key_blob, passphrase) => {
            law_prefix_is_the_length(key_blob);
            law_prefix_is_the_length(passphrase);
        },
    }
}

/// Tells what a request of which `bytes` were read still needs. It never needs more than the
/// longest request has.
pub fn request_need(bytes: &[u8]) -> (r: Need)
    ensures
        r == spec_request_need(bytes@),
        r matches Need::More(n) ==> 0 < n && bytes@.len() + n <= MAX_REQUEST_LEN,
{
    if bytes.len() == 0 {
        return Need::More(1);
    }
    let op: Operation = match parse_operation(bytes[0]) {
        Ok(op) => op,
        Err(_) => return Need::Bad,
    };
    let (need, at) = limited_need(bytes, 1, MAX_CONTROL_FIELD);
    match need {
        Need::Complete => {},
        other => return other,
    }
    match op {
        Operation::Decrypt => {
            assert(at <= 1 + 4 + MAX_CONTROL_FIELD) by {
                assert(split_prefixed(bytes@.skip(1)) is Some);
                assert(bytes@.skip(at as int).len() == bytes@.len() - at);
            }
            let (need, _end) = limited_need(bytes, at, MAX_CONTROL_FIELD);
            need
        },
        _ => Need::Complete,
    }
}

/// A request needs its number, which has to be known, then its first field and, for a decryption,
/// its second, each of at most 1048576 bytes, one after the other, and each only as much as is
/// missing.
pub proof fn law_request_need_is_what_is_missing(op: u8, first: Seq<u8>, part: Seq<u8>)
    requires
        first.len() <= 1048576,
    ensures
        spec_request_need(Seq::empty()) == Need::More(1),
        op == 0 || op > 3 ==> spec_request_need(seq![op] + part) is Bad,
        1 <= op <= 3 && field_need(part, 1048576) !is Complete ==> spec_request_need(
            seq![op] + part,
        ) == field_need(part, 1048576),
        1 <= op <= 2 ==> spec_request_need(seq![op] + prefixed(first) + part) is Complete,
        spec_request_need(seq![3u8] + prefixed(first) + part) == field_need(part, 1048576),
{
    let one = seq![op] + part;
    assert(one[0] == op);
    assert(one.skip(1) =~= part);
    let two = seq![op] + prefixed(first) + part;
    assert(two[0] == op);
    assert(two.skip(1) =~= prefixed(first) + part);
    let three = seq![3u8] + prefixed(first) + part;
    assert(three[0] == 3);
    assert(three.skip(1) =~= prefixed(first) + part);
    law_split_prefixed(first, part);
    law_limit_decides_on_fields(first, part, prefixed(first) + part, 1048576);
    law_field_need_is_what_is_missing(prefixed(first) + part, 1048576);
}

/// A request is complete exactly where it can be read.
pub proof fn law_complete_request_is_readable(s: Seq<u8>)
    ensures
        spec_request_need(s) is Complete <==> decode_request(s) is Some,
{
}

/// Reading a request piece by piece, each time as much as it still needs: what is bad stays bad,
/// nothing less than what is needed makes the request readable, and when it is readable nothing
/// behind it was read.
pub proof fn law_request_is_read_exactly(s: Seq<u8>, t: Seq<u8>)
    ensures
        spec_request_need(s) is Bad ==> decode_request(s + t) is None,
        spec_request_need(s) matches Need::More(n) ==> {
            &&& 0 < n
            &&& t.len() < n ==> decode_request(s + t) is None
            &&& t.len() == n ==> (decode_request(s + t) matches Some(request) ==> request.message()
                == s + t)
        },
{
    let both = s + t;
    law_complete_request_is_readable(both);
    if s.len() == 0 {
        assert(both =~= t);
        if t.len() == 1 {
            assert(t.skip(1).len() == 0);
        }
    } else {
        assert(both[0] == s[0]);
        assert(both.skip(1) =~= s.skip(1) + t);
        let first = s.skip(1);
        law_field_is_read_exactly(first, t, MAX_CONTROL_FIELD as int);
        if field_need(first, MAX_CONTROL_FIELD as int) is Complete {
            let second = (split_prefixed(first)->0).1;
            law_field_is_read_exactly(second, t, MAX_CONTROL_FIELD as int);
        }
    }
    if let Some(request) = decode_request(both) {
        lemma_message_of_request(both);
        let rest = request_rest(both);
        assert(request.message() + rest == both);
        if rest.len() == 0 {
            assert(request.message() + rest =~= request.message());
        }
    }
}

/// What follows a request in a message.
spec fn request_rest(message: Seq<u8>) -> Seq<u8> {
    let rest = (split_prefixed(message.skip(1))->0).1;
    if operation_of(message[0]) == Some(Operation::Decrypt) {
        (split_prefixed(rest)->0).1
    } else {
        rest
    }
}

proof fn lemma_message_of_request(message: Seq<u8>)
    requires
        decode_request(message) is Some,
    ensures
        (decode_request(message)->0).message() + request_rest(message) == message,
{
    let request = decode_request(message)->0;
    let tail = message.skip(1);
    law_prefixed_is_canonical(tail);
    let (first, rest) = split_prefixed(tail)->0;
    assert(message =~= seq![message[0]] + tail);
    if let RequestView::Decrypt(_, second) = request {
        law_prefixed_is_canonical(rest);
        let end = (split_prefixed(rest)->0).1;
        assert(request.message() + end =~= seq![message[0]] + (prefixed(first) + (prefixed(second)
            + end)));
    } else {
        assert(request.message() + rest =~= seq![message[0]] + (prefixed(first) + rest));
    }
}

/// The code with which the worker ends: that of its error, or of its success, which is marked
/// where memory could not be locked.
pub open spec fn exit_code_of(result: Result<(), CryptoError>, lock_failures: u32) -> i32 {
    match result {
        Ok(()) => if lock_failures > 0 {
            EXIT_CODE_DEGRADED_LOCK
        } else {
            0
        },
        Err(e) => e.spec_exit_code(),
    }
}

/// Tells the code with which the worker has to end.
pub fn worker_exit_code(result: &Result<(), CryptoError>, lock_failures: u32) -> (code: i32)
    ensures
        code == exit_code_of(*result, lock_failures),
{
    match result {
        Ok(()) => {
            if lock_failures > 0 {
                EXIT_CODE_DEGRADED_LOCK
            } else {
                0
            }
        },
        Err(e) => e.exit_code(),
    }
}

/// The worker ends with zero where all went well, with eight where only memory could not be locked,
/// and with the code of its error otherwise, whatever became of the locking.
pub proof fn law_worker_exit_codes(e: CryptoError, lock_failures: u32)
    ensures
        exit_code_of(Ok(()), 0) == 0,
        lock_failures > 0 ==> exit_code_of(Ok(()), lock_failures) == 8,
        exit_code_of(Err(e), lock_failures) == e.spec_exit_code(),
{
}

/// The worker's code tells whether it succeeded, and a failure of locking alone is never reported
/// as a failure of the operation, nor the other way round.
pub proof fn law_exit_code_tells_success(result: Result<(), CryptoError>, lock_failures: u32)
    ensures
        result is Ok <==> crate::job::worker_succeeded(exit_code_of(result, lock_failures)),
        exit_code_of(result, lock_failures) == 0 <==> result is Ok && lock_failures == 0,
        exit_code_of(result, lock_failures) == EXIT_CODE_DEGRADED_LOCK <==> result is Ok
            && lock_failures > 0,
{
}

/// The exit code of a child process: that which it gave, or that of an internal error where a
/// signal ended it.
pub fn child_exit_code(code: Option<i32>) -> (r: i32)
    ensures
        r == (match code {
            Some(c) => c,
            None => 1i32,
        }),
{
    match code {
        Some(c) => c,
        None => 1,
    }
}

/// Whether the value of `HYBRIDCRYPT_STRICT_MLOCK` asks for strict mode: only `1` does.
pub fn strict_requested(value: &Option<Vec<u8>>) -> (r: bool)
    ensures
        r == (match value {
            Some(v) => v@ == seq![49u8],
            None => false,
        }),
{
    let one: [u8; 1] = [49];
    match value {
        Some(v) => {
            assert(one@ =~= seq![49u8]);
            bytes_eq(v.as_slice(), one.as_slice())
        },
        None => false,
    }
}

} // verus!
