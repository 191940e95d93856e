use hybridcrypt::control::{
    child_exit_code, encode_request, parse_operation, parse_request, request_need,
    strict_requested, worker_exit_code, Operation, Request,
};
use hybridcrypt::error::CryptoError;
use hybridcrypt::hardening::{
    harden_process, memlock_in_force, memlock_to_request, process_role, Role,
};
use hybridcrypt::secure::{
    lock_failure_count, note_lock, page_size, record_lock_failure, region_layout, round_up_to_page,
    set_strict_mode, LockState, RegionLayout, SecureBuf, SecureBytes,
};
use hybridcrypt::secure_string::{ct_eq, SecureString};
use hybridcrypt::wire::Need;

// -- buffers

#[test]
fn buffers_hold_what_is_pushed() {
    let mut b = SecureBuf::with_capacity(8);
    assert_eq!(b.len(), 0);
    b.push_bytes(&[1, 2, 3]);
    b.push_bytes(&[4]);
    assert_eq!(b.as_slice(), &[1, 2, 3, 4]);
    assert_eq!(b.len(), 4);
    b.as_mut_slice()[0] = 9;
    assert_eq!(b.as_slice(), &[9, 2, 3, 4]);
    b.fill_to_capacity();
    assert_eq!(b.as_slice(), &[9, 2, 3, 4, 0, 0, 0, 0]);
}

#[test]
fn shortened_buffers_are_wiped() {
    let mut b = SecureBuf::from_slice(&[1, 2, 3, 4, 5]);
    b.truncate_wiped(7);
    assert_eq!(b.as_slice(), &[1, 2, 3, 4, 5]);
    b.truncate_wiped(2);
    assert_eq!(b.as_slice(), &[1, 2]);
    b.fill_to_capacity();
    assert_eq!(b.as_slice(), &[1, 2, 0, 0, 0]);
    b.clear();
    assert_eq!(b.len(), 0);
    b.fill_to_capacity();
    assert_eq!(b.as_slice(), &[0; 5]);
}

#[test]
fn buffers_have_the_capacity_asked_for() {
    let mut b = SecureBuf::with_capacity(0);
    b.fill_to_capacity();
    assert_eq!(b.len(), 0);
    assert!(b.as_slice().is_empty());
    b.clear();
    let mut b = SecureBuf::from_slice(&[]);
    b.fill_to_capacity();
    assert_eq!(b.len(), 0);
    let mut b = SecureBuf::with_capacity(1);
    b.fill_to_capacity();
    assert_eq!(b.as_slice(), &[0]);
}

#[test]
fn blocks_begin_as_zeros() {
    let mut b = SecureBytes::new(3);
    assert_eq!(b.as_mut_ptr(), &[0, 0, 0]);
    b.as_mut_ptr()[1] = 5;
    assert_eq!(b.as_mut_ptr(), &[0, 5, 0]);
    assert_eq!(SecureBytes::new(0).as_mut_ptr(), &[0]);
}

// -- locking

#[test]
fn lock_failures_are_counted() {
    let mut state = LockState { strict: false, failures: 0 };
    assert_eq!(record_lock_failure(&mut state), None);
    assert_eq!(record_lock_failure(&mut state), None);
    assert_eq!(lock_failure_count(&state), 2);
    state.failures = u32::MAX;
    assert_eq!(record_lock_failure(&mut state), None);
    assert_eq!(lock_failure_count(&state), 0);
}

#[test]
fn count_is_the_number_of_failed_locks() {
    let mut state = LockState { strict: false, failures: 0 };
    for locked in [true, false, true, true, false, false] {
        assert_eq!(note_lock(&mut state, locked), None);
    }
    assert_eq!(lock_failure_count(&state), 3);
    set_strict_mode(&mut state, true);
    assert_eq!(note_lock(&mut state, true), None);
    assert_eq!(note_lock(&mut state, false), Some(7));
    assert_eq!(lock_failure_count(&state), 4);
}

#[test]
fn strict_mode_ends_the_process_at_once() {
    let mut state = LockState { strict: false, failures: 3 };
    set_strict_mode(&mut state, true);
    assert_eq!(state, LockState { strict: true, failures: 3 });
    assert_eq!(record_lock_failure(&mut state), Some(7));
    assert_eq!(lock_failure_count(&state), 4);
    set_strict_mode(&mut state, false);
    assert_eq!(record_lock_failure(&mut state), None);
}

#[test]
fn regions_have_guards_on_both_sides() {
    assert_eq!(round_up_to_page(4096, 4096), 4096);
    assert_eq!(round_up_to_page(4097, 4096), 8192);
    assert_eq!(round_up_to_page(0, 4096), 0);
    let expected = RegionLayout {
        total_len: 3 * 4096,
        data_offset: 4096,
        data_cap: 4096,
        rear_guard_offset: 8192,
        guard_len: 4096,
    };
    assert_eq!(region_layout(32, 4096), Some(expected));
    assert_eq!(region_layout(0, 4096), Some(expected));
    assert_eq!(region_layout(65536, 4096).map(|l| l.total_len), Some(65536 + 8192));
    assert_eq!(region_layout(usize::MAX, 4096), None);
    assert_eq!(region_layout(usize::MAX - 8192, 4096), None);
}

#[test]
fn page_size_falls_back() {
    assert_eq!(page_size(16384), 16384);
    assert_eq!(page_size(0), 4096);
    assert_eq!(page_size(-1), 4096);
}

// -- passphrases as they are typed

#[test]
fn typed_characters_are_removed_whole() {
    let mut s = SecureString::new();
    assert!(s.is_empty());
    s.pop_char();
    assert!(s.is_empty());
    for text in ["a", "\u{e9}", "\u{20ac}", "\u{1f511}"] {
        s.push_str(text);
    }
    assert_eq!(s.char_count(), 4);
    assert_eq!(s.as_bytes(), "a\u{e9}\u{20ac}\u{1f511}".as_bytes());
    s.pop_char();
    assert_eq!(s.as_bytes(), "a\u{e9}\u{20ac}".as_bytes());
    s.pop_char();
    assert_eq!(s.as_bytes(), "a\u{e9}".as_bytes());
    s.pop_char();
    assert_eq!(s.as_bytes(), b"a");
    assert_eq!(s.char_count(), 1);
    s.pop_char();
    assert!(s.is_empty());
}

#[test]
fn passphrases_stay_within_the_limit() {
    let mut s = SecureString::new();
    s.push_str(&"x".repeat(1023));
    s.push_str("\u{e9}");
    assert_eq!(s.as_bytes().len(), 1023);
    s.push_str("y");
    assert_eq!(s.as_bytes().len(), 1024);
    s.push_str("z");
    assert_eq!(s.char_count(), 1024);
    let mut taken = s.take();
    assert!(s.is_empty());
    assert_eq!(taken.char_count(), 1024);
    taken.clear();
    assert!(taken.is_empty());
}

#[test]
fn constant_time_comparison_compares() {
    assert!(ct_eq(b"", b""));
    assert!(ct_eq(b"abc", b"abc"));
    assert!(!ct_eq(b"abc", b"abd"));
    assert!(!ct_eq(b"abc", b"Abc"));
    assert!(!ct_eq(b"abc", b"ab"));
    assert!(!ct_eq(&[0x80], &[0x00]));
}

// -- the worker

#[test]
fn requests_come_back() {
    let r = Request::Keygen { passphrase: SecureBuf::from_slice(b"pw") };
    let m = encode_request(&r);
    assert_eq!(m.as_slice(), b"\x01\x02\x00\x00\x00pw");
    match parse_request(m.as_slice()) {
        Ok(Request::Keygen { passphrase }) => assert_eq!(passphrase.as_slice(), b"pw"),
        _ => panic!("no key pair"),
    }
    let m = encode_request(&Request::Encrypt { recipient: vec![7, 8] });
    assert_eq!(m.as_slice(), b"\x02\x02\x00\x00\x00\x07\x08");
    match parse_request(m.as_slice()) {
        Ok(Request::Encrypt { recipient }) => assert_eq!(recipient, vec![7, 8]),
        _ => panic!("no encryption"),
    }
    let r = Request::Decrypt { key_blob: vec![9], passphrase: SecureBuf::from_slice(b"") };
    let m = encode_request(&r);
    assert_eq!(m.as_slice(), b"\x03\x01\x00\x00\x00\x09\x00\x00\x00\x00");
    match parse_request(m.as_slice()) {
        Ok(Request::Decrypt { key_blob, passphrase }) => {
            assert_eq!(key_blob, vec![9]);
            assert_eq!(passphrase.len(), 0);
        }
        _ => panic!("no decryption"),
    }
}

#[test]
fn broken_requests_are_refused() {
    for m in [
        &b""[..],
        &b"\x00\x00\x00\x00\x00"[..],
        &b"\x04\x00\x00\x00\x00"[..],
        &b"\x01\x02\x00\x00\x00p"[..],
        &b"\x01\x02\x00"[..],
        &b"\x03\x00\x00\x00\x00"[..],
        &b"\x02\x01\x00\x10\x00"[..],
    ] {
        assert_eq!(parse_request(m).err(), Some(CryptoError::Internal));
    }
    let mut m = vec![2];
    m.extend_from_slice(&1048577u32.to_le_bytes());
    m.resize(5 + 1048577, 0);
    assert_eq!(parse_request(&m).err(), Some(CryptoError::Internal));
    assert!(parse_request(b"\x01\x01\x00\x00\x00pmore").is_ok());
}

#[test]
fn requests_are_read_exactly() {
    for message in [
        &b"\x01\x02\x00\x00\x00pw"[..],
        &b"\x02\x00\x00\x00\x00"[..],
        &b"\x03\x01\x00\x00\x00k\x02\x00\x00\x00pw"[..],
    ] {
        let mut read = 0;
        while let Need::More(n) = request_need(&message[..read]) {
            read += n;
        }
        assert_eq!(read, message.len());
        assert_eq!(request_need(message), Need::Complete);
        assert!(parse_request(message).is_ok());
    }
    assert_eq!(request_need(b""), Need::More(1));
    assert_eq!(request_need(b"\x00"), Need::Bad);
    assert_eq!(request_need(&[1, 0, 0, 16, 0]), Need::More(1048576));
    assert_eq!(request_need(&[1, 1, 0, 16, 0]), Need::Bad);
    assert_eq!(request_need(&[2, 255, 255, 255, 255]), Need::Bad);
}

#[test]
fn operations_have_their_numbers() {
    assert_eq!(parse_operation(1), Ok(Operation::Keygen));
    assert_eq!(parse_operation(2), Ok(Operation::Encrypt));
    assert_eq!(parse_operation(3), Ok(Operation::Decrypt));
    assert_eq!(parse_operation(0), Err(CryptoError::Internal));
}

#[test]
fn worker_reports_its_end() {
    assert_eq!(worker_exit_code(&Ok(()), 0), 0);
    assert_eq!(worker_exit_code(&Ok(()), 1), 8);
    assert_eq!(worker_exit_code(&Err(CryptoError::BadContainer), 0), 4);
    assert_eq!(worker_exit_code(&Err(CryptoError::WeakPassphrase), 5), 6);
    assert_eq!(child_exit_code(Some(4)), 4);
    assert_eq!(child_exit_code(None), 1);
}

#[test]
fn strict_mode_is_asked_for_by_one() {
    assert!(strict_requested(&Some(b"1".to_vec())));
    assert!(!strict_requested(&Some(b"0".to_vec())));
    assert!(!strict_requested(&Some(b"11".to_vec())));
    assert!(!strict_requested(&Some(Vec::new())));
    assert!(!strict_requested(&None));
}

// -- hardening

#[test]
fn role_follows_the_arguments() {
    let args = |list: &[&str]| -> Vec<Vec<u8>> {
        list.iter().map(|a| a.as_bytes().to_vec()).collect()
    };
    assert_eq!(process_role(&args(&["hybridcrypt"])), Role::Gui);
    assert_eq!(process_role(&args(&["hybridcrypt", "--worker"])), Role::Worker);
    assert_eq!(process_role(&args(&["hybridcrypt", "x", "--worker", "y"])), Role::Worker);
    assert_eq!(process_role(&args(&["hybridcrypt", "--worker2"])), Role::Gui);
    assert_eq!(process_role(&args(&[])), Role::Gui);
}

#[test]
fn every_process_is_hardened() {
    for role in [Role::Gui, Role::Worker] {
        let plan = harden_process(role, None, u64::MAX);
        assert_eq!(plan.core_limit, 0);
        assert_eq!(plan.umask, 0o077);
        assert!(plan.deny_debugger);
        assert!(!plan.lock_all);
    }
}

#[test]
fn lock_limit_is_raised_to_the_hard_one() {
    assert_eq!(memlock_to_request(Some((8, 16))), Some(16));
    assert_eq!(memlock_to_request(Some((16, 16))), None);
    assert_eq!(memlock_to_request(Some((17, 16))), None);
    assert_eq!(memlock_to_request(None), None);
}

#[test]
fn only_a_worker_with_room_locks_everything() {
    let mib = 1024 * 1024;
    assert!(harden_process(Role::Worker, Some((320 * mib, 320 * mib)), u64::MAX).lock_all);
    assert!(!harden_process(Role::Gui, Some((320 * mib, 320 * mib)), u64::MAX).lock_all);
    assert!(!harden_process(Role::Worker, Some((320 * mib - 1, 400 * mib)), u64::MAX).lock_all);
    assert!(harden_process(Role::Worker, Some((u64::MAX, u64::MAX)), u64::MAX).lock_all);
    assert!(harden_process(Role::Worker, Some((7, 7)), 7).lock_all);
}

#[test]
fn failed_raise_leaves_the_soft_limit_in_force() {
    let mib = 1024 * 1024;
    let before = Some((64 * mib, 512 * mib));
    assert_eq!(memlock_to_request(before), Some(512 * mib));
    assert_eq!(memlock_in_force(before), 64 * mib);
    assert_eq!(memlock_in_force(None), 0);
    assert!(!harden_process(Role::Worker, before, u64::MAX).lock_all);
}
