//! Passphrases: their normal form, and how strong a new one has to be.

use crate::error::CryptoError;
use crate::primitives::{nfkc, nfkc_bytes, zxcvbn_score};
use crate::secure::{wipe, SecureBuf};
use crate::strength::{
    estimate, estimated_part, is_crowded, is_estimate, law_plain_texts_are_estimated_whole,
    law_score_follows_from_guesses, zxcvbn_said,
};
use vstd::prelude::*;
use vstd::string::*;
use vstd::utf8::*;

verus! {

/// The least number of characters of a new passphrase.
pub const MIN_PASSPHRASE_CHARS: usize = 12;

/// The least zxcvbn score of a new passphrase.
pub const MIN_ZXCVBN_SCORE: u8 = 4;

/// The least estimated number of guesses for a new passphrase.
pub const MIN_GUESSES: u64 = 1_000_000_000_000;

/// The bytes that a passphrase enters the key derivation with: those of its NFKC form, so that
/// different ways to type the same text give the same key.
pub open spec fn normalized(passphrase: Seq<u8>) -> Seq<u8> {
    encode_utf8(nfkc(decode_utf8(passphrase)))
}

/// Whether a new passphrase with so many characters and such an estimate is accepted.
pub open spec fn strong_enough(chars: nat, score: u8, guesses: u64) -> bool {
    &&& chars >= MIN_PASSPHRASE_CHARS
    &&& score >= MIN_ZXCVBN_SCORE
    &&& guesses >= MIN_GUESSES
}

/// All of a passphrase counts: two passphrases enter the key derivation with the same bytes only
/// where the whole of their NFKC texts is the same, and then they do.
pub proof fn law_whole_passphrase_counts(a: Seq<u8>, b: Seq<u8>)
    ensures
        normalized(a) == normalized(b) <==> nfkc(decode_utf8(a)) == nfkc(decode_utf8(b)),
        decode_utf8(normalized(a)) == nfkc(decode_utf8(a)),
        valid_utf8(normalized(a)),
{
    encode_utf8_decode_utf8(nfkc(decode_utf8(a)));
    encode_utf8_decode_utf8(nfkc(decode_utf8(b)));
    encode_utf8_valid_utf8(nfkc(decode_utf8(a)));
}

/// A new passphrase is accepted from 12 characters on, with the highest score and from a million
/// million guesses on, and not below any of these.
pub proof fn law_strength_has_its_thresholds(chars: nat, score: u8, guesses: u64)
    ensures
        strong_enough(chars, score, guesses) <==> chars >= 12 && score >= 4 && guesses
            >= 1_000_000_000_000,
{
}

/// Of a text that is not crowded the estimator decides: with an estimate that was made of it, it is
/// accepted exactly where the estimator said of this text that it takes a million million guesses,
/// and it has 12 characters.
pub proof fn law_estimator_decides_on_plain_texts(text: Seq<char>, score: u8, guesses: u64)
    requires
        !is_crowded(estimated_part(text)),
        is_estimate(text, score, guesses),
    ensures
        zxcvbn_said(text, score, guesses),
        strong_enough(text.len(), score, guesses) <==> text.len() >= 12 && guesses
            >= 1_000_000_000_000,
{
    law_plain_texts_are_estimated_whole(text, score, guesses);
    law_score_follows_from_guesses(text, score, guesses);
}

/// The normal form of a passphrase, in memory that is wiped. Bytes that are no text have none.
pub fn normalize_passphrase(input: &SecureBuf) -> (r: Result<SecureBuf, CryptoError>)
    requires
        input.wf(),
    ensures
        r is Ok <==> valid_utf8(input@),
        r matches Ok(out) ==> out.wf() && out@ == normalized(input@),
        r matches Ok(out) ==> out@ == encode_utf8(nfkc(decode_utf8(input@))),
        r matches Err(e) ==> e == CryptoError::Internal,
{
    let text = match core::str::from_utf8(input.as_slice()) {
        Ok(text) => text,
        Err(_) => return Err(CryptoError::Internal),
    };
    proof {
        encode_utf8_decode_utf8(text@);
    }
    let mut bytes = nfkc_bytes(text);
    let out = SecureBuf::from_slice(bytes.as_slice());
    wipe(&mut bytes, 0);
    Ok(out)
}

/// Judges a new passphrase by its length and its estimate.
pub fn judge_strength(chars: usize, score: u8, guesses: u64) -> (r: Result<(), CryptoError>)
    ensures
        r == (if strong_enough(chars as nat, score, guesses) {
            Ok::<(), CryptoError>(())
        } else {
            Err::<(), CryptoError>(CryptoError::WeakPassphrase)
        }),
        r is Ok <==> chars >= 12 && score >= 4 && guesses >= 1_000_000_000_000,
{
    if chars < MIN_PASSPHRASE_CHARS || score < MIN_ZXCVBN_SCORE || guesses < MIN_GUESSES {
        Err(CryptoError::WeakPassphrase)
    } else {
        Ok(())
    }
}

/// Estimates a new passphrase: the number of its characters, its score and the number of guesses. A
/// passphrase that is no text or too short is refused without an estimate.
pub fn estimate_passphrase(passphrase: &SecureBuf) -> (r: Result<(usize, u8, u64), CryptoError>)
    requires
        passphrase.wf(),
    ensures
        r is Ok <==> valid_utf8(passphrase@) && decode_utf8(passphrase@).len()
            >= MIN_PASSPHRASE_CHARS,
        r matches Err(e) ==> e == CryptoError::WeakPassphrase,
        r matches Ok((chars, score, guesses)) ==> {
            &&& chars == decode_utf8(passphrase@).len()
            &&& score == zxcvbn_score(guesses)
            &&& is_estimate(decode_utf8(passphrase@), score, guesses)
        },
{
    let text = match core::str::from_utf8(passphrase.as_slice()) {
        Ok(text) => text,
        Err(_) => return Err(CryptoError::WeakPassphrase),
    };
    proof {
        encode_utf8_decode_utf8(text@);
    }
    let chars: usize = text.unicode_len();
    if chars < MIN_PASSPHRASE_CHARS {
        return Err(CryptoError::WeakPassphrase);
    }
    let (score, guesses) = estimate(text);
    Ok((chars, score, guesses))
}

/// Checks that a new passphrase is strong enough. Bytes that are no text, and texts that are
/// too short, never are; of the others the estimate decides. An existing passphrase is never
/// checked.
pub fn check_passphrase_strength(passphrase: &SecureBuf) -> (r: Result<(), CryptoError>)
    requires
        passphrase.wf(),
    ensures
        r matches Err(e) ==> e == CryptoError::WeakPassphrase,
        r is Ok ==> valid_utf8(passphrase@) && decode_utf8(passphrase@).len()
            >= MIN_PASSPHRASE_CHARS,
        r is Ok ==> {
            &&& decode_utf8(passphrase@).len() >= 12
            &&& exists|score: u8, guesses: u64|
                {
                    &&& #[trigger] is_estimate(decode_utf8(passphrase@), score, guesses)
                    &&& score >= 4
                    &&& guesses >= 1_000_000_000_000
                }
        },
        r is Err && valid_utf8(passphrase@) && decode_utf8(passphrase@).len() >= 12
            ==> exists|score: u8, guesses: u64|
            {
                &&& #[trigger] is_estimate(decode_utf8(passphrase@), score, guesses)
                &&& score < 4 || guesses < 1_000_000_000_000
            },
{
    match estimate_passphrase(passphrase) {
        Ok((chars, score, guesses)) => judge_strength(chars, score, guesses),
        Err(e) => Err(e),
    }
}

} // verus!
