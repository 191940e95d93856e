# hybridcrypt

File encryption for a recipient's public key: ML-KEM-1024 together with P-384, HKDF-SHA-256 and
ChaCha20-Poly1305. Private keys are kept under a passphrase by Argon2id.

## Layout

- `src/` is the library. Every function in it is verified with Verus. What it relies on in other
  crates stands in `src/primitives.rs` and, for the wiping of memory, in `src/secure.rs`; the
  functions of the standard library that it relies on stand in `src/primitives.rs`, `src/text.rs`
  and `src/secure_string.rs`.
  - `wire`, `header`, `chunks`, `keyfile`, `container`: the file formats and what they mean.
  - `body`, `stream`: encryption and decryption, of whole files or piece by piece.
  - `tamper`: what becomes of containers that were changed or meet the wrong keys.
  - `passphrase`, `strength`, `fingerprint`, `secure`, `error`: what goes with them.
  - `control`, `hardening`: the worker process.
  - `secure_string`, `field`, `filepick`, `job`, `status`, `gui`, `text`: the window.
- `tests/` holds tests on concrete values.
- `app/` is the program around the library: the window, the worker process, files, and memory that
  is locked and guarded.

## Files

    .hpub   "HPB2" | u32 len | ML-KEM key | u32 len | P-384 point, uncompressed
    .hkey   "HSK2" | memory | passes | lanes | salt[16] | nonce[12] | sealed keys | tag[16]
    .hcx    "HCX3" | u32 len | encapsulated key | u32 len | ephemeral point | nonce[12]
            then chunks of  u32 len | ciphertext | tag[16]

Numbers are little-endian and 32 bits wide. The nonce of a chunk is the nonce of the header with the
number of the chunk folded into its last eight bytes. The number and a flag for the last chunk are
authenticated with each chunk, so that a container that was cut short, reordered or extended does
not open.

## What is proved

- A sealed body opens to what went in, whatever the pieces in which it is read, and is nothing but
  the sealing of the chunks that it opens to.
- A new private key file opens with its passphrase to its keys, and its public file can be encrypted
  for.
- A container is decrypted to what went in by everyone who finds the encapsulated secret. That the
  recipient does find it holds with overwhelming probability and is not proved.
- A container that was changed or cut short in any way is refused, and what comes out of it is whole
  chunks of the plaintext without the last, unless the cipher accepts bytes of it in a place that they
  were not sealed for. The same goes for a changed private key file and for wrong keys.
- Each error comes exactly on the inputs that it is for, and in a fixed order, but for the refusal of
  weak passphrases: those that are no text or too short always are, and of the others an estimate
  decides that is not specified.

## New passphrases

The strength of a new passphrase is estimated by zxcvbn, whose arithmetic overflows on some texts
that are crowded with patterns: long walks over a keyboard, and many short words, dates and the like
without a space between them. Such a text is not handed to it as a whole. It is cut in pieces, and
whoever guesses the text has to guess them all, so the guesses for the pieces multiply. The first cut
is tried in many places, something that is repeated throughout is taken once, and the way with the
fewest guesses counts. Since the words of its lists are not known to the library, the test is on the
safe side: texts of some 36 characters and more without a space can count as crowded though zxcvbn
would have coped with them. What comes out for the pieces is then an estimate of its own, which may
be lower or higher than what zxcvbn would have said of the whole.
