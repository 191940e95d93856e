//! What the user is told.

use crate::passphrase::MIN_PASSPHRASE_CHARS;
use crate::text::{decimal, push_decimal};
use vstd::prelude::*;
use vstd::string::*;

verus! {

/// The most bytes that a key file is read with.
pub const MAX_KEYFILE_BYTES: u64 = 1048576;

/// A key file is read up to a size that a field of a request to the worker can have, and no
/// further.
pub proof fn law_key_files_fit_in_a_request(len: u64)
    ensures
        len <= MAX_KEYFILE_BYTES <==> len <= 1048576,
        len <= MAX_KEYFILE_BYTES <==> len <= crate::control::MAX_CONTROL_FIELD,
{
}

/// The outcome of a job. A warning is no failure: what the job wrote is correct and complete.
pub enum StatusMsg {
    Done(String),
    Warning(String),
    Failure(String),
}

/// The outcome of a job, with its text as characters.
pub enum StatusView {
    Done(Seq<char>),
    Warning(Seq<char>),
    Failure(Seq<char>),
}

impl StatusMsg {
    /// The outcome, with its text as characters.
    pub open spec fn view(&self) -> StatusView {
        match self {
            StatusMsg::Done(s) => StatusView::Done(s@),
            StatusMsg::Warning(s) => StatusView::Warning(s@),
            StatusMsg::Failure(s) => StatusView::Failure(s@),
        }
    }
}

/// An outcome is what stands in it.
pub proof fn law_outcome_is_its_text(status: StatusMsg)
    ensures
        match status {
            StatusMsg::Done(s) => status@ == StatusView::Done(s@),
            StatusMsg::Warning(s) => status@ == StatusView::Warning(s@),
            StatusMsg::Failure(s) => status@ == StatusView::Failure(s@),
        },
{
}

/// Two texts in a row.
pub fn joined2(a: &str, b: &str) -> (r: String)
    ensures
        r@ == a@ + b@,
{
    let mut r = String::new();
    r.append(a);
    r.append(b);
    assert(r@ =~= a@ + b@);
    r
}

/// What an exit code of the worker means, for those that mean a failure.
pub open spec fn exit_code_text(code: i32) -> Seq<char> {
    if code == 2 {
        "Falsche Passphrase oder manipulierte Schluesseldatei."@
    } else if code == 3 {
        "Schluesseldatei ist unbrauchbar oder gehoert nicht zu diesem Format."@
    } else if code == 4 {
        "Container beschaedigt, gekuerzt oder manipuliert - Authentifizierung fehlgeschlagen."@
    } else if code == 5 {
        "Ein-/Ausgabefehler beim Lesen oder Schreiben."@
    } else if code == 6 {
        "Passphrase zu schwach - bitte laenger und weniger vorhersehbar waehlen (mindestens "@
            + decimal(MIN_PASSPHRASE_CHARS as nat)
            + " Zeichen, keine Woerterbuch- oder Tastaturmuster; am robustesten: sechs oder mehr zufaellige, durch Leerzeichen getrennte Woerter)."@
    } else if code == 7 {
        "Speichersperre fehlgeschlagen und strenger Modus (HYBRIDCRYPT_STRICT_MLOCK) aktiv - Vorgang abgebrochen, bevor ein Geheimnis ungesperrt haette existieren koennen. Siehe README fuer RLIMIT_MEMLOCK."@
    } else {
        "Operation fehlgeschlagen."@
    }
}

/// The codes from two to seven have messages of their own, and every other code the same one.
pub proof fn law_exit_code_texts(code: i32)
    ensures
        code < 2 || code > 7 ==> exit_code_text(code) == "Operation fehlgeschlagen."@,
        exit_code_text(2) == "Falsche Passphrase oder manipulierte Schluesseldatei."@,
        exit_code_text(3)
            == "Schluesseldatei ist unbrauchbar oder gehoert nicht zu diesem Format."@,
        exit_code_text(4)
            == "Container beschaedigt, gekuerzt oder manipuliert - Authentifizierung fehlgeschlagen."@,
        exit_code_text(5) == "Ein-/Ausgabefehler beim Lesen oder Schreiben."@,
        exit_code_text(6)
            == "Passphrase zu schwach - bitte laenger und weniger vorhersehbar waehlen (mindestens "@
            + decimal(12)
            + " Zeichen, keine Woerterbuch- oder Tastaturmuster; am robustesten: sechs oder mehr zufaellige, durch Leerzeichen getrennte Woerter)."@,
        exit_code_text(7)
            == "Speichersperre fehlgeschlagen und strenger Modus (HYBRIDCRYPT_STRICT_MLOCK) aktiv - Vorgang abgebrochen, bevor ein Geheimnis ungesperrt haette existieren koennen. Siehe README fuer RLIMIT_MEMLOCK."@,
{
}

/// Tells what an exit code of the worker means.
pub fn exit_code_message(code: i32) -> (r: String)
    ensures
        r@ == exit_code_text(code),
{
    match code {
        2 => "Falsche Passphrase oder manipulierte Schluesseldatei.".to_string(),
        3 => "Schluesseldatei ist unbrauchbar oder gehoert nicht zu diesem Format.".to_string(),
        4 => "Container beschaedigt, gekuerzt oder manipuliert - Authentifizierung fehlgeschlagen.".to_string(),
        5 => "Ein-/Ausgabefehler beim Lesen oder Schreiben.".to_string(),
        6 => {
            let mut s =
                "Passphrase zu schwach - bitte laenger und weniger vorhersehbar waehlen (mindestens ".to_string();
            push_decimal(&mut s, MIN_PASSPHRASE_CHARS as u64);
            s.append(
                " Zeichen, keine Woerterbuch- oder Tastaturmuster; am robustesten: sechs oder mehr zufaellige, durch Leerzeichen getrennte Woerter).",
            );
            s
        },
        7 => "Speichersperre fehlgeschlagen und strenger Modus (HYBRIDCRYPT_STRICT_MLOCK) aktiv - Vorgang abgebrochen, bevor ein Geheimnis ungesperrt haette existieren koennen. Siehe README fuer RLIMIT_MEMLOCK.".to_string(),
        _ => "Operation fehlgeschlagen.".to_string(),
    }
}

/// Why a file that was to be created was not.
pub enum CreateError {
    /// A file of that name exists already. It is never overwritten.
    Exists,
    /// Anything else, in the words of the system.
    Other(String),
}

/// What is said where a file could not be created.
pub open spec fn output_err_text(path: Seq<char>, e: CreateError) -> Seq<char> {
    match e {
        CreateError::Exists => path + " existiert bereits - bitte anderen Namen waehlen."@,
        CreateError::Other(kind) => path + (" nicht anlegbar: "@ + kind@),
    }
}

/// What is said of a file that could not be created begins with its path, and tells that a file of
/// that name exists or what the system said.
pub proof fn law_output_errors_name_the_path(path: Seq<char>, why: String)
    ensures
        output_err_text(path, CreateError::Exists) == path
            + " existiert bereits - bitte anderen Namen waehlen."@,
        output_err_text(path, CreateError::Other(why)) == path + " nicht anlegbar: "@ + why@,
{
    assert(output_err_text(path, CreateError::Other(why)) =~= path + " nicht anlegbar: "@ + why@);
}

/// Tells why a file could not be created.
pub fn output_err(path: &str, e: &CreateError) -> (r: String)
    ensures
        r@ == output_err_text(path@, *e),
{
    match e {
        CreateError::Exists => joined2(path, " existiert bereits - bitte anderen Namen waehlen."),
        CreateError::Other(kind) => joined2(
            path,
            joined2(" nicht anlegbar: ", kind.as_str()).as_str(),
        ),
    }
}

/// What is said of a file that is too large for its format.
pub open spec fn too_large_text(len: u64, max: u64) -> Seq<char> {
    "Datei ist mit "@ + decimal(len as nat)
        + " Byte groesser als fuer dieses Format erwartet (Obergrenze "@ + decimal(max as nat)
        + " Byte)."@
}

/// What is said of a file that is too large names its size and the limit.
pub proof fn law_sizes_are_told(len: u64, max: u64)
    ensures
        too_large_text(len, max) == "Datei ist mit "@ + decimal(len as nat)
            + " Byte groesser als fuer dieses Format erwartet (Obergrenze "@ + decimal(max as nat)
            + " Byte)."@,
{
}

/// Checks the size of a file before it is read.
pub fn check_size(len: u64, max: u64) -> (r: Result<(), String>)
    ensures
        r is Ok <==> len <= max,
        r matches Err(s) ==> s@ == too_large_text(len, max),
{
    if len > max {
        let mut s = "Datei ist mit ".to_string();
        push_decimal(&mut s, len);
        s.append(" Byte groesser als fuer dieses Format erwartet (Obergrenze ");
        push_decimal(&mut s, max);
        s.append(" Byte).");
        Err(s)
    } else {
        Ok(())
    }
}

/// Tells that a file cannot be read, with the system's reason.
pub fn unreadable(kind: &str) -> (r: String)
    ensures
        r@ == "nicht lesbar: "@ + kind@,
{
    joined2("nicht lesbar: ", kind)
}

/// The largest piece in which a file is overwritten.
pub const WIPE_PIECE: usize = 65536;

/// How many zeros to write next when so many bytes of a file are still to be overwritten.
pub fn wipe_piece(left: u64) -> (n: usize)
    ensures
        n == if left < WIPE_PIECE {
            left as int
        } else {
            WIPE_PIECE as int
        },
        left > 0 ==> n > 0,
        left <= 65536 ==> n == left,
        left > 65536 ==> n == 65536,
{
    if left < WIPE_PIECE as u64 {
        left as usize
    } else {
        WIPE_PIECE
    }
}

} // verus!
