//! The state of the window: what was typed and chosen, when a job can start, and what is told of
//! it. Drawing and the file system are the caller's.

use crate::filepick::{path_view, FilePicker, PickMode, PickOutcome, PickerView};
use crate::fingerprint::{fingerprint_text, pubkey_fingerprint};
use crate::passphrase::MIN_PASSPHRASE_CHARS;
use crate::primitives::sha256;
use crate::secure_string::{ct_eq, SecureString};
use crate::status::{joined2, StatusMsg, StatusView};
use crate::wire::copied;
use vstd::prelude::*;
use vstd::string::*;

verus! {

/// The pages of the window.
#[derive(Clone, Copy, Debug, PartialEq, Eq, Structural)]
pub enum Tab {
    Keygen,
    Encrypt,
    Decrypt,
}

/// What a path is chosen for.
#[derive(Clone, Copy, Debug, PartialEq, Eq, Structural)]
pub enum PickTarget {
    KeygenDir,
    EncryptPub,
    EncryptIn,
    EncryptOutDir,
    DecryptKey,
    DecryptIn,
    DecryptOutDir,
}

/// The state of the window. Paths are the bytes that the system knows them by.
pub struct App {
    pub tab: Tab,
    pub kg_pass: SecureString,
    pub kg_pass_repeat: SecureString,
    pub kg_dir: Option<Vec<u8>>,
    pub kg_name: String,
    pub enc_pub: Option<Vec<u8>>,
    /// The fingerprint of the chosen recipient, to be compared outside of the program.
    pub enc_pub_fingerprint: Option<String>,
    pub enc_in: Option<Vec<u8>>,
    pub enc_out_dir: Option<Vec<u8>>,
    pub enc_out_name: String,
    pub dec_key: Option<Vec<u8>>,
    pub dec_pass: SecureString,
    pub dec_in: Option<Vec<u8>>,
    pub dec_out_dir: Option<Vec<u8>>,
    pub dec_out_name: String,
    pub picker: Option<(FilePicker, PickTarget)>,
    /// Whether a job is running.
    pub working: bool,
    pub status: Option<StatusMsg>,
}

/// The state of the window, with texts and paths as sequences.
pub struct AppView {
    pub tab: Tab,
    pub kg_pass: Seq<char>,
    pub kg_pass_repeat: Seq<char>,
    pub kg_dir: Option<Seq<u8>>,
    pub kg_name: Seq<char>,
    pub enc_pub: Option<Seq<u8>>,
    pub enc_pub_fingerprint: Option<Seq<char>>,
    pub enc_in: Option<Seq<u8>>,
    pub enc_out_dir: Option<Seq<u8>>,
    pub enc_out_name: Seq<char>,
    pub dec_key: Option<Seq<u8>>,
    pub dec_pass: Seq<char>,
    pub dec_in: Option<Seq<u8>>,
    pub dec_out_dir: Option<Seq<u8>>,
    pub dec_out_name: Seq<char>,
    pub picker: Option<(PickerView, PickTarget)>,
    pub working: bool,
    pub status: Option<StatusView>,
}

/// The characters of a text that may be missing.
pub open spec fn text_view(text: Option<String>) -> Option<Seq<char>> {
    match text {
        Some(t) => Some(t@),
        None => None,
    }
}

/// The name that is proposed for the container of a file.
pub open spec fn container_name(name: Seq<char>) -> Seq<char> {
    name + seq!['.', 'h', 'c', 'x']
}

/// The name that is proposed for the content of a container.
pub open spec fn content_name(name: Seq<char>) -> Seq<char> {
    if name.len() >= 4 && name.skip(name.len() - 4) == seq!['.', 'h', 'c', 'x'] {
        name.take(name.len() - 4)
    } else {
        "entschluesselt"@
    }
}

/// The name that is proposed for the content of a container with a proposed name is the name of
/// the file that went in.
pub proof fn law_proposed_names_are_inverse(name: Seq<char>)
    ensures
        content_name(container_name(name)) == name,
{
    let long = container_name(name);
    assert(long.skip(long.len() - 4) =~= seq!['.', 'h', 'c', 'x']);
    assert(long.take(long.len() - 4) =~= name);
}

/// The name that is proposed for the container of a file is that of the file with `.hcx` behind it.
/// The name that is proposed for the content of a container is its own without that ending, and
/// `entschluesselt` where it has not that ending.
pub proof fn law_proposed_names(name: Seq<char>)
    ensures
        container_name(name) == name + ".hcx"@,
        content_name(name + ".hcx"@) == name,
        (forall|stem: Seq<char>| name != #[trigger] (stem + ".hcx"@)) ==> content_name(name)
            == "entschluesselt"@,
{
    reveal_strlit(".hcx");
    assert(".hcx"@ =~= seq!['.', 'h', 'c', 'x']);
    law_proposed_names_are_inverse(name);
    if name.len() >= 4 && name.skip(name.len() - 4) == seq!['.', 'h', 'c', 'x'] {
        let stem = name.take(name.len() - 4);
        assert(name =~= stem + ".hcx"@);
    }
}

fn propose_container_name(name: &str) -> (r: String)
    ensures
        r@ == container_name(name@),
{
    proof {
        reveal_strlit(".hcx");
        assert(".hcx"@ =~= seq!['.', 'h', 'c', 'x']);
    }
    joined2(name, ".hcx")
}

fn propose_content_name(name: &str) -> (r: String)
    ensures
        r@ == content_name(name@),
{
    let n: usize = name.unicode_len();
    if n >= 4 && name.get_char(n - 4) == '.' && name.get_char(n - 3) == 'h' && name.get_char(n - 2)
        == 'c' && name.get_char(n - 1) == 'x' {
        assert(name@.skip(n - 4) =~= seq!['.', 'h', 'c', 'x']);
        assert(name@.take(n - 4) =~= name@.subrange(0, n - 4));
        name.substring_char(0, n - 4).to_string()
    } else {
        proof {
            if n >= 4 {
                let tail = name@.skip(n - 4);
                let ending = seq!['.', 'h', 'c', 'x'];
                if tail == ending {
                    assert(tail[0] == name@[n - 4] && tail[1] == name@[n - 3]);
                    assert(tail[2] == name@[n - 2] && tail[3] == name@[n - 1]);
                }
            }
        }
        "entschluesselt".to_string()
    }
}

fn is_blank(text: &String) -> (r: bool)
    ensures
        r == (text@.len() == 0),
{
    text.as_str().unicode_len() == 0
}

/// What the file system says of a chosen path.
pub struct PickFacts {
    /// The last part of the path.
    pub file_name: Option<String>,
    /// The directory that the path lies in.
    pub parent: Option<Vec<u8>>,
    /// The content of the file, where it could be read within the limit for key files.
    pub key_file: Option<Vec<u8>>,
}

/// A new key pair to be made.
pub struct KeygenOrder {
    pub passphrase: SecureString,
    pub dir: Vec<u8>,
    pub pub_name: String,
    pub key_name: String,
}

/// A file to be encrypted.
pub struct EncryptOrder {
    pub recipient_pub: Vec<u8>,
    pub input: Vec<u8>,
    pub out_dir: Vec<u8>,
    pub out_name: String,
}

/// A container to be decrypted.
pub struct DecryptOrder {
    pub key_file: Vec<u8>,
    pub passphrase: SecureString,
    pub input: Vec<u8>,
    pub out_dir: Vec<u8>,
    pub out_name: String,
}

/// What the thread of a running job has to say.
pub enum JobPoll {
    /// The job is done.
    Finished(StatusMsg),
    /// The thread is gone without a word.
    Disconnected,
    /// Nothing yet.
    Empty,
}

impl AppView {
    /// Whether the two new passphrases are the same.
    pub open spec fn passphrases_match(self) -> bool {
        self.kg_pass == self.kg_pass_repeat
    }

    /// Whether the new passphrase has enough characters to be tried.
    pub open spec fn long_enough(self) -> bool {
        self.kg_pass.len() >= MIN_PASSPHRASE_CHARS
    }

    /// Whether a new key pair can be made.
    pub open spec fn keygen_ready(self) -> bool {
        &&& self.passphrases_match()
        &&& self.long_enough()
        &&& self.kg_dir is Some
        &&& self.kg_name.len() > 0
    }

    /// Whether a file can be encrypted.
    pub open spec fn encrypt_ready(self) -> bool {
        &&& self.enc_pub is Some
        &&& self.enc_in is Some
        &&& self.enc_out_dir is Some
        &&& self.enc_out_name.len() > 0
    }

    /// Whether a container can be decrypted.
    pub open spec fn decrypt_ready(self) -> bool {
        &&& self.dec_key is Some
        &&& self.dec_pass.len() > 0
        &&& self.dec_in is Some
        &&& self.dec_out_dir is Some
        &&& self.dec_out_name.len() > 0
    }

    /// The path near which something is looked for.
    pub open spec fn origin(self, target: PickTarget) -> Option<Seq<u8>> {
        match target {
            PickTarget::KeygenDir => self.kg_dir,
            PickTarget::EncryptPub => self.enc_in,
            PickTarget::EncryptIn => self.enc_in,
            PickTarget::EncryptOutDir => self.enc_out_dir,
            PickTarget::DecryptKey => self.dec_in,
            PickTarget::DecryptIn => self.dec_in,
            PickTarget::DecryptOutDir => self.dec_out_dir,
        }
    }

    /// The window after a path was chosen. A chosen input proposes a name and a directory for the
    /// output where none are there yet, and a chosen recipient shows its fingerprint.
    pub open spec fn picked(
        self,
        target: PickTarget,
        path: Seq<u8>,
        file_name: Option<Seq<char>>,
        parent: Option<Seq<u8>>,
        key_file: Option<Seq<u8>>,
    ) -> AppView {
        match target {
            PickTarget::KeygenDir => AppView { kg_dir: Some(path), ..self },
            PickTarget::EncryptPub => AppView {
                enc_pub: Some(path),
                enc_pub_fingerprint: match key_file {
                    Some(bytes) => Some(fingerprint_text(sha256(bytes))),
                    None => None,
                },
                ..self
            },
            PickTarget::EncryptIn => AppView {
                enc_in: Some(path),
                enc_out_name: if self.enc_out_name.len() == 0 && file_name is Some {
                    container_name(file_name->0)
                } else {
                    self.enc_out_name
                },
                enc_out_dir: if self.enc_out_dir is None {
                    parent
                } else {
                    self.enc_out_dir
                },
                ..self
            },
            PickTarget::EncryptOutDir => AppView { enc_out_dir: Some(path), ..self },
            PickTarget::DecryptKey => AppView { dec_key: Some(path), ..self },
            PickTarget::DecryptIn => AppView {
                dec_in: Some(path),
                dec_out_name: if self.dec_out_name.len() == 0 && file_name is Some {
                    content_name(file_name->0)
                } else {
                    self.dec_out_name
                },
                dec_out_dir: if self.dec_out_dir is None {
                    parent
                } else {
                    self.dec_out_dir
                },
                ..self
            },
            PickTarget::DecryptOutDir => AppView { dec_out_dir: Some(path), ..self },
        }
    }

    /// The window once a job has started.
    pub open spec fn started(self) -> AppView {
        AppView { working: true, status: None, ..self }
    }

    /// The window once a job has ended.
    pub open spec fn ended(self, status: StatusView) -> AppView {
        AppView { working: false, status: Some(status), ..self }
    }
}

/// A key pair can be made only where the passphrase and its repetition are the same, character for
/// character, and have at least 12 characters, and where a directory and a name are given; and then
/// it can.
pub proof fn law_unequal_entries_are_never_ready(app: AppView)
    ensures
        app.kg_pass != app.kg_pass_repeat ==> !app.keygen_ready() && !app.passphrases_match(),
        app.kg_pass == app.kg_pass_repeat ==> app.passphrases_match(),
        app.kg_pass.len() < 12 ==> !app.keygen_ready() && !app.long_enough(),
        app.kg_pass.len() >= 12 ==> app.long_enough(),
        app.keygen_ready() <==> {
            &&& app.kg_pass == app.kg_pass_repeat
            &&& app.kg_pass.len() >= 12
            &&& app.kg_dir is Some
            &&& app.kg_name.len() > 0
        },
{
}

/// A file can be encrypted exactly where the recipient, the file, a directory and a name for the
/// container are given; a container can be decrypted exactly where the private key file, a
/// passphrase, the container, a directory and a name for the content are.
pub proof fn law_jobs_need_all_of_their_parts(app: AppView)
    ensures
        app.encrypt_ready() <==> {
            &&& app.enc_pub is Some
            &&& app.enc_in is Some
            &&& app.enc_out_dir is Some
            &&& app.enc_out_name.len() > 0
        },
        app.decrypt_ready() <==> {
            &&& app.dec_key is Some
            &&& app.dec_pass.len() > 0
            &&& app.dec_in is Some
            &&& app.dec_out_dir is Some
            &&& app.dec_out_name.len() > 0
        },
{
}

/// A chosen path goes where it was chosen for and nowhere else. A chosen recipient shows the
/// fingerprint of its file, or none where that could not be read. A chosen input proposes a name
/// and a directory where there are none.
pub proof fn law_picks_go_where_they_belong(
    app: AppView,
    target: PickTarget,
    path: Seq<u8>,
    file_name: Option<Seq<char>>,
    parent: Option<Seq<u8>>,
    key_file: Option<Seq<u8>>,
)
    ensures
        ({
            let next = app.picked(target, path, file_name, parent, key_file);
            &&& next.kg_dir == if target == PickTarget::KeygenDir {
                Some(path)
            } else {
                app.kg_dir
            }
            &&& next.enc_pub == if target == PickTarget::EncryptPub {
                Some(path)
            } else {
                app.enc_pub
            }
            &&& target != PickTarget::EncryptPub ==> next.enc_pub_fingerprint
                == app.enc_pub_fingerprint
            &&& target == PickTarget::EncryptPub && key_file is None ==> next.enc_pub_fingerprint
                is None
            &&& target == PickTarget::EncryptPub && key_file is Some ==> next.enc_pub_fingerprint
                == Some(fingerprint_text(sha256(key_file->0)))
            &&& next.enc_in == if target == PickTarget::EncryptIn {
                Some(path)
            } else {
                app.enc_in
            }
            &&& next.dec_key == if target == PickTarget::DecryptKey {
                Some(path)
            } else {
                app.dec_key
            }
            &&& next.dec_in == if target == PickTarget::DecryptIn {
                Some(path)
            } else {
                app.dec_in
            }
            &&& next.enc_out_dir == if target == PickTarget::EncryptOutDir {
                Some(path)
            } else if target == PickTarget::EncryptIn && app.enc_out_dir is None {
                parent
            } else {
                app.enc_out_dir
            }
            &&& next.dec_out_dir == if target == PickTarget::DecryptOutDir {
                Some(path)
            } else if target == PickTarget::DecryptIn && app.dec_out_dir is None {
                parent
            } else {
                app.dec_out_dir
            }
            &&& next.enc_out_name == if target == PickTarget::EncryptIn && app.enc_out_name.len()
                == 0 && file_name is Some {
                file_name->0 + ".hcx"@
            } else {
                app.enc_out_name
            }
            &&& next.dec_out_name == if target == PickTarget::DecryptIn && app.dec_out_name.len()
                == 0 && file_name is Some {
                content_name(file_name->0)
            } else {
                app.dec_out_name
            }
            &&& next.tab == app.tab
            &&& next.kg_pass == app.kg_pass
            &&& next.kg_pass_repeat == app.kg_pass_repeat
            &&& next.kg_name == app.kg_name
            &&& next.dec_pass == app.dec_pass
            &&& next.picker == app.picker
            &&& next.working == app.working
            &&& next.status == app.status
        }),
{
    if let Some(name) = file_name {
        law_proposed_names(name);
    }
}

/// While a job runs nothing is told of an earlier one, and once it has ended its outcome is told.
/// Neither touches what was typed or chosen.
pub proof fn law_jobs_begin_and_end(app: AppView, status: StatusView)
    ensures
        app.started().working,
        app.started().status is None,
        !app.ended(status).working,
        app.ended(status).status == Some(status),
        (AppView { working: app.working, status: app.status, ..app.started() }) == app,
        (AppView { working: app.working, status: app.status, ..app.ended(status) }) == app,
{
}

/// Something is looked for near what was chosen before: near the file to be encrypted for the
/// recipient too, and near the container for the private key file too.
pub proof fn law_origins(app: AppView)
    ensures
        app.origin(PickTarget::KeygenDir) == app.kg_dir,
        app.origin(PickTarget::EncryptPub) == app.enc_in,
        app.origin(PickTarget::EncryptIn) == app.enc_in,
        app.origin(PickTarget::EncryptOutDir) == app.enc_out_dir,
        app.origin(PickTarget::DecryptKey) == app.dec_in,
        app.origin(PickTarget::DecryptIn) == app.dec_in,
        app.origin(PickTarget::DecryptOutDir) == app.dec_out_dir,
{
}

/// The state of the window is what stands in its fields.
pub proof fn law_window_is_its_fields(app: App)
    ensures
        app@.tab == app.tab,
        app@.kg_pass == app.kg_pass@,
        app@.kg_pass_repeat == app.kg_pass_repeat@,
        app@.kg_name == app.kg_name@,
        app@.enc_out_name == app.enc_out_name@,
        app@.dec_pass == app.dec_pass@,
        app@.dec_out_name == app.dec_out_name@,
        app@.working == app.working,
        app.kg_dir is Some <==> app@.kg_dir is Some,
        app.kg_dir is Some ==> app@.kg_dir == Some(app.kg_dir->0@),
        app.enc_pub is Some <==> app@.enc_pub is Some,
        app.enc_pub is Some ==> app@.enc_pub == Some(app.enc_pub->0@),
        app.enc_pub_fingerprint is Some <==> app@.enc_pub_fingerprint is Some,
        app.enc_pub_fingerprint is Some ==> app@.enc_pub_fingerprint == Some(
            app.enc_pub_fingerprint->0@,
        ),
        app.enc_in is Some <==> app@.enc_in is Some,
        app.enc_in is Some ==> app@.enc_in == Some(app.enc_in->0@),
        app.enc_out_dir is Some <==> app@.enc_out_dir is Some,
        app.enc_out_dir is Some ==> app@.enc_out_dir == Some(app.enc_out_dir->0@),
        app.dec_key is Some <==> app@.dec_key is Some,
        app.dec_key is Some ==> app@.dec_key == Some(app.dec_key->0@),
        app.dec_in is Some <==> app@.dec_in is Some,
        app.dec_in is Some ==> app@.dec_in == Some(app.dec_in->0@),
        app.dec_out_dir is Some <==> app@.dec_out_dir is Some,
        app.dec_out_dir is Some ==> app@.dec_out_dir == Some(app.dec_out_dir->0@),
        app.status is Some <==> app@.status is Some,
        app.status is Some ==> app@.status == Some(app.status->0@),
        app.picker is Some <==> app@.picker is Some,
        app.picker is Some ==> app@.picker == Some(((app.picker->0).0@, (app.picker->0).1)),
{
}

/// Choosing an input never replaces a name or a directory that the user gave.
pub proof fn law_picks_keep_what_was_given(
    app: AppView,
    target: PickTarget,
    path: Seq<u8>,
    file_name: Option<Seq<char>>,
    parent: Option<Seq<u8>>,
    key_file: Option<Seq<u8>>,
)
    ensures
        ({
            let next = app.picked(target, path, file_name, parent, key_file);
            &&& app.enc_out_name.len() > 0 ==> next.enc_out_name == app.enc_out_name
            &&& app.dec_out_name.len() > 0 ==> next.dec_out_name == app.dec_out_name
            &&& app.enc_out_dir is Some && target != PickTarget::EncryptOutDir ==> next.enc_out_dir
                == app.enc_out_dir
            &&& app.dec_out_dir is Some && target != PickTarget::DecryptOutDir ==> next.dec_out_dir
                == app.dec_out_dir
            &&& next.kg_pass == app.kg_pass
            &&& next.kg_pass_repeat == app.kg_pass_repeat
            &&& next.dec_pass == app.dec_pass
        }),
{
}

/// The directory that a browser starts in: the path itself where it is a directory, else the
/// directory that it lies in.
pub fn start_dir(path: Option<Vec<u8>>, is_dir: bool, parent: Option<Vec<u8>>) -> (r: Option<
    Vec<u8>,
>)
    ensures
        path_view(r) == (match path {
            None => None,
            Some(p) => if is_dir {
                Some(p@)
            } else {
                path_view(parent)
            },
        }),
{
    match path {
        Some(p) => {
            if is_dir {
                Some(p)
            } else {
                parent
            }
        },
        None => None,
    }
}

fn path_copy(path: &Option<Vec<u8>>) -> (r: Option<Vec<u8>>)
    ensures
        path_view(r) == path_view(*path),
{
    match path {
        Some(p) => Some(copied(p.as_slice())),
        None => None,
    }
}

impl Default for App {
    /// A window in which nothing was typed or chosen.
    fn default() -> (r: App)
        ensures
            r.wf(),
            r@ == (AppView {
                tab: Tab::Keygen,
                kg_pass: Seq::empty(),
                kg_pass_repeat: Seq::empty(),
                kg_dir: None,
                kg_name: "schluessel"@,
                enc_pub: None,
                enc_pub_fingerprint: None,
                enc_in: None,
                enc_out_dir: None,
                enc_out_name: Seq::empty(),
                dec_key: None,
                dec_pass: Seq::empty(),
                dec_in: None,
                dec_out_dir: None,
                dec_out_name: Seq::empty(),
                picker: None,
                working: false,
                status: None,
            }),
    {
        App {
            tab: Tab::Keygen,
            kg_pass: SecureString::new(),
            kg_pass_repeat: SecureString::new(),
            kg_dir: None,
            kg_name: "schluessel".to_string(),
            enc_pub: None,
            enc_pub_fingerprint: None,
            enc_in: None,
            enc_out_dir: None,
            enc_out_name: String::new(),
            dec_key: None,
            dec_pass: SecureString::new(),
            dec_in: None,
            dec_out_dir: None,
            dec_out_name: String::new(),
            picker: None,
            working: false,
            status: None,
        }
    }
}

impl App {
    /// The passphrases are well-formed.
    pub open spec fn wf(&self) -> bool {
        &&& self.kg_pass.wf()
        &&& self.kg_pass_repeat.wf()
        &&& self.dec_pass.wf()
    }

    /// The state of the window, with texts and paths as sequences.
    pub open spec fn view(&self) -> AppView {
        AppView {
            tab: self.tab,
            kg_pass: self.kg_pass@,
            kg_pass_repeat: self.kg_pass_repeat@,
            kg_dir: path_view(self.kg_dir),
            kg_name: self.kg_name@,
            enc_pub: path_view(self.enc_pub),
            enc_pub_fingerprint: text_view(self.enc_pub_fingerprint),
            enc_in: path_view(self.enc_in),
            enc_out_dir: path_view(self.enc_out_dir),
            enc_out_name: self.enc_out_name@,
            dec_key: path_view(self.dec_key),
            dec_pass: self.dec_pass@,
            dec_in: path_view(self.dec_in),
            dec_out_dir: path_view(self.dec_out_dir),
            dec_out_name: self.dec_out_name@,
            picker: match self.picker {
                Some((picker, target)) => Some((picker@, target)),
                None => None,
            },
            working: self.working,
            status: match self.status {
                Some(s) => Some(s@),
                None => None,
            },
        }
    }

    /// Whether a job is running. Nothing can be changed then.
    pub fn busy(&self) -> (r: bool)
        ensures
            r == self@.working,
    {
        self.working
    }

    /// Takes account of what the thread of the running job has to say. The result says whether to
    /// ask again.
    pub fn poll(&mut self, poll: JobPoll) -> (again: bool)
        ensures
            match poll {
                JobPoll::Finished(status) => final(self)@ == old(self)@.ended(status@) && !again,
                JobPoll::Disconnected => final(self)@ == old(self)@.ended(
                    StatusView::Failure("Worker unerwartet beendet."@),
                ) && !again,
                JobPoll::Empty => final(self)@ == old(self)@ && again,
            },
            old(self).wf() ==> final(self).wf(),
    {
        match poll {
            JobPoll::Finished(status) => {
                self.status = Some(status);
                self.working = false;
                false
            },
            JobPoll::Disconnected => {
                self.status = Some(StatusMsg::Failure("Worker unerwartet beendet.".to_string()));
                self.working = false;
                false
            },
            JobPoll::Empty => true,
        }
    }

    /// The path near which something is looked for.
    pub fn origin(&self, target: PickTarget) -> (r: Option<Vec<u8>>)
        ensures
            path_view(r) == self@.origin(target),
    {
        match target {
            PickTarget::KeygenDir => path_copy(&self.kg_dir),
            PickTarget::EncryptPub => path_copy(&self.enc_in),
            PickTarget::EncryptIn => path_copy(&self.enc_in),
            PickTarget::EncryptOutDir => path_copy(&self.enc_out_dir),
            PickTarget::DecryptKey => path_copy(&self.dec_in),
            PickTarget::DecryptIn => path_copy(&self.dec_in),
            PickTarget::DecryptOutDir => path_copy(&self.dec_out_dir),
        }
    }

    /// Opens the file browser in `start`, or in the home directory where there is no `start` or it
    /// is no directory.
    pub fn open_picker(
        &mut self,
        title: &str,
        mode: PickMode,
        target: PickTarget,
        start: Option<Vec<u8>>,
        start_is_dir: bool,
        home: Vec<u8>,
    )
        ensures
            final(self)@ == (AppView {
                picker: Some(
                    (
                        PickerView {
                            title: title@,
                            mode,
                            cwd: if start is Some && start_is_dir {
                                start->0@
                            } else {
                                home@
                            },
                            dirs: Seq::empty(),
                            files: Seq::empty(),
                            error: None,
                        },
                        target,
                    ),
                ),
                ..old(self)@
            }),
            old(self).wf() ==> final(self).wf(),
    {
        let picker = FilePicker::new(title.to_string(), mode, start, start_is_dir, home);
        self.picker = Some((picker, target));
    }

    /// Takes account of what the file browser has come to: it stays while that is open, and goes
    /// otherwise. The result is the path that was chosen, and what for.
    pub fn settle_pick(&mut self, outcome: PickOutcome) -> (r: Option<(PickTarget, Vec<u8>)>)
        ensures
            final(self)@ == (AppView {
                picker: if outcome is Pending {
                    old(self)@.picker
                } else {
                    None
                },
                ..old(self)@
            }),
            old(self).wf() ==> final(self).wf(),
            match (outcome, old(self)@.picker) {
                (PickOutcome::Chosen(path), Some((_, target))) => r matches Some((t, p)) && t
                    == target && p@ == path@,
                _ => r is None,
            },
    {
        match outcome {
            PickOutcome::Pending => None,
            PickOutcome::Cancelled => {
                self.picker = None;
                None
            },
            PickOutcome::Chosen(path) => {
                let target: Option<PickTarget> = match &self.picker {
                    Some((_, target)) => Some(*target),
                    None => None,
                };
                self.picker = None;
                match target {
                    Some(target) => Some((target, path)),
                    None => None,
                }
            },
        }
    }

    /// Takes over a chosen path.
    pub fn apply_pick(&mut self, target: PickTarget, path: Vec<u8>, facts: PickFacts)
        ensures
            final(self)@ == old(self)@.picked(
                target,
                path@,
                text_view(facts.file_name),
                path_view(facts.parent),
                path_view(facts.key_file),
            ),
            old(self).wf() ==> final(self).wf(),
    {
        match target {
            PickTarget::KeygenDir => {
                self.kg_dir = Some(path);
            },
            PickTarget::EncryptPub => {
                self.enc_pub_fingerprint =
                match &facts.key_file {
                    Some(bytes) => Some(pubkey_fingerprint(bytes.as_slice())),
                    None => None,
                };
                self.enc_pub = Some(path);
            },
            PickTarget::EncryptIn => {
                if is_blank(&self.enc_out_name) {
                    if let Some(name) = &facts.file_name {
                        self.enc_out_name = propose_container_name(name.as_str());
                    }
                }
                if self.enc_out_dir.is_none() {
                    self.enc_out_dir = facts.parent;
                }
                self.enc_in = Some(path);
            },
            PickTarget::EncryptOutDir => {
                self.enc_out_dir = Some(path);
            },
            PickTarget::DecryptKey => {
                self.dec_key = Some(path);
            },
            PickTarget::DecryptIn => {
                if is_blank(&self.dec_out_name) {
                    if let Some(name) = &facts.file_name {
                        self.dec_out_name = propose_content_name(name.as_str());
                    }
                }
                if self.dec_out_dir.is_none() {
                    self.dec_out_dir = facts.parent;
                }
                self.dec_in = Some(path);
            },
            PickTarget::DecryptOutDir => {
                self.dec_out_dir = Some(path);
            },
        }
    }

    /// Whether the two new passphrases are the same.
    pub fn passphrases_match(&self) -> (r: bool)
        requires
            self.wf(),
        ensures
            r == self@.passphrases_match(),
            r <==> self.kg_pass@ == self.kg_pass_repeat@,
    {
        proof {
            self.kg_pass.law_bytes_are_utf8();
            self.kg_pass_repeat.law_bytes_are_utf8();
        }
        ct_eq(self.kg_pass.as_bytes(), self.kg_pass_repeat.as_bytes())
    }

    /// What the page for new key pairs points out: that the passphrases differ, once the second was
    /// begun, and that the first is too short, once it was begun.
    pub fn keygen_hints(&self) -> (r: (bool, bool))
        requires
            self.wf(),
        ensures
            r.0 == (self@.kg_pass_repeat.len() > 0 && !self@.passphrases_match()),
            r.1 == (self@.kg_pass.len() > 0 && !self@.long_enough()),
            r.0 <==> self.kg_pass_repeat@.len() > 0 && self.kg_pass@ != self.kg_pass_repeat@,
            r.1 <==> 0 < self.kg_pass@.len() < 12,
    {
        (
            !self.kg_pass_repeat.is_empty() && !self.passphrases_match(),
            !self.kg_pass.is_empty() && self.kg_pass.char_count() < MIN_PASSPHRASE_CHARS,
        )
    }

    /// Whether a new key pair can be made.
    pub fn keygen_ready(&self) -> (r: bool)
        requires
            self.wf(),
        ensures
            r == self@.keygen_ready(),
            r <==> {
                &&& self.kg_pass@ == self.kg_pass_repeat@
                &&& self.kg_pass@.len() >= 12
                &&& self.kg_dir is Some
                &&& self.kg_name@.len() > 0
            },
    {
        self.passphrases_match() && self.kg_pass.char_count() >= MIN_PASSPHRASE_CHARS
            && self.kg_dir.is_some() && !is_blank(&self.kg_name)
    }

    /// Whether a file can be encrypted.
    pub fn encrypt_ready(&self) -> (r: bool)
        ensures
            r == self@.encrypt_ready(),
            r <==> {
                &&& self.enc_pub is Some
                &&& self.enc_in is Some
                &&& self.enc_out_dir is Some
                &&& self.enc_out_name@.len() > 0
            },
    {
        self.enc_pub.is_some() && self.enc_in.is_some() && self.enc_out_dir.is_some() && !is_blank(
            &self.enc_out_name,
        )
    }

    /// Whether a container can be decrypted.
    pub fn decrypt_ready(&self) -> (r: bool)
        requires
            self.wf(),
        ensures
            r == self@.decrypt_ready(),
            r <==> {
                &&& self.dec_key is Some
                &&& self.dec_pass@.len() > 0
                &&& self.dec_in is Some
                &&& self.dec_out_dir is Some
                &&& self.dec_out_name@.len() > 0
            },
    {
        self.dec_key.is_some() && !self.dec_pass.is_empty() && self.dec_in.is_some()
            && self.dec_out_dir.is_some() && !is_blank(&self.dec_out_name)
    }

    /// Starts the making of a key pair, if that is possible. The passphrase leaves the window, and
    /// its repetition is wiped.
    pub fn start_keygen(&mut self) -> (r: Option<KeygenOrder>)
        requires
            old(self).wf(),
        ensures
            final(self).wf(),
            r is Some <==> old(self)@.keygen_ready(),
            r is Some <==> {
                &&& old(self).kg_pass@ == old(self).kg_pass_repeat@
                &&& old(self).kg_pass@.len() >= 12
                &&& old(self).kg_dir is Some
                &&& old(self).kg_name@.len() > 0
            },
            r matches Some(order) ==> {
                &&& order.passphrase@ == old(self).kg_pass@
                &&& order.passphrase@ == old(self).kg_pass_repeat@
                &&& order.dir@ == old(self).kg_dir->0@
                &&& final(self).kg_pass@.len() == 0
                &&& final(self).kg_pass_repeat@.len() == 0
                &&& final(self).working
            },
            r is None ==> final(self)@ == old(self)@,
            r matches Some(order) ==> {
                &&& order.passphrase.wf()
                &&& order.passphrase@ == old(self)@.kg_pass
                &&& Some(order.dir@) == old(self)@.kg_dir
                &&& order.pub_name@ == old(self)@.kg_name + ".hpub"@
                &&& order.key_name@ == old(self)@.kg_name + ".hkey"@
                &&& final(self)@ == (AppView {
                    kg_pass: Seq::empty(),
                    kg_pass_repeat: Seq::empty(),
                    ..old(self)@.started()
                })
            },
    {
        if !self.keygen_ready() {
            return None;
        }
        let dir = match &self.kg_dir {
            Some(dir) => copied(dir.as_slice()),
            None => return None,
        };
        let pub_name = joined2(self.kg_name.as_str(), ".hpub");
        let key_name = joined2(self.kg_name.as_str(), ".hkey");
        let passphrase = self.kg_pass.take();
        self.kg_pass_repeat.clear();
        self.working = true;
        self.status = None;
        Some(KeygenOrder { passphrase, dir, pub_name, key_name })
    }

    /// Starts an encryption, if that is possible.
    pub fn start_encrypt(&mut self) -> (r: Option<EncryptOrder>)
        ensures
            old(self).wf() ==> final(self).wf(),
            r is Some <==> old(self)@.encrypt_ready(),
            r matches Some(order) ==> {
                &&& old(self).enc_pub is Some && order.recipient_pub@ == old(self).enc_pub->0@
                &&& old(self).enc_in is Some && order.input@ == old(self).enc_in->0@
                &&& old(self).enc_out_dir is Some && order.out_dir@ == old(self).enc_out_dir->0@
                &&& order.out_name@ == old(self).enc_out_name@ && order.out_name@.len() > 0
                &&& final(self).working
            },
            r is None ==> final(self)@ == old(self)@,
            r matches Some(order) ==> {
                &&& Some(order.recipient_pub@) == old(self)@.enc_pub
                &&& Some(order.input@) == old(self)@.enc_in
                &&& Some(order.out_dir@) == old(self)@.enc_out_dir
                &&& order.out_name@ == old(self)@.enc_out_name
                &&& final(self)@ == old(self)@.started()
            },
    {
        if !self.encrypt_ready() {
            return None;
        }
        match (&self.enc_pub, &self.enc_in, &self.enc_out_dir) {
            (Some(recipient_pub), Some(input), Some(out_dir)) => {
                let order = EncryptOrder {
                    recipient_pub: copied(recipient_pub.as_slice()),
                    input: copied(input.as_slice()),
                    out_dir: copied(out_dir.as_slice()),
                    out_name: self.enc_out_name.clone(),
                };
                self.working = true;
                self.status = None;
                Some(order)
            },
            _ => None,
        }
    }

    /// Starts a decryption, if that is possible. The passphrase leaves the window.
    pub fn start_decrypt(&mut self) -> (r: Option<DecryptOrder>)
        requires
            old(self).wf(),
        ensures
            final(self).wf(),
            r is Some <==> old(self)@.decrypt_ready(),
            r matches Some(order) ==> {
                &&& old(self).dec_key is Some && order.key_file@ == old(self).dec_key->0@
                &&& order.passphrase@ == old(self).dec_pass@ && order.passphrase@.len() > 0
                &&& old(self).dec_in is Some && order.input@ == old(self).dec_in->0@
                &&& old(self).dec_out_dir is Some && order.out_dir@ == old(self).dec_out_dir->0@
                &&& order.out_name@ == old(self).dec_out_name@ && order.out_name@.len() > 0
                &&& final(self).dec_pass@.len() == 0
                &&& final(self).working
            },
            r is None ==> final(self)@ == old(self)@,
            r matches Some(order) ==> {
                &&& Some(order.key_file@) == old(self)@.dec_key
                &&& order.passphrase.wf()
                &&& order.passphrase@ == old(self)@.dec_pass
                &&& Some(order.input@) == old(self)@.dec_in
                &&& Some(order.out_dir@) == old(self)@.dec_out_dir
                &&& order.out_name@ == old(self)@.dec_out_name
                &&& final(self)@ == (AppView { dec_pass: Seq::empty(), ..old(self)@.started() })
            },
    {
        if !self.decrypt_ready() {
            return None;
        }
        match (&self.dec_key, &self.dec_in, &self.dec_out_dir) {
            (Some(key_file), Some(input), Some(out_dir)) => {
                let order = DecryptOrder {
                    key_file: copied(key_file.as_slice()),
                    passphrase: self.dec_pass.take(),
                    input: copied(input.as_slice()),
                    out_dir: copied(out_dir.as_slice()),
                    out_name: self.dec_out_name.clone(),
                };
                self.working = true;
                self.status = None;
                Some(order)
            },
            _ => None,
        }
    }

    /// Wipes every passphrase, before the window goes.
    pub fn wipe_passphrases(&mut self)
        requires
            old(self).wf(),
        ensures
            final(self).wf(),
            final(self)@ == (AppView {
                kg_pass: Seq::empty(),
                kg_pass_repeat: Seq::empty(),
                dec_pass: Seq::empty(),
                ..old(self)@
            }),
            final(self).kg_pass@.len() == 0,
            final(self).kg_pass_repeat@.len() == 0,
            final(self).dec_pass@.len() == 0,
    {
        self.kg_pass.clear();
        self.kg_pass_repeat.clear();
        self.dec_pass.clear();
    }
}

} // verus!
