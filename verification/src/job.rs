//! A job from its first file to its outcome: what to do next, what to tell, and when what was
//! written has to be destroyed.

use crate::fingerprint::{fingerprint_text, pubkey_fingerprint};
use crate::primitives::sha256;
use crate::secure::EXIT_CODE_DEGRADED_LOCK;
use crate::status::{
    exit_code_message, exit_code_text, joined2, output_err, output_err_text, CreateError,
    StatusMsg, StatusView,
};
use vstd::prelude::*;
use vstd::string::*;

verus! {

/// What a job is for.
#[derive(Clone, Copy, Debug, PartialEq, Eq, Structural)]
pub enum JobKind {
    Keygen,
    Encrypt,
    Decrypt,
}

/// What a job has to do next.
#[derive(Clone, Copy, Debug, PartialEq, Eq, Structural)]
pub enum JobStep {
    /// Read the key file, within its size limit.
    ReadKeyFile,
    /// Open the input.
    OpenInput,
    /// Create the output, or the public file of a new key pair.
    CreateOutput,
    /// Create the private file of a new key pair.
    CreateKeyOutput,
    /// Start the worker and wait for its end.
    RunWorker,
    /// Read the public file that the worker wrote.
    ReadPublicFile,
    /// Nothing more.
    Finished,
}

/// What came of a step.
pub enum JobEvent {
    /// The key file was read.
    KeyFileRead,
    /// The key file could not be read, with the reason.
    KeyFileRefused(String),
    /// The input is open.
    InputOpened,
    /// The input could not be opened, with the system's reason.
    InputRefused(String),
    /// The file was created.
    Created,
    /// The file was not created.
    NotCreated(CreateError),
    /// The worker ended with this exit code.
    WorkerEnded(i32),
    /// The worker could not be run, with the system's reason.
    WorkerNotStarted(String),
    /// The public file, if it could be read.
    PublicFile(Option<Vec<u8>>),
}

/// Whether this is what can come of the step.
pub open spec fn answers(step: JobStep, event: JobEvent) -> bool {
    match step {
        JobStep::ReadKeyFile => event is KeyFileRead || event is KeyFileRefused,
        JobStep::OpenInput => event is InputOpened || event is InputRefused,
        JobStep::CreateOutput => event is Created || event is NotCreated,
        JobStep::CreateKeyOutput => event is Created || event is NotCreated,
        JobStep::RunWorker => event is WorkerEnded || event is WorkerNotStarted,
        JobStep::ReadPublicFile => event is PublicFile,
        JobStep::Finished => false,
    }
}

/// A job under way.
pub struct JobRun {
    kind: JobKind,
    output: String,
    key_output: String,
    step: JobStep,
    code: i32,
    status: Option<StatusMsg>,
    remove_outputs: bool,
}

/// A job under way, with its texts as characters.
pub struct JobView {
    /// What the job is for.
    pub kind: JobKind,
    /// The name of the output, or of the public file of a new key pair.
    pub output: Seq<char>,
    /// The name of the private file of a new key pair.
    pub key_output: Seq<char>,
    /// What to do next.
    pub step: JobStep,
    /// The exit code of the worker, once it has ended well.
    pub code: i32,
    /// The outcome, once there is one.
    pub status: Option<StatusView>,
    /// Whether the outputs have to be overwritten and removed.
    pub remove_outputs: bool,
}

/// The texts that a job adds to its success when memory could not be locked.
pub open spec fn degraded_text(kind: JobKind) -> Seq<char> {
    match kind {
        JobKind::Keygen => "\n\nHinweis: Speichersperre (mlock) ist waehrend dieses Vorgangs mindestens einmal fehlgeschlagen (RLIMIT_MEMLOCK zu klein). Die Dateien sind korrekt, aber Geheimnisse lagen zeitweise ungesperrt im Speicher (koennten theoretisch ausgelagert werden). Siehe README, Abschnitt Speichersperre."@,
        _ => "\n\nHinweis: Speichersperre ist waehrend dieses Vorgangs mindestens einmal fehlgeschlagen (RLIMIT_MEMLOCK zu klein). Die Ausgabedatei ist korrekt; siehe README, Abschnitt Speichersperre."@,
    }
}

/// The line with the fingerprint of a new public file, if that could be read.
pub open spec fn fingerprint_line(public_file: Option<Seq<u8>>) -> Seq<char> {
    match public_file {
        Some(bytes) => "\nFingerabdruck (zum Weitergeben/Vergleichen): "@ + fingerprint_text(
            sha256(bytes),
        ),
        None => Seq::empty(),
    }
}

/// What is told of a success.
pub open spec fn success_text(job: JobView, public_file: Option<Seq<u8>>) -> Seq<char> {
    match job.kind {
        JobKind::Keygen => "Schluesselpaar erzeugt:\n"@ + job.output + "\n"@ + job.key_output
            + fingerprint_line(public_file),
        JobKind::Encrypt => "Verschluesselt nach:\n"@ + job.output,
        JobKind::Decrypt => "Entschluesselt nach:\n"@ + job.output,
    }
}

/// Whether the worker did what it was to do.
pub open spec fn worker_succeeded(code: i32) -> bool {
    code == 0 || code == EXIT_CODE_DEGRADED_LOCK
}

impl JobView {
    /// The job, ended in failure. What was written stays where the worker did not write it.
    pub open spec fn failed(self, text: Seq<char>, remove_outputs: bool) -> JobView {
        JobView {
            step: JobStep::Finished,
            status: Some(StatusView::Failure(text)),
            remove_outputs,
            ..self
        }
    }

    /// The job, with its next step.
    pub open spec fn going_to(self, step: JobStep) -> JobView {
        JobView { step, ..self }
    }

    /// The job, ended in success, with a warning where memory could not be locked.
    pub open spec fn succeeded(self, code: i32, public_file: Option<Seq<u8>>) -> JobView {
        let text = success_text(self, public_file);
        JobView {
            step: JobStep::Finished,
            code,
            status: Some(
                if code == EXIT_CODE_DEGRADED_LOCK {
                    StatusView::Warning(text + degraded_text(self.kind))
                } else {
                    StatusView::Done(text)
                },
            ),
            ..self
        }
    }

    /// The job after an event.
    pub open spec fn after(self, event: JobEvent) -> JobView {
        match event {
            JobEvent::KeyFileRead => self.going_to(JobStep::OpenInput),
            JobEvent::KeyFileRefused(why) => self.failed(
                (if self.kind == JobKind::Encrypt {
                    "Public-Key "@
                } else {
                    "Schluesseldatei "@
                }) + why@,
                false,
            ),
            JobEvent::InputOpened => self.going_to(JobStep::CreateOutput),
            JobEvent::InputRefused(why) => self.failed(
                "Eingabedatei nicht lesbar: "@ + why@,
                false,
            ),
            JobEvent::Created => self.going_to(
                if self.step == JobStep::CreateOutput && self.kind == JobKind::Keygen {
                    JobStep::CreateKeyOutput
                } else {
                    JobStep::RunWorker
                },
            ),
            JobEvent::NotCreated(e) => self.failed(
                output_err_text(
                    if self.step == JobStep::CreateOutput {
                        self.output
                    } else {
                        self.key_output
                    },
                    e,
                ),
                false,
            ),
            JobEvent::WorkerNotStarted(why) => self.failed(
                "Worker konnte nicht gestartet werden: "@ + why@,
                false,
            ),
            JobEvent::WorkerEnded(code) => if !worker_succeeded(code) {
                self.failed(exit_code_text(code), true)
            } else if self.kind == JobKind::Keygen {
                JobView { step: JobStep::ReadPublicFile, code, ..self }
            } else {
                self.succeeded(code, None)
            },
            JobEvent::PublicFile(bytes) => self.succeeded(
                self.code,
                match bytes {
                    Some(v) => Some(v@),
                    None => None,
                },
            ),
        }
    }

    /// A job has an outcome exactly when it has nothing more to do, and its outputs are destroyed
    /// only after a failure. The worker ended well where its code is kept.
    pub open spec fn wf(self) -> bool {
        &&& self.step == JobStep::Finished <==> self.status is Some
        &&& self.remove_outputs ==> self.status is Some && self.status->0 is Failure
        &&& self.step == JobStep::ReadPublicFile ==> worker_succeeded(self.code)
    }

    /// A job that has not begun.
    pub open spec fn initial(kind: JobKind, output: Seq<char>, key_output: Seq<char>) -> JobView {
        JobView {
            kind,
            output,
            key_output,
            step: if kind == JobKind::Keygen {
                JobStep::CreateOutput
            } else {
                JobStep::ReadKeyFile
            },
            code: 0,
            status: None,
            remove_outputs: false,
        }
    }
}

/// How many steps are left at most.
pub open spec fn steps_left(step: JobStep) -> nat {
    match step {
        JobStep::ReadKeyFile => 6,
        JobStep::OpenInput => 5,
        JobStep::CreateOutput => 4,
        JobStep::CreateKeyOutput => 3,
        JobStep::RunWorker => 2,
        JobStep::ReadPublicFile => 1,
        JobStep::Finished => 0,
    }
}

/// Every event brings a job nearer to its end, keeps it well-formed, and changes neither what it
/// is for nor its files.
pub proof fn law_jobs_end(job: JobView, event: JobEvent)
    requires
        job.wf(),
        answers(job.step, event),
    ensures
        job.after(event).wf(),
        steps_left(job.after(event).step) < steps_left(job.step),
        job.after(event).kind == job.kind,
        job.after(event).output == job.output,
        job.after(event).key_output == job.key_output,
{
}

/// The outputs of a job are destroyed exactly where its worker ended with a failure, and then
/// the user is told which.
pub proof fn law_outputs_removed_after_failed_worker(job: JobView, event: JobEvent)
    requires
        job.wf(),
        answers(job.step, event),
    ensures
        job.after(event).remove_outputs <==> (event matches JobEvent::WorkerEnded(code)
            && !worker_succeeded(code)),
        job.after(event).remove_outputs ==> (event matches JobEvent::WorkerEnded(code)
            && job.after(event).status == Some(StatusView::Failure(exit_code_text(code)))),
{
}

/// A worker that could not lock all of its memory leaves its outputs and a warning.
pub proof fn law_degraded_lock_is_a_warning(job: JobView, public_file: Option<Seq<u8>>)
    requires
        job.wf(),
        !job.remove_outputs,
    ensures
        job.succeeded(EXIT_CODE_DEGRADED_LOCK, public_file).status matches Some(
            StatusView::Warning(_),
        ),
        !job.succeeded(EXIT_CODE_DEGRADED_LOCK, public_file).remove_outputs,
{
}

/// The worker did what it was to do exactly where it ended with zero or with eight.
pub proof fn law_codes_of_success(code: i32)
    ensures
        worker_succeeded(code) <==> code == 0 || code == 8,
{
}

/// A key pair begins with its two files, the others with the key file and the input. The worker is
/// started once every file is there, and the public file of a new key pair is read once the worker
/// did what it was to do. Everything else ends the job, in failure.
pub proof fn law_jobs_take_their_course(
    job: JobView,
    event: JobEvent,
    kind: JobKind,
    output: Seq<char>,
    key_output: Seq<char>,
)
    requires
        answers(job.step, event),
    ensures
        JobView::initial(kind, output, key_output).step == if kind == JobKind::Keygen {
            JobStep::CreateOutput
        } else {
            JobStep::ReadKeyFile
        },
        JobView::initial(kind, output, key_output).kind == kind,
        JobView::initial(kind, output, key_output).output == output,
        JobView::initial(kind, output, key_output).key_output == key_output,
        JobView::initial(kind, output, key_output).status is None,
        !JobView::initial(kind, output, key_output).remove_outputs,
        event is KeyFileRead ==> job.after(event).step == JobStep::OpenInput,
        event is InputOpened ==> job.after(event).step == JobStep::CreateOutput,
        event is Created && job.step == JobStep::CreateOutput && job.kind == JobKind::Keygen
            ==> job.after(event).step == JobStep::CreateKeyOutput,
        event is Created && (job.step == JobStep::CreateKeyOutput || job.kind != JobKind::Keygen)
            ==> job.after(event).step == JobStep::RunWorker,
        event matches JobEvent::WorkerEnded(code) ==> (code == 0 || code == 8) && job.kind
            == JobKind::Keygen ==> {
            &&& job.after(event).step == JobStep::ReadPublicFile
            &&& job.after(event).code == code
        },
        event matches JobEvent::WorkerEnded(code) ==> (code != 0 && code != 8) || job.kind
            != JobKind::Keygen ==> job.after(event).step == JobStep::Finished,
        event is PublicFile || event is KeyFileRefused || event is InputRefused || event
            is NotCreated || event is WorkerNotStarted ==> job.after(event).step
            == JobStep::Finished,
        event is KeyFileRead || event is InputOpened || event is Created ==> job.after(event).status
            == job.status,
{
}

/// What is told of a failure: what could not be read, created or started and why, or what the code
/// of the worker means.
pub proof fn law_failures_are_told(job: JobView, event: JobEvent)
    requires
        answers(job.step, event),
    ensures
        match event {
            JobEvent::KeyFileRefused(why) => job.after(event).status == Some(
                StatusView::Failure(
                    (if job.kind == JobKind::Encrypt {
                        "Public-Key "@
                    } else {
                        "Schluesseldatei "@
                    }) + why@,
                ),
            ),
            JobEvent::InputRefused(why) => job.after(event).status == Some(
                StatusView::Failure("Eingabedatei nicht lesbar: "@ + why@),
            ),
            JobEvent::NotCreated(e) => job.after(event).status == Some(
                StatusView::Failure(
                    output_err_text(
                        if job.step == JobStep::CreateOutput {
                            job.output
                        } else {
                            job.key_output
                        },
                        e,
                    ),
                ),
            ),
            JobEvent::WorkerNotStarted(why) => job.after(event).status == Some(
                StatusView::Failure("Worker konnte nicht gestartet werden: "@ + why@),
            ),
            JobEvent::WorkerEnded(code) => code != 0 && code != 8 ==> job.after(event).status
                == Some(StatusView::Failure(exit_code_text(code))),
            _ => true,
        },
{
}

/// What is told of a success: where the outputs are, for a new key pair with the fingerprint of its
/// public file if that could be read, and as a warning with a note behind it where memory could not
/// be locked.
pub proof fn law_successes_are_told(job: JobView, code: i32, public_file: Option<Seq<u8>>)
    requires
        code == 0 || code == 8,
    ensures
        ({
            let done = job.succeeded(code, public_file);
            let text = match job.kind {
                JobKind::Encrypt => "Verschluesselt nach:\n"@ + job.output,
                JobKind::Decrypt => "Entschluesselt nach:\n"@ + job.output,
                JobKind::Keygen => "Schluesselpaar erzeugt:\n"@ + job.output + "\n"@
                    + job.key_output + match public_file {
                    Some(bytes) => "\nFingerabdruck (zum Weitergeben/Vergleichen): "@
                        + fingerprint_text(sha256(bytes)),
                    None => Seq::<char>::empty(),
                },
            };
            &&& done.step == JobStep::Finished
            &&& done.remove_outputs == job.remove_outputs
            &&& code == 0 ==> done.status == Some(StatusView::Done(text))
            &&& code == 8 ==> done.status == Some(
                StatusView::Warning(text + degraded_text(job.kind)),
            )
        }),
        job.kind != JobKind::Keygen ==> job.after(JobEvent::WorkerEnded(code)) == job.succeeded(
            code,
            None,
        ),
        job.after(JobEvent::PublicFile(None)) == job.succeeded(job.code, None),
{
}

/// The fingerprint that is told of a new key pair is that of the public file that was read.
pub proof fn law_public_file_is_told(job: JobView, bytes: Vec<u8>)
    ensures
        job.after(JobEvent::PublicFile(Some(bytes))) == job.succeeded(job.code, Some(bytes@)),
{
}

/// The text of a success.
fn success_message(job: &JobRun, public_file: &Option<Vec<u8>>) -> (r: String)
    ensures
        r@ == success_text(
            job@,
            match public_file {
                Some(v) => Some(v@),
                None => None,
            },
        ),
{
    match job.kind {
        JobKind::Keygen => {
            let mut r = "Schluesselpaar erzeugt:\n".to_string();
            r.append(job.output.as_str());
            r.append("\n");
            r.append(job.key_output.as_str());
            match public_file {
                Some(bytes) => {
                    let line = joined2(
                        "\nFingerabdruck (zum Weitergeben/Vergleichen): ",
                        pubkey_fingerprint(bytes.as_slice()).as_str(),
                    );
                    r.append(line.as_str());
                },
                None => {
                    assert(r@ + Seq::<char>::empty() =~= r@);
                },
            }
            r
        },
        JobKind::Encrypt => joined2("Verschluesselt nach:\n", job.output.as_str()),
        JobKind::Decrypt => joined2("Entschluesselt nach:\n", job.output.as_str()),
    }
}

fn degraded_message(kind: JobKind) -> (r: &'static str)
    ensures
        r@ == degraded_text(kind),
{
    match kind {
        JobKind::Keygen => "\n\nHinweis: Speichersperre (mlock) ist waehrend dieses Vorgangs mindestens einmal fehlgeschlagen (RLIMIT_MEMLOCK zu klein). Die Dateien sind korrekt, aber Geheimnisse lagen zeitweise ungesperrt im Speicher (koennten theoretisch ausgelagert werden). Siehe README, Abschnitt Speichersperre.",
        _ => "\n\nHinweis: Speichersperre ist waehrend dieses Vorgangs mindestens einmal fehlgeschlagen (RLIMIT_MEMLOCK zu klein). Die Ausgabedatei ist korrekt; siehe README, Abschnitt Speichersperre.",
    }
}

impl JobRun {
    /// The job, with its texts as characters.
    pub closed spec fn view(&self) -> JobView {
        JobView {
            kind: self.kind,
            output: self.output@,
            key_output: self.key_output@,
            step: self.step,
            code: self.code,
            status: match self.status {
                Some(s) => Some(s@),
                None => None,
            },
            remove_outputs: self.remove_outputs,
        }
    }

    /// A job that has not begun. The names are those that the user is told.
    pub fn new(kind: JobKind, output: String, key_output: String) -> (r: JobRun)
        ensures
            r@ == JobView::initial(kind, output@, key_output@),
            r@.wf(),
    {
        JobRun {
            kind,
            output,
            key_output,
            step: if kind == JobKind::Keygen {
                JobStep::CreateOutput
            } else {
                JobStep::ReadKeyFile
            },
            code: 0,
            status: None,
            remove_outputs: false,
        }
    }

    /// What to do next.
    pub fn step(&self) -> (r: JobStep)
        ensures
            r == self@.step,
    {
        self.step
    }

    /// Whether the outputs have to be overwritten and removed.
    pub fn remove_outputs(&self) -> (r: bool)
        ensures
            r == self@.remove_outputs,
    {
        self.remove_outputs
    }

    /// The outcome of a finished job.
    pub fn into_status(self) -> (r: StatusMsg)
        requires
            self@.wf(),
            self@.step == JobStep::Finished,
        ensures
            Some(r@) == self@.status,
    {
        match self.status {
            Some(s) => s,
            None => StatusMsg::Failure(String::new()),
        }
    }

    fn fail(&mut self, text: String, remove_outputs: bool)
        ensures
            final(self)@ == old(self)@.failed(text@, remove_outputs),
    {
        self.step = JobStep::Finished;
        self.status = Some(StatusMsg::Failure(text));
        self.remove_outputs = remove_outputs;
    }

    fn succeed(&mut self, code: i32, public_file: &Option<Vec<u8>>)
        ensures
            final(self)@ == old(self)@.succeeded(
                code,
                match public_file {
                    Some(v) => Some(v@),
                    None => None,
                },
            ),
    {
        let text = success_message(self, public_file);
        self.step = JobStep::Finished;
        self.code = code;
        self.status = Some(
            if code == EXIT_CODE_DEGRADED_LOCK {
                StatusMsg::Warning(joined2(text.as_str(), degraded_message(self.kind)))
            } else {
                StatusMsg::Done(text)
            },
        );
    }

    /// Takes account of what came of the step.
    pub fn advance(&mut self, event: JobEvent)
        requires
            old(self)@.wf(),
            answers(old(self)@.step, event),
        ensures
            final(self)@ == old(self)@.after(event),
            final(self)@.wf(),
    {
        match event {
            JobEvent::KeyFileRead => {
                self.step = JobStep::OpenInput;
            },
            JobEvent::KeyFileRefused(why) => {
                let prefix: &str = if self.kind == JobKind::Encrypt {
                    "Public-Key "
                } else {
                    "Schluesseldatei "
                };
                self.fail(joined2(prefix, why.as_str()), false);
            },
            JobEvent::InputOpened => {
                self.step = JobStep::CreateOutput;
            },
            JobEvent::InputRefused(why) => {
                self.fail(joined2("Eingabedatei nicht lesbar: ", why.as_str()), false);
            },
            JobEvent::Created => {
                self.step =
                if self.step == JobStep::CreateOutput && self.kind == JobKind::Keygen {
                    JobStep::CreateKeyOutput
                } else {
                    JobStep::RunWorker
                };
            },
            JobEvent::NotCreated(e) => {
                let text = if self.step == JobStep::CreateOutput {
                    output_err(self.output.as_str(), &e)
                } else {
                    output_err(self.key_output.as_str(), &e)
                };
                self.fail(text, false);
            },
            JobEvent::WorkerNotStarted(why) => {
                self.fail(joined2("Worker konnte nicht gestartet werden: ", why.as_str()), false);
            },
            JobEvent::WorkerEnded(code) => {
                if code != 0 && code != EXIT_CODE_DEGRADED_LOCK {
                    self.fail(exit_code_message(code), true);
                } else if self.kind == JobKind::Keygen {
                    self.step = JobStep::ReadPublicFile;
                    self.code = code;
                } else {
                    self.succeed(code, &None);
                }
            },
            JobEvent::PublicFile(bytes) => {
                let code: i32 = self.code;
                self.succeed(code, &bytes);
            },
        }
    }
}

} // verus!
