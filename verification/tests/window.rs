use hybridcrypt::field::{field_text, handle_event, FieldEvent};
use hybridcrypt::filepick::{
    home_dir, shortcuts, sort_entries, DirEntry, EntryKind, FilePicker, PickClick, PickEntry,
    PickMode, PickOutcome,
};
use hybridcrypt::gui::{start_dir, App, JobPoll, PickFacts, PickTarget, Tab};
use hybridcrypt::job::{JobEvent, JobKind, JobRun, JobStep};
use hybridcrypt::secure_string::SecureString;
use hybridcrypt::status::{
    check_size, exit_code_message, output_err, unreadable, wipe_piece, CreateError, StatusMsg,
};
use hybridcrypt::text::push_decimal;

fn text_of(status: &StatusMsg) -> (u8, &str) {
    match status {
        StatusMsg::Done(s) => (0, s.as_str()),
        StatusMsg::Warning(s) => (1, s.as_str()),
        StatusMsg::Failure(s) => (2, s.as_str()),
    }
}

// -- the passphrase field

#[test]
fn field_takes_what_speaks_of_its_content() {
    let mut s = SecureString::new();
    assert!(handle_event(&mut s, &FieldEvent::Text("ab")));
    assert!(handle_event(&mut s, &FieldEvent::Paste("\u{e9}c")));
    assert_eq!(s.as_bytes(), "ab\u{e9}c".as_bytes());
    assert!(handle_event(&mut s, &FieldEvent::Copy));
    assert!(handle_event(&mut s, &FieldEvent::Cut));
    assert_eq!(s.char_count(), 4);
    assert!(handle_event(&mut s, &FieldEvent::Backspace));
    assert!(handle_event(&mut s, &FieldEvent::Backspace));
    assert_eq!(s.as_bytes(), b"ab");
    assert!(!handle_event(&mut s, &FieldEvent::Other));
    assert_eq!(s.as_bytes(), b"ab");
}

#[test]
fn field_shows_dots_or_its_hint() {
    let mut s = SecureString::new();
    assert_eq!(field_text(&s, false), ("(Passphrase eingeben)".to_string(), true));
    assert_eq!(field_text(&s, true), (String::new(), false));
    s.push_str("a\u{1f511}b");
    assert_eq!(field_text(&s, false), ("\u{2022}\u{2022}\u{2022}".to_string(), false));
    assert_eq!(field_text(&s, true), ("\u{2022}\u{2022}\u{2022}".to_string(), false));
}

// -- texts

#[test]
fn numbers_are_written_in_decimal() {
    let mut s = String::from("n=");
    push_decimal(&mut s, 0);
    push_decimal(&mut s, 1048576);
    push_decimal(&mut s, u64::MAX);
    assert_eq!(s, "n=0104857618446744073709551615");
}

#[test]
fn exit_codes_have_their_messages() {
    assert_eq!(exit_code_message(2), "Falsche Passphrase oder manipulierte Schluesseldatei.");
    assert_eq!(
        exit_code_message(3),
        "Schluesseldatei ist unbrauchbar oder gehoert nicht zu diesem Format."
    );
    assert_eq!(
        exit_code_message(4),
        "Container beschaedigt, gekuerzt oder manipuliert - Authentifizierung fehlgeschlagen."
    );
    assert_eq!(exit_code_message(5), "Ein-/Ausgabefehler beim Lesen oder Schreiben.");
    assert_eq!(
        exit_code_message(6),
        "Passphrase zu schwach - bitte laenger und weniger vorhersehbar waehlen \
         (mindestens 12 Zeichen, keine Woerterbuch- oder Tastaturmuster; \
         am robustesten: sechs oder mehr zufaellige, durch Leerzeichen \
         getrennte Woerter)."
    );
    assert_eq!(
        exit_code_message(7),
        "Speichersperre fehlgeschlagen und strenger Modus (HYBRIDCRYPT_STRICT_MLOCK) \
         aktiv - Vorgang abgebrochen, bevor ein Geheimnis ungesperrt haette \
         existieren koennen. Siehe README fuer RLIMIT_MEMLOCK."
    );
    for code in [0, 1, 8, -1] {
        assert_eq!(exit_code_message(code), "Operation fehlgeschlagen.");
    }
}

#[test]
fn file_errors_are_told() {
    assert_eq!(
        output_err("/tmp/a", &CreateError::Exists),
        "/tmp/a existiert bereits - bitte anderen Namen waehlen."
    );
    assert_eq!(
        output_err("/tmp/a", &CreateError::Other("permission denied".to_string())),
        "/tmp/a nicht anlegbar: permission denied"
    );
    assert_eq!(unreadable("entity not found"), "nicht lesbar: entity not found");
    assert_eq!(check_size(1048576, 1048576), Ok(()));
    assert_eq!(
        check_size(1048577, 1048576),
        Err("Datei ist mit 1048577 Byte groesser als fuer dieses Format erwartet \
             (Obergrenze 1048576 Byte)."
            .to_string())
    );
}

#[test]
fn files_are_wiped_to_their_end() {
    let mut left: u64 = 200000;
    let mut pieces = Vec::new();
    while left > 0 {
        let n = wipe_piece(left);
        pieces.push(n);
        left -= n as u64;
    }
    assert_eq!(pieces, vec![65536, 65536, 65536, 3392]);
    assert_eq!(wipe_piece(0), 0);
}

// -- jobs

fn job(kind: JobKind) -> JobRun {
    JobRun::new(kind, "/d/out".to_string(), "/d/key".to_string())
}

#[test]
fn key_pair_job_goes_well() {
    let mut j = job(JobKind::Keygen);
    assert_eq!(j.step(), JobStep::CreateOutput);
    j.advance(JobEvent::Created);
    assert_eq!(j.step(), JobStep::CreateKeyOutput);
    j.advance(JobEvent::Created);
    assert_eq!(j.step(), JobStep::RunWorker);
    j.advance(JobEvent::WorkerEnded(0));
    assert_eq!(j.step(), JobStep::ReadPublicFile);
    j.advance(JobEvent::PublicFile(Some(Vec::new())));
    assert_eq!(j.step(), JobStep::Finished);
    assert!(!j.remove_outputs());
    assert_eq!(
        text_of(&j.into_status()),
        (
            0,
            "Schluesselpaar erzeugt:\n/d/out\n/d/key\n\
             Fingerabdruck (zum Weitergeben/Vergleichen): 4OY MIQ UY7 QOB JGX3"
        )
    );
}

#[test]
fn key_pair_job_without_lock_is_a_warning() {
    let mut j = job(JobKind::Keygen);
    j.advance(JobEvent::Created);
    j.advance(JobEvent::Created);
    j.advance(JobEvent::WorkerEnded(8));
    j.advance(JobEvent::PublicFile(None));
    assert!(!j.remove_outputs());
    let status = j.into_status();
    let (tone, text) = text_of(&status);
    assert_eq!(tone, 1);
    assert_eq!(
        text,
        "Schluesselpaar erzeugt:\n/d/out\n/d/key\n\nHinweis: Speichersperre (mlock) ist \
         waehrend dieses Vorgangs mindestens einmal fehlgeschlagen (RLIMIT_MEMLOCK zu klein). \
         Die Dateien sind korrekt, aber Geheimnisse lagen zeitweise ungesperrt im Speicher \
         (koennten theoretisch ausgelagert werden). Siehe README, Abschnitt Speichersperre."
    );
}

#[test]
fn failed_worker_takes_its_outputs_along() {
    for (kind, code) in [(JobKind::Keygen, 6), (JobKind::Encrypt, 3), (JobKind::Decrypt, 4)] {
        let mut j = job(kind);
        if kind == JobKind::Keygen {
            j.advance(JobEvent::Created);
        } else {
            assert_eq!(j.step(), JobStep::ReadKeyFile);
            j.advance(JobEvent::KeyFileRead);
            assert_eq!(j.step(), JobStep::OpenInput);
            j.advance(JobEvent::InputOpened);
            assert_eq!(j.step(), JobStep::CreateOutput);
        }
        j.advance(JobEvent::Created);
        assert_eq!(j.step(), JobStep::RunWorker);
        j.advance(JobEvent::WorkerEnded(code));
        assert_eq!(j.step(), JobStep::Finished);
        assert!(j.remove_outputs());
        assert_eq!(text_of(&j.into_status()), (2, exit_code_message(code).as_str()));
    }
}

#[test]
fn encryption_and_decryption_tell_their_output() {
    for (kind, text) in [
        (JobKind::Encrypt, "Verschluesselt nach:\n/d/out"),
        (JobKind::Decrypt, "Entschluesselt nach:\n/d/out"),
    ] {
        for code in [0, 8] {
            let mut j = job(kind);
            j.advance(JobEvent::KeyFileRead);
            j.advance(JobEvent::InputOpened);
            j.advance(JobEvent::Created);
            j.advance(JobEvent::WorkerEnded(code));
            assert!(!j.remove_outputs());
            let status = j.into_status();
            let (tone, told) = text_of(&status);
            if code == 0 {
                assert_eq!((tone, told), (0, text));
            } else {
                assert_eq!(tone, 1);
                assert_eq!(
                    told,
                    format!(
                        "{text}\n\nHinweis: Speichersperre ist waehrend dieses Vorgangs \
                         mindestens einmal fehlgeschlagen (RLIMIT_MEMLOCK zu klein). Die \
                         Ausgabedatei ist korrekt; siehe README, Abschnitt Speichersperre."
                    )
                );
            }
        }
    }
}

#[test]
fn early_failures_leave_files_alone() {
    let mut j = job(JobKind::Encrypt);
    j.advance(JobEvent::KeyFileRefused("nicht lesbar: x".to_string()));
    assert!(!j.remove_outputs());
    assert_eq!(text_of(&j.into_status()), (2, "Public-Key nicht lesbar: x"));

    let mut j = job(JobKind::Decrypt);
    j.advance(JobEvent::KeyFileRefused("nicht lesbar: x".to_string()));
    assert_eq!(text_of(&j.into_status()), (2, "Schluesseldatei nicht lesbar: x"));

    let mut j = job(JobKind::Decrypt);
    j.advance(JobEvent::KeyFileRead);
    j.advance(JobEvent::InputRefused("not found".to_string()));
    assert_eq!(text_of(&j.into_status()), (2, "Eingabedatei nicht lesbar: not found"));

    let mut j = job(JobKind::Keygen);
    j.advance(JobEvent::Created);
    j.advance(JobEvent::NotCreated(CreateError::Exists));
    assert!(!j.remove_outputs());
    assert_eq!(
        text_of(&j.into_status()),
        (2, "/d/key existiert bereits - bitte anderen Namen waehlen.")
    );

    let mut j = job(JobKind::Keygen);
    j.advance(JobEvent::NotCreated(CreateError::Other("full".to_string())));
    assert_eq!(text_of(&j.into_status()), (2, "/d/out nicht anlegbar: full"));

    let mut j = job(JobKind::Encrypt);
    j.advance(JobEvent::KeyFileRead);
    j.advance(JobEvent::InputOpened);
    j.advance(JobEvent::Created);
    j.advance(JobEvent::WorkerNotStarted("no fork".to_string()));
    assert!(!j.remove_outputs());
    assert_eq!(
        text_of(&j.into_status()),
        (2, "Worker konnte nicht gestartet werden: no fork")
    );
}

// -- the file browser

fn entry(name: &str) -> PickEntry {
    PickEntry { name: name.to_string(), path: format!("/x/{name}").into_bytes() }
}

fn listed(name: &str, kind: EntryKind) -> DirEntry {
    DirEntry { entry: entry(name), kind }
}

fn names(entries: &[PickEntry]) -> Vec<String> {
    entries.iter().map(|e| e.name.clone()).collect()
}

#[test]
fn entries_are_sorted_without_regard_to_case() {
    let sorted = sort_entries(vec![
        entry("beta"),
        entry("Alpha"),
        entry("\u{c4}rger"),
        entry("ALPHA"),
        entry("alph"),
        entry("zeta"),
        entry("alpha"),
    ]);
    assert_eq!(
        names(&sorted),
        vec!["alph", "Alpha", "ALPHA", "alpha", "beta", "zeta", "\u{c4}rger"]
    );
    assert_eq!(sorted[0].path, b"/x/alph".to_vec());
    assert!(sort_entries(Vec::new()).is_empty());
}

#[test]
fn browser_lists_what_is_not_hidden() {
    let mut p = FilePicker::new("t".to_string(), PickMode::File, None, false, b"/home".to_vec());
    assert_eq!(p.cwd(), b"/home");
    assert_eq!(p.title, "t");
    p.refresh(Ok(vec![
        listed("b.txt", EntryKind::File),
        listed(".hidden", EntryKind::File),
        listed("Sub", EntryKind::Directory),
        listed(".git", EntryKind::Directory),
        listed("A.txt", EntryKind::File),
        listed("odd", EntryKind::Unknown),
        listed("dir", EntryKind::Directory),
    ]));
    assert_eq!(names(p.dirs()), vec!["dir", "Sub"]);
    assert_eq!(p.files().map(names), Some(vec!["A.txt".to_string(), "b.txt".to_string()]));
    assert!(p.error().is_none());
    p.refresh(Err("permission denied".to_string()));
    assert!(p.dirs().is_empty());
    assert_eq!(p.files().map(|f| f.len()), Some(0));
    assert_eq!(p.error(), Some("Verzeichnis nicht lesbar: permission denied"));
    p.refresh(Ok(Vec::new()));
    assert!(p.error().is_none());
}

#[test]
fn browser_starts_where_it_can() {
    let new = |start: Option<&[u8]>, is_dir: bool| {
        FilePicker::new(
            String::new(),
            PickMode::Directory,
            start.map(|s| s.to_vec()),
            is_dir,
            b"/home".to_vec(),
        )
    };
    assert_eq!(new(Some(b"/a"), true).cwd(), b"/a");
    assert_eq!(new(Some(b"/a"), false).cwd(), b"/home");
    assert_eq!(new(None, true).cwd(), b"/home");
    assert_eq!(new(None, true).mode(), PickMode::Directory);
    assert!(new(None, true).files().is_none());
}

#[test]
fn clicks_choose_and_move() {
    let mut p = FilePicker::new(String::new(), PickMode::File, None, false, b"/h".to_vec());
    let (o, relist) = p.frame(&vec![PickClick::Goto(b"/h/d".to_vec())], false);
    assert!(matches!(o, PickOutcome::Pending) && relist);
    assert_eq!(p.cwd(), b"/h/d");
    let (o, relist) = p.frame(&vec![PickClick::Parent(Some(b"/h".to_vec()))], false);
    assert!(matches!(o, PickOutcome::Pending) && relist);
    assert_eq!(p.cwd(), b"/h");
    let (o, relist) = p.frame(&vec![PickClick::Parent(None)], false);
    assert!(matches!(o, PickOutcome::Pending) && !relist);
    let (o, relist) = p.frame(&Vec::new(), false);
    assert!(matches!(o, PickOutcome::Pending) && !relist);
    let (o, _) = p.frame(&vec![PickClick::ThisDirectory], false);
    assert!(matches!(o, PickOutcome::Pending));
    let (o, _) = p.frame(&vec![PickClick::Choose(b"/h/f".to_vec())], false);
    assert!(matches!(o, PickOutcome::Chosen(path) if path == b"/h/f"));
    let (o, relist) = p.frame(&vec![PickClick::Enter(b"/h/e".to_vec())], false);
    assert!(matches!(o, PickOutcome::Pending) && relist);
    assert_eq!(p.cwd(), b"/h/e");
    let mut p = FilePicker::new(String::new(), PickMode::Directory, None, false, b"/h".to_vec());
    let (o, _) = p.frame(&vec![PickClick::ThisDirectory], false);
    assert!(matches!(o, PickOutcome::Chosen(path) if path == b"/h"));
    let (o, _) = p.frame(&vec![PickClick::Choose(b"/h/f".to_vec())], false);
    assert!(matches!(o, PickOutcome::Pending));
}

#[test]
fn closing_wins_over_a_choice() {
    let mut p = FilePicker::new(String::new(), PickMode::File, None, false, b"/h".to_vec());
    let (o, _) = p.frame(&Vec::new(), true);
    assert!(matches!(o, PickOutcome::Cancelled));
    let (o, _) = p.frame(&vec![PickClick::Choose(b"/h/f".to_vec())], true);
    assert!(matches!(o, PickOutcome::Cancelled));
}

#[test]
fn listed_directories_are_entered_after_a_choice() {
    let mut p = FilePicker::new(String::new(), PickMode::Directory, None, false, b"/h".to_vec());
    let clicks = vec![
        PickClick::Goto(b"/g".to_vec()),
        PickClick::Enter(b"/g/e".to_vec()),
        PickClick::ThisDirectory,
    ];
    let (o, relist) = p.frame(&clicks, false);
    assert!(matches!(o, PickOutcome::Chosen(path) if path == b"/g"));
    assert!(relist);
    assert_eq!(p.cwd(), b"/g/e");
}

#[test]
fn places_depend_on_the_system() {
    let list = |macos: bool, tmp: Option<&str>| -> Vec<(String, String)> {
        shortcuts(macos, tmp.map(|t| t.to_string()))
            .into_iter()
            .map(|s| (s.label, s.path))
            .collect()
    };
    let pair = |a: &str, b: &str| (a.to_string(), b.to_string());
    assert_eq!(
        list(false, Some("/t")),
        vec![
            pair("Persistent (Tails)", "/home/amnesia/Persistent"),
            pair("Datentraeger", "/media"),
            pair("Volumes (macOS)", "/Volumes"),
            pair("RAM (/dev/shm)", "/dev/shm"),
            pair("/tmp", "/tmp"),
            pair("Wurzel /", "/"),
        ]
    );
    assert_eq!(list(true, Some("/t"))[3], pair("Temporaer (Platte, kein RAM)", "/t"));
    assert_eq!(list(true, Some("/t")).len(), 5);
    assert_eq!(list(true, None).len(), 4);
    assert_eq!(home_dir(Some(b"/u".to_vec()), true), b"/u".to_vec());
    assert_eq!(home_dir(Some(b"/u".to_vec()), false), b"/".to_vec());
    assert_eq!(home_dir(None, true), b"/".to_vec());
}

// -- the window

fn facts(name: Option<&str>, parent: Option<&str>, file: Option<&[u8]>) -> PickFacts {
    PickFacts {
        file_name: name.map(|n| n.to_string()),
        parent: parent.map(|p| p.as_bytes().to_vec()),
        key_file: file.map(|f| f.to_vec()),
    }
}

#[test]
fn window_begins_empty() {
    let app = App::default();
    assert_eq!(app.tab, Tab::Keygen);
    assert_eq!(app.kg_name, "schluessel");
    assert!(app.kg_dir.is_none() && app.enc_pub.is_none() && app.dec_key.is_none());
    assert!(!app.busy());
    assert!(!app.keygen_ready() && !app.encrypt_ready() && !app.decrypt_ready());
    assert_eq!(app.keygen_hints(), (false, false));
}

#[test]
fn key_pairs_need_two_equal_passphrases() {
    let mut app = App::default();
    app.kg_pass.push_str("elf zeichen");
    assert_eq!(app.keygen_hints(), (false, true));
    app.kg_pass.push_str("!");
    assert_eq!(app.keygen_hints(), (false, false));
    app.kg_pass_repeat.push_str("elf zeichen");
    assert_eq!(app.keygen_hints(), (true, false));
    app.apply_pick(PickTarget::KeygenDir, b"/d".to_vec(), facts(None, None, None));
    assert!(!app.keygen_ready());
    assert!(app.start_keygen().is_none());
    app.kg_pass_repeat.push_str("!");
    assert!(app.keygen_ready());
    app.kg_name.clear();
    assert!(!app.keygen_ready());
    app.kg_name.push_str("paar");
    let order = app.start_keygen().unwrap();
    assert_eq!(order.passphrase.as_bytes(), b"elf zeichen!");
    assert_eq!(order.dir, b"/d".to_vec());
    assert_eq!((order.pub_name.as_str(), order.key_name.as_str()), ("paar.hpub", "paar.hkey"));
    assert!(app.kg_pass.is_empty() && app.kg_pass_repeat.is_empty());
    assert!(app.busy());
}

#[test]
fn picks_propose_names_and_directories() {
    let mut app = App::default();
    let f = facts(Some("brief.txt"), Some("/home/x"), None);
    app.apply_pick(PickTarget::EncryptIn, b"/home/x/brief.txt".to_vec(), f);
    assert_eq!(app.enc_out_name, "brief.txt.hcx");
    assert_eq!(app.enc_out_dir, Some(b"/home/x".to_vec()));
    let f = facts(Some("andere"), Some("/y"), None);
    app.apply_pick(PickTarget::EncryptIn, b"/y/andere".to_vec(), f);
    assert_eq!(app.enc_out_name, "brief.txt.hcx");
    assert_eq!(app.enc_out_dir, Some(b"/home/x".to_vec()));
    assert_eq!(app.enc_in, Some(b"/y/andere".to_vec()));

    let f = facts(Some("brief.txt.hcx"), Some("/home/x"), None);
    app.apply_pick(PickTarget::DecryptIn, b"/home/x/brief.txt.hcx".to_vec(), f);
    assert_eq!(app.dec_out_name, "brief.txt");
    app.dec_out_name.clear();
    let f = facts(Some("foo.bin"), Some("/z"), None);
    app.apply_pick(PickTarget::DecryptIn, b"/z/foo.bin".to_vec(), f);
    assert_eq!(app.dec_out_name, "entschluesselt");
    assert_eq!(app.dec_out_dir, Some(b"/home/x".to_vec()));
}

#[test]
fn recipient_shows_its_fingerprint() {
    let mut app = App::default();
    let f = facts(None, None, Some(b"hybridcrypt"));
    app.apply_pick(PickTarget::EncryptPub, b"/k.hpub".to_vec(), f);
    assert_eq!(app.enc_pub_fingerprint.as_deref(), Some("FYM 3YM LZH URG GPOY"));
    app.apply_pick(PickTarget::EncryptPub, b"/big".to_vec(), facts(None, None, None));
    assert_eq!(app.enc_pub_fingerprint, None);
    assert_eq!(app.enc_pub, Some(b"/big".to_vec()));
}

#[test]
fn orders_need_all_of_their_parts() {
    let mut app = App::default();
    app.apply_pick(PickTarget::EncryptPub, b"/k".to_vec(), facts(None, None, None));
    assert!(app.start_encrypt().is_none());
    let f = facts(Some("n"), Some("/d"), None);
    app.apply_pick(PickTarget::EncryptIn, b"/d/n".to_vec(), f);
    let order = app.start_encrypt().unwrap();
    assert_eq!(order.recipient_pub, b"/k".to_vec());
    assert_eq!(order.input, b"/d/n".to_vec());
    assert_eq!(order.out_dir, b"/d".to_vec());
    assert_eq!(order.out_name, "n.hcx");

    let mut app = App::default();
    app.apply_pick(PickTarget::DecryptKey, b"/k".to_vec(), facts(None, None, None));
    let f = facts(Some("n.hcx"), Some("/d"), None);
    app.apply_pick(PickTarget::DecryptIn, b"/d/n.hcx".to_vec(), f);
    app.apply_pick(PickTarget::DecryptOutDir, b"/o".to_vec(), facts(None, None, None));
    assert!(app.start_decrypt().is_none());
    app.dec_pass.push_str("p");
    let order = app.start_decrypt().unwrap();
    assert_eq!(order.key_file, b"/k".to_vec());
    assert_eq!(order.passphrase.as_bytes(), b"p");
    assert_eq!(order.input, b"/d/n.hcx".to_vec());
    assert_eq!(order.out_dir, b"/o".to_vec());
    assert_eq!(order.out_name, "n");
    assert!(app.dec_pass.is_empty());
    assert!(app.busy());
}

#[test]
fn running_jobs_are_polled() {
    let mut app = App::default();
    app.working = true;
    assert!(app.poll(JobPoll::Empty));
    assert!(app.busy());
    assert!(!app.poll(JobPoll::Finished(StatusMsg::Done("gut".to_string()))));
    assert!(!app.busy());
    assert_eq!(app.status.as_ref().map(text_of), Some((0, "gut")));
    app.working = true;
    assert!(!app.poll(JobPoll::Disconnected));
    assert!(!app.busy());
    assert_eq!(app.status.as_ref().map(text_of), Some((2, "Worker unerwartet beendet.")));
}

#[test]
fn browser_opens_and_closes() {
    let mut app = App::default();
    app.enc_in = Some(b"/d/n".to_vec());
    assert_eq!(app.origin(PickTarget::EncryptPub), Some(b"/d/n".to_vec()));
    assert_eq!(app.origin(PickTarget::DecryptKey), None);
    assert_eq!(start_dir(Some(b"/d/n".to_vec()), false, Some(b"/d".to_vec())), Some(b"/d".to_vec()));
    assert_eq!(start_dir(Some(b"/d".to_vec()), true, None), Some(b"/d".to_vec()));
    assert_eq!(start_dir(None, true, Some(b"/d".to_vec())), None);
    let home = b"/h".to_vec();
    app.open_picker(
        "Titel",
        PickMode::File,
        PickTarget::EncryptPub,
        Some(b"/d".to_vec()),
        true,
        home.clone(),
    );
    assert!(app.settle_pick(PickOutcome::Pending).is_none());
    assert_eq!(app.picker.as_ref().map(|(p, _)| p.cwd().to_vec()), Some(b"/d".to_vec()));
    let chosen = app.settle_pick(PickOutcome::Chosen(b"/d/k".to_vec()));
    assert_eq!(chosen, Some((PickTarget::EncryptPub, b"/d/k".to_vec())));
    assert!(app.picker.is_none());
    app.open_picker("T", PickMode::Directory, PickTarget::KeygenDir, None, false, home);
    assert!(app.settle_pick(PickOutcome::Cancelled).is_none());
    assert!(app.picker.is_none());
}

#[test]
fn closing_wipes_every_passphrase() {
    let mut app = App::default();
    app.kg_pass.push_str("a");
    app.kg_pass_repeat.push_str("b");
    app.dec_pass.push_str("c");
    app.wipe_passphrases();
    assert!(app.kg_pass.is_empty() && app.kg_pass_repeat.is_empty() && app.dec_pass.is_empty());
}
