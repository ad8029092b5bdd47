use mailarch::config::MailboxFormat;
use mailarch::hash::{compute_msg_hash, hash_to_hex};
use mailarch::hash_cache::{HashCache, Listing, Survey};
use mailarch::maildir::{
    mh_decision, mh_next_seq, open_actions, Known, Maildir, MaildirStep, MaildirStore, MhError,
    MhEvent, MhStep, MhStore, OpenAction, ScanEvent, SequenceOverflow, StoreResult, StoreStep,
    Subdir,
};

const ABC: &str = "e642824c3f8cf24ad09234ee7d3c766fc9a3a5168d0c94ad73b46fdf";

fn names(texts: &[&str]) -> Vec<String> {
    texts.iter().map(|text| text.to_string()).collect()
}

fn shown(actions: &Vec<OpenAction>) -> Vec<String> {
    actions
        .iter()
        .map(|action| match action {
            OpenAction::CreateDir(path) => format!("dir {path}"),
            OpenAction::CreateFile(path) => format!("file {path}"),
            OpenAction::RemoveFile(path) => format!("remove {path}"),
            OpenAction::OpenCache => "cache".to_string(),
            OpenAction::Survey => "survey".to_string(),
        })
        .collect()
}

fn start(dry_run: bool) -> MaildirStore {
    let maildir = Maildir::open("/mail", MailboxFormat::Maildir, dry_run, None);
    match maildir.store(b"abc", 1700000000) {
        Ok(StoreStep::Maildir(store)) => store,
        _ => panic!("not stored as in a Maildir"),
    }
}

fn loaded(base: &str) -> HashCache {
    match HashCache::load(base) {
        Ok(cache) => cache,
        Err(_) => panic!("cannot load"),
    }
}

/// The contents of the messages of a mailbox. Message 2 cannot be read.
fn content(n: u64) -> Option<Vec<u8>> {
    if n == 2 {
        None
    } else {
        Some(format!("message {n}").into_bytes())
    }
}

/// An MH mailbox that is opened for a dry run.
fn surveyed(listing: Listing) -> Maildir {
    let survey = Survey::take(listing, content).unwrap();
    Maildir::open("/mail", MailboxFormat::Mh, true, Some(Known::Survey(survey)))
}

fn mh_store(maildir: &Maildir, raw: &[u8]) -> MhStore {
    match maildir.store(raw, 0) {
        Ok(StoreStep::Mh(store)) => store,
        _ => panic!("not stored as in an MH mailbox"),
    }
}

fn entry(name: &str) -> ScanEvent {
    ScanEvent::Entry(name.to_string())
}

#[test]
fn opening_a_mailbox() {
    let expected = vec!["dir /mail/cur", "dir /mail/new", "dir /mail/tmp"];
    assert_eq!(shown(&open_actions("/mail", MailboxFormat::Maildir, false)), expected);
    assert_eq!(shown(&open_actions("/mail", MailboxFormat::MaildirPP, false)), expected);
    assert_eq!(
        shown(&open_actions("/mail", MailboxFormat::Mh, false)),
        vec!["dir /mail", "file /mail/.mh_sequences", "remove /mail/.claws_cache", "cache"]
    );
    assert!(open_actions("/mail", MailboxFormat::Maildir, true).is_empty());
    assert!(open_actions("/mail", MailboxFormat::MaildirPP, true).is_empty());
    assert_eq!(shown(&open_actions("/mail", MailboxFormat::Mh, true)), vec!["survey"]);
}

#[test]
fn new_message_is_written() {
    let mut store = start(false);
    assert_eq!(store.step(), MaildirStep::Scan(Subdir::Cur));
    assert_eq!(store.subdir_path(Subdir::Cur), "/mail/cur");
    store.scanned(entry("1600000000.0123:2,S"));
    store.scanned(ScanEvent::End);
    assert_eq!(store.step(), MaildirStep::Scan(Subdir::New));
    assert_eq!(store.subdir_path(Subdir::New), "/mail/new");
    store.scanned(ScanEvent::End);
    assert_eq!(store.step(), MaildirStep::Write);
    assert_eq!(store.tmp_path(), "/mail/tmp");
    assert_eq!(store.file_name(), format!("1700000000.{ABC}:2,S"));
    assert_eq!(store.file_path(), format!("/mail/cur/1700000000.{ABC}:2,S"));
}

#[test]
fn stored_file_is_recognised() {
    let known = MaildirStep::Done(StoreResult::AlreadyExists { identical: true });
    let mut store = start(false);
    let name = store.file_name();
    store.scanned(entry(&name));
    assert_eq!(store.step(), known);
    store.scanned(ScanEvent::Failed);
    assert_eq!(store.step(), known);
    let mut store = start(true);
    store.scanned(ScanEvent::Missing);
    store.scanned(entry(&format!("1.{ABC}:2,RS")));
    assert_eq!(store.step(), known);
}

#[test]
fn unreadable_directories() {
    let mut store = start(false);
    store.scanned(ScanEvent::Missing);
    assert_eq!(store.step(), MaildirStep::Failed(Subdir::Cur));
    let mut store = start(false);
    store.scanned(ScanEvent::End);
    store.scanned(ScanEvent::Failed);
    assert_eq!(store.step(), MaildirStep::Failed(Subdir::New));
    let mut store = start(true);
    store.scanned(ScanEvent::Failed);
    assert_eq!(store.step(), MaildirStep::Failed(Subdir::Cur));
}

#[test]
fn dry_run_writes_nothing() {
    let mut store = start(true);
    store.scanned(ScanEvent::Missing);
    store.scanned(ScanEvent::Missing);
    assert_eq!(store.step(), MaildirStep::Done(StoreResult::Stored));
    let mut maildir = surveyed(Listing::Missing);
    assert!(maildir.claws_mark().is_none());
    assert_eq!(mh_store(&maildir, b"abc").step(), MhStep::Done(StoreResult::Stored));
    assert!(maildir.mh_stored(1, compute_msg_hash(b"abc")).is_ok());
    assert_eq!(mh_store(&maildir, b"abc").step(), MhStep::Done(StoreResult::Stored));
}

#[test]
fn dry_run_shows_what_would_be_done() {
    let known = MhStep::Done(StoreResult::AlreadyExists { identical: true });
    let listing = names(&["1", ".mh_sequences", "2", "3", "x"]);
    // A run that writes.
    let dir = tempfile::tempdir().unwrap();
    let mut cache = loaded(dir.path().to_str().unwrap());
    assert!(cache.sync_with_dir(&listing, content).is_ok());
    let real = Maildir::open(dir.path().to_str().unwrap(), MailboxFormat::Mh, false, Some(Known::Cache(cache)));
    assert_eq!(mh_store(&real, b"message 1").step(), known);
    assert_eq!(mh_store(&real, b"message 2").step(), MhStep::List);
    assert_eq!(mh_store(&real, b"message 3").step(), known);
    assert_eq!(mh_store(&real, b"message 4").step(), MhStep::List);
    // A dry run.
    let dry = surveyed(Listing::Names(listing));
    assert_eq!(mh_store(&dry, b"message 1").step(), known);
    assert_eq!(mh_store(&dry, b"message 2").step(), MhStep::Done(StoreResult::Stored));
    assert_eq!(mh_store(&dry, b"message 3").step(), known);
    assert_eq!(mh_store(&dry, b"message 4").step(), MhStep::Done(StoreResult::Stored));
}

#[test]
fn unreadable_directory_gives_no_survey() {
    assert!(Survey::take(Listing::Failed, content).is_none());
}

#[test]
fn first_step_in_an_mh_mailbox() {
    let known = MhStep::Done(StoreResult::AlreadyExists { identical: true });
    assert_eq!(mh_decision(true, false), known);
    assert_eq!(mh_decision(true, true), known);
    assert_eq!(mh_decision(false, true), MhStep::Done(StoreResult::Stored));
    assert_eq!(mh_decision(false, false), MhStep::List);
}

#[test]
fn written_message_is_stored() {
    let dir = tempfile::tempdir().unwrap();
    let base = dir.path().to_str().unwrap();
    let maildir = Maildir::open(base, MailboxFormat::Mh, false, Some(Known::Cache(loaded(base))));
    for (recorded, marked) in [(true, true), (true, false), (false, true), (false, false)] {
        let outcome = |ok| if ok { MhEvent::Succeeded } else { MhEvent::Failed };
        let mut store = mh_store(&maildir, b"b");
        store.on(MhEvent::Listed(names(&["4294967295", ".claws_mark"])));
        assert_eq!(store.step(), MhStep::Write(4294967296));
        assert_eq!(store.directory(), base);
        assert_eq!(store.file_path(4294967296), format!("{base}/4294967296"));
        store.on(MhEvent::Succeeded);
        assert_eq!(store.step(), MhStep::Record(4294967296));
        assert_eq!(store.hash(), compute_msg_hash(b"b"));
        store.on(outcome(recorded));
        assert_eq!(store.step(), MhStep::Mark(4294967296));
        assert!(maildir.claws_mark().unwrap().mark_read(4294967296).is_err());
        store.on(outcome(marked));
        assert_eq!(store.step(), MhStep::Done(StoreResult::Stored));
        store.on(MhEvent::Failed);
        assert_eq!(store.step(), MhStep::Done(StoreResult::Stored));
    }
}

#[test]
fn mh_errors() {
    let dir = tempfile::tempdir().unwrap();
    let base = dir.path().to_str().unwrap();
    let maildir = Maildir::open(base, MailboxFormat::Mh, false, Some(Known::Cache(loaded(base))));
    let mut store = mh_store(&maildir, b"b");
    store.on(MhEvent::Failed);
    assert_eq!(store.step(), MhStep::Failed(MhError::List));
    let mut store = mh_store(&maildir, b"b");
    store.on(MhEvent::Listed(names(&["18446744073709551615"])));
    assert_eq!(store.step(), MhStep::Failed(MhError::SequenceOverflow));
    let mut store = mh_store(&maildir, b"b");
    store.on(MhEvent::Listed(names(&[])));
    store.on(MhEvent::Failed);
    assert_eq!(store.step(), MhStep::Failed(MhError::Write));
    store.on(MhEvent::Succeeded);
    assert_eq!(store.step(), MhStep::Failed(MhError::Write));
}

#[test]
fn recorded_message_is_not_written_again() {
    let dir = tempfile::tempdir().unwrap();
    let base = dir.path().to_str().unwrap();
    let mut maildir = Maildir::open(base, MailboxFormat::Mh, false, Some(Known::Cache(loaded(base))));
    assert_eq!(maildir.claws_mark().unwrap().path(), format!("{base}/.claws_mark"));
    let store = mh_store(&maildir, b"abc");
    assert_eq!(store.step(), MhStep::List);
    assert_eq!(hash_to_hex(&store.hash()), ABC);
    assert!(maildir.mh_stored(1, store.hash()).is_ok());
    assert_eq!(
        mh_store(&maildir, b"abc").step(),
        MhStep::Done(StoreResult::AlreadyExists { identical: true })
    );
    assert_eq!(mh_store(&maildir, b"abd").step(), MhStep::List);
}

#[test]
fn next_sequence_number() {
    assert_eq!(mh_next_seq(&names(&[])), Ok(1));
    assert_eq!(mh_next_seq(&names(&[".mh_sequences", ".lock"])), Ok(1));
    assert_eq!(mh_next_seq(&names(&["3", "12", "x99", "007"])), Ok(13));
    assert_eq!(mh_next_seq(&names(&["0"])), Ok(1));
    assert_eq!(mh_next_seq(&names(&["18446744073709551614"])), Ok(u64::MAX));
    assert_eq!(mh_next_seq(&names(&["1", "18446744073709551615"])), Err(SequenceOverflow));
    assert_eq!(mh_next_seq(&names(&["18446744073709551616"])), Ok(1));
}
