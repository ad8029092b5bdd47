use mailarch::archive::{
    exit_result, ClientError, ClientEvent, ClientRun, ClientStep, MailboxRun, RunError, RunEvent,
    RunStep, SessionError, SessionStep,
};
use mailarch::config::{ArchiveConfig, Config, ImapConfig, MailboxFormat};
use mailarch::imap_client::{FetchedMessage, MailboxInfo};
use mailarch::maildir::StoreResult;
use mailarch::mode::Mode;

fn messages(uids: &[u32]) -> RunEvent {
    RunEvent::Fetched(
        uids.iter().map(|uid| FetchedMessage { uid: *uid, raw: vec![], received_at: 0 }).collect(),
    )
}

fn identical(identical: bool) -> RunEvent {
    RunEvent::Stored(StoreResult::AlreadyExists { identical })
}

/// A run over five messages in chunks of two, up to its first fetch.
fn started(mode: Mode) -> MailboxRun {
    let mut run = MailboxRun::process_mailbox(mode, 2);
    assert_eq!(run.step(), RunStep::Search);
    run.on(RunEvent::Found(vec![10, 11, 12, 13, 14]));
    assert_eq!(run.step(), RunStep::Lock);
    run.on(RunEvent::Succeeded);
    assert_eq!(run.step(), RunStep::PollChunk);
    run.on(RunEvent::Succeeded);
    assert_eq!(run.step(), RunStep::Fetch);
    run
}

/// Stores the next message.
fn store(run: &mut MailboxRun, uid: u32, event: RunEvent) {
    assert_eq!(run.step(), RunStep::PollMessage);
    run.on(RunEvent::Succeeded);
    assert_eq!(run.step(), RunStep::Open);
    run.on(RunEvent::Succeeded);
    assert_eq!(run.step(), RunStep::Store);
    assert_eq!(run.message().uid, uid);
    run.on(event);
}

/// A run up to the end of its last chunk. Messages 10, 11 and 14 have good copies.
fn finished(mode: Mode) -> MailboxRun {
    let mut run = started(mode);
    assert_eq!(run.chunk().to_vec(), vec![10, 11]);
    run.on(messages(&[10, 11]));
    store(&mut run, 10, RunEvent::Stored(StoreResult::Stored));
    store(&mut run, 11, identical(true));
    assert_eq!(run.step(), RunStep::PollChunk);
    run.on(RunEvent::Succeeded);
    assert_eq!(run.chunk().to_vec(), vec![12, 13]);
    run.on(messages(&[12, 13]));
    store(&mut run, 12, identical(false));
    store(&mut run, 13, RunEvent::Failed);
    run.on(RunEvent::Succeeded);
    assert_eq!(run.chunk().to_vec(), vec![14]);
    run.on(messages(&[14]));
    store(&mut run, 14, RunEvent::Stored(StoreResult::Stored));
    assert_eq!(run.archived().clone(), vec![10, 11, 14]);
    run
}

#[test]
fn moving_deletes_what_was_archived() {
    let mut run = finished(Mode::Move);
    assert_eq!(run.step(), RunStep::Delete);
    run.on(RunEvent::Succeeded);
    assert_eq!(run.step(), RunStep::Done(3));
    let mut run = finished(Mode::Move);
    run.on(RunEvent::Failed);
    assert_eq!(run.step(), RunStep::Done(0));
}

#[test]
fn copying_deletes_nothing() {
    assert_eq!(finished(Mode::Copy).step(), RunStep::Done(3));
    assert_eq!(finished(Mode::DryRun).step(), RunStep::Done(3));
}

#[test]
fn failed_fetch_skips_its_chunk() {
    let mut run = started(Mode::Move);
    run.on(RunEvent::Failed);
    assert_eq!(run.step(), RunStep::PollChunk);
    run.on(RunEvent::Succeeded);
    assert_eq!(run.chunk().to_vec(), vec![12, 13]);
    run.on(messages(&[]));
    run.on(RunEvent::Succeeded);
    assert_eq!(run.chunk().to_vec(), vec![14]);
    run.on(RunEvent::Failed);
    assert_eq!(run.step(), RunStep::Delete);
    assert!(run.archived().is_empty());
    assert_eq!(run.uids().clone(), vec![10, 11, 12, 13, 14]);
}

#[test]
fn nothing_to_archive() {
    let mut run = MailboxRun::process_mailbox(Mode::Move, 128);
    run.on(RunEvent::Found(vec![]));
    assert_eq!(run.step(), RunStep::Done(0));
    let mut run = MailboxRun::process_mailbox(Mode::Move, 128);
    run.on(RunEvent::Failed);
    assert_eq!(run.step(), RunStep::Done(0));
}

#[test]
fn largest_chunk() {
    let mut run = MailboxRun::process_mailbox(Mode::Copy, usize::MAX);
    run.on(RunEvent::Found(vec![3, 4]));
    run.on(RunEvent::Succeeded);
    run.on(RunEvent::Succeeded);
    assert_eq!(run.chunk().to_vec(), vec![3, 4]);
}

#[test]
fn run_errors() {
    let mut run = MailboxRun::process_mailbox(Mode::Copy, 2);
    run.on(RunEvent::Found(vec![3, 4]));
    run.on(RunEvent::Failed);
    assert_eq!(run.step(), RunStep::Failed(RunError::Lock));

    let mut run = started(Mode::Move);
    run.on(messages(&[10]));
    run.on(RunEvent::Interrupted);
    assert_eq!(run.step(), RunStep::Failed(RunError::Interrupted));
    run.on(RunEvent::Succeeded);
    assert_eq!(run.step(), RunStep::Failed(RunError::Interrupted));

    let mut run = started(Mode::Move);
    run.on(RunEvent::Failed);
    run.on(RunEvent::Interrupted);
    assert_eq!(run.step(), RunStep::Failed(RunError::Interrupted));

    let mut run = started(Mode::Move);
    run.on(messages(&[10]));
    run.on(RunEvent::Succeeded);
    run.on(RunEvent::Failed);
    assert_eq!(run.step(), RunStep::Failed(RunError::Open));
}

fn config() -> Config {
    Config::new(
        ImapConfig::new("mail.example.com".to_string(), None, "user".to_string(), "secret".to_string()),
        ArchiveConfig::new(
            "/archive".to_string(),
            None,
            MailboxFormat::Maildir,
            vec!["Spam".to_string(), "Trash".to_string()],
            vec![],
        ),
    )
}

fn mailboxes(names: &[&str]) -> ClientEvent {
    ClientEvent::Listed(
        names.iter().map(|name| MailboxInfo { name: name.to_string(), delimiter: '.' }).collect(),
    )
}

#[test]
fn all_mailboxes_have_their_turn() {
    let config = config();
    let mut run = ClientRun::handle_client(&config);
    assert_eq!(run.step(), ClientStep::List);
    run.on(mailboxes(&["INBOX.Old", "Spam", "Broken", "Spam.x", "Trash"]));
    assert_eq!(run.mailboxes().len(), 5);
    assert_eq!(run.step(), ClientStep::Poll);
    assert!(!run.is_skipped());
    run.on(ClientEvent::Succeeded);
    assert_eq!(run.step(), ClientStep::Select);
    assert_eq!(run.mailbox().name, "INBOX.Old");
    assert_eq!(run.local_dir(), "/archive/INBOX/Old");
    run.on(ClientEvent::Succeeded);
    assert_eq!(run.step(), ClientStep::Process);
    run.on(ClientEvent::Processed(3));
    assert_eq!(run.mailbox().name, "Spam");
    assert!(run.is_skipped());
    run.on(ClientEvent::Succeeded);
    assert_eq!(run.mailbox().name, "Broken");
    assert_eq!(run.step(), ClientStep::Poll);
    run.on(ClientEvent::Succeeded);
    run.on(ClientEvent::Failed);
    assert_eq!(run.mailbox().name, "Spam.x");
    run.on(ClientEvent::Succeeded);
    run.on(ClientEvent::Succeeded);
    run.on(ClientEvent::Processed(4));
    assert_eq!(run.total(), 7);
    assert_eq!(run.step(), ClientStep::Poll);
    run.on(ClientEvent::Succeeded);
    assert_eq!(run.step(), ClientStep::Done(7));
    run.on(ClientEvent::Interrupted);
    assert_eq!(run.step(), ClientStep::Done(7));
}

#[test]
fn client_run_ends_early() {
    let config = config();
    let mut run = ClientRun::handle_client(&config);
    run.on(mailboxes(&[]));
    assert_eq!(run.step(), ClientStep::NoMailboxes);

    let mut run = ClientRun::handle_client(&config);
    run.on(ClientEvent::Failed);
    assert_eq!(run.step(), ClientStep::Failed(ClientError::List));

    let mut run = ClientRun::handle_client(&config);
    run.on(mailboxes(&["INBOX"]));
    run.on(ClientEvent::Interrupted);
    assert_eq!(run.step(), ClientStep::Failed(ClientError::Interrupted));

    let mut run = ClientRun::handle_client(&config);
    run.on(mailboxes(&["INBOX", "Sent"]));
    run.on(ClientEvent::Succeeded);
    run.on(ClientEvent::Succeeded);
    run.on(ClientEvent::Failed);
    assert_eq!(run.step(), ClientStep::Failed(ClientError::Mailbox));
}

#[test]
fn failure_of_the_run_comes_first() {
    assert_eq!(exit_result::<&str>(Ok(()), Ok(())), Ok(()));
    assert_eq!(exit_result(Ok(()), Err("logout")), Err("logout"));
    assert_eq!(exit_result(Err("run"), Ok(())), Err("run"));
    assert_eq!(exit_result(Err("run"), Err("logout")), Err("run"));
}

#[test]
fn session_goes_in_order() {
    let after = |outcomes: &[bool]| outcomes.iter().fold(SessionStep::Lock, |step, ok| step.next(*ok));
    assert_eq!(after(&[]), SessionStep::Lock);
    assert_eq!(after(&[true]), SessionStep::Connect);
    assert_eq!(after(&[true, true]), SessionStep::Run);
    assert_eq!(after(&[true, true, true]), SessionStep::Logout { handled: true });
    assert_eq!(after(&[true, true, false]), SessionStep::Logout { handled: false });
    assert_eq!(after(&[true, true, true, true]), SessionStep::Done);
    assert_eq!(after(&[false]), SessionStep::Failed(SessionError::Lock));
    assert_eq!(after(&[false, true]), SessionStep::Failed(SessionError::Lock));
    assert_eq!(after(&[true, false]), SessionStep::Failed(SessionError::Connect));
    assert_eq!(after(&[true, true, true, false]), SessionStep::Failed(SessionError::Logout));
    assert_eq!(after(&[true, true, false, true]), SessionStep::Failed(SessionError::Run));
    assert_eq!(after(&[true, true, false, false]), SessionStep::Failed(SessionError::Run));
    assert_eq!(after(&[true, true, true, true, false]), SessionStep::Done);
}
