use mailarch::lock::{Lock, LockError, LockEvent, LockStep, LOCK_RETRY_INTERVAL, LOCK_TIMEOUT};
use mailarch::lock::LockEvent::{Failed, Interrupted, Succeeded, TimedOut, WouldBlock};
use mailarch::mode::Mode;

fn after(events: &[LockEvent]) -> LockStep {
    let mut lock = Lock::acquire_mailbox("/mail/INBOX", Mode::Move);
    for event in events {
        lock.on(*event);
    }
    lock.step()
}

#[test]
fn lock_file_sits_in_directory() {
    let lock = Lock::acquire_mailbox("/mail/INBOX", Mode::Copy);
    assert_eq!(lock.directory(), "/mail/INBOX");
    assert_eq!(lock.path(), "/mail/INBOX/.lock");
    assert_eq!(Lock::acquire_imap("/mail", Mode::Copy).path(), "/mail/.lock");
    assert_eq!(LOCK_TIMEOUT, 10_000);
    assert_eq!(LOCK_RETRY_INTERVAL, 50);
}

#[test]
fn dry_run_takes_no_lock() {
    let mut lock = Lock::acquire_imap("/mail", Mode::DryRun);
    assert_eq!(lock.step(), LockStep::NotNeeded);
    lock.on(LockEvent::Interrupted);
    lock.on(LockEvent::TimedOut);
    assert_eq!(lock.step(), LockStep::NotNeeded);
}

#[test]
fn lock_is_retried() {
    let mut lock = Lock::acquire_imap("/mail", Mode::Copy);
    assert_eq!(lock.step(), LockStep::CreateDir);
    lock.on(LockEvent::Succeeded);
    assert_eq!(lock.step(), LockStep::Open);
    lock.on(LockEvent::Succeeded);
    for _ in 0..3 {
        assert_eq!(lock.step(), LockStep::Poll);
        lock.on(LockEvent::Succeeded);
        assert_eq!(lock.step(), LockStep::TryLock);
        lock.on(LockEvent::WouldBlock);
        assert_eq!(lock.step(), LockStep::Wait);
        lock.on(LockEvent::Succeeded);
    }
    lock.on(LockEvent::Succeeded);
    lock.on(LockEvent::Succeeded);
    assert_eq!(lock.step(), LockStep::Locked);
    lock.on(LockEvent::TimedOut);
    assert_eq!(lock.step(), LockStep::Locked);
}

#[test]
fn lock_errors() {
    assert_eq!(after(&[Failed]), LockStep::Failed(LockError::CreateDir));
    assert_eq!(after(&[Succeeded, Failed]), LockStep::Failed(LockError::Open));
    assert_eq!(after(&[Succeeded, TimedOut]), LockStep::Failed(LockError::Timeout));
    assert_eq!(after(&[Succeeded, Succeeded, Interrupted]), LockStep::Failed(LockError::Interrupted));
    assert_eq!(after(&[Succeeded, Succeeded, Succeeded, Failed]), LockStep::Failed(LockError::Acquire));
    assert_eq!(
        after(&[Succeeded, Succeeded, Succeeded, WouldBlock, TimedOut]),
        LockStep::Failed(LockError::Timeout)
    );
    assert_eq!(
        after(&[Succeeded, Succeeded, Succeeded, WouldBlock, Succeeded, Interrupted, Succeeded]),
        LockStep::Failed(LockError::Interrupted)
    );
    assert_eq!(after(&[TimedOut]), LockStep::CreateDir);
}

#[test]
fn held_lock_keeps_others_out() {
    let mut held = Lock::acquire_imap("/mail", Mode::Move);
    let mut other = Lock::acquire_mailbox("/mail", Mode::Copy);
    assert_eq!(held.path(), other.path());
    for _ in 0..4 {
        held.on(Succeeded);
    }
    assert_eq!(held.step(), LockStep::Locked);
    for event in [Succeeded, Succeeded, Succeeded, WouldBlock, Succeeded, Succeeded, WouldBlock] {
        other.on(event);
    }
    assert_eq!(other.step(), LockStep::Wait);
    let mut late = Lock::acquire_mailbox("/mail", Mode::Copy);
    for event in [Succeeded, Succeeded, Succeeded, WouldBlock, Succeeded, Succeeded, Succeeded] {
        late.on(event);
    }
    assert_eq!(late.step(), LockStep::Locked);
    other.on(TimedOut);
    assert_eq!(other.step(), LockStep::Failed(LockError::Timeout));
}
