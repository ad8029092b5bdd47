//! Exclusive advisory lock on a file.
//!
//! The caller opens and locks the file, and waits. What it does, in which order, is decided here.
use crate::mailbox_path::{join_path, path_joined};
use crate::mode::Mode;
use vstd::prelude::*;

verus! {

/// The name of the lock file in the directory that it locks.
pub const FILE_NAME: &'static str = ".lock";

/// How long opening and locking the file may take, in milliseconds.
pub const LOCK_TIMEOUT: u64 = 10000;

/// How long to wait before the next try, in milliseconds.
pub const LOCK_RETRY_INTERVAL: u64 = 50;

/// Why there is no lock.
#[derive(Debug, Clone, Copy, PartialEq, Eq, Structural)]
pub enum LockError {
    /// The directory cannot be created.
    CreateDir,
    /// The file cannot be opened.
    Open,
    /// The file cannot be locked, and that not because another process holds the lock.
    Acquire,
    /// It took too long.
    Timeout,
    /// The program was interrupted.
    Interrupted,
}

/// What to do next to get a lock.
#[derive(Debug, Clone, Copy, PartialEq, Eq, Structural)]
pub enum LockStep {
    /// Create the directory, and those above it, where they are missing.
    CreateDir,
    /// Open the file for writing, and create it where it is missing.
    Open,
    /// See whether the program was interrupted.
    Poll,
    /// Try to lock the file, without blocking.
    TryLock,
    /// Wait for [`LOCK_RETRY_INTERVAL`].
    Wait,
    /// Nothing. The file is locked.
    Locked,
    /// Nothing. No lock is needed.
    NotNeeded,
    /// Nothing. There is no lock.
    Failed(LockError),
}

/// What came of a step.
#[derive(Debug, Clone, Copy, PartialEq, Eq, Structural)]
pub enum LockEvent {
    Succeeded,
    Failed,
    /// Another process holds the lock.
    WouldBlock,
    /// The program was interrupted.
    Interrupted,
    /// [`LOCK_TIMEOUT`] has passed since the file was to be opened.
    TimedOut,
}

/// The first step. Nothing is locked in a dry run.
pub open spec fn first_step(mode: Mode) -> LockStep {
    if mode is DryRun {
        LockStep::NotNeeded
    } else {
        LockStep::CreateDir
    }
}

/// The step that follows.
pub open spec fn next_step(step: LockStep, event: LockEvent) -> LockStep {
    match (step, event) {
        (LockStep::CreateDir, LockEvent::Succeeded) => LockStep::Open,
        (LockStep::CreateDir, LockEvent::Failed) => LockStep::Failed(LockError::CreateDir),
        (LockStep::Open, LockEvent::Succeeded) => LockStep::Poll,
        (LockStep::Open, LockEvent::Failed) => LockStep::Failed(LockError::Open),
        (LockStep::Open, LockEvent::TimedOut) => LockStep::Failed(LockError::Timeout),
        (LockStep::Poll, LockEvent::Succeeded) => LockStep::TryLock,
        (LockStep::Poll, LockEvent::Interrupted) => LockStep::Failed(LockError::Interrupted),
        (LockStep::TryLock, LockEvent::Succeeded) => LockStep::Locked,
        (LockStep::TryLock, LockEvent::WouldBlock) => LockStep::Wait,
        (LockStep::TryLock, LockEvent::Failed) => LockStep::Failed(LockError::Acquire),
        (LockStep::Wait, LockEvent::Succeeded) => LockStep::Poll,
        (LockStep::Wait, LockEvent::TimedOut) => LockStep::Failed(LockError::Timeout),
        _ => step,
    }
}

/// What a [`Lock`] says.
pub struct LockView {
    pub directory: Seq<char>,
    pub step: LockStep,
}

impl LockView {
    /// The path of the lock file.
    pub open spec fn path(self) -> Seq<char> {
        path_joined(self.directory, FILE_NAME@)
    }
}

/// A lock on a directory, or the way to it.
pub struct Lock {
    directory: String,
    step: LockStep,
}

impl View for Lock {
    type V = LockView;

    closed spec fn view(&self) -> LockView {
        LockView { directory: self.directory@, step: self.step }
    }
}

impl Lock {
    fn acquire(directory: &str, mode: Mode) -> (res: Self)
        ensures
            res@ == (LockView { directory: directory@, step: first_step(mode) }),
    {
        let step = if mode.is_dry_run() { LockStep::NotNeeded } else { LockStep::CreateDir };
        Lock { directory: directory.to_owned(), step }
    }

    /// Lock a local mailbox directory.
    /// Lock file `.lock` sits in the mailbox directory.
    pub fn acquire_mailbox(mailbox_dir: &str, mode: Mode) -> (res: Self)
        ensures
            res@ == (LockView { directory: mailbox_dir@, step: first_step(mode) }),
    {
        Self::acquire(mailbox_dir, mode)
    }

    /// Lock an IMAP account access.
    ///
    /// This is not supposed to be perfect.
    /// It's only to catch common misuses like running two instances of mailarch at the same time
    /// by accident.
    /// We take a lock in the local mailbox base directory.
    pub fn acquire_imap(mailbox_base_dir: &str, mode: Mode) -> (res: Self)
        ensures
            res@ == (LockView { directory: mailbox_base_dir@, step: first_step(mode) }),
    {
        Self::acquire(mailbox_base_dir, mode)
    }

    /// The directory that holds the lock file.
    pub fn directory(&self) -> (res: &str)
        ensures
            res@ == self@.directory,
    {
        self.directory.as_str()
    }

    /// The path of the lock file.
    pub fn path(&self) -> (res: String)
        ensures
            res@ == self@.path(),
    {
        join_path(self.directory.as_str(), FILE_NAME)
    }

    /// What to do next.
    pub fn step(&self) -> (res: LockStep)
        ensures
            res == self@.step,
    {
        self.step
    }

    /// Takes note of what came of the step, and so moves on to the next one.
    pub fn on(&mut self, event: LockEvent)
        ensures
            final(self)@ == (LockView { step: next_step(old(self)@.step, event), ..old(self)@ }),
    {
        self.step = match (self.step, event) {
            (LockStep::CreateDir, LockEvent::Succeeded) => LockStep::Open,
            (LockStep::CreateDir, LockEvent::Failed) => LockStep::Failed(LockError::CreateDir),
            (LockStep::Open, LockEvent::Succeeded) => LockStep::Poll,
            (LockStep::Open, LockEvent::Failed) => LockStep::Failed(LockError::Open),
            (LockStep::Open, LockEvent::TimedOut) => LockStep::Failed(LockError::Timeout),
            (LockStep::Poll, LockEvent::Succeeded) => LockStep::TryLock,
            (LockStep::Poll, LockEvent::Interrupted) => LockStep::Failed(LockError::Interrupted),
            (LockStep::TryLock, LockEvent::Succeeded) => LockStep::Locked,
            (LockStep::TryLock, LockEvent::WouldBlock) => LockStep::Wait,
            (LockStep::TryLock, LockEvent::Failed) => LockStep::Failed(LockError::Acquire),
            (LockStep::Wait, LockEvent::Succeeded) => LockStep::Poll,
            (LockStep::Wait, LockEvent::TimedOut) => LockStep::Failed(LockError::Timeout),
            (step, _) => step,
        };
    }
}

/// The step that is reached by `events`, from the start.
pub open spec fn steps(mode: Mode, events: Seq<LockEvent>) -> LockStep
    decreases events.len(),
{
    if events.len() == 0 {
        first_step(mode)
    } else {
        next_step(steps(mode, events.drop_last()), events.last())
    }
}

/// The way to the lock has come to its end.
pub open spec fn is_over(step: LockStep) -> bool {
    step is Locked || step is NotNeeded || step is Failed
}

/// What the way to the lock ended with stays, whatever comes in.
pub proof fn end_is_final(step: LockStep, event: LockEvent)
    requires
        is_over(step),
    ensures
        next_step(step, event) == step,
{
}

/// A dry run does nothing, and nothing else goes without a lock.
pub proof fn dry_run_needs_no_lock(mode: Mode, events: Seq<LockEvent>)
    ensures
        mode is DryRun <==> steps(mode, events) is NotNeeded,
    decreases events.len(),
{
    if events.len() > 0 {
        dry_run_needs_no_lock(mode, events.drop_last());
    }
}

/// The file counts as locked exactly where a try to lock it has succeeded.
pub proof fn locked_only_by_try(mode: Mode, events: Seq<LockEvent>)
    ensures
        steps(mode, events) is Locked <==> exists|i: int|
            0 <= i < events.len() && steps(mode, #[trigger] events.take(i)) is TryLock && events[i]
                is Succeeded,
    decreases events.len(),
{
    if events.len() > 0 {
        let front = events.drop_last();
        let last = events.len() - 1;
        locked_only_by_try(mode, front);
        assert(events.take(last) == front);
        assert forall|i: int| 0 <= i < front.len() implies front.take(i) == #[trigger] events.take(
            i,
        ) && front[i] == events[i] by {
            assert(front.take(i) == events.take(i));
        }
        if steps(mode, front) is Locked {
            let i = choose|i: int|
                0 <= i < front.len() && steps(mode, #[trigger] front.take(i)) is TryLock && front[i]
                    is Succeeded;
            assert(steps(mode, events.take(i)) is TryLock && events[i] is Succeeded);
        } else {
            assert forall|i: int|
                0 <= i < events.len() && steps(mode, #[trigger] events.take(i)) is TryLock
                    && events[i] is Succeeded implies i == last by {
                if i < last {
                    assert(steps(mode, front.take(i)) is TryLock && front[i] is Succeeded);
                }
            }
        }
    }
}

/// The file is tried only where the program was just seen not to have been interrupted.
pub proof fn tried_only_behind_poll(mode: Mode, events: Seq<LockEvent>)
    requires
        events.len() > 0,
        steps(mode, events) is TryLock,
        !(steps(mode, events.drop_last()) is TryLock),
    ensures
        steps(mode, events.drop_last()) is Poll,
        events.last() is Succeeded,
{
}

/// An interrupt that is seen ends the way to the lock, and nothing else counts as one.
pub proof fn interrupt_is_heeded(mode: Mode, events: Seq<LockEvent>)
    ensures
        steps(mode, events) == LockStep::Failed(LockError::Interrupted) <==> exists|i: int|
            0 <= i < events.len() && steps(mode, #[trigger] events.take(i)) is Poll && events[i]
                is Interrupted,
    decreases events.len(),
{
    if events.len() > 0 {
        let front = events.drop_last();
        let last = events.len() - 1;
        interrupt_is_heeded(mode, front);
        assert(events.take(last) == front);
        assert forall|i: int| 0 <= i < front.len() implies front.take(i) == #[trigger] events.take(
            i,
        ) && front[i] == events[i] by {
            assert(front.take(i) == events.take(i));
        }
        if steps(mode, front) == LockStep::Failed(LockError::Interrupted) {
            let i = choose|i: int|
                0 <= i < front.len() && steps(mode, #[trigger] front.take(i)) is Poll && front[i]
                    is Interrupted;
            assert(steps(mode, events.take(i)) is Poll && events[i] is Interrupted);
        } else {
            assert forall|i: int|
                0 <= i < events.len() && steps(mode, #[trigger] events.take(i)) is Poll
                    && events[i] is Interrupted implies i == last by {
                if i < last {
                    assert(steps(mode, front.take(i)) is Poll && front[i] is Interrupted);
                }
            }
        }
    }
}

/// What happens to one of two locks.
pub enum Happening {
    Event(LockEvent),
    /// The lock is dropped.
    Dropped,
}

/// What comes in for one of two locks. The flag says for which.
pub open spec fn events_for(first: bool, trace: Seq<(bool, Happening)>) -> Seq<LockEvent>
    decreases trace.len(),
{
    if trace.len() == 0 {
        Seq::empty()
    } else {
        let front = events_for(first, trace.drop_last());
        match trace.last() {
            (who, Happening::Event(event)) if who == first => front.push(event),
            _ => front,
        }
    }
}

/// The step that one of two locks has reached.
pub open spec fn step_of(first: bool, modes: (Mode, Mode), trace: Seq<(bool, Happening)>) -> LockStep {
    steps(
        if first {
            modes.0
        } else {
            modes.1
        },
        events_for(first, trace),
    )
}

/// One of two locks is held: it was locked, and has not been dropped.
pub open spec fn is_held(first: bool, modes: (Mode, Mode), trace: Seq<(bool, Happening)>) -> bool {
    step_of(first, modes, trace) is Locked && !trace.contains((first, Happening::Dropped))
}

/// The operating system keeps a lock exclusive, and nobody else locks the file: a try on it
/// succeeds only while the other lock is not held, and finds the file locked only while it is.
pub open spec fn is_exclusive(modes: (Mode, Mode), trace: Seq<(bool, Happening)>) -> bool {
    forall|i: int|
        #![trigger trace.take(i)]
        0 <= i < trace.len() && step_of(trace[i].0, modes, trace.take(i)) is TryLock ==> {
            let other = is_held(!trace[i].0, modes, trace.take(i));
            match trace[i].1 {
                Happening::Event(LockEvent::Succeeded) => !other,
                Happening::Event(LockEvent::WouldBlock) => other,
                _ => true,
            }
        }
}

/// Two locks on the same directory, whether of the account or of a mailbox, are locks on the same
/// file, and where the operating system keeps that lock exclusive at most one of them is held at a
/// time.
pub proof fn at_most_one_is_held(
    directory: Seq<char>,
    modes: (Mode, Mode),
    trace: Seq<(bool, Happening)>,
)
    requires
        is_exclusive(modes, trace),
    ensures
        (LockView { directory, step: step_of(true, modes, trace) }).path() == (LockView {
            directory,
            step: step_of(false, modes, trace),
        }).path(),
        !(is_held(true, modes, trace) && is_held(false, modes, trace)),
    decreases trace.len(),
{
    if trace.len() > 0 {
        let front = trace.drop_last();
        let last = trace.len() - 1;
        let (who, happening) = trace.last();
        assert(trace.take(last) == front);
        assert forall|i: int|
            #![trigger front.take(i)]
            0 <= i < front.len() && step_of(front[i].0, modes, front.take(i)) is TryLock implies {
            let other = is_held(!front[i].0, modes, front.take(i));
            match front[i].1 {
                Happening::Event(LockEvent::Succeeded) => !other,
                Happening::Event(LockEvent::WouldBlock) => other,
                _ => true,
            }
        } by {
            assert(front.take(i) == trace.take(i));
            assert(front[i] == trace[i]);
        }
        at_most_one_is_held(directory, modes, front);
        assert forall|first: bool| front.contains((first, Happening::Dropped)) implies trace.contains(
            (first, Happening::Dropped),
        ) by {
            let k = choose|k: int|
                0 <= k < front.len() && front[k] == (first, Happening::Dropped);
            assert(trace[k] == (first, Happening::Dropped));
        }
        assert(trace[last] == (who, happening));
        assert(events_for(!who, trace) =~= events_for(!who, front));
        if let Happening::Event(event) = happening {
            assert(events_for(who, trace).drop_last() =~= events_for(who, front));
            assert(step_of(who, modes, trace) == next_step(step_of(who, modes, front), event));
        } else {
            assert(events_for(who, trace) =~= events_for(who, front));
        }
    }
}

/// A try to lock a file that the other lock holds finds it locked or fails: it does not succeed.
/// Behind the drop of the other lock it does not find it locked.
pub proof fn try_depends_on_other_lock(
    modes: (Mode, Mode),
    trace: Seq<(bool, Happening)>,
    first: bool,
    event: LockEvent,
)
    requires
        is_exclusive(modes, trace.push((first, Happening::Event(event)))),
        step_of(first, modes, trace) is TryLock,
    ensures
        is_held(!first, modes, trace) ==> !(event is Succeeded),
        trace.contains((!first, Happening::Dropped)) ==> !(event is WouldBlock),
{
    let longer = trace.push((first, Happening::Event(event)));
    assert(longer.take(trace.len() as int) == trace);
    assert(longer[trace.len() as int] == (first, Happening::Event(event)));
}

/// As long as another holds the lock, so that every try finds the file locked, there is no lock.
pub proof fn held_lock_keeps_others_out(mode: Mode, events: Seq<LockEvent>)
    requires
        forall|i: int|
            #![trigger events.take(i)]
            0 <= i < events.len() && steps(mode, events.take(i)) is TryLock ==> events[i]
                is WouldBlock,
    ensures
        !(steps(mode, events) is Locked),
{
    locked_only_by_try(mode, events);
}

/// The way to a lock that another holds, up to the poll behind so many waits.
pub open spec fn waits(rounds: nat) -> Seq<LockEvent>
    decreases rounds,
{
    if rounds == 0 {
        seq![LockEvent::Succeeded, LockEvent::Succeeded]
    } else {
        waits((rounds - 1) as nat).push(LockEvent::Succeeded).push(LockEvent::WouldBlock).push(
            LockEvent::Succeeded,
        )
    }
}

/// Without an interrupt the wait for a lock that another holds goes on as long as it takes. If the
/// other still holds it when the time is up, there is no lock. If the other drops it before, the
/// next try gets it.
pub proof fn wait_ends_with_timeout_or_release(mode: Mode, rounds: nat)
    requires
        !(mode is DryRun),
    ensures
        steps(mode, waits(rounds)) is Poll,
        steps(
            mode,
            waits(rounds).push(LockEvent::Succeeded).push(LockEvent::WouldBlock).push(
                LockEvent::TimedOut,
            ),
        ) == LockStep::Failed(LockError::Timeout),
        steps(mode, waits(rounds).push(LockEvent::Succeeded).push(LockEvent::Succeeded)) is Locked,
    decreases rounds,
{
    reveal_with_fuel(steps, 4);
    if rounds > 0 {
        wait_ends_with_timeout_or_release(mode, (rounds - 1) as nat);
        let before = waits((rounds - 1) as nat);
        assert(waits(rounds).drop_last() =~= before.push(LockEvent::Succeeded).push(
            LockEvent::WouldBlock,
        ));
        assert(before.push(LockEvent::Succeeded).push(LockEvent::WouldBlock).drop_last()
            =~= before.push(LockEvent::Succeeded));
        assert(before.push(LockEvent::Succeeded).drop_last() =~= before);
    } else {
        assert(waits(0).drop_last() =~= seq![LockEvent::Succeeded]);
        assert(waits(0).drop_last().drop_last() =~= Seq::<LockEvent>::empty());
    }
    let start = waits(rounds);
    let polled = start.push(LockEvent::Succeeded);
    let blocked = polled.push(LockEvent::WouldBlock);
    assert(polled.drop_last() =~= start);
    assert(blocked.drop_last() =~= polled);
    assert(blocked.push(LockEvent::TimedOut).drop_last() =~= blocked);
    assert(polled.push(LockEvent::Succeeded).drop_last() =~= polled);
}

/// What can come of a step.
pub open spec fn is_reply(step: LockStep, event: LockEvent) -> bool {
    match step {
        LockStep::CreateDir => event is Succeeded || event is Failed,
        LockStep::Open => event is Succeeded || event is Failed || event is TimedOut,
        LockStep::Poll => event is Succeeded || event is Interrupted,
        LockStep::TryLock => event is Succeeded || event is WouldBlock || event is Failed,
        LockStep::Wait => event is Succeeded || event is TimedOut,
        LockStep::Locked | LockStep::NotNeeded | LockStep::Failed(_) => false,
    }
}

/// Whatever comes of a step, another step follows. What cannot come of it changes nothing.
pub proof fn every_reply_moves_on(step: LockStep, event: LockEvent)
    ensures
        is_reply(step, event) <==> next_step(step, event) != step,
{
}

/// Event `i` came in at `step`.
pub open spec fn came_at(mode: Mode, events: Seq<LockEvent>, i: int, step: LockStep) -> bool {
    0 <= i < events.len() && steps(mode, events.take(i)) == step
}

/// An event came in at a step before the last event, or is the last event.
proof fn lemma_came_at(mode: Mode, events: Seq<LockEvent>, step: LockStep, cause: LockEvent)
    requires
        events.len() > 0,
    ensures
        (exists|i: int| #[trigger]
            came_at(mode, events, i, step) && events[i] == cause) <==> (exists|i: int| #[trigger]
            came_at(mode, events.drop_last(), i, step) && events.drop_last()[i] == cause) || (steps(
            mode,
            events.drop_last(),
        ) == step && events.last() == cause),
{
    let front = events.drop_last();
    let last = events.len() - 1;
    assert(events.take(last) =~= front);
    if exists|i: int| #[trigger] came_at(mode, events, i, step) && events[i] == cause {
        let i = choose|i: int| #[trigger] came_at(mode, events, i, step) && events[i] == cause;
        if i != last {
            assert(front.take(i) =~= events.take(i));
            assert(came_at(mode, front, i, step) && front[i] == cause);
        }
    }
    if exists|i: int| #[trigger] came_at(mode, front, i, step) && front[i] == cause {
        let i = choose|i: int| #[trigger] came_at(mode, front, i, step) && front[i] == cause;
        assert(front.take(i) =~= events.take(i));
        assert(came_at(mode, events, i, step) && events[i] == cause);
    }
    if steps(mode, front) == step && events.last() == cause {
        assert(came_at(mode, events, last, step) && events[last] == cause);
    }
}

/// There is no lock exactly for a cause, which is told: the directory could not be created, the
/// file could not be opened or locked, or the time was up. That another holds the lock is no cause.
pub proof fn lock_fails_for_cause(mode: Mode, events: Seq<LockEvent>)
    ensures
        steps(mode, events) == LockStep::Failed(LockError::CreateDir) <==> exists|i: int| #[trigger]
            came_at(mode, events, i, LockStep::CreateDir) && events[i] is Failed,
        steps(mode, events) == LockStep::Failed(LockError::Open) <==> exists|i: int| #[trigger]
            came_at(mode, events, i, LockStep::Open) && events[i] is Failed,
        steps(mode, events) == LockStep::Failed(LockError::Acquire) <==> exists|i: int| #[trigger]
            came_at(mode, events, i, LockStep::TryLock) && events[i] is Failed,
        steps(mode, events) == LockStep::Failed(LockError::Timeout) <==> (exists|i: int| #[trigger]
            came_at(mode, events, i, LockStep::Open) && events[i] is TimedOut) || (exists|i: int|
         #[trigger] came_at(mode, events, i, LockStep::Wait) && events[i] is TimedOut),
    decreases events.len(),
{
    if events.len() > 0 {
        lock_fails_for_cause(mode, events.drop_last());
        lemma_came_at(mode, events, LockStep::CreateDir, LockEvent::Failed);
        lemma_came_at(mode, events, LockStep::Open, LockEvent::Failed);
        lemma_came_at(mode, events, LockStep::TryLock, LockEvent::Failed);
        lemma_came_at(mode, events, LockStep::Open, LockEvent::TimedOut);
        lemma_came_at(mode, events, LockStep::Wait, LockEvent::TimedOut);
    }
}

/// The file is opened only in a directory that was created, and tried only once it was opened.
pub proof fn lock_goes_in_order(mode: Mode, events: Seq<LockEvent>)
    ensures
        ({
            let step = steps(mode, events);
            &&& step is Open || step is Poll || step is TryLock || step is Wait || step is Locked
                ==> exists|i: int| #[trigger]
                came_at(mode, events, i, LockStep::CreateDir) && events[i] is Succeeded
            &&& step is Poll || step is TryLock || step is Wait || step is Locked ==> exists|i: int|
             #[trigger] came_at(mode, events, i, LockStep::Open) && events[i] is Succeeded
        }),
    decreases events.len(),
{
    if events.len() > 0 {
        lock_goes_in_order(mode, events.drop_last());
        lemma_came_at(mode, events, LockStep::CreateDir, LockEvent::Succeeded);
        lemma_came_at(mode, events, LockStep::Open, LockEvent::Succeeded);
    }
}

/// The lock file sits in the directory that it locks.
pub proof fn lock_file_sits_in_directory(view: LockView)
    ensures
        view.path() == path_joined(view.directory, ".lock"@),
{
}

} // verus!
