//! The run through the mailboxes of a server, and through the messages of one mailbox.
//!
//! The caller talks to the server, to the disk and to the user. What it does, in which order, and
//! what counts as archived, is decided here.
use crate::config::{Config, ConfigView};
use crate::imap_client::{info_views, FetchedMessage, MailboxInfo, MailboxInfoView};
use crate::mailbox_path::{mailbox_path, path_of};
use crate::maildir::StoreResult;
use crate::mode::Mode;
use crate::text::{lemma_filter_parts, views};
use vstd::prelude::*;
use vstd::slice::slice_subrange;

verus! {

/// Why the run through a mailbox was given up.
#[derive(Debug, Clone, Copy, PartialEq, Eq, Structural)]
pub enum RunError {
    /// The mailbox cannot be locked.
    Lock,
    /// The local mailbox cannot be opened.
    Open,
    /// The program was interrupted.
    Interrupted,
}

/// What to do next to archive the messages of a mailbox, which has been selected.
#[derive(Debug, Clone, Copy, PartialEq, Eq, Structural)]
pub enum RunStep {
    /// Search for messages that can be archived.
    Search,
    /// Lock the local mailbox, and start to open it.
    Lock,
    /// See whether the program was interrupted, before the next chunk.
    PollChunk,
    /// Fetch the messages of the chunk.
    Fetch,
    /// See whether the program was interrupted, before the next message.
    PollMessage,
    /// Wait until the local mailbox is open.
    Open,
    /// Store the message in the local mailbox.
    Store,
    /// Delete what was archived from the server.
    Delete,
    /// Nothing. So many messages were processed.
    Done(usize),
    /// Nothing. The run was given up.
    Failed(RunError),
}

/// What came of a step.
pub enum RunEvent {
    Succeeded,
    Failed,
    /// The program was interrupted.
    Interrupted,
    /// These messages can be archived.
    Found(Vec<u32>),
    /// These messages came from the server.
    Fetched(Vec<FetchedMessage>),
    /// The message was stored, or not.
    Stored(StoreResult),
}

/// What a [`RunEvent`] says.
pub enum RunEventView {
    Succeeded,
    Failed,
    Interrupted,
    Found(Seq<u32>),
    Fetched(Seq<FetchedMessage>),
    Stored(StoreResult),
}

impl View for RunEvent {
    type V = RunEventView;

    open spec fn view(&self) -> RunEventView {
        match *self {
            RunEvent::Succeeded => RunEventView::Succeeded,
            RunEvent::Failed => RunEventView::Failed,
            RunEvent::Interrupted => RunEventView::Interrupted,
            RunEvent::Found(uids) => RunEventView::Found(uids@),
            RunEvent::Fetched(messages) => RunEventView::Fetched(messages@),
            RunEvent::Stored(result) => RunEventView::Stored(result),
        }
    }
}

/// The local copy of a message is good: it was written, or it was there.
pub open spec fn is_good(result: StoreResult) -> bool {
    result is Stored || result == (StoreResult::AlreadyExists { identical: true })
}

/// What a [`MailboxRun`] says.
pub struct MailboxRunView {
    pub mode: Mode,
    /// The number of messages to fetch in one batch.
    pub chunk_size: usize,
    /// The messages that can be archived.
    pub uids: Seq<u32>,
    /// So many of them have been asked for.
    pub asked: int,
    /// The messages that came from the server for the last chunk.
    pub messages: Seq<FetchedMessage>,
    /// So many of these have been dealt with.
    pub handled: int,
    /// The messages with a good local copy.
    pub archived: Seq<u32>,
    pub step: RunStep,
}

impl MailboxRunView {
    /// Where the chunk ends that is to be asked for next.
    pub open spec fn chunk_end(self) -> int {
        if self.asked + self.chunk_size <= self.uids.len() {
            self.asked + self.chunk_size
        } else {
            self.uids.len() as int
        }
    }

    /// The chunk that is to be asked for next.
    pub open spec fn chunk(self) -> Seq<u32> {
        self.uids.subrange(self.asked, self.chunk_end())
    }

    /// The message that is to be dealt with next.
    pub open spec fn message(self) -> FetchedMessage {
        self.messages[self.handled]
    }

    /// Goes on to the next chunk. Behind the last one, what was archived is deleted from the
    /// server where that is wanted.
    pub open spec fn at_chunk(self) -> Self {
        MailboxRunView {
            step: if self.asked < self.uids.len() {
                RunStep::PollChunk
            } else if self.mode is Move {
                RunStep::Delete
            } else {
                RunStep::Done(self.archived.len() as usize)
            },
            ..self
        }
    }

    /// Goes on to the next message, and behind the last one to the next chunk.
    pub open spec fn at_message(self) -> Self {
        if self.handled < self.messages.len() {
            MailboxRunView { step: RunStep::PollMessage, ..self }
        } else {
            self.at_chunk()
        }
    }

    /// The chunk has been asked for, and these messages came.
    pub open spec fn fetched(self, messages: Seq<FetchedMessage>) -> Self {
        (MailboxRunView { asked: self.chunk_end(), messages, handled: 0, ..self }).at_message()
    }

    /// The message has been dealt with. Its UID counts as archived if its local copy is good.
    pub open spec fn stored(self, good: bool) -> Self {
        (MailboxRunView {
            handled: self.handled + 1,
            archived: if good {
                self.archived.push(self.message().uid)
            } else {
                self.archived
            },
            ..self
        }).at_message()
    }

    pub open spec fn at(self, step: RunStep) -> Self {
        MailboxRunView { step, ..self }
    }

    /// What the run is like after `event`.
    pub open spec fn next(self, event: RunEventView) -> Self {
        match (self.step, event) {
            (RunStep::Search, RunEventView::Found(uids)) => if uids.len() == 0 {
                self.at(RunStep::Done(0))
            } else {
                (MailboxRunView { uids, ..self }).at(RunStep::Lock)
            },
            (RunStep::Search, RunEventView::Failed) => self.at(RunStep::Done(0)),
            (RunStep::Lock, RunEventView::Succeeded) => self.at_chunk(),
            (RunStep::Lock, RunEventView::Failed) => self.at(RunStep::Failed(RunError::Lock)),
            (RunStep::PollChunk, RunEventView::Succeeded) => self.at(RunStep::Fetch),
            (RunStep::PollChunk, RunEventView::Interrupted) => self.at(
                RunStep::Failed(RunError::Interrupted),
            ),
            (RunStep::Fetch, RunEventView::Fetched(messages)) => self.fetched(messages),
            (RunStep::Fetch, RunEventView::Failed) => self.fetched(Seq::empty()),
            (RunStep::PollMessage, RunEventView::Succeeded) => self.at(RunStep::Open),
            (RunStep::PollMessage, RunEventView::Interrupted) => self.at(
                RunStep::Failed(RunError::Interrupted),
            ),
            (RunStep::Open, RunEventView::Succeeded) => self.at(RunStep::Store),
            (RunStep::Open, RunEventView::Failed) => self.at(RunStep::Failed(RunError::Open)),
            (RunStep::Store, RunEventView::Stored(result)) => self.stored(is_good(result)),
            (RunStep::Store, RunEventView::Failed) => self.stored(false),
            (RunStep::Delete, RunEventView::Succeeded) => self.at(
                RunStep::Done(self.archived.len() as usize),
            ),
            (RunStep::Delete, RunEventView::Failed) => self.at(RunStep::Done(0)),
            _ => self,
        }
    }

    /// What holds at every step.
    pub open spec fn wf(self) -> bool {
        &&& self.chunk_size > 0
        &&& 0 <= self.asked <= self.uids.len()
        &&& 0 <= self.handled <= self.messages.len()
        &&& self.step is Search ==> self.uids.len() == 0
        &&& self.step is Search || self.step is Lock ==> self.asked == 0 && self.messages.len()
            == 0 && self.archived.len() == 0
        &&& self.step is PollChunk || self.step is Fetch ==> self.asked < self.uids.len()
        &&& self.step is PollMessage || self.step is Open || self.step is Store ==> self.handled
            < self.messages.len()
        &&& self.step is Delete ==> self.mode is Move
        &&& self.step is Delete || self.step is Done ==> self.asked == self.uids.len()
    }
}

/// The run at its start.
pub open spec fn first_run(mode: Mode, chunk_size: usize) -> MailboxRunView {
    MailboxRunView {
        mode,
        chunk_size,
        uids: Seq::empty(),
        asked: 0,
        messages: Seq::empty(),
        handled: 0,
        archived: Seq::empty(),
        step: RunStep::Search,
    }
}

/// The archiving of the messages of one mailbox.
pub struct MailboxRun {
    mode: Mode,
    chunk_size: usize,
    uids: Vec<u32>,
    asked: usize,
    messages: Vec<FetchedMessage>,
    handled: usize,
    archived: Vec<u32>,
    step: RunStep,
}

impl View for MailboxRun {
    type V = MailboxRunView;

    closed spec fn view(&self) -> MailboxRunView {
        MailboxRunView {
            mode: self.mode,
            chunk_size: self.chunk_size,
            uids: self.uids@,
            asked: self.asked as int,
            messages: self.messages@,
            handled: self.handled as int,
            archived: self.archived@,
            step: self.step,
        }
    }
}

impl MailboxRun {
    /// Archive messages in one already-selected mailbox. Messages are fetched in batches of
    /// `chunk_size`.
    pub fn process_mailbox(mode: Mode, chunk_size: usize) -> (res: Self)
        requires
            chunk_size > 0,
        ensures
            res@ == first_run(mode, chunk_size),
            res@.wf(),
    {
        MailboxRun {
            mode,
            chunk_size,
            uids: Vec::new(),
            asked: 0,
            messages: Vec::new(),
            handled: 0,
            archived: Vec::new(),
            step: RunStep::Search,
        }
    }

    /// What to do next.
    pub fn step(&self) -> (res: RunStep)
        ensures
            res == self@.step,
    {
        self.step
    }

    /// The messages that can be archived.
    pub fn uids(&self) -> (res: &Vec<u32>)
        ensures
            res@ == self@.uids,
    {
        &self.uids
    }

    /// The messages with a good local copy.
    pub fn archived(&self) -> (res: &Vec<u32>)
        ensures
            res@ == self@.archived,
    {
        &self.archived
    }

    fn chunk_end(&self) -> (res: usize)
        requires
            self@.wf(),
        ensures
            res == self@.chunk_end(),
    {
        if self.chunk_size <= self.uids.len() - self.asked {
            self.asked + self.chunk_size
        } else {
            self.uids.len()
        }
    }

    /// The messages to fetch.
    pub fn chunk(&self) -> (res: &[u32])
        requires
            self@.wf(),
        ensures
            res@ == self@.chunk(),
    {
        slice_subrange(self.uids.as_slice(), self.asked, self.chunk_end())
    }

    /// The message to store.
    pub fn message(&self) -> (res: &FetchedMessage)
        requires
            self@.wf(),
            self@.step is PollMessage || self@.step is Open || self@.step is Store,
        ensures
            *res == self@.message(),
    {
        &self.messages[self.handled]
    }

    fn at_chunk(&mut self)
        ensures
            final(self)@ == old(self)@.at_chunk(),
    {
        self.step =
        if self.asked < self.uids.len() {
            RunStep::PollChunk
        } else if self.mode.is_move() {
            RunStep::Delete
        } else {
            RunStep::Done(self.archived.len())
        };
    }

    fn at_message(&mut self)
        ensures
            final(self)@ == old(self)@.at_message(),
    {
        if self.handled < self.messages.len() {
            self.step = RunStep::PollMessage;
        } else {
            self.at_chunk();
        }
    }

    fn fetched(&mut self, messages: Vec<FetchedMessage>)
        requires
            old(self)@.wf(),
        ensures
            final(self)@ == old(self)@.fetched(messages@),
    {
        self.asked = self.chunk_end();
        self.messages = messages;
        self.handled = 0;
        self.at_message();
    }

    fn stored(&mut self, good: bool)
        requires
            old(self)@.wf(),
            old(self)@.step is Store,
        ensures
            final(self)@ == old(self)@.stored(good),
    {
        assert(self.handled < self.messages.len());
        if good {
            let uid: u32 = self.messages[self.handled].uid;
            self.archived.push(uid);
        }
        self.handled = self.handled + 1;
        self.at_message();
    }

    /// Takes note of what came of the step, and so moves on to the next one.
    pub fn on(&mut self, event: RunEvent)
        requires
            old(self)@.wf(),
        ensures
            final(self)@ == old(self)@.next(event@),
            final(self)@.wf(),
    {
        match (self.step, event) {
            (RunStep::Search, RunEvent::Found(uids)) => {
                if uids.len() == 0 {
                    self.step = RunStep::Done(0);
                } else {
                    self.uids = uids;
                    self.step = RunStep::Lock;
                }
            },
            (RunStep::Search, RunEvent::Failed) => {
                self.step = RunStep::Done(0);
            },
            (RunStep::Lock, RunEvent::Succeeded) => {
                self.at_chunk();
            },
            (RunStep::Lock, RunEvent::Failed) => {
                self.step = RunStep::Failed(RunError::Lock);
            },
            (RunStep::PollChunk, RunEvent::Succeeded) => {
                self.step = RunStep::Fetch;
            },
            (RunStep::PollChunk, RunEvent::Interrupted) => {
                self.step = RunStep::Failed(RunError::Interrupted);
            },
            (RunStep::Fetch, RunEvent::Fetched(messages)) => {
                self.fetched(messages);
            },
            (RunStep::Fetch, RunEvent::Failed) => {
                self.fetched(Vec::new());
            },
            (RunStep::PollMessage, RunEvent::Succeeded) => {
                self.step = RunStep::Open;
            },
            (RunStep::PollMessage, RunEvent::Interrupted) => {
                self.step = RunStep::Failed(RunError::Interrupted);
            },
            (RunStep::Open, RunEvent::Succeeded) => {
                self.step = RunStep::Store;
            },
            (RunStep::Open, RunEvent::Failed) => {
                self.step = RunStep::Failed(RunError::Open);
            },
            (RunStep::Store, RunEvent::Stored(result)) => {
                let good = match result {
                    StoreResult::Stored => true,
                    StoreResult::AlreadyExists { identical } => identical,
                };
                self.stored(good);
            },
            (RunStep::Store, RunEvent::Failed) => {
                self.stored(false);
            },
            (RunStep::Delete, RunEvent::Succeeded) => {
                self.step = RunStep::Done(self.archived.len());
            },
            (RunStep::Delete, RunEvent::Failed) => {
                self.step = RunStep::Done(0);
            },
            _ => {},
        }
    }
}

/// What the run is like after `events`, from the start.
pub open spec fn run(mode: Mode, chunk_size: usize, events: Seq<RunEventView>) -> MailboxRunView
    decreases events.len(),
{
    if events.len() == 0 {
        first_run(mode, chunk_size)
    } else {
        run(mode, chunk_size, events.drop_last()).next(events.last())
    }
}

/// What holds at every step holds whatever comes in, and the mode and the size of a chunk stay.
pub proof fn run_stays_wf(mode: Mode, chunk_size: usize, events: Seq<RunEventView>)
    requires
        chunk_size > 0,
    ensures
        run(mode, chunk_size, events).wf(),
        run(mode, chunk_size, events).mode == mode,
        run(mode, chunk_size, events).chunk_size == chunk_size,
    decreases events.len(),
{
    if events.len() > 0 {
        run_stays_wf(mode, chunk_size, events.drop_last());
    }
}

/// What a run ended with stays, whatever comes in.
pub proof fn run_end_is_final(view: MailboxRunView, event: RunEventView)
    requires
        view.step is Done || view.step is Failed,
    ensures
        view.next(event) == view,
{
}

/// Event `i` says that a good local copy of message `uid` was made or found.
pub open spec fn copied(
    mode: Mode,
    chunk_size: usize,
    events: Seq<RunEventView>,
    i: int,
    uid: u32,
) -> bool {
    let view = run(mode, chunk_size, events.take(i));
    &&& 0 <= i < events.len()
    &&& view.step is Store
    &&& view.message().uid == uid
    &&& events[i] matches RunEventView::Stored(result) && is_good(result)
}

/// A message counts as archived exactly where a good local copy of it was made or found. What is
/// deleted from the server is what counts as archived, so no other message is.
pub proof fn archived_only_with_good_copy(
    mode: Mode,
    chunk_size: usize,
    events: Seq<RunEventView>,
    uid: u32,
)
    ensures
        run(mode, chunk_size, events).archived.contains(uid) <==> exists|i: int| #[trigger]
            copied(mode, chunk_size, events, i, uid),
    decreases events.len(),
{
    if events.len() > 0 {
        let front = events.drop_last();
        let last = events.len() - 1;
        let view = run(mode, chunk_size, front);
        archived_only_with_good_copy(mode, chunk_size, front, uid);
        assert(events.take(last) == front);
        assert forall|i: int| i != last implies copied(mode, chunk_size, front, i, uid)
            == #[trigger] copied(mode, chunk_size, events, i, uid) by {
            if 0 <= i < last {
                assert(front.take(i) == events.take(i));
            }
        }
        if view.archived.contains(uid) {
            let i = choose|i: int| #[trigger] copied(mode, chunk_size, front, i, uid);
            assert(copied(mode, chunk_size, events, i, uid));
            let k = choose|k: int| 0 <= k < view.archived.len() && view.archived[k] == uid;
            assert(run(mode, chunk_size, events).archived[k] == uid);
        } else if copied(mode, chunk_size, events, last, uid) {
            assert(run(mode, chunk_size, events).archived.last() == uid);
        } else {
            assert forall|i: int| !#[trigger] copied(mode, chunk_size, events, i, uid) by {
                if i != last {
                    assert(!copied(mode, chunk_size, front, i, uid));
                }
            }
        }
    }
}

/// Messages are deleted from the server only to move them, and only once all of them have been
/// asked for.
pub proof fn deleted_only_in_move_mode(mode: Mode, chunk_size: usize, events: Seq<RunEventView>)
    requires
        chunk_size > 0,
        run(mode, chunk_size, events).step is Delete,
    ensures
        mode is Move,
        asked_for(mode, chunk_size, events) == run(mode, chunk_size, events).uids,
{
    run_stays_wf(mode, chunk_size, events);
    asked_in_order(mode, chunk_size, events);
}

/// The messages that the server has been asked for.
pub open spec fn asked_for(mode: Mode, chunk_size: usize, events: Seq<RunEventView>) -> Seq<u32>
    decreases events.len(),
{
    if events.len() == 0 {
        Seq::empty()
    } else {
        let before = asked_for(mode, chunk_size, events.drop_last());
        let view = run(mode, chunk_size, events.drop_last());
        if view.step is Fetch && (events.last() is Fetched || events.last() is Failed) {
            before + view.chunk()
        } else {
            before
        }
    }
}

/// The server is asked for each message that can be archived once, in their order, and for no
/// other: the chunks one behind the other are the messages. A chunk that cannot be fetched does
/// not keep the next one from being asked for. Every chunk but the last has the wanted size, and the
/// last is not empty and no larger.
pub proof fn asked_in_order(mode: Mode, chunk_size: usize, events: Seq<RunEventView>)
    requires
        chunk_size > 0,
    ensures
        ({
            let view = run(mode, chunk_size, events);
            &&& asked_for(mode, chunk_size, events) == view.uids.take(view.asked)
            &&& view.step is Delete || view.step is Done ==> asked_for(mode, chunk_size, events)
                == view.uids
            &&& view.step is Fetch ==> 0 < view.chunk().len() <= chunk_size
            &&& view.step is Fetch ==> view.chunk().len() == chunk_size || asked_for(
                mode,
                chunk_size,
                events,
            ) + view.chunk() == view.uids
        }),
    decreases events.len(),
{
    run_stays_wf(mode, chunk_size, events);
    let view = run(mode, chunk_size, events);
    if events.len() > 0 {
        let front = events.drop_last();
        asked_in_order(mode, chunk_size, front);
        run_stays_wf(mode, chunk_size, front);
        let before = run(mode, chunk_size, front);
        if before.step is Fetch && (events.last() is Fetched || events.last() is Failed) {
            assert(view.uids == before.uids && view.asked == before.chunk_end());
            assert(before.uids.take(before.asked) + before.chunk() =~= before.uids.take(
                before.chunk_end(),
            ));
        } else if before.step is Search {
            assert(view.asked == 0);
            assert(asked_for(mode, chunk_size, events) =~= view.uids.take(0));
        } else {
            assert(view.uids == before.uids && view.asked == before.asked);
        }
    }
    assert(view.uids.take(view.uids.len() as int) =~= view.uids);
    if view.step is Fetch && view.chunk_end() == view.uids.len() {
        assert(view.uids.take(view.asked) + view.chunk() =~= view.uids);
    }
}

/// Event `i` says that what was archived has been deleted from the server.
pub open spec fn removed(
    mode: Mode,
    chunk_size: usize,
    events: Seq<RunEventView>,
    i: int,
) -> bool {
    &&& 0 <= i < events.len()
    &&& run(mode, chunk_size, events.take(i)).step is Delete
    &&& events[i] is Succeeded
}

/// A run that ends counts what it archived. To move messages counts only if they have been deleted
/// from the server, and counts none otherwise.
pub proof fn count_is_of_archived(mode: Mode, chunk_size: usize, events: Seq<RunEventView>)
    requires
        chunk_size > 0,
    ensures
        run(mode, chunk_size, events).step matches RunStep::Done(n) ==> n == if !(mode is Move)
            || exists|i: int| #[trigger] removed(mode, chunk_size, events, i) {
            run(mode, chunk_size, events).archived.len() as usize
        } else {
            0
        },
        (exists|i: int| #[trigger] removed(mode, chunk_size, events, i)) ==> run(
            mode,
            chunk_size,
            events,
        ).step is Done,
    decreases events.len(),
{
    if events.len() > 0 {
        let front = events.drop_last();
        let last = events.len() - 1;
        count_is_of_archived(mode, chunk_size, front);
        run_stays_wf(mode, chunk_size, front);
        assert(events.take(last) == front);
        assert forall|i: int| i != last implies removed(mode, chunk_size, front, i)
            == #[trigger] removed(mode, chunk_size, events, i) by {
            if 0 <= i < last {
                assert(front.take(i) == events.take(i));
            }
        }
        if exists|i: int| #[trigger] removed(mode, chunk_size, front, i) {
            let i = choose|i: int| #[trigger] removed(mode, chunk_size, front, i);
            assert(removed(mode, chunk_size, events, i));
        } else if removed(mode, chunk_size, events, last) {
        } else {
            assert forall|i: int| !#[trigger] removed(mode, chunk_size, events, i) by {
                if i != last {
                    assert(!removed(mode, chunk_size, front, i));
                }
            }
        }
    }
}

/// An interrupt that is seen ends the run, whatever comes in behind it.
pub proof fn interrupt_ends_run(
    mode: Mode,
    chunk_size: usize,
    before: Seq<RunEventView>,
    behind: Seq<RunEventView>,
)
    requires
        run(mode, chunk_size, before).step is PollChunk || run(
            mode,
            chunk_size,
            before,
        ).step is PollMessage,
    ensures
        run(mode, chunk_size, before.push(RunEventView::Interrupted) + behind).step
            == RunStep::Failed(RunError::Interrupted),
    decreases behind.len(),
{
    let events = before.push(RunEventView::Interrupted) + behind;
    if behind.len() == 0 {
        assert(events.drop_last() =~= before);
    } else {
        interrupt_ends_run(mode, chunk_size, before, behind.drop_last());
        assert(events.drop_last() =~= before.push(RunEventView::Interrupted)
            + behind.drop_last());
    }
}

/// What can come of a step.
pub open spec fn is_reply(step: RunStep, event: RunEventView) -> bool {
    match step {
        RunStep::Search => event is Found || event is Failed,
        RunStep::Lock | RunStep::Open | RunStep::Delete => event is Succeeded || event is Failed,
        RunStep::PollChunk | RunStep::PollMessage => event is Succeeded || event is Interrupted,
        RunStep::Fetch => event is Fetched || event is Failed,
        RunStep::Store => event is Stored || event is Failed,
        RunStep::Done(_) | RunStep::Failed(_) => false,
    }
}

/// Whatever comes of a step, another step follows. What cannot come of it changes nothing.
pub proof fn every_reply_moves_the_run(view: MailboxRunView, event: RunEventView)
    requires
        view.wf(),
    ensures
        is_reply(view.step, event) ==> view.next(event).step != view.step,
        !is_reply(view.step, event) ==> view.next(event) == view,
{
}

/// Event `i` came in at `step`.
pub open spec fn came_at(
    mode: Mode,
    chunk_size: usize,
    events: Seq<RunEventView>,
    i: int,
    step: RunStep,
) -> bool {
    0 <= i < events.len() && run(mode, chunk_size, events.take(i)).step == step
}

/// What came in at a step before the last event still did.
proof fn lemma_came_at(mode: Mode, chunk_size: usize, events: Seq<RunEventView>)
    requires
        events.len() > 0,
    ensures
        events.take(events.len() - 1) == events.drop_last(),
        forall|i: int, step: RunStep|
            i != events.len() - 1 ==> #[trigger] came_at(mode, chunk_size, events, i, step)
                == came_at(mode, chunk_size, events.drop_last(), i, step),
        forall|i: int, step: RunStep| #[trigger]
            came_at(mode, chunk_size, events.drop_last(), i, step) ==> came_at(
                mode,
                chunk_size,
                events,
                i,
                step,
            ) && events[i] == events.drop_last()[i],
{
    let front = events.drop_last();
    assert(events.take(events.len() - 1) =~= front);
    assert forall|i: int, step: RunStep| i != events.len() - 1 implies #[trigger] came_at(
        mode,
        chunk_size,
        events,
        i,
        step,
    ) == came_at(mode, chunk_size, front, i, step) by {
        if 0 <= i < front.len() {
            assert(front.take(i) =~= events.take(i));
        }
    }
    assert forall|i: int, step: RunStep| #[trigger]
        came_at(mode, chunk_size, front, i, step) implies came_at(
        mode,
        chunk_size,
        events,
        i,
        step,
    ) && events[i] == front[i] by {
        assert(front.take(i) =~= events.take(i));
    }
}

/// The messages that can be archived are those that the search found, all of them and in its
/// order, for as long as the run lasts.
pub proof fn run_is_over_what_was_found(
    mode: Mode,
    chunk_size: usize,
    events: Seq<RunEventView>,
    i: int,
)
    requires
        came_at(mode, chunk_size, events, i, RunStep::Search),
        events[i] is Found,
    ensures
        run(mode, chunk_size, events).uids == events[i]->Found_0,
        !(run(mode, chunk_size, events).step is Search),
    decreases events.len(),
{
    lemma_came_at(mode, chunk_size, events);
    lemma_search_has_no_uids(mode, chunk_size, events.drop_last());
    if i < events.len() - 1 {
        assert(came_at(mode, chunk_size, events.drop_last(), i, RunStep::Search));
        run_is_over_what_was_found(mode, chunk_size, events.drop_last(), i);
    } else {
        assert(events.last() == events[i]);
        assert(events[i]->Found_0.len() == 0 ==> events[i]->Found_0 =~= Seq::<u32>::empty());
    }
}

proof fn lemma_search_has_no_uids(mode: Mode, chunk_size: usize, events: Seq<RunEventView>)
    ensures
        run(mode, chunk_size, events).step is Search ==> run(mode, chunk_size, events).uids
            == Seq::<u32>::empty(),
    decreases events.len(),
{
    if events.len() > 0 {
        lemma_search_has_no_uids(mode, chunk_size, events.drop_last());
    }
}

/// A run is given up exactly for a cause: the mailbox could not be locked, it could not be opened,
/// or the program was interrupted. That the search, the fetch of a chunk, the storing of a message
/// or the deletion failed is no cause.
pub proof fn run_is_given_up_for_cause(mode: Mode, chunk_size: usize, events: Seq<RunEventView>)
    ensures
        run(mode, chunk_size, events).step == RunStep::Failed(RunError::Lock) <==> exists|i: int|
            #[trigger] came_at(mode, chunk_size, events, i, RunStep::Lock) && events[i] is Failed,
        run(mode, chunk_size, events).step == RunStep::Failed(RunError::Open) <==> exists|i: int|
            #[trigger] came_at(mode, chunk_size, events, i, RunStep::Open) && events[i] is Failed,
        run(mode, chunk_size, events).step == RunStep::Failed(RunError::Interrupted) <==> (exists|
            i: int,
        | #[trigger]
            came_at(mode, chunk_size, events, i, RunStep::PollChunk) && events[i] is Interrupted)
            || (exists|i: int| #[trigger]
            came_at(mode, chunk_size, events, i, RunStep::PollMessage) && events[i]
                is Interrupted),
    decreases events.len(),
{
    if events.len() > 0 {
        let front = events.drop_last();
        let last = events.len() - 1;
        lemma_came_at(mode, chunk_size, events);
        run_is_given_up_for_cause(mode, chunk_size, front);
        let before = run(mode, chunk_size, front).step;
        assert(came_at(mode, chunk_size, events, last, before));
        lemma_cause(mode, chunk_size, events, RunStep::Lock, RunEventView::Failed);
        lemma_cause(mode, chunk_size, events, RunStep::Open, RunEventView::Failed);
        lemma_cause(mode, chunk_size, events, RunStep::PollChunk, RunEventView::Interrupted);
        lemma_cause(mode, chunk_size, events, RunStep::PollMessage, RunEventView::Interrupted);
    }
}

/// An event came in at a step before the last event, or is the last event.
proof fn lemma_cause(
    mode: Mode,
    chunk_size: usize,
    events: Seq<RunEventView>,
    step: RunStep,
    cause: RunEventView,
)
    requires
        events.len() > 0,
    ensures
        (exists|i: int| #[trigger]
            came_at(mode, chunk_size, events, i, step) && events[i] == cause) <==> (exists|i: int|
         #[trigger]
            came_at(mode, chunk_size, events.drop_last(), i, step) && events.drop_last()[i]
                == cause) || (run(mode, chunk_size, events.drop_last()).step == step
            && events.last() == cause),
{
    let front = events.drop_last();
    let last = events.len() - 1;
    lemma_came_at(mode, chunk_size, events);
    if exists|i: int| #[trigger]
        came_at(mode, chunk_size, events, i, step) && events[i] == cause {
        let i = choose|i: int| #[trigger]
            came_at(mode, chunk_size, events, i, step) && events[i] == cause;
        if i != last {
            assert(came_at(mode, chunk_size, front, i, step) && front[i] == cause);
        }
    }
    if exists|i: int| #[trigger] came_at(mode, chunk_size, front, i, step) && front[i] == cause {
        let i = choose|i: int| #[trigger]
            came_at(mode, chunk_size, front, i, step) && front[i] == cause;
        assert(came_at(mode, chunk_size, events, i, step) && events[i] == cause);
    }
    if run(mode, chunk_size, front).step == step && events.last() == cause {
        assert(came_at(mode, chunk_size, events, last, step) && events[last] == cause);
    }
}

/// Nothing is fetched, stored or deleted before the local mailbox is locked. A chunk is fetched
/// only where the program was just seen not to have been interrupted, and a message is stored only
/// behind such a look and behind the opening of the local mailbox.
pub proof fn run_goes_in_order(mode: Mode, chunk_size: usize, events: Seq<RunEventView>)
    requires
        chunk_size > 0,
    ensures
        ({
            let step = run(mode, chunk_size, events).step;
            step is PollChunk || step is Fetch || step is PollMessage || step is Open || step is Store
                || step is Delete ==> exists|i: int| #[trigger]
                came_at(mode, chunk_size, events, i, RunStep::Lock) && events[i] is Succeeded
        }),
        ({
            let step = run(mode, chunk_size, events).step;
            let before = run(mode, chunk_size, events.drop_last()).step;
            events.len() > 0 && step != before ==> {
                &&& step is Fetch ==> before is PollChunk && events.last() is Succeeded
                &&& step is Open ==> before is PollMessage && events.last() is Succeeded
                &&& step is Store ==> before is Open && events.last() is Succeeded
            }
        }),
    decreases events.len(),
{
    if events.len() > 0 {
        let front = events.drop_last();
        run_goes_in_order(mode, chunk_size, front);
        run_stays_wf(mode, chunk_size, front);
        lemma_came_at(mode, chunk_size, events);
        lemma_cause(mode, chunk_size, events, RunStep::Lock, RunEventView::Succeeded);
    }
}

/// A search that fails or finds nothing ends the run, with nothing processed.
pub proof fn nothing_found_ends_run(
    mode: Mode,
    chunk_size: usize,
    events: Seq<RunEventView>,
    i: int,
)
    requires
        came_at(mode, chunk_size, events, i, RunStep::Search),
        events[i] is Failed || events[i] == RunEventView::Found(Seq::empty()),
    ensures
        run(mode, chunk_size, events).step == RunStep::Done(0),
    decreases events.len(),
{
    lemma_came_at(mode, chunk_size, events);
    if i < events.len() - 1 {
        assert(came_at(mode, chunk_size, events.drop_last(), i, RunStep::Search));
        nothing_found_ends_run(mode, chunk_size, events.drop_last(), i);
    }
}

/// The messages that came from the server, one chunk behind the other.
pub open spec fn all_fetched(mode: Mode, chunk_size: usize, events: Seq<RunEventView>) -> Seq<
    FetchedMessage,
>
    decreases events.len(),
{
    if events.len() == 0 {
        Seq::empty()
    } else {
        let before = all_fetched(mode, chunk_size, events.drop_last());
        match (run(mode, chunk_size, events.drop_last()).step, events.last()) {
            (RunStep::Fetch, RunEventView::Fetched(messages)) => before + messages,
            _ => before,
        }
    }
}

/// The messages that were to be stored, whatever came of it, one behind the other.
pub open spec fn all_offered(mode: Mode, chunk_size: usize, events: Seq<RunEventView>) -> Seq<
    FetchedMessage,
>
    decreases events.len(),
{
    if events.len() == 0 {
        Seq::empty()
    } else {
        let before = all_offered(mode, chunk_size, events.drop_last());
        let view = run(mode, chunk_size, events.drop_last());
        if view.step is Store && (events.last() is Stored || events.last() is Failed) {
            before.push(view.message())
        } else {
            before
        }
    }
}

/// The UIDs of the messages of which a local copy was made, or was there with the same contents,
/// one behind the other.
pub open spec fn all_copied(mode: Mode, chunk_size: usize, events: Seq<RunEventView>) -> Seq<u32>
    decreases events.len(),
{
    if events.len() == 0 {
        Seq::empty()
    } else {
        let before = all_copied(mode, chunk_size, events.drop_last());
        let view = run(mode, chunk_size, events.drop_last());
        if view.step is Store && (events.last() == RunEventView::Stored(StoreResult::Stored)
            || events.last() == RunEventView::Stored(
            StoreResult::AlreadyExists { identical: true },
        )) {
            before.push(view.message().uid)
        } else {
            before
        }
    }
}

/// Of the messages that came from the server each is to be stored, once and in their order, before
/// the next chunk is asked for; so a run that ends has tried to store all of them. Those with a
/// good copy, and no others, count as archived.
pub proof fn every_fetched_message_is_offered(
    mode: Mode,
    chunk_size: usize,
    events: Seq<RunEventView>,
)
    requires
        chunk_size > 0,
    ensures
        ({
            let view = run(mode, chunk_size, events);
            let offered = all_offered(mode, chunk_size, events);
            let fetched = all_fetched(mode, chunk_size, events);
            &&& view.step is PollChunk || view.step is Fetch || view.step is Delete || view.step
                is Done ==> offered == fetched
            &&& view.step is PollMessage || view.step is Open || view.step is Store ==> offered
                + view.messages.skip(view.handled) == fetched
            &&& view.archived == all_copied(mode, chunk_size, events)
        }),
    decreases events.len(),
{
    let view = run(mode, chunk_size, events);
    let offered = all_offered(mode, chunk_size, events);
    let fetched = all_fetched(mode, chunk_size, events);
    lemma_nothing_fetched_yet(mode, chunk_size, events);
    if events.len() > 0 {
        let front = events.drop_last();
        let before = run(mode, chunk_size, front);
        every_fetched_message_is_offered(mode, chunk_size, front);
        lemma_nothing_fetched_yet(mode, chunk_size, front);
        run_stays_wf(mode, chunk_size, front);
        if before.step is Fetch && events.last() is Fetched {
            let messages = events.last()->Fetched_0;
            assert(messages.skip(0) =~= messages);
            assert(messages.len() == 0 ==> fetched =~= offered);
        } else if before.step is Store && (events.last() is Stored || events.last() is Failed) {
            let rest = before.messages.skip(before.handled);
            assert(rest[0] == before.message());
            let behind = before.messages.skip(before.handled + 1);
            assert(rest =~= seq![before.message()] + behind);
            assert(all_offered(mode, chunk_size, front) + rest =~= offered + behind);
            assert(before.handled + 1 == before.messages.len() ==> offered + behind =~= offered);
        }
    }
}

/// Before the first chunk nothing was fetched, and nothing was to be stored.
proof fn lemma_nothing_fetched_yet(mode: Mode, chunk_size: usize, events: Seq<RunEventView>)
    ensures
        run(mode, chunk_size, events).step is Search || run(mode, chunk_size, events).step is Lock
            ==> all_fetched(mode, chunk_size, events) == Seq::<FetchedMessage>::empty()
            && all_offered(mode, chunk_size, events) == Seq::<FetchedMessage>::empty(),
    decreases events.len(),
{
    if events.len() > 0 {
        lemma_nothing_fetched_yet(mode, chunk_size, events.drop_last());
    }
}

/// Where every message that was to be stored got a good copy, all messages that came from the
/// server count as archived at the end, in their order.
pub proof fn all_good_copies_are_archived(
    mode: Mode,
    chunk_size: usize,
    events: Seq<RunEventView>,
)
    requires
        chunk_size > 0,
        run(mode, chunk_size, events).step is Delete || run(mode, chunk_size, events).step is Done,
        forall|i: int| #[trigger]
            came_at(mode, chunk_size, events, i, RunStep::Store) ==> events[i]
                == RunEventView::Stored(StoreResult::Stored) || events[i] == RunEventView::Stored(
                StoreResult::AlreadyExists { identical: true },
            ),
    ensures
        run(mode, chunk_size, events).archived == all_fetched(mode, chunk_size, events).map_values(
            |m: FetchedMessage| m.uid,
        ),
{
    every_fetched_message_is_offered(mode, chunk_size, events);
    lemma_good_copies(mode, chunk_size, events);
}

proof fn lemma_good_copies(mode: Mode, chunk_size: usize, events: Seq<RunEventView>)
    requires
        forall|i: int| #[trigger]
            came_at(mode, chunk_size, events, i, RunStep::Store) ==> events[i]
                == RunEventView::Stored(StoreResult::Stored) || events[i] == RunEventView::Stored(
                StoreResult::AlreadyExists { identical: true },
            ),
    ensures
        all_copied(mode, chunk_size, events) == all_offered(mode, chunk_size, events).map_values(
            |m: FetchedMessage| m.uid,
        ),
    decreases events.len(),
{
    let uid = |m: FetchedMessage| m.uid;
    if events.len() > 0 {
        let front = events.drop_last();
        let last = events.len() - 1;
        lemma_came_at(mode, chunk_size, events);
        assert forall|i: int| #[trigger]
            came_at(mode, chunk_size, front, i, RunStep::Store) implies front[i]
            == RunEventView::Stored(StoreResult::Stored) || front[i] == RunEventView::Stored(
            StoreResult::AlreadyExists { identical: true },
        ) by {
            assert(came_at(mode, chunk_size, events, i, RunStep::Store));
        }
        lemma_good_copies(mode, chunk_size, front);
        let view = run(mode, chunk_size, front);
        if view.step is Store {
            assert(came_at(mode, chunk_size, events, last, RunStep::Store));
            assert(events[last] == events.last());
            assert(all_offered(mode, chunk_size, events).map_values(uid) =~= all_offered(
                mode,
                chunk_size,
                front,
            ).map_values(uid).push(view.message().uid));
        }
    }
    assert(all_copied(mode, chunk_size, events) =~= all_offered(
        mode,
        chunk_size,
        events,
    ).map_values(uid));
}

/// A mailbox on a server where nothing goes wrong.
pub struct Undisturbed {
    /// The messages that the search finds.
    pub uids: Seq<u32>,
    /// The message with a UID.
    pub message: spec_fn(u32) -> FetchedMessage,
    /// Whether the message with a UID gets a good local copy.
    pub good: spec_fn(u32) -> bool,
}

impl Undisturbed {
    /// What comes of a step. The server sends the messages that it is asked for.
    pub open spec fn reply(self, view: MailboxRunView) -> RunEventView {
        match view.step {
            RunStep::Search => RunEventView::Found(self.uids),
            RunStep::Fetch => RunEventView::Fetched(view.chunk().map_values(self.message)),
            RunStep::Store => if (self.good)(view.message().uid) {
                RunEventView::Stored(StoreResult::Stored)
            } else {
                RunEventView::Failed
            },
            _ => RunEventView::Succeeded,
        }
    }

    /// What the run is like behind `n` more steps.
    pub open spec fn after(self, view: MailboxRunView, n: nat) -> MailboxRunView
        decreases n,
    {
        if n == 0 {
            view
        } else {
            self.after(view.next(self.reply(view)), (n - 1) as nat)
        }
    }

    /// The run comes from `view` to `target`.
    pub open spec fn leads(self, view: MailboxRunView, target: MailboxRunView) -> bool {
        exists|n: nat| #[trigger] self.after(view, n) == target
    }
}

proof fn lemma_after_both(server: Undisturbed, view: MailboxRunView, n: nat, m: nat)
    ensures
        server.after(view, n + m) == server.after(server.after(view, n), m),
    decreases n,
{
    if n > 0 {
        lemma_after_both(server, view.next(server.reply(view)), (n - 1) as nat, m);
    }
}

proof fn lemma_leads_on(
    server: Undisturbed,
    view: MailboxRunView,
    between: MailboxRunView,
    target: MailboxRunView,
)
    requires
        server.leads(view, between),
        server.leads(between, target),
    ensures
        server.leads(view, target),
{
    let n = choose|n: nat| #[trigger] server.after(view, n) == between;
    let m = choose|m: nat| #[trigger] server.after(between, m) == target;
    lemma_after_both(server, view, n, m);
    assert(server.after(view, n + m) == target);
}

/// The messages of a chunk are stored one behind the other.
proof fn lemma_chunk_is_stored(server: Undisturbed, view: MailboxRunView)
    requires
        view.wf(),
        forall|u: u32| (#[trigger] (server.message)(u)).uid == u,
        view == view.at_message(),
    ensures
        ({
            let rest = view.messages.skip(view.handled).map_values(|m: FetchedMessage| m.uid);
            let end = MailboxRunView {
                handled: view.messages.len() as int,
                archived: view.archived + rest.filter(server.good),
                ..view
            };
            server.leads(view, end.at_chunk())
        }),
    decreases view.messages.len() - view.handled,
{
    reveal(Seq::filter);
    let uid = |m: FetchedMessage| m.uid;
    let rest = view.messages.skip(view.handled).map_values(uid);
    let end = MailboxRunView {
        handled: view.messages.len() as int,
        archived: view.archived + rest.filter(server.good),
        ..view
    };
    if view.handled == view.messages.len() {
        assert(rest =~= Seq::<u32>::empty());
        assert(end.archived =~= view.archived);
        assert(server.after(view, 0) == end.at_chunk());
    } else {
        let opened = view.next(RunEventView::Succeeded);
        let ready = opened.next(RunEventView::Succeeded);
        let first = view.message().uid;
        let stored = ready.next(server.reply(ready));
        assert(ready.message() == view.message());
        assert(server.reply(view) == RunEventView::Succeeded);
        assert(server.reply(opened) == RunEventView::Succeeded);
        reveal_with_fuel(Undisturbed::after, 4);
        assert(server.after(view, 3) == stored);
        assert(server.leads(view, stored));
        assert(stored.wf());
        assert(stored == stored.at_message());
        lemma_chunk_is_stored(server, stored);
        let behind = stored.messages.skip(stored.handled).map_values(uid);
        assert(rest =~= seq![first] + behind);
        lemma_filter_first(first, behind, server.good);
        let stored_end = MailboxRunView {
            handled: stored.messages.len() as int,
            archived: stored.archived + behind.filter(server.good),
            ..stored
        };
        assert(stored_end.archived =~= end.archived);
        assert(stored_end.at_chunk() == end.at_chunk());
        lemma_leads_on(server, view, stored, end.at_chunk());
    }
}

/// What one more element at the start adds to what a filter keeps.
proof fn lemma_filter_first<A>(first: A, rest: Seq<A>, keep: spec_fn(A) -> bool)
    ensures
        (seq![first] + rest).filter(keep) == if keep(first) {
            seq![first] + rest.filter(keep)
        } else {
            rest.filter(keep)
        },
    decreases rest.len(),
{
    reveal(Seq::filter);
    let whole = seq![first] + rest;
    if rest.len() == 0 {
        assert(whole.drop_last() =~= Seq::<A>::empty());
        assert(rest =~= Seq::<A>::empty());
        assert(whole.last() == first);
        assert(Seq::<A>::empty().filter(keep) =~= Seq::<A>::empty());
        assert(whole.filter(keep) =~= if keep(first) {
            seq![first]
        } else {
            Seq::empty()
        });
        assert(seq![first] + Seq::<A>::empty() =~= seq![first]);
    } else {
        lemma_filter_first(first, rest.drop_last(), keep);
        assert(whole.drop_last() =~= seq![first] + rest.drop_last());
        assert(whole.last() == rest.last());
        assert(whole.filter(keep) =~= if keep(first) {
            seq![first] + rest.filter(keep)
        } else {
            rest.filter(keep)
        });
    }
}

/// The chunks are fetched and stored one behind the other.
proof fn lemma_chunks_are_stored(server: Undisturbed, view: MailboxRunView)
    requires
        view.wf(),
        forall|u: u32| (#[trigger] (server.message)(u)).uid == u,
        view.handled == view.messages.len(),
        view == view.at_chunk(),
    ensures
        exists|end: MailboxRunView|
            {
                &&& #[trigger] server.leads(view, end)
                &&& end.step == RunStep::Done(end.archived.len() as usize)
                &&& end.archived == view.archived + view.uids.skip(view.asked).filter(server.good)
                &&& end.uids == view.uids
            },
    decreases view.uids.len() - view.asked,
{
    reveal_with_fuel(Undisturbed::after, 3);
    if view.asked == view.uids.len() {
        assert(view.uids.skip(view.asked) =~= Seq::<u32>::empty());
        reveal(Seq::filter);
        assert(view.archived + Seq::<u32>::empty().filter(server.good) =~= view.archived);
        if view.mode is Move {
            let end = view.next(RunEventView::Succeeded);
            assert(server.after(view, 1) == end);
            assert(server.leads(view, end));
        } else {
            assert(server.after(view, 0) == view);
            assert(server.leads(view, view));
        }
    } else {
        let uid = |m: FetchedMessage| m.uid;
        let polled = view.next(RunEventView::Succeeded);
        let messages = polled.chunk().map_values(server.message);
        let fetched = polled.next(RunEventView::Fetched(messages));
        assert(server.after(view, 2) == fetched);
        assert(server.leads(view, fetched));
        assert(fetched.wf());
        let stored = MailboxRunView {
            handled: messages.len() as int,
            archived: view.archived + messages.map_values(uid).filter(server.good),
            ..fetched
        };
        assert(messages.skip(0) =~= messages);
        lemma_chunk_is_stored(server, fetched);
        let start = stored.at_chunk();
        lemma_leads_on(server, view, fetched, start);
        assert(messages.map_values(uid) =~= view.chunk());
        lemma_chunks_are_stored(server, start);
        let end = choose|end: MailboxRunView|
            {
                &&& #[trigger] server.leads(start, end)
                &&& end.step == RunStep::Done(end.archived.len() as usize)
                &&& end.archived == start.archived + start.uids.skip(start.asked).filter(
                    server.good,
                )
                &&& end.uids == start.uids
            };
        lemma_leads_on(server, view, start, end);
        assert(view.uids.skip(view.asked) =~= view.chunk() + view.uids.skip(start.asked));
        lemma_filter_parts(view.chunk(), view.uids.skip(start.asked), server.good);
        assert(end.archived =~= view.archived + view.uids.skip(view.asked).filter(server.good));
    }
}

/// A run in which nothing goes wrong but the storing of some messages ends by itself. What is
/// archived then, and counted, are all messages that the search found and that got good copies, in
/// their order, however large a chunk is.
pub proof fn undisturbed_run_archives_all(mode: Mode, chunk_size: usize, server: Undisturbed)
    requires
        chunk_size > 0,
        forall|u: u32| (#[trigger] (server.message)(u)).uid == u,
    ensures
        exists|end: MailboxRunView|
            {
                &&& #[trigger] server.leads(first_run(mode, chunk_size), end)
                &&& end.archived == server.uids.filter(server.good)
                &&& end.step == RunStep::Done(end.archived.len() as usize)
            },
{
    reveal_with_fuel(Undisturbed::after, 3);
    reveal(Seq::filter);
    let first = first_run(mode, chunk_size);
    let found = first.next(RunEventView::Found(server.uids));
    if server.uids.len() == 0 {
        assert(server.after(first, 1) == found);
        assert(server.leads(first, found));
        assert(found.archived =~= server.uids.filter(server.good));
    } else {
        let start = found.next(RunEventView::Succeeded);
        assert(server.after(first, 2) == start);
        assert(server.leads(first, start));
        lemma_chunks_are_stored(server, start);
        let end = choose|end: MailboxRunView|
            {
                &&& #[trigger] server.leads(start, end)
                &&& end.step == RunStep::Done(end.archived.len() as usize)
                &&& end.archived == start.archived + start.uids.skip(start.asked).filter(
                    server.good,
                )
                &&& end.uids == start.uids
            };
        lemma_leads_on(server, first, start, end);
        assert(start.uids.skip(0) =~= server.uids);
        assert(end.archived =~= server.uids.filter(server.good));
    }
}

/// Why the run through the mailboxes was given up.
#[derive(Debug, Clone, Copy, PartialEq, Eq, Structural)]
pub enum ClientError {
    /// The mailboxes cannot be listed.
    List,
    /// The archiving of a mailbox was given up.
    Mailbox,
    /// The program was interrupted.
    Interrupted,
}

/// What to do next to archive the messages of all mailboxes.
#[derive(Debug, Clone, Copy, PartialEq, Eq, Structural)]
pub enum ClientStep {
    /// List the mailboxes.
    List,
    /// See whether the program was interrupted, before the next mailbox.
    Poll,
    /// Select the mailbox.
    Select,
    /// Archive the messages of the mailbox.
    Process,
    /// Nothing. The server has no mailboxes.
    NoMailboxes,
    /// Nothing. So many messages were processed.
    Done(usize),
    /// Nothing. The run was given up.
    Failed(ClientError),
}

/// What came of a step.
pub enum ClientEvent {
    Succeeded,
    Failed,
    /// The program was interrupted.
    Interrupted,
    /// These are the mailboxes of the server.
    Listed(Vec<MailboxInfo>),
    /// So many messages of the mailbox were processed.
    Processed(usize),
}

/// What a [`ClientEvent`] says.
pub enum ClientEventView {
    Succeeded,
    Failed,
    Interrupted,
    Listed(Seq<MailboxInfoView>),
    Processed(usize),
}

impl View for ClientEvent {
    type V = ClientEventView;

    open spec fn view(&self) -> ClientEventView {
        match *self {
            ClientEvent::Succeeded => ClientEventView::Succeeded,
            ClientEvent::Failed => ClientEventView::Failed,
            ClientEvent::Interrupted => ClientEventView::Interrupted,
            ClientEvent::Listed(mailboxes) => ClientEventView::Listed(info_views(mailboxes@)),
            ClientEvent::Processed(count) => ClientEventView::Processed(count),
        }
    }
}

/// What a [`ClientRun`] says.
pub struct ClientRunView {
    /// The names of the mailboxes to skip.
    pub skip: Seq<Seq<char>>,
    pub mailboxes: Seq<MailboxInfoView>,
    /// So many mailboxes have been dealt with.
    pub handled: int,
    /// So many messages were processed.
    pub total: int,
    pub step: ClientStep,
}

impl ClientRunView {
    pub open spec fn at(self, step: ClientStep) -> Self {
        ClientRunView { step, ..self }
    }

    /// The mailbox that is next.
    pub open spec fn mailbox(self) -> MailboxInfoView {
        self.mailboxes[self.handled]
    }

    /// The mailbox that is next is not archived.
    pub open spec fn is_skipped(self) -> bool {
        self.skip.contains(self.mailbox().name)
    }

    /// The mailbox has been dealt with, and so many messages of it were processed.
    pub open spec fn passed(self, count: int) -> Self {
        let view = ClientRunView { handled: self.handled + 1, total: self.total + count, ..self };
        view.at(
            if view.handled < view.mailboxes.len() {
                ClientStep::Poll
            } else {
                ClientStep::Done(view.total as usize)
            },
        )
    }

    /// What the run is like after `event`.
    pub open spec fn next(self, event: ClientEventView) -> Self {
        match (self.step, event) {
            (ClientStep::List, ClientEventView::Listed(mailboxes)) => if mailboxes.len() == 0 {
                self.at(ClientStep::NoMailboxes)
            } else {
                (ClientRunView { mailboxes, ..self }).at(ClientStep::Poll)
            },
            (ClientStep::List, ClientEventView::Failed) => self.at(
                ClientStep::Failed(ClientError::List),
            ),
            (ClientStep::Poll, ClientEventView::Succeeded) => if self.is_skipped() {
                self.passed(0)
            } else {
                self.at(ClientStep::Select)
            },
            (ClientStep::Poll, ClientEventView::Interrupted) => self.at(
                ClientStep::Failed(ClientError::Interrupted),
            ),
            (ClientStep::Select, ClientEventView::Succeeded) => self.at(ClientStep::Process),
            (ClientStep::Select, ClientEventView::Failed) => self.passed(0),
            (ClientStep::Process, ClientEventView::Processed(count)) => self.passed(count as int),
            (ClientStep::Process, ClientEventView::Failed) => self.at(
                ClientStep::Failed(ClientError::Mailbox),
            ),
            _ => self,
        }
    }

    /// What holds at every step.
    pub open spec fn wf(self) -> bool {
        &&& 0 <= self.handled <= self.mailboxes.len()
        &&& 0 <= self.total
        &&& self.step is List ==> self.handled == 0 && self.total == 0
        &&& self.step is Poll || self.step is Select || self.step is Process ==> self.handled
            < self.mailboxes.len()
        &&& self.step is Select || self.step is Process ==> !self.is_skipped()
        &&& self.step is Done ==> self.handled == self.mailboxes.len()
    }
}

/// The run at its start.
pub open spec fn first_client_run(skip: Seq<Seq<char>>) -> ClientRunView {
    ClientRunView {
        skip,
        mailboxes: Seq::empty(),
        handled: 0,
        total: 0,
        step: ClientStep::List,
    }
}

/// The archiving of the messages of all mailboxes.
pub struct ClientRun<'a> {
    config: &'a Config,
    mailboxes: Vec<MailboxInfo>,
    handled: usize,
    total: usize,
    step: ClientStep,
}

impl<'a> View for ClientRun<'a> {
    type V = ClientRunView;

    closed spec fn view(&self) -> ClientRunView {
        ClientRunView {
            skip: self.config@.archive.skip_mailboxes,
            mailboxes: info_views(self.mailboxes@),
            handled: self.handled as int,
            total: self.total as int,
            step: self.step,
        }
    }
}

impl<'a> ClientRun<'a> {
    /// What the run is configured to do.
    pub closed spec fn config(&self) -> ConfigView {
        self.config@
    }

    /// Archive the messages of all mailboxes, but of those that the configuration excludes.
    pub fn handle_client(config: &'a Config) -> (res: Self)
        ensures
            res@ == first_client_run(config@.archive.skip_mailboxes),
            res.config() == config@,
            res@.wf(),
    {
        let res = ClientRun {
            config,
            mailboxes: Vec::new(),
            handled: 0,
            total: 0,
            step: ClientStep::List,
        };
        assert(info_views(res.mailboxes@) =~= Seq::empty());
        res
    }

    /// What to do next.
    pub fn step(&self) -> (res: ClientStep)
        ensures
            res == self@.step,
    {
        self.step
    }

    /// The mailboxes of the server.
    pub fn mailboxes(&self) -> (res: &Vec<MailboxInfo>)
        ensures
            info_views(res@) == self@.mailboxes,
    {
        &self.mailboxes
    }

    /// So many messages were processed so far.
    pub fn total(&self) -> (res: usize)
        ensures
            res == self@.total,
    {
        self.total
    }

    /// The mailbox to deal with.
    pub fn mailbox(&self) -> (res: &MailboxInfo)
        requires
            self@.wf(),
            self@.step is Poll || self@.step is Select || self@.step is Process,
        ensures
            res@ == self@.mailbox(),
    {
        &self.mailboxes[self.handled]
    }

    /// The local directory of the mailbox to deal with.
    pub fn local_dir(&self) -> (res: String)
        requires
            self@.wf(),
            self@.step is Poll || self@.step is Select || self@.step is Process,
        ensures
            ({
                let mailbox = self@.mailbox();
                res@ == path_of(self.config(), mailbox.name, mailbox.delimiter)
            }),
    {
        let mailbox = self.mailbox();
        mailbox_path(self.config, mailbox.name.as_str(), mailbox.delimiter)
    }

    /// Whether the configuration excludes the mailbox to deal with.
    pub fn is_skipped(&self) -> (res: bool)
        requires
            self@.wf(),
            self@.step is Poll || self@.step is Select || self@.step is Process,
        ensures
            res == self@.is_skipped(),
    {
        let name = &self.mailbox().name;
        let skip = self.config.archive().skip_mailboxes();
        let ghost names = self@.skip;
        let mut i: usize = 0;
        while i < skip.len()
            invariant
                i <= skip.len(),
                names == views(skip@),
                names == self@.skip,
                name@ == self@.mailboxes[self@.handled].name,
                forall|k: int| 0 <= k < i ==> #[trigger] names[k] != name@,
            decreases skip.len() - i,
        {
            assert(names[i as int] == skip@[i as int]@);
            if skip[i] == *name {
                return true;
            }
            i += 1;
        }
        false
    }

    fn passed(&mut self, count: usize)
        requires
            old(self)@.wf(),
            old(self)@.handled < old(self)@.mailboxes.len(),
            old(self)@.total + count <= usize::MAX,
        ensures
            final(self)@ == old(self)@.passed(count as int),
            final(self).config() == old(self).config(),
    {
        assert(self.handled < self.mailboxes.len());
        self.handled = self.handled + 1;
        self.total = self.total + count;
        self.step =
        if self.handled < self.mailboxes.len() {
            ClientStep::Poll
        } else {
            ClientStep::Done(self.total)
        };
    }

    /// Takes note of what came of the step, and so moves on to the next one.
    pub fn on(&mut self, event: ClientEvent)
        requires
            old(self)@.wf(),
            old(self)@.step is Process ==> (event matches ClientEvent::Processed(count) ==> old(
                self,
            )@.total + count <= usize::MAX),
        ensures
            final(self)@ == old(self)@.next(event@),
            final(self)@.wf(),
            final(self).config() == old(self).config(),
    {
        match (self.step, event) {
            (ClientStep::List, ClientEvent::Listed(mailboxes)) => {
                if mailboxes.len() == 0 {
                    self.step = ClientStep::NoMailboxes;
                } else {
                    self.mailboxes = mailboxes;
                    self.step = ClientStep::Poll;
                }
            },
            (ClientStep::List, ClientEvent::Failed) => {
                self.step = ClientStep::Failed(ClientError::List);
            },
            (ClientStep::Poll, ClientEvent::Succeeded) => {
                if self.is_skipped() {
                    self.passed(0);
                } else {
                    self.step = ClientStep::Select;
                }
            },
            (ClientStep::Poll, ClientEvent::Interrupted) => {
                self.step = ClientStep::Failed(ClientError::Interrupted);
            },
            (ClientStep::Select, ClientEvent::Succeeded) => {
                self.step = ClientStep::Process;
            },
            (ClientStep::Select, ClientEvent::Failed) => {
                self.passed(0);
            },
            (ClientStep::Process, ClientEvent::Processed(count)) => {
                self.passed(count);
            },
            (ClientStep::Process, ClientEvent::Failed) => {
                self.step = ClientStep::Failed(ClientError::Mailbox);
            },
            _ => {},
        }
    }
}

/// What the run is like after `events`, from the start.
pub open spec fn client_run(skip: Seq<Seq<char>>, events: Seq<ClientEventView>) -> ClientRunView
    decreases events.len(),
{
    if events.len() == 0 {
        first_client_run(skip)
    } else {
        client_run(skip, events.drop_last()).next(events.last())
    }
}

/// What holds at every step holds whatever comes in.
pub proof fn client_run_stays_wf(skip: Seq<Seq<char>>, events: Seq<ClientEventView>)
    ensures
        client_run(skip, events).wf(),
        client_run(skip, events).skip == skip,
    decreases events.len(),
{
    if events.len() > 0 {
        client_run_stays_wf(skip, events.drop_last());
    }
}

/// What a run ended with stays, whatever comes in.
pub proof fn client_run_end_is_final(view: ClientRunView, event: ClientEventView)
    requires
        view.step is NoMailboxes || view.step is Done || view.step is Failed,
    ensures
        view.next(event) == view,
{
}

/// Of the first `n` mailboxes those to archive.
pub open spec fn wanted(mailboxes: Seq<MailboxInfoView>, skip: Seq<Seq<char>>, n: int) -> Seq<
    MailboxInfoView,
> {
    mailboxes.take(n).filter(|m: MailboxInfoView| !skip.contains(m.name))
}

/// The mailboxes that were to be selected, whether or not they could be.
pub open spec fn selected(skip: Seq<Seq<char>>, events: Seq<ClientEventView>) -> Seq<
    MailboxInfoView,
>
    decreases events.len(),
{
    if events.len() == 0 {
        Seq::empty()
    } else {
        let before = selected(skip, events.drop_last());
        let view = client_run(skip, events.drop_last());
        if view.step is Select && (events.last() is Succeeded || events.last() is Failed) {
            before.push(view.mailbox())
        } else {
            before
        }
    }
}

/// The number of messages that were processed, one mailbox after the other.
pub open spec fn processed(skip: Seq<Seq<char>>, events: Seq<ClientEventView>) -> int
    decreases events.len(),
{
    if events.len() == 0 {
        0
    } else {
        let before = processed(skip, events.drop_last());
        match (client_run(skip, events.drop_last()).step, events.last()) {
            (ClientStep::Process, ClientEventView::Processed(count)) => before + count,
            _ => before,
        }
    }
}

/// A run that ends has gone through the mailboxes in the order in which they were listed. It has
/// selected each once, but for those that the configuration excludes: of these none is selected,
/// so none is archived. A mailbox that cannot be selected does not keep the next from its turn.
/// The total is that of all mailboxes.
pub proof fn all_mailboxes_had_their_turn(skip: Seq<Seq<char>>, events: Seq<ClientEventView>)
    ensures
        ({
            let view = client_run(skip, events);
            &&& view.step is Done ==> selected(skip, events) == wanted(
                view.mailboxes,
                skip,
                view.mailboxes.len() as int,
            )
            &&& view.step is Select || view.step is Process ==> !skip.contains(view.mailbox().name)
            &&& view.total == processed(skip, events)
            &&& view.step matches ClientStep::Done(n) ==> n == processed(skip, events) as usize
        }),
    decreases events.len(),
{
    lemma_selected(skip, events);
    client_run_stays_wf(skip, events);
    if events.len() > 0 {
        all_mailboxes_had_their_turn(skip, events.drop_last());
    }
}

/// At every step the mailboxes that were selected are those to archive that have been dealt with,
/// and the one that is being archived.
proof fn lemma_selected(skip: Seq<Seq<char>>, events: Seq<ClientEventView>)
    ensures
        ({
            let view = client_run(skip, events);
            !(view.step is Failed) ==> selected(skip, events) == wanted(
                view.mailboxes,
                skip,
                view.handled + if view.step is Process {
                    1int
                } else {
                    0
                },
            )
        }),
    decreases events.len(),
{
    reveal(Seq::filter);
    client_run_stays_wf(skip, events);
    let view = client_run(skip, events);
    if events.len() == 0 {
        assert(wanted(view.mailboxes, skip, 0) =~= Seq::empty());
    } else {
        let front = events.drop_last();
        let before = client_run(skip, front);
        lemma_selected(skip, front);
        client_run_stays_wf(skip, front);
        if before.step is List {
            assert(before.mailboxes.take(0) =~= view.mailboxes.take(0));
        } else if !(before.step is Failed) && before.handled < before.mailboxes.len() {
            let longer = before.mailboxes.take(before.handled + 1);
            assert(longer.drop_last() =~= before.mailboxes.take(before.handled));
            assert(longer.last() == before.mailboxes[before.handled]);
        }
    }
}

/// What can come of a step.
pub open spec fn is_client_reply(step: ClientStep, event: ClientEventView) -> bool {
    match step {
        ClientStep::List => event is Listed || event is Failed,
        ClientStep::Poll => event is Succeeded || event is Interrupted,
        ClientStep::Select => event is Succeeded || event is Failed,
        ClientStep::Process => event is Processed || event is Failed,
        ClientStep::NoMailboxes | ClientStep::Done(_) | ClientStep::Failed(_) => false,
    }
}

/// Whatever comes of a step, the run goes on: to another step, or past a mailbox. What cannot come
/// of it changes nothing.
pub proof fn every_reply_moves_the_client_run(view: ClientRunView, event: ClientEventView)
    requires
        view.wf(),
    ensures
        is_client_reply(view.step, event) ==> view.next(event).step != view.step || view.next(
            event,
        ).handled == view.handled + 1,
        !is_client_reply(view.step, event) ==> view.next(event) == view,
{
}

/// Event `i` came in at `step`.
pub open spec fn client_came_at(
    skip: Seq<Seq<char>>,
    events: Seq<ClientEventView>,
    i: int,
    step: ClientStep,
) -> bool {
    0 <= i < events.len() && client_run(skip, events.take(i)).step == step
}

/// What came in at a step before the last event still did.
proof fn lemma_client_came_at(skip: Seq<Seq<char>>, events: Seq<ClientEventView>)
    requires
        events.len() > 0,
    ensures
        events.take(events.len() - 1) == events.drop_last(),
        forall|i: int, step: ClientStep|
            i != events.len() - 1 ==> #[trigger] client_came_at(skip, events, i, step)
                == client_came_at(skip, events.drop_last(), i, step),
        forall|i: int, step: ClientStep| #[trigger]
            client_came_at(skip, events.drop_last(), i, step) ==> client_came_at(
                skip,
                events,
                i,
                step,
            ) && events[i] == events.drop_last()[i],
{
    let front = events.drop_last();
    assert(events.take(events.len() - 1) =~= front);
    assert forall|i: int, step: ClientStep| i != events.len() - 1 implies #[trigger] client_came_at(
        skip,
        events,
        i,
        step,
    ) == client_came_at(skip, front, i, step) by {
        if 0 <= i < front.len() {
            assert(front.take(i) =~= events.take(i));
        }
    }
    assert forall|i: int, step: ClientStep| #[trigger]
        client_came_at(skip, front, i, step) implies client_came_at(skip, events, i, step)
        && events[i] == front[i] by {
        assert(front.take(i) =~= events.take(i));
    }
}

/// The run goes through the mailboxes that the server listed, all of them and in its order. Only
/// for none does it end without a count.
pub proof fn run_is_over_what_was_listed(
    skip: Seq<Seq<char>>,
    events: Seq<ClientEventView>,
    i: int,
)
    requires
        client_came_at(skip, events, i, ClientStep::List),
        events[i] is Listed,
    ensures
        client_run(skip, events).mailboxes == events[i]->Listed_0,
        client_run(skip, events).step is NoMailboxes <==> events[i]->Listed_0.len() == 0,
        !(client_run(skip, events).step is List),
    decreases events.len(),
{
    lemma_client_came_at(skip, events);
    lemma_list_has_no_mailboxes(skip, events.drop_last());
    if i < events.len() - 1 {
        assert(client_came_at(skip, events.drop_last(), i, ClientStep::List));
        run_is_over_what_was_listed(skip, events.drop_last(), i);
    } else {
        assert(events.last() == events[i]);
        assert(events[i]->Listed_0.len() == 0 ==> events[i]->Listed_0 =~= Seq::<
            MailboxInfoView,
        >::empty());
    }
}

proof fn lemma_list_has_no_mailboxes(skip: Seq<Seq<char>>, events: Seq<ClientEventView>)
    ensures
        client_run(skip, events).step is List ==> client_run(skip, events).mailboxes == Seq::<
            MailboxInfoView,
        >::empty(),
    decreases events.len(),
{
    if events.len() > 0 {
        lemma_list_has_no_mailboxes(skip, events.drop_last());
    }
}

/// An event came in at a step before the last event, or is the last event.
proof fn lemma_client_cause(
    skip: Seq<Seq<char>>,
    events: Seq<ClientEventView>,
    step: ClientStep,
    cause: ClientEventView,
)
    requires
        events.len() > 0,
    ensures
        (exists|i: int| #[trigger]
            client_came_at(skip, events, i, step) && events[i] == cause) <==> (exists|i: int|
         #[trigger]
            client_came_at(skip, events.drop_last(), i, step) && events.drop_last()[i] == cause)
            || (client_run(skip, events.drop_last()).step == step && events.last() == cause),
{
    let front = events.drop_last();
    let last = events.len() - 1;
    lemma_client_came_at(skip, events);
    if exists|i: int| #[trigger] client_came_at(skip, events, i, step) && events[i] == cause {
        let i = choose|i: int| #[trigger]
            client_came_at(skip, events, i, step) && events[i] == cause;
        if i != last {
            assert(client_came_at(skip, front, i, step) && front[i] == cause);
        }
    }
    if exists|i: int| #[trigger] client_came_at(skip, front, i, step) && front[i] == cause {
        let i = choose|i: int| #[trigger] client_came_at(skip, front, i, step) && front[i] == cause;
        assert(client_came_at(skip, events, i, step) && events[i] == cause);
    }
    if client_run(skip, front).step == step && events.last() == cause {
        assert(client_came_at(skip, events, last, step) && events[last] == cause);
    }
}

/// The run is given up exactly for a cause: the mailboxes could not be listed, the archiving of one
/// was given up, or the program was interrupted. That a mailbox cannot be selected is no cause.
pub proof fn client_run_is_given_up_for_cause(skip: Seq<Seq<char>>, events: Seq<ClientEventView>)
    ensures
        client_run(skip, events).step == ClientStep::Failed(ClientError::List) <==> exists|i: int|
            #[trigger] client_came_at(skip, events, i, ClientStep::List) && events[i] is Failed,
        client_run(skip, events).step == ClientStep::Failed(ClientError::Mailbox) <==> exists|
            i: int,
        | #[trigger] client_came_at(skip, events, i, ClientStep::Process) && events[i] is Failed,
        client_run(skip, events).step == ClientStep::Failed(ClientError::Interrupted) <==> exists|
            i: int,
        | #[trigger] client_came_at(skip, events, i, ClientStep::Poll) && events[i] is Interrupted,
    decreases events.len(),
{
    if events.len() > 0 {
        client_run_is_given_up_for_cause(skip, events.drop_last());
        lemma_client_cause(skip, events, ClientStep::List, ClientEventView::Failed);
        lemma_client_cause(skip, events, ClientStep::Process, ClientEventView::Failed);
        lemma_client_cause(skip, events, ClientStep::Poll, ClientEventView::Interrupted);
    }
}

/// A mailbox is selected only where the program was just seen not to have been interrupted, and
/// archived only where it was just selected.
pub proof fn client_run_goes_in_order(skip: Seq<Seq<char>>, events: Seq<ClientEventView>)
    requires
        events.len() > 0,
        client_run(skip, events).step != client_run(skip, events.drop_last()).step,
    ensures
        ({
            let step = client_run(skip, events).step;
            let before = client_run(skip, events.drop_last());
            &&& step is Select || step is Process ==> events.last() is Succeeded && before.mailbox()
                == client_run(skip, events).mailbox()
            &&& step is Select ==> before.step is Poll
            &&& step is Process ==> before.step is Select
        }),
{
}

/// The mailboxes that were selected, one behind the other.
pub open spec fn chosen(skip: Seq<Seq<char>>, events: Seq<ClientEventView>) -> Seq<MailboxInfoView>
    decreases events.len(),
{
    if events.len() == 0 {
        Seq::empty()
    } else {
        let before = chosen(skip, events.drop_last());
        let view = client_run(skip, events.drop_last());
        if view.step is Select && events.last() is Succeeded {
            before.push(view.mailbox())
        } else {
            before
        }
    }
}

/// The mailboxes whose messages were archived, one behind the other.
pub open spec fn finished(skip: Seq<Seq<char>>, events: Seq<ClientEventView>) -> Seq<
    MailboxInfoView,
>
    decreases events.len(),
{
    if events.len() == 0 {
        Seq::empty()
    } else {
        let before = finished(skip, events.drop_last());
        let view = client_run(skip, events.drop_last());
        if view.step is Process && events.last() is Processed {
            before.push(view.mailbox())
        } else {
            before
        }
    }
}

/// Every mailbox that was selected is archived before the next one has its turn, and no other is.
/// So a run that ends has archived exactly the mailboxes that were selected, in their order.
pub proof fn every_selected_mailbox_is_archived(
    skip: Seq<Seq<char>>,
    events: Seq<ClientEventView>,
)
    ensures
        ({
            let view = client_run(skip, events);
            &&& view.step is Poll || view.step is Select || view.step is Done ==> finished(
                skip,
                events,
            ) == chosen(skip, events)
            &&& view.step is Process ==> finished(skip, events).push(view.mailbox()) == chosen(
                skip,
                events,
            )
        }),
    decreases events.len(),
{
    lemma_nothing_chosen_yet(skip, events);
    if events.len() > 0 {
        every_selected_mailbox_is_archived(skip, events.drop_last());
        lemma_nothing_chosen_yet(skip, events.drop_last());
        client_run_stays_wf(skip, events.drop_last());
    }
}

proof fn lemma_nothing_chosen_yet(skip: Seq<Seq<char>>, events: Seq<ClientEventView>)
    ensures
        client_run(skip, events).step is List ==> chosen(skip, events) == Seq::<
            MailboxInfoView,
        >::empty() && finished(skip, events) == Seq::<MailboxInfoView>::empty(),
    decreases events.len(),
{
    if events.len() > 0 {
        lemma_nothing_chosen_yet(skip, events.drop_last());
    }
}

/// A server where nothing goes wrong but the selection of some mailboxes.
pub struct UndisturbedServer {
    pub mailboxes: Seq<MailboxInfoView>,
    /// Whether a mailbox can be selected.
    pub opens: spec_fn(MailboxInfoView) -> bool,
    /// How many messages of a mailbox are processed.
    pub count: spec_fn(MailboxInfoView) -> usize,
}

impl UndisturbedServer {
    /// What comes of a step.
    pub open spec fn reply(self, view: ClientRunView) -> ClientEventView {
        match view.step {
            ClientStep::List => ClientEventView::Listed(self.mailboxes),
            ClientStep::Select => if (self.opens)(view.mailbox()) {
                ClientEventView::Succeeded
            } else {
                ClientEventView::Failed
            },
            ClientStep::Process => ClientEventView::Processed((self.count)(view.mailbox())),
            _ => ClientEventView::Succeeded,
        }
    }

    /// What the run is like behind `n` more steps.
    pub open spec fn after(self, view: ClientRunView, n: nat) -> ClientRunView
        decreases n,
    {
        if n == 0 {
            view
        } else {
            self.after(view.next(self.reply(view)), (n - 1) as nat)
        }
    }

    /// The number of messages in all mailboxes that are not to be skipped and can be selected.
    pub open spec fn sum(self, skip: Seq<Seq<char>>, mailboxes: Seq<MailboxInfoView>) -> int
        decreases mailboxes.len(),
    {
        if mailboxes.len() == 0 {
            0
        } else {
            let first = mailboxes[0];
            self.sum(skip, mailboxes.skip(1)) + if !skip.contains(first.name) && (self.opens)(
                first,
            ) {
                (self.count)(first) as int
            } else {
                0
            }
        }
    }
}

/// The mailboxes have their turn one behind the other.
proof fn lemma_mailboxes_have_their_turn(server: UndisturbedServer, view: ClientRunView)
    requires
        view.wf(),
        view.step is Poll,
    ensures
        exists|n: nat|
            {
                let end = #[trigger] server.after(view, n);
                let total = view.total + server.sum(view.skip, view.mailboxes.skip(view.handled));
                end.total == total && end.step == ClientStep::Done(total as usize)
            },
    decreases view.mailboxes.len() - view.handled,
{
    let rest = view.mailboxes.skip(view.handled);
    let mailbox = view.mailbox();
    let total = view.total + server.sum(view.skip, rest);
    assert(rest[0] == mailbox);
    assert(rest.skip(1) =~= view.mailboxes.skip(view.handled + 1));
    reveal_with_fuel(UndisturbedServer::after, 4);
    let (k, passed): (nat, ClientRunView) = if view.skip.contains(mailbox.name) {
        (1, server.after(view, 1))
    } else if !(server.opens)(mailbox) {
        (2, server.after(view, 2))
    } else {
        (3, server.after(view, 3))
    };
    assert(passed == server.after(view, k));
    assert(passed.handled == view.handled + 1 && passed.mailboxes == view.mailboxes && passed.skip
        == view.skip);
    assert(passed.total + server.sum(view.skip, rest.skip(1)) == total);
    if passed.handled < passed.mailboxes.len() {
        assert(passed.step is Poll);
        lemma_mailboxes_have_their_turn(server, passed);
        let n = choose|n: nat|
            {
                let end = #[trigger] server.after(passed, n);
                let total = passed.total + server.sum(
                    passed.skip,
                    passed.mailboxes.skip(passed.handled),
                );
                end.total == total && end.step == ClientStep::Done(total as usize)
            };
        lemma_client_after_both(server, view, k, n);
        assert(server.after(view, k + n) == server.after(passed, n));
    } else {
        assert(rest.skip(1).len() == 0);
        assert(server.after(view, k).step == ClientStep::Done(total as usize));
    }
}

proof fn lemma_client_after_both(server: UndisturbedServer, view: ClientRunView, n: nat, m: nat)
    ensures
        server.after(view, n + m) == server.after(server.after(view, n), m),
    decreases n,
{
    if n > 0 {
        lemma_client_after_both(server, view.next(server.reply(view)), (n - 1) as nat, m);
    }
}

/// A run in which nothing goes wrong but the selection of some mailboxes ends by itself. It then
/// counts the messages of all mailboxes that are not to be skipped and could be selected.
pub proof fn undisturbed_client_run_counts_all(skip: Seq<Seq<char>>, server: UndisturbedServer)
    requires
        server.mailboxes.len() > 0,
    ensures
        exists|n: nat|
            (#[trigger] server.after(first_client_run(skip), n)).step == ClientStep::Done(
                server.sum(skip, server.mailboxes) as usize,
            ),
{
    let first = first_client_run(skip);
    let listed = first.next(ClientEventView::Listed(server.mailboxes));
    reveal_with_fuel(UndisturbedServer::after, 2);
    assert(server.after(first, 1) == listed);
    assert(listed.mailboxes.skip(0) =~= server.mailboxes);
    lemma_mailboxes_have_their_turn(server, listed);
    let n = choose|n: nat|
        {
            let end = #[trigger] server.after(listed, n);
            let total = listed.total + server.sum(
                listed.skip,
                listed.mailboxes.skip(listed.handled),
            );
            end.total == total && end.step == ClientStep::Done(total as usize)
        };
    lemma_client_after_both(server, first, 1, n);
    assert(server.after(first, 1 + n) == server.after(listed, n));
}

/// Why a session with the server failed.
#[derive(Debug, Clone, Copy, PartialEq, Eq, Structural)]
pub enum SessionError {
    /// The access to the account cannot be locked.
    Lock,
    /// There is no connection to the server.
    Connect,
    /// The run through the mailboxes was given up.
    Run,
    /// The run went well, and the logout failed.
    Logout,
}

/// What to do next in a session with the server.
#[derive(Debug, Clone, Copy, PartialEq, Eq, Structural)]
pub enum SessionStep {
    /// Lock the access to the account.
    Lock,
    /// Connect to the server, and log in.
    Connect,
    /// Run through the mailboxes.
    Run,
    /// Log out, behind a run that went well or was given up.
    Logout { handled: bool },
    /// Nothing. All went well.
    Done,
    /// Nothing. The session failed.
    Failed(SessionError),
}

impl SessionStep {
    /// What follows a step that succeeded or failed.
    pub open spec fn successor(self, ok: bool) -> SessionStep {
        match self {
            SessionStep::Lock => if ok {
                SessionStep::Connect
            } else {
                SessionStep::Failed(SessionError::Lock)
            },
            SessionStep::Connect => if ok {
                SessionStep::Run
            } else {
                SessionStep::Failed(SessionError::Connect)
            },
            SessionStep::Run => SessionStep::Logout { handled: ok },
            SessionStep::Logout { handled } => if !handled {
                SessionStep::Failed(SessionError::Run)
            } else if !ok {
                SessionStep::Failed(SessionError::Logout)
            } else {
                SessionStep::Done
            },
            last => last,
        }
    }

    /// What follows a step that succeeded or failed. [`SessionStep::Lock`] is the first one.
    pub fn next(self, ok: bool) -> (res: SessionStep)
        ensures
            res == self.successor(ok),
    {
        match self {
            SessionStep::Lock => if ok {
                SessionStep::Connect
            } else {
                SessionStep::Failed(SessionError::Lock)
            },
            SessionStep::Connect => if ok {
                SessionStep::Run
            } else {
                SessionStep::Failed(SessionError::Connect)
            },
            SessionStep::Run => SessionStep::Logout { handled: ok },
            SessionStep::Logout { handled } => if !handled {
                SessionStep::Failed(SessionError::Run)
            } else if !ok {
                SessionStep::Failed(SessionError::Logout)
            } else {
                SessionStep::Done
            },
            last => last,
        }
    }
}

/// The step that is reached by steps of the given outcomes, from the start.
pub open spec fn session_steps(outcomes: Seq<bool>) -> SessionStep
    decreases outcomes.len(),
{
    if outcomes.len() == 0 {
        SessionStep::Lock
    } else {
        session_steps(outcomes.drop_last()).successor(outcomes.last())
    }
}

/// A session locks, connects, runs and logs out, in this order. Nothing follows a lock or a
/// connection that failed. Behind a connection there is one logout, however the run went, and the
/// session then ends with what the run ended with, or else with what the logout ended with.
pub proof fn session_goes_in_order(outcomes: Seq<bool>)
    ensures
        session_steps(outcomes) == if outcomes.len() == 0 {
            SessionStep::Lock
        } else if !outcomes[0] {
            SessionStep::Failed(SessionError::Lock)
        } else if outcomes.len() == 1 {
            SessionStep::Connect
        } else if !outcomes[1] {
            SessionStep::Failed(SessionError::Connect)
        } else if outcomes.len() == 2 {
            SessionStep::Run
        } else if outcomes.len() == 3 {
            SessionStep::Logout { handled: outcomes[2] }
        } else if !outcomes[2] {
            SessionStep::Failed(SessionError::Run)
        } else if !outcomes[3] {
            SessionStep::Failed(SessionError::Logout)
        } else {
            SessionStep::Done
        },
    decreases outcomes.len(),
{
    if outcomes.len() > 0 {
        session_goes_in_order(outcomes.drop_last());
    }
}

/// What a program ends with that has logged out behind its run: the failure of the run, or else
/// that of the logout.
pub fn exit_result<E>(handled: Result<(), E>, logged_out: Result<(), E>) -> (res: Result<(), E>)
    ensures
        res == match handled {
            Ok(_) => logged_out,
            Err(e) => Err(e),
        },
{
    match handled {
        Ok(()) => logged_out,
        Err(e) => Err(e),
    }
}

} // verus!
