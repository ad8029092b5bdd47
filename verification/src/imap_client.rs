//! What is asked of the IMAP server, and what its answers say.
//!
//! The connection is the caller's. Here stand the commands that go over it and the reading of the
//! answers that come back.
use crate::text::{decimal, joined, joined_then_split, lemma_decimal, push_decimal, split};
use chrono::DateTime;
use itertools::sorted_unstable;
use vstd::prelude::*;

verus! {

/// The items that are fetched of a message.
pub const FETCH_QUERY: &'static str = "(RFC822 INTERNALDATE)";

/// The change that marks a message as deleted.
pub const DELETE_FLAG: &'static str = "+FLAGS (\\Deleted)";

/// The capability without which `UID EXPUNGE` is not understood.
pub const EXPUNGE_CAPABILITY: &'static str = "UIDPLUS";

/// IMAP date format: DD-Mon-YYYY
pub const DATE_FORMAT: &'static str = "%d-%b-%Y";

pub const SECONDS_PER_DAY: i64 = 86400;

/// The start of the first day that the calendar covers, in seconds since the Unix epoch.
pub const CALENDAR_START: i64 = -8334601228800;

/// The last second of the last day that the calendar covers, in seconds since the Unix epoch.
pub const CALENDAR_END: i64 = 8210266876799;

/// A fetched message with its UID, raw RFC822 bytes, and server receive time.
pub struct FetchedMessage {
    /// The IMAP UID (unique identifier) of the message.
    pub uid: u32,
    /// The raw RFC822 message bytes as returned by the server.
    pub raw: Vec<u8>,
    /// IMAP INTERNALDATE as a Unix timestamp (seconds since epoch).
    pub received_at: u64,
}

/// What a [`MailboxInfo`] says.
pub struct MailboxInfoView {
    pub name: Seq<char>,
    pub delimiter: char,
}

/// An IMAP mailbox discovered via LIST.
pub struct MailboxInfo {
    /// Full mailbox name as reported by the server (e.g. `INBOX/Sent`).
    pub name: String,
    /// Hierarchy delimiter used by the server (e.g. `/` or `.`).
    pub delimiter: char,
}

impl View for MailboxInfo {
    type V = MailboxInfoView;

    open spec fn view(&self) -> MailboxInfoView {
        MailboxInfoView { name: self.name@, delimiter: self.delimiter }
    }
}

/// What a [`ListedName`] says.
pub struct ListedNameView {
    pub name: Seq<char>,
    pub delimiter: Option<Seq<char>>,
    pub no_select: bool,
}

/// One line of the answer to LIST.
pub struct ListedName {
    pub name: String,
    /// The hierarchy delimiter, where the server names one.
    pub delimiter: Option<String>,
    /// The name stands for a container that cannot be selected.
    pub no_select: bool,
}

impl View for ListedName {
    type V = ListedNameView;

    open spec fn view(&self) -> ListedNameView {
        ListedNameView {
            name: self.name@,
            delimiter: match self.delimiter {
                Some(text) => Some(text@),
                None => None,
            },
            no_select: self.no_select,
        }
    }
}

/// The mailbox that a listed name stands for. Its delimiter is the first character of the one
/// that the server names, and `/` where there is none.
pub open spec fn mailbox_info(listed: ListedNameView) -> MailboxInfoView {
    MailboxInfoView {
        name: listed.name,
        delimiter: match listed.delimiter {
            Some(text) if text.len() > 0 => text[0],
            _ => '/',
        },
    }
}

/// The mailboxes that can be selected, in the order in which they are listed.
pub open spec fn selectable(listed: Seq<ListedNameView>) -> Seq<MailboxInfoView> {
    listed.filter(|l: ListedNameView| !l.no_select).map_values(
        |l: ListedNameView| mailbox_info(l),
    )
}

/// The views of listed names.
pub open spec fn listed_views(listed: Seq<ListedName>) -> Seq<ListedNameView> {
    listed.map_values(|l: ListedName| l@)
}

/// The views of mailboxes.
pub open spec fn info_views(mailboxes: Seq<MailboxInfo>) -> Seq<MailboxInfoView> {
    mailboxes.map_values(|m: MailboxInfo| m@)
}

/// The mailboxes that can be selected, in the order in which they are listed.
fn selectable_mailboxes(listed: &Vec<ListedName>) -> (res: Vec<MailboxInfo>)
    ensures
        info_views(res@) == selectable(listed_views(listed@)),
{
    let mut out: Vec<MailboxInfo> = Vec::new();
    let mut i: usize = 0;
    let ghost lines = listed_views(listed@);
    let ghost wanted = |l: ListedNameView| !l.no_select;
    reveal(Seq::filter);
    assert(info_views(out@) =~= selectable(lines.take(0)));
    while i < listed.len()
        invariant
            i <= listed.len(),
            lines == listed_views(listed@),
            wanted == (|l: ListedNameView| !l.no_select),
            info_views(out@) == selectable(lines.take(i as int)),
        decreases listed.len() - i,
    {
        let line = &listed[i];
        let ghost before = info_views(out@);
        reveal(Seq::filter);
        assert(lines.take(i + 1).drop_last() == lines.take(i as int));
        assert(lines.take(i + 1).last() == line@);
        if !line.no_select {
            let delimiter = match &line.delimiter {
                Some(text) => if text.as_str().unicode_len() > 0 {
                    text.as_str().get_char(0)
                } else {
                    '/'
                },
                None => '/',
            };
            out.push(MailboxInfo { name: line.name.clone(), delimiter });
            assert(info_views(out@) =~= before.push(mailbox_info(line@)));
            assert(lines.take(i + 1).filter(wanted) == lines.take(i as int).filter(wanted).push(
                line@,
            ));
        }
        assert(info_views(out@) =~= selectable(lines.take(i + 1)));
        i += 1;
    }
    assert(lines.take(i as int) == lines);
    out
}

/// The date of a point in time, in UTC, written in the given format.
pub uninterp spec fn date_text(seconds: i64, format: Seq<char>) -> Seq<char>;

/// `DateTime::from_timestamp` and `DateTime::format`: the text depends on the point in time, which
/// the calendar covers, and on the format alone.
#[verifier::external_body]
fn format_date(seconds: i64, format: &str) -> (res: String)
    requires
        CALENDAR_START <= seconds <= CALENDAR_END,
        format@ == DATE_FORMAT@,
    ensures
        res@ == date_text(seconds, format@),
{
    let date = DateTime::from_timestamp(seconds, 0).expect("The calendar covers the date");
    date.format(format).to_string()
}

/// The point in time before whose day a message must have come in. One day is added to be
/// inclusive of messages that are exactly `min_age_days` old.
pub open spec fn cutoff(now: i64, min_age_days: u32) -> int {
    now - min_age_days * SECONDS_PER_DAY + SECONDS_PER_DAY
}

/// The calendar covers the cutoff and the day before it.
pub open spec fn is_covered(now: i64, min_age_days: u32) -> bool {
    CALENDAR_START <= now <= CALENDAR_END && CALENDAR_START <= cutoff(now, min_age_days)
        - SECONDS_PER_DAY && cutoff(now, min_age_days) <= CALENDAR_END
}

/// The number of the day that a point in time lies in, counted from the Unix epoch.
pub open spec fn day_of(seconds: int) -> int {
    seconds / SECONDS_PER_DAY as int
}

/// The days before that of the cutoff are those that lie at least `min_age_days` back. So the
/// search includes messages that are exactly `min_age_days` old, and none that is younger.
pub proof fn cutoff_is_inclusive(now: i64, min_age_days: u32, received: i64)
    ensures
        day_of(received as int) < day_of(cutoff(now, min_age_days)) <==> day_of(now as int)
            - day_of(received as int) >= min_age_days,
{
    assert(day_of(cutoff(now, min_age_days)) == day_of(now as int) - min_age_days + 1);
}

/// Whether the calendar covers the cutoff and the day before it.
pub fn covers_cutoff(now: i64, min_age_days: u32) -> (res: bool)
    ensures
        res == is_covered(now, min_age_days),
{
    if now < CALENDAR_START || now > CALENDAR_END {
        return false;
    }
    let start: i64 = now - min_age_days as i64 * SECONDS_PER_DAY;
    CALENDAR_START <= start && start + SECONDS_PER_DAY <= CALENDAR_END
}

/// The search for read messages that came in before a day.
pub open spec fn search_before(date: Seq<char>) -> Seq<char> {
    "SEEN BEFORE "@ + date
}

/// The search criteria for read messages that came in before the day with the date `date`.
pub fn search_criteria(date: &str) -> (res: String)
    ensures
        res@ == search_before(date@),
{
    let mut out = "SEEN BEFORE ".to_owned();
    out.append(date);
    out
}

/// In ascending order.
pub open spec fn is_sorted(uids: Seq<u32>) -> bool {
    forall|i: int, j: int| 0 <= i <= j < uids.len() ==> uids[i] <= uids[j]
}

/// `itertools::sorted_unstable` puts the numbers in ascending order, each as often as before.
#[verifier::external_body]
fn sort(uids: Vec<u32>) -> (res: Vec<u32>)
    ensures
        is_sorted(res@),
        res@.to_multiset() == uids@.to_multiset(),
{
    sorted_unstable(uids).collect()
}

/// The UIDs that a search found, in ascending order.
pub fn archivable_uids(found: Vec<u32>) -> (res: Vec<u32>)
    ensures
        is_sorted(res@),
        res@.to_multiset() == found@.to_multiset(),
{
    sort(found)
}

/// UIDs as a command names them.
pub open spec fn uid_list(uids: Seq<u32>) -> Seq<char> {
    joined(uids.map_values(|uid: u32| decimal(uid as nat)), ',')
}

/// UIDs as a command names them.
pub fn uid_set(uids: &[u32]) -> (res: String)
    ensures
        res@ == uid_list(uids@),
{
    let mut out = String::new();
    let mut i: usize = 0;
    let ghost texts = uids@.map_values(|uid: u32| decimal(uid as nat));
    while i < uids.len()
        invariant
            i <= uids.len(),
            texts == uids@.map_values(|uid: u32| decimal(uid as nat)),
            out@ == joined(texts.take(i as int), ','),
        decreases uids.len() - i,
    {
        assert(texts.take(i + 1).drop_last() == texts.take(i as int));
        if i > 0 {
            out.push(',');
        }
        push_decimal(&mut out, uids[i] as u64);
        i += 1;
    }
    assert(texts.take(i as int) == texts);
    out
}

/// A command that names UIDs names these and no others, in this order.
pub proof fn uid_list_names_each(uids: Seq<u32>)
    requires
        uids.len() > 0,
    ensures
        split(uid_list(uids), ',') == uids.map_values(|uid: u32| decimal(uid as nat)),
{
    let texts = uids.map_values(|uid: u32| decimal(uid as nat));
    assert forall|i: int| 0 <= i < texts.len() implies !(#[trigger] texts[i]).contains(',') by {
        lemma_decimal(uids[i] as nat);
    }
    joined_then_split(texts, ',');
}

/// One line of the answer to FETCH.
pub struct FetchResponse {
    pub uid: Option<u32>,
    pub body: Option<Vec<u8>>,
    /// INTERNALDATE as a Unix timestamp.
    pub internal_date: Option<i64>,
}

/// The time at which a message counts as received: that of the server, but no time before 1970,
/// and the current time where the server gives none.
pub open spec fn receive_time(internal_date: Option<i64>, now: u64) -> u64 {
    match internal_date {
        Some(date) => if date >= 0 {
            date as u64
        } else {
            0
        },
        None => now,
    }
}

/// The message in one line of the answer to FETCH. A line without a UID or without a body holds
/// none. `now` is the current time in seconds since the Unix epoch.
pub fn fetched_message(response: FetchResponse, now: u64) -> (res: Option<FetchedMessage>)
    ensures
        match res {
            Some(message) => {
                &&& response.uid == Some(message.uid)
                &&& response.body == Some(message.raw)
                &&& message.received_at == receive_time(response.internal_date, now)
            },
            None => response.uid is None || response.body is None,
        },
{
    let uid = match response.uid {
        Some(uid) => uid,
        None => return None,
    };
    let raw = match response.body {
        Some(body) => body,
        None => return None,
    };
    let received_at: u64 = match response.internal_date {
        Some(date) => if date >= 0 {
            date as u64
        } else {
            0
        },
        None => now,
    };
    Some(FetchedMessage { uid, raw, received_at })
}

/// What to do next to delete messages from the server.
#[derive(Debug, Clone, Copy, PartialEq, Eq, Structural)]
pub enum DeleteStep {
    /// Mark the messages as deleted.
    Flag,
    /// Ask for the capabilities of the server.
    AskCapabilities,
    /// Remove the marked messages.
    Expunge,
    /// Nothing. The messages are gone.
    Removed,
    /// Nothing. The messages are marked, and stay: the server cannot remove these alone.
    Marked,
    /// Nothing. There was no message to delete.
    Nothing,
    /// Nothing. A command failed.
    Failed,
}

/// What came of a step.
#[derive(Debug, Clone, Copy, PartialEq, Eq, Structural)]
pub enum DeleteEvent {
    Succeeded,
    /// The capabilities are known.
    Capabilities { uidplus: bool },
    Failed,
}

/// The first step to delete so many messages.
pub open spec fn first_delete_step(uids: Seq<u32>) -> DeleteStep {
    if uids.len() == 0 {
        DeleteStep::Nothing
    } else {
        DeleteStep::Flag
    }
}

/// The step that follows.
pub open spec fn next_delete_step(step: DeleteStep, event: DeleteEvent) -> DeleteStep {
    match (step, event) {
        (DeleteStep::Flag, DeleteEvent::Succeeded) => DeleteStep::AskCapabilities,
        (DeleteStep::AskCapabilities, DeleteEvent::Capabilities { uidplus }) => if uidplus {
            DeleteStep::Expunge
        } else {
            DeleteStep::Marked
        },
        (DeleteStep::Expunge, DeleteEvent::Succeeded) => DeleteStep::Removed,
        (DeleteStep::Flag, DeleteEvent::Failed) => DeleteStep::Failed,
        (DeleteStep::AskCapabilities, DeleteEvent::Failed) => DeleteStep::Failed,
        (DeleteStep::Expunge, DeleteEvent::Failed) => DeleteStep::Failed,
        _ => step,
    }
}

impl DeleteStep {
    /// The step that follows.
    pub fn next(self, event: DeleteEvent) -> (res: DeleteStep)
        ensures
            res == next_delete_step(self, event),
    {
        match (self, event) {
            (DeleteStep::Flag, DeleteEvent::Succeeded) => DeleteStep::AskCapabilities,
            (DeleteStep::AskCapabilities, DeleteEvent::Capabilities { uidplus }) => if uidplus {
                DeleteStep::Expunge
            } else {
                DeleteStep::Marked
            },
            (DeleteStep::Expunge, DeleteEvent::Succeeded) => DeleteStep::Removed,
            (DeleteStep::Flag, DeleteEvent::Failed) => DeleteStep::Failed,
            (DeleteStep::AskCapabilities, DeleteEvent::Failed) => DeleteStep::Failed,
            (DeleteStep::Expunge, DeleteEvent::Failed) => DeleteStep::Failed,
            (step, _) => step,
        }
    }

    /// Whether the deletion is over and went well.
    pub fn is_ok(self) -> (res: bool)
        ensures
            res == (self is Removed || self is Marked || self is Nothing),
    {
        match self {
            DeleteStep::Removed | DeleteStep::Marked | DeleteStep::Nothing => true,
            _ => false,
        }
    }
}

/// There is no session with the server.
#[derive(Debug, Clone, Copy, PartialEq, Eq, Structural)]
pub struct NotConnected;

/// A client of an IMAP server, which holds a session of type `S` until it logs out.
pub struct ImapClient<S> {
    session: Option<S>,
}

impl<S> View for ImapClient<S> {
    type V = Option<S>;

    closed spec fn view(&self) -> Option<S> {
        self.session
    }
}

impl<S> ImapClient<S> {
    /// A client that has logged in and so got this session.
    pub fn connect(session: S) -> (res: Self)
        ensures
            res@ == Some(session),
    {
        ImapClient { session: Some(session) }
    }

    /// The session.
    pub fn session(&mut self) -> (res: Result<&mut S, NotConnected>)
        ensures
            match res {
                Ok(session) => old(self)@ == Some(*session) && final(self)@ == Some(
                    *final(session),
                ),
                Err(_) => old(self)@ is None && final(self)@ is None,
            },
    {
        match &mut self.session {
            Some(session) => Ok(session),
            None => Err(NotConnected),
        }
    }

    /// All selectable mailboxes in the server's answer to LIST.
    pub fn list_mailboxes(&self, listed: &Vec<ListedName>) -> (res: Result<
        Vec<MailboxInfo>,
        NotConnected,
    >)
        ensures
            match res {
                Ok(mailboxes) => self@ is Some && info_views(mailboxes@) == selectable(
                    listed_views(listed@),
                ),
                Err(_) => self@ is None,
            },
    {
        if self.session.is_none() {
            return Err(NotConnected);
        }
        Ok(selectable_mailboxes(listed))
    }

    /// The search criteria for messages that are Seen (read) and at least `min_age_days` old.
    /// `now` is the current time in seconds since the Unix epoch.
    pub fn fetch_archivable_uids(&self, now: i64, min_age_days: u32) -> (res: Result<
        String,
        NotConnected,
    >)
        requires
            is_covered(now, min_age_days),
        ensures
            match res {
                Ok(criteria) => self@ is Some && criteria@ == search_before(
                    date_text(cutoff(now, min_age_days) as i64, DATE_FORMAT@),
                ),
                Err(_) => self@ is None,
            },
    {
        if self.session.is_none() {
            return Err(NotConnected);
        }
        let cutoff: i64 = now - min_age_days as i64 * SECONDS_PER_DAY + SECONDS_PER_DAY;
        Ok(search_criteria(format_date(cutoff, DATE_FORMAT).as_str()))
    }

    /// The UIDs to name in a FETCH for a batch of UIDs. There is nothing to fetch for none.
    pub fn fetch_messages(&self, uids: &[u32]) -> (res: Result<Option<String>, NotConnected>)
        ensures
            match res {
                Ok(Some(list)) => uids@.len() > 0 && self@ is Some && list@ == uid_list(uids@),
                Ok(None) => uids@.len() == 0,
                Err(_) => uids@.len() > 0 && self@ is None,
            },
    {
        if uids.len() == 0 {
            return Ok(None);
        }
        if self.session.is_none() {
            return Err(NotConnected);
        }
        Ok(Some(uid_set(uids)))
    }

    /// The first step to delete `uids`.
    pub fn delete_messages(&self, uids: &[u32]) -> (res: Result<DeleteStep, NotConnected>)
        ensures
            match res {
                Ok(step) => step == first_delete_step(uids@) && (uids@.len() > 0 ==> self@ is Some),
                Err(_) => uids@.len() > 0 && self@ is None,
            },
    {
        if uids.len() == 0 {
            return Ok(DeleteStep::Nothing);
        }
        if self.session.is_none() {
            return Err(NotConnected);
        }
        Ok(DeleteStep::Flag)
    }

    /// Gives up the session, so that the caller can end it. There is none to end behind the first
    /// time.
    pub fn logout(&mut self) -> (res: Option<S>)
        ensures
            res == old(self)@,
            final(self)@ is None,
    {
        self.session.take()
    }
}

/// The step that is reached by `events`, from the start.
pub open spec fn delete_steps(uids: Seq<u32>, events: Seq<DeleteEvent>) -> DeleteStep
    decreases events.len(),
{
    if events.len() == 0 {
        first_delete_step(uids)
    } else {
        next_delete_step(delete_steps(uids, events.drop_last()), events.last())
    }
}

/// Messages are removed only from a server that can remove these alone, and only behind a
/// successful marking; and no command at all is sent for no messages.
pub proof fn expunged_only_with_uidplus(uids: Seq<u32>, events: Seq<DeleteEvent>)
    ensures
        ({
            let step = delete_steps(uids, events);
            &&& step is Expunge || step is Removed ==> uids.len() > 0 && events.contains(
                DeleteEvent::Capabilities { uidplus: true },
            ) && events.contains(DeleteEvent::Succeeded)
            &&& step is AskCapabilities ==> events.contains(DeleteEvent::Succeeded)
            &&& uids.len() == 0 ==> step is Nothing
        }),
    decreases events.len(),
{
    if events.len() > 0 {
        let front = events.drop_last();
        expunged_only_with_uidplus(uids, front);
        assert(events[events.len() - 1] == events.last());
        assert forall|e: DeleteEvent| front.contains(e) implies events.contains(e) by {
            let i = choose|i: int| 0 <= i < front.len() && front[i] == e;
            assert(events[i] == e);
        }
    }
}

/// Event `i` came in at `step`.
pub open spec fn came_at(
    uids: Seq<u32>,
    events: Seq<DeleteEvent>,
    i: int,
    step: DeleteStep,
) -> bool {
    0 <= i < events.len() && delete_steps(uids, events.take(i)) == step
}

/// An event came in at a step before the last event, or is the last event.
proof fn lemma_came_at(
    uids: Seq<u32>,
    events: Seq<DeleteEvent>,
    step: DeleteStep,
    cause: DeleteEvent,
)
    requires
        events.len() > 0,
    ensures
        (exists|i: int| #[trigger]
            came_at(uids, events, i, step) && events[i] == cause) <==> (exists|i: int| #[trigger]
            came_at(uids, events.drop_last(), i, step) && events.drop_last()[i] == cause) || (
        delete_steps(uids, events.drop_last()) == step && events.last() == cause),
{
    let front = events.drop_last();
    let last = events.len() - 1;
    assert(events.take(last) =~= front);
    if exists|i: int| #[trigger] came_at(uids, events, i, step) && events[i] == cause {
        let i = choose|i: int| #[trigger] came_at(uids, events, i, step) && events[i] == cause;
        if i != last {
            assert(front.take(i) =~= events.take(i));
            assert(came_at(uids, front, i, step) && front[i] == cause);
        }
    }
    if exists|i: int| #[trigger] came_at(uids, front, i, step) && front[i] == cause {
        let i = choose|i: int| #[trigger] came_at(uids, front, i, step) && front[i] == cause;
        assert(front.take(i) =~= events.take(i));
        assert(came_at(uids, events, i, step) && events[i] == cause);
    }
    if delete_steps(uids, front) == step && events.last() == cause {
        assert(came_at(uids, events, last, step) && events[last] == cause);
    }
}

/// There is nothing to do exactly for no messages. For any others the deletion ends well only
/// behind a successful marking: with the messages removed exactly where the server has `UIDPLUS`
/// and has carried out the removal, and with the messages marked exactly where it has not `UIDPLUS`.
/// It fails exactly where one of its commands failed.
pub proof fn deleted_only_behind_marking(uids: Seq<u32>, events: Seq<DeleteEvent>)
    ensures
        ({
            let step = delete_steps(uids, events);
            &&& step is Nothing <==> uids.len() == 0
            &&& (step is AskCapabilities || step is Expunge || step is Removed || step is Marked)
                ==> exists|i: int| #[trigger]
                came_at(uids, events, i, DeleteStep::Flag) && events[i] is Succeeded
            &&& step is Expunge || step is Removed ==> exists|i: int| #[trigger]
                came_at(uids, events, i, DeleteStep::AskCapabilities) && events[i]
                    == (DeleteEvent::Capabilities { uidplus: true })
            &&& step is Removed <==> exists|i: int| #[trigger]
                came_at(uids, events, i, DeleteStep::Expunge) && events[i] is Succeeded
            &&& step is Marked <==> exists|i: int| #[trigger]
                came_at(uids, events, i, DeleteStep::AskCapabilities) && events[i]
                    == (DeleteEvent::Capabilities { uidplus: false })
            &&& step is Failed <==> (exists|i: int| #[trigger]
                came_at(uids, events, i, DeleteStep::Flag) && events[i] is Failed) || (exists|i: int|
             #[trigger]
                came_at(uids, events, i, DeleteStep::AskCapabilities) && events[i] is Failed) || (
            exists|i: int| #[trigger]
                came_at(uids, events, i, DeleteStep::Expunge) && events[i] is Failed)
        }),
    decreases events.len(),
{
    if events.len() > 0 {
        deleted_only_behind_marking(uids, events.drop_last());
        lemma_came_at(uids, events, DeleteStep::Flag, DeleteEvent::Succeeded);
        lemma_came_at(uids, events, DeleteStep::Flag, DeleteEvent::Failed);
        lemma_came_at(
            uids,
            events,
            DeleteStep::AskCapabilities,
            DeleteEvent::Capabilities { uidplus: true },
        );
        lemma_came_at(
            uids,
            events,
            DeleteStep::AskCapabilities,
            DeleteEvent::Capabilities { uidplus: false },
        );
        lemma_came_at(uids, events, DeleteStep::AskCapabilities, DeleteEvent::Failed);
        lemma_came_at(uids, events, DeleteStep::Expunge, DeleteEvent::Succeeded);
        lemma_came_at(uids, events, DeleteStep::Expunge, DeleteEvent::Failed);
    }
}

/// A deletion of messages in which no command fails ends by itself: with the messages removed where
/// the server has `UIDPLUS`, and with the messages marked where it has not.
pub proof fn undisturbed_deletion_ends(uids: Seq<u32>)
    requires
        uids.len() > 0,
    ensures
        ({
            let flagged = seq![DeleteEvent::Succeeded];
            let able = flagged.push(DeleteEvent::Capabilities { uidplus: true });
            let unable = flagged.push(DeleteEvent::Capabilities { uidplus: false });
            &&& delete_steps(uids, able.push(DeleteEvent::Succeeded)) is Removed
            &&& delete_steps(uids, unable) is Marked
        }),
{
    let flagged = seq![DeleteEvent::Succeeded];
    let able = flagged.push(DeleteEvent::Capabilities { uidplus: true });
    let unable = flagged.push(DeleteEvent::Capabilities { uidplus: false });
    reveal_with_fuel(delete_steps, 4);
    assert(flagged.drop_last() =~= Seq::<DeleteEvent>::empty());
    assert(able.drop_last() =~= flagged);
    assert(unable.drop_last() =~= flagged);
    assert(able.push(DeleteEvent::Succeeded).drop_last() =~= able);
}

/// The mailboxes in an answer are those in its first part and then those in its second.
pub proof fn mailboxes_are_listed_in_order(a: Seq<ListedNameView>, b: Seq<ListedNameView>)
    ensures
        selectable(a + b) == selectable(a) + selectable(b),
    decreases b.len(),
{
    reveal(Seq::filter);
    let keep = |l: ListedNameView| !l.no_select;
    let info = |l: ListedNameView| mailbox_info(l);
    if b.len() == 0 {
        assert(a + b =~= a);
        assert(selectable(b) =~= Seq::<MailboxInfoView>::empty());
        assert(selectable(a) + selectable(b) =~= selectable(a));
    } else {
        let front = b.drop_last();
        mailboxes_are_listed_in_order(a, front);
        assert((a + b).drop_last() =~= a + front);
        assert((a + b).last() == b.last());
        if keep(b.last()) {
            assert((a + b).filter(keep) == (a + front).filter(keep).push(b.last()));
            assert(b.filter(keep) == front.filter(keep).push(b.last()));
            assert(selectable(a + b) =~= selectable(a + front).push(info(b.last())));
            assert(selectable(b) =~= selectable(front).push(info(b.last())));
        }
        assert(selectable(a + b) =~= selectable(a) + selectable(b));
    }
}

/// A line of the answer stands for the mailbox of its name, unless that cannot be selected. The
/// delimiter is the first character of the one that is named, and a slash where none is.
pub proof fn line_stands_for_its_mailbox(line: ListedNameView)
    ensures
        line.no_select ==> selectable(seq![line]).len() == 0,
        !line.no_select ==> {
            let found = selectable(seq![line]);
            &&& found.len() == 1
            &&& found[0].name == line.name
            &&& line.delimiter matches Some(text) ==> (if text.len() > 0 {
                text.first() == found[0].delimiter
            } else {
                found[0].delimiter == '/'
            })
            &&& line.delimiter is None ==> found[0].delimiter == '/'
        },
{
    reveal(Seq::filter);
    let keep = |l: ListedNameView| !l.no_select;
    let one = seq![line];
    assert(one.drop_last() =~= Seq::<ListedNameView>::empty());
    assert(Seq::<ListedNameView>::empty().filter(keep) =~= Seq::<ListedNameView>::empty());
    assert(one.last() == line);
    if !line.no_select {
        assert(one.filter(keep) =~= seq![line]);
    }
}

/// A message counts as received when the server says, if that is not before 1970; it does not count
/// as received before 1970; and it counts as received now only where the server does not say.
pub proof fn receive_time_is_that_of_server(date: i64, now: u64)
    ensures
        date >= 0 ==> receive_time(Some(date), now) == date,
        date < 0 ==> receive_time(Some(date), now) == 0,
        receive_time(None, now) == now,
{
}

/// The search is for what stands in front of the date, and then the date.
pub proof fn search_ends_in_its_date(date: Seq<char>)
    ensures
        search_before(date).len() == date.len() + 12,
        search_before(date).skip(12) == date,
        search_before(date).take(12) == "SEEN BEFORE "@,
{
    reveal_strlit("SEEN BEFORE ");
    assert(search_before(date).skip(12) =~= date);
    assert(search_before(date).take(12) =~= "SEEN BEFORE "@);
}

/// The calendar covers the cutoff for every point in time from 1970 to the end of the year 9999,
/// and every age up to a hundred thousand years.
pub proof fn ordinary_times_are_covered(now: i64, min_age_days: u32)
    requires
        0 <= now <= 253402300799,
        min_age_days <= 36500000,
    ensures
        is_covered(now, min_age_days),
{
}

/// The calendar covers the cutoff for a message age where it covers now, the time that lies so many
/// days back, and the same time one day later.
pub proof fn covered_times_are_in_calendar(now: i64, min_age_days: u32)
    ensures
        is_covered(now, min_age_days) <==> {
            &&& CALENDAR_START <= now <= CALENDAR_END
            &&& CALENDAR_START <= now - min_age_days * 86400
            &&& now - min_age_days * 86400 + 86400 <= CALENDAR_END
        },
{
}

/// UIDs without duplicates that are sorted grow from each to the next.
pub proof fn sorted_uids_grow(uids: Seq<u32>, i: int, j: int)
    requires
        is_sorted(uids),
        uids.no_duplicates(),
        0 <= i < j < uids.len(),
    ensures
        uids[i] < uids[j],
{
}

} // verus!
