//! Unified mailbox writer supporting Maildir, Maildir++ and MH formats.
//!
//! Listing directories and writing files is left to the caller. What is to be done, in which
//! order, and under which names, is decided here.
use crate::claws_mark::{ClawsMarkFile, MARK_FILE_NAME};
use crate::config::MailboxFormat;
use crate::hash::{compute_msg_hash, hash_to_hex, sha3_224, MsgHash};
use crate::hash_cache::{
    caches_in_line_agree, changed, in_line, inserted_hash_is_found, insert_keeps_consistency,
    is_steady, listed, CacheError, CacheView, HashCache, Survey, FILE_NAME,
};
use crate::mailbox_path::{join_path, path_joined};
use crate::text::{
    contains, decimal, decimal_reads_back, decimal_string, hex, holds, number, parse_number,
    stands_at, views,
};
use vstd::prelude::*;

verus! {

/// What became of a message that was to be stored.
#[derive(Debug, Clone, Copy, PartialEq, Eq, Structural)]
pub enum StoreResult {
    Stored,
    AlreadyExists { identical: bool },
}

/// One thing to do when a mailbox is opened.
pub enum OpenAction {
    /// Create the directory, and those above it, where they are missing.
    CreateDir(String),
    /// Create the file, empty, where it is missing.
    CreateFile(String),
    /// Remove the file where it is there. A failure does no harm.
    RemoveFile(String),
    /// Open the hash cache of the mailbox.
    OpenCache,
    /// Look through the messages of the mailbox. This writes nothing.
    Survey,
}

/// What an [`OpenAction`] says.
pub enum OpenActionView {
    CreateDir(Seq<char>),
    CreateFile(Seq<char>),
    RemoveFile(Seq<char>),
    OpenCache,
    Survey,
}

impl View for OpenAction {
    type V = OpenActionView;

    open spec fn view(&self) -> OpenActionView {
        match *self {
            OpenAction::CreateDir(path) => OpenActionView::CreateDir(path@),
            OpenAction::CreateFile(path) => OpenActionView::CreateFile(path@),
            OpenAction::RemoveFile(path) => OpenActionView::RemoveFile(path@),
            OpenAction::OpenCache => OpenActionView::OpenCache,
            OpenAction::Survey => OpenActionView::Survey,
        }
    }
}

/// What is to be done, in this order, to open the mailbox at `base`. A dry run writes nothing: in
/// place of the hash cache it looks through the messages themselves.
pub open spec fn open_plan(base: Seq<char>, format: MailboxFormat, dry_run: bool) -> Seq<
    OpenActionView,
> {
    if dry_run {
        match format {
            MailboxFormat::Maildir | MailboxFormat::MaildirPP => Seq::empty(),
            MailboxFormat::Mh => seq![OpenActionView::Survey],
        }
    } else {
        match format {
            MailboxFormat::Maildir | MailboxFormat::MaildirPP => seq![
                OpenActionView::CreateDir(path_joined(base, "cur"@)),
                OpenActionView::CreateDir(path_joined(base, "new"@)),
                OpenActionView::CreateDir(path_joined(base, "tmp"@)),
            ],
            MailboxFormat::Mh => seq![
                OpenActionView::CreateDir(base),
                OpenActionView::CreateFile(path_joined(base, ".mh_sequences"@)),
                OpenActionView::RemoveFile(path_joined(base, ".claws_cache"@)),
                OpenActionView::OpenCache,
            ],
        }
    }
}

/// What is to be done, in this order, to open the mailbox at `base`.
pub fn open_actions(base: &str, format: MailboxFormat, dry_run: bool) -> (res: Vec<OpenAction>)
    ensures
        res@.map_values(|a: OpenAction| a@) == open_plan(base@, format, dry_run),
{
    let mut out: Vec<OpenAction> = Vec::new();
    if dry_run {
        match format {
            MailboxFormat::Maildir | MailboxFormat::MaildirPP => {},
            MailboxFormat::Mh => {
                out.push(OpenAction::Survey);
            },
        }
    } else {
        match format {
            MailboxFormat::Maildir | MailboxFormat::MaildirPP => {
                out.push(OpenAction::CreateDir(join_path(base, "cur")));
                out.push(OpenAction::CreateDir(join_path(base, "new")));
                out.push(OpenAction::CreateDir(join_path(base, "tmp")));
            },
            MailboxFormat::Mh => {
                out.push(OpenAction::CreateDir(base.to_owned()));
                out.push(OpenAction::CreateFile(join_path(base, ".mh_sequences")));
                out.push(OpenAction::RemoveFile(join_path(base, ".claws_cache")));
                out.push(OpenAction::OpenCache);
            },
        }
    }
    assert(out@.map_values(|a: OpenAction| a@) =~= open_plan(base@, format, dry_run));
    out
}

/// The subdirectories of a Maildir that hold messages.
#[derive(Debug, Clone, Copy, PartialEq, Eq, Structural)]
pub enum Subdir {
    Cur,
    New,
}

impl Subdir {
    pub open spec fn spec_name(self) -> Seq<char> {
        match self {
            Subdir::Cur => "cur"@,
            Subdir::New => "new"@,
        }
    }

    pub fn name(self) -> (res: &'static str)
        ensures
            res@ == self.spec_name(),
    {
        match self {
            Subdir::Cur => "cur",
            Subdir::New => "new",
        }
    }
}

/// What to do next to store a message in a Maildir.
#[derive(Debug, Clone, Copy, PartialEq, Eq, Structural)]
pub enum MaildirStep {
    /// Look through the files of the subdirectory.
    Scan(Subdir),
    /// Write the message to a new file.
    Write,
    /// Nothing. The message is stored, or would be.
    Done(StoreResult),
    /// Nothing. The subdirectory cannot be read.
    Failed(Subdir),
}

/// What was found in a subdirectory.
pub enum ScanEvent {
    /// One more file, with this name.
    Entry(String),
    /// No more files.
    End,
    /// There is no such directory.
    Missing,
    /// The directory cannot be read.
    Failed,
}

/// What a [`ScanEvent`] says.
pub enum ScanEventView {
    Entry(Seq<char>),
    End,
    Missing,
    Failed,
}

impl View for ScanEvent {
    type V = ScanEventView;

    open spec fn view(&self) -> ScanEventView {
        match *self {
            ScanEvent::Entry(name) => ScanEventView::Entry(name@),
            ScanEvent::End => ScanEventView::End,
            ScanEvent::Missing => ScanEventView::Missing,
            ScanEvent::Failed => ScanEventView::Failed,
        }
    }
}

/// The step behind the scan of `subdir`.
pub open spec fn after_subdir(subdir: Subdir, dry_run: bool) -> MaildirStep {
    match subdir {
        Subdir::Cur => MaildirStep::Scan(Subdir::New),
        Subdir::New => if dry_run {
            MaildirStep::Done(StoreResult::Stored)
        } else {
            MaildirStep::Write
        },
    }
}

/// What to do after `event`, for the message with the hexadecimal hash `hash`. A file whose name
/// holds the hash is the message. In a dry run the directories may be missing.
pub open spec fn next_step(
    step: MaildirStep,
    hash: Seq<char>,
    dry_run: bool,
    event: ScanEventView,
) -> MaildirStep {
    match step {
        MaildirStep::Scan(subdir) => match event {
            ScanEventView::Entry(name) => if holds(name, hash) {
                MaildirStep::Done(StoreResult::AlreadyExists { identical: true })
            } else {
                step
            },
            ScanEventView::End => after_subdir(subdir, dry_run),
            ScanEventView::Missing => if dry_run {
                after_subdir(subdir, dry_run)
            } else {
                MaildirStep::Failed(subdir)
            },
            ScanEventView::Failed => MaildirStep::Failed(subdir),
        },
        _ => step,
    }
}

/// What to do after `events`, from the start.
pub open spec fn steps(hash: Seq<char>, dry_run: bool, events: Seq<ScanEventView>) -> MaildirStep
    decreases events.len(),
{
    if events.len() == 0 {
        MaildirStep::Scan(Subdir::Cur)
    } else {
        next_step(steps(hash, dry_run, events.drop_last()), hash, dry_run, events.last())
    }
}

/// The name of the file for a message with the hexadecimal hash `hash`.
pub open spec fn message_file_name(received_at: u64, hash: Seq<char>) -> Seq<char> {
    decimal(received_at as nat).push('.') + hash + ":2,S"@
}

/// What a [`MaildirStore`] says.
pub struct MaildirStoreView {
    pub base: Seq<char>,
    /// The hash of the message, in hexadecimal.
    pub hash: Seq<char>,
    pub received_at: u64,
    pub dry_run: bool,
    pub step: MaildirStep,
}

/// A message on its way into a Maildir.
pub struct MaildirStore {
    base: String,
    hash: String,
    received_at: u64,
    dry_run: bool,
    step: MaildirStep,
}

impl View for MaildirStore {
    type V = MaildirStoreView;

    closed spec fn view(&self) -> MaildirStoreView {
        MaildirStoreView {
            base: self.base@,
            hash: self.hash@,
            received_at: self.received_at,
            dry_run: self.dry_run,
            step: self.step,
        }
    }
}

impl MaildirStore {
    /// What to do next.
    pub fn step(&self) -> (res: MaildirStep)
        ensures
            res == self@.step,
    {
        self.step
    }

    /// Takes note of what was found, and so moves on to the next step.
    pub fn scanned(&mut self, event: ScanEvent)
        ensures
            final(self)@ == (MaildirStoreView {
                step: next_step(old(self)@.step, old(self)@.hash, old(self)@.dry_run, event@),
                ..old(self)@
            }),
    {
        if let MaildirStep::Scan(subdir) = self.step {
            let behind = match subdir {
                Subdir::Cur => MaildirStep::Scan(Subdir::New),
                Subdir::New => if self.dry_run {
                    MaildirStep::Done(StoreResult::Stored)
                } else {
                    MaildirStep::Write
                },
            };
            match event {
                ScanEvent::Entry(name) => {
                    if contains(name.as_str(), self.hash.as_str()) {
                        self.step = MaildirStep::Done(
                            StoreResult::AlreadyExists { identical: true },
                        );
                    }
                },
                ScanEvent::End => {
                    self.step = behind;
                },
                ScanEvent::Missing => {
                    self.step = if self.dry_run { behind } else { MaildirStep::Failed(subdir) };
                },
                ScanEvent::Failed => {
                    self.step = MaildirStep::Failed(subdir);
                },
            }
        }
    }

    /// The path of a subdirectory.
    pub fn subdir_path(&self, subdir: Subdir) -> (res: String)
        ensures
            res@ == path_joined(self@.base, subdir.spec_name()),
    {
        join_path(self.base.as_str(), subdir.name())
    }

    /// The directory for files that are being written.
    pub fn tmp_path(&self) -> (res: String)
        ensures
            res@ == path_joined(self@.base, "tmp"@),
    {
        join_path(self.base.as_str(), "tmp")
    }

    /// The name of the file for the message.
    pub fn file_name(&self) -> (res: String)
        ensures
            res@ == message_file_name(self@.received_at, self@.hash),
    {
        let mut out = decimal_string(self.received_at);
        out.push('.');
        out.append(self.hash.as_str());
        out.append(":2,S");
        out
    }

    /// The path of the file for the message.
    pub fn file_path(&self) -> (res: String)
        ensures
            res@ == path_joined(
                path_joined(self@.base, "cur"@),
                message_file_name(self@.received_at, self@.hash),
            ),
    {
        join_path(self.subdir_path(Subdir::Cur).as_str(), self.file_name().as_str())
    }
}

/// Why a message could not be stored in an MH mailbox.
#[derive(Debug, Clone, Copy, PartialEq, Eq, Structural)]
pub enum MhError {
    /// The directory cannot be listed.
    List,
    /// All message numbers have been used.
    SequenceOverflow,
    /// The message cannot be written.
    Write,
}

/// What to do next to store a message in an MH mailbox.
#[derive(Debug, Clone, Copy, PartialEq, Eq, Structural)]
pub enum MhStep {
    /// List the files of the directory.
    List,
    /// Write the message to a new file, as message number so and so.
    Write(u64),
    /// Record the message in the hash cache.
    Record(u64),
    /// Mark the message as read.
    Mark(u64),
    /// Nothing. The message is stored, or would be.
    Done(StoreResult),
    /// Nothing. The message is not stored.
    Failed(MhError),
}

/// What came of a step.
pub enum MhEvent {
    /// The directory holds the files with these names.
    Listed(Vec<String>),
    Succeeded,
    Failed,
}

/// What an [`MhEvent`] says.
pub enum MhEventView {
    Listed(Seq<Seq<char>>),
    Succeeded,
    Failed,
}

impl View for MhEvent {
    type V = MhEventView;

    open spec fn view(&self) -> MhEventView {
        match *self {
            MhEvent::Listed(names) => MhEventView::Listed(views(names@)),
            MhEvent::Succeeded => MhEventView::Succeeded,
            MhEvent::Failed => MhEventView::Failed,
        }
    }
}

/// The first step for a message that was found in the mailbox, or was not.
pub open spec fn first_mh_step(found: bool, dry_run: bool) -> MhStep {
    if found {
        MhStep::Done(StoreResult::AlreadyExists { identical: true })
    } else if dry_run {
        MhStep::Done(StoreResult::Stored)
    } else {
        MhStep::List
    }
}

/// The first step for a message that was found in the mailbox, or was not.
pub fn mh_decision(found: bool, dry_run: bool) -> (res: MhStep)
    ensures
        res == first_mh_step(found, dry_run),
{
    if found {
        MhStep::Done(StoreResult::AlreadyExists { identical: true })
    } else if dry_run {
        MhStep::Done(StoreResult::Stored)
    } else {
        MhStep::List
    }
}

/// The first step for a message with the hash `hash`, in a mailbox with the messages that `known`
/// records.
pub open spec fn mh_step(known: Option<CacheView>, dry_run: bool, hash: Seq<u8>) -> MhStep {
    first_mh_step(known matches Some(view) && view.contains(hash), dry_run)
}

/// The highest message number among the names of files, or zero where there is none.
pub open spec fn highest(names: Seq<Seq<char>>) -> u64
    decreases names.len(),
{
    if names.len() == 0 {
        0
    } else {
        let before = highest(names.drop_last());
        match number(names.last()) {
            Some(n) if n > before => n,
            _ => before,
        }
    }
}

/// The highest message number is that of a file, and no file has a higher one.
pub proof fn highest_is_highest(names: Seq<Seq<char>>)
    ensures
        forall|n: u64| #[trigger] listed(names).contains(n) ==> n <= highest(names),
        highest(names) > 0 ==> listed(names).contains(highest(names)),
    decreases names.len(),
{
    if names.len() > 0 {
        let front = names.drop_last();
        highest_is_highest(front);
        assert forall|n: u64| #[trigger] listed(names).contains(n) implies n <= highest(names) by {
            let i = choose|i: int| 0 <= i < names.len() && #[trigger] number(names[i]) == Some(n);
            if i < front.len() {
                assert(number(front[i]) == Some(n));
                assert(listed(front).contains(n));
            }
        }
        if highest(names) > 0 {
            if highest(names) == highest(front) {
                let n = highest(front);
                let i = choose|i: int|
                    0 <= i < front.len() && #[trigger] number(front[i]) == Some(n);
                assert(number(names[i]) == Some(n));
            } else {
                assert(number(names[names.len() - 1]) == Some(highest(names)));
            }
        }
    }
}

/// All message numbers have been used.
#[derive(Debug, Clone, Copy, PartialEq, Eq, Structural)]
pub struct SequenceOverflow;

/// Get the next MH sequence number: one above the highest that the directory lists. `names` are
/// the names of all files in the directory.
pub fn mh_next_seq(names: &Vec<String>) -> (res: Result<u64, SequenceOverflow>)
    ensures
        res is Err <==> listed(views(names@)).contains(u64::MAX),
        res matches Ok(seq) ==> {
            &&& seq == highest(views(names@)) + 1
            &&& forall|n: u64| #[trigger] listed(views(names@)).contains(n) ==> n < seq
        },
        res is Err <==> highest(views(names@)) == u64::MAX,
{
    let mut max: u64 = 0;
    let mut i: usize = 0;
    let ghost texts = views(names@);
    while i < names.len()
        invariant
            i <= names.len(),
            texts == views(names@),
            max == highest(texts.take(i as int)),
        decreases names.len() - i,
    {
        assert(texts.take(i + 1).drop_last() == texts.take(i as int));
        assert(texts[i as int] == names@[i as int]@);
        if let Some(n) = parse_number(names[i].as_str()) {
            if n > max {
                max = n;
            }
        }
        i += 1;
    }
    assert(texts.take(i as int) == texts);
    proof {
        highest_is_highest(texts);
    }
    match max.checked_add(1) {
        Some(seq) => Ok(seq),
        None => Err(SequenceOverflow),
    }
}

/// The step that follows. Once the message is written it is stored: that it cannot be recorded or
/// marked does not change that.
pub open spec fn next_mh_step(step: MhStep, event: MhEventView) -> MhStep {
    match (step, event) {
        (MhStep::List, MhEventView::Listed(names)) => if highest(names) == u64::MAX {
            MhStep::Failed(MhError::SequenceOverflow)
        } else {
            MhStep::Write((highest(names) + 1) as u64)
        },
        (MhStep::List, MhEventView::Failed) => MhStep::Failed(MhError::List),
        (MhStep::Write(seq), MhEventView::Succeeded) => MhStep::Record(seq),
        (MhStep::Write(_), MhEventView::Failed) => MhStep::Failed(MhError::Write),
        (MhStep::Record(seq), MhEventView::Succeeded) => MhStep::Mark(seq),
        (MhStep::Record(seq), MhEventView::Failed) => MhStep::Mark(seq),
        (MhStep::Mark(_), MhEventView::Succeeded) => MhStep::Done(StoreResult::Stored),
        (MhStep::Mark(_), MhEventView::Failed) => MhStep::Done(StoreResult::Stored),
        _ => step,
    }
}

/// The step that is reached by `events` from `first`.
pub open spec fn mh_steps(first: MhStep, events: Seq<MhEventView>) -> MhStep
    decreases events.len(),
{
    if events.len() == 0 {
        first
    } else {
        next_mh_step(mh_steps(first, events.drop_last()), events.last())
    }
}

/// What an [`MhStore`] says.
pub struct MhStoreView {
    pub base: Seq<char>,
    /// The hash of the message.
    pub hash: Seq<u8>,
    pub step: MhStep,
}

/// A message on its way into an MH mailbox.
pub struct MhStore {
    base: String,
    hash: MsgHash,
    step: MhStep,
}

impl View for MhStore {
    type V = MhStoreView;

    closed spec fn view(&self) -> MhStoreView {
        MhStoreView { base: self.base@, hash: self.hash@, step: self.step }
    }
}

impl MhStore {
    /// What to do next.
    pub fn step(&self) -> (res: MhStep)
        ensures
            res == self@.step,
    {
        self.step
    }

    /// The hash of the message.
    pub fn hash(&self) -> (res: MsgHash)
        ensures
            res@ == self@.hash,
    {
        self.hash
    }

    /// The directory of the mailbox, which is also that for files that are being written.
    pub fn directory(&self) -> (res: &str)
        ensures
            res@ == self@.base,
    {
        self.base.as_str()
    }

    /// The path of message `seq`.
    pub fn file_path(&self, seq: u64) -> (res: String)
        ensures
            res@ == path_joined(self@.base, decimal(seq as nat)),
    {
        join_path(self.base.as_str(), decimal_string(seq).as_str())
    }

    /// Takes note of what came of the step, and so moves on to the next one.
    pub fn on(&mut self, event: MhEvent)
        ensures
            final(self)@ == (MhStoreView {
                step: next_mh_step(old(self)@.step, event@),
                ..old(self)@
            }),
    {
        self.step = match (self.step, event) {
            (MhStep::List, MhEvent::Listed(names)) => match mh_next_seq(&names) {
                Ok(seq) => MhStep::Write(seq),
                Err(_) => MhStep::Failed(MhError::SequenceOverflow),
            },
            (MhStep::List, MhEvent::Failed) => MhStep::Failed(MhError::List),
            (MhStep::Write(seq), MhEvent::Succeeded) => MhStep::Record(seq),
            (MhStep::Write(_), MhEvent::Failed) => MhStep::Failed(MhError::Write),
            (MhStep::Record(seq), MhEvent::Succeeded) => MhStep::Mark(seq),
            (MhStep::Record(seq), MhEvent::Failed) => MhStep::Mark(seq),
            (MhStep::Mark(_), MhEvent::Succeeded) => MhStep::Done(StoreResult::Stored),
            (MhStep::Mark(_), MhEvent::Failed) => MhStep::Done(StoreResult::Stored),
            (step, _) => step,
        };
    }
}

/// What to do to store a message.
pub enum StoreStep {
    Maildir(MaildirStore),
    Mh(MhStore),
}

/// What is known of the messages of an MH mailbox.
pub enum Known {
    /// The hash cache, where messages may be written.
    Cache(HashCache),
    /// The messages that were looked through, where nothing may be written.
    Survey(Survey),
}

impl View for Known {
    type V = CacheView;

    open spec fn view(&self) -> CacheView {
        match *self {
            Known::Cache(cache) => cache@,
            Known::Survey(survey) => survey@,
        }
    }
}

impl Known {
    /// What is known of the mailbox at `base` can be used: the hash cache is that of the mailbox,
    /// and there is one exactly where something may be written.
    pub open spec fn fits(&self, base: Seq<char>, dry_run: bool) -> bool {
        match *self {
            Known::Cache(cache) => !dry_run && cache.wf() && cache.path() == path_joined(
                base,
                FILE_NAME@,
            ),
            Known::Survey(_) => dry_run,
        }
    }

    /// Check whether `hash` is present.
    pub fn contains_hash(&self, hash: &MsgHash) -> (res: Result<bool, CacheError>)
        ensures
            match res {
                Ok(found) => found == self@.contains(hash@),
                Err(e) => self is Cache && (e is Begin || e is Access),
            },
    {
        match self {
            Known::Cache(cache) => cache.contains_hash(hash),
            Known::Survey(survey) => Ok(survey.contains_hash(hash)),
        }
    }
}

/// What a [`Maildir`] says.
pub struct MaildirView {
    pub base: Seq<char>,
    pub format: MailboxFormat,
    pub dry_run: bool,
    /// What is known of the messages of an MH mailbox.
    pub known: Option<CacheView>,
    pub claws_mark: Option<Seq<char>>,
}

/// An open mailbox.
pub struct Maildir {
    base: String,
    format: MailboxFormat,
    dry_run: bool,
    known: Option<Known>,
    claws_mark: Option<ClawsMarkFile>,
}

impl View for Maildir {
    type V = MaildirView;

    closed spec fn view(&self) -> MaildirView {
        MaildirView {
            base: self.base@,
            format: self.format,
            dry_run: self.dry_run,
            known: match self.known {
                Some(known) => Some(known@),
                None => None,
            },
            claws_mark: match self.claws_mark {
                Some(mark) => Some(mark@),
                None => None,
            },
        }
    }
}

impl Maildir {
    /// What is known of the messages can be used.
    pub closed spec fn known_fits(&self) -> bool {
        self.known matches Some(known) ==> known.fits(self.base@, self.dry_run)
    }

    /// The messages are known exactly in MH format, and there is a mark file exactly where messages
    /// are written in that format.
    pub open spec fn wf(&self) -> bool {
        &&& self.known_fits()
        &&& self@.known is Some <==> self@.format is Mh
        &&& self@.claws_mark is Some <==> (self@.format is Mh && !self@.dry_run)
    }

    /// The mailbox at `base`, once all that opening it takes has been done. `known` are the
    /// messages of an MH mailbox: its hash cache, or in a dry run a survey of it.
    pub fn open(base: &str, format: MailboxFormat, dry_run: bool, known: Option<Known>) -> (res:
        Maildir)
        requires
            known is Some <==> format is Mh,
            known matches Some(known) ==> known.fits(base@, dry_run),
        ensures
            res.wf(),
            res@.base == base@,
            res@.format == format,
            res@.dry_run == dry_run,
            res@.known == match known {
                Some(known) => Some(known@),
                None => None,
            },
            res@.claws_mark == if format is Mh && !dry_run {
                Some(path_joined(base@, MARK_FILE_NAME@))
            } else {
                None
            },
    {
        let claws_mark = match format {
            MailboxFormat::Mh => if dry_run { None } else { Some(ClawsMarkFile::new(base)) },
            MailboxFormat::Maildir | MailboxFormat::MaildirPP => None,
        };
        Maildir { base: base.to_owned(), format, dry_run, known, claws_mark }
    }

    /// Starts to store a message in Maildir/Maildir++ format.
    pub fn store_maildir(&self, raw: &[u8], received_at: u64) -> (res: MaildirStore)
        ensures
            res@ == (MaildirStoreView {
                base: self@.base,
                hash: hex(sha3_224(raw@)),
                received_at,
                dry_run: self@.dry_run,
                step: MaildirStep::Scan(Subdir::Cur),
            }),
    {
        MaildirStore {
            base: self.base.clone(),
            hash: hash_to_hex(&compute_msg_hash(raw)),
            received_at,
            dry_run: self.dry_run,
            step: MaildirStep::Scan(Subdir::Cur),
        }
    }

    /// Starts to store a message in MH format. Whether the hash cache can be read is up to the
    /// disk; a survey can always be. What follows from the answer is that of [`mh_decision`].
    pub fn store_mh(&self, raw: &[u8]) -> (res: Result<MhStore, CacheError>)
        requires
            self.wf(),
        ensures
            match res {
                Ok(store) => store@ == (MhStoreView {
                    base: self@.base,
                    hash: sha3_224(raw@),
                    step: mh_step(self@.known, self@.dry_run, sha3_224(raw@)),
                }),
                Err(e) => self@.known is Some && !self@.dry_run && (e is Begin || e is Access),
            },
    {
        let hash = compute_msg_hash(raw);
        let found = match &self.known {
            Some(known) => match known.contains_hash(&hash) {
                Ok(found) => found,
                Err(e) => return Err(e),
            },
            None => false,
        };
        Ok(MhStore { base: self.base.clone(), hash, step: mh_decision(found, self.dry_run) })
    }

    /// Takes note in the hash cache, where there is one, that message `seq` of an MH mailbox has
    /// been written.
    pub fn mh_stored(&mut self, seq: u64, hash: MsgHash) -> (res: Result<(), CacheError>)
        requires
            old(self).wf(),
        ensures
            final(self).wf(),
            final(self)@ == (MaildirView { known: final(self)@.known, ..old(self)@ }),
            match old(self)@.known {
                Some(before) if !old(self)@.dry_run => final(self)@.known matches Some(after)
                    && changed(before, before.with(seq, hash@), after, res),
                _ => res is Ok && final(self)@ == old(self)@,
            },
    {
        match &mut self.known {
            Some(Known::Cache(cache)) => cache.insert(seq, hash),
            Some(Known::Survey(_)) => Ok(()),
            None => Ok(()),
        }
    }

    /// The mark file, where there is one.
    pub fn claws_mark(&self) -> (res: Option<&ClawsMarkFile>)
        ensures
            match res {
                Some(mark) => self@.claws_mark == Some(mark@),
                None => self@.claws_mark is None,
            },
    {
        self.claws_mark.as_ref()
    }

    /// Starts to store a message.
    pub fn store(&self, raw: &[u8], received_at: u64) -> (res: Result<StoreStep, CacheError>)
        requires
            self.wf(),
        ensures
            match self@.format {
                MailboxFormat::Maildir | MailboxFormat::MaildirPP => res matches Ok(
                    StoreStep::Maildir(store),
                ) && store@ == (MaildirStoreView {
                    base: self@.base,
                    hash: hex(sha3_224(raw@)),
                    received_at,
                    dry_run: self@.dry_run,
                    step: MaildirStep::Scan(Subdir::Cur),
                }),
                MailboxFormat::Mh => match res {
                    Ok(StoreStep::Mh(store)) => store@ == (MhStoreView {
                        base: self@.base,
                        hash: sha3_224(raw@),
                        step: mh_step(self@.known, self@.dry_run, sha3_224(raw@)),
                    }),
                    Ok(StoreStep::Maildir(_)) => false,
                    Err(e) => !self@.dry_run && (e is Begin || e is Access),
                },
            },
    {
        match self.format {
            MailboxFormat::Maildir | MailboxFormat::MaildirPP => Ok(
                StoreStep::Maildir(self.store_maildir(raw, received_at)),
            ),
            MailboxFormat::Mh => match self.store_mh(raw) {
                Ok(store) => Ok(StoreStep::Mh(store)),
                Err(e) => Err(e),
            },
        }
    }
}

/// A file that was written for a message is recognised as that message wherever it turns up.
pub proof fn stored_file_is_recognised(
    received_at: u64,
    hash: Seq<char>,
    subdir: Subdir,
    dry_run: bool,
)
    ensures
        holds(message_file_name(received_at, hash), hash),
        next_step(
            MaildirStep::Scan(subdir),
            hash,
            dry_run,
            ScanEventView::Entry(message_file_name(received_at, hash)),
        ) == MaildirStep::Done(StoreResult::AlreadyExists { identical: true }),
{
    let name = message_file_name(received_at, hash);
    let at = decimal(received_at as nat).len() as int + 1;
    reveal_strlit(":2,S");
    assert(name.subrange(at, at + hash.len()) =~= hash);
    assert(stands_at(name, hash, at));
}

/// The name of a file that holds `hash`.
pub open spec fn is_match(event: ScanEventView, hash: Seq<char>) -> bool {
    event matches ScanEventView::Entry(name) && holds(name, hash)
}

/// `events` came in one after the other as long as there was something to scan.
pub open spec fn fed_while_scanning(
    hash: Seq<char>,
    dry_run: bool,
    events: Seq<ScanEventView>,
) -> bool {
    forall|k: int|
        0 <= k < events.len() ==> steps(hash, dry_run, #[trigger] events.take(k)) is Scan
}

/// A message is taken for stored already exactly where a file whose name holds its hash was seen.
/// It is written only where no such file was seen and both subdirectories were read to their
/// ends, and never in a dry run.
pub proof fn written_only_if_new(hash: Seq<char>, dry_run: bool, events: Seq<ScanEventView>)
    requires
        fed_while_scanning(hash, dry_run, events),
    ensures
        ({
            let step = steps(hash, dry_run, events);
            let seen = exists|i: int| 0 <= i < events.len() && is_match(#[trigger] events[i], hash);
            &&& seen <==> step == MaildirStep::Done(StoreResult::AlreadyExists { identical: true })
            &&& step is Write ==> !dry_run && !seen && exists|i: int, j: int|
                0 <= i < j < events.len() && #[trigger] events[i] is End && #[trigger] events[j] is End
            &&& step == MaildirStep::Done(StoreResult::Stored) ==> dry_run && !seen
        }),
    decreases events.len(),
{
    if events.len() > 0 {
        let front = events.drop_last();
        let last = events.len() - 1;
        assert forall|k: int| 0 <= k < front.len() implies steps(
            hash,
            dry_run,
            #[trigger] front.take(k),
        ) is Scan by {
            assert(front.take(k) == events.take(k));
        }
        assert(events.take(last) == front);
        written_only_if_new(hash, dry_run, front);
        assert(forall|i: int| 0 <= i < front.len() ==> front[i] == events[i]);
        let step = steps(hash, dry_run, events);
        if is_match(events[last], hash) {
            assert(exists|i: int| 0 <= i < events.len() && is_match(#[trigger] events[i], hash));
        } else {
            assert forall|i: int| 0 <= i < events.len() implies !is_match(
                #[trigger] events[i],
                hash,
            ) by {
                if i < last {
                    assert(!is_match(front[i], hash));
                }
            }
        }
        if step is Write {
            lemma_new_needs_end(hash, front);
            let i = choose|i: int| 0 <= i < front.len() && #[trigger] front[i] is End;
            assert(events[i] is End && events[last] is End);
        }
    }
}

/// Without a dry run the second subdirectory is scanned only behind the end of the first.
proof fn lemma_new_needs_end(hash: Seq<char>, events: Seq<ScanEventView>)
    requires
        steps(hash, false, events) == MaildirStep::Scan(Subdir::New),
    ensures
        exists|i: int| 0 <= i < events.len() && #[trigger] events[i] is End,
    decreases events.len(),
{
    let front = events.drop_last();
    if steps(hash, false, front) == MaildirStep::Scan(Subdir::New) {
        lemma_new_needs_end(hash, front);
        let i = choose|i: int| 0 <= i < front.len() && #[trigger] front[i] is End;
        assert(events[i] is End);
    } else {
        assert(events[events.len() - 1] is End);
    }
}

/// A dry run touches nothing: to open a mailbox it does no more than look through the messages,
/// and it writes, records and marks none.
pub proof fn dry_run_touches_nothing(
    base: Seq<char>,
    format: MailboxFormat,
    hash: Seq<char>,
    events: Seq<ScanEventView>,
    known: Option<CacheView>,
    digest: Seq<u8>,
    mh_events: Seq<MhEventView>,
)
    ensures
        forall|i: int|
            0 <= i < open_plan(base, format, true).len() ==> #[trigger] open_plan(
                base,
                format,
                true,
            )[i] is Survey,
        !(steps(hash, true, events) is Write),
        mh_steps(mh_step(known, true, digest), mh_events) == mh_step(known, true, digest),
        mh_step(known, true, digest) is Done,
    decreases events.len(), mh_events.len(),
{
    if events.len() > 0 {
        dry_run_touches_nothing(base, format, hash, events.drop_last(), known, digest, mh_events);
    } else if mh_events.len() > 0 {
        dry_run_touches_nothing(base, format, hash, events, known, digest, mh_events.drop_last());
    }
}

/// What a run that writes finds where a dry run finds `events`: a directory that is missing has
/// been created, and is empty.
pub open spec fn once_created(events: Seq<ScanEventView>) -> Seq<ScanEventView> {
    events.map_values(
        |event: ScanEventView|
            if event is Missing {
                ScanEventView::End
            } else {
                event
            },
    )
}

/// A dry run shows what would be done in a Maildir. Whatever turns up in the directories, it takes
/// a message for stored already, or gives up, where a run that writes does; and it counts a message
/// as stored where that run writes it.
pub proof fn dry_run_shows_maildir_run(hash: Seq<char>, events: Seq<ScanEventView>)
    ensures
        steps(hash, true, events) == if steps(hash, false, once_created(events)) is Write {
            MaildirStep::Done(StoreResult::Stored)
        } else {
            steps(hash, false, once_created(events))
        },
    decreases events.len(),
{
    if events.len() > 0 {
        let front = events.drop_last();
        dry_run_shows_maildir_run(hash, front);
        lemma_scan_is_not_stored(hash, once_created(front));
        assert(once_created(events).drop_last() =~= once_created(front));
    }
}

/// A run that writes does not count a message as stored before it is written.
proof fn lemma_scan_is_not_stored(hash: Seq<char>, events: Seq<ScanEventView>)
    ensures
        steps(hash, false, events) != MaildirStep::Done(StoreResult::Stored),
    decreases events.len(),
{
    if events.len() > 0 {
        lemma_scan_is_not_stored(hash, events.drop_last());
    }
}

/// A dry run shows what would be done in an MH mailbox. With a survey and a hash cache that are
/// both in line with the directory, it takes a message for stored already exactly where a run that
/// writes does; and it counts a message as stored exactly where that run goes on to write it.
pub proof fn dry_run_shows_mh_run<F: Fn(u64) -> Option<Vec<u8>>>(
    survey: CacheView,
    cache: CacheView,
    read: F,
    present: Set<u64>,
    hash: Seq<u8>,
)
    requires
        is_steady(read),
        in_line(survey, read, present),
        in_line(cache, read, present),
    ensures
        mh_step(Some(survey), true, hash) == if mh_step(Some(cache), false, hash) is List {
            MhStep::Done(StoreResult::Stored)
        } else {
            mh_step(Some(cache), false, hash)
        },
{
    caches_in_line_agree(survey, cache, read, present, hash);
}

/// Event `i` says that the message was written.
pub open spec fn was_written(first: MhStep, events: Seq<MhEventView>, i: int) -> bool {
    &&& 0 <= i < events.len()
    &&& mh_steps(first, events.take(i)) is Write
    &&& events[i] is Succeeded
}

/// Once a message is written to an MH mailbox it is stored, whether or not it can be recorded in
/// the hash cache or marked as read. It does not count as stored before it is written.
pub proof fn written_message_is_stored(events: Seq<MhEventView>)
    ensures
        ({
            let step = mh_steps(MhStep::List, events);
            &&& (exists|i: int| #[trigger] was_written(MhStep::List, events, i)) <==> step is Record
                || step is Mark || step is Done
            &&& step is Done ==> step == MhStep::Done(StoreResult::Stored)
        }),
        forall|seq: u64, recorded: MhEventView, marked: MhEventView|
            !(recorded is Listed) && !(marked is Listed) ==> #[trigger] next_mh_step(
                next_mh_step(next_mh_step(MhStep::Write(seq), MhEventView::Succeeded), recorded),
                marked,
            ) == MhStep::Done(StoreResult::Stored),
    decreases events.len(),
{
    if events.len() > 0 {
        let front = events.drop_last();
        let last = events.len() - 1;
        written_message_is_stored(front);
        assert(events.take(last) == front);
        assert forall|i: int| i != last implies was_written(MhStep::List, front, i)
            == #[trigger] was_written(MhStep::List, events, i) by {
            if 0 <= i < last {
                assert(front.take(i) == events.take(i));
            }
        }
        if exists|i: int| #[trigger] was_written(MhStep::List, front, i) {
            let i = choose|i: int| #[trigger] was_written(MhStep::List, front, i);
            assert(was_written(MhStep::List, events, i));
        } else if !was_written(MhStep::List, events, last) {
            assert forall|i: int| !#[trigger] was_written(MhStep::List, events, i) by {
                if i != last {
                    assert(!was_written(MhStep::List, front, i));
                }
            }
        }
    }
}

/// A message that was recorded in the hash cache of an MH mailbox is not written again.
pub proof fn recorded_message_is_not_written_again(
    before: CacheView,
    seq: u64,
    hash: Seq<u8>,
    dry_run: bool,
)
    ensures
        mh_step(Some(before.with(seq, hash)), dry_run, hash) == MhStep::Done(
            StoreResult::AlreadyExists { identical: true },
        ),
{
    inserted_hash_is_found(before, seq, hash, hash);
}

/// The next sequence number names no file that the directory lists, so that writing the message
/// overwrites nothing.
pub proof fn sequence_names_no_file(names: Seq<Seq<char>>, seq: u64)
    requires
        forall|n: u64| #[trigger] listed(names).contains(n) ==> n < seq,
    ensures
        !names.contains(decimal(seq as nat)),
{
    decimal_reads_back(seq);
    if names.contains(decimal(seq as nat)) {
        let i = choose|i: int| 0 <= i < names.len() && names[i] == decimal(seq as nat);
        assert(number(names[i]) == Some(seq));
        assert(listed(names).contains(seq));
    }
}

/// Recording a message under the next sequence number keeps the hash cache in agreement, as long
/// as the cache records only messages that the directory lists.
pub proof fn next_sequence_keeps_consistency(
    cache: CacheView,
    names: Seq<Seq<char>>,
    seq: u64,
    hash: Seq<u8>,
)
    requires
        cache.consistent(),
        cache.hashes.dom().subset_of(listed(names)),
        forall|n: u64| #[trigger] listed(names).contains(n) ==> n < seq,
    ensures
        cache.with(seq, hash).consistent(),
        cache.with(seq, hash).hashes.dom().subset_of(listed(names.push(decimal(seq as nat)))),
{
    assert(!cache.hashes.dom().contains(seq)) by {
        if cache.hashes.dom().contains(seq) {
            assert(listed(names).contains(seq));
        }
    }
    insert_keeps_consistency(cache, seq, hash);
    decimal_reads_back(seq);
    let longer = names.push(decimal(seq as nat));
    assert forall|n: u64| cache.with(seq, hash).hashes.dom().contains(n) implies listed(
        longer,
    ).contains(n) by {
        if n == seq {
            assert(number(longer[names.len() as int]) == Some(n));
        } else {
            assert(listed(names).contains(n));
            let i = choose|i: int| 0 <= i < names.len() && #[trigger] number(names[i]) == Some(n);
            assert(number(longer[i]) == Some(n));
        }
    }
}

/// The end of a subdirectory. In a dry run a subdirectory that is missing is at its end.
pub open spec fn is_end(event: ScanEventView, dry_run: bool) -> bool {
    event is End || (dry_run && event is Missing)
}

/// How many subdirectories were read to their ends.
pub open spec fn ends(events: Seq<ScanEventView>, dry_run: bool) -> nat
    decreases events.len(),
{
    if events.len() == 0 {
        0
    } else {
        ends(events.drop_last(), dry_run) + if is_end(events.last(), dry_run) {
            1nat
        } else {
            0
        }
    }
}

/// Where no file holds the hash and the directories can be read, other files are passed over,
/// whatever their names. First one subdirectory is read to its end and then the other, and behind
/// both the message is written; in a dry run it counts as stored.
pub proof fn new_message_is_written(hash: Seq<char>, dry_run: bool, events: Seq<ScanEventView>)
    requires
        forall|i: int|
            0 <= i < events.len() ==> is_end(#[trigger] events[i], dry_run) || (events[i] is Entry
                && !holds(events[i]->Entry_0, hash)),
    ensures
        steps(hash, dry_run, events) == if ends(events, dry_run) == 0 {
            MaildirStep::Scan(Subdir::Cur)
        } else if ends(events, dry_run) == 1 {
            MaildirStep::Scan(Subdir::New)
        } else if dry_run {
            MaildirStep::Done(StoreResult::Stored)
        } else {
            MaildirStep::Write
        },
    decreases events.len(),
{
    if events.len() > 0 {
        let front = events.drop_last();
        assert forall|i: int| 0 <= i < front.len() implies is_end(#[trigger] front[i], dry_run) || (
        front[i] is Entry && !holds(front[i]->Entry_0, hash)) by {
            assert(front[i] == events[i]);
        }
        new_message_is_written(hash, dry_run, front);
        assert(events[events.len() - 1] == events.last());
    }
}

/// Event `i` came in while `subdir` was scanned.
pub open spec fn scanned_at(
    hash: Seq<char>,
    dry_run: bool,
    events: Seq<ScanEventView>,
    i: int,
    subdir: Subdir,
) -> bool {
    0 <= i < events.len() && steps(hash, dry_run, events.take(i)) == MaildirStep::Scan(subdir)
}

/// The directory in which the scan is cannot be read. In a dry run it may be missing.
pub open spec fn is_unreadable(event: ScanEventView, dry_run: bool) -> bool {
    event is Failed || (event is Missing && !dry_run)
}

/// The scan of a subdirectory fails exactly where that subdirectory could not be read.
pub proof fn scan_fails_for_cause(
    hash: Seq<char>,
    dry_run: bool,
    events: Seq<ScanEventView>,
    subdir: Subdir,
)
    ensures
        steps(hash, dry_run, events) == MaildirStep::Failed(subdir) <==> exists|i: int| #[trigger]
            scanned_at(hash, dry_run, events, i, subdir) && is_unreadable(events[i], dry_run),
    decreases events.len(),
{
    if events.len() > 0 {
        let front = events.drop_last();
        let last = events.len() - 1;
        scan_fails_for_cause(hash, dry_run, front, subdir);
        assert(events.take(last) =~= front);
        if exists|i: int| #[trigger]
            scanned_at(hash, dry_run, front, i, subdir) && is_unreadable(front[i], dry_run) {
            let i = choose|i: int| #[trigger]
                scanned_at(hash, dry_run, front, i, subdir) && is_unreadable(front[i], dry_run);
            assert(front.take(i) =~= events.take(i));
            assert(scanned_at(hash, dry_run, events, i, subdir) && is_unreadable(
                events[i],
                dry_run,
            ));
        } else if steps(hash, dry_run, front) == MaildirStep::Scan(subdir) && is_unreadable(
            events.last(),
            dry_run,
        ) {
            assert(scanned_at(hash, dry_run, events, last, subdir) && is_unreadable(
                events[last],
                dry_run,
            ));
        } else {
            assert forall|i: int| #[trigger]
                scanned_at(hash, dry_run, events, i, subdir) implies !is_unreadable(
                events[i],
                dry_run,
            ) by {
                if i != last {
                    assert(front.take(i) =~= events.take(i));
                    assert(scanned_at(hash, dry_run, front, i, subdir));
                }
            }
        }
    }
}

/// The name of a file tells when its message was received and what its hash is, and marks the
/// message as seen.
pub proof fn file_name_tells_message(received_at: u64, hash: Seq<char>)
    ensures
        ({
            let name = message_file_name(received_at, hash);
            let digits = decimal(received_at as nat);
            &&& name.len() == digits.len() + 1 + hash.len() + 4
            &&& number(name.take(digits.len() as int)) == Some(received_at)
            &&& name[digits.len() as int] == '.'
            &&& name.skip(digits.len() as int + 1).take(hash.len() as int) == hash
            &&& name.skip(name.len() - 4) == ":2,S"@
        }),
{
    let name = message_file_name(received_at, hash);
    let digits = decimal(received_at as nat);
    reveal_strlit(":2,S");
    decimal_reads_back(received_at);
    assert(name.take(digits.len() as int) =~= digits);
    assert(name.skip(digits.len() as int + 1).take(hash.len() as int) =~= hash);
    assert(name.skip(name.len() - 4) =~= ":2,S"@);
}

/// Messages that were received at different times, or have different hashes of the same length, get
/// different files.
pub proof fn different_messages_get_different_files(
    a_time: u64,
    a_hash: Seq<char>,
    b_time: u64,
    b_hash: Seq<char>,
)
    requires
        a_hash.len() == b_hash.len(),
        message_file_name(a_time, a_hash) == message_file_name(b_time, b_hash),
    ensures
        a_time == b_time,
        a_hash == b_hash,
{
    file_name_tells_message(a_time, a_hash);
    file_name_tells_message(b_time, b_hash);
}

/// Opening a mailbox for writing creates every directory that storing a message reads or writes,
/// creates and removes nothing but what belongs to the mailbox. The hash cache is opened, behind the creation of
/// its directory, and the file that Claws-Mail wants is created, exactly in MH format.
pub proof fn opening_prepares_storing(base: Seq<char>, format: MailboxFormat, subdir: Subdir)
    ensures
        ({
            let plan = open_plan(base, format, false);
            &&& !(format is Mh) ==> plan.contains(
                OpenActionView::CreateDir(path_joined(base, subdir.spec_name())),
            ) && plan.contains(OpenActionView::CreateDir(path_joined(base, "tmp"@)))
            &&& format is Mh ==> plan.len() > 0 && plan[0] == OpenActionView::CreateDir(base)
                && plan.last() is OpenCache && plan.contains(
                OpenActionView::CreateFile(path_joined(base, ".mh_sequences"@)),
            ) && plan.contains(OpenActionView::RemoveFile(path_joined(base, ".claws_cache"@)))
            &&& plan.contains(OpenActionView::OpenCache) ==> format is Mh
            &&& !plan.contains(OpenActionView::Survey)
            &&& forall|i: int|
                0 <= i < plan.len() && (#[trigger] plan[i]) is RemoveFile ==> plan[i]
                    == OpenActionView::RemoveFile(path_joined(base, ".claws_cache"@))
            &&& forall|i: int|
                0 <= i < plan.len() && (#[trigger] plan[i]) is CreateFile ==> plan[i]
                    == OpenActionView::CreateFile(path_joined(base, ".mh_sequences"@))
            &&& forall|i: int|
                0 <= i < plan.len() && (#[trigger] plan[i]) is CreateDir ==> {
                    let dir = plan[i]->CreateDir_0;
                    if format is Mh {
                        dir == base
                    } else {
                        dir == path_joined(base, "cur"@) || dir == path_joined(base, "new"@) || dir
                            == path_joined(base, "tmp"@)
                    }
                }
        }),
        open_plan(base, format, true).contains(OpenActionView::Survey) <==> format is Mh,
{
    let plan = open_plan(base, format, false);
    if format is Mh {
        assert(plan[1] == OpenActionView::CreateFile(path_joined(base, ".mh_sequences"@)));
        assert(plan[2] == OpenActionView::RemoveFile(path_joined(base, ".claws_cache"@)));
        assert(open_plan(base, format, true)[0] is Survey);
    } else {
        assert(plan[0] == OpenActionView::CreateDir(path_joined(base, "cur"@)));
        assert(plan[1] == OpenActionView::CreateDir(path_joined(base, "new"@)));
        assert(plan[2] == OpenActionView::CreateDir(path_joined(base, "tmp"@)));
    }
}

/// The subdirectories of a Maildir have different names.
pub proof fn subdirectories_differ()
    ensures
        Subdir::Cur.spec_name() != Subdir::New.spec_name(),
        Subdir::Cur.spec_name() != "tmp"@,
        Subdir::New.spec_name() != "tmp"@,
        Subdir::Cur.spec_name() == "cur"@,
        Subdir::New.spec_name() == "new"@,
{
    reveal_strlit("cur");
    reveal_strlit("new");
    reveal_strlit("tmp");
    assert("cur"@[0] == 'c' && "new"@[0] == 'n' && "tmp"@[0] == 't');
}

/// The message number that a step is about.
pub open spec fn number_of(step: MhStep) -> Option<u64> {
    match step {
        MhStep::Write(seq) | MhStep::Record(seq) | MhStep::Mark(seq) => Some(seq),
        MhStep::List | MhStep::Done(_) | MhStep::Failed(_) => None,
    }
}

/// `seq` is the number for a new message in a directory with files of these names: it is above
/// every number among them, exactly one above the highest, or one where there is none above zero.
pub open spec fn is_next_number(names: Seq<Seq<char>>, seq: u64) -> bool {
    &&& seq >= 1
    &&& forall|n: u64| #[trigger] listed(names).contains(n) ==> n < seq
    &&& seq > 1 ==> listed(names).contains((seq - 1) as u64)
}

/// Event `i` came in at `step`.
pub open spec fn mh_came_at(events: Seq<MhEventView>, i: int, step: MhStep) -> bool {
    0 <= i < events.len() && mh_steps(MhStep::List, events.take(i)) == step
}

/// What came in at a step before the last event still did.
proof fn lemma_mh_came_at(events: Seq<MhEventView>, i: int, step: MhStep)
    requires
        events.len() > 0,
        mh_came_at(events.drop_last(), i, step),
    ensures
        mh_came_at(events, i, step),
        events[i] == events.drop_last()[i],
{
    assert(events.drop_last().take(i) =~= events.take(i));
}

/// A message is written, recorded and marked under one number, which a listing of the directory
/// gave: one above every number that the listing names. So its file is not among the listed names,
/// and writing it overwrites nothing.
pub proof fn message_gets_free_number(events: Seq<MhEventView>)
    ensures
        number_of(mh_steps(MhStep::List, events)) matches Some(seq) ==> exists|i: int|
            {
                &&& #[trigger] mh_came_at(events, i, MhStep::List)
                &&& events[i] matches MhEventView::Listed(names) && is_next_number(names, seq)
                    && !names.contains(decimal(seq as nat))
            },
        mh_steps(MhStep::List, events) matches MhStep::Record(seq) ==> exists|i: int| #[trigger]
            mh_came_at(events, i, MhStep::Write(seq)) && events[i] is Succeeded,
        mh_steps(MhStep::List, events) matches MhStep::Mark(seq) ==> exists|i: int| #[trigger]
            mh_came_at(events, i, MhStep::Record(seq)),
    decreases events.len(),
{
    if events.len() > 0 {
        let front = events.drop_last();
        let last = events.len() - 1;
        let before = mh_steps(MhStep::List, front);
        let step = mh_steps(MhStep::List, events);
        message_gets_free_number(front);
        assert(events.take(last) =~= front);
        assert(mh_came_at(events, last, before));
        if before is List {
            if let MhEventView::Listed(names) = events.last() {
                highest_is_highest(names);
                if let MhStep::Write(seq) = step {
                    sequence_names_no_file(names, seq);
                    assert(is_next_number(names, seq));
                    assert(events[last] == events.last());
                }
            }
        } else if number_of(before) is Some {
            let seq = number_of(before)->0;
            let i = choose|i: int|
                {
                    &&& #[trigger] mh_came_at(front, i, MhStep::List)
                    &&& front[i] matches MhEventView::Listed(names) && is_next_number(names, seq)
                        && !names.contains(decimal(seq as nat))
                };
            lemma_mh_came_at(events, i, MhStep::List);
            if before is Record {
                let k = choose|k: int| #[trigger]
                    mh_came_at(front, k, MhStep::Write(seq)) && front[k] is Succeeded;
                lemma_mh_came_at(events, k, MhStep::Write(seq));
            }
            if before is Mark {
                let k = choose|k: int| #[trigger] mh_came_at(front, k, MhStep::Record(seq));
                lemma_mh_came_at(events, k, MhStep::Record(seq));
            }
        }
    }
}

/// An event came in at a step before the last event, or is the last event.
proof fn lemma_mh_cause(events: Seq<MhEventView>, cause: spec_fn(MhStep, MhEventView) -> bool)
    requires
        events.len() > 0,
    ensures
        mh_caused(events, cause) <==> mh_caused(events.drop_last(), cause) || cause(
            mh_steps(MhStep::List, events.drop_last()),
            events.last(),
        ),
{
    let front = events.drop_last();
    let last = events.len() - 1;
    assert(events.take(last) =~= front);
    if mh_caused(events, cause) {
        let i = choose|i: int|
            0 <= i < events.len() && cause(
                mh_steps(MhStep::List, #[trigger] events.take(i)),
                events[i],
            );
        if i != last {
            assert(front.take(i) =~= events.take(i));
            assert(cause(mh_steps(MhStep::List, front.take(i)), front[i]));
        }
    }
    if mh_caused(front, cause) {
        let i = choose|i: int|
            0 <= i < front.len() && cause(
                mh_steps(MhStep::List, #[trigger] front.take(i)),
                front[i],
            );
        assert(front.take(i) =~= events.take(i));
        assert(cause(mh_steps(MhStep::List, events.take(i)), events[i]));
    }
    if cause(mh_steps(MhStep::List, front), events.last()) {
        assert(cause(mh_steps(MhStep::List, events.take(last)), events[last]));
    }
}

/// Some event came in at a step for which it is a cause.
pub open spec fn mh_caused(
    events: Seq<MhEventView>,
    cause: spec_fn(MhStep, MhEventView) -> bool,
) -> bool {
    exists|i: int|
        0 <= i < events.len() && cause(
            mh_steps(MhStep::List, #[trigger] events.take(i)),
            events[i],
        )
}

/// Storing a message in an MH mailbox fails exactly for a cause: the directory could not be listed,
/// it lists the highest number that there is, or the message could not be written.
pub proof fn mh_store_fails_for_cause(events: Seq<MhEventView>)
    ensures
        mh_steps(MhStep::List, events) == MhStep::Failed(MhError::List) <==> mh_caused(
            events,
            |step: MhStep, event: MhEventView| step is List && event is Failed,
        ),
        mh_steps(MhStep::List, events) == MhStep::Failed(MhError::SequenceOverflow) <==> mh_caused(
            events,
            |step: MhStep, event: MhEventView|
                step is List && (event matches MhEventView::Listed(names) && listed(
                    names,
                ).contains(u64::MAX)),
        ),
        mh_steps(MhStep::List, events) == MhStep::Failed(MhError::Write) <==> mh_caused(
            events,
            |step: MhStep, event: MhEventView| step is Write && event is Failed,
        ),
    decreases events.len(),
{
    let unlisted = |step: MhStep, event: MhEventView| step is List && event is Failed;
    let full = |step: MhStep, event: MhEventView|
        step is List && (event matches MhEventView::Listed(names) && listed(names).contains(
            u64::MAX,
        ));
    let unwritten = |step: MhStep, event: MhEventView| step is Write && event is Failed;
    if events.len() > 0 {
        mh_store_fails_for_cause(events.drop_last());
        lemma_mh_cause(events, unlisted);
        lemma_mh_cause(events, full);
        lemma_mh_cause(events, unwritten);
        if let MhEventView::Listed(names) = events.last() {
            highest_is_highest(names);
        }
    }
}

/// A message that is not known is written to an MH mailbox, unless the numbers have run out or it
/// is a dry run; and if it can be written, it is stored.
pub proof fn unknown_message_is_written(
    known: Option<CacheView>,
    hash: Seq<u8>,
    names: Seq<Seq<char>>,
    recorded: MhEventView,
    marked: MhEventView,
)
    requires
        known matches Some(view) ==> !view.contains(hash),
        !listed(names).contains(u64::MAX),
        !(recorded is Listed),
        !(marked is Listed),
    ensures
        ({
            let first = mh_step(known, false, hash);
            let listing = seq![MhEventView::Listed(names)];
            let all = listing.push(MhEventView::Succeeded).push(recorded).push(marked);
            &&& mh_steps(first, listing) is Write
            &&& mh_steps(first, all) == MhStep::Done(StoreResult::Stored)
        }),
        mh_step(known, true, hash) == MhStep::Done(StoreResult::Stored),
{
    let listing = seq![MhEventView::Listed(names)];
    let written = listing.push(MhEventView::Succeeded);
    reveal_with_fuel(mh_steps, 5);
    highest_is_highest(names);
    assert(listing.drop_last() =~= Seq::<MhEventView>::empty());
    assert(written.drop_last() =~= listing);
    assert(written.push(recorded).drop_last() =~= written);
    assert(written.push(recorded).push(marked).drop_last() =~= written.push(recorded));
}

/// A message that is known is not written to an MH mailbox, whatever happens.
pub proof fn known_message_is_not_written(
    known: CacheView,
    dry_run: bool,
    hash: Seq<u8>,
    events: Seq<MhEventView>,
)
    requires
        known.contains(hash),
    ensures
        mh_steps(mh_step(Some(known), dry_run, hash), events) == MhStep::Done(
            StoreResult::AlreadyExists { identical: true },
        ),
    decreases events.len(),
{
    if events.len() > 0 {
        known_message_is_not_written(known, dry_run, hash, events.drop_last());
    }
}

} // verus!
