//! Claws-Mail's `.claws_mark` file.
//!
//! Binary layout (all fields little-endian u32):
//! ```text
//! header:  [VERSION]
//! records: [msgnum][perm_flags]  (one per message)
//! ```
use crate::mailbox_path::{join_path, path_joined};
use vstd::prelude::*;

verus! {

/// Mark-file format version.
pub const VERSION: u32 = 2;

/// Size of the file header in bytes.
pub const HEADER_LEN: usize = 4;

/// Size of one message record in bytes.
pub const RECORD_LEN: usize = 8;

/// The flags of a message that is neither new nor unread.
pub const FLAGS_READ: u32 = 0;

/// The name of the mark file inside the mailbox directory.
pub const MARK_FILE_NAME: &'static str = ".claws_mark";

/// The four bytes of `x`, the lowest first.
pub open spec fn le_bytes(x: u32) -> Seq<u8> {
    seq![
        (x % 256) as u8,
        (x / 256 % 256) as u8,
        (x / 65536 % 256) as u8,
        (x / 16777216) as u8,
    ]
}

/// The number that four bytes stand for, the lowest first.
pub open spec fn le_value(bytes: Seq<u8>) -> u32 {
    (bytes[0] + 256 * bytes[1] + 65536 * bytes[2] + 16777216 * bytes[3]) as u32
}

/// A number reads back from its bytes.
pub proof fn le_bytes_read_back(x: u32)
    ensures
        le_bytes(x).len() == 4,
        le_value(le_bytes(x)) == x,
{
}

/// The record of message `msgnum`.
pub open spec fn record(msgnum: u32, flags: u32) -> Seq<u8> {
    le_bytes(msgnum) + le_bytes(flags)
}

/// The message number and the flags in a record.
pub open spec fn record_value(bytes: Seq<u8>) -> (u32, u32) {
    (le_value(bytes.subrange(0, 4)), le_value(bytes.subrange(4, 8)))
}

/// A mark file: a header of the known version and whole records.
pub open spec fn is_mark_file(file: Seq<u8>) -> bool {
    file.len() >= HEADER_LEN && le_value(file.take(HEADER_LEN as int)) == VERSION && (file.len()
        - HEADER_LEN) % RECORD_LEN as int == 0
}

/// The message numbers and flags that a mark file records.
pub open spec fn marks(file: Seq<u8>) -> Seq<(u32, u32)> {
    Seq::new(
        ((file.len() - HEADER_LEN) / RECORD_LEN as int) as nat,
        |i: int|
            record_value(
                file.subrange(HEADER_LEN + RECORD_LEN * i, HEADER_LEN + RECORD_LEN * (i + 1)),
            ),
    )
}

/// Why a message could not be marked.
#[derive(Debug, Clone, Copy, PartialEq, Eq, Structural)]
pub enum MarkError {
    /// The message number does not fit in the record.
    MsgnumTooLarge(u64),
    /// The file is too short to contain a version header.
    TooShort,
    /// The file has another version.
    UnexpectedVersion(u32),
}

/// The four bytes of `x`, the lowest first.
fn to_le_bytes(x: u32) -> (res: Vec<u8>)
    ensures
        res@ == le_bytes(x),
{
    let mut out: Vec<u8> = Vec::new();
    out.push((x % 256) as u8);
    out.push((x / 256 % 256) as u8);
    out.push((x / 65536 % 256) as u8);
    out.push((x / 16777216) as u8);
    out
}

/// A message to be marked as read.
pub struct ReadMark {
    msgnum: u32,
}

impl View for ReadMark {
    type V = u32;

    closed spec fn view(&self) -> u32 {
        self.msgnum
    }
}

impl ReadMark {
    /// The bytes to put behind the mark file. `existing` are the first bytes of the file, at least
    /// as many as a header has where the file is as long; it is `None` where there is no file yet,
    /// which then starts with a header.
    pub fn bytes(&self, existing: Option<&[u8]>) -> (res: Result<Vec<u8>, MarkError>)
        ensures
            match existing {
                None => res matches Ok(bytes) && bytes@ == le_bytes(VERSION) + record(
                    self@,
                    FLAGS_READ,
                ),
                Some(start) => if start@.len() < HEADER_LEN {
                    res == Err::<Vec<u8>, MarkError>(MarkError::TooShort)
                } else if le_value(start@) != VERSION {
                    res == Err::<Vec<u8>, MarkError>(MarkError::UnexpectedVersion(le_value(start@)))
                } else {
                    res matches Ok(bytes) && bytes@ == record(self@, FLAGS_READ)
                },
            },
    {
        let mut out: Vec<u8> = Vec::new();
        match existing {
            None => {
                let mut header = to_le_bytes(VERSION);
                out.append(&mut header);
            },
            Some(start) => {
                if let Err(e) = ClawsMarkFile::verify_version(start) {
                    return Err(e);
                }
            },
        }
        let mut msgnum = to_le_bytes(self.msgnum);
        let mut flags = to_le_bytes(FLAGS_READ);
        out.append(&mut msgnum);
        out.append(&mut flags);
        Ok(out)
    }
}

/// The mark file of one mailbox.
pub struct ClawsMarkFile {
    path: String,
}

impl View for ClawsMarkFile {
    type V = Seq<char>;

    /// The path of the file.
    closed spec fn view(&self) -> Seq<char> {
        self.path@
    }
}

impl ClawsMarkFile {
    pub fn new(base: &str) -> (res: Self)
        ensures
            res@ == path_joined(base@, MARK_FILE_NAME@),
    {
        ClawsMarkFile { path: join_path(base, MARK_FILE_NAME) }
    }

    pub fn path(&self) -> (res: &str)
        ensures
            res@ == self@,
    {
        self.path.as_str()
    }

    /// Checks the version of a mark file that starts with the bytes `start`.
    pub fn verify_version(start: &[u8]) -> (res: Result<(), MarkError>)
        ensures
            res == if start@.len() < HEADER_LEN {
                Err::<(), MarkError>(MarkError::TooShort)
            } else if le_value(start@) != VERSION {
                Err(MarkError::UnexpectedVersion(le_value(start@)))
            } else {
                Ok(())
            },
    {
        if start.len() < HEADER_LEN {
            return Err(MarkError::TooShort);
        }
        let version: u32 = start[0] as u32 + 256 * start[1] as u32 + 65536 * start[2] as u32
            + 16777216 * start[3] as u32;
        if version != VERSION {
            return Err(MarkError::UnexpectedVersion(version));
        }
        Ok(())
    }

    /// Prepares a "read" record for `msgnum`.
    pub fn mark_read(&self, msgnum: u64) -> (res: Result<ReadMark, MarkError>)
        ensures
            if msgnum > u32::MAX {
                res matches Err(e) && e == MarkError::MsgnumTooLarge(msgnum)
            } else {
                res matches Ok(mark) && mark@ == msgnum
            },
    {
        if msgnum > u32::MAX as u64 {
            return Err(MarkError::MsgnumTooLarge(msgnum));
        }
        Ok(ReadMark { msgnum: msgnum as u32 })
    }
}

/// A record reads back.
proof fn lemma_record(msgnum: u32, flags: u32)
    ensures
        record(msgnum, flags).len() == RECORD_LEN,
        record_value(record(msgnum, flags)) == (msgnum, flags),
{
    let bytes = record(msgnum, flags);
    assert(bytes.subrange(0, 4) == le_bytes(msgnum));
    assert(bytes.subrange(4, 8) == le_bytes(flags));
    le_bytes_read_back(msgnum);
    le_bytes_read_back(flags);
}

/// Marking a message adds its record to the file, and leaves those that are there as they were.
pub proof fn marking_appends(file: Seq<u8>, msgnum: u32)
    requires
        is_mark_file(file),
    ensures
        ({
            let longer = file + record(msgnum, FLAGS_READ);
            &&& is_mark_file(longer)
            &&& marks(longer) == marks(file).push((msgnum, FLAGS_READ))
        }),
{
    let longer = file + record(msgnum, FLAGS_READ);
    lemma_record(msgnum, FLAGS_READ);
    assert(longer.take(HEADER_LEN as int) == file.take(HEADER_LEN as int));
    let n = marks(file).len();
    assert forall|i: int| 0 <= i < marks(longer).len() implies marks(longer)[i] == marks(file).push(
        (msgnum, FLAGS_READ),
    )[i] by {
        let from = HEADER_LEN + RECORD_LEN * i;
        let to = HEADER_LEN + RECORD_LEN * (i + 1);
        if i < n {
            assert(longer.subrange(from, to) == file.subrange(from, to));
        } else {
            assert(longer.subrange(from, to) == record(msgnum, FLAGS_READ));
        }
    }
    assert(marks(longer) =~= marks(file).push((msgnum, FLAGS_READ)));
}

/// A mark file that did not exist is, after marking a message, one with that message's record.
pub proof fn marking_starts_file(msgnum: u32)
    ensures
        ({
            let file = le_bytes(VERSION) + record(msgnum, FLAGS_READ);
            &&& is_mark_file(file)
            &&& marks(file) == seq![(msgnum, FLAGS_READ)]
        }),
{
    let header = le_bytes(VERSION);
    le_bytes_read_back(VERSION);
    assert(header.take(HEADER_LEN as int) == header);
    marking_appends(header, msgnum);
    assert(marks(header).push((msgnum, FLAGS_READ)) =~= seq![(msgnum, FLAGS_READ)]);
}

/// The bytes of a number are its digits to the base 256, the lowest first. Reading looks at four
/// bytes and no more.
pub proof fn bytes_are_digits(x: u32, bytes: Seq<u8>)
    requires
        bytes.len() >= 4,
    ensures
        le_bytes(x).len() == 4,
        x == le_bytes(x)[0] + 256 * le_bytes(x)[1] + 65536 * le_bytes(x)[2] + 16777216 * le_bytes(
            x,
        )[3],
        le_bytes(le_value(bytes)) == bytes.take(4),
{
    let value = bytes[0] + 256 * bytes[1] + 65536 * bytes[2] + 16777216 * bytes[3];
    assert(0 <= value <= u32::MAX);
    assert(le_value(bytes) == value);
    assert(le_bytes(le_value(bytes)) =~= bytes.take(4));
}

/// A record is the bytes of the message number and then those of the flags.
pub proof fn record_tells_message(msgnum: u32, flags: u32)
    ensures
        record(msgnum, flags).len() == RECORD_LEN,
        le_value(record(msgnum, flags)) == msgnum,
        le_value(record(msgnum, flags).skip(4)) == flags,
{
    lemma_record(msgnum, flags);
    let bytes = record(msgnum, flags);
    assert(bytes.skip(4) =~= bytes.subrange(4, 8));
    le_bytes_read_back(msgnum);
}

} // verus!
