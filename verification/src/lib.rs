//! Archiving of mail from an IMAP server into local mailboxes.
//!
//! The crate holds the rules of the archiver: where a mailbox lives on disk, how a message file
//! is named and recognised again, what the hash cache of an MH mailbox records, and in which
//! order the steps of a run follow one another. The steps themselves (network, files, signals)
//! are performed by the program around it, which hands back what came of each.
pub mod archive;
pub mod claws_mark;
pub mod config;
pub mod database;
pub mod deferred;
pub mod hash;
pub mod hash_cache;
pub mod imap_client;
pub mod lock;
pub mod mailbox_path;
pub mod maildir;
pub mod mode;
pub mod text;
