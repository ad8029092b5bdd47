use mailarch::config::{ArchiveConfig, Config, ImapConfig, MailboxFormat};
use mailarch::mailbox_path::{join_path, mailbox_path};
use std::path::Path;

fn config(directory: &str, format: MailboxFormat, renames: Vec<(&str, &str)>) -> Config {
    Config::new(
        ImapConfig::new("mail.example.com".to_string(), None, "user".to_string(), "secret".to_string()),
        ArchiveConfig::new(
            directory.to_string(),
            None,
            format,
            vec![],
            renames.into_iter().map(|(a, b)| (a.to_string(), b.to_string())).collect(),
        ),
    )
}

#[test]
fn nested_directories() {
    let c = config("/archive", MailboxFormat::Maildir, vec![]);
    assert_eq!(mailbox_path(&c, "INBOX/Sent", '/'), "/archive/INBOX/Sent");
    assert_eq!(mailbox_path(&c, "INBOX.Sent", '.'), "/archive/INBOX/Sent");
    assert_eq!(mailbox_path(&c, "INBOX.Sent", '/'), "/archive/INBOX.Sent");
    let c = config("/archive", MailboxFormat::Mh, vec![]);
    assert_eq!(mailbox_path(&c, "INBOX/Sent", '/'), "/archive/INBOX/Sent");
}

#[test]
fn flat_directories() {
    let c = config("/archive", MailboxFormat::MaildirPP, vec![]);
    assert_eq!(mailbox_path(&c, "INBOX/Sent", '/'), "/archive/.INBOX.Sent");
    assert_eq!(mailbox_path(&c, "INBOX/v1.2/x", '/'), "/archive/.INBOX.v1_2.x");
    assert_eq!(mailbox_path(&c, "", '/'), "/archive/.");
}

#[test]
fn traversal_is_dropped() {
    let c = config("/archive", MailboxFormat::Maildir, vec![]);
    assert_eq!(mailbox_path(&c, "/../a/./..//b/", '/'), "/archive/a/b");
    assert_eq!(mailbox_path(&c, "../../etc/passwd", '.'), "/archive/_/_etc_passwd");
    assert_eq!(mailbox_path(&c, "...", '/'), "/archive/...");
    assert_eq!(mailbox_path(&c, "a\\b.c/d", '.'), "/archive/a_b/c_d");
    assert_eq!(mailbox_path(&c, "..", '/'), "/archive/");
    let c = config("/archive", MailboxFormat::MaildirPP, vec![]);
    assert_eq!(mailbox_path(&c, "../x/..", '/'), "/archive/.x");
    assert_eq!(mailbox_path(&c, "...", '/'), "/archive/.___");
}

#[test]
fn renamed_mailboxes() {
    let c = config("/archive", MailboxFormat::Maildir, vec![("INBOX", "Eingang/Alt"), ("A", "B"), ("A", "C")]);
    assert_eq!(mailbox_path(&c, "INBOX", '/'), "/archive/Eingang/Alt");
    assert_eq!(mailbox_path(&c, "INBOX/Sent", '/'), "/archive/INBOX/Sent");
    assert_eq!(mailbox_path(&c, "A", '/'), "/archive/C");
    let c = config("/archive", MailboxFormat::Maildir, vec![("INBOX", "../../x")]);
    assert_eq!(mailbox_path(&c, "INBOX", '/'), "/archive/x");
}

#[test]
fn paths_join_as_std_joins_them() {
    for base in ["", "/", "a", "a/", "/a/b"] {
        for rel in ["", "x", "x/y", "/x", ".lock"] {
            let expected = Path::new(base).join(rel);
            assert_eq!(join_path(base, rel), expected.to_str().unwrap());
        }
    }
}
