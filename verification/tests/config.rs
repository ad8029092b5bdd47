use mailarch::config::{ArchiveConfig, Config, ImapConfig, MailboxFormat};
use mailarch::mode::Mode;

fn sample(port: Option<u16>, days: Option<u32>) -> Config {
    Config::new(
        ImapConfig::new("mail.example.com".to_string(), port, "user".to_string(), "secret".to_string()),
        ArchiveConfig::new(
            "/home/user/mail/archive".to_string(),
            days,
            MailboxFormat::Mh,
            vec!["INBOX/Spam".to_string(), "INBOX/Trash".to_string()],
            vec![("Sent".to_string(), "Gesendet".to_string())],
        ),
    )
}

#[test]
fn settings_are_kept() {
    let c = sample(Some(1993), Some(7));
    assert_eq!(c.imap().host(), "mail.example.com");
    assert_eq!(c.imap().port(), 1993);
    assert_eq!(c.imap().username(), "user");
    assert_eq!(c.imap().password(), "secret");
    assert_eq!(c.archive().directory(), "/home/user/mail/archive");
    assert_eq!(c.archive().min_age_days(), 7);
    assert_eq!(c.archive().format(), MailboxFormat::Mh);
    assert_eq!(c.archive().skip_mailboxes().to_vec(), vec!["INBOX/Spam", "INBOX/Trash"]);
    assert_eq!(c.archive().rename_mailboxes().get("Sent").unwrap(), "Gesendet");
    assert!(c.archive().rename_mailboxes().get("INBOX").is_none());
}

#[test]
fn defaults_apply() {
    let c = sample(None, None);
    assert_eq!(c.imap().port(), 993);
    assert_eq!(c.archive().min_age_days(), 30);
    assert_eq!(MailboxFormat::default(), MailboxFormat::Maildir);
}

#[test]
fn format_names() {
    assert_eq!(MailboxFormat::Maildir.to_string(), "maildir");
    assert_eq!(MailboxFormat::MaildirPP.to_string(), "maildir++");
    assert_eq!(MailboxFormat::Mh.to_string(), "mh");
}

#[test]
fn format_names_read_back() {
    for format in [MailboxFormat::Maildir, MailboxFormat::MaildirPP, MailboxFormat::Mh] {
        assert_eq!(MailboxFormat::from_name(&format.to_string()), Some(format));
        assert_eq!(MailboxFormat::configured(Some(&format.to_string())), Some(format));
    }
    for name in ["", "Maildir", "maildir+", "maildirpp", "mh "] {
        assert_eq!(MailboxFormat::from_name(name), None);
        assert_eq!(MailboxFormat::configured(Some(name)), None);
    }
    assert_eq!(MailboxFormat::configured(None), Some(MailboxFormat::Maildir));
}

#[test]
fn modes() {
    assert_eq!(Mode::Copy.prefix(), "[copy] ");
    assert_eq!(Mode::Move.prefix(), "[move] ");
    assert_eq!(Mode::DryRun.prefix(), "[dry-run] ");
    for mode in [Mode::Copy, Mode::Move, Mode::DryRun] {
        assert_eq!(mode.is_copy(), mode == Mode::Copy);
        assert_eq!(mode.is_move(), mode == Mode::Move);
        assert_eq!(mode.is_dry_run(), mode == Mode::DryRun);
    }
}
