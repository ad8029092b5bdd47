//! The configuration of the archiver.
use crate::text::views;
use vstd::hash_map::StringHashMap;
use vstd::prelude::*;

verus! {

/// The port of IMAP over TLS.
pub const DEFAULT_PORT: u16 = 993;

/// The age that a message must have reached where the configuration names none.
pub const DEFAULT_MIN_AGE_DAYS: u32 = 30;

/// Local mailbox storage format.
#[derive(Debug, Clone, Copy, PartialEq, Eq, Structural)]
pub enum MailboxFormat {
    /// Standard Maildir: nested subdirectory per mailbox, messages in `cur/`.
    Maildir,
    /// Maildir++: flat dot-prefixed directories, messages in `cur/`.
    MaildirPP,
    /// MH format (Claws-Mail native): numbered message files, `.mh_sequences`.
    Mh,
}

impl Default for MailboxFormat {
    fn default() -> (res: Self)
        ensures
            res == MailboxFormat::Maildir,
    {
        MailboxFormat::Maildir
    }
}

impl MailboxFormat {
    /// The name of the format, as the configuration file writes it.
    pub open spec fn name(self) -> Seq<char> {
        match self {
            MailboxFormat::Maildir => "maildir"@,
            MailboxFormat::MaildirPP => "maildir++"@,
            MailboxFormat::Mh => "mh"@,
        }
    }

    /// The format with this name, where there is one.
    pub fn from_name(name: &str) -> (res: Option<MailboxFormat>)
        ensures
            match res {
                Some(format) => format.name() == name@,
                None => forall|format: MailboxFormat| #[trigger] format.name() != name@,
            },
    {
        let name = name.to_owned();
        if name == "maildir".to_owned() {
            Some(MailboxFormat::Maildir)
        } else if name == "maildir++".to_owned() {
            Some(MailboxFormat::MaildirPP)
        } else if name == "mh".to_owned() {
            Some(MailboxFormat::Mh)
        } else {
            None
        }
    }

    /// The format that the configuration names, and the default where it names none.
    pub fn configured(name: Option<&str>) -> (res: Option<MailboxFormat>)
        ensures
            match name {
                Some(name) => match res {
                    Some(format) => format.name() == name@,
                    None => forall|format: MailboxFormat| #[trigger] format.name() != name@,
                },
                None => res == Some(MailboxFormat::Maildir),
            },
    {
        match name {
            Some(name) => Self::from_name(name),
            None => Some(Self::default()),
        }
    }

    /// The name of the format, as the configuration file writes it.
    pub fn to_string(&self) -> (res: String)
        ensures
            res@ == self.name(),
    {
        match self {
            MailboxFormat::Maildir => "maildir".to_owned(),
            MailboxFormat::MaildirPP => "maildir++".to_owned(),
            MailboxFormat::Mh => "mh".to_owned(),
        }
    }
}

/// No two formats have the same name, so that the name of a format reads back as that format.
pub proof fn format_names_differ(a: MailboxFormat, b: MailboxFormat)
    ensures
        a.name() == b.name() ==> a == b,
{
    reveal_strlit("maildir");
    reveal_strlit("maildir++");
    reveal_strlit("mh");
    assert(a.name().len() == b.name().len() ==> a == b);
}

/// What an [`ImapConfig`] says.
pub struct ImapConfigView {
    pub host: Seq<char>,
    pub port: Option<u16>,
    pub username: Seq<char>,
    pub password: Seq<char>,
}

/// How to reach the server.
pub struct ImapConfig {
    host: String,
    port: Option<u16>,
    username: String,
    password: String,
}

impl View for ImapConfig {
    type V = ImapConfigView;

    closed spec fn view(&self) -> ImapConfigView {
        ImapConfigView {
            host: self.host@,
            port: self.port,
            username: self.username@,
            password: self.password@,
        }
    }
}

impl ImapConfig {
    pub fn new(host: String, port: Option<u16>, username: String, password: String) -> (res: Self)
        ensures
            res@ == (ImapConfigView {
                host: host@,
                port,
                username: username@,
                password: password@,
            }),
    {
        ImapConfig { host, port, username, password }
    }

    pub fn host(&self) -> (res: &str)
        ensures
            res@ == self@.host,
    {
        self.host.as_str()
    }

    pub fn port(&self) -> (res: u16)
        ensures
            res == match self@.port {
                Some(port) => port,
                None => DEFAULT_PORT,
            },
    {
        self.port.unwrap_or(DEFAULT_PORT)
    }

    pub fn username(&self) -> (res: &str)
        ensures
            res@ == self@.username,
    {
        self.username.as_str()
    }

    pub fn password(&self) -> (res: &str)
        ensures
            res@ == self@.password,
    {
        self.password.as_str()
    }
}

/// What an [`ArchiveConfig`] says.
pub struct ArchiveConfigView {
    pub directory: Seq<char>,
    pub min_age_days: Option<u32>,
    pub format: MailboxFormat,
    pub skip_mailboxes: Seq<Seq<char>>,
    pub rename_mailboxes: Map<Seq<char>, Seq<char>>,
}

/// What to archive, and where to.
pub struct ArchiveConfig {
    directory: String,
    /// Minimum age in days before a message is archived.
    min_age_days: Option<u32>,
    /// Local mailbox storage format.
    pub format: MailboxFormat,
    /// Mailboxes to skip entirely.
    skip_mailboxes: Vec<String>,
    /// Mailbox rename mappings.
    rename_mailboxes: StringHashMap<String>,
}

/// The texts that a map of strings holds.
pub open spec fn text_map(m: Map<Seq<char>, String>) -> Map<Seq<char>, Seq<char>> {
    m.map_values(|s: String| s@)
}

/// The mapping that a list of renamings stands for: of two with the same old name, the later
/// one holds.
pub open spec fn renamings(pairs: Seq<(String, String)>) -> Map<Seq<char>, Seq<char>>
    decreases pairs.len(),
{
    if pairs.len() == 0 {
        Map::empty()
    } else {
        renamings(pairs.drop_last()).insert(pairs.last().0@, pairs.last().1@)
    }
}

impl View for ArchiveConfig {
    type V = ArchiveConfigView;

    closed spec fn view(&self) -> ArchiveConfigView {
        ArchiveConfigView {
            directory: self.directory@,
            min_age_days: self.min_age_days,
            format: self.format,
            skip_mailboxes: views(self.skip_mailboxes@),
            rename_mailboxes: text_map(self.rename_mailboxes@),
        }
    }
}

impl ArchiveConfig {
    /// `rename_mailboxes` pairs a mailbox name on the server with its local name.
    pub fn new(
        directory: String,
        min_age_days: Option<u32>,
        format: MailboxFormat,
        skip_mailboxes: Vec<String>,
        rename_mailboxes: Vec<(String, String)>,
    ) -> (res: Self)
        ensures
            res@ == (ArchiveConfigView {
                directory: directory@,
                min_age_days,
                format,
                skip_mailboxes: views(skip_mailboxes@),
                rename_mailboxes: renamings(rename_mailboxes@),
            }),
    {
        let mut renames: StringHashMap<String> = StringHashMap::new();
        let mut i: usize = 0;
        assert(text_map(renames@) == renamings(rename_mailboxes@.take(0)));
        while i < rename_mailboxes.len()
            invariant
                i <= rename_mailboxes.len(),
                text_map(renames@) == renamings(rename_mailboxes@.take(i as int)),
            decreases rename_mailboxes.len() - i,
        {
            let ghost before = renames@;
            let from = rename_mailboxes[i].0.clone();
            let to = rename_mailboxes[i].1.clone();
            renames.insert(from, to);
            assert(rename_mailboxes@.take(i + 1).drop_last() == rename_mailboxes@.take(i as int));
            assert(text_map(renames@) == text_map(before).insert(from@, to@));
            i += 1;
        }
        assert(rename_mailboxes@.take(i as int) == rename_mailboxes@);
        ArchiveConfig {
            directory,
            min_age_days,
            format,
            skip_mailboxes,
            rename_mailboxes: renames,
        }
    }

    /// The directory that holds the local mailboxes.
    pub fn directory(&self) -> (res: &str)
        ensures
            res@ == self@.directory,
    {
        self.directory.as_str()
    }

    pub fn min_age_days(&self) -> (res: u32)
        ensures
            res == match self@.min_age_days {
                Some(days) => days,
                None => DEFAULT_MIN_AGE_DAYS,
            },
    {
        self.min_age_days.unwrap_or(DEFAULT_MIN_AGE_DAYS)
    }

    pub fn format(&self) -> (res: MailboxFormat)
        ensures
            res == self@.format,
    {
        self.format
    }

    pub fn skip_mailboxes(&self) -> (res: &[String])
        ensures
            views(res@) == self@.skip_mailboxes,
    {
        self.skip_mailboxes.as_slice()
    }

    pub fn rename_mailboxes(&self) -> (res: &StringHashMap<String>)
        ensures
            text_map(res@) == self@.rename_mailboxes,
    {
        &self.rename_mailboxes
    }
}

/// What a [`Config`] says.
pub struct ConfigView {
    pub imap: ImapConfigView,
    pub archive: ArchiveConfigView,
}

/// The whole configuration.
pub struct Config {
    imap: ImapConfig,
    archive: ArchiveConfig,
}

impl View for Config {
    type V = ConfigView;

    closed spec fn view(&self) -> ConfigView {
        ConfigView { imap: self.imap@, archive: self.archive@ }
    }
}

impl Config {
    pub fn new(imap: ImapConfig, archive: ArchiveConfig) -> (res: Self)
        ensures
            res@ == (ConfigView { imap: imap@, archive: archive@ }),
    {
        Config { imap, archive }
    }

    pub fn imap(&self) -> (res: &ImapConfig)
        ensures
            res@ == self@.imap,
    {
        &self.imap
    }

    pub fn archive(&self) -> (res: &ArchiveConfig)
        ensures
            res@ == self@.archive,
    {
        &self.archive
    }
}

/// A mailbox that a renaming names is renamed to what the last such renaming says.
pub proof fn last_renaming_holds(pairs: Seq<(String, String)>, name: Seq<char>, i: int)
    requires
        0 <= i < pairs.len(),
        pairs[i].0@ == name,
        forall|j: int| i < j < pairs.len() ==> (#[trigger] pairs[j]).0@ != name,
    ensures
        renamings(pairs).contains_key(name),
        renamings(pairs)[name] == pairs[i].1@,
    decreases pairs.len(),
{
    if i < pairs.len() - 1 {
        let front = pairs.drop_last();
        assert(pairs[pairs.len() - 1].0@ != name);
        assert forall|j: int| i < j < front.len() implies (#[trigger] front[j]).0@ != name by {
            assert(front[j] == pairs[j]);
        }
        last_renaming_holds(front, name, i);
    }
}

/// A mailbox that no renaming names is not renamed.
pub proof fn unnamed_mailbox_is_not_renamed(pairs: Seq<(String, String)>, name: Seq<char>)
    requires
        forall|i: int| 0 <= i < pairs.len() ==> (#[trigger] pairs[i]).0@ != name,
    ensures
        !renamings(pairs).contains_key(name),
    decreases pairs.len(),
{
    if pairs.len() > 0 {
        let front = pairs.drop_last();
        assert(pairs[pairs.len() - 1].0@ != name);
        assert forall|i: int| 0 <= i < front.len() implies (#[trigger] front[i]).0@ != name by {
            assert(front[i] == pairs[i]);
        }
        unnamed_mailbox_is_not_renamed(front, name);
    }
}

/// The formats have these names in the configuration file.
pub proof fn format_names_are_those_of_file()
    ensures
        MailboxFormat::Maildir.name() == "maildir"@,
        MailboxFormat::MaildirPP.name() == "maildir++"@,
        MailboxFormat::Mh.name() == "mh"@,
{
}

} // verus!
