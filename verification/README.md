# mailarch

Archive emails from an IMAP server to a local mailbox in Maildir, Maildir++ or MH format.

The rules of the archiver are a library that is verified with
[Verus](https://github.com/verus-lang/verus). The program around it performs what the library
decides, and hands back what came of it.

| Path | What it holds |
| --- | --- |
| `src/archive.rs` | The run through the mailboxes of a server and the messages of a mailbox |
| `src/imap_client.rs` | What is asked of the server, and what its answers say |
| `src/lock.rs` | The way to an advisory lock |
| `src/maildir.rs` | How a mailbox is opened and a message is stored in it |
| `src/hash_cache.rs` | The record of the messages of an MH mailbox |
| `src/database.rs` | The embedded database, and what is claimed of it without proof |
| `src/claws_mark.rs` | The mark file of Claws-Mail |
| `src/mailbox_path.rs` | Where a mailbox lives on disk |
| `src/hash.rs` | Message hashes |
| `src/deferred.rs` | Results of tasks in the background |
| `src/config.rs`, `src/mode.rs` | Settings |
| `src/text.rs` | Numerals, searching, splitting and joining |
| `tests/` | Tests of the library |
| `app/` | The program: command line, network, files, signals |

## Modes

- **copy**: archive locally, keep messages on the server
- **move**: archive locally, delete messages from the server
- **dry-run**: show what would be done without making any changes

A message is deleted from the server only in move mode, and only once a good local copy of it was
made or found. A mailbox name cannot lead out of the archive directory.

## Configuration

```toml
[imap]
host = "mail.example.com"
#port = 993
username = "user@example.com"
password = "secret"

[archive]
directory = "/home/user/mail/archive"
min_age_days = 30
# format = "maildir"   # or "maildir++", "mh"
# skip_mailboxes = [ "INBOX/Spam", "INBOX/Trash" ]
# rename_mailboxes = { "INBOX" = "Inbox" }
```

## Usage

```sh
mailarch [--config <path>] <copy|move|dry-run>
```
