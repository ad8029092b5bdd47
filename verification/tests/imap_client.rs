use mailarch::imap_client::{
    archivable_uids, covers_cutoff, fetched_message, search_criteria, uid_set, DeleteEvent, DeleteStep,
    FetchResponse, ImapClient, ListedName, NotConnected, CALENDAR_END, CALENDAR_START,
    SECONDS_PER_DAY,
};

fn client() -> ImapClient<&'static str> {
    ImapClient::connect("session")
}

fn gone() -> ImapClient<&'static str> {
    let mut client = client();
    assert_eq!(client.logout(), Some("session"));
    client
}

fn listed(name: &str, delimiter: Option<&str>, no_select: bool) -> ListedName {
    ListedName { name: name.to_string(), delimiter: delimiter.map(str::to_string), no_select }
}

#[test]
fn session_ends_with_logout() {
    let mut client = client();
    *client.session().unwrap() = "other";
    assert_eq!(client.logout(), Some("other"));
    assert_eq!(client.logout(), None);
    assert!(client.session().is_err());
}

#[test]
fn without_session_nothing_goes() {
    let client = gone();
    assert!(matches!(client.list_mailboxes(&vec![]), Err(NotConnected)));
    assert_eq!(client.fetch_archivable_uids(0, 30), Err(NotConnected));
    assert_eq!(client.fetch_messages(&[1]), Err(NotConnected));
    assert_eq!(client.delete_messages(&[1]), Err(NotConnected));
    assert_eq!(client.fetch_messages(&[]), Ok(None));
    assert_eq!(client.delete_messages(&[]), Ok(DeleteStep::Nothing));
}

#[test]
fn selectable_mailboxes_are_listed() {
    let answer = vec![
        listed("INBOX", Some("/"), false),
        listed("[Gmail]", Some("/"), true),
        listed("INBOX.Sent", Some(".x"), false),
        listed("Flat", None, false),
        listed("Empty", Some(""), false),
    ];
    let mailboxes = client().list_mailboxes(&answer).unwrap_or_default();
    let shown: Vec<(&str, char)> =
        mailboxes.iter().map(|mailbox| (mailbox.name.as_str(), mailbox.delimiter)).collect();
    assert_eq!(shown, vec![("INBOX", '/'), ("INBOX.Sent", '.'), ("Flat", '/'), ("Empty", '/')]);
}

#[test]
fn search_is_for_read_and_old_messages() {
    // 2023-11-14 22:13:20
    let now = 1700000000;
    assert_eq!(client().fetch_archivable_uids(now, 30).unwrap(), "SEEN BEFORE 16-Oct-2023");
    assert_eq!(client().fetch_archivable_uids(now, 0).unwrap(), "SEEN BEFORE 15-Nov-2023");
    assert_eq!(client().fetch_archivable_uids(now, 1).unwrap(), "SEEN BEFORE 14-Nov-2023");
    // 2024-03-01 12:00:00
    assert_eq!(client().fetch_archivable_uids(1709294400, 2).unwrap(), "SEEN BEFORE 29-Feb-2024");
    assert_eq!(client().fetch_archivable_uids(0, 2).unwrap(), "SEEN BEFORE 31-Dec-1969");
}

#[test]
fn search_names_its_date() {
    assert_eq!(search_criteria("01-Jan-2024"), "SEEN BEFORE 01-Jan-2024");
}

#[test]
fn cutoff_is_inclusive() {
    // Midnight, and the second before the next one.
    for now in [1699920000, 1699920000 + SECONDS_PER_DAY - 1] {
        assert_eq!(client().fetch_archivable_uids(now, 3).unwrap(), "SEEN BEFORE 12-Nov-2023");
    }
    let next = 1699920000 + SECONDS_PER_DAY;
    assert_eq!(client().fetch_archivable_uids(next, 3).unwrap(), "SEEN BEFORE 13-Nov-2023");
}

#[test]
fn calendar_has_an_end() {
    let last = CALENDAR_END - SECONDS_PER_DAY;
    assert!(covers_cutoff(last, 0));
    assert_eq!(client().fetch_archivable_uids(last, 0).unwrap(), "SEEN BEFORE 31-Dec-+262142");
    assert!(!covers_cutoff(last + 1, 0));
    assert!(covers_cutoff(CALENDAR_END, 1));
    assert!(!covers_cutoff(CALENDAR_END + 1, 2));
    assert!(covers_cutoff(CALENDAR_START, 0));
    assert_eq!(client().fetch_archivable_uids(CALENDAR_START, 0).unwrap(), "SEEN BEFORE 02-Jan--262143");
    assert!(!covers_cutoff(CALENDAR_START, 1));
    assert!(!covers_cutoff(CALENDAR_START - 1, 0));
    assert!(!covers_cutoff(1700000000, u32::MAX));
    assert!(chrono::DateTime::from_timestamp(CALENDAR_END, 0).is_some());
    assert!(chrono::DateTime::from_timestamp(CALENDAR_END + 1, 0).is_none());
    assert!(chrono::DateTime::from_timestamp(CALENDAR_START, 0).is_some());
    assert!(chrono::DateTime::from_timestamp(CALENDAR_START - 1, 0).is_none());
}

#[test]
fn found_uids_are_sorted() {
    assert_eq!(archivable_uids(vec![5, 3, 9, 1]), vec![1, 3, 5, 9]);
    assert_eq!(archivable_uids(vec![2, 2, 1]), vec![1, 2, 2]);
    assert_eq!(archivable_uids(vec![]), vec![]);
}

#[test]
fn uids_in_commands() {
    assert_eq!(uid_set(&[]), "");
    assert_eq!(uid_set(&[7]), "7");
    assert_eq!(uid_set(&[1, 20, 4294967295]), "1,20,4294967295");
    assert_eq!(client().fetch_messages(&[1, 20]), Ok(Some("1,20".to_string())));
    assert_eq!(client().fetch_messages(&[]), Ok(None));
}

#[test]
fn fetched_messages_are_read() {
    let response = |uid, body, internal_date| FetchResponse { uid, body, internal_date };
    let message = fetched_message(response(Some(4), Some(vec![1, 2]), Some(99)), 500).unwrap();
    assert_eq!((message.uid, message.raw, message.received_at), (4, vec![1, 2], 99));
    let message = fetched_message(response(Some(4), Some(vec![]), Some(-1)), 500).unwrap();
    assert_eq!(message.received_at, 0);
    let message = fetched_message(response(Some(4), Some(vec![]), None), 500).unwrap();
    assert_eq!(message.received_at, 500);
    assert!(fetched_message(response(None, Some(vec![]), Some(1)), 500).is_none());
    assert!(fetched_message(response(Some(4), None, Some(1)), 500).is_none());
}

#[test]
fn deleting_messages() {
    let step = client().delete_messages(&[1, 2]).unwrap();
    assert_eq!(step, DeleteStep::Flag);
    let step = step.next(DeleteEvent::Succeeded);
    assert_eq!(step, DeleteStep::AskCapabilities);
    let marked = step.next(DeleteEvent::Capabilities { uidplus: false });
    assert_eq!(marked, DeleteStep::Marked);
    assert!(marked.is_ok());
    let step = step.next(DeleteEvent::Capabilities { uidplus: true });
    assert_eq!(step, DeleteStep::Expunge);
    assert!(!step.is_ok());
    assert_eq!(step.next(DeleteEvent::Succeeded), DeleteStep::Removed);
    assert!(DeleteStep::Removed.is_ok());
    assert!(DeleteStep::Nothing.is_ok());
    for step in [DeleteStep::Flag, DeleteStep::AskCapabilities, DeleteStep::Expunge] {
        assert_eq!(step.next(DeleteEvent::Failed), DeleteStep::Failed);
    }
    assert!(!DeleteStep::Failed.is_ok());
    assert_eq!(DeleteStep::Failed.next(DeleteEvent::Succeeded), DeleteStep::Failed);
}
