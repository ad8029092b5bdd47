use mailarch::claws_mark::{ClawsMarkFile, MarkError};

#[test]
fn mark_file_path() {
    assert_eq!(ClawsMarkFile::new("/mail/INBOX").path(), "/mail/INBOX/.claws_mark");
}

#[test]
fn first_mark_starts_file() {
    let mark = ClawsMarkFile::new("/mail").mark_read(0x01020304).unwrap();
    assert_eq!(
        mark.bytes(None).unwrap(),
        vec![2, 0, 0, 0, 0x04, 0x03, 0x02, 0x01, 0, 0, 0, 0]
    );
}

#[test]
fn next_mark_is_appended() {
    let file = ClawsMarkFile::new("/mail");
    let mark = file.mark_read(7).unwrap();
    assert_eq!(mark.bytes(Some(&[2, 0, 0, 0])).unwrap(), vec![7, 0, 0, 0, 0, 0, 0, 0]);
    assert_eq!(mark.bytes(Some(&[2, 0, 0, 0, 9, 9])).unwrap(), vec![7, 0, 0, 0, 0, 0, 0, 0]);
    let mark = file.mark_read(u64::from(u32::MAX)).unwrap();
    assert_eq!(mark.bytes(Some(&[2, 0, 0, 0])).unwrap(), vec![255, 255, 255, 255, 0, 0, 0, 0]);
}

#[test]
fn mark_errors() {
    let file = ClawsMarkFile::new("/mail");
    let n = u64::from(u32::MAX) + 1;
    assert!(matches!(file.mark_read(n), Err(MarkError::MsgnumTooLarge(m)) if m == n));
    let mark = file.mark_read(1).unwrap();
    assert_eq!(mark.bytes(Some(&[])).unwrap_err(), MarkError::TooShort);
    assert_eq!(mark.bytes(Some(&[2, 0, 0])).unwrap_err(), MarkError::TooShort);
    assert_eq!(mark.bytes(Some(&[3, 0, 0, 0])).unwrap_err(), MarkError::UnexpectedVersion(3));
    assert_eq!(ClawsMarkFile::verify_version(&[2, 0, 0, 0]), Ok(()));
    assert_eq!(ClawsMarkFile::verify_version(&[2, 0, 0, 1]), Err(MarkError::UnexpectedVersion(0x01000002)));
}
