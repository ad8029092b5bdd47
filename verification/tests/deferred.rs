use mailarch::deferred::{Deferred, Wait};

#[test]
fn result_is_stored() {
    let mut d: Deferred<String, u32> = Deferred::spawn(7);
    assert!(d.as_ref().is_none());
    assert!(d.as_mut().is_none());
    assert!(matches!(d.wait(), Wait::Join(7)));
    d.finish("done".to_string());
    assert!(matches!(d.wait(), Wait::Finished));
    d.as_mut().unwrap().push('!');
    assert_eq!(d.as_ref().unwrap(), "done!");
    assert!(matches!(d.wait(), Wait::Finished));
}

#[test]
fn handle_is_given_out_once() {
    let mut d: Deferred<String, u32> = Deferred::spawn(7);
    assert!(matches!(d.wait(), Wait::Join(7)));
    assert!(matches!(d.wait(), Wait::AlreadyTaken));
    assert!(d.as_ref().is_none());
}
