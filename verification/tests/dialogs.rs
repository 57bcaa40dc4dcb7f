use concentra::dialogs::{ended, next, Dialog, Event};

#[test]
fn a_pick_ends_the_question() {
    assert_eq!(next(Dialog::Asking, Event::Picked), Dialog::Taken);
    assert!(ended(Dialog::Taken));
    assert!(!ended(Dialog::Asking));
}

#[test]
fn giving_up_must_be_confirmed() {
    let state = next(Dialog::Asking, Event::Dismissed);
    assert_eq!(state, Dialog::Confirming);
    assert!(!ended(state));
    assert_eq!(next(state, Event::No), Dialog::Asking);
    assert_eq!(next(state, Event::Yes), Dialog::Cancelled);
    assert!(ended(Dialog::Cancelled));
}

#[test]
fn what_does_not_answer_changes_nothing() {
    assert_eq!(next(Dialog::Asking, Event::Yes), Dialog::Asking);
    assert_eq!(next(Dialog::Asking, Event::No), Dialog::Asking);
    assert_eq!(next(Dialog::Confirming, Event::Picked), Dialog::Confirming);
    assert_eq!(next(Dialog::Confirming, Event::Dismissed), Dialog::Confirming);
    for event in [Event::Picked, Event::Dismissed, Event::Yes, Event::No] {
        assert_eq!(next(Dialog::Taken, event), Dialog::Taken);
        assert_eq!(next(Dialog::Cancelled, event), Dialog::Cancelled);
    }
}
