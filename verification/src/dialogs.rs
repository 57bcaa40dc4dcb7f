//! How a question to the user goes on: a pick is asked for until the user
//! gives one, or dismisses the question and then says that this was meant.

use vstd::prelude::*;

verus! {

/// Where a question stands.
#[derive(Debug, Clone, Copy, PartialEq, Eq, Structural)]
pub enum Dialog {
    /// The user is asked for a pick.
    Asking,
    /// The user dismissed the question and is asked whether to give up.
    Confirming,
    /// The user gave a pick: the question ends with it.
    Taken,
    /// The user gave up: the question ends without a pick.
    Cancelled,
}

/// What the user did.
#[derive(Debug, Clone, Copy, PartialEq, Eq, Structural)]
pub enum Event {
    /// Gave a pick.
    Picked,
    /// Dismissed the question for a pick.
    Dismissed,
    /// Said yes to giving up.
    Yes,
    /// Said no to giving up.
    No,
}

/// Where a question stands after the user did something. A pick ends it; a
/// dismissal leads to the question whether to give up; yes to that ends it
/// without a pick, and no leads back to the question for a pick. What does
/// not answer the question that stands changes nothing, and a question that
/// has ended stays ended.
pub open spec fn spec_next(state: Dialog, event: Event) -> Dialog {
    match (state, event) {
        (Dialog::Asking, Event::Picked) => Dialog::Taken,
        (Dialog::Asking, Event::Dismissed) => Dialog::Confirming,
        (Dialog::Confirming, Event::Yes) => Dialog::Cancelled,
        (Dialog::Confirming, Event::No) => Dialog::Asking,
        _ => state,
    }
}

/// Whether a question has ended.
pub open spec fn spec_ended(state: Dialog) -> bool {
    state == Dialog::Taken || state == Dialog::Cancelled
}

/// Where a question stands after the user did something.
pub fn next(state: Dialog, event: Event) -> (r: Dialog)
    ensures
        r == spec_next(state, event),
{
    match state {
        Dialog::Asking => match event {
            Event::Picked => Dialog::Taken,
            Event::Dismissed => Dialog::Confirming,
            _ => Dialog::Asking,
        },
        Dialog::Confirming => match event {
            Event::Yes => Dialog::Cancelled,
            Event::No => Dialog::Asking,
            _ => Dialog::Confirming,
        },
        Dialog::Taken => Dialog::Taken,
        Dialog::Cancelled => Dialog::Cancelled,
    }
}

/// Whether a question has ended.
pub fn ended(state: Dialog) -> (r: bool)
    ensures
        r == spec_ended(state),
{
    match state {
        Dialog::Taken => true,
        Dialog::Cancelled => true,
        _ => false,
    }
}

/// A question never ends without a pick unless the user dismissed it and
/// then said yes to giving up; and once it has ended nothing changes it.
pub proof fn lemma_giving_up_is_confirmed(state: Dialog, event: Event)
    ensures
        spec_next(state, event) == Dialog::Cancelled ==> state == Dialog::Cancelled || (state
            == Dialog::Confirming && event == Event::Yes),
        spec_next(state, event) == Dialog::Taken ==> state == Dialog::Taken || (state
            == Dialog::Asking && event == Event::Picked),
        spec_ended(state) ==> spec_next(state, event) == state,
{
}

} // verus!
