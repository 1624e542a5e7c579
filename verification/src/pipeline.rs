//! The way of a generated mask from its self-test to the clients.
use crate::error::Error;
use crate::mask::MaskProfile;
use crate::selftest::SelfTestResult;
use crate::single::{of_int, Single};
use vstd::prelude::*;
use vstd::string::StringExecFns;

verus! {

/// How a mask has fared so far.
#[derive(Debug)]
pub struct MaskStats {
    pub mask_id: String,
    pub times_used: u64,
    pub times_failed: u64,
    pub success_rate: Single,
    pub confidence: Single,
    pub is_active: bool,
    pub created_by: String,
    /// Seconds since the epoch.
    pub created_at: u64,
    /// Seconds since the epoch.
    pub last_used: Option<u64>,
}

/// A mask as it is stored.
#[derive(Debug)]
pub struct MaskEntry {
    pub profile: MaskProfile,
    pub stats: MaskStats,
}

/// The entry for a mask that was just generated and tested.
pub fn mask_entry(profile: MaskProfile, confidence: Single, now: u64) -> (r: MaskEntry)
    ensures
        r.profile == profile,
        r.stats.mask_id@ == profile.mask_id@,
        r.stats.times_used == 0,
        r.stats.times_failed == 0,
        r.stats.success_rate == of_int(1),
        r.stats.confidence == confidence,
        r.stats.is_active,
        r.stats.created_by@ == "auto"@,
        r.stats.created_at == now,
        r.stats.last_used is None,
{
    let mask_id = profile.mask_id.clone();
    MaskEntry {
        profile,
        stats: MaskStats {
            mask_id,
            times_used: 0,
            times_failed: 0,
            success_rate: Single::from_int(1),
            confidence,
            is_active: true,
            created_by: "auto".to_owned(),
            created_at: now,
            last_used: None,
        },
    }
}

/// The error for a mask that failed its self-test, from the printed numbers.
pub fn self_test_failure(ks_size: &str, ks_iat: &str, entropy: &str) -> (r: Error)
    ensures
        r matches Error::Mask(text) && text@ == "Self-test failed: KS_size="@ + ks_size@
            + ", KS_iat="@ + ks_iat@ + ", entropy="@ + entropy@,
{
    let text = "Self-test failed: KS_size=".to_owned().concat(ks_size).concat(", KS_iat=").concat(
        ks_iat,
    ).concat(", entropy=").concat(entropy);
    Error::Mask(text)
}

/// How far a generated mask has come.
#[derive(Debug, Clone, Copy, PartialEq, Eq, Structural)]
pub enum Stage {
    /// It waits for its self-test.
    Testing,
    /// It is being stored.
    Storing,
    /// It is being entered in the catalogue.
    Registering,
    /// It is being announced to the clients.
    Announcing,
    /// Nothing more is done with it.
    Done,
}

/// What was done with the mask.
pub enum Event {
    /// It was tested; the error is the one to report if it failed.
    Tested(SelfTestResult, Error),
    Stored(Result<(), Error>),
    Registered(Result<(), Error>),
    Announced(Result<(), Error>),
}

/// What is to be done with the mask.
pub enum Action {
    Store,
    Register,
    Announce,
    /// Nothing more; the result is that of the whole.
    Stop(Result<(), Error>),
}

/// The stage and the action that follow an event. An event that does not belong to the
/// stage changes nothing and asks for nothing.
pub open spec fn follow(stage: Stage, event: Event) -> (Stage, Option<Action>) {
    match (stage, event) {
        (Stage::Testing, Event::Tested(test, error)) => if test.passed {
            (Stage::Storing, Some(Action::Store))
        } else {
            (Stage::Done, Some(Action::Stop(Err(error))))
        },
        (Stage::Storing, Event::Stored(Ok(_))) => (Stage::Registering, Some(Action::Register)),
        (Stage::Storing, Event::Stored(Err(error))) => (
            Stage::Done,
            Some(Action::Stop(Err(error))),
        ),
        (Stage::Registering, Event::Registered(Ok(_))) => (
            Stage::Announcing,
            Some(Action::Announce),
        ),
        (Stage::Registering, Event::Registered(Err(error))) => (
            Stage::Done,
            Some(Action::Stop(Err(error))),
        ),
        (Stage::Announcing, Event::Announced(_)) => (Stage::Done, Some(Action::Stop(Ok(())))),
        _ => (stage, None),
    }
}

impl Stage {
    /// Takes an event in and says what is to be done next.
    pub fn advance(&mut self, event: Event) -> (r: Option<Action>)
        ensures
            (*final(self), r) == follow(*old(self), event),
    {
        match (*self, event) {
            (Stage::Testing, Event::Tested(test, error)) => {
                if test.passed {
                    *self = Stage::Storing;
                    Some(Action::Store)
                } else {
                    *self = Stage::Done;
                    Some(Action::Stop(Err(error)))
                }
            },
            (Stage::Storing, Event::Stored(Ok(_))) => {
                *self = Stage::Registering;
                Some(Action::Register)
            },
            (Stage::Storing, Event::Stored(Err(error))) => {
                *self = Stage::Done;
                Some(Action::Stop(Err(error)))
            },
            (Stage::Registering, Event::Registered(Ok(_))) => {
                *self = Stage::Announcing;
                Some(Action::Announce)
            },
            (Stage::Registering, Event::Registered(Err(error))) => {
                *self = Stage::Done;
                Some(Action::Stop(Err(error)))
            },
            (Stage::Announcing, Event::Announced(_)) => {
                *self = Stage::Done;
                Some(Action::Stop(Ok(())))
            },
            _ => None,
        }
    }
}

/// The stage after a sequence of events.
pub open spec fn stage_after(events: Seq<Event>) -> Stage
    decreases events.len(),
{
    if events.len() == 0 {
        Stage::Testing
    } else {
        follow(stage_after(events.drop_last()), events.last()).0
    }
}

/// What is asked for at the last of a sequence of events.
pub open spec fn asked_at(events: Seq<Event>) -> Option<Action> {
    follow(stage_after(events.drop_last()), events.last()).1
}

/// Some event of a sequence is a passed self-test.
pub open spec fn was_passed(events: Seq<Event>) -> bool {
    exists|k: int|
        0 <= k < events.len() && (#[trigger] events[k] matches Event::Tested(test, _)
            && test.passed)
}

/// Beyond the self-test a mask only gets by passing it.
proof fn lemma_passed(events: Seq<Event>)
    ensures
        stage_after(events) is Storing || stage_after(events) is Registering || stage_after(
            events,
        ) is Announcing ==> was_passed(events),
    decreases events.len(),
{
    if events.len() > 0 {
        let front = events.drop_last();
        lemma_passed(front);
        if was_passed(front) {
            let k = choose|k: int|
                0 <= k < front.len() && (#[trigger] front[k] matches Event::Tested(test, _)
                    && test.passed);
            assert(events[k] == front[k]);
        }
        assert(events[events.len() - 1] == events.last());
    }
}

/// A mask is stored, entered in the catalogue or announced only if it has passed its
/// self-test, whatever else happens.
pub proof fn law_only_passed_masks_are_used(events: Seq<Event>)
    requires
        events.len() > 0,
        asked_at(events) is Some,
        asked_at(events)->0 !is Stop,
    ensures
        was_passed(events),
{
    let front = events.drop_last();
    lemma_passed(front);
    assert(events[events.len() - 1] == events.last());
    if was_passed(front) {
        let k = choose|k: int|
            0 <= k < front.len() && (#[trigger] front[k] matches Event::Tested(test, _)
                && test.passed);
        assert(events[k] == front[k]);
    }
}

/// Whether the announcement succeeds does not matter: a mask that was tested, stored and
/// entered is a success.
pub proof fn law_announcement_may_fail(
    test: SelfTestResult,
    error: Error,
    announced: Result<(), Error>,
)
    requires
        test.passed,
    ensures
        ({
            let events = seq![
                Event::Tested(test, error),
                Event::Stored(Ok(())),
                Event::Registered(Ok(())),
                Event::Announced(announced),
            ];
            stage_after(events) == Stage::Done && asked_at(events) == Some(Action::Stop(Ok(())))
        }),
{
    let events = seq![
        Event::Tested(test, error),
        Event::Stored(Ok(())),
        Event::Registered(Ok(())),
        Event::Announced(announced),
    ];
    let three = events.drop_last();
    let two = three.drop_last();
    let first = two.drop_last();
    assert(stage_after(first.drop_last()) == Stage::Testing);
    assert(stage_after(first) == Stage::Storing);
    assert(stage_after(two) == Stage::Registering);
    assert(stage_after(three) == Stage::Announcing);
}

/// After the end nothing more is asked for.
pub proof fn law_done_is_final(event: Event)
    ensures
        follow(Stage::Done, event) == (Stage::Done, None::<Action>),
{
}

/// A mask is stored only right after it has passed its self-test, entered in the catalogue
/// only right after it was stored, and announced only right after it was entered.
pub proof fn law_steps_are_taken_in_order(stage: Stage, event: Event)
    ensures
        follow(stage, event).1 == Some(Action::Store) <==> stage is Testing && (
        event matches Event::Tested(test, _) && test.passed),
        follow(stage, event).1 == Some(Action::Register) <==> stage is Storing && (
        event matches Event::Stored(Ok(_))),
        follow(stage, event).1 == Some(Action::Announce) <==> stage is Registering && (
        event matches Event::Registered(Ok(_))),
        follow(stage, event).1 == Some(Action::Stop(Ok(()))) <==> stage is Announcing
            && event is Announced,
{
}

/// What goes wrong before the announcement ends the way of a mask and is reported as it is:
/// a failed self-test, a failure to store and a failure to enter.
pub proof fn law_failures_are_reported(test: SelfTestResult, error: Error)
    ensures
        !test.passed ==> follow(Stage::Testing, Event::Tested(test, error)) == (
            Stage::Done,
            Some(Action::Stop(Err::<(), Error>(error))),
        ),
        follow(Stage::Storing, Event::Stored(Err(error))) == (
            Stage::Done,
            Some(Action::Stop(Err::<(), Error>(error))),
        ),
        follow(Stage::Registering, Event::Registered(Err(error))) == (
            Stage::Done,
            Some(Action::Stop(Err::<(), Error>(error))),
        ),
{
}

} // verus!
