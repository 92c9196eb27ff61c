//! Which ways of waking the session are tried, and in what order.

use vstd::prelude::*;

verus! {

/// A way to hand a notification to the session.
#[derive(Clone, Copy, Debug, PartialEq, Eq, Structural)]
pub enum Attempt {
    /// Inject it into the turn that is running. Refused when the session is
    /// idle.
    InjectIfRunning,
    /// Start a turn with it. Refused when a turn began meanwhile, or when the
    /// session does not start turns on its own.
    StartTurnIfIdle,
    /// Record it against the turn, without starting one. Never refused.
    InjectNoNewTurn,
}

/// What is tried first: nothing, if the session is gone.
pub open spec fn first(session_alive: bool) -> Option<Attempt> {
    if session_alive {
        Some(Attempt::InjectIfRunning)
    } else {
        None
    }
}

/// What is tried when `tried` was accepted or refused: nothing more once the
/// notification was accepted.
pub open spec fn next(tried: Attempt, accepted: bool) -> Option<Attempt> {
    match tried {
        Attempt::InjectIfRunning if !accepted => Some(Attempt::StartTurnIfIdle),
        Attempt::StartTurnIfIdle if !accepted => Some(Attempt::InjectNoNewTurn),
        _ => None,
    }
}

/// What to try first with a notification.
pub fn first_attempt(session_alive: bool) -> (attempt: Option<Attempt>)
    ensures
        attempt == first(session_alive),
{
    if session_alive {
        Some(Attempt::InjectIfRunning)
    } else {
        None
    }
}

/// What to try after `tried`, which was accepted or refused.
pub fn next_attempt(tried: Attempt, accepted: bool) -> (attempt: Option<Attempt>)
    ensures
        attempt == next(tried, accepted),
{
    if accepted {
        return None;
    }
    match tried {
        Attempt::InjectIfRunning => Some(Attempt::StartTurnIfIdle),
        Attempt::StartTurnIfIdle => Some(Attempt::InjectNoNewTurn),
        Attempt::InjectNoNewTurn => None,
    }
}

/// Whether the session takes a notification from `attempt` on, where `accepts`
/// says which attempts it accepts.
pub open spec fn taken(attempt: Option<Attempt>, accepts: spec_fn(Attempt) -> bool) -> bool
    decreases
            match attempt {
                None => 0nat,
                Some(Attempt::InjectNoNewTurn) => 1,
                Some(Attempt::StartTurnIfIdle) => 2,
                Some(Attempt::InjectIfRunning) => 3,
            },
{
    match attempt {
        None => false,
        Some(attempt) => accepts(attempt) || taken(next(attempt, false), accepts),
    }
}

/// A notification is never silently dropped: whatever a living session refuses,
/// it takes it in the end, for recording it is never refused.
pub proof fn law_a_notification_is_never_dropped(accepts: spec_fn(Attempt) -> bool)
    requires
        accepts(Attempt::InjectNoNewTurn),
    ensures
        taken(first(true), accepts),
{
    reveal_with_fuel(taken, 4);
}

/// A notification is delivered once: nothing is tried after it was accepted.
pub proof fn law_a_notification_is_delivered_once(attempt: Attempt)
    ensures
        next(attempt, true) is None,
{
}

/// The attempts that are made from `attempt` on, up to the one that is accepted,
/// where `accepts` says which attempts the session accepts.
pub open spec fn attempts(attempt: Option<Attempt>, accepts: spec_fn(Attempt) -> bool) -> Seq<
    Attempt,
>
    decreases
            match attempt {
                None => 0nat,
                Some(Attempt::InjectNoNewTurn) => 1,
                Some(Attempt::StartTurnIfIdle) => 2,
                Some(Attempt::InjectIfRunning) => 3,
            },
{
    match attempt {
        None => seq![],
        Some(tried) => seq![tried] + attempts(
            if accepts(tried) {
                next(tried, true)
            } else {
                next(tried, false)
            },
            accepts,
        ),
    }
}

/// The order in which a living session is tried, whatever it accepts: the turn
/// that is running, a new turn, and recording alone, up to the first that it
/// accepts. A session that is gone is not tried.
pub proof fn law_a_session_is_tried_in_order(accepts: spec_fn(Attempt) -> bool)
    ensures
        ({
            let tried = attempts(first(true), accepts);
            let all = seq![
                Attempt::InjectIfRunning,
                Attempt::StartTurnIfIdle,
                Attempt::InjectNoNewTurn,
            ];
            &&& 1 <= tried.len() <= 3
            &&& tried == all.take(tried.len() as int)
            &&& forall|i: int| 0 <= i < tried.len() - 1 ==> !accepts(#[trigger] tried[i])
            &&& tried.len() < 3 ==> accepts(tried.last())
        }),
        attempts(first(false), accepts).len() == 0,
{
    reveal_with_fuel(attempts, 4);
    let tried = attempts(first(true), accepts);
    let all = seq![Attempt::InjectIfRunning, Attempt::StartTurnIfIdle, Attempt::InjectNoNewTurn];
    assert(tried =~= all.take(tried.len() as int));
}

} // verus!
