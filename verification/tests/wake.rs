use monitor::wake::{first_attempt, next_attempt, Attempt};

fn tried(alive: bool, accepts: impl Fn(Attempt) -> bool) -> Vec<(Attempt, bool)> {
    let mut tried = Vec::new();
    let mut attempt = first_attempt(alive);
    while let Some(now) = attempt {
        let accepted = accepts(now);
        tried.push((now, accepted));
        attempt = next_attempt(now, accepted);
    }
    tried
}

#[test]
fn a_running_turn_takes_the_notification() {
    assert_eq!(
        tried(true, |_| true),
        vec![(Attempt::InjectIfRunning, true)]
    );
}

#[test]
fn an_idle_session_is_woken() {
    assert_eq!(
        tried(true, |attempt| attempt != Attempt::InjectIfRunning),
        vec![
            (Attempt::InjectIfRunning, false),
            (Attempt::StartTurnIfIdle, true)
        ]
    );
}

#[test]
fn a_refused_notification_is_recorded() {
    assert_eq!(
        tried(true, |attempt| attempt == Attempt::InjectNoNewTurn),
        vec![
            (Attempt::InjectIfRunning, false),
            (Attempt::StartTurnIfIdle, false),
            (Attempt::InjectNoNewTurn, true)
        ]
    );
}

#[test]
fn nothing_is_tried_on_a_session_that_is_gone() {
    assert_eq!(tried(false, |_| true), vec![]);
}
