use monitor::channel::{drained, Received};
use monitor::clock::Clock;
use monitor::delivery::{
    exit_notice, flood_notice, flush, lag_notice, stop_for_flood, DeliveryLoop, Effect, Event,
    Phase, ProcessExit,
};
use monitor::framing::{FLOOD_MAX_LINES, MAX_LINE_BYTES};
use monitor::notification::MonitorNotification;
use monitor::registry::MonitorManager;

const GRACE: u64 = 100_000_000;

fn block_on<F: std::future::Future>(future: F) -> F::Output {
    tokio::runtime::Builder::new_current_thread()
        .enable_time()
        .build()
        .unwrap()
        .block_on(future)
}

fn start(seed: &[u8]) -> (DeliveryLoop, Vec<Effect<String>>) {
    DeliveryLoop::start_at("mon_1".to_string(), 42, GRACE, seed.to_vec(), 0)
}

/// The events of a process that ended and whose channel is drained.
fn exited() -> Vec<Event<Vec<u8>>> {
    vec![Event::Exited, Event::GraceOver, Event::Closed]
}

fn lines(output: &str) -> Event<Vec<u8>> {
    Event::Chunk(output.as_bytes().to_vec())
}

fn exit_code(code: i32) -> ProcessExit {
    ProcessExit {
        failure_message: None,
        exit_code: Some(code),
    }
}

/// What a monitor labelled "signal watch" tells the agent.
fn woken(seed: &[u8], events: Vec<Event<Vec<u8>>>, exit: &ProcessExit) -> Vec<String> {
    let (mut state, mut effects) = start(seed);
    for event in events {
        assert!(state.can_count(&event));
        effects.extend(state.advance_at(event, 0));
    }
    let mut bodies = Vec::new();
    for effect in effects {
        let body = match effect {
            Effect::Deliver(text) => text,
            Effect::AnnounceFlood(text) => text,
            Effect::AnnounceExit => exit_notice(exit),
            Effect::Terminate(_) | Effect::Deregister(_) => continue,
        };
        bodies.push(MonitorNotification::new("signal watch".to_string(), body).body());
    }
    bodies
}

fn assert_wakes_with(bodies: &[String], marker: &str) {
    assert!(
        bodies
            .iter()
            .any(|text| text.contains("[signal watch]") && text.contains(marker)),
        "monitor output never reached the model as a labelled notification"
    );
}

#[test]
fn monitor_stdout_output_wakes_agent() {
    let bodies = woken(b"", vec![lines("MONITOR_STDOUT\n"), Event::BatchDue], &exit_code(0));
    assert_wakes_with(&bodies, "MONITOR_STDOUT");
    assert_eq!(bodies, vec!["\n[signal watch] MONITOR_STDOUT\n"]);
}

#[test]
fn monitor_stderr_output_wakes_agent() {
    let bodies = woken(b"", vec![lines("MONITOR_STDERR\n"), Event::BatchDue], &exit_code(0));
    assert_wakes_with(&bodies, "MONITOR_STDERR");
}

#[test]
fn monitor_delivers_unterminated_final_line() {
    let mut events = vec![lines("MONITOR_PARTIAL"), Event::BatchDue];
    events.extend(exited());
    let bodies = woken(b"", events, &exit_code(0));
    assert_wakes_with(&bodies, "MONITOR_PARTIAL");
    assert_eq!(
        bodies,
        vec![
            "\n[signal watch] MONITOR_PARTIAL\n",
            "\n[signal watch] watcher exited (code 0)\n"
        ]
    );
}

#[test]
fn monitor_flood_guard_auto_stops() {
    let output: String = (1..=50000).map(|n| format!("{n}\n")).collect();
    let mut chunks: Vec<Event<Vec<u8>>> = Vec::new();
    for chunk in output.as_bytes().chunks(8192) {
        chunks.push(Event::Chunk(chunk.to_vec()));
    }
    let bodies = woken(b"", chunks, &exit_code(0));
    assert_wakes_with(&bodies, "flood guard");
    assert_eq!(bodies.len(), 2);
    assert!(bodies[0].starts_with("\n[signal watch] 1\n2\n3\n"));
    assert!(bodies[0].ends_with("\n4999\n5000\n"));
    assert_eq!(
        bodies[1],
        "\n[signal watch] auto-stopped after 5000 lines (flood guard); \
         restart with a tighter filter\n"
    );
}

#[test]
fn monitor_delivers_exit_notice_when_command_ends() {
    let bodies = woken(b"", exited(), &exit_code(0));
    assert_wakes_with(&bodies, "watcher exited");
}

#[test]
fn monitor_delivers_output_from_before_the_initial_yield() {
    let bodies = woken(b"MONITOR_IMMEDIATE\n", vec![Event::BatchDue], &exit_code(0));
    assert_wakes_with(&bodies, "MONITOR_IMMEDIATE");
}

#[test]
fn monitor_truncates_a_newline_free_flood() {
    let bodies = woken(
        b"",
        vec![Event::Chunk(vec![b'x'; 200000]), Event::BatchDue],
        &exit_code(0),
    );
    assert_wakes_with(&bodies, "line truncated");
    // 200000 bytes are cut 12 times; what is left waits.
    assert_eq!(bodies[0].matches(" ... (line truncated)").count(), 12);
}

#[test]
fn monitor_self_prunes_from_registry_when_command_exits() {
    block_on(async {
        let mut manager = MonitorManager::new();
        manager.insert(
            "mon_1".to_string(),
            42,
            "short watch".to_string(),
            "sleep 1; true".to_string(),
            tokio::spawn(std::future::pending::<()>()),
        );
        let (mut state, effects) = start(b"");
        assert_eq!(effects, vec![]);
        let mut announced = false;
        for event in exited() {
            for effect in state.advance_at(event, 0) {
                match effect {
                    Effect::Deregister(id) => {
                        assert!(manager.deregister_self(&id).is_some());
                    }
                    Effect::AnnounceExit => {
                        // The turn that the exit notice wakes lists no monitors.
                        assert!(manager.list().is_empty());
                        announced = true;
                    }
                    other => panic!("unexpected {other:?}"),
                }
            }
        }
        assert!(announced);
    });
}

#[test]
fn lines_within_the_window_are_one_notification() {
    let (mut state, effects) = start(b"a\n");
    assert_eq!(effects, vec![]);
    assert_eq!(state.flush_at(), Some(200_000_000));
    assert_eq!(state.advance_at(lines("b\nc"), 150_000_000), vec![]);
    assert_eq!(state.flush_at(), Some(200_000_000));
    assert_eq!(
        state.advance_at(Event::BatchDue, 200_000_000),
        vec![Effect::Deliver("a\nb".to_string())]
    );
    assert_eq!(state.flush_at(), None);
    // Nothing to deliver, nothing delivered.
    assert_eq!(state.advance_at(Event::BatchDue, 200_000_001), vec![]);
    assert_eq!(state.advance_at(lines("\n"), 300_000_000), vec![]);
    assert_eq!(state.flush_at(), Some(500_000_000));
    assert_eq!(
        state.advance_at(Event::BatchDue, 500_000_000),
        vec![Effect::Deliver("c".to_string())]
    );
}

#[test]
fn a_flood_in_the_seed_stops_at_once() {
    let (state, effects) = start("x\n".repeat(FLOOD_MAX_LINES + 1).as_bytes());
    assert_eq!(state.phase(), Phase::Stopped);
    assert_eq!(
        effects,
        vec![
            Effect::Deliver(vec!["x"; FLOOD_MAX_LINES].join("\n")),
            Effect::Terminate(42),
            Effect::Deregister("mon_1".to_string()),
            Effect::AnnounceFlood(flood_notice()),
        ]
    );
}

#[test]
fn one_line_below_the_ceiling_keeps_running() {
    let (mut state, effects) = start("x\n".repeat(FLOOD_MAX_LINES - 1).as_bytes());
    assert_eq!(state.phase(), Phase::Running);
    assert_eq!(effects, vec![]);
    assert_eq!(state.advance_at(lines("\n \n"), 0), vec![]);
    assert_eq!(state.phase(), Phase::Running);
    assert_eq!(state.advance_at(lines("last\nmore\n"), 0).len(), 4);
    assert_eq!(state.phase(), Phase::Stopped);
}

#[test]
fn a_lag_is_surfaced_and_counted() {
    let (mut state, _) = start(b"");
    assert_eq!(state.advance_at(Event::Lagged(3), 7), vec![]);
    assert_eq!(state.flush_at(), Some(200_000_007));
    assert_eq!(
        state.advance_at(Event::BatchDue, 200_000_007),
        vec![Effect::Deliver(
            "(dropped ~3 chunks: watcher output too fast)".to_string()
        )]
    );
    let effects = state.advance_at(Event::Lagged(4997), 0);
    assert_eq!(state.phase(), Phase::Stopped);
    assert_eq!(
        effects,
        vec![
            Effect::Deliver("(dropped ~4997 chunks: watcher output too fast)".to_string()),
            Effect::Terminate(42),
            Effect::Deregister("mon_1".to_string()),
            Effect::AnnounceFlood(
                "auto-stopped after 5000 lines (flood guard); restart with a tighter filter"
                    .to_string()
            ),
        ]
    );
}

#[test]
fn a_lag_that_cannot_be_counted_is_told_apart() {
    let (mut state, _) = start(b"x\n");
    assert!(!state.can_count(&Event::Lagged(u64::MAX)));
    assert!(state.can_count(&Event::Lagged(u64::MAX - 1)));
    state.advance_at(Event::Closed, 0);
    assert!(!state.can_count(&Event::Lagged(u64::MAX)));
    state.advance_at(Event::Lagged(u64::MAX - 1), 0);
    assert!(!state.can_count(&lines("y\n")));
    assert!(state.can_count(&Event::Closed));
}

#[test]
fn draining_goes_on_past_the_ceiling() {
    let (mut state, _) = start("x\n".repeat(FLOOD_MAX_LINES - 1).as_bytes());
    state.advance_at(Event::BatchDue, 0);
    assert_eq!(state.advance_at(Event::Closed, 0), vec![]);
    assert_eq!(state.phase(), Phase::Draining);
    assert_eq!(state.advance_at(lines("a\nb\nc\n"), 0), vec![]);
    assert_eq!(state.advance_at(Event::Lagged(9), 0), vec![]);
    assert_eq!(state.advance_at(lines("d"), 0), vec![]);
    assert_eq!(state.phase(), Phase::Draining);
    // At the ceiling each chunk yields one line; what it leaves is the last.
    assert_eq!(
        state.advance_at(Event::Closed, 0),
        vec![
            Effect::Deliver(
                "a\n(dropped ~9 chunks: watcher output too fast)\nb\nc\nd".to_string()
            ),
            Effect::Deregister("mon_1".to_string()),
            Effect::AnnounceExit,
        ]
    );
}

#[test]
fn trailing_output_is_waited_for() {
    let (mut state, _) = start(b"");
    assert_eq!(state.closing_at(), None);
    // The grace is not over before the process exited.
    assert_eq!(state.advance_at(Event::GraceOver, 1), vec![]);
    assert_eq!(state.phase(), Phase::Running);
    assert_eq!(state.advance_at(Event::Exited, 1_000), vec![]);
    assert_eq!(state.closing_at(), Some(100_001_000));
    assert_eq!(state.advance_at(Event::Exited, 2_000), vec![]);
    assert_eq!(state.closing_at(), Some(100_001_000));
    assert_eq!(state.advance_at(lines("late\n"), 3_000), vec![]);
    assert_eq!(state.advance_at(Event::GraceOver, 100_001_000), vec![]);
    assert_eq!(state.phase(), Phase::Draining);
    assert_eq!(
        state.advance_at(Event::Closed, 0),
        vec![
            Effect::Deliver("late".to_string()),
            Effect::Deregister("mon_1".to_string()),
            Effect::AnnounceExit,
        ]
    );
}

#[test]
fn a_stopped_loop_is_silent() {
    let (mut state, _) = start(b"");
    for event in exited() {
        state.advance_at(event, 0);
    }
    assert_eq!(state.phase(), Phase::Stopped);
    for event in [lines("x\n"), Event::Lagged(u64::MAX), Event::Closed, Event::BatchDue] {
        assert!(state.can_count(&event));
        assert_eq!(state.advance_at(event, 0), vec![]);
        assert_eq!(state.phase(), Phase::Stopped);
    }
}

#[test]
fn a_blank_remainder_is_not_delivered() {
    let (mut state, _) = start(b" \t ");
    state.advance_at(Event::Closed, 0);
    assert_eq!(
        state.advance_at(Event::Closed, 0),
        vec![
            Effect::Deregister("mon_1".to_string()),
            Effect::AnnounceExit
        ]
    );
}

#[test]
fn an_invalid_remainder_is_decoded() {
    let (mut state, _) = start(b"caf\xc3 ");
    state.advance_at(Event::Closed, 0);
    assert_eq!(
        state.advance_at(Event::Closed, 0)[0],
        Effect::Deliver("caf\u{fffd}".to_string())
    );
}

#[test]
fn an_endless_newline_free_stream_trips_the_flood_guard() {
    let (mut state, _) = start(b"");
    let chunk = vec![b'x'; 1 << 20];
    let mut received = 0;
    while state.phase() == Phase::Running {
        state.advance_at(Event::Chunk(chunk.clone()), 0);
        received += chunk.len();
        assert!(received <= FLOOD_MAX_LINES * MAX_LINE_BYTES + chunk.len());
    }
    assert_eq!(state.phase(), Phase::Stopped);
}

#[test]
fn a_channel_is_drained_to_its_end() {
    let clock = Clock::start();
    let (tx, mut rx) = tokio::sync::broadcast::channel(2);
    for chunk in ["one\n", "two\n", "three\n", "four"] {
        tx.send(chunk.as_bytes().to_vec()).unwrap();
    }
    let (mut state, _) = DeliveryLoop::start("m".to_string(), 1, GRACE, Vec::new(), &clock);
    assert_eq!(state.advance(Event::Closed, &clock), vec![]);
    let mut effects = Vec::new();
    while state.phase() == Phase::Draining {
        effects.extend(state.drain_next(&mut rx, &clock).unwrap());
    }
    assert_eq!(
        effects,
        vec![
            Effect::Deliver(
                "(dropped ~2 chunks: watcher output too fast)\nthree\nfour".to_string()
            ),
            Effect::Deregister("m".to_string()),
            Effect::AnnounceExit,
        ]
    );
}

#[test]
fn an_empty_channel_ends_the_drain_as_a_closed_one_does() {
    assert_eq!(drained(Received::Empty), Event::Closed);
    assert_eq!(drained(Received::Closed), Event::Closed);
    assert_eq!(drained(Received::Chunk(vec![1])), Event::Chunk(vec![1]));
    assert_eq!(drained(Received::Lagged(2)), Event::Lagged(2));
    let clock = Clock::start();
    let (tx, mut rx) = tokio::sync::broadcast::channel::<Vec<u8>>(2);
    drop(tx);
    let (mut state, _) = DeliveryLoop::start("m".to_string(), 1, GRACE, Vec::new(), &clock);
    state.advance(Event::Closed, &clock);
    assert_eq!(
        state.drain_next(&mut rx, &clock),
        Some(vec![
            Effect::Deregister("m".to_string()),
            Effect::AnnounceExit
        ])
    );
}

#[test]
fn the_clock_sets_the_deadlines() {
    let clock = Clock::start();
    let before = clock.now();
    let (mut state, _) = DeliveryLoop::start("m".to_string(), 1, GRACE, b"x\n".to_vec(), &clock);
    state.advance(Event::Exited, &clock);
    let after = clock.now();
    assert!(before <= after);
    let due = state.flush_at().unwrap();
    assert!(before + 200_000_000 <= due && due <= after + 200_000_000);
    let closing = state.closing_at().unwrap();
    assert!(before + 100_000_000 <= closing && closing <= after + 100_000_000);
}

#[test]
fn the_clock_moves() {
    let clock = Clock::start();
    block_on(async { tokio::time::sleep(std::time::Duration::from_millis(20)).await });
    let now = clock.now();
    assert!(now >= 20_000_000);
    assert!(now < 20_000_000_000);
}

#[test]
fn a_batch_is_flushed_whole() {
    let mut pending = vec!["a".to_string(), "b".to_string()];
    assert_eq!(flush(&mut pending), Some("a\nb".to_string()));
    assert!(pending.is_empty());
    assert_eq!(flush(&mut pending), None);
}

#[test]
fn stopping_for_a_flood_without_lines_delivers_no_batch() {
    let mut pending = Vec::new();
    assert_eq!(
        stop_for_flood("id", 9, &mut pending),
        vec![
            Effect::Terminate(9),
            Effect::Deregister("id".to_string()),
            Effect::AnnounceFlood(flood_notice()),
        ]
    );
}

#[test]
fn notices_say_how_a_process_ended() {
    assert_eq!(exit_notice(&exit_code(0)), "watcher exited (code 0)");
    assert_eq!(exit_notice(&exit_code(-9)), "watcher exited (code -9)");
    assert_eq!(
        exit_notice(&ProcessExit {
            failure_message: None,
            exit_code: None
        }),
        "watcher exited"
    );
    assert_eq!(
        exit_notice(&ProcessExit {
            failure_message: Some("no such file".to_string()),
            exit_code: Some(1)
        }),
        "watcher ended: no such file"
    );
    assert_eq!(
        lag_notice(18446744073709551615),
        "(dropped ~18446744073709551615 chunks: watcher output too fast)"
    );
}

#[test]
fn a_whole_life_delivers_the_lines_of_its_output() {
    let output = "one\n\n  two \nd\u{e9}j\u{e0} vu\n \t\nlast".as_bytes();
    for size in 1..=output.len() {
        for due_every in 1..4 {
            let (mut state, mut effects) = start(&output[..size]);
            for (i, chunk) in output[size..].chunks(size).enumerate() {
                effects.extend(state.advance_at(Event::Chunk(chunk.to_vec()), 0));
                if i % due_every == 0 {
                    effects.extend(state.advance_at(Event::BatchDue, 0));
                }
            }
            for event in exited() {
                effects.extend(state.advance_at(event, 0));
            }
            let delivered: Vec<String> = effects
                .into_iter()
                .filter_map(|effect| match effect {
                    Effect::Deliver(text) => Some(text),
                    _ => None,
                })
                .collect();
            assert_eq!(delivered.join("\n"), "one\n  two\nd\u{e9}j\u{e0} vu\nlast");
        }
    }
}

#[test]
fn a_flood_stops_at_the_ceiling_however_it_arrives() {
    let output: String = (1..=FLOOD_MAX_LINES + 10).map(|n| format!("{n}\n\n")).collect();
    let expected: Vec<String> = (1..=FLOOD_MAX_LINES).map(|n| n.to_string()).collect();
    for size in [7, 1000, output.len()] {
        let (mut state, mut effects) = start(b"");
        for (i, chunk) in output.as_bytes().chunks(size).enumerate() {
            if state.phase() != Phase::Running {
                break;
            }
            effects.extend(state.advance_at(Event::Chunk(chunk.to_vec()), 0));
            if i % 5 == 0 {
                effects.extend(state.advance_at(Event::BatchDue, 0));
            }
        }
        assert_eq!(state.phase(), Phase::Stopped);
        assert_eq!(effects.last(), Some(&Effect::AnnounceFlood(flood_notice())));
        let delivered: Vec<String> = effects
            .into_iter()
            .filter_map(|effect| match effect {
                Effect::Deliver(text) => Some(text),
                _ => None,
            })
            .collect();
        assert_eq!(delivered.join("\n"), expected.join("\n"));
    }
}

#[test]
fn a_standing_clock_reads_what_it_stands_at() {
    let clock = Clock::Standing { at: 12 };
    assert_eq!(clock.now(), 12);
    let (mut state, _) = DeliveryLoop::start("m".to_string(), 1, GRACE, b"x\n".to_vec(), &clock);
    assert_eq!(state.flush_at(), Some(200_000_012));
    state.advance(Event::Exited, &clock);
    assert_eq!(state.closing_at(), Some(100_000_012));
}
