//! What holds of a delivery loop over its whole life.

use vstd::prelude::*;

use crate::delivery;
use crate::delivery::{Effect, Event, LoopState, Phase};
use crate::framing;
use crate::framing::{BATCH_WINDOW, FLOOD_MAX_LINES, MAX_LINE_BYTES};
use crate::text;

verus! {

/// A line with something to show, and no white space behind it.
pub open spec fn visible(line: Seq<char>) -> bool {
    line.len() > 0 && !text::is_white_space(line.last())
}

/// What every state that a loop reaches satisfies.
pub open spec fn valid(s: LoopState) -> bool {
    &&& forall|i: int| 0 <= i < s.pending.len() ==> visible(#[trigger] s.pending[i])
    &&& match s.phase {
        Phase::Running => {
            // The flood guard has not tripped.
            &&& s.flood_count < FLOOD_MAX_LINES
            // The buffer is bounded.
            &&& !framing::has_newline(s.buf)
            &&& s.buf.len() <= MAX_LINE_BYTES
            // The batch timer runs exactly while there is something to deliver.
            &&& s.flush_at is Some <==> s.pending.len() > 0
        },
        Phase::Draining => true,
        // Nothing is left undelivered.
        Phase::Stopped => s.pending.len() == 0,
    }
}

/// A fresh loop is valid.
pub proof fn law_fresh_loop_is_valid(id: Seq<char>, process_id: i32, grace: u64)
    ensures
        valid(delivery::fresh(id, process_id, grace)),
{
}

proof fn lemma_lag_text(skipped: u64)
    ensures
        visible(delivery::lag_text(skipped)),
{
    reveal_strlit(" chunks: watcher output too fast)");
    assert(delivery::lag_text(skipped).last() == ')');
}

proof fn lemma_outcome_lines(s: LoopState, event: Event<Seq<u8>>, now: u128)
    ensures
        ({
            let out = delivery::outcome(s, event, now);
            &&& s.pending.is_prefix_of(out.state.pending)
            &&& forall|i: int|
                s.pending.len() <= i < out.state.pending.len() ==> visible(
                    #[trigger] out.state.pending[i],
                )
        }),
{
    let out = delivery::outcome(s, event, now);
    match event {
        Event::Chunk(chunk) => {
            let cut = framing::split(s.buf + chunk, s.flood_count);
            assert forall|i: int| 0 <= i < cut.lines.len() implies visible(
                #[trigger] cut.lines[i],
            ) by {
                framing::law_lines_are_trimmed(s.buf + chunk, s.flood_count, i);
            }
            assert forall|i: int| s.pending.len() <= i < out.state.pending.len() implies visible(
                #[trigger] out.state.pending[i],
            ) by {
                assert(out.state.pending[i] == cut.lines[i - s.pending.len()]);
            }
        },
        Event::Lagged(skipped) => {
            lemma_lag_text(skipped);
        },
        Event::Closed => {
            text::law_trimmed_end(text::lossy_utf8(s.buf));
        },
        _ => {},
    }
}

/// Every event leaves a valid loop valid. While it runs, the flood ceiling is
/// not reached, the buffer is bounded, and the batch timer runs exactly while
/// lines are pending; once it stopped, nothing is left undelivered.
pub proof fn law_step_keeps_valid(s: LoopState, event: Event<Seq<u8>>, now: u128)
    requires
        valid(s),
    ensures
        valid(delivery::step(s, event, now).0),
{
    lemma_outcome_lines(s, event, now);
    let out = delivery::outcome(s, event, now);
    assert forall|i: int| 0 <= i < out.state.pending.len() implies visible(
        #[trigger] out.state.pending[i],
    ) by {
        if i < s.pending.len() {
            assert(out.state.pending[i] == s.pending[i]);
        }
    }
    if let Event::Chunk(chunk) = event {
        framing::law_rest_is_bounded(s.buf + chunk, s.flood_count);
        framing::law_flood_ceiling(s.buf + chunk, s.flood_count);
    }
}

/// The events of a loop's life, each with its time.
pub type History = Seq<(Event<Seq<u8>>, u128)>;

/// The state after `history`.
pub open spec fn state_after(s: LoopState, history: History) -> LoopState
    decreases history.len(),
{
    if history.len() == 0 {
        s
    } else {
        delivery::step(
            state_after(s, history.drop_last()),
            history.last().0,
            history.last().1,
        ).0
    }
}

/// All effects of `history`, in order.
pub open spec fn effects_of(s: LoopState, history: History) -> Seq<Effect<Seq<char>>>
    decreases history.len(),
{
    if history.len() == 0 {
        seq![]
    } else {
        effects_of(s, history.drop_last()) + delivery::step(
            state_after(s, history.drop_last()),
            history.last().0,
            history.last().1,
        ).1
    }
}

/// The lines that `event` adds to the batch.
pub open spec fn lines_of_event(s: LoopState, event: Event<Seq<u8>>, now: u128) -> Seq<
    Seq<char>,
> {
    delivery::outcome(s, event, now).state.pending.skip(s.pending.len() as int)
}

/// All lines of `history`, in order.
pub open spec fn lines_of(s: LoopState, history: History) -> Seq<Seq<char>>
    decreases history.len(),
{
    if history.len() == 0 {
        seq![]
    } else {
        lines_of(s, history.drop_last()) + lines_of_event(
            state_after(s, history.drop_last()),
            history.last().0,
            history.last().1,
        )
    }
}

/// The batches of lines that `history` delivers.
pub open spec fn batches_of(s: LoopState, history: History) -> Seq<Seq<Seq<char>>>
    decreases history.len(),
{
    if history.len() == 0 {
        seq![]
    } else {
        let out = delivery::outcome(
            state_after(s, history.drop_last()),
            history.last().0,
            history.last().1,
        );
        batches_of(s, history.drop_last()) + if out.flush && out.state.pending.len() > 0 {
            seq![out.state.pending]
        } else {
            seq![]
        }
    }
}

/// The texts of the batches among `effects`.
pub open spec fn deliveries(effects: Seq<Effect<Seq<char>>>) -> Seq<Seq<char>>
    decreases effects.len(),
{
    if effects.len() == 0 {
        seq![]
    } else {
        match effects.last() {
            Effect::Deliver(text) => deliveries(effects.drop_last()).push(text),
            _ => deliveries(effects.drop_last()),
        }
    }
}

proof fn lemma_deliveries_add(a: Seq<Effect<Seq<char>>>, b: Seq<Effect<Seq<char>>>)
    ensures
        deliveries(a + b) == deliveries(a) + deliveries(b),
    decreases b.len(),
{
    if b.len() == 0 {
        assert(a + b =~= a);
        assert(deliveries(a) + deliveries(b) =~= deliveries(a));
    } else {
        lemma_deliveries_add(a, b.drop_last());
        assert((a + b).drop_last() =~= a + b.drop_last());
        assert(deliveries(a + b) =~= deliveries(a) + deliveries(b));
    }
}

proof fn lemma_step_deliveries(s: LoopState, event: Event<Seq<u8>>, now: u128)
    ensures
        ({
            let out = delivery::outcome(s, event, now);
            deliveries(delivery::step(s, event, now).1) == if out.flush && out.state.pending.len()
                > 0 {
                seq![text::newline_joined(out.state.pending)]
            } else {
                seq![]
            }
        }),
{
    reveal_with_fuel(deliveries, 4);
    let out = delivery::outcome(s, event, now);
    if out.flush {
        let batch = delivery::batch(out.state.pending);
        lemma_deliveries_add(batch, out.after);
        assert(deliveries(out.after) =~= seq![]);
        if out.state.pending.len() > 0 {
            assert(batch.drop_last() =~= seq![]);
            assert(deliveries(batch) =~= seq![text::newline_joined(out.state.pending)]);
        }
        assert(deliveries(batch) + deliveries(out.after) =~= deliveries(batch));
    }
}

/// Nothing is lost and nothing is reordered: the lines of all the batches that
/// were delivered, and the lines that still wait, are the lines that arrived.
/// Each batch is one notification, its lines joined with newlines, and none is
/// empty.
#[verifier::spinoff_prover]
pub proof fn law_every_line_is_delivered_in_order(s: LoopState, history: History)
    ensures
        batches_of(s, history).flatten() + state_after(s, history).pending == s.pending + lines_of(
            s,
            history,
        ),
        deliveries(effects_of(s, history)) == batches_of(s, history).map_values(
            |lines: Seq<Seq<char>>| text::newline_joined(lines),
        ),
        forall|i: int|
            0 <= i < batches_of(s, history).len() ==> (#[trigger] batches_of(s, history)[i]).len()
                > 0,
    decreases history.len(),
{
    let join = |lines: Seq<Seq<char>>| text::newline_joined(lines);
    let batches = batches_of(s, history);
    if history.len() == 0 {
        assert(batches.flatten() + s.pending =~= s.pending + lines_of(s, history));
        assert(deliveries(effects_of(s, history)) =~= batches.map_values(join));
    } else {
        let earlier = history.drop_last();
        let (event, now) = history.last();
        law_every_line_is_delivered_in_order(s, earlier);
        let t = state_after(s, earlier);
        let out = delivery::outcome(t, event, now);
        let added = lines_of_event(t, event, now);
        lemma_outcome_lines(t, event, now);
        assert(out.state.pending =~= t.pending + added);
        let before = batches_of(s, earlier);
        let all = s.pending + lines_of(s, earlier);
        assert(s.pending + lines_of(s, history) =~= all + added);
        lemma_step_deliveries(t, event, now);
        lemma_deliveries_add(effects_of(s, earlier), delivery::step(t, event, now).1);
        if out.flush && out.state.pending.len() > 0 {
            vstd::seq_lib::lemma_flatten_concat(before, seq![out.state.pending]);
            seq![out.state.pending].lemma_flatten_one_element();
            assert(batches.flatten() + seq![] =~= before.flatten() + (t.pending + added));
            assert(before.flatten() + (t.pending + added) =~= all + added);
        } else {
            assert(batches =~= before);
            assert(before.flatten() + (t.pending + added) =~= all + added);
            if out.flush {
                assert(out.state.pending =~= seq![]);
            }
        }
        assert(deliveries(effects_of(s, history)) =~= batches.map_values(join));
    }
}

/// Lines coalesce: the first line of a batch starts the timer, the lines that
/// follow do not move it, and only its being due stops it.
pub proof fn law_a_batch_is_due_one_window_after_its_first_line(
    s: LoopState,
    event: Event<Seq<u8>>,
    now: u128,
)
    requires
        valid(s),
        s.phase == Phase::Running,
        delivery::step(s, event, now).0.phase == Phase::Running,
        now + BATCH_WINDOW <= u128::MAX,
    ensures
        ({
            let next = delivery::step(s, event, now).0;
            let added = lines_of_event(s, event, now).len() > 0;
            next.flush_at == if event is BatchDue {
                None
            } else if s.pending.len() == 0 && added {
                Some((now + BATCH_WINDOW) as u128)
            } else {
                s.flush_at
            }
        }),
{
    lemma_outcome_lines(s, event, now);
}

/// Whether every lag in `history` counts for something.
pub open spec fn lags_count(history: History) -> bool {
    forall|i: int|
        0 <= i < history.len() ==> match (#[trigger] history[i]).0 {
            Event::Lagged(skipped) => (skipped as usize) > 0,
            _ => true,
        }
}

proof fn lemma_volume(s: LoopState, history: History)
    requires
        valid(s),
        lags_count(history),
        history.len() > 0 ==> state_after(s, history.drop_last()).phase == Phase::Running,
    ensures
        valid(state_after(s, history)),
        state_after(s, history).phase == Phase::Running ==> s.flood_count + lines_of(
            s,
            history,
        ).len() <= state_after(s, history).flood_count,
        s.phase == Phase::Running ==> s.flood_count + lines_of(s, history).len()
            <= FLOOD_MAX_LINES,
    decreases history.len(),
{
    if history.len() > 0 {
        let earlier = history.drop_last();
        let (event, now) = history.last();
        let t = state_after(s, earlier);
        assert(lags_count(earlier));
        if earlier.len() > 0 {
            lemma_running_from_the_start(s, earlier);
        }
        lemma_volume(s, earlier);
        law_step_keeps_valid(t, event, now);
        lemma_outcome_lines(t, event, now);
        if let Event::Chunk(chunk) = event {
            framing::law_flood_ceiling(t.buf + chunk, t.flood_count);
        }
        assert(history[history.len() - 1] == (event, now));
    }
}

proof fn lemma_running_from_the_start(s: LoopState, history: History)
    requires
        history.len() > 0,
        state_after(s, history).phase == Phase::Running,
    ensures
        state_after(s, history.drop_last()).phase == Phase::Running,
{
}

/// The volume is bounded: all the lines that a monitor brings up to and with
/// the event that ends its running, be it the flood guard's or another, are at
/// most `FLOOD_MAX_LINES`.
pub proof fn law_a_running_monitor_brings_a_bounded_number_of_lines(
    id: Seq<char>,
    process_id: i32,
    grace: u64,
    history: History,
)
    requires
        lags_count(history),
        history.len() > 0 ==> state_after(
            delivery::fresh(id, process_id, grace),
            history.drop_last(),
        ).phase == Phase::Running,
    ensures
        lines_of(delivery::fresh(id, process_id, grace), history).len() <= FLOOD_MAX_LINES,
{
    lemma_volume(delivery::fresh(id, process_id, grace), history);
}

/// The flood guard trips exactly when the ceiling is reached: a running loop
/// stops on output if and only if it has then counted `FLOOD_MAX_LINES` lines.
pub proof fn law_the_flood_guard_trips_at_the_ceiling(
    s: LoopState,
    event: Event<Seq<u8>>,
    now: u128,
)
    requires
        valid(s),
        s.phase == Phase::Running,
    ensures
        delivery::step(s, event, now).0.phase == Phase::Stopped <==> delivery::step(
            s,
            event,
            now,
        ).0.flood_count >= FLOOD_MAX_LINES,
{
    if let Event::Chunk(chunk) = event {
        framing::law_flood_ceiling(s.buf + chunk, s.flood_count);
    }
}

/// A loop ends in one of two ways, and the registry is pruned before either is
/// announced. Flooding delivers the batch, terminates the process, prunes the
/// registry and says why; a process that ended has its last lines delivered,
/// the registry pruned and the exit announced. No other event does any of this.
pub proof fn law_the_end_is_announced_last(s: LoopState, event: Event<Seq<u8>>, now: u128)
    ensures
        ({
            let (next, effects) = delivery::step(s, event, now);
            let lines = delivery::outcome(s, event, now).state.pending;
            if s.phase != Phase::Stopped && next.phase == Phase::Stopped {
                if s.phase == Phase::Running {
                    effects == delivery::batch(lines) + seq![
                        Effect::Terminate(s.process_id),
                        Effect::Deregister(s.id),
                        Effect::AnnounceFlood(delivery::flood_text()),
                    ]
                } else {
                    effects == delivery::batch(lines) + seq![
                        Effect::Deregister(s.id),
                        Effect::AnnounceExit,
                    ]
                }
            } else {
                effects.len() == 0 || effects == delivery::batch(lines)
            }
        }),
{
    let out = delivery::outcome(s, event, now);
    assert(delivery::batch(out.state.pending) + seq![] =~= delivery::batch(out.state.pending));
}

/// Only the end of the channel ends the drain: a lag is surfaced and passed
/// over, and the chunks queued behind it are still taken.
pub proof fn law_only_the_end_of_the_channel_ends_the_drain(
    s: LoopState,
    event: Event<Seq<u8>>,
    now: u128,
)
    requires
        s.phase == Phase::Draining,
    ensures
        delivery::step(s, event, now).0.phase == if event is Closed {
            Phase::Stopped
        } else {
            Phase::Draining
        },
{
}

/// A loop that stopped stays stopped and does nothing more.
pub proof fn law_a_stopped_loop_is_silent(s: LoopState, event: Event<Seq<u8>>, now: u128)
    requires
        s.phase == Phase::Stopped,
    ensures
        delivery::step(s, event, now) == (s, Seq::<Effect<Seq<char>>>::empty()),
{
}

/// How many of `effects` remove a monitor from the registry.
pub open spec fn deregistrations(effects: Seq<Effect<Seq<char>>>) -> nat
    decreases effects.len(),
{
    if effects.len() == 0 {
        0
    } else {
        deregistrations(effects.drop_last()) + if effects.last() is Deregister {
            1nat
        } else {
            0nat
        }
    }
}

proof fn lemma_deregistrations_add(a: Seq<Effect<Seq<char>>>, b: Seq<Effect<Seq<char>>>)
    ensures
        deregistrations(a + b) == deregistrations(a) + deregistrations(b),
    decreases b.len(),
{
    if b.len() == 0 {
        assert(a + b =~= a);
    } else {
        lemma_deregistrations_add(a, b.drop_last());
        assert((a + b).drop_last() =~= a + b.drop_last());
    }
}

/// A monitor removes itself exactly once: in a life that has not ended it is
/// still registered, and in one that has it was removed one time.
pub proof fn law_a_monitor_deregisters_once(s: LoopState, history: History)
    requires
        s.phase != Phase::Stopped,
    ensures
        deregistrations(effects_of(s, history)) == if state_after(s, history).phase
            == Phase::Stopped {
            1nat
        } else {
            0nat
        },
    decreases history.len(),
{
    if history.len() > 0 {
        let earlier = history.drop_last();
        let (event, now) = history.last();
        law_a_monitor_deregisters_once(s, earlier);
        let t = state_after(s, earlier);
        let (next, effects) = delivery::step(t, event, now);
        lemma_deregistrations_add(effects_of(s, earlier), effects);
        let out = delivery::outcome(t, event, now);
        lemma_deregistrations_add(delivery::batch(out.state.pending), out.after);
        reveal_with_fuel(deregistrations, 4);
    }
}

/// The exit of a process is always announced: once it exited, its grace is over
/// and its channel is drained, the last effect is the exit notice.
pub proof fn law_an_exit_is_announced(s: LoopState, exited: u128, over: u128, drained: u128)
    requires
        s.phase == Phase::Running,
        s.closing_at is None,
    ensures
        ({
            let history = seq![
                (Event::Exited, exited),
                (Event::GraceOver, over),
                (Event::Closed, drained),
            ];
            &&& state_after(s, history).phase == Phase::Stopped
            &&& effects_of(s, history).len() > 0
            &&& effects_of(s, history).last() == Effect::<Seq<char>>::AnnounceExit
        }),
{
    reveal_with_fuel(state_after, 4);
    reveal_with_fuel(effects_of, 4);
    let history: History = seq![
        (Event::Exited, exited),
        (Event::GraceOver, over),
        (Event::Closed, drained),
    ];
    assert(history.drop_last() =~= seq![(Event::Exited, exited), (Event::GraceOver, over)]);
    assert(history.drop_last().drop_last() =~= seq![(Event::Exited, exited)]);
    assert(history.drop_last().drop_last().drop_last() =~= seq![]);
}

/// A last line without a newline is not lost: it waits in the buffer, and when
/// the watch ends it is the last line of the last batch.
pub proof fn law_an_unterminated_last_line_is_delivered(s: LoopState, now: u128)
    requires
        s.phase == Phase::Draining,
        text::trimmed(text::lossy_utf8(s.buf)).len() > 0,
        s.buf.len() > 0,
    ensures
        delivery::step(s, Event::Closed, now).1[0] == Effect::Deliver(
            text::newline_joined(s.pending.push(text::trimmed(text::lossy_utf8(s.buf)))),
        ),
{
}

/// Whether `history` is output without a single newline.
pub open spec fn newline_free(history: History) -> bool
    decreases history.len(),
{
    history.len() > 0 ==> {
        &&& newline_free(history.drop_last())
        &&& history.last().0 matches Event::Chunk(chunk)
        &&& !framing::has_newline(chunk)
    }
}

/// What every step of a loop ensures of the text it makes.
pub open spec fn faithful_throughout(s: LoopState, history: History) -> bool
    decreases history.len(),
{
    history.len() > 0 ==> {
        &&& faithful_throughout(s, history.drop_last())
        &&& delivery::faithful(state_after(s, history.drop_last()), history.last().0)
    }
}

/// How many bytes `history` brings.
pub open spec fn volume(history: History) -> nat
    decreases history.len(),
{
    if history.len() == 0 {
        0
    } else {
        volume(history.drop_last()) + match history.last().0 {
            Event::Chunk(chunk) => chunk.len(),
            _ => 0nat,
        }
    }
}

#[verifier::spinoff_prover]
proof fn lemma_newline_free_step(t: LoopState, chunk: Seq<u8>, now: u128)
    requires
        valid(t),
        t.phase == Phase::Running,
        !framing::has_newline(chunk),
        delivery::faithful(t, Event::Chunk(chunk)),
    ensures
        ({
            let next = delivery::step(t, Event::Chunk(chunk), now).0;
            &&& next.phase != Phase::Draining
            &&& next.phase == Phase::Running ==> next.buf.len() + next.flood_count * MAX_LINE_BYTES
                == t.buf.len() + t.flood_count * MAX_LINE_BYTES + chunk.len()
        }),
{
    let buf = t.buf + chunk;
    assert(!framing::has_newline(buf)) by {
        if framing::has_newline(buf) {
            let i = choose|i: int| 0 <= i < buf.len() && buf[i] == framing::NEWLINE;
            if i < t.buf.len() {
                assert(t.buf.contains(t.buf[i]));
            } else {
                assert(chunk.contains(chunk[i - t.buf.len()]));
            }
        }
    }
    let cut = framing::split(buf, t.flood_count);
    let k = cut.lines.len();
    framing::law_every_byte_is_kept(buf, t.flood_count);
    if !cut.flooded {
        assert(k == framing::cuts(buf.len()));
        let m = MAX_LINE_BYTES as int;
        let n = buf.len() as int;
        if n > 0 {
            assert(0 <= k * m <= n) by (nonlinear_arith)
                requires
                    m > 0,
                    n > 0,
                    k == (n - 1) / m,
            ;
        } else {
            assert(k * m == 0) by (nonlinear_arith)
                requires
                    k == 0,
            ;
        }
        assert(cut.rest.len() == buf.len() - k * m);
        assert((t.flood_count + k) * m == t.flood_count * m + k * m) by (nonlinear_arith);
    }
}

proof fn lemma_newline_free(s: LoopState, history: History)
    requires
        valid(s),
        s.phase == Phase::Running,
        newline_free(history),
        faithful_throughout(s, history),
    ensures
        valid(state_after(s, history)),
        state_after(s, history).phase != Phase::Draining,
        state_after(s, history).phase == Phase::Running ==> state_after(s, history).buf.len()
            + state_after(s, history).flood_count * MAX_LINE_BYTES == s.buf.len() + s.flood_count
            * MAX_LINE_BYTES + volume(history),
    decreases history.len(),
{
    if history.len() > 0 {
        let earlier = history.drop_last();
        let (event, now) = history.last();
        lemma_newline_free(s, earlier);
        let t = state_after(s, earlier);
        law_step_keeps_valid(t, event, now);
        if t.phase == Phase::Running {
            lemma_newline_free_step(t, event->Chunk_0, now);
        }
    }
}

/// An endless stream without newlines trips the flood guard: a monitor that
/// received more than `FLOOD_MAX_LINES` lines' worth of it has stopped.
pub proof fn law_a_newline_free_stream_trips_the_flood_guard(
    id: Seq<char>,
    process_id: i32,
    grace: u64,
    history: History,
)
    requires
        newline_free(history),
        faithful_throughout(delivery::fresh(id, process_id, grace), history),
        volume(history) > FLOOD_MAX_LINES * MAX_LINE_BYTES,
    ensures
        state_after(delivery::fresh(id, process_id, grace), history).phase == Phase::Stopped,
{
    let s = delivery::fresh(id, process_id, grace);
    lemma_newline_free(s, history);
}

/// All the bytes of output in `history`.
pub open spec fn output_of(history: History) -> Seq<u8>
    decreases history.len(),
{
    if history.len() == 0 {
        seq![]
    } else {
        output_of(history.drop_last()) + match history.last().0 {
            Event::Chunk(chunk) => chunk,
            _ => seq![],
        }
    }
}

/// Whether no output was lost in `history`.
pub open spec fn without_lag(history: History) -> bool {
    forall|i: int| 0 <= i < history.len() ==> !((#[trigger] history[i]).0 is Lagged)
}

/// As long as a loop has not stopped, it has brought the lines of the output so
/// far and holds what is left of it.
#[verifier::spinoff_prover]
proof fn lemma_lines_of_output(s: LoopState, history: History, stream: Seq<u8>)
    requires
        s == delivery::fresh(s.id, s.process_id, s.grace),
        without_lag(history),
        state_after(s, history).phase != Phase::Stopped,
        output_of(history).is_prefix_of(stream),
        framing::has_short_runs(stream),
        !framing::split(stream, 0).flooded,
    ensures
        ({
            let cut = framing::split(output_of(history), 0);
            let t = state_after(s, history);
            &&& !cut.flooded
            &&& t.buf == cut.rest
            &&& lines_of(s, history) == cut.lines
            &&& t.flood_count == cut.lines.len()
        }),
    decreases history.len(),
{
    let output = output_of(history);
    let n = output.len() as int;
    assert(stream.take(n) =~= output);
    framing::lemma_short_runs_prefix(stream, n);
    framing::law_chunk_boundaries_do_not_matter(output, stream.skip(n), 0);
    assert(output + stream.skip(n) =~= stream);
    if history.len() == 0 {
        assert(framing::split(output, 0) == framing::Split {
            pieces: seq![],
            lines: seq![],
            rest: output,
            flooded: false,
        });
        assert(output =~= seq![]);
    } else {
        let earlier = history.drop_last();
        let (event, now) = history.last();
        let t = state_after(s, earlier);
        let before = output_of(earlier);
        let m = before.len() as int;
        assert(stream.take(m) =~= before);
        assert(without_lag(earlier));
        lemma_lines_of_output(s, earlier, stream);
        assert(history[history.len() - 1] == (event, now));
        lemma_outcome_lines(t, event, now);
        let added = lines_of_event(t, event, now);
        if let Event::Chunk(chunk) = event {
            framing::lemma_short_runs_prefix(stream, m);
            framing::law_chunk_boundaries_do_not_matter(before, chunk, 0);
            assert(added =~= framing::split(t.buf + chunk, t.flood_count).lines);
        } else {
            assert(output =~= before);
            assert(added =~= seq![]);
            assert(lines_of(s, history) =~= lines_of(s, earlier));
        }
    }
}

/// A whole life delivers the lines of its output: where no output was lost, no
/// run is overlong and the flood ceiling is not reached, the notifications of a
/// monitor that ran to its end, taken together, are the non-blank lines of what
/// its command wrote, the last one included, however it arrived and whenever
/// the batches were due. Cut at their newlines, they are just those lines.
pub proof fn law_a_whole_life_delivers_the_lines_of_its_output(
    id: Seq<char>,
    process_id: i32,
    grace: u64,
    history: History,
)
    requires
        history.len() > 0,
        history.last().0 is Closed,
        state_after(delivery::fresh(id, process_id, grace), history.drop_last()).phase
            == Phase::Draining,
        without_lag(history),
        framing::has_short_runs(output_of(history)),
        framing::line_texts(framing::complete_lines(output_of(history))).len() < FLOOD_MAX_LINES,
    ensures
        text::newline_joined(
            deliveries(effects_of(delivery::fresh(id, process_id, grace), history)),
        ) == text::newline_joined(
            framing::line_texts(framing::all_lines(output_of(history))),
        ),
        faithful_throughout(delivery::fresh(id, process_id, grace), history) ==> deliveries(
            effects_of(delivery::fresh(id, process_id, grace), history),
        ).map_values(|text: Seq<char>| text::text_lines(text)).flatten() == framing::line_texts(
            framing::all_lines(output_of(history)),
        ),
{
    let s = delivery::fresh(id, process_id, grace);
    let earlier = history.drop_last();
    let (event, now) = history.last();
    let t = state_after(s, earlier);
    let output = output_of(history);
    assert(output_of(earlier) =~= output);
    framing::law_split_yields_the_complete_lines(output, 0);
    assert(without_lag(earlier));
    lemma_lines_of_output(s, earlier, output);

    // The drain ends with the last line, if it is not blank.
    let lines = framing::complete_lines(output);
    let last = framing::unterminated(output);
    lemma_outcome_lines(t, event, now);
    framing::lemma_line_texts_one(last);
    let tail: Seq<Seq<u8>> = if last.len() > 0 { seq![last] } else { seq![] };
    framing::lemma_line_texts_add(lines, tail);
    assert(lines_of_event(t, event, now) =~= framing::line_texts(tail));
    assert(lines_of(s, history) == framing::line_texts(framing::all_lines(output)));

    law_every_line_is_delivered_in_order(s, history);
    let batches = batches_of(s, history);
    assert(state_after(s, history).pending =~= seq![]);
    assert(batches.flatten() =~= lines_of(s, history));
    text::law_joining_in_batches_is_joining(batches);
    if faithful_throughout(s, history) {
        law_a_whole_life_delivers_every_line_as_written(id, process_id, grace, history);
    }
}

/// Whether every chunk of `history` was read while the loop was running.
pub open spec fn read_while_running(s: LoopState, history: History) -> bool
    decreases history.len(),
{
    history.len() > 0 ==> {
        &&& read_while_running(s, history.drop_last())
        &&& history.last().0 is Chunk ==> state_after(s, history.drop_last()).phase
            == Phase::Running
    }
}

proof fn lemma_valid_after(s: LoopState, history: History)
    requires
        valid(s),
    ensures
        valid(state_after(s, history)),
    decreases history.len(),
{
    if history.len() > 0 {
        lemma_valid_after(s, history.drop_last());
        law_step_keeps_valid(
            state_after(s, history.drop_last()),
            history.last().0,
            history.last().1,
        );
    }
}

/// What a loop has brought of the output it read: all its complete lines while
/// it runs, and those up to the ceiling once they reach it.
#[verifier::spinoff_prover]
proof fn lemma_flood_of_output(s: LoopState, history: History, stream: Seq<u8>)
    requires
        s == delivery::fresh(s.id, s.process_id, s.grace),
        without_lag(history),
        read_while_running(s, history),
        output_of(history).is_prefix_of(stream),
        framing::has_short_runs(stream),
    ensures
        ({
            let cut = framing::split(output_of(history), 0);
            let t = state_after(s, history);
            let effects = effects_of(s, history);
            &&& t.phase == Phase::Running ==> {
                &&& !cut.flooded
                &&& t.buf == cut.rest
                &&& lines_of(s, history) == cut.lines
                &&& t.flood_count == cut.lines.len()
            }
            &&& cut.flooded ==> {
                &&& t.phase == Phase::Stopped
                &&& lines_of(s, history) == cut.lines
                &&& effects.len() > 0
                &&& effects.last() == Effect::AnnounceFlood(delivery::flood_text())
            }
        }),
    decreases history.len(),
{
    let output = output_of(history);
    if history.len() == 0 {
        assert(output =~= seq![]);
        assert(framing::split(output, 0) == framing::Split {
            pieces: seq![],
            lines: seq![],
            rest: output,
            flooded: false,
        });
    } else {
        let earlier = history.drop_last();
        let (event, now) = history.last();
        let t = state_after(s, earlier);
        let before = output_of(earlier);
        let m = before.len() as int;
        assert(before.is_prefix_of(output));
        assert(stream.take(m) =~= before);
        assert(without_lag(earlier));
        lemma_flood_of_output(s, earlier, stream);
        assert(history[history.len() - 1] == (event, now));
        lemma_outcome_lines(t, event, now);
        let added = lines_of_event(t, event, now);
        let (next, effects) = delivery::step(t, event, now);
        let all = effects_of(s, history);
        assert(all == effects_of(s, earlier) + effects);
        if let Event::Chunk(chunk) = event {
            framing::lemma_short_runs_prefix(stream, m);
            framing::law_chunk_boundaries_do_not_matter(before, chunk, 0);
            let cut = framing::split(t.buf + chunk, t.flood_count);
            assert(added =~= cut.lines);
            if cut.flooded {
                let out = delivery::outcome(t, event, now);
                assert(out == delivery::flood_stop(delivery::with_chunk(t, chunk, now)));
                assert(effects == delivery::batch(out.state.pending) + out.after);
                assert(effects.last() == out.after.last());
                assert(all.last() == effects.last());
            }
        } else {
            assert(output =~= before);
            if framing::split(before, 0).flooded {
                law_a_stopped_loop_is_silent(t, event, now);
                assert(added =~= seq![]);
                assert(lines_of(s, history) =~= lines_of(s, earlier));
                assert(all =~= effects_of(s, earlier));
            } else if next.phase == Phase::Running {
                lemma_running_from_the_start(s, history);
                assert(added =~= seq![]);
                assert(lines_of(s, history) =~= lines_of(s, earlier));
            }
        }
    }
}

/// The flood guard over a whole life: a monitor whose output, read while it was
/// running and without overlong runs or lost chunks, has `FLOOD_MAX_LINES`
/// non-blank complete lines or more has stopped. It brought and delivered
/// exactly the first `FLOOD_MAX_LINES` of them, and the last thing it did was to
/// say that it was stopped for the flood.
pub proof fn law_a_flood_stops_the_monitor_at_the_ceiling(
    id: Seq<char>,
    process_id: i32,
    grace: u64,
    history: History,
)
    requires
        without_lag(history),
        read_while_running(delivery::fresh(id, process_id, grace), history),
        framing::has_short_runs(output_of(history)),
        framing::line_texts(framing::complete_lines(output_of(history))).len() >= FLOOD_MAX_LINES,
    ensures
        ({
            let s = delivery::fresh(id, process_id, grace);
            let effects = effects_of(s, history);
            let lines = framing::line_texts(framing::complete_lines(output_of(history))).take(
                FLOOD_MAX_LINES as int,
            );
            &&& state_after(s, history).phase == Phase::Stopped
            &&& lines_of(s, history) == lines
            &&& text::newline_joined(deliveries(effects)) == text::newline_joined(lines)
            &&& effects.len() > 0
            &&& effects.last() == Effect::AnnounceFlood(delivery::flood_text())
        }),
{
    let s = delivery::fresh(id, process_id, grace);
    let output = output_of(history);
    framing::law_split_yields_the_lines_up_to_the_ceiling(output, 0);
    lemma_flood_of_output(s, history, output);
    lemma_valid_after(s, history);
    law_every_line_is_delivered_in_order(s, history);
    let batches = batches_of(s, history);
    assert(state_after(s, history).pending =~= seq![]);
    assert(batches.flatten() =~= lines_of(s, history));
    text::law_joining_in_batches_is_joining(batches);
}

/// How many chunks are gone in `history`, all lags together.
pub open spec fn lost_chunks(history: History) -> nat
    decreases history.len(),
{
    if history.len() == 0 {
        0
    } else {
        lost_chunks(history.drop_last()) + match history.last().0 {
            Event::Lagged(skipped) => (skipped as usize) as nat,
            _ => 0,
        }
    }
}

/// The count over a life: a monitor that still runs has counted the non-blank
/// complete lines of its output and every chunk that is gone, and nothing else,
/// and its buffer is what its output left unterminated.
#[verifier::spinoff_prover]
pub proof fn law_the_count_is_lines_plus_lost_chunks(
    id: Seq<char>,
    process_id: i32,
    grace: u64,
    history: History,
)
    requires
        state_after(delivery::fresh(id, process_id, grace), history).phase == Phase::Running,
        framing::has_short_runs(output_of(history)),
    ensures
        ({
            let t = state_after(delivery::fresh(id, process_id, grace), history);
            let output = output_of(history);
            &&& t.flood_count == framing::line_texts(framing::complete_lines(output)).len()
                + lost_chunks(history)
            &&& t.flood_count < FLOOD_MAX_LINES
            &&& t.buf == framing::unterminated(output)
        }),
    decreases history.len(),
{
    let s = delivery::fresh(id, process_id, grace);
    lemma_valid_after(s, history);
    let output = output_of(history);
    if history.len() == 0 {
        framing::law_all_lines_are_the_bytes(output);
        framing::lemma_line_texts_one(output);
        assert(output =~= seq![]);
        assert(framing::complete_lines(output) =~= seq![]);
        assert(framing::unterminated(output) =~= seq![]);
    } else {
        let earlier = history.drop_last();
        let (event, now) = history.last();
        let t = state_after(s, earlier);
        let before = output_of(earlier);
        lemma_running_from_the_start(s, history);
        lemma_valid_after(s, earlier);
        if let Event::Chunk(chunk) = event {
            framing::lemma_short_runs_front(before, chunk);
            law_the_count_is_lines_plus_lost_chunks(id, process_id, grace, earlier);
            framing::law_lines_do_not_depend_on_where_a_stream_is_parted(before, chunk);
            framing::lemma_short_runs_suffix(
                before + chunk,
                framing::terminated_len(before) as int,
            );
            let bytes = t.buf + chunk;
            framing::law_split_yields_the_lines_up_to_the_ceiling(bytes, t.flood_count);
            framing::law_split_yields_the_complete_lines(bytes, t.flood_count);
            framing::lemma_line_texts_add(
                framing::complete_lines(before),
                framing::complete_lines(bytes),
            );
        } else {
            assert(output =~= before);
            law_the_count_is_lines_plus_lost_chunks(id, process_id, grace, earlier);
        }
    }
}

/// Lines and lost chunks together trip the flood guard: a monitor whose output
/// has so many non-blank complete lines, and so many lost chunks besides, that
/// they reach the ceiling does not run any more.
pub proof fn law_lines_and_lost_chunks_together_trip_the_flood_guard(
    id: Seq<char>,
    process_id: i32,
    grace: u64,
    history: History,
)
    requires
        framing::has_short_runs(output_of(history)),
        framing::line_texts(framing::complete_lines(output_of(history))).len() + lost_chunks(
            history,
        ) >= FLOOD_MAX_LINES,
    ensures
        state_after(delivery::fresh(id, process_id, grace), history).phase != Phase::Running,
{
    if state_after(delivery::fresh(id, process_id, grace), history).phase == Phase::Running {
        law_the_count_is_lines_plus_lost_chunks(id, process_id, grace, history);
    }
}

/// Whether no line holds a newline.
pub open spec fn single_lines(lines: Seq<Seq<char>>) -> bool {
    forall|i: int| 0 <= i < lines.len() ==> !(#[trigger] lines[i]).contains('\n')
}

proof fn lemma_lag_text_is_one_line(skipped: u64)
    ensures
        !delivery::lag_text(skipped).contains('\n'),
{
    reveal_strlit("(dropped ~");
    reveal_strlit(" chunks: watcher output too fast)");
    text::law_a_decimal_reads_back(skipped as nat);
    let text = delivery::lag_text(skipped);
    let head = "(dropped ~"@;
    let digits = text::decimal(skipped as nat);
    if text.contains('\n') {
        let i = choose|i: int| 0 <= i < text.len() && text[i] == '\n';
        if head.len() <= i < head.len() + digits.len() {
            assert(text[i] == digits[i - head.len()]);
        }
    }
}

/// The lines that an event brings hold no newline, but where the drain ends with
/// newlines still in the buffer.
proof fn lemma_event_brings_single_lines(s: LoopState, event: Event<Seq<u8>>, now: u128)
    requires
        delivery::faithful(s, event),
        s.phase == Phase::Draining && event is Closed ==> !framing::has_newline(s.buf),
    ensures
        single_lines(lines_of_event(s, event, now)),
{
    lemma_outcome_lines(s, event, now);
    let lines = lines_of_event(s, event, now);
    match event {
        Event::Chunk(chunk) if s.phase != Phase::Stopped => {
            let buf = s.buf + chunk;
            let cut = framing::split(buf, s.flood_count);
            assert(lines =~= cut.lines);
            framing::law_lines_are_the_nonblank_texts(buf, s.flood_count);
            let texts = cut.pieces.map_values(|piece: Seq<u8>| framing::piece_text(piece));
            let keep = |text: Seq<char>| text.len() > 0;
            assert forall|i: int| 0 <= i < lines.len() implies !(#[trigger] lines[i]).contains(
                '\n',
            ) by {
                assert(texts.filter(keep).contains(lines[i])) by {
                    assert(texts.filter(keep)[i] == lines[i]);
                }
                texts.lemma_filter_contains_rev(keep, lines[i]);
                let k = choose|k: int| 0 <= k < texts.len() && texts[k] == lines[i];
                assert(framing::decodes_faithfully(cut.pieces[k]));
                framing::law_a_piece_stays_one_line(buf, s.flood_count, k);
            }
        },
        Event::Lagged(skipped) if s.phase != Phase::Stopped => {
            lemma_lag_text_is_one_line(skipped);
            assert(lines =~= seq![delivery::lag_text(skipped)]);
        },
        Event::Closed if s.phase == Phase::Draining => {
            let chars = text::lossy_utf8(s.buf);
            let last = text::trimmed(chars);
            if s.buf.len() > 0 && last.len() > 0 {
                assert(lines =~= seq![last]);
                text::lemma_occurrences(s.buf, framing::NEWLINE);
                text::lemma_occurrences(chars, '\n');
                text::law_trimmed_end(chars);
                if last.contains('\n') {
                    let i = choose|i: int| 0 <= i < last.len() && last[i] == '\n';
                    assert(chars[i] == '\n');
                    assert(chars.contains(chars[i]));
                }
            } else {
                assert(lines =~= seq![]);
            }
        },
        _ => {
            assert(lines =~= seq![]);
        },
    }
}

proof fn lemma_single_lines(s: LoopState, history: History)
    requires
        faithful_throughout(s, history),
        state_after(s, history).phase != Phase::Stopped || history.len() == 0
            || state_after(s, history.drop_last()).phase == Phase::Running,
    ensures
        single_lines(lines_of(s, history)),
    decreases history.len(),
{
    if history.len() > 0 {
        let earlier = history.drop_last();
        let (event, now) = history.last();
        let t = state_after(s, earlier);
        lemma_single_lines(s, earlier);
        lemma_event_brings_single_lines(t, event, now);
        lemma_single_lines_add(lines_of(s, earlier), lines_of_event(t, event, now));
    }
}

proof fn lemma_single_lines_add(a: Seq<Seq<char>>, b: Seq<Seq<char>>)
    requires
        single_lines(a),
        single_lines(b),
    ensures
        single_lines(a + b),
{
    assert forall|i: int| 0 <= i < (a + b).len() implies !(#[trigger] (a + b)[i]).contains(
        '\n',
    ) by {
        if i < a.len() {
            assert((a + b)[i] == a[i]);
        } else {
            assert((a + b)[i] == b[i - a.len()]);
        }
    }
}

/// The notifications, each cut at its newlines, hold all the lines of a life
/// that left none pending.
proof fn lemma_deliveries_split_back(s: LoopState, history: History)
    requires
        s.pending.len() == 0,
        state_after(s, history).pending.len() == 0,
        single_lines(lines_of(s, history)),
    ensures
        deliveries(effects_of(s, history)).map_values(
            |text: Seq<char>| text::text_lines(text),
        ).flatten() == lines_of(s, history),
{
    law_every_line_is_delivered_in_order(s, history);
    let batches = batches_of(s, history);
    let lines = lines_of(s, history);
    let texts = deliveries(effects_of(s, history));
    let back = texts.map_values(|text: Seq<char>| text::text_lines(text));
    assert(state_after(s, history).pending =~= seq![]);
    assert(s.pending =~= seq![]);
    assert(batches.flatten() =~= lines);
    assert forall|i: int| 0 <= i < batches.len() implies back[i] == batches[i] by {
        let batch = batches[i];
        assert(batch.len() > 0);
        assert forall|j: int| 0 <= j < batch.len() implies !(#[trigger] batch[j]).contains(
            '\n',
        ) by {
            lemma_flatten_holds(batches, i, j);
            let k = choose|k: int| 0 <= k < batches.flatten().len() && batches.flatten()[k] == batch[j];
            assert(lines[k] == batch[j]);
        }
        text::law_a_joined_text_splits_back(batch);
        assert(texts[i] == text::newline_joined(batch));
    }
    assert(back =~= batches);
}

proof fn lemma_flatten_holds(batches: Seq<Seq<Seq<char>>>, i: int, j: int)
    requires
        0 <= i < batches.len(),
        0 <= j < batches[i].len(),
    ensures
        batches.flatten().contains(batches[i][j]),
    decreases batches.len(),
{
    let rest = batches.drop_first();
    let flat = batches.flatten();
    assert(flat == batches[0] + rest.flatten());
    if i == 0 {
        assert(flat[j] == batches[0][j]);
    } else {
        assert(rest[i - 1] == batches[i]);
        lemma_flatten_holds(rest, i - 1, j);
        let k = choose|k: int|
            0 <= k < rest.flatten().len() && rest.flatten()[k] == batches[i][j];
        assert(flat[batches[0].len() + k] == batches[i][j]);
    }
}

/// A whole life delivers every line as it was written: where no output was lost,
/// no run is overlong and the flood ceiling is not reached, the notifications of
/// a monitor that ran to its end, cut at their newlines, are one by one the
/// non-blank lines of what its command wrote, the last one included.
pub proof fn law_a_whole_life_delivers_every_line_as_written(
    id: Seq<char>,
    process_id: i32,
    grace: u64,
    history: History,
)
    requires
        history.len() > 0,
        history.last().0 is Closed,
        state_after(delivery::fresh(id, process_id, grace), history.drop_last()).phase
            == Phase::Draining,
        without_lag(history),
        faithful_throughout(delivery::fresh(id, process_id, grace), history),
        framing::has_short_runs(output_of(history)),
        framing::line_texts(framing::complete_lines(output_of(history))).len() < FLOOD_MAX_LINES,
    ensures
        deliveries(effects_of(delivery::fresh(id, process_id, grace), history)).map_values(
            |text: Seq<char>| text::text_lines(text),
        ).flatten() == framing::all_lines(output_of(history)).map_values(
            |line: Seq<u8>| text::trimmed(text::lossy_utf8(line)),
        ).filter(|text: Seq<char>| text.len() > 0),
{
    let s = delivery::fresh(id, process_id, grace);
    let earlier = history.drop_last();
    let (event, now) = history.last();
    let t = state_after(s, earlier);
    let output = output_of(history);
    assert(output_of(earlier) =~= output);
    framing::law_split_yields_the_complete_lines(output, 0);
    assert(without_lag(earlier));
    lemma_lines_of_output(s, earlier, output);
    let lines = framing::complete_lines(output);
    let last = framing::unterminated(output);
    framing::law_all_lines_are_the_bytes(output);
    lemma_outcome_lines(t, event, now);
    framing::lemma_line_texts_one(last);
    let tail: Seq<Seq<u8>> = if last.len() > 0 { seq![last] } else { seq![] };
    framing::lemma_line_texts_add(lines, tail);
    assert(lines_of_event(t, event, now) =~= framing::line_texts(tail));
    assert(lines_of(s, history) == framing::line_texts(framing::all_lines(output)));

    lemma_single_lines(s, earlier);
    lemma_event_brings_single_lines(t, event, now);
    lemma_single_lines_add(lines_of(s, earlier), lines_of_event(t, event, now));
    lemma_deliveries_split_back(s, history);
}

/// Output that is read while a loop runs leaves no newline in its buffer, and
/// all its lines are single ones.
proof fn lemma_single_lines_while_running(s: LoopState, history: History)
    requires
        valid(s),
        s.phase == Phase::Running,
        read_while_running(s, history),
        faithful_throughout(s, history),
    ensures
        single_lines(lines_of(s, history)),
        state_after(s, history).phase != Phase::Stopped ==> !framing::has_newline(
            state_after(s, history).buf,
        ),
    decreases history.len(),
{
    if history.len() > 0 {
        let earlier = history.drop_last();
        let (event, now) = history.last();
        let t = state_after(s, earlier);
        lemma_single_lines_while_running(s, earlier);
        lemma_valid_after(s, history);
        lemma_event_brings_single_lines(t, event, now);
        lemma_single_lines_add(lines_of(s, earlier), lines_of_event(t, event, now));
    }
}

/// A flood delivers its lines as they were written: the notifications of a
/// monitor that was stopped for a flood, cut at their newlines, are one by one
/// the first `FLOOD_MAX_LINES` non-blank lines of what its command wrote.
pub proof fn law_a_flood_delivers_every_line_as_written(
    id: Seq<char>,
    process_id: i32,
    grace: u64,
    history: History,
)
    requires
        without_lag(history),
        read_while_running(delivery::fresh(id, process_id, grace), history),
        faithful_throughout(delivery::fresh(id, process_id, grace), history),
        framing::has_short_runs(output_of(history)),
        framing::line_texts(framing::complete_lines(output_of(history))).len() >= FLOOD_MAX_LINES,
    ensures
        deliveries(effects_of(delivery::fresh(id, process_id, grace), history)).map_values(
            |text: Seq<char>| text::text_lines(text),
        ).flatten() == framing::complete_lines(output_of(history)).map_values(
            |line: Seq<u8>| text::trimmed(text::lossy_utf8(line)),
        ).filter(|text: Seq<char>| text.len() > 0).take(FLOOD_MAX_LINES as int),
{
    let s = delivery::fresh(id, process_id, grace);
    law_a_flood_stops_the_monitor_at_the_ceiling(id, process_id, grace, history);
    lemma_valid_after(s, history);
    lemma_single_lines_while_running(s, history);
    lemma_deliveries_split_back(s, history);
}

/// How many lags `history` tells of.
pub open spec fn lags(history: History) -> nat
    decreases history.len(),
{
    if history.len() == 0 {
        0
    } else {
        lags(history.drop_last()) + if history.last().0 is Lagged {
            1nat
        } else {
            0nat
        }
    }
}

/// The count over any history, overlong runs and the drain included: as long as
/// a loop has not stopped, every line that it brought counts as one, but for the
/// line of a lag, which counts as the chunks that are gone.
pub proof fn law_every_line_counts_as_one_and_every_lag_as_its_chunks(
    s: LoopState,
    history: History,
)
    requires
        state_after(s, history).phase != Phase::Stopped,
    ensures
        state_after(s, history).flood_count + lags(history) == s.flood_count + lines_of(
            s,
            history,
        ).len() + lost_chunks(history),
    decreases history.len(),
{
    if history.len() > 0 {
        let earlier = history.drop_last();
        let (event, now) = history.last();
        let t = state_after(s, earlier);
        law_every_line_counts_as_one_and_every_lag_as_its_chunks(s, earlier);
        lemma_outcome_lines(t, event, now);
        assert(lines_of(s, history).len() == lines_of(s, earlier).len() + lines_of_event(
            t,
            event,
            now,
        ).len());
    }
}

} // verus!
