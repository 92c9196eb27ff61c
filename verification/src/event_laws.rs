//! What each event does to a delivery loop, and what it leaves alone.

use vstd::prelude::*;

use crate::channel;
use crate::channel::Received;
use crate::delivery;
use crate::delivery::{Effect, Event, LoopState, Phase};
use crate::framing;
use crate::framing::{BATCH_WINDOW, FLOOD_MAX_LINES, MAX_LINE_BYTES};
use crate::text;

verus! {

/// A loop starts out running, with nothing received, nothing pending, nothing
/// counted and no timer set.
pub proof fn law_a_fresh_loop_has_nothing(id: Seq<char>, process_id: i32, grace: u64)
    ensures
        ({
            let s = delivery::fresh(id, process_id, grace);
            &&& s.id == id
            &&& s.process_id == process_id
            &&& s.grace == grace
            &&& s.buf.len() == 0
            &&& s.pending.len() == 0
            &&& s.flood_count == 0
            &&& s.flush_at is None
            &&& s.closing_at is None
            &&& s.phase == Phase::Running
        }),
{
}

/// No event changes whose loop it is, or its grace.
pub proof fn law_a_loop_keeps_its_identity(s: LoopState, event: Event<Seq<u8>>, now: u128)
    ensures
        delivery::step(s, event, now).0.id == s.id,
        delivery::step(s, event, now).0.process_id == s.process_id,
        delivery::step(s, event, now).0.grace == s.grace,
{
}

/// Trailing output is waited for one whole grace from the exit on: in every
/// running state, the first exit sets the time at which waiting ends to the
/// grace behind it, and nothing else ever sets or moves it.
pub proof fn law_waiting_ends_one_grace_after_the_exit(
    s: LoopState,
    event: Event<Seq<u8>>,
    now: u128,
)
    requires
        now + s.grace <= u128::MAX,
    ensures
        ({
            let next = delivery::step(s, event, now).0;
            if s.phase == Phase::Running && event is Exited && s.closing_at is None {
                &&& next.closing_at is Some
                &&& next.closing_at->0 == now + s.grace
                &&& next.phase == Phase::Running
            } else {
                next.closing_at == s.closing_at
            }
        }),
{
}

/// A loop goes on to drain its channel when the channel has nothing more to
/// give, or when waiting for trailing output is over, and for no other reason.
pub proof fn law_when_draining_begins(s: LoopState, event: Event<Seq<u8>>, now: u128)
    requires
        s.phase == Phase::Running,
    ensures
        delivery::step(s, event, now).0.phase == Phase::Draining <==> event is Closed || (
        event is GraceOver && s.closing_at is Some),
        event is GraceOver && s.closing_at is None ==> delivery::step(s, event, now).0 == s,
{
}

/// Only output changes the buffer, and only until the loop stopped.
pub proof fn law_only_output_changes_the_buffer(s: LoopState, event: Event<Seq<u8>>, now: u128)
    ensures
        !(event is Chunk) || s.phase == Phase::Stopped ==> delivery::step(s, event, now).0.buf
            == s.buf,
{
}

/// The count: in every state that has not stopped, a chunk counts the lines it
/// completes, a lag counts every chunk that is gone, and nothing else counts.
pub proof fn law_lines_and_lost_chunks_are_counted(
    s: LoopState,
    event: Event<Seq<u8>>,
    now: u128,
)
    ensures
        ({
            let next = delivery::step(s, event, now).0;
            next.flood_count == s.flood_count + if s.phase == Phase::Stopped {
                0
            } else {
                match event {
                    Event::Chunk(chunk) => framing::split(
                        s.buf + chunk,
                        s.flood_count,
                    ).lines.len() as int,
                    Event::Lagged(skipped) => (skipped as usize) as int,
                    _ => 0,
                }
            }
        }),
{
}

/// A lag trips the flood guard by the number of chunks that are gone, whatever
/// is pending.
pub proof fn law_a_lag_trips_the_flood_guard(s: LoopState, skipped: u64, now: u128)
    requires
        s.phase == Phase::Running,
    ensures
        delivery::step(s, Event::Lagged(skipped), now).0.phase == if s.flood_count + (
        skipped as usize) >= FLOOD_MAX_LINES {
            Phase::Stopped
        } else {
            Phase::Running
        },
        (skipped as usize) >= FLOOD_MAX_LINES ==> delivery::step(
            s,
            Event::Lagged(skipped),
            now,
        ).0.phase == Phase::Stopped,
{
}

proof fn lemma_flood_text()
    ensures
        delivery::flood_text()
            == "auto-stopped after 5000 lines (flood guard); restart with a tighter filter"@,
{
    reveal_strlit("auto-stopped after 5000 lines (flood guard); restart with a tighter filter");
    reveal_strlit("auto-stopped after ");
    reveal_strlit(" lines (flood guard); restart with a tighter filter");
    reveal_with_fuel(text::decimal, 5);
    assert(text::decimal(5000) =~= seq!['5', '0', '0', '0']);
    assert(delivery::flood_text()
        =~= "auto-stopped after 5000 lines (flood guard); restart with a tighter filter"@);
}

/// What stopping for a flood does, in order: the lines that are pending go out
/// as one notification, the process is terminated, the monitor leaves the
/// registry, and the agent is told why.
pub open spec fn flood_effects(
    id: Seq<char>,
    process_id: i32,
    lines: Seq<Seq<char>>,
    effects: Seq<Effect<Seq<char>>>,
) -> bool {
    &&& effects.len() == 4
    &&& effects[0] == Effect::Deliver(text::newline_joined(lines))
    &&& effects[1] == Effect::<Seq<char>>::Terminate(process_id)
    &&& effects[2] == Effect::Deregister(id)
    &&& effects[3] == Effect::AnnounceFlood(
        "auto-stopped after 5000 lines (flood guard); restart with a tighter filter"@,
    )
}

/// A chunk adds the lines that it completes to the batch, and what it leaves
/// stays in the buffer. While the loop runs, reaching the flood ceiling stops
/// it; otherwise nothing is done but that the first line of a batch starts the
/// timer.
pub proof fn law_a_chunk_adds_its_lines(s: LoopState, chunk: Seq<u8>, now: u128)
    requires
        s.phase != Phase::Stopped,
        now + BATCH_WINDOW <= u128::MAX,
    ensures
        ({
            let cut = framing::split(s.buf + chunk, s.flood_count);
            let (next, effects) = delivery::step(s, Event::Chunk(chunk), now);
            &&& next.buf == cut.rest
            &&& if s.phase == Phase::Running && cut.flooded {
                &&& next.phase == Phase::Stopped
                &&& next.pending.len() == 0
                &&& flood_effects(s.id, s.process_id, s.pending + cut.lines, effects)
            } else {
                &&& next.phase == s.phase
                &&& next.pending == s.pending + cut.lines
                &&& effects.len() == 0
            }
            &&& if s.flush_at is None && cut.lines.len() > 0 {
                next.flush_at is Some && next.flush_at->0 == now + BATCH_WINDOW
            } else {
                next.flush_at == s.flush_at
            }
        }),
{
    lemma_flood_text();
    framing::law_flood_ceiling(s.buf + chunk, s.flood_count);
}

/// A lag adds one line to the batch, for every number of chunks that are gone.
/// While the loop runs, reaching the flood ceiling stops it; otherwise nothing
/// is done but that the first line of a batch starts the timer. A loop that
/// drains its channel goes on draining it.
pub proof fn law_a_lag_adds_its_line(s: LoopState, skipped: u64, now: u128)
    requires
        s.phase != Phase::Stopped,
        now + BATCH_WINDOW <= u128::MAX,
    ensures
        ({
            let lines = s.pending.push(delivery::lag_text(skipped));
            let (next, effects) = delivery::step(s, Event::Lagged(skipped), now);
            if s.phase == Phase::Draining {
                &&& next.phase == Phase::Draining
                &&& next.pending == lines
                &&& next.flush_at == s.flush_at
                &&& effects.len() == 0
            } else {
                &&& next.flush_at is Some
                &&& next.flush_at->0 == if s.flush_at is Some {
                    s.flush_at->0 as int
                } else {
                    now + BATCH_WINDOW
                }
                &&& if s.flood_count + (skipped as usize) >= FLOOD_MAX_LINES {
                    &&& next.phase == Phase::Stopped
                    &&& next.pending.len() == 0
                    &&& flood_effects(s.id, s.process_id, lines, effects)
                } else {
                    &&& next.phase == Phase::Running
                    &&& next.pending == lines
                    &&& effects.len() == 0
                }
            }
        }),
{
    lemma_flood_text();
}

/// A batch that is due goes out as one notification of all its lines, and a new
/// one can begin. Nothing goes out without lines, and a loop that does not run
/// or whose timer is not set does nothing.
pub proof fn law_a_due_batch_goes_out_whole(s: LoopState, now: u128)
    ensures
        ({
            let (next, effects) = delivery::step(s, Event::BatchDue, now);
            &&& next.phase == s.phase
            &&& if s.phase == Phase::Running && s.flush_at is Some {
                &&& next.flush_at is None
                &&& next.pending.len() == 0
                &&& effects == if s.pending.len() == 0 {
                    seq![]
                } else {
                    seq![Effect::Deliver(text::newline_joined(s.pending))]
                }
            } else {
                &&& next.flush_at == s.flush_at
                &&& next.pending == s.pending
                &&& effects.len() == 0
            }
        }),
{
    let pending = s.pending;
    assert(delivery::batch(pending) + seq![] =~= delivery::batch(pending));
}

/// An exit, the end of the grace, and the end of the channel while the loop runs
/// deliver nothing and leave what is pending and its timer alone.
pub proof fn law_an_exit_leaves_the_batch_alone(s: LoopState, event: Event<Seq<u8>>, now: u128)
    requires
        event is Exited || event is GraceOver || (event is Closed && s.phase == Phase::Running),
    ensures
        delivery::step(s, event, now).0.pending == s.pending,
        delivery::step(s, event, now).0.flush_at == s.flush_at,
        delivery::step(s, event, now).1.len() == 0,
        event is Exited ==> delivery::step(s, event, now).0.phase == s.phase,
{
}

/// The end of the drain, in order: what is pending goes out as one notification,
/// an unterminated last line behind it if it is not blank, the monitor leaves
/// the registry, and the exit is announced.
pub proof fn law_the_drain_ends_with_the_exit_notice(s: LoopState, now: u128)
    requires
        s.phase == Phase::Draining,
    ensures
        ({
            let last = text::trimmed(text::lossy_utf8(s.buf));
            let lines = if s.buf.len() > 0 && last.len() > 0 {
                s.pending.push(last)
            } else {
                s.pending
            };
            let (next, effects) = delivery::step(s, Event::Closed, now);
            let k: int = if lines.len() > 0 { 1 } else { 0 };
            &&& next.phase == Phase::Stopped
            &&& next.pending.len() == 0
            &&& next.flush_at == s.flush_at
            &&& effects.len() == k + 2
            &&& lines.len() > 0 ==> effects[0] == Effect::Deliver(text::newline_joined(lines))
            &&& effects[k] == Effect::Deregister(s.id)
            &&& effects[k + 1] == Effect::<Seq<char>>::AnnounceExit
        }),
{
}

/// What is received while draining is taken for what it is: chunks and lags as
/// they are, whatever their size, and the end only where the channel is empty or
/// closed.
pub proof fn law_what_is_received_is_taken_for_what_it_is(received: Received)
    ensures
        channel::received_event(received) is Closed <==> received is Empty || received is Closed,
        received matches Received::Lagged(skipped) ==> channel::received_event(received)
            == Event::<Seq<u8>>::Lagged(skipped),
        received matches Received::Chunk(chunk) ==> channel::received_event(received)
            == Event::Chunk(chunk@),
{
}

/// A lag does not end the drain, however many chunks are gone: its line is
/// added, the buffer stays, and the loop goes on to take what is queued behind
/// it.
pub proof fn law_a_lag_does_not_end_the_drain(s: LoopState, skipped: u64, now: u128)
    requires
        s.phase == Phase::Draining,
    ensures
        ({
            let (next, effects) = delivery::step(
                s,
                channel::received_event(Received::Lagged(skipped)),
                now,
            );
            &&& next.phase == Phase::Draining
            &&& next.pending == s.pending.push(delivery::lag_text(skipped))
            &&& next.buf == s.buf
            &&& effects.len() == 0
        }),
{
}

/// An event can be counted unless the machine's integers have no room for it;
/// a stopped loop counts nothing.
pub proof fn law_what_can_be_counted(s: LoopState, event: Event<Seq<u8>>)
    ensures
        s.phase == Phase::Stopped ==> delivery::countable(s, event),
        s.phase != Phase::Stopped ==> (delivery::countable(s, event) <==> match event {
            Event::Chunk(_) => s.flood_count + 1 <= usize::MAX,
            Event::Lagged(skipped) => s.flood_count + (skipped as usize) <= usize::MAX,
            _ => true,
        }),
{
}

/// Events and effects are seen as they are: only their buffers and strings are
/// replaced by what they hold.
pub proof fn law_events_and_effects_are_seen_as_they_are(
    event: Event<Vec<u8>>,
    effects: Seq<Effect<String>>,
    i: int,
)
    requires
        0 <= i < effects.len(),
    ensures
        match event {
            Event::Chunk(chunk) => delivery::event_view(event) == Event::Chunk(chunk@),
            Event::Lagged(skipped) => delivery::event_view(event) == Event::<Seq<u8>>::Lagged(
                skipped,
            ),
            Event::Closed => delivery::event_view(event) is Closed,
            Event::BatchDue => delivery::event_view(event) is BatchDue,
            Event::Exited => delivery::event_view(event) is Exited,
            Event::GraceOver => delivery::event_view(event) is GraceOver,
        },
        delivery::effect_views(effects).len() == effects.len(),
        match effects[i] {
            Effect::Deliver(text) => delivery::effect_views(effects)[i] == Effect::Deliver(text@),
            Effect::Terminate(process_id) => delivery::effect_views(effects)[i] == Effect::<
                Seq<char>,
            >::Terminate(process_id),
            Effect::Deregister(id) => delivery::effect_views(effects)[i] == Effect::Deregister(
                id@,
            ),
            Effect::AnnounceFlood(text) => delivery::effect_views(effects)[i]
                == Effect::AnnounceFlood(text@),
            Effect::AnnounceExit => delivery::effect_views(effects)[i] is AnnounceExit,
        },
{
}

/// A batch is one notification of its lines, and an empty one is none.
pub proof fn law_a_batch_is_one_notification(lines: Seq<Seq<char>>)
    ensures
        delivery::batch(lines).len() == if lines.len() == 0 {
            0nat
        } else {
            1nat
        },
        lines.len() > 0 ==> delivery::batch(lines)[0] == Effect::Deliver(
            text::newline_joined(lines),
        ),
{
}

/// The line for a lag says how many chunks are gone: what stands between its
/// fixed words reads back as that number, so different lags are told apart.
pub proof fn law_a_lag_line_tells_the_number(skipped: u64)
    ensures
        ({
            let text = delivery::lag_text(skipped);
            let head = "(dropped ~"@;
            let tail = " chunks: watcher output too fast)"@;
            let digits = text.subrange(head.len() as int, text.len() - tail.len());
            &&& text == head + digits + tail
            &&& digits.len() > 0
            &&& text::decimal_value(digits) == skipped
            &&& forall|i: int| 0 <= i < digits.len() ==> '0' <= #[trigger] digits[i] <= '9'
            &&& digits[0] == '0' ==> skipped == 0
        }),
{
    text::law_a_decimal_reads_back(skipped as nat);
    let text = delivery::lag_text(skipped);
    let head = "(dropped ~"@;
    let tail = " chunks: watcher output too fast)"@;
    let digits = text::decimal(skipped as nat);
    assert(text.subrange(head.len() as int, text.len() - tail.len()) =~= digits);
}

/// The notice of a flood is the same for every monitor, and says after how many
/// lines it was stopped.
pub proof fn law_the_flood_notice_tells_the_ceiling()
    ensures
        delivery::flood_text()
            == "auto-stopped after 5000 lines (flood guard); restart with a tighter filter"@,
        text::decimal_value(
            delivery::flood_text().subrange(
                "auto-stopped after "@.len() as int,
                delivery::flood_text().len()
                    - " lines (flood guard); restart with a tighter filter"@.len(),
            ),
        ) == FLOOD_MAX_LINES,
{
    lemma_flood_text();
    text::law_a_decimal_reads_back(FLOOD_MAX_LINES as nat);
    let text = delivery::flood_text();
    assert(text.subrange(
        "auto-stopped after "@.len() as int,
        text.len() - " lines (flood guard); restart with a tighter filter"@.len(),
    ) =~= text::decimal(FLOOD_MAX_LINES as nat));
}

/// The exit notice tells the exit code: what stands between its fixed words
/// reads back as the code, for every code.
pub proof fn law_the_exit_notice_tells_the_code(code: i32)
    ensures
        ({
            let text = delivery::exit_text(None, Some(code));
            let head = "watcher exited (code "@;
            let digits = text.subrange(head.len() as int, text.len() - 1);
            &&& text == head + digits + seq![')']
            &&& digits.len() > 0
            &&& text::signed_value(digits) == code
            &&& code < 0 <==> digits[0] == '-'
            &&& forall|i: int| 1 <= i < digits.len() ==> '0' <= #[trigger] digits[i] <= '9'
        }),
{
    reveal_strlit(")");
    text::law_a_signed_decimal_reads_back(code as int);
    let text = delivery::exit_text(None, Some(code));
    let head = "watcher exited (code "@;
    let digits = text::signed_decimal(code as int);
    assert(text.subrange(head.len() as int, text.len() - 1) =~= digits);
    assert(text =~= head + digits + seq![')']);
}

/// Different exit codes are announced differently.
pub proof fn law_exit_codes_are_told_apart(a: i32, b: i32)
    requires
        a != b,
    ensures
        delivery::exit_text(None, Some(a)) != delivery::exit_text(None, Some(b)),
{
    law_the_exit_notice_tells_the_code(a);
    law_the_exit_notice_tells_the_code(b);
}

/// A failure is announced by its whole message, whatever the exit code, and
/// where nothing is known only the exit is.
pub proof fn law_a_failure_is_announced_by_its_message(message: Seq<char>, exit_code: Option<i32>)
    ensures
        delivery::exit_text(Some(message), exit_code) == "watcher ended: "@ + message,
        delivery::exit_text(None, None) == "watcher exited"@,
{
}

/// Whatever a step makes of output is decoded without losing what was valid.
pub proof fn law_a_faithful_step_loses_nothing_valid(s: LoopState, chunk: Seq<u8>, i: int)
    requires
        s.phase != Phase::Stopped,
        delivery::faithful(s, Event::Chunk(chunk)),
        0 <= i < framing::split(s.buf + chunk, s.flood_count).pieces.len(),
    ensures
        ({
            let bytes = framing::marked(framing::split(s.buf + chunk, s.flood_count).pieces[i]);
            text::keeps_valid_text(bytes, text::lossy_utf8(bytes))
        }),
{
    let pieces = framing::split(s.buf + chunk, s.flood_count).pieces;
    assert(framing::decodes_faithfully(pieces[i]));
}

/// The end of the drain decodes an unterminated last line without losing what
/// was valid.
pub proof fn law_a_faithful_end_loses_nothing_valid(s: LoopState)
    requires
        s.phase == Phase::Draining,
        s.buf.len() > 0,
        delivery::faithful(s, Event::Closed),
    ensures
        text::keeps_valid_text(s.buf, text::lossy_utf8(s.buf)),
{
}

/// Output without newlines is cut evenly: every line takes `MAX_LINE_BYTES`
/// bytes off its front and ends in the truncation mark.
pub proof fn law_output_without_newlines_is_cut_evenly(s: LoopState, chunk: Seq<u8>)
    requires
        s.phase != Phase::Stopped,
        delivery::faithful(s, Event::Chunk(chunk)),
        !(s.buf + chunk).contains(10u8),
    ensures
        ({
            let buf = s.buf + chunk;
            let cut = framing::split(buf, s.flood_count);
            &&& cut.rest == buf.skip(cut.lines.len() * MAX_LINE_BYTES)
            &&& forall|i: int|
                0 <= i < cut.lines.len() ==> " ... (line truncated)"@.is_suffix_of(
                    #[trigger] cut.lines[i],
                )
        }),
{
}

} // verus!
