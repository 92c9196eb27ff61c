//! The delivery loop of one monitor, as a state machine.
//!
//! The embedding program waits for output, timers and the process's exit, and
//! hands each to the loop as an [`Event`]. The loop answers with the
//! [`Effect`]s to carry out, in order.

use vstd::prelude::*;
use vstd::string::StringExecFns;

use crate::clock::Clock;
use crate::framing;
use crate::framing::{extend_lines, push_nonblank, BATCH_WINDOW, FLOOD_MAX_LINES};
use crate::text;
use crate::text::{append_decimal, append_signed_decimal, decode_lossy, join_lines};

verus! {

/// What the delivery loop is told.
#[derive(Debug, PartialEq, Eq)]
pub enum Event<B> {
    /// A chunk of output arrived.
    Chunk(B),
    /// The watcher outran the output channel, and this many chunks are gone.
    Lagged(u64),
    /// The output channel has nothing more to give.
    Closed,
    /// The batch timer is due.
    BatchDue,
    /// The process exited.
    Exited,
    /// The time for trailing output is over.
    GraceOver,
}

/// What the embedding program is to do.
#[derive(Debug, PartialEq, Eq)]
pub enum Effect<T> {
    /// Deliver a batch of lines as one notification.
    Deliver(T),
    /// Terminate the process with this id.
    Terminate(i32),
    /// Remove the monitor with this id from the registry, leaving its task be.
    Deregister(T),
    /// Deliver this notice of why the monitor was stopped.
    AnnounceFlood(T),
    /// Deliver the process's exit notice.
    AnnounceExit,
}

#[derive(Clone, Copy, Debug, PartialEq, Eq, Structural)]
pub enum Phase {
    /// Waiting for output, timers and the process's exit.
    Running,
    /// Taking what the output channel still holds.
    Draining,
    /// Done.
    Stopped,
}

/// How a process ended, as far as it is known.
pub struct ProcessExit {
    pub failure_message: Option<String>,
    pub exit_code: Option<i32>,
}

pub open spec fn event_view(event: Event<Vec<u8>>) -> Event<Seq<u8>> {
    match event {
        Event::Chunk(chunk) => Event::Chunk(chunk@),
        Event::Lagged(skipped) => Event::Lagged(skipped),
        Event::Closed => Event::Closed,
        Event::BatchDue => Event::BatchDue,
        Event::Exited => Event::Exited,
        Event::GraceOver => Event::GraceOver,
    }
}

pub open spec fn effect_view(effect: Effect<String>) -> Effect<Seq<char>> {
    match effect {
        Effect::Deliver(text) => Effect::Deliver(text@),
        Effect::Terminate(process_id) => Effect::Terminate(process_id),
        Effect::Deregister(id) => Effect::Deregister(id@),
        Effect::AnnounceFlood(text) => Effect::AnnounceFlood(text@),
        Effect::AnnounceExit => Effect::AnnounceExit,
    }
}

pub open spec fn effect_views(effects: Seq<Effect<String>>) -> Seq<Effect<Seq<char>>> {
    effects.map_values(|effect: Effect<String>| effect_view(effect))
}

/// The line that stands for `skipped` chunks that are gone.
pub open spec fn lag_text(skipped: u64) -> Seq<char> {
    "(dropped ~"@ + text::decimal(skipped as nat) + " chunks: watcher output too fast)"@
}

/// Why a flooding monitor was stopped.
pub open spec fn flood_text() -> Seq<char> {
    "auto-stopped after "@ + text::decimal(FLOOD_MAX_LINES as nat)
        + " lines (flood guard); restart with a tighter filter"@
}

/// What a monitor says when its process ended: a failure's message, else the
/// exit code, else only that it exited.
pub open spec fn exit_text(failure_message: Option<Seq<char>>, exit_code: Option<i32>) -> Seq<
    char,
> {
    match (failure_message, exit_code) {
        (Some(message), _) => "watcher ended: "@ + message,
        (None, Some(code)) => "watcher exited (code "@ + text::signed_decimal(code as int) + ")"@,
        (None, None) => "watcher exited"@,
    }
}

/// The state of a delivery loop.
#[verifier::ext_equal]
pub struct LoopState {
    pub id: Seq<char>,
    pub process_id: i32,
    /// How long trailing output is waited for once the process exited.
    pub grace: u64,
    /// Output that does not make up a line yet.
    pub buf: Seq<u8>,
    /// The lines of the batch that is being gathered.
    pub pending: Seq<Seq<char>>,
    /// Lines so far, plus the chunks that were dropped.
    pub flood_count: nat,
    /// When the batch is due.
    pub flush_at: Option<u128>,
    /// When waiting for trailing output ends.
    pub closing_at: Option<u128>,
    pub phase: Phase,
}

/// A loop that has not received anything.
pub open spec fn fresh(id: Seq<char>, process_id: i32, grace: u64) -> LoopState {
    LoopState {
        id,
        process_id,
        grace,
        buf: seq![],
        pending: seq![],
        flood_count: 0,
        flush_at: None,
        closing_at: None,
        phase: Phase::Running,
    }
}

/// `s` with the lines that `chunk` completes.
pub open spec fn with_chunk(s: LoopState, chunk: Seq<u8>, now: u128) -> LoopState {
    let cut = framing::split(s.buf + chunk, s.flood_count);
    LoopState {
        buf: cut.rest,
        pending: s.pending + cut.lines,
        flood_count: s.flood_count + cut.lines.len(),
        flush_at: framing::armed(s.flush_at, cut.lines.len() > 0, now),
        ..s
    }
}

/// `s` with a line for `skipped` chunks that are gone. Each counts as a line.
pub open spec fn with_lag(s: LoopState, skipped: u64) -> LoopState {
    LoopState {
        pending: s.pending.push(lag_text(skipped)),
        flood_count: s.flood_count + (skipped as usize) as nat,
        ..s
    }
}

/// `s` with the text of an unterminated last line, if it is not blank.
pub open spec fn with_remainder(s: LoopState) -> LoopState {
    let text = text::trimmed(text::lossy_utf8(s.buf));
    if s.buf.len() > 0 && text.len() > 0 {
        LoopState { pending: s.pending.push(text), ..s }
    } else {
        s
    }
}

/// What an event leads to: the state it leaves, whether the batch is then
/// delivered, and what is done after that.
pub struct Outcome {
    pub state: LoopState,
    pub flush: bool,
    pub after: Seq<Effect<Seq<char>>>,
}

pub open spec fn quiet(state: LoopState) -> Outcome {
    Outcome { state, flush: false, after: seq![] }
}

/// The process is terminated and the monitor leaves the registry before the
/// agent is told why.
pub open spec fn flood_stop(state: LoopState) -> Outcome {
    Outcome {
        state: LoopState { phase: Phase::Stopped, ..state },
        flush: true,
        after: seq![
            Effect::Terminate(state.process_id),
            Effect::Deregister(state.id),
            Effect::AnnounceFlood(flood_text()),
        ],
    }
}

/// The monitor leaves the registry before the exit is announced.
pub open spec fn exit_stop(state: LoopState) -> Outcome {
    Outcome {
        state: LoopState { phase: Phase::Stopped, ..with_remainder(state) },
        flush: true,
        after: seq![Effect::Deregister(state.id), Effect::AnnounceExit],
    }
}

/// What `event` leads to in state `s`, at the time `now`. An event that a
/// phase does not wait for changes nothing.
pub open spec fn outcome(s: LoopState, event: Event<Seq<u8>>, now: u128) -> Outcome {
    match (s.phase, event) {
        (Phase::Running, Event::Chunk(chunk)) => {
            let next = with_chunk(s, chunk, now);
            if framing::split(s.buf + chunk, s.flood_count).flooded {
                flood_stop(next)
            } else {
                quiet(next)
            }
        },
        (Phase::Running, Event::Lagged(skipped)) => {
            let next = LoopState {
                flush_at: framing::armed(s.flush_at, true, now),
                ..with_lag(s, skipped)
            };
            if next.flood_count >= FLOOD_MAX_LINES {
                flood_stop(next)
            } else {
                quiet(next)
            }
        },
        (Phase::Running, Event::Closed) => quiet(LoopState { phase: Phase::Draining, ..s }),
        (Phase::Running, Event::BatchDue) => {
            if s.flush_at is Some {
                Outcome { state: LoopState { flush_at: None, ..s }, flush: true, after: seq![] }
            } else {
                quiet(s)
            }
        },
        (Phase::Running, Event::Exited) => {
            if s.closing_at is None {
                quiet(LoopState { closing_at: Some((now + s.grace) as u128), ..s })
            } else {
                quiet(s)
            }
        },
        (Phase::Running, Event::GraceOver) => {
            if s.closing_at is Some {
                quiet(LoopState { phase: Phase::Draining, ..s })
            } else {
                quiet(s)
            }
        },
        (Phase::Draining, Event::Chunk(chunk)) => quiet(with_chunk(s, chunk, now)),
        (Phase::Draining, Event::Lagged(skipped)) => quiet(with_lag(s, skipped)),
        (Phase::Draining, Event::Closed) => exit_stop(s),
        _ => quiet(s),
    }
}

/// The notification of a batch of `lines`. None for an empty batch.
pub open spec fn batch(lines: Seq<Seq<char>>) -> Seq<Effect<Seq<char>>> {
    if lines.len() == 0 {
        seq![]
    } else {
        seq![Effect::Deliver(text::newline_joined(lines))]
    }
}

/// The state that `event` leaves, and the effects to carry out.
pub open spec fn step(s: LoopState, event: Event<Seq<u8>>, now: u128) -> (
    LoopState,
    Seq<Effect<Seq<char>>>,
) {
    let out = outcome(s, event, now);
    if out.flush {
        (LoopState { pending: seq![], ..out.state }, batch(out.state.pending) + out.after)
    } else {
        (out.state, seq![])
    }
}

/// Whether counting what `event` brings stays within the machine's integers.
pub open spec fn countable(s: LoopState, event: Event<Seq<u8>>) -> bool {
    s.phase != Phase::Stopped ==> match event {
        Event::Chunk(_) => s.flood_count < usize::MAX,
        Event::Lagged(skipped) => s.flood_count + (skipped as usize) <= usize::MAX,
        _ => true,
    }
}

/// What is certain of the text that `event` turns output into: nothing that was
/// valid is lost in decoding, and output that ends no line is cut as a
/// newline-free buffer is.
pub open spec fn faithful(s: LoopState, event: Event<Seq<u8>>) -> bool {
    match (s.phase, event) {
        (Phase::Stopped, _) => true,
        (_, Event::Chunk(chunk)) => {
            let pieces = framing::split(s.buf + chunk, s.flood_count).pieces;
            &&& forall|i: int|
                0 <= i < pieces.len() ==> framing::decodes_faithfully(#[trigger] pieces[i])
            &&& !framing::has_newline(s.buf + chunk) ==> framing::newline_free_split(
                s.buf + chunk,
                s.flood_count,
            )
        },
        (Phase::Draining, Event::Closed) => {
            s.buf.len() > 0 ==> text::keeps_valid_text(s.buf, text::lossy_utf8(s.buf))
        },
        _ => true,
    }
}

/// The line that stands for `skipped` chunks that are gone.
pub fn lag_notice(skipped: u64) -> (text: String)
    ensures
        text@ == lag_text(skipped),
{
    let mut text = "(dropped ~".to_owned();
    append_decimal(&mut text, skipped);
    text.append(" chunks: watcher output too fast)");
    text
}

/// Why a flooding monitor was stopped.
pub fn flood_notice() -> (text: String)
    ensures
        text@ == flood_text(),
{
    let mut text = "auto-stopped after ".to_owned();
    append_decimal(&mut text, FLOOD_MAX_LINES as u64);
    text.append(" lines (flood guard); restart with a tighter filter");
    text
}

/// What the monitor says when its process ended.
pub fn exit_notice(process: &ProcessExit) -> (text: String)
    ensures
        text@ == exit_text(
            match process.failure_message {
                Some(message) => Some(message@),
                None => None,
            },
            process.exit_code,
        ),
{
    if let Some(message) = &process.failure_message {
        let mut text = "watcher ended: ".to_owned();
        text.append(message.as_str());
        text
    } else {
        match process.exit_code {
            Some(code) => {
                let mut text = "watcher exited (code ".to_owned();
                append_signed_decimal(&mut text, code);
                text.append(")");
                text
            },
            None => "watcher exited".to_owned(),
        }
    }
}

/// Takes the accumulated batch as the text of one notification and clears it.
/// `None` if there is nothing to deliver.
pub fn flush(pending: &mut Vec<String>) -> (text: Option<String>)
    ensures
        final(pending)@.len() == 0,
        match text {
            Some(text) => old(pending)@.len() > 0 && text@ == text::newline_joined(
                text::views(old(pending)@),
            ),
            None => old(pending)@.len() == 0,
        },
{
    if pending.is_empty() {
        return None;
    }
    let mut batch: Vec<String> = Vec::new();
    std::mem::swap(pending, &mut batch);
    Some(join_lines(&batch))
}

/// The effects that begin with delivering the batch, if it is not empty.
fn deliver_batch(pending: &mut Vec<String>) -> (effects: Vec<Effect<String>>)
    ensures
        final(pending)@.len() == 0,
        effect_views(effects@) == batch(text::views(old(pending)@)),
{
    let mut effects: Vec<Effect<String>> = Vec::new();
    if let Some(text) = flush(pending) {
        effects.push(Effect::Deliver(text));
    }
    assert(effect_views(effects@) =~= batch(text::views(old(pending)@)));
    effects
}

/// Stops a watcher that hit the flood ceiling: deliver what there is, terminate
/// the process and prune the registry, then tell the agent.
pub fn stop_for_flood(id: &str, process_id: i32, pending: &mut Vec<String>) -> (effects: Vec<
    Effect<String>,
>)
    ensures
        final(pending)@.len() == 0,
        effect_views(effects@) == batch(text::views(old(pending)@)) + seq![
            Effect::Terminate(process_id),
            Effect::Deregister(id@),
            Effect::AnnounceFlood(flood_text()),
        ],
{
    let mut effects = deliver_batch(pending);
    effects.push(Effect::Terminate(process_id));
    effects.push(Effect::Deregister(id.to_owned()));
    effects.push(Effect::AnnounceFlood(flood_notice()));
    assert(effect_views(effects@) =~= batch(text::views(old(pending)@)) + seq![
        Effect::Terminate(process_id),
        Effect::Deregister(id@),
        Effect::AnnounceFlood(flood_text()),
    ]);
    effects
}

/// The delivery loop of one monitor.
pub struct DeliveryLoop {
    id: String,
    process_id: i32,
    grace: u64,
    buf: Vec<u8>,
    pending: Vec<String>,
    flood_count: usize,
    flush_at: Option<u128>,
    closing_at: Option<u128>,
    phase: Phase,
}

impl View for DeliveryLoop {
    type V = LoopState;

    closed spec fn view(&self) -> LoopState {
        LoopState {
            id: self.id@,
            process_id: self.process_id,
            grace: self.grace,
            buf: self.buf@,
            pending: text::views(self.pending@),
            flood_count: self.flood_count as nat,
            flush_at: self.flush_at,
            closing_at: self.closing_at,
            phase: self.phase,
        }
    }
}

impl DeliveryLoop {
    /// Starts a loop at the time `now` with the output that was captured before
    /// anyone listened.
    pub fn start_at(id: String, process_id: i32, grace: u64, seed: Vec<u8>, now: u128) -> (r: (
        DeliveryLoop,
        Vec<Effect<String>>,
    ))
        requires
            now + u64::MAX <= u128::MAX,
        ensures
            (r.0@, effect_views(r.1@)) == step(
                fresh(id@, process_id, grace),
                Event::Chunk(seed@),
                now,
            ),
            faithful(fresh(id@, process_id, grace), Event::Chunk(seed@)),
    {
        DeliveryLoop::start(id, process_id, grace, seed, &Clock::Standing { at: now })
    }

    /// Starts a loop with the output that was captured before anyone listened.
    pub fn start(id: String, process_id: i32, grace: u64, seed: Vec<u8>, clock: &Clock) -> (r: (
        DeliveryLoop,
        Vec<Effect<String>>,
    ))
        requires
            clock.in_range(),
        ensures
            exists|now: u128| #[trigger]
                clock.reads(now) && (r.0@, effect_views(r.1@)) == step(
                    fresh(id@, process_id, grace),
                    Event::Chunk(seed@),
                    now,
                ),
            faithful(fresh(id@, process_id, grace), Event::Chunk(seed@)),
    {
        let mut state = DeliveryLoop {
            id,
            process_id,
            grace,
            buf: Vec::new(),
            pending: Vec::new(),
            flood_count: 0,
            flush_at: None,
            closing_at: None,
            phase: Phase::Running,
        };
        assert(state@ =~= fresh(id@, process_id, grace));
        let effects = state.advance(Event::Chunk(seed), clock);
        (state, effects)
    }

    /// The time at which the batch is due, if one is being gathered.
    pub fn flush_at(&self) -> (at: Option<u128>)
        ensures
            at == self@.flush_at,
    {
        self.flush_at
    }

    /// The time at which waiting for trailing output ends, once the process
    /// exited.
    pub fn closing_at(&self) -> (at: Option<u128>)
        ensures
            at == self@.closing_at,
    {
        self.closing_at
    }

    pub fn phase(&self) -> (phase: Phase)
        ensures
            phase == self@.phase,
    {
        self.phase
    }

    /// Whether counting what `event` brings stays within the machine's
    /// integers.
    pub fn can_count(&self, event: &Event<Vec<u8>>) -> (r: bool)
        ensures
            r == countable(self@, event_view(*event)),
    {
        if self.phase == Phase::Stopped {
            return true;
        }
        match event {
            Event::Chunk(_) => self.flood_count < usize::MAX,
            Event::Lagged(skipped) => *skipped as usize <= usize::MAX - self.flood_count,
            _ => true,
        }
    }

    /// Takes in `event` at the time `now`. The effects are to be carried out in
    /// order.
    pub fn advance_at(&mut self, event: Event<Vec<u8>>, now: u128) -> (effects: Vec<Effect<String>>)
        requires
            countable(old(self)@, event_view(event)),
            now + u64::MAX <= u128::MAX,
        ensures
            (final(self)@, effect_views(effects@)) == step(old(self)@, event_view(event), now),
            faithful(old(self)@, event_view(event)),
    {
        self.advance(event, &Clock::Standing { at: now })
    }

    /// Takes in `event`. The effects are to be carried out in order. The clock
    /// is read when a timer is started, and not before.
    pub fn advance(&mut self, event: Event<Vec<u8>>, clock: &Clock) -> (effects: Vec<
        Effect<String>,
    >)
        requires
            countable(old(self)@, event_view(event)),
            clock.in_range(),
        ensures
            exists|now: u128| #[trigger]
                clock.reads(now) && (final(self)@, effect_views(effects@)) == step(
                    old(self)@,
                    event_view(event),
                    now,
                ),
            faithful(old(self)@, event_view(event)),
    {
        let nothing: Vec<Effect<String>> = Vec::new();
        assert(effect_views(nothing@) =~= seq![]);
        assert(clock.reads(clock.some_reading()));
        match self.phase {
            Phase::Running => self.run(event, clock),
            Phase::Draining => match event {
                Event::Chunk(chunk) => {
                    self.extend(&chunk, clock);
                    nothing
                },
                Event::Lagged(skipped) => {
                    self.note_lag(skipped);
                    nothing
                },
                Event::Closed => self.finish(),
                _ => nothing,
            },
            Phase::Stopped => nothing,
        }
    }

    fn run(&mut self, event: Event<Vec<u8>>, clock: &Clock) -> (effects: Vec<Effect<String>>)
        requires
            old(self)@.phase == Phase::Running,
            countable(old(self)@, event_view(event)),
            clock.in_range(),
        ensures
            exists|now: u128| #[trigger]
                clock.reads(now) && (final(self)@, effect_views(effects@)) == step(
                    old(self)@,
                    event_view(event),
                    now,
                ),
            faithful(old(self)@, event_view(event)),
    {
        let nothing: Vec<Effect<String>> = Vec::new();
        assert(effect_views(nothing@) =~= seq![]);
        assert(clock.reads(clock.some_reading()));
        match event {
            Event::Chunk(chunk) => if self.extend(&chunk, clock) {
                self.stop()
            } else {
                nothing
            },
            Event::Lagged(skipped) => {
                // Surface the gap, and count it toward the flood guard so a
                // runaway command still trips the ceiling.
                self.note_lag(skipped);
                if self.flush_at.is_none() {
                    let now = clock.now();
                    self.flush_at = Some(now + BATCH_WINDOW as u128);
                }
                if self.flood_count >= FLOOD_MAX_LINES {
                    self.stop()
                } else {
                    nothing
                }
            },
            Event::Closed => {
                self.phase = Phase::Draining;
                nothing
            },
            Event::BatchDue => if self.flush_at.is_some() {
                let effects = deliver_batch(&mut self.pending);
                self.flush_at = None;
                proof {
                    let s = LoopState { flush_at: None, ..old(self)@ };
                    assert(self@ =~= LoopState { pending: seq![], ..s });
                    assert(batch(s.pending) + seq![] =~= batch(s.pending));
                }
                effects
            } else {
                nothing
            },
            Event::Exited => {
                if self.closing_at.is_none() {
                    let now = clock.now();
                    self.closing_at = Some(now + self.grace as u128);
                }
                nothing
            },
            Event::GraceOver => {
                if self.closing_at.is_some() {
                    self.phase = Phase::Draining;
                }
                nothing
            },
        }
    }

    fn extend(&mut self, chunk: &Vec<u8>, clock: &Clock) -> (flooded: bool)
        requires
            old(self)@.flood_count < usize::MAX,
            clock.in_range(),
        ensures
            exists|now: u128| #[trigger]
                clock.reads(now) && final(self)@ == with_chunk(old(self)@, chunk@, now),
            flooded == framing::split(old(self)@.buf + chunk@, old(self)@.flood_count).flooded,
            faithful(old(self)@, Event::Chunk(chunk@)),
    {
        extend_lines(
            &mut self.buf,
            chunk.as_slice(),
            &mut self.pending,
            &mut self.flood_count,
            &mut self.flush_at,
            clock,
        )
    }

    fn note_lag(&mut self, skipped: u64)
        requires
            old(self)@.flood_count + (skipped as usize) <= usize::MAX,
        ensures
            final(self)@ == with_lag(old(self)@, skipped),
    {
        self.flood_count += skipped as usize;
        self.pending.push(lag_notice(skipped));
        assert(self@ =~= with_lag(old(self)@, skipped));
    }

    fn stop(&mut self) -> (effects: Vec<Effect<String>>)
        ensures
            final(self)@ == (LoopState {
                pending: seq![],
                phase: Phase::Stopped,
                ..old(self)@
            }),
            effect_views(effects@) == batch(old(self)@.pending) + flood_stop(old(self)@).after,
    {
        self.phase = Phase::Stopped;
        let effects = stop_for_flood(self.id.as_str(), self.process_id, &mut self.pending);
        assert(self@ =~= (LoopState { pending: seq![], phase: Phase::Stopped, ..old(self)@ }));
        effects
    }

    fn finish(&mut self) -> (effects: Vec<Effect<String>>)
        ensures
            final(self)@ == (LoopState {
                pending: seq![],
                phase: Phase::Stopped,
                ..old(self)@
            }),
            effect_views(effects@) == batch(with_remainder(old(self)@).pending) + exit_stop(
                old(self)@,
            ).after,
            old(self)@.buf.len() > 0 ==> text::keeps_valid_text(
                old(self)@.buf,
                text::lossy_utf8(old(self)@.buf),
            ),
    {
        if !self.buf.is_empty() {
            let decoded = decode_lossy(self.buf.as_slice());
            push_nonblank(decoded.as_str(), &mut self.pending);
        }
        assert(self@ =~= with_remainder(old(self)@));
        let mut effects = deliver_batch(&mut self.pending);
        // The registry is pruned before the exit is announced, so a turn that
        // the notice wakes already sees this watcher gone.
        effects.push(Effect::Deregister(self.id.clone()));
        effects.push(Effect::AnnounceExit);
        self.phase = Phase::Stopped;
        proof {
            assert(self@ =~= (LoopState { pending: seq![], phase: Phase::Stopped, ..old(self)@ }));
            assert(effect_views(effects@) =~= batch(with_remainder(old(self)@).pending)
                + exit_stop(old(self)@).after);
        }
        effects
    }
}

} // verus!
