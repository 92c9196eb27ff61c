//! Cutting a byte stream into the lines of a notification.
//!
//! Output arrives in chunks of any size. A line ends at a newline, and a run
//! without one is cut at [`MAX_LINE_BYTES`]. What is left over waits for the
//! next chunk.

use vstd::prelude::*;
use vstd::utf8::*;

use crate::clock::Clock;
use crate::text;

verus! {

/// Lines emitted within this many nanoseconds coalesce into one notification.
pub const BATCH_WINDOW: u64 = 200_000_000;

/// A monitor is stopped once it has emitted this many lines, so a runaway
/// command cannot wake the agent without bound.
pub const FLOOD_MAX_LINES: usize = 5000;

/// A run of bytes without a newline is cut at this length, so a command that
/// never ends its lines cannot grow the buffer without bound.
pub const MAX_LINE_BYTES: usize = 16 * 1024;

pub const NEWLINE: u8 = 10;

/// What follows the text of a run that was cut.
pub open spec fn truncation_mark() -> Seq<char> {
    " ... (line truncated)"@
}

pub open spec fn has_newline(bytes: Seq<u8>) -> bool {
    bytes.contains(NEWLINE)
}

/// The index of the first newline of `bytes`, or their number if there is none.
pub open spec fn first_newline(bytes: Seq<u8>) -> nat
    decreases bytes.len(),
{
    if bytes.len() == 0 || bytes[0] == NEWLINE {
        0
    } else {
        1 + first_newline(bytes.skip(1))
    }
}

/// How many bytes of `buf` make up its first piece: a line with its newline, or
/// the front of an overlong run. 0 if `buf` has no complete piece.
pub open spec fn first_piece_len(buf: Seq<u8>) -> nat {
    if has_newline(buf) {
        first_newline(buf) + 1
    } else if buf.len() > MAX_LINE_BYTES {
        MAX_LINE_BYTES as nat
    } else {
        0
    }
}

/// The bytes that are decoded for `piece`: a piece that was cut short of a
/// newline carries the truncation mark.
pub open spec fn marked(piece: Seq<u8>) -> Seq<u8> {
    if piece.len() > 0 && piece.last() == NEWLINE {
        piece
    } else {
        piece + encode_utf8(truncation_mark())
    }
}

/// The text delivered for `piece`. Empty for a blank line.
pub open spec fn piece_text(piece: Seq<u8>) -> Seq<char> {
    text::trimmed(text::lossy_utf8(marked(piece)))
}

/// What cutting a buffer yields.
#[verifier::ext_equal]
pub struct Split {
    /// The bytes of each piece taken off the front, in order.
    pub pieces: Seq<Seq<u8>>,
    /// The texts of those pieces that are not blank.
    pub lines: Seq<Seq<char>>,
    /// The bytes left in the buffer.
    pub rest: Seq<u8>,
    /// Whether cutting ended because the flood ceiling was reached.
    pub flooded: bool,
}

impl Split {
    /// This split behind one more piece and its lines.
    pub open spec fn after(self, pieces: Seq<Seq<u8>>, lines: Seq<Seq<char>>) -> Split {
        Split {
            pieces: pieces + self.pieces,
            lines: lines + self.lines,
            rest: self.rest,
            flooded: self.flooded,
        }
    }
}

/// Cuts `buf` into pieces until none is complete or the flood ceiling is
/// reached, where `count` lines were counted before.
pub open spec fn split(buf: Seq<u8>, count: nat) -> Split
    decreases buf.len(),
{
    let n = first_piece_len(buf);
    if n == 0 || n > buf.len() {
        Split { pieces: seq![], lines: seq![], rest: buf, flooded: false }
    } else {
        let piece = buf.take(n as int);
        let rest = buf.skip(n as int);
        let text = piece_text(piece);
        if text.len() == 0 {
            split(rest, count).after(seq![piece], seq![])
        } else if count + 1 >= FLOOD_MAX_LINES {
            Split { pieces: seq![piece], lines: seq![text], rest, flooded: true }
        } else {
            split(rest, count + 1).after(seq![piece], seq![text])
        }
    }
}

/// The batch timer after lines were added at `now`: a running timer is kept,
/// and the first line of a batch starts one.
pub open spec fn armed(flush_at: Option<u128>, added: bool, now: u128) -> Option<u128> {
    if flush_at is None && added {
        Some((now + BATCH_WINDOW) as u128)
    } else {
        flush_at
    }
}

proof fn lemma_first_newline(bytes: Seq<u8>)
    ensures
        first_newline(bytes) <= bytes.len(),
        has_newline(bytes) <==> first_newline(bytes) < bytes.len(),
        has_newline(bytes) ==> bytes[first_newline(bytes) as int] == NEWLINE,
        forall|i: int| 0 <= i < first_newline(bytes) ==> bytes[i] != NEWLINE,
    decreases bytes.len(),
{
    if bytes.len() > 0 && bytes[0] != NEWLINE {
        let tail = bytes.skip(1);
        lemma_first_newline(tail);
        assert forall|i: int| 0 <= i < first_newline(bytes) implies bytes[i] != NEWLINE by {
            if i > 0 {
                assert(bytes[i] == tail[i - 1]);
            }
        }
        if has_newline(bytes) {
            let i = choose|i: int| 0 <= i < bytes.len() && bytes[i] == NEWLINE;
            assert(tail[i - 1] == NEWLINE);
        }
        if has_newline(tail) {
            assert(bytes[first_newline(bytes) as int] == NEWLINE);
        }
    } else if bytes.len() > 0 {
        assert(bytes[0] == NEWLINE);
    }
}

proof fn lemma_first_newline_is(bytes: Seq<u8>, k: int)
    requires
        0 <= k < bytes.len(),
        bytes[k] == NEWLINE,
        forall|i: int| 0 <= i < k ==> bytes[i] != NEWLINE,
    ensures
        first_newline(bytes) == k,
{
    lemma_first_newline(bytes);
    assert(has_newline(bytes));
}

/// Takes the first piece off `buf`, if it has a complete one.
pub fn next_piece(buf: &mut Vec<u8>) -> (piece: Option<Vec<u8>>)
    ensures
        match piece {
            Some(piece) => {
                &&& 0 < first_piece_len(old(buf)@) <= old(buf)@.len()
                &&& piece@ == old(buf)@.take(first_piece_len(old(buf)@) as int)
                &&& final(buf)@ == old(buf)@.skip(first_piece_len(old(buf)@) as int)
            },
            None => first_piece_len(old(buf)@) == 0 && final(buf)@ == old(buf)@,
        },
{
    let mut i: usize = 0;
    while i < buf.len() && buf[i] != NEWLINE
        invariant
            i <= buf.len(),
            forall|j: int| 0 <= j < i ==> buf@[j] != NEWLINE,
            buf@ == old(buf)@,
        decreases buf.len() - i,
    {
        i += 1;
    }
    let n: usize;
    if i < buf.len() {
        proof {
            lemma_first_newline_is(buf@, i as int);
        }
        n = i + 1;
    } else {
        proof {
            lemma_first_newline(buf@);
        }
        if buf.len() > MAX_LINE_BYTES {
            n = MAX_LINE_BYTES;
        } else {
            return None;
        }
    }
    let mut rest = buf.split_off(n);
    std::mem::swap(buf, &mut rest);
    Some(rest)
}

/// Adds `text` to `pending` without its trailing white space. A blank text is
/// left out. Returns whether a line was added.
pub fn push_nonblank(text: &str, pending: &mut Vec<String>) -> (added: bool)
    ensures
        added == (text::trimmed(text@).len() > 0),
        text::views(final(pending)@) == if added {
            text::views(old(pending)@).push(text::trimmed(text@))
        } else {
            text::views(old(pending)@)
        },
{
    let text = text.trim_end();
    if text.is_empty() {
        return false;
    }
    pending.push(text.to_owned());
    assert(text::views(pending@) =~= text::views(old(pending)@).push(text@));
    true
}

/// Takes in the decoded text of one piece: a line that is not blank is added to
/// `pending`, counted, and starts the batch timer if it does not run. Returns
/// whether the flood ceiling was reached.
pub fn accept_line(
    text: &str,
    pending: &mut Vec<String>,
    flood_count: &mut usize,
    flush_at: &mut Option<u128>,
    clock: &Clock,
) -> (flooded: bool)
    requires
        *old(flood_count) < usize::MAX,
        clock.in_range(),
    ensures
        ({
            let line = text::trimmed(text@);
            if line.len() == 0 {
                &&& text::views(final(pending)@) == text::views(old(pending)@)
                &&& *final(flood_count) == *old(flood_count)
                &&& *final(flush_at) == *old(flush_at)
                &&& !flooded
            } else {
                &&& text::views(final(pending)@) == text::views(
                    old(pending)@,
                ).push(line)
                &&& *final(flood_count) == *old(flood_count) + 1
                &&& exists|now: u128| #[trigger]
                    clock.reads(now) && *final(flush_at) == armed(*old(flush_at), true, now)
                &&& flooded == (*old(flood_count) + 1 >= FLOOD_MAX_LINES)
            }
        }),
{
    if !push_nonblank(text, pending) {
        return false;
    }
    *flood_count += 1;
    assert(clock.reads(clock.some_reading()));
    if flush_at.is_none() {
        let now = clock.now();
        *flush_at = Some(now + BATCH_WINDOW as u128);
    }
    *flood_count >= FLOOD_MAX_LINES
}

/// Whether the decoding of `piece` keeps what is valid in it.
pub open spec fn decodes_faithfully(piece: Seq<u8>) -> bool {
    text::keeps_valid_text(marked(piece), text::lossy_utf8(marked(piece)))
}

/// How often a run of `len` bytes without a newline is cut.
pub open spec fn cuts(len: nat) -> nat {
    if len == 0 {
        0
    } else {
        ((len - 1) / (MAX_LINE_BYTES as int)) as nat
    }
}

/// Splits `chunk`, behind what `buf` still holds, into complete lines. Each is
/// appended to `pending` and starts the batch timer. Returns `true` if the
/// flood ceiling was reached mid-chunk, so the caller can stop the monitor
/// before a single huge chunk blows past the bound.
#[verifier::spinoff_prover]
pub fn extend_lines(
    buf: &mut Vec<u8>,
    chunk: &[u8],
    pending: &mut Vec<String>,
    flood_count: &mut usize,
    flush_at: &mut Option<u128>,
    clock: &Clock,
) -> (flooded: bool)
    requires
        *old(flood_count) < usize::MAX,
        clock.in_range(),
    ensures
        ({
            let cut = split(old(buf)@ + chunk@, *old(flood_count) as nat);
            &&& final(buf)@ == cut.rest
            &&& text::views(final(pending)@) == text::views(old(pending)@) + cut.lines
            &&& *final(flood_count) == *old(flood_count) + cut.lines.len()
            // The clock is read when the first line is added.
            &&& exists|now: u128| #[trigger]
                clock.reads(now) && *final(flush_at) == armed(
                    *old(flush_at),
                    cut.lines.len() > 0,
                    now,
                )
            &&& flooded == cut.flooded
            // Every piece was decoded without losing anything that was valid.
            &&& forall|i: int| 0 <= i < cut.pieces.len() ==> decodes_faithfully(
                #[trigger] cut.pieces[i],
            )
            // A stream without newlines is cut at every `MAX_LINE_BYTES`, each
            // cut is delivered with the mark, and each counts as a line.
            &&& !has_newline(old(buf)@ + chunk@) ==> newline_free_split(
                old(buf)@ + chunk@,
                *old(flood_count) as nat,
            )
        }),
{
    let ghost first = buf@ + chunk@;
    let ghost count = *flood_count as nat;
    let ghost mut pieces: Seq<Seq<u8>> = seq![];
    let ghost mut lines: Seq<Seq<char>> = seq![];
    let ghost mut now: u128 = clock.some_reading();
    buf.extend_from_slice(chunk);
    assert(buf@ =~= first);
    assert(split(buf@, count).after(pieces, lines) =~= split(first, count));
    assert(text::views(pending@) + lines =~= text::views(pending@));
    loop
        invariant
            count == *old(flood_count),
            clock.in_range(),
            clock.reads(now),
            split(first, count) == split(buf@, *flood_count as nat).after(pieces, lines),
            text::views(pending@) == text::views(old(pending)@) + lines,
            *flood_count == count + lines.len(),
            *flood_count < usize::MAX,
            lines.len() == 0 || *flood_count < FLOOD_MAX_LINES,
            *flush_at == armed(*old(flush_at), lines.len() > 0, now),
            forall|i: int| 0 <= i < pieces.len() ==> decodes_faithfully(#[trigger] pieces[i]),
            first == old(buf)@ + chunk@,
        decreases buf.len(),
    {
        let ghost before = buf@;
        let ghost before_count = *flood_count as nat;
        let ghost timer = *flush_at;
        let mut line = match next_piece(buf) {
            Some(line) => line,
            None => {
                proof {
                    assert(pieces + Seq::<Seq<u8>>::empty() =~= pieces);
                    assert(lines + Seq::<Seq<char>>::empty() =~= lines);
                    if !has_newline(first) {
                        lemma_newline_free_split(first, count);
                    }
                }
                return false;
            },
        };
        let ghost piece = line@;
        if line[line.len() - 1] != NEWLINE {
            let mark = " ... (line truncated)";
            line.extend_from_slice(mark.as_bytes());
        }
        assert(line@ =~= marked(piece));
        let decoded = text::decode_lossy(line.as_slice());
        let flooded = accept_line(decoded.as_str(), pending, flood_count, flush_at, clock);
        proof {
            let text = piece_text(piece);
            assert(decodes_faithfully(piece));
            if text.len() > 0 && timer is None {
                now = choose|now: u128| #[trigger]
                    clock.reads(now) && *flush_at == armed(timer, true, now);
            }
            let added = if text.len() == 0 { seq![] } else { seq![text] };
            let done = Split { pieces: seq![piece], lines: seq![text], rest: buf@, flooded: true };
            if flooded {
                assert(split(before, before_count) == done);
                assert(split(first, count) == done.after(pieces, lines));
            } else {
                let next = split(buf@, *flood_count as nat);
                assert(split(before, before_count) == next.after(seq![piece], added));
                assert(next.after(seq![piece], added).after(pieces, lines) =~= next.after(
                    pieces + seq![piece],
                    lines + added,
                ));
            }
            assert(text::views(pending@) =~= text::views(old(pending)@) + (lines + added));
            pieces = pieces + seq![piece];
            lines = lines + added;
        }
        if flooded {
            proof {
                if !has_newline(first) {
                    lemma_newline_free_split(first, count);
                }
            }
            return true;
        }
    }
}

/// How a buffer without newlines is cut: every `MAX_LINE_BYTES` bytes but the
/// last make up a line that ends in the truncation mark, up to the flood
/// ceiling.
pub open spec fn newline_free_split(buf: Seq<u8>, count: nat) -> bool {
    let cut = split(buf, count);
    let k = cuts(buf.len());
    &&& forall|i: int|
        0 <= i < cut.lines.len() ==> truncation_mark().is_suffix_of(#[trigger] cut.lines[i])
    &&& cut.flooded == (k > 0 && count + k >= FLOOD_MAX_LINES)
    &&& cut.lines.len() == if !cut.flooded {
        k as int
    } else if count >= FLOOD_MAX_LINES {
        1
    } else {
        FLOOD_MAX_LINES - count
    }
    &&& cut.rest == buf.skip(cut.lines.len() * MAX_LINE_BYTES)
}

proof fn lemma_truncation_mark()
    ensures
        encode_utf8(truncation_mark()).len() == truncation_mark().len() > 0,
        text::is_ascii_bytes(encode_utf8(truncation_mark())),
        text::byte_chars(encode_utf8(truncation_mark())) == truncation_mark(),
        !text::is_white_space(truncation_mark().last()),
{
    reveal_strlit(" ... (line truncated)");
    let mark = truncation_mark();
    assert(is_ascii_chars(mark));
    is_ascii_chars_encode_utf8(mark);
    assert(text::byte_chars(encode_utf8(mark)) =~= mark);
}

/// What is decoded for a piece without a newline ends in the truncation mark.
#[verifier::spinoff_prover]
proof fn lemma_cut_decoding(piece: Seq<u8>)
    requires
        !has_newline(piece),
        decodes_faithfully(piece),
    ensures
        marked(piece) == piece + encode_utf8(truncation_mark()),
        truncation_mark().is_suffix_of(text::lossy_utf8(marked(piece))),
{
    lemma_truncation_mark();
    let mark = encode_utf8(truncation_mark());
    if piece.len() > 0 {
        assert(piece.contains(piece.last()));
    }
    assert(marked(piece) == piece + mark);
    let tail = marked(piece).skip(piece.len() as int);
    assert(tail =~= mark);
    assert(text::is_ascii_bytes(tail));
    assert(text::byte_chars(tail).is_suffix_of(text::lossy_utf8(marked(piece))));
}

/// A piece without a newline has a text that ends in the truncation mark.
#[verifier::spinoff_prover]
proof fn lemma_cut_text(piece: Seq<u8>)
    requires
        !has_newline(piece),
        decodes_faithfully(piece),
    ensures
        piece_text(piece).len() > 0,
        truncation_mark().is_suffix_of(piece_text(piece)),
        piece_text(piece) == text::lossy_utf8(marked(piece)),
{
    lemma_truncation_mark();
    lemma_cut_decoding(piece);
    let mark = truncation_mark();
    let decoded = text::lossy_utf8(marked(piece));
    let at = decoded.len() - mark.len();
    assert(decoded.subrange(at, decoded.len() as int)[mark.len() - 1] == mark.last());
    assert(decoded.last() == mark.last());
    assert(text::trimmed(decoded) == decoded);
}

/// Cutting a buffer without newlines once leaves one cut less to be made.
#[verifier::spinoff_prover]
proof fn lemma_one_cut(buf: Seq<u8>, k: int)
    requires
        buf.len() > MAX_LINE_BYTES,
        0 <= k <= cuts((buf.len() - MAX_LINE_BYTES) as nat),
    ensures
        cuts(buf.len()) == cuts(buf.skip(MAX_LINE_BYTES as int).len()) + 1,
        buf.skip(MAX_LINE_BYTES as int).skip(k * MAX_LINE_BYTES) == buf.skip(
            (k + 1) * MAX_LINE_BYTES,
        ),
{
    let m = MAX_LINE_BYTES as int;
    assert((k + 1) * m == k * m + m) by (nonlinear_arith);
    let n = buf.len() - m;
    assert(0 <= k * m <= n) by (nonlinear_arith)
        requires
            m > 0,
            n > 0,
            0 <= k <= (n - 1) / m,
    ;
    assert(buf.skip(m).skip(k * m) =~= buf.skip((k + 1) * m));
}

#[verifier::spinoff_prover]
proof fn lemma_newline_free_split(buf: Seq<u8>, count: nat)
    requires
        !has_newline(buf),
        forall|i: int|
            0 <= i < split(buf, count).pieces.len() ==> decodes_faithfully(
                #[trigger] split(buf, count).pieces[i],
            ),
    ensures
        newline_free_split(buf, count),
    decreases buf.len(),
{
    let cut = split(buf, count);
    if buf.len() > MAX_LINE_BYTES {
        let piece = buf.take(MAX_LINE_BYTES as int);
        let rest = buf.skip(MAX_LINE_BYTES as int);
        assert(cut.pieces[0] == piece);
        assert(!has_newline(piece));
        assert(!has_newline(rest));
        lemma_cut_text(piece);
        if count + 1 < FLOOD_MAX_LINES {
            let next = split(rest, count + 1);
            assert forall|i: int| 0 <= i < next.pieces.len() implies decodes_faithfully(
                #[trigger] next.pieces[i],
            ) by {
                assert(cut.pieces[i + 1] == next.pieces[i]);
            }
            lemma_newline_free_split(rest, count + 1);
            assert forall|i: int| 0 <= i < cut.lines.len() implies truncation_mark().is_suffix_of(
                #[trigger] cut.lines[i],
            ) by {
                if i > 0 {
                    assert(cut.lines[i] == next.lines[i - 1]);
                }
            }
            let k = next.lines.len() as int;
            lemma_one_cut(buf, k);
            assert(cut.lines.len() == k + 1);
        } else {
            assert(cuts(buf.len()) >= 1);
        }
    } else {
        assert(buf.skip(0) =~= buf);
    }
}

/// The texts among `texts` that are not empty.
pub open spec fn nonblank(texts: Seq<Seq<char>>) -> Seq<Seq<char>> {
    texts.filter(|text: Seq<char>| text.len() > 0)
}

/// No byte is lost: the pieces and what stays in the buffer are the bytes that
/// went in, in order.
pub proof fn law_every_byte_is_kept(buf: Seq<u8>, count: nat)
    ensures
        split(buf, count).pieces.flatten() + split(buf, count).rest == buf,
    decreases buf.len(),
{
    lemma_first_newline(buf);
    let n = first_piece_len(buf) as int;
    let cut = split(buf, count);
    if n == 0 {
        assert(cut.pieces.flatten() + cut.rest =~= buf);
    } else {
        let piece = buf.take(n);
        let rest = buf.skip(n);
        let text = piece_text(piece);
        if text.len() > 0 && count + 1 >= FLOOD_MAX_LINES {
            cut.pieces.lemma_flatten_one_element();
            assert(piece + rest =~= buf);
        } else {
            let next = split(rest, if text.len() == 0 { count } else { count + 1 });
            law_every_byte_is_kept(rest, if text.len() == 0 { count } else { count + 1 });
            vstd::seq_lib::lemma_flatten_concat(seq![piece], next.pieces);
            seq![piece].lemma_flatten_one_element();
            assert(cut.pieces.flatten() + cut.rest =~= piece + (next.pieces.flatten() + next.rest));
            assert(piece + rest =~= buf);
        }
    }
}

/// Every piece is one line with its newline, or the front of a run of more than
/// `MAX_LINE_BYTES` bytes without one.
pub proof fn law_a_piece_is_one_line(buf: Seq<u8>, count: nat, i: int)
    requires
        0 <= i < split(buf, count).pieces.len(),
    ensures
        ({
            let piece = split(buf, count).pieces[i];
            ||| piece.len() > 0 && piece.last() == NEWLINE && !has_newline(piece.drop_last())
            ||| piece.len() == MAX_LINE_BYTES && !has_newline(piece)
        }),
    decreases buf.len(),
{
    lemma_first_newline(buf);
    let n = first_piece_len(buf) as int;
    let piece = buf.take(n);
    let rest = buf.skip(n);
    let cut = split(buf, count);
    if i == 0 {
        assert(cut.pieces[0] == piece);
        if has_newline(buf) {
            assert(piece.last() == NEWLINE);
            assert(!has_newline(piece.drop_last()));
        } else {
            assert(!has_newline(piece));
        }
    } else {
        let c = if piece_text(piece).len() == 0 { count } else { count + 1 };
        assert(cut.pieces[i] == split(rest, c).pieces[i - 1]);
        law_a_piece_is_one_line(rest, c, i - 1);
    }
}

/// The lines are the texts of the pieces, in order, without the blank ones.
pub proof fn law_lines_are_the_nonblank_texts(buf: Seq<u8>, count: nat)
    ensures
        split(buf, count).lines == nonblank(
            split(buf, count).pieces.map_values(|piece: Seq<u8>| piece_text(piece)),
        ),
        split(buf, count).lines == split(buf, count).pieces.map_values(
            |piece: Seq<u8>| piece_text(piece),
        ).filter(|text: Seq<char>| text.len() > 0),
    decreases buf.len(),
{
    reveal_with_fuel(Seq::<_>::filter, 2);
    lemma_first_newline(buf);
    let text_of = |piece: Seq<u8>| piece_text(piece);
    let keep = |text: Seq<char>| text.len() > 0;
    let n = first_piece_len(buf) as int;
    let cut = split(buf, count);
    if n == 0 {
        assert(cut.pieces.map_values(text_of) =~= seq![]);
    } else {
        let piece = buf.take(n);
        let rest = buf.skip(n);
        let text = piece_text(piece);
        assert(seq![piece].map_values(text_of) =~= seq![text]);
        assert(seq![text].drop_last() =~= seq![]);
        assert(seq![text].filter(keep) =~= if text.len() == 0 { seq![] } else { seq![text] });
        if !(text.len() > 0 && count + 1 >= FLOOD_MAX_LINES) {
            let c = if text.len() == 0 { count } else { count + 1 };
            let next = split(rest, c);
            law_lines_are_the_nonblank_texts(rest, c);
            assert(cut.pieces.map_values(text_of) =~= seq![text] + next.pieces.map_values(text_of));
            Seq::filter_distributes_over_add(seq![text], next.pieces.map_values(text_of), keep);
        }
    }
}

/// Every line has something to show and does not end in white space.
pub proof fn law_lines_are_trimmed(buf: Seq<u8>, count: nat, i: int)
    requires
        0 <= i < split(buf, count).lines.len(),
    ensures
        split(buf, count).lines[i].len() > 0,
        !text::is_white_space(split(buf, count).lines[i].last()),
    decreases buf.len(),
{
    lemma_first_newline(buf);
    let n = first_piece_len(buf) as int;
    let piece = buf.take(n);
    let rest = buf.skip(n);
    let text = piece_text(piece);
    text::law_trimmed_end(text::lossy_utf8(marked(piece)));
    let cut = split(buf, count);
    if text.len() == 0 {
        assert(cut.lines =~= split(rest, count).lines);
        law_lines_are_trimmed(rest, count, i);
    } else if i > 0 {
        assert(cut.lines[i] == split(rest, count + 1).lines[i - 1]);
        law_lines_are_trimmed(rest, count + 1, i - 1);
    }
}

/// The buffer is bounded: what waits for the next chunk holds no newline and at
/// most `MAX_LINE_BYTES` bytes, unless the flood ceiling was reached.
pub proof fn law_rest_is_bounded(buf: Seq<u8>, count: nat)
    ensures
        !split(buf, count).flooded ==> {
            &&& !has_newline(split(buf, count).rest)
            &&& split(buf, count).rest.len() <= MAX_LINE_BYTES
        },
    decreases buf.len(),
{
    lemma_first_newline(buf);
    let n = first_piece_len(buf) as int;
    if n > 0 {
        let text = piece_text(buf.take(n));
        law_rest_is_bounded(buf.skip(n), count);
        law_rest_is_bounded(buf.skip(n), count + 1);
    }
}

/// One chunk cannot blow past the flood ceiling: the count of lines reaches it
/// exactly when cutting stops, and where it was reached before, one more line
/// stops it again.
pub proof fn law_flood_ceiling(buf: Seq<u8>, count: nat)
    ensures
        split(buf, count).flooded <==> split(buf, count).lines.len() > 0 && count + split(
            buf,
            count,
        ).lines.len() >= FLOOD_MAX_LINES,
        count < FLOOD_MAX_LINES ==> count + split(buf, count).lines.len() <= FLOOD_MAX_LINES,
        count >= FLOOD_MAX_LINES ==> split(buf, count).lines.len() <= 1,
    decreases buf.len(),
{
    lemma_first_newline(buf);
    let n = first_piece_len(buf) as int;
    if n > 0 {
        law_flood_ceiling(buf.skip(n), count);
        law_flood_ceiling(buf.skip(n), count + 1);
    }
}

/// How many bytes of `bytes` belong to lines that are ended by a newline.
pub open spec fn terminated_len(bytes: Seq<u8>) -> nat
    decreases bytes.len(),
{
    if bytes.len() == 0 || bytes.last() == NEWLINE {
        bytes.len()
    } else {
        terminated_len(bytes.drop_last())
    }
}

proof fn lemma_terminated_len(bytes: Seq<u8>)
    ensures
        terminated_len(bytes) <= bytes.len(),
        terminated_len(bytes) == 0 <==> !has_newline(bytes),
        terminated_len(bytes) > 0 ==> bytes[terminated_len(bytes) - 1] == NEWLINE,
        forall|i: int| terminated_len(bytes) <= i < bytes.len() ==> bytes[i] != NEWLINE,
    decreases bytes.len(),
{
    if bytes.len() > 0 && bytes.last() != NEWLINE {
        let front = bytes.drop_last();
        lemma_terminated_len(front);
        assert forall|i: int| terminated_len(bytes) <= i < bytes.len() implies bytes[i]
            != NEWLINE by {
            if i < bytes.len() - 1 {
                assert(bytes[i] == front[i]);
            }
        }
        if has_newline(front) {
            assert(bytes[terminated_len(bytes) - 1] == NEWLINE);
        }
        if has_newline(bytes) {
            let i = choose|i: int| 0 <= i < bytes.len() && bytes[i] == NEWLINE;
            assert(front[i] == NEWLINE);
        }
    }
}

proof fn lemma_terminated_len_is(bytes: Seq<u8>, k: int)
    requires
        0 <= k <= bytes.len(),
        k > 0 ==> bytes[k - 1] == NEWLINE,
        forall|i: int| k <= i < bytes.len() ==> bytes[i] != NEWLINE,
    ensures
        terminated_len(bytes) == k,
{
    lemma_terminated_len(bytes);
    if k > 0 {
        assert(bytes.contains(bytes[k - 1]));
    }
    if terminated_len(bytes) > 0 {
        assert(bytes.contains(bytes[terminated_len(bytes) - 1]));
    }
}

/// Whether it makes no difference that `b` arrives behind `a` and not together
/// with it. It does make one where `a` ends in a run that is already overlong,
/// and so is cut, though `b` goes on to end it with a newline.
pub open spec fn splits_alike(a: Seq<u8>, b: Seq<u8>, count: nat) -> bool {
    ||| a.len() - terminated_len(a) <= MAX_LINE_BYTES
    ||| !has_newline(b)
    ||| split(a.take(terminated_len(a) as int), count).flooded
}

/// Chunk boundaries do not matter: two chunks yield the lines that both
/// together yield. Where the first reaches the flood ceiling, the second waits
/// unread behind what the first has left.
#[verifier::spinoff_prover]
pub proof fn law_chunk_boundaries_do_not_matter(a: Seq<u8>, b: Seq<u8>, count: nat)
    requires
        splits_alike(a, b, count),
    ensures
        ({
            let first = split(a, count);
            let both = split(a + b, count);
            if first.flooded {
                both == (Split { rest: first.rest + b, ..first })
            } else {
                both == split(first.rest + b, count + first.lines.len()).after(
                    first.pieces,
                    first.lines,
                )
            }
        }),
    decreases a.len(),
{
    lemma_first_newline(a);
    lemma_first_newline(a + b);
    lemma_terminated_len(a);
    let n = first_piece_len(a) as int;
    let first = split(a, count);
    let both = split(a + b, count);
    if n == 0 {
        assert(split(a + b, count).after(first.pieces, first.lines) =~= both);
    } else {
        let piece = a.take(n);
        let rest = a.skip(n);
        let text = piece_text(piece);
        let c = if text.len() == 0 { count } else { count + 1 };
        let added = if text.len() == 0 { seq![] } else { seq![text] };
        let k = terminated_len(a) as int;
        if has_newline(a) {
            lemma_first_newline_is(a + b, n - 1);
            assert((a + b)[n - 1] == NEWLINE);
            assert(has_newline(a + b));
            // The newline that ends the first piece is not behind the last one.
            assert(n <= k);
            let head = a.take(k);
            assert(head[n - 1] == NEWLINE);
            lemma_first_newline_is(head, n - 1);
            assert(head.take(n) =~= piece);
            lemma_terminated_len_is(rest, k - n);
            assert(rest.take(k - n) =~= head.skip(n));
        } else {
            lemma_first_newline(a.take(k));
            assert(!has_newline(b));
            assert(!has_newline(a + b)) by {
                if has_newline(a + b) {
                    let i = choose|i: int| 0 <= i < (a + b).len() && (a + b)[i] == NEWLINE;
                    if i < a.len() {
                        assert(a.contains(a[i]));
                    } else {
                        assert(b.contains(b[i - a.len()]));
                    }
                }
            }
        }
        assert(first_piece_len(a + b) == n);
        assert((a + b).take(n) =~= piece);
        assert((a + b).skip(n) =~= rest + b);
        if !(text.len() > 0 && count + 1 >= FLOOD_MAX_LINES) {
            let next = split(rest, c);
            assert(splits_alike(rest, b, c));
            law_chunk_boundaries_do_not_matter(rest, b, c);
            assert(first == next.after(seq![piece], added));
            assert(both == split(rest + b, c).after(seq![piece], added));
            if next.flooded {
                assert(both =~= (Split { rest: first.rest + b, ..first }));
            } else {
                let last = split(next.rest + b, c + next.lines.len());
                assert(last.after(next.pieces, next.lines).after(seq![piece], added) =~= last.after(
                    first.pieces,
                    first.lines,
                ));
            }
        }
    }
}

/// A line of valid UTF-8 is delivered as it was written, without its newline
/// and other trailing white space. (`extend_lines` decodes every piece
/// faithfully.)
pub proof fn law_valid_lines_are_delivered_as_written(piece: Seq<u8>)
    requires
        piece.len() > 0,
        piece.last() == NEWLINE,
        valid_utf8(piece),
        decodes_faithfully(piece),
    ensures
        piece_text(piece) == text::trimmed(decode_utf8(piece)),
{
}

/// One line that was cut is bounded: its text has at most `MAX_LINE_BYTES`
/// characters besides the truncation mark. (`extend_lines` decodes every piece
/// faithfully.)
pub proof fn law_a_cut_line_is_bounded(buf: Seq<u8>, count: nat, i: int)
    requires
        0 <= i < split(buf, count).pieces.len(),
        !has_newline(split(buf, count).pieces[i]),
        decodes_faithfully(split(buf, count).pieces[i]),
    ensures
        piece_text(split(buf, count).pieces[i]).len() <= MAX_LINE_BYTES + truncation_mark().len(),
{
    let piece = split(buf, count).pieces[i];
    law_a_piece_is_one_line(buf, count, i);
    if piece.len() > 0 {
        assert(piece.contains(piece.last()));
    }
    lemma_truncation_mark();
    lemma_cut_text(piece);
    assert(marked(piece).len() == piece.len() + truncation_mark().len());
}

/// A piece is one line of the notification, whatever its bytes: its text holds
/// no newline. (`extend_lines` decodes every piece faithfully.)
#[verifier::spinoff_prover]
pub proof fn law_a_piece_stays_one_line(buf: Seq<u8>, count: nat, i: int)
    requires
        0 <= i < split(buf, count).pieces.len(),
        decodes_faithfully(split(buf, count).pieces[i]),
    ensures
        !piece_text(split(buf, count).pieces[i]).contains('\n'),
{
    let piece = split(buf, count).pieces[i];
    let bytes = marked(piece);
    let chars = text::lossy_utf8(bytes);
    law_a_piece_is_one_line(buf, count, i);
    text::law_trimmed_end(chars);
    if piece.last() == NEWLINE && !has_newline(piece.drop_last()) {
        // The one newline is the last character, which is trimmed.
        let tail = bytes.skip(bytes.len() - 1);
        assert(tail =~= seq![NEWLINE]);
        assert(text::is_ascii_bytes(tail));
        assert(text::byte_chars(tail) =~= seq!['\n']);
        assert(text::byte_chars(tail).is_suffix_of(chars));
        assert(text::byte_chars(tail)[0] == '\n');
        assert(chars.last() == '\n');
        text::lemma_occurrences(piece.drop_last(), NEWLINE);
        text::lemma_occurrences(chars.drop_last(), '\n');
        assert(!chars.drop_last().contains('\n'));
    } else {
        assert(!has_newline(piece));
        assert(piece.last() != NEWLINE) by {
            assert(piece.contains(piece.last()));
        }
        lemma_truncation_mark();
        let mark = encode_utf8(truncation_mark());
        reveal_strlit(" ... (line truncated)");
        assert(!has_newline(bytes)) by {
            if has_newline(bytes) {
                let k = choose|k: int| 0 <= k < bytes.len() && bytes[k] == NEWLINE;
                if k < piece.len() {
                    assert(piece.contains(piece[k]));
                } else {
                    let m = k - piece.len();
                    assert(text::byte_chars(mark)[m] == mark[m] as char);
                    assert(truncation_mark()[m] == '\n');
                }
            }
        }
        text::lemma_occurrences(bytes, NEWLINE);
        text::lemma_occurrences(chars, '\n');
        assert(!chars.contains('\n'));
    }
    let text = piece_text(piece);
    if text.contains('\n') {
        let k = choose|k: int| 0 <= k < text.len() && text[k] == '\n';
        assert(chars[k] == '\n');
        assert(chars.contains(chars[k]));
        if k < chars.len() - 1 {
            assert(chars.drop_last()[k] == '\n');
        }
    }
}

/// Output that is not valid UTF-8 is never dropped as blank: its text shows a
/// replacement character. (`extend_lines` decodes every piece faithfully.)
pub proof fn law_an_invalid_line_is_not_blank(piece: Seq<u8>)
    requires
        !valid_utf8(marked(piece)),
        decodes_faithfully(piece),
    ensures
        piece_text(piece).contains(text::replacement()),
        piece_text(piece).len() > 0,
{
    let chars = text::lossy_utf8(marked(piece));
    text::law_trimmed_end(chars);
    let i = choose|i: int| 0 <= i < chars.len() && chars[i] == text::replacement();
    assert(!text::is_white_space(chars[i]));
    assert(piece_text(piece)[i] == text::replacement());
}

/// Whether no run of `bytes` without a newline is overlong.
pub open spec fn has_short_runs(bytes: Seq<u8>) -> bool {
    forall|i: int, j: int|
        0 <= i <= j <= bytes.len() && !has_newline(#[trigger] bytes.subrange(i, j)) ==> j - i
            <= MAX_LINE_BYTES
}

/// The lines of `bytes` that are ended by a newline, each with its newline.
pub open spec fn complete_lines(bytes: Seq<u8>) -> Seq<Seq<u8>>
    decreases bytes.len(),
{
    let n = first_newline(bytes) + 1;
    if n > bytes.len() {
        seq![]
    } else {
        seq![bytes.take(n as int)] + complete_lines(bytes.skip(n as int))
    }
}

/// What stands behind the last newline of `bytes`.
pub open spec fn unterminated(bytes: Seq<u8>) -> Seq<u8> {
    bytes.skip(terminated_len(bytes) as int)
}

/// The lines of `bytes`, the last one included where no newline ends it.
pub open spec fn all_lines(bytes: Seq<u8>) -> Seq<Seq<u8>> {
    complete_lines(bytes) + if unterminated(bytes).len() > 0 {
        seq![unterminated(bytes)]
    } else {
        seq![]
    }
}

/// The decoded texts of `lines`, without trailing white space and without those
/// that are blank.
pub open spec fn line_texts(lines: Seq<Seq<u8>>) -> Seq<Seq<char>> {
    nonblank(lines.map_values(|line: Seq<u8>| text::trimmed(text::lossy_utf8(line))))
}

pub(crate) proof fn lemma_line_texts_add(a: Seq<Seq<u8>>, b: Seq<Seq<u8>>)
    ensures
        line_texts(a + b) == line_texts(a) + line_texts(b),
{
    let decode = |line: Seq<u8>| text::trimmed(text::lossy_utf8(line));
    assert((a + b).map_values(decode) =~= a.map_values(decode) + b.map_values(decode));
    Seq::filter_distributes_over_add(
        a.map_values(decode),
        b.map_values(decode),
        |text: Seq<char>| text.len() > 0,
    );
}

pub(crate) proof fn lemma_line_texts_one(line: Seq<u8>)
    ensures
        ({
            let text = text::trimmed(text::lossy_utf8(line));
            line_texts(seq![line]) == if text.len() > 0 {
                seq![text]
            } else {
                seq![]
            }
        }),
        line_texts(seq![]) == Seq::<Seq<char>>::empty(),
{
    reveal_with_fuel(Seq::<_>::filter, 2);
    let decode = |line: Seq<u8>| text::trimmed(text::lossy_utf8(line));
    let texts = seq![line].map_values(decode);
    assert(texts =~= seq![text::trimmed(text::lossy_utf8(line))]);
    assert(texts.drop_last() =~= seq![]);
    assert(Seq::<Seq<u8>>::empty().map_values(decode) =~= seq![]);
    assert(line_texts(seq![line]) =~= if texts[0].len() > 0 {
        seq![texts[0]]
    } else {
        seq![]
    });
}

pub(crate) proof fn lemma_short_runs_prefix(bytes: Seq<u8>, k: int)
    requires
        has_short_runs(bytes),
        0 <= k <= bytes.len(),
    ensures
        k - terminated_len(bytes.take(k)) <= MAX_LINE_BYTES,
{
    let front = bytes.take(k);
    lemma_terminated_len(front);
    let i = terminated_len(front) as int;
    let run = bytes.subrange(i, k);
    assert(run =~= unterminated(front));
    assert(!has_newline(run));
}

pub(crate) proof fn lemma_short_runs_suffix(bytes: Seq<u8>, n: int)
    requires
        has_short_runs(bytes),
        0 <= n <= bytes.len(),
    ensures
        has_short_runs(bytes.skip(n)),
{
    let rest = bytes.skip(n);
    assert forall|i: int, j: int|
        0 <= i <= j <= rest.len() && !has_newline(#[trigger] rest.subrange(i, j)) implies j - i
        <= MAX_LINE_BYTES by {
        assert(rest.subrange(i, j) =~= bytes.subrange(n + i, n + j));
    }
}

/// Without overlong runs and short of the flood ceiling, cutting a buffer yields
/// its complete lines and leaves the unterminated one.
#[verifier::spinoff_prover]
pub proof fn law_split_yields_the_complete_lines(bytes: Seq<u8>, count: nat)
    requires
        has_short_runs(bytes),
        count + line_texts(complete_lines(bytes)).len() < FLOOD_MAX_LINES,
    ensures
        split(bytes, count) == (Split {
            pieces: complete_lines(bytes),
            lines: line_texts(complete_lines(bytes)),
            rest: unterminated(bytes),
            flooded: false,
        }),
    decreases bytes.len(),
{
    lemma_first_newline(bytes);
    lemma_terminated_len(bytes);
    let cut = split(bytes, count);
    if has_newline(bytes) {
        let n = first_newline(bytes) + 1;
        let line = bytes.take(n as int);
        let rest = bytes.skip(n as int);
        lemma_line_texts_one(line);
        lemma_line_texts_add(seq![line], complete_lines(rest));
        assert(line.last() == NEWLINE);
        let text = piece_text(line);
        let c = if text.len() == 0 { count } else { count + 1 };
        lemma_short_runs_suffix(bytes, n as int);
        law_split_yields_the_complete_lines(rest, c);
        lemma_terminated_len(rest);
        let k = terminated_len(rest) as int;
        assert(bytes[n - 1] == NEWLINE);
        assert(k > 0 ==> bytes[n + k - 1] == rest[k - 1]);
        assert forall|i: int| n + k <= i < bytes.len() implies bytes[i] != NEWLINE by {
            assert(bytes[i] == rest[i - n]);
        }
        lemma_terminated_len_is(bytes, n + k);
        assert(unterminated(bytes) =~= unterminated(rest));
        assert(cut =~= (Split {
            pieces: complete_lines(bytes),
            lines: line_texts(complete_lines(bytes)),
            rest: unterminated(bytes),
            flooded: false,
        }));
    } else {
        assert(bytes.subrange(0, bytes.len() as int) =~= bytes);
        lemma_line_texts_one(bytes);
        assert(unterminated(bytes) =~= bytes);
    }
}

/// Without overlong runs, cutting a buffer reaches the flood ceiling exactly if
/// its complete lines do, and yields those up to it.
#[verifier::spinoff_prover]
pub proof fn law_split_yields_the_lines_up_to_the_ceiling(bytes: Seq<u8>, count: nat)
    requires
        has_short_runs(bytes),
        count < FLOOD_MAX_LINES,
    ensures
        ({
            let texts = line_texts(complete_lines(bytes));
            let room = FLOOD_MAX_LINES - count;
            &&& split(bytes, count).flooded == (texts.len() >= room)
            &&& texts.len() >= room ==> split(bytes, count).lines == texts.take(room)
        }),
    decreases bytes.len(),
{
    let texts = line_texts(complete_lines(bytes));
    let room = FLOOD_MAX_LINES - count;
    if texts.len() < room {
        law_split_yields_the_complete_lines(bytes, count);
    } else {
        lemma_first_newline(bytes);
        let n = first_newline(bytes) + 1;
        lemma_line_texts_one(bytes.take(n as int));
        assert(has_newline(bytes)) by {
            if !has_newline(bytes) {
                assert(complete_lines(bytes) =~= seq![]);
            }
        }
        let line = bytes.take(n as int);
        let rest = bytes.skip(n as int);
        assert(line.last() == NEWLINE);
        lemma_line_texts_add(seq![line], complete_lines(rest));
        lemma_short_runs_suffix(bytes, n as int);
        let text = piece_text(line);
        let later = line_texts(complete_lines(rest));
        if text.len() == 0 {
            assert(texts =~= later);
            law_split_yields_the_lines_up_to_the_ceiling(rest, count);
            assert(split(bytes, count).lines =~= split(rest, count).lines);
        } else {
            assert(texts =~= seq![text] + later);
            if room == 1 {
                assert(texts.take(1) =~= seq![text]);
            } else {
                law_split_yields_the_lines_up_to_the_ceiling(rest, count + 1);
                assert(texts.take(room) =~= seq![text] + later.take(room - 1));
            }
        }
    }
}

/// The first piece ends at the first newline, wherever it stands. Only where
/// there is none does the length count, and then only a run over
/// `MAX_LINE_BYTES` has a piece, of just that many bytes.
pub proof fn law_the_first_piece_ends_at_the_first_newline(buf: Seq<u8>)
    ensures
        ({
            let n = first_piece_len(buf);
            if buf.contains(10u8) {
                &&& 0 < n <= buf.len()
                &&& buf[n - 1] == 10
                &&& !buf.take(n - 1).contains(10u8)
            } else {
                n == if buf.len() > MAX_LINE_BYTES {
                    MAX_LINE_BYTES as int
                } else {
                    0
                }
            }
        }),
        has_newline(buf) <==> buf.contains(10u8),
{
    lemma_first_newline(buf);
    if buf.contains(10u8) {
        let n = first_piece_len(buf);
        let front = buf.take(n - 1);
        if front.contains(10u8) {
            let i = choose|i: int| 0 <= i < front.len() && front[i] == 10u8;
            assert(buf[i] == 10);
        }
    }
}

/// The text of a line is its decoding without trailing white space, newline
/// included. A piece without a newline is decoded with the truncation mark
/// behind it.
pub proof fn law_a_piece_is_decoded_and_trimmed(piece: Seq<u8>)
    ensures
        piece.len() > 0 && piece.last() == 10 ==> {
            &&& marked(piece) == piece
            &&& piece_text(piece) == text::trimmed(text::lossy_utf8(piece))
        },
        !piece.contains(10u8) ==> {
            let mark = encode_utf8(" ... (line truncated)"@);
            &&& marked(piece) == piece + mark
            &&& piece_text(piece) == text::trimmed(text::lossy_utf8(piece + mark))
        },
{
    if piece.len() > 0 && !piece.contains(10u8) {
        assert(piece.contains(piece.last()));
    }
}

/// A run is cut only where nothing could end it: behind the front of a piece
/// that was cut there is no newline in the whole buffer, and the run is over
/// `MAX_LINE_BYTES` long.
pub proof fn law_a_run_is_cut_only_where_no_newline_follows(buf: Seq<u8>, count: nat, i: int)
    requires
        0 <= i < split(buf, count).pieces.len(),
        split(buf, count).pieces[i].last() != 10,
    ensures
        ({
            let cut = split(buf, count);
            let run = cut.pieces.skip(i).flatten() + cut.rest;
            &&& !run.contains(10u8)
            &&& run.len() > MAX_LINE_BYTES
            &&& cut.pieces[i] == run.take(MAX_LINE_BYTES as int)
        }),
    decreases buf.len(),
{
    lemma_first_newline(buf);
    let n = first_piece_len(buf) as int;
    let piece = buf.take(n);
    let rest = buf.skip(n);
    let cut = split(buf, count);
    law_every_byte_is_kept(buf, count);
    if i == 0 {
        assert(cut.pieces.skip(0) =~= cut.pieces);
        assert(cut.pieces[0] == piece);
        if has_newline(buf) {
            assert(piece.last() == NEWLINE);
        }
    } else {
        let c = if piece_text(piece).len() == 0 { count } else { count + 1 };
        let next = split(rest, c);
        assert(cut.pieces[i] == next.pieces[i - 1]);
        assert(cut.pieces.skip(i) =~= next.pieces.skip(i - 1));
        law_a_run_is_cut_only_where_no_newline_follows(rest, c, i - 1);
    }
}

/// The batch timer: one that runs is kept, one that does not is started by a
/// line, for one window, and by nothing else.
pub proof fn law_a_timer_is_started_once(flush_at: Option<u128>, added: bool, now: u128)
    requires
        now + BATCH_WINDOW <= u128::MAX,
    ensures
        flush_at is Some ==> armed(flush_at, added, now) == flush_at,
        armed(flush_at, false, now) == flush_at,
        flush_at is None && added ==> armed(flush_at, added, now) is Some && armed(
            flush_at,
            added,
            now,
        )->0 == now + BATCH_WINDOW,
{
}

/// Two chunks yield, piece by piece and line by line, what both together yield.
pub proof fn law_two_chunks_yield_what_both_together_yield(a: Seq<u8>, b: Seq<u8>, count: nat)
    requires
        splits_alike(a, b, count),
        !split(a, count).flooded,
    ensures
        ({
            let first = split(a, count);
            let second = split(first.rest + b, count + first.lines.len());
            let both = split(a + b, count);
            &&& both.pieces == first.pieces + second.pieces
            &&& both.lines == first.lines + second.lines
            &&& both.rest == second.rest
            &&& both.flooded == second.flooded
        }),
{
    law_chunk_boundaries_do_not_matter(a, b, count);
}

/// The complete lines and the unterminated one are the bytes, in order. Every
/// complete line ends in its only newline, and the unterminated one has none.
pub proof fn law_all_lines_are_the_bytes(bytes: Seq<u8>)
    ensures
        complete_lines(bytes).flatten() + unterminated(bytes) == bytes,
        forall|i: int|
            0 <= i < complete_lines(bytes).len() ==> {
                let line = #[trigger] complete_lines(bytes)[i];
                &&& line.len() > 0
                &&& line.last() == 10
                &&& !line.drop_last().contains(10u8)
            },
        !unterminated(bytes).contains(10u8),
        all_lines(bytes).flatten() == bytes,
        all_lines(bytes) == complete_lines(bytes) || all_lines(bytes) == complete_lines(bytes).push(
            unterminated(bytes),
        ),
    decreases bytes.len(),
{
    lemma_first_newline(bytes);
    lemma_terminated_len(bytes);
    let lines = complete_lines(bytes);
    let tail = unterminated(bytes);
    if has_newline(bytes) {
        let n = first_newline(bytes) + 1;
        let line = bytes.take(n as int);
        let rest = bytes.skip(n as int);
        law_all_lines_are_the_bytes(rest);
        lemma_terminated_len(rest);
        let k = terminated_len(rest) as int;
        assert(k > 0 ==> bytes[n + k - 1] == rest[k - 1]);
        assert forall|i: int| n + k <= i < bytes.len() implies bytes[i] != NEWLINE by {
            assert(bytes[i] == rest[i - n]);
        }
        lemma_terminated_len_is(bytes, n + k);
        assert(tail =~= unterminated(rest));
        let later = complete_lines(rest);
        vstd::seq_lib::lemma_flatten_concat(seq![line], later);
        seq![line].lemma_flatten_one_element();
        assert(lines.flatten() + tail =~= line + (later.flatten() + unterminated(rest)));
        assert(line + rest =~= bytes);
        assert forall|i: int| 0 <= i < lines.len() implies {
            let line = #[trigger] lines[i];
            &&& line.len() > 0
            &&& line.last() == 10
            &&& !line.drop_last().contains(10u8)
        } by {
            if i == 0 {
                assert(lines[0] == line);
                let front = line.drop_last();
                if front.contains(10u8) {
                    let j = choose|j: int| 0 <= j < front.len() && front[j] == 10u8;
                    assert(bytes[j] == 10);
                }
            } else {
                assert(lines[i] == later[i - 1]);
            }
        }
    } else {
        assert(lines =~= seq![]);
        assert(lines.flatten() + tail =~= bytes);
    }
    if tail.len() > 0 {
        lines.lemma_flatten_push(tail);
        assert(all_lines(bytes) =~= lines.push(tail));
    } else {
        assert(all_lines(bytes) =~= lines);
        assert(lines.flatten() + tail =~= lines.flatten());
    }
}

/// The texts of lines are their decodings, each without trailing white space,
/// without the empty ones.
pub proof fn law_line_texts_are_the_trimmed_decodings(lines: Seq<Seq<u8>>)
    ensures
        line_texts(lines) == lines.map_values(
            |line: Seq<u8>| text::trimmed(text::lossy_utf8(line)),
        ).filter(|text: Seq<char>| text.len() > 0),
{
}

/// Cutting stops at the very line that reaches the flood ceiling: what stands
/// behind it stays in the buffer.
pub proof fn law_cutting_stops_at_the_line_that_reaches_the_ceiling(buf: Seq<u8>, count: nat)
    requires
        split(buf, count).flooded,
    ensures
        split(buf, count).pieces.len() > 0,
        split(buf, count).lines.len() > 0,
        piece_text(split(buf, count).pieces.last()) == split(buf, count).lines.last(),
        split(buf, count).lines.last().len() > 0,
    decreases buf.len(),
{
    lemma_first_newline(buf);
    let n = first_piece_len(buf) as int;
    let piece = buf.take(n);
    let rest = buf.skip(n);
    let text = piece_text(piece);
    if !(text.len() > 0 && count + 1 >= FLOOD_MAX_LINES) {
        law_cutting_stops_at_the_line_that_reaches_the_ceiling(
            rest,
            if text.len() == 0 {
                count
            } else {
                count + 1
            },
        );
    }
}

/// The lines of a stream do not depend on where it is parted: behind the lines
/// of its front come those of the rest, begun with what the front left
/// unterminated.
pub proof fn law_lines_do_not_depend_on_where_a_stream_is_parted(a: Seq<u8>, b: Seq<u8>)
    ensures
        complete_lines(a + b) == complete_lines(a) + complete_lines(unterminated(a) + b),
        unterminated(a + b) == unterminated(unterminated(a) + b),
        unterminated(a) + b == (a + b).skip(terminated_len(a) as int),
        terminated_len(a) <= a.len(),
    decreases a.len(),
{
    lemma_first_newline(a);
    lemma_first_newline(a + b);
    lemma_terminated_len(a);
    let k = terminated_len(a) as int;
    assert(unterminated(a) + b =~= (a + b).skip(k));
    if has_newline(a) {
        let n = first_newline(a) + 1;
        let rest = a.skip(n as int);
        assert((a + b)[n - 1] == NEWLINE);
        lemma_first_newline_is(a + b, n - 1);
        assert((a + b).take(n as int) =~= a.take(n as int));
        assert((a + b).skip(n as int) =~= rest + b);
        law_lines_do_not_depend_on_where_a_stream_is_parted(rest, b);
        lemma_terminated_len(rest);
        let m = terminated_len(rest) as int;
        assert(m > 0 ==> a[n + m - 1] == rest[m - 1]);
        assert forall|i: int| n + m <= i < a.len() implies a[i] != NEWLINE by {
            assert(a[i] == rest[i - n]);
        }
        lemma_terminated_len_is(a, n + m);
        assert(unterminated(a) =~= unterminated(rest));
        assert(complete_lines(a + b) =~= complete_lines(a) + complete_lines(unterminated(a) + b));
        // What is unterminated in the whole is what is unterminated behind its
        // first line.
        lemma_terminated_len(rest + b);
        let p = terminated_len(rest + b) as int;
        assert(p > 0 ==> (a + b)[n + p - 1] == (rest + b)[p - 1]);
        assert forall|i: int| n + p <= i < (a + b).len() implies (a + b)[i] != NEWLINE by {
            assert((a + b)[i] == (rest + b)[i - n]);
        }
        lemma_terminated_len_is(a + b, n + p);
        assert(unterminated(a + b) =~= unterminated(rest + b));
    } else {
        assert(unterminated(a) =~= a);
        assert(complete_lines(a) =~= seq![]);
        assert(complete_lines(a) + complete_lines(a + b) =~= complete_lines(a + b));
    }
}

pub(crate) proof fn lemma_short_runs_front(a: Seq<u8>, b: Seq<u8>)
    requires
        has_short_runs(a + b),
    ensures
        has_short_runs(a),
{
    assert forall|i: int, j: int|
        0 <= i <= j <= a.len() && !has_newline(#[trigger] a.subrange(i, j)) implies j - i
        <= MAX_LINE_BYTES by {
        assert(a.subrange(i, j) =~= (a + b).subrange(i, j));
    }
}

} // verus!
