use monitor::clock::Clock;
use monitor::framing::{
    accept_line, extend_lines, next_piece, push_nonblank, BATCH_WINDOW, FLOOD_MAX_LINES,
    MAX_LINE_BYTES,
};
use monitor::text::{append_decimal, append_signed_decimal, join_lines};

#[derive(Default, Clone, PartialEq, Debug)]
struct Lines {
    buf: Vec<u8>,
    pending: Vec<String>,
    flood_count: usize,
    flush_at: Option<u128>,
}

impl Lines {
    fn feed(&mut self, chunk: &[u8], now: u128) -> bool {
        extend_lines(
            &mut self.buf,
            chunk,
            &mut self.pending,
            &mut self.flood_count,
            &mut self.flush_at,
            &Clock::Standing { at: now },
        )
    }
}

#[test]
fn the_limits_are_as_documented() {
    assert_eq!(BATCH_WINDOW, 200_000_000);
    assert_eq!(FLOOD_MAX_LINES, 5000);
    assert_eq!(MAX_LINE_BYTES, 16384);
}

#[test]
fn complete_lines_are_taken_and_the_rest_waits() {
    let mut lines = Lines::default();
    assert!(!lines.feed(b"one\ntwo\r\n\n   \nthr", 5));
    assert_eq!(lines.pending, vec!["one", "two"]);
    assert_eq!(lines.buf, b"thr");
    assert_eq!(lines.flood_count, 2);
    assert_eq!(lines.flush_at, Some(200_000_005));
    assert!(!lines.feed(b"ee\n", 9));
    assert_eq!(lines.pending, vec!["one", "two", "three"]);
    assert!(lines.buf.is_empty());
    assert_eq!(lines.flood_count, 3);
    // A running timer is not moved.
    assert_eq!(lines.flush_at, Some(200_000_005));
}

#[test]
fn blank_output_starts_no_timer() {
    let mut lines = Lines::default();
    assert!(!lines.feed(b"\n \t\n\xc2\xa0\n", 1));
    assert_eq!(lines, Lines::default());
}

#[test]
fn leading_white_space_is_kept() {
    let mut lines = Lines::default();
    assert!(!lines.feed(b"  indented \t \n", 0));
    assert_eq!(lines.pending, vec!["  indented"]);
}

#[test]
fn chunk_boundaries_do_not_matter() {
    let stream = "alpha\n\u{e9}t\u{e9} \u{20ac}\n\nomega\npart".as_bytes();
    let mut whole = Lines::default();
    assert!(!whole.feed(stream, 0));
    assert_eq!(whole.pending, vec!["alpha", "\u{e9}t\u{e9} \u{20ac}", "omega"]);
    for cut in 0..=stream.len() {
        let mut parts = Lines::default();
        assert!(!parts.feed(&stream[..cut], 0));
        assert!(!parts.feed(&stream[cut..], 0));
        assert_eq!(parts, whole);
    }
}

#[test]
fn an_overlong_run_that_is_already_cut_differs_from_one_that_arrives_whole() {
    let run = vec![b'x'; MAX_LINE_BYTES + 1];
    let mut parts = Lines::default();
    assert!(!parts.feed(&run, 0));
    assert!(!parts.feed(b"\n", 0));
    assert_eq!(parts.pending.len(), 2);
    assert!(parts.pending[0].ends_with(" ... (line truncated)"));
    assert_eq!(parts.pending[1], "x");

    let mut whole = Lines::default();
    let mut ended = run.clone();
    ended.push(b'\n');
    assert!(!whole.feed(&ended, 0));
    assert_eq!(whole.pending, vec!["x".repeat(MAX_LINE_BYTES + 1)]);
}

#[test]
fn invalid_bytes_are_replaced() {
    let mut lines = Lines::default();
    assert!(!lines.feed(b"a\xffb\n\xe2\x82\n", 0));
    assert_eq!(lines.pending, vec!["a\u{fffd}b", "\u{fffd}"]);
}

#[test]
fn a_run_at_the_limit_waits_and_one_above_is_cut() {
    let mut lines = Lines::default();
    assert!(!lines.feed(&vec![b'y'; MAX_LINE_BYTES], 0));
    assert!(lines.pending.is_empty());
    assert_eq!(lines.buf.len(), MAX_LINE_BYTES);
    assert!(!lines.feed(b"z", 0));
    assert_eq!(
        lines.pending,
        vec![format!("{} ... (line truncated)", "y".repeat(MAX_LINE_BYTES))]
    );
    assert_eq!(lines.buf, b"z");
    assert_eq!(lines.flood_count, 1);
}

#[test]
fn a_binary_stream_without_newlines_is_cut_and_counted() {
    let mut lines = Lines::default();
    assert!(!lines.feed(&vec![0xff; 3 * MAX_LINE_BYTES + 7], 0));
    assert_eq!(lines.pending.len(), 3);
    for line in &lines.pending {
        assert!(line.starts_with('\u{fffd}'));
        assert!(line.ends_with(" ... (line truncated)"));
        assert_eq!(line.chars().count(), MAX_LINE_BYTES + 21);
    }
    assert_eq!(lines.flood_count, 3);
    assert_eq!(lines.buf.len(), 7);
}

#[test]
fn white_space_without_newlines_still_counts() {
    let mut lines = Lines::default();
    assert!(!lines.feed(&vec![b' '; MAX_LINE_BYTES + 1], 0));
    assert_eq!(lines.flood_count, 1);
    assert!(lines.pending[0].ends_with(" ... (line truncated)"));
}

#[test]
fn the_flood_ceiling_stops_mid_chunk() {
    let mut lines = Lines {
        flood_count: FLOOD_MAX_LINES - 2,
        ..Lines::default()
    };
    assert!(lines.feed(b"a\nb\nc\nd", 0));
    assert_eq!(lines.pending, vec!["a", "b"]);
    assert_eq!(lines.buf, b"c\nd");
    assert_eq!(lines.flood_count, FLOOD_MAX_LINES);
    // Past the ceiling, one line at a time.
    assert!(lines.feed(b"", 0));
    assert_eq!(lines.pending, vec!["a", "b", "c"]);
    assert_eq!(lines.buf, b"d");
}

#[test]
fn no_byte_is_lost() {
    let stream = b"one\ntwo\n\nthree".to_vec();
    let mut buf = stream.clone();
    let mut seen = Vec::new();
    while let Some(piece) = next_piece(&mut buf) {
        assert_eq!(piece.iter().filter(|&&b| b == b'\n').count(), 1);
        seen.extend_from_slice(&piece);
    }
    seen.extend_from_slice(&buf);
    assert_eq!(seen, stream);
    assert_eq!(buf, b"three");
}

#[test]
fn pieces_end_at_the_first_newline() {
    let mut buf = b"ab\ncd\n".to_vec();
    assert_eq!(next_piece(&mut buf), Some(b"ab\n".to_vec()));
    assert_eq!(buf, b"cd\n");
    assert_eq!(next_piece(&mut buf), Some(b"cd\n".to_vec()));
    assert_eq!(next_piece(&mut buf), None);
    let mut run = vec![b'x'; MAX_LINE_BYTES + 2];
    assert_eq!(next_piece(&mut run), Some(vec![b'x'; MAX_LINE_BYTES]));
    assert_eq!(run, b"xx");
}

#[test]
fn a_line_is_trimmed_counted_and_timed() {
    let mut pending = Vec::new();
    let mut count = FLOOD_MAX_LINES - 2;
    let mut flush_at = None;
    let clock = Clock::Standing { at: 1 };
    assert!(!accept_line(" \u{3000}\n", &mut pending, &mut count, &mut flush_at, &clock));
    assert!(pending.is_empty());
    assert_eq!(count, FLOOD_MAX_LINES - 2);
    assert_eq!(flush_at, None);
    let clock = Clock::Standing { at: 2 };
    assert!(!accept_line("first \n", &mut pending, &mut count, &mut flush_at, &clock));
    assert_eq!(flush_at, Some(200_000_002));
    let clock = Clock::Standing { at: 3 };
    assert!(accept_line("second", &mut pending, &mut count, &mut flush_at, &clock));
    assert_eq!(pending, vec!["first", "second"]);
    assert_eq!(count, FLOOD_MAX_LINES);
    assert_eq!(flush_at, Some(200_000_002));
}

#[test]
fn exactly_the_white_space_characters_are_trimmed() {
    let white: Vec<u32> = (0x9..=0xd)
        .chain([0x20, 0x85, 0xa0, 0x1680])
        .chain(0x2000..=0x200a)
        .chain([0x2028, 0x2029, 0x202f, 0x205f, 0x3000])
        .collect();
    for code in 0..=0x10ffff_u32 {
        if let Some(c) = char::from_u32(code) {
            let mut pending = Vec::new();
            let added = push_nonblank(&c.to_string(), &mut pending);
            assert_eq!(added, !white.contains(&code), "U+{code:04X}");
        }
    }
}

#[test]
fn lines_are_joined_with_newlines() {
    assert_eq!(join_lines(&vec![]), "");
    assert_eq!(join_lines(&vec!["a".to_string()]), "a");
    assert_eq!(
        join_lines(&vec!["a".to_string(), String::new(), "c".to_string()]),
        "a\n\nc"
    );
}

#[test]
fn numbers_are_written_in_decimal() {
    for n in [0, 7, 10, 99, 100, 5000, 1_000_000_007, u64::MAX] {
        let mut text = "n=".to_string();
        append_decimal(&mut text, n);
        assert_eq!(text, format!("n={n}"));
    }
    for n in [0, -1, 42, i32::MIN, i32::MAX] {
        let mut text = String::new();
        append_signed_decimal(&mut text, n);
        assert_eq!(text, n.to_string());
    }
}

#[test]
fn a_line_of_invalid_bytes_is_one_line_and_not_blank() {
    let mut lines = Lines::default();
    assert!(!lines.feed(b"\xe2\n\x82 \n\xf0\x9f\nx\xc3\n", 0));
    assert_eq!(lines.pending, vec!["\u{fffd}", "\u{fffd}", "\u{fffd}", "x\u{fffd}"]);
}
