//! Turning raw output bytes into the text of a notification.

use vstd::prelude::*;
use vstd::string::StringExecFns;
use vstd::utf8::*;

verus! {

/// The characters with the Unicode `White_Space` property.
pub open spec fn is_white_space(c: char) -> bool {
    ||| '\u{9}' <= c <= '\u{d}'
    ||| c == ' '
    ||| c == '\u{85}'
    ||| c == '\u{a0}'
    ||| c == '\u{1680}'
    ||| '\u{2000}' <= c <= '\u{200a}'
    ||| c == '\u{2028}'
    ||| c == '\u{2029}'
    ||| c == '\u{202f}'
    ||| c == '\u{205f}'
    ||| c == '\u{3000}'
}

/// `s` without its trailing white space.
pub open spec fn trimmed(s: Seq<char>) -> Seq<char>
    decreases s.len(),
{
    if s.len() > 0 && is_white_space(s.last()) {
        trimmed(s.drop_last())
    } else {
        s
    }
}

/// `str::trim_end`: removes the trailing characters that have the Unicode
/// `White_Space` property, and no others.
pub assume_specification[ str::trim_end ](s: &str) -> (r: &str)
    ensures
        r@ == trimmed(s@),
;

/// What `String::from_utf8_lossy` makes of `bytes`.
pub uninterp spec fn lossy_utf8(bytes: Seq<u8>) -> Seq<char>;

/// `bytes` read as one character each.
pub open spec fn byte_chars(bytes: Seq<u8>) -> Seq<char> {
    bytes.map_values(|b: u8| b as char)
}

pub open spec fn is_ascii_bytes(bytes: Seq<u8>) -> bool {
    forall|i: int| 0 <= i < bytes.len() ==> #[trigger] bytes[i] < 128
}

/// How often `x` stands in `s`.
pub open spec fn occurrences<T>(s: Seq<T>, x: T) -> nat
    decreases s.len(),
{
    if s.len() == 0 {
        0
    } else {
        occurrences(s.drop_last(), x) + if s.last() == x {
            1nat
        } else {
            0nat
        }
    }
}

/// The character that stands for bytes that are not valid UTF-8.
pub open spec fn replacement() -> char {
    '\u{fffd}'
}

/// What a lossy decoding keeps, and what it shows of the rest: valid UTF-8 is
/// decoded as it is, bytes that end in ASCII decode to a text that ends in the
/// same characters, newlines are neither lost nor made, bytes that are not valid
/// UTF-8 leave a replacement character, and no text is longer than its bytes.
pub open spec fn keeps_valid_text(bytes: Seq<u8>, text: Seq<char>) -> bool {
    &&& valid_utf8(bytes) ==> text == decode_utf8(bytes)
    &&& forall|k: int|
        0 <= k <= bytes.len() && is_ascii_bytes(#[trigger] bytes.skip(k))
            ==> byte_chars(bytes.skip(k)).is_suffix_of(text)
    &&& occurrences(text, '\n') == occurrences(bytes, 10u8)
    &&& !valid_utf8(bytes) ==> text.contains(replacement())
    &&& text.len() <= bytes.len()
}

/// `String::from_utf8_lossy`: decodes `bytes`, replacing only what is not valid
/// UTF-8. The result is a function of the bytes alone. Valid UTF-8 is decoded
/// as it is, and an ASCII tail, which is valid whatever stands before it, is
/// kept. A newline byte is valid wherever it stands and is no part of another
/// character, so the text has as many newlines as the bytes. What is not valid
/// becomes U+FFFD, so bytes that are not valid UTF-8 yield at least one. Every
/// character, U+FFFD too, stands for at least one byte, so the text has no more
/// characters than there are bytes. How many are replaced is left to the name.
#[verifier::external_body]
pub(crate) fn decode_lossy(bytes: &[u8]) -> (text: String)
    ensures
        text@ == lossy_utf8(bytes@),
        keeps_valid_text(bytes@, text@),
{
    String::from_utf8_lossy(bytes).into_owned()
}

/// The views of `strings`.
pub open spec fn views(strings: Seq<String>) -> Seq<Seq<char>> {
    strings.map_values(|s: String| s@)
}

/// `lines` as one text, a newline between each line and the next.
pub open spec fn newline_joined(lines: Seq<Seq<char>>) -> Seq<char>
    decreases lines.len(),
{
    if lines.len() == 0 {
        Seq::empty()
    } else if lines.len() == 1 {
        lines[0]
    } else {
        newline_joined(lines.drop_last()) + "\n"@ + lines.last()
    }
}

/// Joins `lines` with newlines.
pub fn join_lines(lines: &Vec<String>) -> (text: String)
    ensures
        text@ == newline_joined(views(lines@)),
{
    let mut text = String::new();
    let mut i: usize = 0;
    while i < lines.len()
        invariant
            i <= lines.len(),
            text@ == newline_joined(views(lines@).take(i as int)),
        decreases lines.len() - i,
    {
        if i > 0 {
            text.append("\n");
        }
        text.append(lines[i].as_str());
        proof {
            let next = views(lines@).take(i + 1);
            assert(next.drop_last() =~= views(lines@).take(i as int));
            assert(next.last() == lines@[i as int]@);
        }
        i += 1;
    }
    assert(views(lines@).take(i as int) =~= views(lines@));
    text
}

/// The decimal digit `d`.
pub open spec fn digit(d: nat) -> char {
    ('0' as nat + d) as char
}

/// `n` in decimal, without leading zeros.
pub open spec fn decimal(n: nat) -> Seq<char>
    decreases n,
{
    if n < 10 {
        seq![digit(n)]
    } else {
        decimal(n / 10).push(digit(n % 10))
    }
}

/// `n` in decimal, with a sign if it is negative.
pub open spec fn signed_decimal(n: int) -> Seq<char> {
    if n < 0 {
        "-"@ + decimal((-n) as nat)
    } else {
        decimal(n as nat)
    }
}

fn digit_text(d: u64) -> (text: &'static str)
    requires
        d < 10,
    ensures
        text@ == seq![digit(d as nat)],
{
    proof {
        reveal_strlit("0");
        reveal_strlit("1");
        reveal_strlit("2");
        reveal_strlit("3");
        reveal_strlit("4");
        reveal_strlit("5");
        reveal_strlit("6");
        reveal_strlit("7");
        reveal_strlit("8");
        reveal_strlit("9");
    }
    match d {
        0 => "0",
        1 => "1",
        2 => "2",
        3 => "3",
        4 => "4",
        5 => "5",
        6 => "6",
        7 => "7",
        8 => "8",
        _ => "9",
    }
}

/// Appends `n` in decimal to `out`.
pub fn append_decimal(out: &mut String, n: u64)
    ensures
        final(out)@ == old(out)@ + decimal(n as nat),
    decreases n,
{
    if n >= 10 {
        append_decimal(out, n / 10);
    }
    out.append(digit_text(n % 10));
    assert(out@ =~= old(out)@ + decimal(n as nat));
}

/// Appends `n` in decimal to `out`, with a sign if it is negative.
pub fn append_signed_decimal(out: &mut String, n: i32)
    ensures
        final(out)@ == old(out)@ + signed_decimal(n as int),
{
    if n < 0 {
        out.append("-");
        append_decimal(out, (-(n as i64)) as u64);
        assert(out@ =~= old(out)@ + signed_decimal(n as int));
    } else {
        append_decimal(out, n as u64);
    }
}

pub(crate) proof fn lemma_occurrences<T>(s: Seq<T>, x: T)
    ensures
        s.contains(x) <==> occurrences(s, x) > 0,
    decreases s.len(),
{
    if s.len() > 0 {
        let front = s.drop_last();
        lemma_occurrences(front, x);
        if s.last() == x {
            assert(s[s.len() - 1] == x);
        } else if s.contains(x) {
            let i = choose|i: int| 0 <= i < s.len() && s[i] == x;
            assert(front[i] == x);
        }
        if front.contains(x) {
            let i = choose|i: int| 0 <= i < front.len() && front[i] == x;
            assert(s[i] == x);
        }
    }
}

/// Trimming leaves a text that is empty or ends in something visible.
pub proof fn law_trimmed_end(s: Seq<char>)
    ensures
        trimmed(s).is_prefix_of(s),
        trimmed(s).len() > 0 ==> !is_white_space(trimmed(s).last()),
        forall|i: int| trimmed(s).len() <= i < s.len() ==> is_white_space(#[trigger] s[i]),
    decreases s.len(),
{
    if s.len() > 0 && is_white_space(s.last()) {
        law_trimmed_end(s.drop_last());
        assert forall|i: int| trimmed(s).len() <= i < s.len() implies is_white_space(
            #[trigger] s[i],
        ) by {
            if i < s.len() - 1 {
                assert(s[i] == s.drop_last()[i]);
            }
        }
    }
}

pub(crate) proof fn lemma_joined_add(a: Seq<Seq<char>>, b: Seq<Seq<char>>)
    requires
        a.len() > 0,
        b.len() > 0,
    ensures
        newline_joined(a + b) == newline_joined(a) + "\n"@ + newline_joined(b),
    decreases b.len(),
{
    let both = a + b;
    assert(both.drop_last() =~= a + b.drop_last());
    if b.len() == 1 {
        assert(both.drop_last() =~= a);
    } else {
        lemma_joined_add(a, b.drop_last());
        assert(newline_joined(both) =~= newline_joined(a) + "\n"@ + newline_joined(b));
    }
}

/// Joining batches of lines and then the texts that come out is joining all the
/// lines, if no batch is empty.
pub proof fn law_joining_in_batches_is_joining(batches: Seq<Seq<Seq<char>>>)
    requires
        forall|i: int| 0 <= i < batches.len() ==> (#[trigger] batches[i]).len() > 0,
    ensures
        newline_joined(batches.map_values(|lines: Seq<Seq<char>>| newline_joined(lines)))
            == newline_joined(batches.flatten()),
    decreases batches.len(),
{
    let join = |lines: Seq<Seq<char>>| newline_joined(lines);
    let texts = batches.map_values(join);
    if batches.len() > 0 {
        let front = batches.drop_last();
        let last = batches.last();
        assert forall|i: int| 0 <= i < front.len() implies (#[trigger] front[i]).len() > 0 by {
            assert(front[i] == batches[i]);
        }
        law_joining_in_batches_is_joining(front);
        assert(last == batches[batches.len() - 1]);
        assert(batches =~= front.push(last));
        front.lemma_flatten_push(last);
        assert(texts.drop_last() =~= front.map_values(join));
        assert(texts.last() == newline_joined(last));
        if front.len() > 0 {
            assert(front.flatten().len() > 0) by {
                assert(front[0].len() > 0);
            }
            lemma_joined_add(front.flatten(), last);
        } else {
            assert(front.flatten() + last =~= last);
        }
    }
}

/// Joining nothing gives nothing, joining one line gives that line, and joining
/// two lists of lines gives their texts with one newline between them.
pub proof fn law_joining_keeps_lines_as_they_are(
    line: Seq<char>,
    a: Seq<Seq<char>>,
    b: Seq<Seq<char>>,
)
    requires
        a.len() > 0,
        b.len() > 0,
    ensures
        newline_joined(seq![]) == Seq::<char>::empty(),
        newline_joined(seq![line]) == line,
        newline_joined(a + b) == newline_joined(a) + seq!['\n'] + newline_joined(b),
{
    reveal_strlit("\n");
    assert("\n"@ =~= seq!['\n']);
    lemma_joined_add(a, b);
}

/// Where the `i`th of `lines` begins if each is followed by one character.
pub open spec fn line_offset(lines: Seq<Seq<char>>, i: int) -> int
    decreases i,
{
    if i <= 0 {
        0
    } else {
        line_offset(lines, i - 1) + lines[i - 1].len() + 1
    }
}

proof fn lemma_line_offset(lines: Seq<Seq<char>>, more: Seq<Seq<char>>, i: int)
    requires
        0 <= i <= lines.len() <= more.len(),
        forall|j: int| 0 <= j < lines.len() ==> lines[j] == more[j],
    ensures
        line_offset(lines, i) == line_offset(more, i) >= 0,
    decreases i,
{
    if i > 0 {
        lemma_line_offset(lines, more, i - 1);
    }
}

proof fn lemma_line_offset_grows(lines: Seq<Seq<char>>, i: int, j: int)
    requires
        0 <= i < j <= lines.len(),
    ensures
        line_offset(lines, i) + lines[i].len() + 1 <= line_offset(lines, j),
    decreases j,
{
    if i < j - 1 {
        lemma_line_offset_grows(lines, i, j - 1);
    }
}

proof fn lemma_joined_len(lines: Seq<Seq<char>>)
    requires
        lines.len() > 0,
    ensures
        newline_joined(lines).len() == line_offset(lines, lines.len() as int) - 1,
    decreases lines.len(),
{
    reveal_strlit("\n");
    let n = lines.len() as int;
    if n == 1 {
        assert(line_offset(lines, 0) == 0);
    } else {
        let front = lines.drop_last();
        lemma_joined_len(front);
        lemma_line_offset(front, lines, n - 1);
    }
}

/// A joined text holds every line unchanged: each stands at its place, one
/// newline between it and the next, and nothing else is in the text.
pub proof fn law_a_joined_text_holds_every_line(lines: Seq<Seq<char>>, i: int)
    requires
        0 <= i < lines.len(),
    ensures
        ({
            let text = newline_joined(lines);
            let at = line_offset(lines, i);
            &&& text.len() == line_offset(lines, lines.len() as int) - 1
            &&& 0 <= at <= at + lines[i].len() <= text.len()
            &&& text.subrange(at, at + lines[i].len()) == lines[i]
            &&& i + 1 < lines.len() ==> text[at + lines[i].len()] == '\n'
        }),
    decreases lines.len(),
{
    reveal_strlit("\n");
    let text = newline_joined(lines);
    let n = lines.len() as int;
    lemma_joined_len(lines);
    lemma_line_offset(lines, lines, i);
    lemma_line_offset_grows(lines, i, n);
    let at = line_offset(lines, i);
    if n == 1 {
        assert(text.subrange(0, text.len() as int) =~= text);
    } else {
        let front = lines.drop_last();
        lemma_joined_len(front);
        lemma_line_offset(front, lines, n - 1);
        let head = newline_joined(front);
        assert(text =~= head + seq!['\n'] + lines.last());
        if i < n - 1 {
            law_a_joined_text_holds_every_line(front, i);
            lemma_line_offset(front, lines, i);
            assert(text.subrange(at, at + lines[i].len()) =~= head.subrange(
                at,
                at + lines[i].len(),
            ));
            if i + 1 < n - 1 {
                assert(text[at + lines[i].len()] == head[at + lines[i].len()]);
            }
        } else {
            assert(at == head.len() + 1);
            assert(text.subrange(at, at + lines[i].len()) =~= lines[i]);
        }
    }
}

/// `text` cut at its newlines.
pub open spec fn text_lines(text: Seq<char>) -> Seq<Seq<char>>
    decreases text.len(),
{
    if text.len() == 0 {
        seq![seq![]]
    } else {
        let front = text_lines(text.drop_last());
        if text.last() == '\n' {
            front.push(seq![])
        } else {
            front.drop_last().push(front.last().push(text.last()))
        }
    }
}

proof fn lemma_text_lines_nonempty(text: Seq<char>)
    ensures
        text_lines(text).len() > 0,
    decreases text.len(),
{
    if text.len() > 0 {
        lemma_text_lines_nonempty(text.drop_last());
    }
}

/// Text without a newline behind `text` goes on with its last line.
proof fn lemma_text_lines_extend(text: Seq<char>, more: Seq<char>)
    requires
        !more.contains('\n'),
    ensures
        text_lines(text + more) == text_lines(text).drop_last().push(
            text_lines(text).last() + more,
        ),
    decreases more.len(),
{
    lemma_text_lines_nonempty(text);
    let lines = text_lines(text);
    if more.len() == 0 {
        assert(text + more =~= text);
        assert(lines.last() + more =~= lines.last());
        assert(lines =~= lines.drop_last().push(lines.last()));
    } else {
        let front = more.drop_last();
        assert(more.contains(more.last()));
        assert(!front.contains('\n')) by {
            if front.contains('\n') {
                let i = choose|i: int| 0 <= i < front.len() && front[i] == '\n';
                assert(more[i] == '\n');
            }
        }
        lemma_text_lines_extend(text, front);
        assert((text + more).drop_last() =~= text + front);
        let mid = lines.drop_last().push(lines.last() + front);
        assert(mid.drop_last() =~= lines.drop_last());
        assert(mid.last().push(more.last()) =~= lines.last() + more);
    }
}

/// Cutting a joined text at its newlines gives back the lines that were joined,
/// if none of them holds a newline.
pub proof fn law_a_joined_text_splits_back(lines: Seq<Seq<char>>)
    requires
        lines.len() > 0,
        forall|i: int| 0 <= i < lines.len() ==> !(#[trigger] lines[i]).contains('\n'),
    ensures
        text_lines(newline_joined(lines)) == lines,
    decreases lines.len(),
{
    reveal_strlit("\n");
    let last = lines.last();
    assert(!lines[lines.len() - 1].contains('\n'));
    if lines.len() == 1 {
        lemma_text_lines_extend(seq![], last);
        assert(Seq::<char>::empty() + last =~= last);
        assert(text_lines(seq![]) =~= seq![seq![]]);
        assert(text_lines(last) =~= lines);
    } else {
        let front = lines.drop_last();
        assert forall|i: int| 0 <= i < front.len() implies !(#[trigger] front[i]).contains('\n') by {
            assert(front[i] == lines[i]);
        }
        law_a_joined_text_splits_back(front);
        let head = newline_joined(front).push('\n');
        assert(head.drop_last() =~= newline_joined(front));
        assert(text_lines(head) == front.push(seq![]));
        lemma_text_lines_extend(head, last);
        assert(newline_joined(lines) =~= head + last);
        assert(front.push(seq![]).drop_last() =~= front);
        assert(Seq::<char>::empty() + last =~= last);
        assert(front.push(last) =~= lines);
    }
}

/// The number that `digits` are read as, in decimal.
pub open spec fn decimal_value(digits: Seq<char>) -> int
    decreases digits.len(),
{
    if digits.len() == 0 {
        0
    } else {
        10 * decimal_value(digits.drop_last()) + (digits.last() as int - '0' as int)
    }
}

/// The number that `text` is read as: digits, behind a sign if it is negative.
pub open spec fn signed_value(text: Seq<char>) -> int {
    if text.len() > 0 && text[0] == '-' {
        -decimal_value(text.skip(1))
    } else {
        decimal_value(text)
    }
}

/// A number written in decimal reads back as that number. It is all digits, and
/// the first is 0 only if it is the only one.
pub proof fn law_a_decimal_reads_back(n: nat)
    ensures
        decimal_value(decimal(n)) == n,
        decimal(n).len() > 0,
        forall|i: int| 0 <= i < decimal(n).len() ==> '0' <= #[trigger] decimal(n)[i] <= '9',
        decimal(n).len() > 1 ==> decimal(n)[0] != '0',
        n > 0 ==> decimal(n)[0] != '0',
    decreases n,
{
    if n < 10 {
        assert(decimal(n).drop_last() =~= seq![]);
        assert(decimal_value(seq![]) == 0);
    } else {
        law_a_decimal_reads_back(n / 10);
        assert(decimal(n).drop_last() =~= decimal(n / 10));
        assert(decimal(n)[0] == decimal(n / 10)[0]);
    }
}

/// A signed number reads back as that number, and one that is not negative is
/// written without a sign.
pub proof fn law_a_signed_decimal_reads_back(n: int)
    ensures
        signed_value(signed_decimal(n)) == n,
        signed_decimal(n).len() > 0,
        n < 0 <==> signed_decimal(n)[0] == '-',
        forall|i: int|
            1 <= i < signed_decimal(n).len() ==> '0' <= #[trigger] signed_decimal(n)[i] <= '9',
{
    reveal_strlit("-");
    if n < 0 {
        let digits = decimal((-n) as nat);
        law_a_decimal_reads_back((-n) as nat);
        assert(signed_decimal(n).skip(1) =~= digits);
        assert forall|i: int| 1 <= i < signed_decimal(n).len() implies '0'
            <= #[trigger] signed_decimal(n)[i] <= '9' by {
            assert(signed_decimal(n)[i] == digits[i - 1]);
        }
    } else {
        law_a_decimal_reads_back(n as nat);
        assert('0' <= decimal(n as nat)[0] <= '9');
    }
}

/// Strings are seen as what they hold, one by one.
pub proof fn law_strings_are_seen_as_what_they_hold(strings: Seq<String>, i: int)
    requires
        0 <= i < strings.len(),
    ensures
        views(strings).len() == strings.len(),
        views(strings)[i] == strings[i]@,
{
}

} // verus!
