//! A pass-through filter that reports progress to the user.
//!
//! It is not a filter in the signal processing sense: every sample is handed
//! on untouched.  What it does is count the samples that flow through it and
//! draw a line like
//!
//! ```text
//! Progress:  42% ETA: 2m 10s
//! ```
//!
//! updating it in place with backspace characters, so that the user can see
//! that the program is alive and roughly how long it still has to run.
//!
//! Reading the clock and writing to the terminal is left to the caller, who is
//! told when to do so and what to write.

use crate::text::{decimal, decimal_three_columns, decimal_two_digits};
use vstd::prelude::*;

verus! {

/// How often the wall clock is consulted, in samples.  Reading the clock for
/// every sample would cost more than the filter itself; 4096 samples is about
/// 90 ms of audio, far finer than the update interval below.
pub const CLOCK_CHECK_INTERVAL: u64 = 4096;

/// Minimum time between two redraws, in nanoseconds: 200 ms.  Fast enough to
/// look alive, slow enough not to flood a slow terminal.
pub const UPDATE_INTERVAL: u64 = 200_000_000;

/// The byte that moves the cursor one column back.
pub const BACKSPACE: u8 = 0x08;

/// The byte that blanks a column.
pub const BLANK: u8 = 0x20;

pub struct ProgressReport {
    /// Total number of samples expected, known at construction time.
    total: u64,
    /// Samples seen so far.
    done: u64,
    /// When the line was drawn last, in nanoseconds since the start.
    last_update: u64,
    /// Number of characters currently on screen, so they can be backspaced
    /// over on the next update.
    printed: usize,
    /// False when there is nothing to report to (output is redirected), or
    /// when the caller asked for silence.
    enabled: bool,
}

/// What the caller has to do for the report.
pub enum Notice {
    Nothing,
    /// Read the clock and call [`ProgressReport::maybe_redraw`].
    CheckClock,
    /// Write these bytes to the terminal.
    Write(Vec<u8>),
}

// ---------------------------------------------------------------------------
// Texts
// ---------------------------------------------------------------------------

/// A number of seconds the way a person reads it: `45s`, `2m 10s`, `1h 05m`.
pub open spec fn duration_chars(seconds: nat) -> Seq<char> {
    if seconds >= 3600 {
        crate::text::decimal_chars(seconds / 3600) + "h "@ + crate::text::padded_chars(
            crate::text::decimal_chars(seconds % 3600 / 60),
            '0',
            2,
        ) + "m"@
    } else if seconds >= 60 {
        crate::text::decimal_chars(seconds / 60) + "m "@ + crate::text::padded_chars(
            crate::text::decimal_chars(seconds % 60),
            '0',
            2,
        ) + "s"@
    } else {
        crate::text::decimal_chars(seconds) + "s"@
    }
}

/// Formats a number of seconds the way a person reads it: `45s`, `2m 10s`,
/// `1h 05m`.
pub fn format_duration(seconds: u64) -> (text: String)
    ensures
        text@ == duration_chars(seconds as nat),
{
    if seconds >= 3600 {
        let mut text = decimal(seconds / 3600);
        text.append("h ");
        text.append(decimal_two_digits(seconds % 3600 / 60).as_str());
        text.append("m");
        text
    } else if seconds >= 60 {
        let mut text = decimal(seconds / 60);
        text.append("m ");
        text.append(decimal_two_digits(seconds % 60).as_str());
        text.append("s");
        text
    } else {
        let mut text = decimal(seconds);
        text.append("s");
        text
    }
}

/// The part of the samples that has been seen, in percent.
pub open spec fn percentage(done: nat, total: nat) -> nat {
    if 100 * done / total < 100 {
        100 * done / total
    } else {
        100
    }
}

proof fn lemma_percentage(done: nat, total: nat)
    requires
        total > 0,
    ensures
        done >= total ==> percentage(done, total) == 100,
        done < total ==> percentage(done, total) == 100 * done / total,
        percentage(done, total) <= 100,
{
    let part = 100 * done / total;
    vstd::arithmetic::div_mod::lemma_fundamental_div_mod(100 * done as int, total as int);
    assert(done >= total ==> part >= 100) by (nonlinear_arith)
        requires
            100 * done == total * part + (100 * done) % total,
            0 <= (100 * done) % total < total,
    ;
    assert(done < total ==> part < 100) by (nonlinear_arith)
        requires
            100 * done == total * part + (100 * done) % total,
            0 <= (100 * done) % total < total,
    ;
}

/// The progress line.
pub open spec fn line_chars(percent: nat, eta: Option<u64>) -> Seq<char> {
    let position = "Progress: "@ + crate::text::padded_chars(
        crate::text::decimal_chars(percent),
        ' ',
        3,
    ) + "%"@;
    match eta {
        Some(seconds) => position + " ETA: "@ + duration_chars(seconds as nat),
        None => position,
    }
}

/// The progress line, without the remaining time if it is not known yet.
pub fn format_line(percent: u64, eta: Option<u64>) -> (text: String)
    ensures
        text@ == line_chars(percent as nat, eta),
{
    let mut text = String::from_str("Progress: ");
    text.append(decimal_three_columns(percent).as_str());
    text.append("%");
    if let Some(seconds) = eta {
        text.append(" ETA: ");
        text.append(format_duration(seconds).as_str());
    }
    text
}

// ---------------------------------------------------------------------------
// Drawing
// ---------------------------------------------------------------------------

/// The same byte `count` times.
pub open spec fn repeated(byte: u8, count: nat) -> Seq<u8> {
    Seq::new(count, |i: int| byte)
}

/// The bytes that overwrite a line of `printed` characters with `text`: if the
/// new text is shorter than the old one, the leftovers are wiped, and the
/// cursor steps back over them.
pub open spec fn drawing(printed: nat, text: Seq<u8>) -> Seq<u8> {
    let drawn = repeated(BACKSPACE, printed) + text;
    if printed > text.len() {
        let leftover = (printed - text.len()) as nat;
        drawn + repeated(BLANK, leftover) + repeated(BACKSPACE, leftover)
    } else {
        drawn
    }
}

/// The bytes that remove a line of `printed` characters.
pub open spec fn clearing(printed: nat) -> Seq<u8> {
    if printed == 0 {
        Seq::empty()
    } else {
        repeated(BACKSPACE, printed) + repeated(BLANK, printed) + repeated(BACKSPACE, printed)
    }
}

/// Writes the same byte `count` times.
pub fn write_repeated(out: &mut Vec<u8>, byte: u8, count: usize)
    ensures
        final(out)@ == old(out)@ + repeated(byte, count as nat),
{
    let mut left: usize = count;
    assert(out@ =~= old(out)@ + repeated(byte, 0));
    while left > 0
        invariant
            left <= count,
            out@ == old(out)@ + repeated(byte, (count - left) as nat),
        decreases left,
    {
        out.push(byte);
        left = left - 1;
        assert(out@ =~= old(out)@ + repeated(byte, (count - left) as nat));
    }
}

/// Writes `count` backspaces.
pub fn write_backspaces(out: &mut Vec<u8>, count: usize)
    ensures
        final(out)@ == old(out)@ + repeated(BACKSPACE, count as nat),
{
    write_repeated(out, BACKSPACE, count);
}

/// Writes `bytes`.
fn write_all(out: &mut Vec<u8>, bytes: &[u8])
    ensures
        final(out)@ == old(out)@ + bytes@,
{
    let mut index: usize = 0;
    assert(out@ =~= old(out)@ + bytes@.take(0));
    while index < bytes.len()
        invariant
            index <= bytes@.len(),
            out@ == old(out)@ + bytes@.take(index as int),
        decreases bytes@.len() - index,
    {
        out.push(bytes[index]);
        index = index + 1;
        assert(out@ =~= old(out)@ + bytes@.take(index as int));
    }
    assert(bytes@.take(index as int) =~= bytes@);
}

impl ProgressReport {
    /// Number of samples expected.
    pub closed spec fn expected(&self) -> nat {
        self.total as nat
    }

    /// Number of samples seen so far.
    pub closed spec fn seen(&self) -> nat {
        self.done as nat
    }

    /// When the line was drawn last, in nanoseconds since the start.
    pub closed spec fn updated(&self) -> nat {
        self.last_update as nat
    }

    /// Number of bytes of the line on screen.
    pub closed spec fn width(&self) -> nat {
        self.printed as nat
    }

    /// True if progress is reported at all.
    pub closed spec fn reports(&self) -> bool {
        self.enabled
    }

    /// Nothing is reported unless samples are expected.
    pub closed spec fn wf(&self) -> bool {
        self.enabled ==> self.total > 0
    }

    /// `total_samples` is what the report is measured against; pass the length
    /// from the file header.  `quiet` suppresses the output entirely, and so
    /// does a stream that is not a terminal: it would otherwise collect a
    /// stream of backspaces.
    pub fn new(total_samples: u64, quiet: bool, is_terminal: bool) -> (report: ProgressReport)
        ensures
            report.wf(),
            report.expected() == total_samples,
            report.seen() == 0,
            report.updated() == 0,
            report.width() == 0,
            report.reports() == (!quiet && total_samples > 0 && is_terminal),
    {
        ProgressReport {
            total: total_samples,
            done: 0,
            last_update: 0,
            printed: 0,
            enabled: !quiet && total_samples > 0 && is_terminal,
        }
    }

    /// Redraws the line if enough time has passed since the last redraw, and
    /// returns the bytes to write.
    ///
    /// `now` is the time in nanoseconds since the start.  `eta(now, remaining,
    /// done)`, where a stream that is longer than announced has nothing
    /// remaining, is the number of seconds that the remaining samples will take if
    /// they take as long as the part already done.
    pub fn maybe_redraw<F: Fn(u64, u64, u64) -> u64>(&mut self, now: u64, eta: &F) -> (bytes:
        Option<Vec<u8>>)
        requires
            old(self).wf(),
            old(self).reports(),
            forall|now: u64, remaining: u64, done: u64| call_requires(*eta, (now, remaining, done)),
        ensures
            final(self).wf(),
            final(self).expected() == old(self).expected(),
            final(self).seen() == old(self).seen(),
            final(self).reports() == old(self).reports(),
            if now < old(self).updated() + UPDATE_INTERVAL {
                &&& bytes is None
                &&& final(self).updated() == old(self).updated()
                &&& final(self).width() == old(self).width()
            } else {
                exists|time: Option<u64>|
                    {
                        &&& #[trigger] estimates(
                            *eta,
                            now,
                            old(self).expected(),
                            old(self).seen(),
                            time,
                        )
                        &&& bytes matches Some(bytes) && final(self).draws(
                            *old(self),
                            line_chars(percentage(old(self).seen(), old(self).expected()), time),
                            bytes@,
                        )
                        &&& final(self).updated() == now
                    }
            },
    {
        if now < self.last_update || now - self.last_update < UPDATE_INTERVAL {
            return None;
        }
        self.last_update = now;

        proof {
            lemma_percentage(self.seen(), self.expected());
        }
        // The stream can turn out longer than announced.
        let percent: u64 = if self.done >= self.total {
            100
        } else {
            let part: u128 = 100 * self.done as u128 / self.total as u128;
            assert(part == 100 * self.seen() / self.expected());
            part as u64
        };
        assert(percent == percentage(self.seen(), self.expected()));
        let remaining = self.total.saturating_sub(self.done);
        let time = if self.done == 0 {
            None
        } else {
            Some(eta(now, remaining, self.done))
        };
        assert(estimates(*eta, now, old(self).expected(), old(self).seen(), time));
        let text = format_line(percent, time);
        let bytes = self.draw(text.as_str());
        assert(self.draws(
            *old(self),
            line_chars(percentage(old(self).seen(), old(self).expected()), time),
            bytes@,
        ));
        Some(bytes)
    }

    /// `bytes` overwrite the line of `before` with `text`, which is then the
    /// line on screen.
    pub open spec fn draws(&self, before: ProgressReport, text: Seq<char>, bytes: Seq<u8>) -> bool {
        let encoded = vstd::utf8::encode_utf8(text);
        &&& bytes == drawing(before.width(), encoded)
        &&& self.width() == encoded.len()
    }

    /// Overwrites the previous line with `text`, using backspaces; returns the
    /// bytes to write.
    pub fn draw(&mut self, text: &str) -> (bytes: Vec<u8>)
        ensures
            final(self).draws(*old(self), text@, bytes@),
            final(self).wf() == old(self).wf(),
            final(self).expected() == old(self).expected(),
            final(self).seen() == old(self).seen(),
            final(self).updated() == old(self).updated(),
            final(self).reports() == old(self).reports(),
    {
        let encoded = text.as_bytes();
        let mut bytes: Vec<u8> = Vec::new();
        write_backspaces(&mut bytes, self.printed);
        write_all(&mut bytes, encoded);
        // If the new text is shorter than the old one, wipe the leftovers and
        // step back over them.
        if self.printed > encoded.len() {
            let leftover = self.printed - encoded.len();
            write_repeated(&mut bytes, BLANK, leftover);
            write_backspaces(&mut bytes, leftover);
        }
        self.printed = encoded.len();
        assert(bytes@ =~= drawing(old(self).width(), encoded@));
        bytes
    }

    /// Removes the progress line, so that whatever is printed next starts on a
    /// clean line; returns the bytes to write.
    pub fn clear(&mut self) -> (bytes: Vec<u8>)
        ensures
            bytes@ == clearing(old(self).width()),
            final(self).width() == 0,
            final(self).wf() == old(self).wf(),
            final(self).expected() == old(self).expected(),
            final(self).seen() == old(self).seen(),
            final(self).updated() == old(self).updated(),
            final(self).reports() == old(self).reports(),
    {
        let mut bytes: Vec<u8> = Vec::new();
        if self.printed == 0 {
            return bytes;
        }
        write_backspaces(&mut bytes, self.printed);
        write_repeated(&mut bytes, BLANK, self.printed);
        write_backspaces(&mut bytes, self.printed);
        self.printed = 0;
        assert(bytes@ =~= clearing(old(self).width()));
        bytes
    }

    /// Lets one sample, or the end of the stream, pass through, and says what
    /// is to be done for the report.  Counting stops at the largest number.
    pub fn next<T>(&mut self, sample: Option<T>) -> (passed: (Option<T>, Notice))
        requires
            old(self).wf(),
        ensures
            passed.0 == sample,
            final(self).wf(),
            final(self).expected() == old(self).expected(),
            final(self).updated() == old(self).updated(),
            final(self).reports() == old(self).reports(),
            if sample is Some {
                &&& final(self).seen() == if old(self).seen() < u64::MAX {
                    old(self).seen() + 1
                } else {
                    old(self).seen()
                }
                &&& final(self).width() == old(self).width()
                &&& if old(self).reports() && final(self).seen() % CLOCK_CHECK_INTERVAL as nat
                    == 0 {
                    passed.1 is CheckClock
                } else {
                    passed.1 is Nothing
                }
            } else {
                &&& final(self).seen() == old(self).seen()
                &&& if old(self).reports() {
                    &&& passed.1 matches Notice::Write(bytes) && bytes@ == clearing(
                        old(self).width(),
                    )
                    &&& final(self).width() == 0
                } else {
                    &&& passed.1 is Nothing
                    &&& final(self).width() == old(self).width()
                }
            },
    {
        match sample {
            Some(sample) => {
                self.done = self.done.saturating_add(1);
                if self.enabled && self.done % CLOCK_CHECK_INTERVAL == 0 {
                    (Some(sample), Notice::CheckClock)
                } else {
                    (Some(sample), Notice::Nothing)
                }
            },
            None => {
                // End of the stream: take the line down again.
                if self.enabled {
                    (None, Notice::Write(self.clear()))
                } else {
                    (None, Notice::Nothing)
                }
            },
        }
    }
}

/// The number of samples that are still expected.
pub open spec fn remaining(total: nat, done: nat) -> nat {
    if done < total {
        (total - done) as nat
    } else {
        0
    }
}

/// The remaining time: unknown before the first sample, else what `eta` says.
pub open spec fn estimates<F: Fn(u64, u64, u64) -> u64>(
    eta: F,
    now: u64,
    total: nat,
    done: nat,
    time: Option<u64>,
) -> bool {
    if done == 0 {
        time is None
    } else {
        time matches Some(seconds) && call_ensures(
            eta,
            (now, remaining(total, done) as u64, done as u64),
            seconds,
        )
    }
}

// ---------------------------------------------------------------------------
// Laws
// ---------------------------------------------------------------------------

/// One line of a terminal: what each column shows, and where the cursor is.
pub struct Screen {
    pub cells: Map<int, u8>,
    pub column: int,
}

impl Screen {
    /// The line after one more byte: a backspace moves the cursor, any other
    /// byte is shown in the column of the cursor.
    pub open spec fn typed(self, byte: u8) -> Screen {
        if byte == 0x08 {
            Screen { column: self.column - 1, ..self }
        } else {
            Screen { cells: self.cells.insert(self.column, byte), column: self.column + 1 }
        }
    }

    /// The line after `bytes`.
    pub open spec fn after(self, bytes: Seq<u8>) -> Screen
        decreases bytes.len(),
    {
        if bytes.len() == 0 {
            self
        } else {
            self.after(bytes.drop_last()).typed(bytes.last())
        }
    }

    /// What column `i` shows.
    pub open spec fn shows(self, i: int) -> u8 {
        self.cells[i]
    }
}

proof fn lemma_after_both(screen: Screen, a: Seq<u8>, b: Seq<u8>)
    ensures
        screen.after(a + b) == screen.after(a).after(b),
    decreases b.len(),
{
    if b.len() == 0 {
        assert(a + b =~= a);
    } else {
        lemma_after_both(screen, a, b.drop_last());
        assert((a + b).drop_last() =~= a + b.drop_last());
        assert((a + b).last() == b.last());
    }
}

proof fn lemma_after_backspaces(screen: Screen, count: nat)
    ensures
        screen.after(repeated(BACKSPACE, count)) == (Screen {
            column: screen.column - count,
            ..screen
        }),
    decreases count,
{
    if count > 0 {
        lemma_after_backspaces(screen, (count - 1) as nat);
        assert(repeated(BACKSPACE, count).drop_last() =~= repeated(
            BACKSPACE,
            (count - 1) as nat,
        ));
    }
}

proof fn lemma_after_text(screen: Screen, text: Seq<u8>)
    requires
        forall|i: int| 0 <= i < text.len() ==> #[trigger] text[i] != BACKSPACE,
    ensures
        screen.after(text).column == screen.column + text.len(),
        forall|i: int| #[trigger]
            screen.after(text).shows(i) == if screen.column <= i < screen.column + text.len() {
                text[i - screen.column]
            } else {
                screen.shows(i)
            },
    decreases text.len(),
{
    if text.len() > 0 {
        let shorter = text.drop_last();
        assert forall|i: int| 0 <= i < shorter.len() implies #[trigger] shorter[i]
            != BACKSPACE by {
            assert(shorter[i] == text[i]);
        }
        lemma_after_text(screen, shorter);
        assert(text[text.len() - 1] != BACKSPACE);
        assert forall|i: int| #[trigger]
            screen.after(text).shows(i) == if screen.column <= i < screen.column + text.len() {
                text[i - screen.column]
            } else {
                screen.shows(i)
            } by {
            assert(screen.after(shorter).shows(i) == if screen.column <= i < screen.column
                + shorter.len() {
                shorter[i - screen.column]
            } else {
                screen.shows(i)
            });
        }
    }
}

/// A redraw replaces the old line: where the cursor stood behind a line of
/// `printed` characters, it then stands behind the new text, which starts in
/// the same column; what is left of the old line is blank, and nothing else
/// has changed.
pub proof fn law_redraw_replaces_the_line(screen: Screen, printed: nat, text: Seq<u8>)
    requires
        forall|i: int| 0 <= i < text.len() ==> #[trigger] text[i] != 0x08,
    ensures
        ({
            let after = screen.after(drawing(printed, text));
            let start = screen.column - printed;
            &&& after.column == start + text.len()
            &&& forall|i: int| #[trigger]
                after.shows(i) == if start <= i < start + text.len() {
                    text[i - start]
                } else if start <= i < start + printed {
                    0x20
                } else {
                    screen.shows(i)
                }
        }),
{
    let back = repeated(BACKSPACE, printed);
    let drawn = back + text;
    lemma_after_both(screen, back, text);
    lemma_after_backspaces(screen, printed);
    lemma_after_text(screen.after(back), text);
    if printed > text.len() {
        let leftover = (printed - text.len()) as nat;
        let blanks = repeated(BLANK, leftover);
        lemma_after_both(screen, drawn, blanks);
        lemma_after_both(screen, drawn + blanks, repeated(BACKSPACE, leftover));
        lemma_after_text(screen.after(drawn), blanks);
        lemma_after_backspaces(screen.after(drawn + blanks), leftover);
        let wiped = screen.after(drawn + blanks);
        let after = screen.after(drawing(printed, text));
        assert(after.cells == wiped.cells);
        assert forall|i: int| #[trigger]
            after.shows(i) == if screen.column - printed <= i < screen.column - printed
                + text.len() {
                text[i - (screen.column - printed)]
            } else if screen.column - printed <= i < screen.column {
                BLANK
            } else {
                screen.shows(i)
            } by {
            assert(wiped.shows(i) == after.shows(i));
            assert(screen.after(drawn).shows(i) == screen.after(back).after(text).shows(i));
            assert(screen.after(back).shows(i) == screen.shows(i));
        }
    } else {
        let after = screen.after(drawing(printed, text));
        assert forall|i: int| #[trigger]
            after.shows(i) == if screen.column - printed <= i < screen.column - printed
                + text.len() {
                text[i - (screen.column - printed)]
            } else {
                screen.shows(i)
            } by {
            assert(screen.after(back).shows(i) == screen.shows(i));
        }
    }
}

/// Clearing removes the line: it is blank, the cursor stands where it started,
/// and nothing else has changed.
pub proof fn law_clearing_removes_the_line(screen: Screen, printed: nat)
    ensures
        ({
            let after = screen.after(clearing(printed));
            let start = screen.column - printed;
            &&& after.column == start
            &&& forall|i: int| #[trigger]
                after.shows(i) == if start <= i < start + printed {
                    0x20
                } else {
                    screen.shows(i)
                }
        }),
{
    // It is the same as drawing an empty line.
    let nothing = Seq::<u8>::empty();
    law_redraw_replaces_the_line(screen, printed, nothing);
    assert(clearing(printed) =~= drawing(printed, nothing));
}

/// Every character of the progress line is one byte that is shown in one
/// column.
pub proof fn law_line_is_plain_text(percent: nat, eta: Option<u64>)
    ensures
        ({
            let chars = line_chars(percent, eta);
            let bytes = vstd::utf8::encode_utf8(chars);
            &&& bytes.len() == chars.len()
            &&& forall|i: int|
                0 <= i < bytes.len() ==> #[trigger] bytes[i] == chars[i] as u8 && BLANK <= bytes[i]
        }),
{
    reveal_strlit("Progress: ");
    reveal_strlit("%");
    reveal_strlit(" ETA: ");
    lemma_plain_decimal(percent);
    if let Some(seconds) = eta {
        lemma_plain_duration(seconds as nat);
    }
    let chars = line_chars(percent, eta);
    assert(is_plain(chars));
    assert(vstd::utf8::is_ascii_chars(chars));
    vstd::utf8::is_ascii_chars_encode_utf8(chars);
    let bytes = vstd::utf8::encode_utf8(chars);
    assert forall|i: int| 0 <= i < bytes.len() implies #[trigger] bytes[i] == chars[i] as u8
        && BLANK <= bytes[i] by {
        assert(' ' <= chars[i] <= '~');
    }
}

/// Characters that a terminal shows in one column.
spec fn is_plain(chars: Seq<char>) -> bool {
    forall|i: int| 0 <= i < chars.len() ==> ' ' <= #[trigger] chars[i] <= '~'
}

proof fn lemma_plain_decimal(n: nat)
    ensures
        is_plain(crate::text::decimal_chars(n)),
    decreases n,
{
    if n >= 10 {
        lemma_plain_decimal(n / 10);
    }
}

proof fn lemma_plain_duration(seconds: nat)
    ensures
        is_plain(duration_chars(seconds)),
{
    reveal_strlit("h ");
    reveal_strlit("m");
    reveal_strlit("m ");
    reveal_strlit("s");
    lemma_plain_decimal(seconds / 3600);
    lemma_plain_decimal(seconds % 3600 / 60);
    lemma_plain_decimal(seconds / 60);
    lemma_plain_decimal(seconds % 60);
    lemma_plain_decimal(seconds);
}

/// A duration names its hours and minutes, its minutes and seconds, or its
/// seconds: the largest unit in full, the other one in two digits.
pub proof fn law_durations_add_up(seconds: nat, hours: nat, minutes: nat, rest: nat)
    requires
        seconds == 3600 * hours + 60 * minutes + rest,
        minutes < 60,
        rest < 60,
    ensures
        ({
            let tens = |n: nat| crate::text::decimal_chars(n / 10);
            let ones = |n: nat| crate::text::decimal_chars(n % 10);
            &&& hours > 0 ==> duration_chars(seconds) == crate::text::decimal_chars(hours) + "h "@
                + tens(minutes) + ones(minutes) + "m"@
            &&& hours == 0 && minutes > 0 ==> duration_chars(seconds) == crate::text::decimal_chars(
                minutes,
            ) + "m "@ + tens(rest) + ones(rest) + "s"@
            &&& hours == 0 && minutes == 0 ==> duration_chars(seconds)
                == crate::text::decimal_chars(rest) + "s"@
        }),
{
    assert(seconds / 3600 == hours && seconds % 3600 / 60 == minutes);
    assert(hours == 0 ==> seconds / 60 == minutes && seconds % 60 == rest);
    lemma_two_digits(minutes);
    lemma_two_digits(rest);
    if hours > 0 {
        assert(duration_chars(seconds) =~= crate::text::decimal_chars(hours) + "h "@
            + crate::text::decimal_chars(minutes / 10) + crate::text::decimal_chars(minutes % 10)
            + "m"@);
    } else if minutes > 0 {
        assert(duration_chars(seconds) =~= crate::text::decimal_chars(minutes) + "m "@
            + crate::text::decimal_chars(rest / 10) + crate::text::decimal_chars(rest % 10)
            + "s"@);
    }
}

proof fn lemma_two_digits(n: nat)
    requires
        n < 60,
    ensures
        crate::text::padded_chars(crate::text::decimal_chars(n), '0', 2)
            == crate::text::decimal_chars(n / 10) + crate::text::decimal_chars(n % 10),
{
    reveal_with_fuel(crate::text::decimal_chars, 2);
    assert(crate::text::padded_chars(crate::text::decimal_chars(n), '0', 2)
        =~= crate::text::decimal_chars(n / 10) + crate::text::decimal_chars(n % 10));
}

/// The percentage is the largest whole number of percent that has been seen,
/// and no more than 100.
pub proof fn law_percentage_is_rounded_down(done: nat, total: nat)
    requires
        total > 0,
    ensures
        percentage(done, total) <= 100,
        done >= total ==> percentage(done, total) == 100,
        done < total ==> percentage(done, total) * total <= 100 * done < (percentage(done, total)
            + 1) * total,
{
    lemma_percentage(done, total);
    let part = (100 * done) as int / (total as int);
    vstd::arithmetic::div_mod::lemma_fundamental_div_mod(100 * done as int, total as int);
    assert(part * total <= 100 * done < (part + 1) * total) by (nonlinear_arith)
        requires
            100 * done == total * part + (100 * done) as int % (total as int),
            0 <= (100 * done) as int % (total as int),
            (100 * done) as int % (total as int) < total as int,
    ;
}

/// Together with what has been seen, what remains is everything; nothing
/// remains of a stream that is longer than announced.
pub proof fn law_remaining_samples_complete_the_stream(total: nat, done: nat)
    ensures
        done <= total ==> remaining(total, done) + done == total,
        done >= total ==> remaining(total, done) == 0,
{
}

/// The line has the percentage in three columns, and ends there or with the
/// remaining time.
pub proof fn law_line_layout(percent: nat, eta: Option<u64>)
    requires
        percent <= 100,
    ensures
        ({
            let line = line_chars(percent, eta);
            let digits = crate::text::decimal_chars(percent);
            &&& line.len() >= 14
            &&& line.take(10) == "Progress: "@
            &&& line.subrange(13 - digits.len(), 13) == digits
            &&& forall|i: int| 10 <= i < 13 - digits.len() ==> #[trigger] line[i] == ' '
            &&& line[13] == '%'
            &&& line.skip(14) == match eta {
                Some(seconds) => " ETA: "@ + duration_chars(seconds as nat),
                None => Seq::empty(),
            }
        }),
{
    reveal_strlit("Progress: ");
    reveal_strlit("%");
    let line = line_chars(percent, eta);
    let digits = crate::text::decimal_chars(percent);
    crate::text::lemma_decimal_len(percent);
    crate::text::law_padding_comes_first(digits, ' ', 3);
    let columns = crate::text::padded_chars(digits, ' ', 3);
    assert(line.take(10) =~= "Progress: "@);
    assert(line.subrange(10, 13) =~= columns);
    assert(line.subrange(13 - digits.len(), 13) =~= columns.skip(3 - digits.len()));
    assert forall|i: int| 10 <= i < 13 - digits.len() implies #[trigger] line[i] == ' ' by {
        assert(line[i] == columns[i - 10]);
    }
    assert(line.skip(14) =~= match eta {
        Some(seconds) => " ETA: "@ + duration_chars(seconds as nat),
        None => Seq::empty(),
    });
}

// ---------------------------------------------------------------------------
// The whole stream
// ---------------------------------------------------------------------------

/// `bytes` have left nothing but a line of `width` characters on the screen: the
/// cursor stands behind it, nothing before it has changed, and what was
/// overwritten after it is blank.
pub open spec fn leaves_line(screen: Screen, bytes: Seq<u8>, width: nat) -> bool {
    let after = screen.after(bytes);
    &&& after.column == screen.column + width
    &&& forall|i: int|
        !(screen.column <= i < screen.column + width) ==> #[trigger] after.shows(i)
            == screen.shows(i) || (i >= screen.column && after.shows(i) == 0x20)
}

proof fn lemma_redrawn(screen: Screen, bytes: Seq<u8>, width: nat, text: Seq<u8>)
    requires
        leaves_line(screen, bytes, width),
        forall|i: int| 0 <= i < text.len() ==> #[trigger] text[i] != 0x08,
    ensures
        leaves_line(screen, bytes + drawing(width, text), text.len()),
{
    let before = screen.after(bytes);
    let after = screen.after(bytes + drawing(width, text));
    lemma_after_both(screen, bytes, drawing(width, text));
    law_redraw_replaces_the_line(before, width, text);
    assert forall|i: int|
        !(screen.column <= i < screen.column + text.len()) implies #[trigger] after.shows(i)
        == screen.shows(i) || (i >= screen.column && after.shows(i) == 0x20) by {
        let _ = before.shows(i);
    }
}

proof fn lemma_cleared(screen: Screen, bytes: Seq<u8>, width: nat)
    requires
        leaves_line(screen, bytes, width),
    ensures
        leaves_line(screen, bytes + clearing(width), 0),
{
    let nothing = Seq::<u8>::empty();
    assert(clearing(width) =~= drawing(width, nothing));
    lemma_redrawn(screen, bytes, width, nothing);
}

/// When the line was drawn last, before check number `k`: never at first, and then
/// at every check that came 200 ms or more after the last time.
pub open spec fn last_drawn(times: Seq<u64>, k: int) -> int
    decreases k,
{
    if k <= 0 {
        0
    } else if times[k - 1] >= last_drawn(times, k - 1) + 200_000_000 {
        times[k - 1] as int
    } else {
        last_drawn(times, k - 1)
    }
}

/// The line that is drawn at check number `k`, which comes after 4096 times as many
/// samples, counted from one.
pub open spec fn line_at(announced: u64, estimated: Seq<u64>, k: int) -> Seq<u8> {
    vstd::utf8::encode_utf8(
        line_chars(percentage((4096 * (k + 1)) as nat, announced as nat), Some(estimated[k])),
    )
}

/// The width of the line before check number `k`.
pub open spec fn width_at(announced: u64, times: Seq<u64>, estimated: Seq<u64>, k: int) -> nat
    decreases k,
{
    if k <= 0 {
        0
    } else if times[k - 1] >= last_drawn(times, k - 1) + 200_000_000 {
        line_at(announced, estimated, k - 1).len()
    } else {
        width_at(announced, times, estimated, k - 1)
    }
}

/// Everything that is written before check number `k`.
pub open spec fn drawn_at(announced: u64, times: Seq<u64>, estimated: Seq<u64>, k: int) -> Seq<u8>
    decreases k,
{
    if k <= 0 {
        Seq::empty()
    } else if times[k - 1] >= last_drawn(times, k - 1) + 200_000_000 {
        drawn_at(announced, times, estimated, k - 1) + drawing(
            width_at(announced, times, estimated, k - 1),
            line_at(announced, estimated, k - 1),
        )
    } else {
        drawn_at(announced, times, estimated, k - 1)
    }
}

/// `times` are what the clock showed at each check, and `estimated` the remaining
/// times that were estimated whenever the line was drawn.
pub open spec fn is_timed<K: Fn(u64) -> u64, F: Fn(u64, u64, u64) -> u64>(
    clock: K,
    eta: F,
    announced: u64,
    times: Seq<u64>,
    estimated: Seq<u64>,
) -> bool {
    &&& estimated.len() == times.len()
    &&& forall|k: int|
        0 <= k < times.len() ==> call_ensures(
            clock,
            ((4096 * (k + 1)) as u64,),
            #[trigger] times[k],
        )
    &&& forall|k: int|
        0 <= k < times.len() && #[trigger] times[k] >= last_drawn(times, k) + 200_000_000
            ==> call_ensures(
            eta,
            (
                times[k],
                if announced >= 4096 * (k + 1) {
                    (announced - 4096 * (k + 1)) as u64
                } else {
                    0
                },
                (4096 * (k + 1)) as u64,
            ),
            estimated[k],
        )
}

/// Later checks change nothing about what came before.
proof fn lemma_earlier_checks(
    announced: u64,
    times: Seq<u64>,
    estimated: Seq<u64>,
    time: u64,
    seconds: u64,
    k: int,
)
    requires
        0 <= k <= times.len(),
        estimated.len() == times.len(),
    ensures
        last_drawn(times.push(time), k) == last_drawn(times, k),
        width_at(announced, times.push(time), estimated.push(seconds), k) == width_at(
            announced,
            times,
            estimated,
            k,
        ),
        drawn_at(announced, times.push(time), estimated.push(seconds), k) == drawn_at(
            announced,
            times,
            estimated,
            k,
        ),
    decreases k,
{
    if k > 0 {
        lemma_earlier_checks(announced, times, estimated, time, seconds, k - 1);
        assert(times.push(time)[k - 1] == times[k - 1]);
        assert(line_at(announced, estimated.push(seconds), k - 1) == line_at(
            announced,
            estimated,
            k - 1,
        ));
    }
}

/// One more check.
proof fn lemma_one_more_check<K: Fn(u64) -> u64, F: Fn(u64, u64, u64) -> u64>(
    clock: K,
    eta: F,
    announced: u64,
    times: Seq<u64>,
    estimated: Seq<u64>,
    time: u64,
    seconds: u64,
)
    requires
        is_timed(clock, eta, announced, times, estimated),
        call_ensures(clock, ((4096 * (times.len() + 1)) as u64,), time),
        time >= last_drawn(times, times.len() as int) + 200_000_000 ==> call_ensures(
            eta,
            (
                time,
                if announced >= 4096 * (times.len() + 1) {
                    (announced - 4096 * (times.len() + 1)) as u64
                } else {
                    0
                },
                (4096 * (times.len() + 1)) as u64,
            ),
            seconds,
        ),
    ensures
        is_timed(clock, eta, announced, times.push(time), estimated.push(seconds)),
{
    let longer = times.push(time);
    assert forall|k: int| 0 <= k < longer.len() implies call_ensures(
        clock,
        ((4096 * (k + 1)) as u64,),
        #[trigger] longer[k],
    ) by {
        if k < times.len() {
            assert(call_ensures(clock, ((4096 * (k + 1)) as u64,), times[k]));
        }
    }
    assert forall|k: int|
        0 <= k < longer.len() && #[trigger] longer[k] >= last_drawn(longer, k)
            + 200_000_000 implies call_ensures(
        eta,
        (
            longer[k],
            if announced >= 4096 * (k + 1) {
                (announced - 4096 * (k + 1)) as u64
            } else {
                0
            },
            (4096 * (k + 1)) as u64,
        ),
        estimated.push(seconds)[k],
    ) by {
        lemma_earlier_checks(announced, times, estimated, time, seconds, k);
        if k < times.len() {
            assert(times[k] >= last_drawn(times, k) + 200_000_000);
        }
    }
}

/// Lets a whole stream pass through a report; returns the samples, and everything
/// that was written to the terminal meanwhile.
///
/// `clock(n)` is the time when `n` samples have passed, `eta` estimates the
/// remaining time.  See [`ProgressReport::maybe_redraw`].
///
/// The samples are those that came.  Nothing is written if the caller asked for
/// silence or if there is no terminal; else the clock is read with every 4096th
/// sample, and a line is drawn whenever 200 ms have passed.  Whatever is written,
/// in the end no line is left: the cursor is where it was, and what was
/// overwritten is blank.
pub fn report_all<T: Copy, K: Fn(u64) -> u64, F: Fn(u64, u64, u64) -> u64>(
    samples: &Vec<T>,
    announced: u64,
    quiet: bool,
    is_terminal: bool,
    clock: &K,
    eta: &F,
) -> (reported: (Vec<T>, Vec<u8>))
    requires
        forall|n: u64| call_requires(*clock, (n,)),
        forall|now: u64, remaining: u64, done: u64| call_requires(*eta, (now, remaining, done)),
    ensures
        reported.0@ == samples@,
        quiet || !is_terminal || announced == 0 ==> reported.1@.len() == 0,
        !quiet && is_terminal && announced > 0 ==> exists|times: Seq<u64>, estimated: Seq<u64>|
            {
                let checks = samples@.len() as int / 4096;
                &&& #[trigger] is_timed(*clock, *eta, announced, times, estimated)
                &&& times.len() == checks
                &&& reported.1@ == drawn_at(announced, times, estimated, checks) + clearing(
                    width_at(announced, times, estimated, checks),
                )
            },
        forall|screen: Screen| #[trigger] leaves_line(screen, reported.1@, 0),
{
    let mut report = ProgressReport::new(announced, quiet, is_terminal);
    let mut passed: Vec<T> = Vec::new();
    let mut written: Vec<u8> = Vec::new();
    let mut index: usize = 0;
    let mut count: u64 = 0;
    let ghost mut times: Seq<u64> = Seq::empty();
    let ghost mut estimated: Seq<u64> = Seq::empty();
    while index < samples.len()
        invariant
            index <= samples@.len(),
            report.wf(),
            report.reports() == (!quiet && is_terminal && announced > 0),
            report.expected() == announced,
            report.seen() == index,
            count == index,
            report.reports() ==> {
                &&& is_timed(*clock, *eta, announced, times, estimated)
                &&& times.len() == index as int / 4096
                &&& report.updated() == last_drawn(times, times.len() as int)
                &&& report.width() == width_at(announced, times, estimated, times.len() as int)
                &&& written@ == drawn_at(announced, times, estimated, times.len() as int)
            },
            forall|n: u64| call_requires(*clock, (n,)),
            forall|now: u64, remaining: u64, done: u64|
                call_requires(*eta, (now, remaining, done)),
            passed@ == samples@.take(index as int),
            !report.reports() ==> written@.len() == 0 && report.width() == 0,
            forall|screen: Screen| #[trigger] leaves_line(screen, written@, report.width()),
        decreases samples@.len() - index,
    {
        let ghost before = written@;
        let (sample, notice) = report.next(Some(samples[index]));
        if let Some(sample) = sample {
            passed.push(sample);
        }
        count = count.saturating_add(1);
        match notice {
            Notice::Nothing => {},
            Notice::CheckClock => {
                let ghost waiting = report;
                let ghost checks = times.len() as int;
                let now = clock(count);
                assert(count == 4096 * (checks + 1));
                let redrawn = report.maybe_redraw(now, eta);
                if let Some(bytes) = redrawn {
                    write_all(&mut written, bytes.as_slice());
                    proof {
                        let percent = percentage(waiting.seen(), waiting.expected());
                        let time = choose|time: Option<u64>|
                            {
                                &&& #[trigger] estimates(
                                    *eta,
                                    now,
                                    waiting.expected(),
                                    waiting.seen(),
                                    time,
                                )
                                &&& report.draws(waiting, line_chars(percent, time), bytes@)
                            };
                        let text = vstd::utf8::encode_utf8(line_chars(percent, time));
                        law_line_is_plain_text(percent, time);
                        assert forall|screen: Screen| #[trigger]
                            leaves_line(screen, written@, report.width()) by {
                            assert(leaves_line(screen, before, waiting.width()));
                            lemma_redrawn(screen, before, waiting.width(), text);
                        }
                        let seconds = time.unwrap();
                        lemma_one_more_check(
                            *clock,
                            *eta,
                            announced,
                            times,
                            estimated,
                            now,
                            seconds,
                        );
                        lemma_earlier_checks(announced, times, estimated, now, seconds, checks);
                        times = times.push(now);
                        estimated = estimated.push(seconds);
                        assert(line_at(announced, estimated, checks) == text);
                    }
                } else {
                    proof {
                        lemma_one_more_check(*clock, *eta, announced, times, estimated, now, 0);
                        lemma_earlier_checks(announced, times, estimated, now, 0, checks);
                        times = times.push(now);
                        estimated = estimated.push(0);
                    }
                }
            },
            Notice::Write(bytes) => {
                write_all(&mut written, bytes.as_slice());
            },
        }
        index = index + 1;
        assert(samples@.take(index as int) =~= samples@.take(index - 1).push(samples@[index - 1]));
    }
    let ghost before = written@;
    let ghost width = report.width();
    let (_end, notice) = report.next::<T>(None);
    if let Notice::Write(bytes) = notice {
        write_all(&mut written, bytes.as_slice());
        proof {
            assert forall|screen: Screen| #[trigger] leaves_line(screen, written@, 0) by {
                assert(leaves_line(screen, before, width));
                lemma_cleared(screen, before, width);
            }
        }
    }
    proof {
        assert(samples@.take(samples@.len() as int) =~= samples@);
        if !quiet && is_terminal && announced > 0 {
            assert(is_timed(*clock, *eta, announced, times, estimated));
        }
    }
    (passed, written)
}

} // verus!
