//! What ffmpeg prints to stderr: progress lines and the loudness measurement.

use crate::ffmpeg::LoudnormMeasurement;
use crate::json;
use crate::json::{parse_text, Json, Tree};
use crate::number;
use crate::number::{parse_number, to_millionths, Number, TICK};
use crate::text;
use crate::text::{chars_of, find_last, find_text, same_text, split_text, text_of, trim_text};
use vstd::prelude::*;

verus! {

// ─── Progress times ────────────────────────────────────────────

/// Hours, minutes and seconds together, in microseconds.
pub open spec fn clock(hours: Number, minutes: Number, seconds: Number) -> int {
    number::within_i64(
        number::millionths_of(hours) * 3600 + number::millionths_of(minutes) * 60
            + number::millionths_of(seconds),
    )
}

/// The time that a text such as `00:01:30.00` says, in microseconds.
pub open spec fn time_value(s: Seq<char>) -> Option<int> {
    let parts = text::split(text::trimmed(s), ':');
    if parts.len() != 3 {
        None
    } else {
        match (
            number::number_in(parts[0]),
            number::number_in(parts[1]),
            number::number_in(parts[2]),
        ) {
            (Some(h), Some(m), Some(sec)) => Some(clock(h, m, sec)),
            _ => None,
        }
    }
}

/// How many characters stand before the first space or line end.
pub open spec fn field_len(s: Seq<char>) -> nat
    decreases s.len(),
{
    if s.len() == 0 || s[0] == ' ' || s[0] == '\r' || s[0] == '\n' {
        0
    } else {
        1 + field_len(s.skip(1))
    }
}

/// The time behind `time=` in a line, if there is one that is not negative.
pub open spec fn progress_time(line: Seq<char>) -> Option<int> {
    match text::find(line, "time="@) {
        None => None,
        Some(i) => {
            let rest = line.skip(i + "time="@.len());
            let field = rest.take(field_len(rest) as int);
            if (field.len() > 0 && field[0] == '-') || field == "N/A"@ {
                None
            } else {
                time_value(field)
            }
        },
    }
}

/// Parse a `HH:MM:SS.ms` time string into microseconds.
pub fn parse_ffmpeg_time(s: &str) -> (r: Option<i64>)
    ensures
        match r {
            Some(t) => time_value(s@) == Some(t as int),
            None => time_value(s@) is None,
        },
{
    let parts = split_text(trim_text(s).as_str(), ':');
    if parts.len() != 3 {
        assert(text::texts(parts@).len() != 3);
        return None;
    }
    assert(text::texts(parts@)[0] == parts@[0]@);
    assert(text::texts(parts@)[1] == parts@[1]@);
    assert(text::texts(parts@)[2] == parts@[2]@);
    match (
        parse_number(parts[0].as_str()),
        parse_number(parts[1].as_str()),
        parse_number(parts[2].as_str()),
    ) {
        (Some(h), Some(m), Some(sec)) => {
            let t: i128 = to_millionths(h) as i128 * 3600 + to_millionths(m) as i128 * 60
                + to_millionths(sec) as i128;
            if t > i64::MAX as i128 {
                Some(i64::MAX)
            } else if t < i64::MIN as i128 {
                Some(i64::MIN)
            } else {
                Some(t as i64)
            }
        },
        _ => None,
    }
}

fn field_end(chars: &Vec<char>, from: usize) -> (end: usize)
    requires
        from <= chars@.len(),
    ensures
        from <= end <= chars@.len(),
        end - from == field_len(chars@.skip(from as int)),
{
    let mut i: usize = from;
    while i < chars.len() && chars[i] != ' ' && chars[i] != '\r' && chars[i] != '\n'
        invariant
            from <= i <= chars@.len(),
            field_len(chars@.skip(from as int)) == (i - from) + field_len(chars@.skip(i as int)),
        decreases chars.len() - i,
    {
        assert(chars@.skip(i as int).skip(1) =~= chars@.skip(i + 1));
        i += 1;
    }
    i
}

/// Extract the `time=...` value from an ffmpeg stderr line, in microseconds.
///
/// Example line:
/// ```text
/// size=  1024kB time=00:01:30.00 bitrate=128.0kbits/s speed=2.5x
/// ```
pub fn extract_progress_time(line: &str) -> (r: Option<i64>)
    ensures
        match r {
            Some(t) => progress_time(line@) == Some(t as int),
            None => progress_time(line@) is None,
        },
{
    let chars = chars_of(line);
    match find_text(&chars, "time=") {
        None => None,
        Some(i) => {
            let skip = chars_of("time=").len();
            assert(i + skip <= chars.len());
            let from: usize = i + skip;
            let end = field_end(&chars, from);
            let ghost rest = line@.skip(from as int);
            assert(rest.take(end - from) =~= chars@.subrange(from as int, end as int));
            let field = text_of(&chars, from, end);
            // Skip negative times (startup) and N/A
            if (end > from && chars[from] == '-') || same_text(field.as_str(), "N/A") {
                return None;
            }
            parse_ffmpeg_time(field.as_str())
        },
    }
}

/// Where a progress bar stands after `time` of an expected duration, in milliseconds;
/// `None` where the expected duration is nothing.
pub open spec fn bar_position(time: int, expected: int) -> Option<int> {
    if expected > TICK {
        let reached = if time < expected {
            time
        } else {
            expected
        };
        Some(
            if reached < 0 {
                0
            } else {
                reached / 1000
            },
        )
    } else {
        None
    }
}

/// The position of a progress bar after ffmpeg time output.
/// Bar length is the expected duration in milliseconds.
pub fn update_progress(time: i64, expected_duration: i64) -> (r: Option<u64>)
    ensures
        match r {
            Some(p) => bar_position(time as int, expected_duration as int) == Some(p as int),
            None => bar_position(time as int, expected_duration as int) is None,
        },
{
    if expected_duration > TICK {
        let reached: i64 = if time < expected_duration {
            time
        } else {
            expected_duration
        };
        if reached < 0 {
            Some(0)
        } else {
            Some((reached / 1000) as u64)
        }
    } else {
        None
    }
}

// ─── Reading lines ─────────────────────────────────────────────

/// The text that `String::from_utf8_lossy` makes of bytes.
pub uninterp spec fn lossy_utf8(bytes: Seq<u8>) -> Seq<char>;

/// Calls `String::from_utf8_lossy`. The text rests on the bytes alone, and bytes that are
/// valid UTF-8 come out as the text that they encode.
#[verifier::external_body]
fn lossy_text(bytes: &Vec<u8>) -> (r: String)
    ensures
        r@ == lossy_utf8(bytes@),
        vstd::utf8::valid_utf8(bytes@) ==> r@ == vstd::utf8::decode_utf8(bytes@),
{
    String::from_utf8_lossy(bytes).into_owned()
}

/// The text of a line: what its bytes encode, with what is broken in them replaced.
pub open spec fn line_text(bytes: Seq<u8>) -> Seq<char> {
    if vstd::utf8::valid_utf8(bytes) {
        vstd::utf8::decode_utf8(bytes)
    } else {
        lossy_utf8(bytes)
    }
}

/// What has been read so far: the bytes of the line at hand, the finished lines where they
/// are captured, and the progress times in them.
pub struct Reading {
    pub line: Seq<u8>,
    pub output: Seq<char>,
    pub times: Seq<int>,
    pub capture: bool,
}

/// The reading with the line at hand finished.
pub open spec fn finish_line(r: Reading) -> Reading {
    let line = line_text(r.line);
    Reading {
        line: seq![],
        output: if r.capture {
            r.output + line.push('\n')
        } else {
            r.output
        },
        times: match progress_time(line) {
            Some(t) => r.times.push(t),
            None => r.times,
        },
        capture: r.capture,
    }
}

/// The reading with one byte more. Lines end at `\r` and at `\n`; empty lines do not count.
pub open spec fn read_byte(r: Reading, b: u8) -> Reading {
    if b == 13 || b == 10 {
        if r.line.len() > 0 {
            finish_line(r)
        } else {
            r
        }
    } else {
        Reading { line: r.line.push(b), ..r }
    }
}

/// The reading with all the bytes of a chunk more.
pub open spec fn read_chunk(r: Reading, chunk: Seq<u8>) -> Reading
    decreases chunk.len(),
{
    if chunk.len() == 0 {
        r
    } else {
        read_byte(read_chunk(r, chunk.drop_last()), chunk.last())
    }
}

/// The reading at the end of the stream, where a line need not be ended.
pub open spec fn read_end(r: Reading) -> Reading {
    if r.line.len() > 0 {
        finish_line(r)
    } else {
        r
    }
}

/// It does not matter how the stream is cut into chunks.
pub proof fn law_chunks_do_not_matter(r: Reading, a: Seq<u8>, b: Seq<u8>)
    ensures
        read_chunk(read_chunk(r, a), b) == read_chunk(r, a + b),
    decreases b.len(),
{
    if b.len() == 0 {
        assert(a + b =~= a);
    } else {
        assert((a + b).drop_last() =~= a + b.drop_last());
        law_chunks_do_not_matter(r, a, b.drop_last());
    }
}

/// A line of valid UTF-8 comes out as its text, however it is ended.
pub proof fn law_lines_come_out(r: Reading, line: Seq<u8>, end: u8)
    requires
        r.capture,
        r.line.len() == 0,
        line.len() > 0,
        forall|i: int| 0 <= i < line.len() ==> #[trigger] line[i] != 13 && line[i] != 10,
        end == 13 || end == 10,
        vstd::utf8::valid_utf8(line),
    ensures
        read_chunk(r, line.push(end)).output == r.output + vstd::utf8::decode_utf8(line).push('\n'),
        read_end(read_chunk(r, line)).output == r.output + vstd::utf8::decode_utf8(line).push('\n'),
{
    lemma_line_is_gathered(r, line);
    assert(r.line + line =~= line);
    assert(line.push(end).drop_last() =~= line);
}

pub proof fn lemma_line_is_gathered(r: Reading, line: Seq<u8>)
    requires
        forall|i: int| 0 <= i < line.len() ==> #[trigger] line[i] != 13 && line[i] != 10,
    ensures
        read_chunk(r, line) == (Reading { line: r.line + line, ..r }),
    decreases line.len(),
{
    if line.len() == 0 {
        assert(r.line + line =~= r.line);
    } else {
        let front = line.drop_last();
        assert forall|i: int| 0 <= i < front.len() implies #[trigger] front[i] != 13 && front[i]
            != 10 by {
            assert(line[i] != 13);
        }
        assert(line[line.len() - 1] != 13);
        lemma_line_is_gathered(r, front);
        assert((r.line + front).push(line.last()) =~= r.line + line);
    }
}

/// Reads ffmpeg's stderr, splitting on `\r` and `\n` (ffmpeg uses `\r` for real-time
/// progress updates), and optionally captures the full output text.
pub struct StderrReader {
    line: Vec<u8>,
    output: String,
    times: Vec<i64>,
    capture: bool,
}

/// The numbers in a list.
pub open spec fn ints(v: Seq<i64>) -> Seq<int> {
    Seq::new(v.len(), |i: int| v[i] as int)
}

impl View for StderrReader {
    type V = Reading;

    closed spec fn view(&self) -> Reading {
        Reading {
            line: self.line@,
            output: self.output@,
            times: ints(self.times@),
            capture: self.capture,
        }
    }
}

impl StderrReader {
    /// A reader at the start of a stream; `capture` tells whether the finished lines are kept.
    pub fn new(capture: bool) -> (r: StderrReader)
        ensures
            r@ == (Reading { line: seq![], output: seq![], times: seq![], capture }),
    {
        let r = StderrReader { line: Vec::new(), output: String::new(), times: Vec::new(), capture };
        assert(r@.times =~= seq![]);
        r
    }

    fn end_line(&mut self)
        ensures
            final(self)@ == finish_line(old(self)@),
    {
        let ghost before = self@;
        let text = lossy_text(&self.line);
        if let Some(t) = extract_progress_time(text.as_str()) {
            self.times.push(t);
            assert(ints(self.times@) =~= before.times.push(t as int));
        }
        if self.capture {
            self.output.append(text.as_str());
            self.output.push('\n');
            assert(self.output@ =~= before.output + text@.push('\n'));
        }
        self.line.clear();
    }

    /// Takes in what was read from the stream. Every line in it that is valid UTF-8 comes out
    /// as the text that it encodes.
    pub fn feed(&mut self, chunk: &[u8])
        ensures
            final(self)@ == read_chunk(old(self)@, chunk@),
    {
        let ghost start = self@;
        let mut i: usize = 0;
        while i < chunk.len()
            invariant
                i <= chunk@.len(),
                start == old(self)@,
                self@ == read_chunk(start, chunk@.take(i as int)),
            decreases chunk.len() - i,
        {
            let b = chunk[i];
            proof {
                assert(chunk@.take(i + 1).drop_last() =~= chunk@.take(i as int));
            }
            if b == 13 || b == 10 {
                if self.line.len() > 0 {
                    self.end_line();
                }
            } else {
                self.line.push(b);
            }
            i += 1;
        }
        assert(chunk@.take(i as int) =~= chunk@);
    }

    /// Takes in the end of the stream.
    pub fn end(&mut self)
        ensures
            final(self)@ == read_end(old(self)@),
    {
        if self.line.len() > 0 {
            self.end_line();
        }
    }

    /// The last progress time so far.
    pub fn latest(&self) -> (r: Option<i64>)
        ensures
            match r {
                Some(t) => self@.times.len() > 0 && t == self@.times.last(),
                None => self@.times.len() == 0,
            },
    {
        if self.times.len() == 0 {
            None
        } else {
            Some(self.times[self.times.len() - 1])
        }
    }

    /// The captured lines.
    pub fn output(&self) -> (r: &str)
        ensures
            r@ == self@.output,
    {
        self.output.as_str()
    }
}

// ─── Loudness measurement ──────────────────────────────────────

/// The last `{...}` block of a text: from the last `{` before the last `}` to that `}`.
pub open spec fn last_block(s: Seq<char>) -> Option<Seq<char>> {
    let end = text::last_index(s, '}');
    let start = text::last_index(s.take(end + 1), '{');
    if end < 0 || start < 0 {
        None
    } else {
        Some(s.subrange(start, end + 1))
    }
}

/// The number in a text field of a document.
pub open spec fn number_field(t: Tree, key: Seq<char>) -> Option<Number> {
    match json::text_field(t, key) {
        Some(s) => number::number_in(s),
        None => None,
    }
}

/// The measurement in a document, where all of its numbers are there.
pub open spec fn measurement_in(t: Tree) -> Option<LoudnormMeasurement> {
    match (
        number_field(t, "input_i"@),
        number_field(t, "input_tp"@),
        number_field(t, "input_lra"@),
        number_field(t, "input_thresh"@),
        number_field(t, "target_offset"@),
    ) {
        (Some(i), Some(tp), Some(lra), Some(thresh), Some(offset)) => Some(
            LoudnormMeasurement {
                input_i: i,
                input_tp: tp,
                input_lra: lra,
                input_thresh: thresh,
                target_offset: offset,
            },
        ),
        _ => None,
    }
}

/// The number in a text field of a document.
pub fn number_at(j: &Json, key: &str) -> (r: Option<Number>)
    ensures
        r == number_field(j.tree(), key@),
{
    match j.text_at(key) {
        Some(s) => parse_number(s.as_str()),
        None => None,
    }
}

/// The measurement in a document, where all of its numbers are there.
pub fn measurement_from(j: &Json) -> (r: Option<LoudnormMeasurement>)
    ensures
        r == measurement_in(j.tree()),
{
    match (
        number_at(j, "input_i"),
        number_at(j, "input_tp"),
        number_at(j, "input_lra"),
        number_at(j, "input_thresh"),
        number_at(j, "target_offset"),
    ) {
        (Some(i), Some(tp), Some(lra), Some(thresh), Some(offset)) => Some(
            LoudnormMeasurement {
                input_i: i,
                input_tp: tp,
                input_lra: lra,
                input_thresh: thresh,
                target_offset: offset,
            },
        ),
        _ => None,
    }
}

/// The last `{...}` block of a text.
pub fn last_json_block(s: &str) -> (r: Option<String>)
    ensures
        match r {
            Some(t) => last_block(s@) == Some(t@),
            None => last_block(s@) is None,
        },
{
    let chars = chars_of(s);
    let all = chars.len();
    assert(s@.take(all as int) =~= s@);
    match find_last(&chars, all, '}') {
        None => None,
        Some(end) => match find_last(&chars, end + 1, '{') {
            None => None,
            Some(start) => Some(text_of(&chars, start, end + 1)),
        },
    }
}

/// Pass 1: the loudness characteristics that ffmpeg printed.
///
/// Takes the **last** JSON block of stderr, avoiding any metadata JSON that ffmpeg might
/// print earlier.
pub fn measure_loudness(full_stderr: &str) -> (r: Option<LoudnormMeasurement>)
    ensures
        r == match last_block(full_stderr@) {
            None => None,
            Some(block) => match json::document_in_text(block) {
                None => None,
                Some(t) => measurement_in(t),
            },
        },
{
    match last_json_block(full_stderr) {
        None => None,
        Some(block) => match parse_text(block.as_str()) {
            None => None,
            Some(j) => measurement_from(&j),
        },
    }
}

} // verus!
