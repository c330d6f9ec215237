//! Parsing progress blocks, and deciding what is shown of them.
//!
//! FFmpeg writes a block of `key=value` lines roughly twice a second, ending
//! each with `progress=continue`, and the last with `progress=end`. Two
//! promises are kept here:
//!
//! - **100 percent is reported exactly once**, and only for a job that
//!   succeeded. Values before that are held below it.
//! - **Updates are throttled**, and never go backwards.
use crate::text::{
    characters, copy, decimal_text, find, is_decimal, is_word, parse_i64, parsed_i64, position, trim, trimmed,
};
use vstd::prelude::*;

verus! {

/// The most often a progress update is forwarded, in microseconds.
pub const MIN_INTERVAL: u64 = 100_000;

/// Progress of one job: `part` of `whole`, equal only in the single final
/// update of a job that succeeded.
#[derive(Debug, PartialEq, Eq)]
pub struct Progress {
    pub part: u128,
    pub whole: u128,
    /// Encoding speed relative to real time, as FFmpeg wrote it.
    pub speed: Option<Vec<char>>,
}

/// One parsed progress block.
#[derive(Debug)]
pub struct ProgressBlock {
    /// Media time processed so far, in microseconds.
    pub out_time: Option<u64>,
    /// The speed as FFmpeg wrote it, without its trailing `x`.
    pub speed: Option<Vec<char>>,
    /// `progress=end` was seen.
    pub end: bool,
}

/// Accumulates progress lines into blocks.
#[derive(Debug)]
pub struct ProgressParser {
    pub out_time: Option<u64>,
    pub speed: Option<Vec<char>>,
}

impl Default for ProgressParser {
    fn default() -> (parser: Self)
        ensures
            parser.out_time is None,
            parser.speed is None,
    {
        ProgressParser { out_time: None, speed: None }
    }
}

/// `s` without the `x` characters at its end.
pub open spec fn without_x(s: Seq<char>) -> Seq<char>
    decreases s.len(),
{
    if s.len() > 0 && s.last() == 'x' {
        without_x(s.drop_last())
    } else {
        s
    }
}

/// What a line says: its name and its value, where it has an equals sign.
pub open spec fn line_key(line: Seq<char>) -> Seq<char> {
    trimmed(line).take(find(trimmed(line), '='))
}

/// The value of a line, without white space around it.
pub open spec fn line_value(line: Seq<char>) -> Seq<char> {
    trimmed(trimmed(line).skip(find(trimmed(line), '=') + 1))
}

/// Whether a line has a name and a value.
pub open spec fn is_field(line: Seq<char>) -> bool {
    find(trimmed(line), '=') < trimmed(line).len()
}

/// The media time a value stands for: nothing for a negative number, which
/// means "nothing yet".
pub open spec fn micros_of(n: i64) -> Option<u64> {
    if n >= 0 {
        Some(n as u64)
    } else {
        None
    }
}

/// The text of an optional list of characters.
pub open spec fn text_of(speed: Option<Vec<char>>) -> Option<Seq<char>> {
    match speed {
        Some(speed) => Some(speed@),
        None => None,
    }
}

/// `s` without the `x` characters at its end.
fn strip_x(s: &[char]) -> (rest: Vec<char>)
    ensures
        rest@ == without_x(s@),
{
    let mut end: usize = s.len();
    assert(s@.take(end as int) =~= s@);
    while end > 0 && s[end - 1] == 'x'
        invariant
            end <= s.len(),
            without_x(s@) == without_x(s@.take(end as int)),
        decreases end,
    {
        assert(s@.take(end as int).drop_last() =~= s@.take(end - 1));
        end = end - 1;
    }
    let rest: Vec<char> = copy(s, 0, end);
    assert(rest@ =~= s@.take(end as int));
    rest
}

/// A copy of an optional text.
fn copied(text: &Option<Vec<char>>) -> (copy_of: Option<Vec<char>>)
    ensures
        text_of(copy_of) == text_of(*text),
{
    match text {
        Some(text) => {
            let chars: Vec<char> = copy(text, 0, text.len());
            assert(chars@ =~= text@);
            Some(chars)
        },
        None => None,
    }
}

impl ProgressParser {
    /// Feed one line. Returns a block when the line closes one.
    ///
    /// Both time keys are in microseconds, despite the name of one; a value
    /// that is not a number leaves the time as it was. A speed that is not a
    /// number is no speed.
    pub fn line(&mut self, line: &str) -> (block: Option<ProgressBlock>)
        ensures
            ({
                let key = line_key(line@);
                let value = line_value(line@);
                let time = is_field(line@) && (key == "out_time_us"@ || key == "out_time_ms"@);
                let speed = is_field(line@) && !time && key == "speed"@;
                &&& block is Some == (is_field(line@) && !time && !speed && key == "progress"@)
                &&& block matches Some(block) ==> {
                    &&& block.out_time == old(self).out_time
                    &&& text_of(block.speed) == text_of(old(self).speed)
                    &&& block.end == (value == "end"@)
                }
                &&& final(self).out_time == (if time {
                    match parsed_i64(value) {
                        Some(micros) => micros_of(micros),
                        None => old(self).out_time,
                    }
                } else {
                    old(self).out_time
                })
                &&& text_of(final(self).speed) == (if speed {
                    if decimal_text(without_x(value)) {
                        Some(without_x(value))
                    } else {
                        None
                    }
                } else {
                    text_of(old(self).speed)
                })
            }),
    {
        let chars: Vec<char> = characters(line);
        let line: Vec<char> = trim(&chars);
        let at: usize = position(&line, '=');
        if at >= line.len() {
            return None;
        }
        let key: Vec<char> = copy(&line, 0, at);
        let rest: Vec<char> = copy(&line, at + 1, line.len());
        assert(key@ =~= line@.take(at as int));
        assert(rest@ =~= line@.skip(at + 1));
        let value: Vec<char> = trim(&rest);
        if is_word(&key, "out_time_us") || is_word(&key, "out_time_ms") {
            if let Some(micros) = parse_i64(&value) {
                self.out_time = if micros >= 0 {
                    Some(micros as u64)
                } else {
                    None
                };
            }
            return None;
        }
        if is_word(&key, "speed") {
            let speed: Vec<char> = strip_x(&value);
            self.speed = if is_decimal(&speed) {
                Some(speed)
            } else {
                None
            };
            return None;
        }
        if is_word(&key, "progress") {
            return Some(
                ProgressBlock {
                    out_time: self.out_time,
                    speed: copied(&self.speed),
                    end: is_word(&value, "end"),
                },
            );
        }
        None
    }
}

/// Turns blocks into the updates that are shown.
#[derive(Debug)]
pub struct ProgressReporter {
    /// The duration of the media, in microseconds.
    pub total: u64,
    /// When the last update was sent, in microseconds of a monotonic clock.
    pub last_sent: Option<u64>,
    /// The part last reported, in thousandths of microseconds of `total`.
    pub last_part: u128,
    pub finished: bool,
}

/// What is reported of `out_time` against `total`, in thousandths of a
/// microsecond: never above 999 thousandths of the total, and nothing where
/// either is unknown.
pub open spec fn part_of(out_time: Option<u64>, total: u64) -> int {
    match out_time {
        Some(out_time) => if out_time * 1000 <= total * 999 {
            out_time * 1000
        } else {
            total * 999
        },
        None => 0,
    }
}

/// What a reported part is a part of.
pub open spec fn whole_of(total: u64) -> int {
    if total == 0 {
        1
    } else {
        total * 1000
    }
}

impl ProgressReporter {
    /// What was reported last is a part of the whole, and short of it until
    /// the job has finished.
    pub open spec fn wf(&self) -> bool {
        if self.finished {
            self.last_part == whole_of(self.total)
        } else {
            self.last_part <= self.total * 999
        }
    }

    /// An update is due: none was sent yet, or the last one long enough ago.
    pub open spec fn due(&self, now: u64) -> bool {
        match self.last_sent {
            Some(last) => now - last >= MIN_INTERVAL,
            None => true,
        }
    }

    pub fn new(total: u64) -> (reporter: ProgressReporter)
        ensures
            reporter.wf(),
            reporter.total == total,
            reporter.last_sent is None,
            reporter.last_part == 0,
            !reporter.finished,
    {
        ProgressReporter { total, last_sent: None, last_part: 0, finished: false }
    }

    /// The update to forward for a block, if one is due: always short of the
    /// whole, and more than what was reported before, or the first.
    pub fn block(&mut self, block: &ProgressBlock, now: u64) -> (update: Option<Progress>)
        requires
            old(self).wf(),
        ensures
            final(self).wf(),
            final(self).total == old(self).total,
            final(self).finished == old(self).finished,
            ({
                let part = part_of(block.out_time, old(self).total);
                let sends = !old(self).finished && old(self).due(now) && (part
                    > old(self).last_part || old(self).last_sent is None);
                &&& update is Some == sends
                &&& !sends ==> *final(self) == *old(self)
                &&& sends ==> {
                    &&& final(self).last_sent == Some(now)
                    &&& final(self).last_part == crate::num::larger(
                        part,
                        old(self).last_part as int,
                    )
                    &&& update->0.part == final(self).last_part
                    &&& update->0.whole == whole_of(old(self).total)
                    &&& update->0.part < update->0.whole
                    &&& text_of(update->0.speed) == text_of(block.speed)
                }
            }),
    {
        if self.finished {
            return None;
        }
        let reached: u128 = self.part(block.out_time);
        let part: u128 = if reached > self.last_part {
            reached
        } else {
            self.last_part
        };
        let due = match self.last_sent {
            Some(last) => now >= last && now - last >= MIN_INTERVAL,
            None => true,
        };
        if !due || (part <= self.last_part && self.last_sent.is_some()) {
            return None;
        }
        self.last_sent = Some(now);
        self.last_part = part;
        Some(Progress { part, whole: self.whole(), speed: copied(&block.speed) })
    }

    /// The final update of a job that succeeded: the whole, exactly once.
    pub fn finish(&mut self) -> (update: Option<Progress>)
        requires
            old(self).wf(),
        ensures
            final(self).wf(),
            final(self).finished,
            final(self).total == old(self).total,
            final(self).last_sent == old(self).last_sent,
            update is Some == !old(self).finished,
            update matches Some(update) ==> update.part == update.whole && update.whole == whole_of(
                old(self).total,
            ) && update.speed is None,
    {
        if self.finished {
            return None;
        }
        self.finished = true;
        let whole: u128 = self.whole();
        self.last_part = whole;
        Some(Progress { part: whole, whole, speed: None })
    }

    fn whole(&self) -> (whole: u128)
        ensures
            whole == whole_of(self.total),
    {
        if self.total == 0 {
            1
        } else {
            self.total as u128 * 1000
        }
    }

    fn part(&self, out_time: Option<u64>) -> (part: u128)
        ensures
            part == part_of(out_time, self.total),
            part <= self.total * 999,
    {
        match out_time {
            Some(out_time) => {
                let exact: u128 = out_time as u128 * 1000;
                let most: u128 = self.total as u128 * 999;
                if exact <= most {
                    exact
                } else {
                    most
                }
            },
            None => 0,
        }
    }
}

/// A line is a key and its value: what stands before the first equals sign, and
/// what stands behind it, without white space round either end.
pub proof fn a_line_is_a_key_and_its_value(key: Seq<char>, value: Seq<char>)
    requires
        key.len() > 0,
        !crate::text::space(key[0]),
        forall|i: int| 0 <= i < key.len() ==> key[i] != '=',
        value.len() > 0,
        !crate::text::space(value[0]),
        !crate::text::space(value.last()),
    ensures
        ({
            let line = key + seq!['='] + value;
            is_field(line) && line_key(line) == key && line_value(line) == value
        }),
{
    let line = key + seq!['='] + value;
    assert(line[0] == key[0]);
    assert(line.last() == value.last());
    crate::text::lemma_trimmed_is(line);
    assert forall|j: int| 0 <= j < key.len() implies line[j] != '=' by {
        assert(line[j] == key[j]);
    }
    assert(line[key.len() as int] == '=');
    crate::text::lemma_find_is(line, '=', key.len() as int);
    assert(line.take(key.len() as int) =~= key);
    assert(line.skip(key.len() as int + 1) =~= value);
    crate::text::lemma_trimmed_is(value);
}

/// A speed is read without the letters x behind it.
pub proof fn a_speed_is_read_without_its_x(speed: Seq<char>, count: nat)
    requires
        speed.len() > 0 ==> speed.last() != 'x',
    ensures
        without_x(speed + Seq::new(count, |i: int| 'x')) == speed,
    decreases count,
{
    let whole = speed + Seq::new(count, |i: int| 'x');
    if count > 0 {
        a_speed_is_read_without_its_x(speed, (count - 1) as nat);
        assert(whole.last() == 'x');
        assert(whole.drop_last() =~= speed + Seq::new((count - 1) as nat, |i: int| 'x'));
    } else {
        assert(whole =~= speed);
    }
}

/// A part is told as it is, up to a thousandth before the whole: of so many
/// microseconds of all of them.
pub proof fn a_part_is_told_as_it_is(out_time: u64, total: u64)
    requires
        total > 0,
    ensures
        ({
            let (part, whole) = (part_of(Some(out_time), total), whole_of(total));
            &&& 1000 * out_time <= 999 * total ==> part * total == out_time * whole
            &&& 1000 * out_time > 999 * total ==> 1000 * part == 999 * whole
            &&& part < whole
            &&& part_of(None, total) == 0
        }),
{
    assert((out_time * 1000) * total == out_time * (total * 1000)) by (nonlinear_arith);
}

/// An update is due a tenth of a second behind the last, and the first is.
pub proof fn an_update_is_due_in_time(reporter: ProgressReporter, now: u64)
    ensures
        reporter.last_sent is None ==> reporter.due(now),
        reporter.last_sent matches Some(last) ==> (reporter.due(now) <==> now >= last + 100_000),
{
}

} // verus!
