//! What the client tells the user: the last lines of its log.
use vstd::prelude::*;
use vstd::string::*;
use std::collections::VecDeque;
use crate::text::{take_chars, views};
use crate::time::{clock_text, format_clock, Timestamp};

verus! {

/// The last lines of a log, at most as many as its capacity.
#[derive(Debug)]
pub struct LogBuffer {
    lines: VecDeque<String>,
    capacity: usize,
}

/// The lines of a log and how many it keeps.
#[verifier::ext_equal]
pub struct LogContent {
    pub lines: Seq<Seq<char>>,
    pub capacity: usize,
}

impl View for LogBuffer {
    type V = LogContent;

    closed spec fn view(&self) -> LogContent {
        LogContent { lines: views(self.lines@), capacity: self.capacity }
    }
}

/// A line with the time of day before it.
pub open spec fn stamped(line: Seq<char>, now: Timestamp) -> Seq<char> {
    clock_text(now) + " "@ + line
}

/// The log with a line behind the others; the oldest makes room for it where the
/// log is full.
pub open spec fn logged(log: LogContent, line: Seq<char>) -> LogContent {
    let kept = if log.lines.len() == log.capacity && log.lines.len() > 0 {
        log.lines.drop_first()
    } else {
        log.lines
    };
    LogContent { lines: kept.push(line), ..log }
}

impl LogBuffer {
    /// An empty log.
    pub fn new(capacity: usize) -> (log: LogBuffer)
        ensures
            log@ == (LogContent { lines: Seq::empty(), capacity }),
    {
        let log = LogBuffer { lines: VecDeque::new(), capacity };
        proof {
            assert(log@.lines =~= Seq::<Seq<char>>::empty());
        }
        log
    }

    /// Adds a line with the time of day.
    pub fn push(&mut self, line: &str, now: Timestamp)
        requires
            now.valid(),
        ensures
            final(self)@ == logged(old(self)@, stamped(line@, now)),
    {
        let ghost before = self@;
        let mut text = format_clock(now);
        text.append(" ");
        text.append(line);
        if self.lines.len() == self.capacity {
            self.lines.pop_front();
        }
        self.lines.push_back(text);
        proof {
            assert(self@ =~= logged(before, stamped(line@, now)));
        }
    }

    /// The lines, the oldest first.
    pub fn lines(&self) -> (lines: Vec<String>)
        ensures
            views(lines@) == self@.lines,
    {
        let mut lines: Vec<String> = Vec::new();
        for i in 0..self.lines.len()
            invariant
                views(lines@) == self@.lines.take(i as int),
        {
            let ghost earlier = lines@;
            lines.push(self.lines[i].clone());
            proof {
                assert(views(lines@) =~= views(earlier).push(self@.lines[i as int]));
                assert(self@.lines.take(i + 1) =~= self@.lines.take(i as int).push(
                    self@.lines[i as int],
                ));
            }
        }
        proof {
            assert(self@.lines.take(self@.lines.len() as int) =~= self@.lines);
        }
        lines
    }
}

/// A log never grows beyond its capacity.
pub proof fn law_log_is_bounded(log: LogContent, line: Seq<char>)
    requires
        log.capacity > 0,
        log.lines.len() <= log.capacity,
    ensures
        logged(log, line).lines.len() <= log.capacity,
        logged(log, line).lines.last() == line,
{
}

/// The lines that there is room for in a panel with a frame: the last of them.
pub open spec fn visible(lines: Seq<Seq<char>>, height: nat) -> Seq<Seq<char>> {
    let room = if height >= 2 {
        height - 2
    } else {
        0
    };
    if lines.len() <= room {
        lines
    } else {
        lines.skip(lines.len() - room)
    }
}

/// Picks the lines that there is room for.
pub fn visible_lines(lines: &Vec<String>, height: u16) -> (shown: Vec<String>)
    ensures
        views(shown@) == visible(views(lines@), height as nat),
{
    let room: usize = if height >= 2 {
        (height - 2) as usize
    } else {
        0
    };
    let start = if lines.len() <= room {
        0
    } else {
        lines.len() - room
    };
    let ghost wanted = views(lines@).skip(start as int);
    let mut shown: Vec<String> = Vec::new();
    let mut i: usize = start;
    while i < lines.len()
        invariant
            start <= i <= lines@.len(),
            wanted == views(lines@).skip(start as int),
            views(shown@) == wanted.take(i - start),
        decreases lines.len() - i,
    {
        let ghost earlier = shown@;
        shown.push(lines[i].clone());
        proof {
            assert(views(shown@) =~= views(earlier).push(lines@[i as int]@));
            assert(wanted.take(i - start + 1) =~= wanted.take(i - start).push(wanted[i - start]));
        }
        i = i + 1;
    }
    proof {
        assert(wanted.take(wanted.len() as int) =~= wanted);
        assert(wanted =~= visible(views(lines@), height as nat));
    }
    shown
}

/// A text of at most 96 characters, or the first 96 with an ellipsis.
pub open spec fn truncated(text: Seq<char>) -> Seq<char> {
    if text.len() <= 96 {
        text
    } else {
        text.take(96) + "..."@
    }
}

/// Shortens a text for the log.
pub fn truncate_for_log(text: &str) -> (out: String)
    ensures
        out@ == truncated(text@),
{
    if text.unicode_len() <= 96 {
        return text.to_owned();
    }
    let mut out = take_chars(text, 96);
    out.append("...");
    out
}

/// A log keeps its last lines: a new line comes last, and only where the log is
/// full the first is lost.
pub proof fn law_log_keeps_the_last_lines(log: LogContent, line: Seq<char>)
    requires
        log.capacity > 0,
        log.lines.len() <= log.capacity,
    ensures
        logged(log, line).capacity == log.capacity,
        log.lines.len() < log.capacity ==> logged(log, line).lines == log.lines.push(line),
        log.lines.len() == log.capacity ==> logged(log, line).lines == log.lines.push(line).skip(1),
{
    if log.lines.len() == log.capacity {
        assert(log.lines.drop_first().push(line) =~= log.lines.push(line).skip(1));
    }
}

/// A line of the log ends with what was said and starts with when.
pub proof fn law_line_has_its_time(line: Seq<char>, now: Timestamp)
    ensures
        stamped(line, now).take(clock_text(now).len() as int) == clock_text(now),
        stamped(line, now).skip(clock_text(now).len() as int) == seq![' '] + line,
{
    reveal_strlit(" ");
    assert(stamped(line, now).take(clock_text(now).len() as int) =~= clock_text(now));
    assert(stamped(line, now).skip(clock_text(now).len() as int) =~= seq![' '] + line);
}

/// A panel shows the last lines, as many as there is room for inside its frame.
pub proof fn law_last_lines_are_visible(lines: Seq<Seq<char>>, height: nat, i: int)
    requires
        0 <= i < lines.len(),
    ensures
        visible(lines, height).len() <= lines.len(),
        height >= 2 ==> visible(lines, height).len() <= height - 2,
        height < 2 ==> visible(lines, height).len() == 0,
        lines.len() - i <= height - 2 ==> visible(lines, height).len() >= lines.len() - i
            && visible(lines, height)[visible(lines, height).len() - (lines.len() - i)] == lines[i],
{
}

/// A short text stands in the log as it is, and of a long one the first 96
/// characters and three periods.
pub proof fn law_long_texts_are_cut(text: Seq<char>)
    ensures
        text.len() <= 96 ==> truncated(text) == text,
        text.len() > 96 ==> truncated(text).len() == 99 && truncated(text).take(96) == text.take(96)
            && truncated(text).skip(96) == seq!['.', '.', '.'],
{
    reveal_strlit("...");
    if text.len() > 96 {
        assert(truncated(text).take(96) =~= text.take(96));
        assert(truncated(text).skip(96) =~= seq!['.', '.', '.']);
    }
}

} // verus!
