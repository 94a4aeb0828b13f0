//! The event log: human-readable lines the game systems push, of which the
//! newest hundred are kept.

use vstd::prelude::*;

use crate::console::{contains_text, has_infix};
use crate::text::chars_of;

verus! {

/// How many lines the log keeps.
pub const MAX_LOG_LINES: usize = 100;

/// One line of the log, optionally colored (8-bit red, green, blue).
#[derive(Clone, Debug, PartialEq, Eq)]
pub struct LogEntry {
    pub text: String,
    pub color: Option<(u8, u8, u8)>,
}

pub open spec fn entry_view(e: LogEntry) -> (Seq<char>, Option<(u8, u8, u8)>) {
    (e.text@, e.color)
}

pub open spec fn entries_view(v: Seq<LogEntry>) -> Seq<(Seq<char>, Option<(u8, u8, u8)>)> {
    v.map_values(|e: LogEntry| entry_view(e))
}

/// The lines after appending `e` to `lines`: the oldest one goes when there
/// would be more than the limit.
pub open spec fn appended(
    lines: Seq<(Seq<char>, Option<(u8, u8, u8)>)>,
    e: (Seq<char>, Option<(u8, u8, u8)>),
) -> Seq<(Seq<char>, Option<(u8, u8, u8)>)> {
    let all = lines.push(e);
    if all.len() > MAX_LOG_LINES {
        all.subrange(1, all.len() as int)
    } else {
        all
    }
}

/// The game's message log.
#[derive(Clone, Debug)]
pub struct EventLog {
    entries: Vec<LogEntry>,
}

impl EventLog {
    pub closed spec fn lines(&self) -> Seq<(Seq<char>, Option<(u8, u8, u8)>)> {
        entries_view(self.entries@)
    }

    pub closed spec fn wf(&self) -> bool {
        self.entries@.len() <= MAX_LOG_LINES
    }

    pub fn new() -> (log: EventLog)
        ensures
            log.wf(),
            log.lines() == Seq::<(Seq<char>, Option<(u8, u8, u8)>)>::empty(),
    {
        let log = EventLog { entries: Vec::new() };
        assert(log.lines() =~= Seq::<(Seq<char>, Option<(u8, u8, u8)>)>::empty());
        log
    }

    fn append(&mut self, entry: LogEntry)
        requires
            old(self).wf(),
        ensures
            final(self).wf(),
            final(self).lines() == appended(old(self).lines(), entry_view(entry)),
    {
        let ghost e = entry_view(entry);
        self.entries.push(entry);
        assert(entries_view(self.entries@) =~= entries_view(old(self).entries@).push(e));
        if self.entries.len() > MAX_LOG_LINES {
            let ghost before = self.entries@;
            self.entries.remove(0);
            assert(entries_view(self.entries@) =~= entries_view(before).subrange(1, before.len() as int));
        }
    }

    /// Appends an uncolored line.
    pub fn push(&mut self, message: String)
        requires
            old(self).wf(),
        ensures
            final(self).wf(),
            final(self).lines() == appended(old(self).lines(), (message@, None)),
    {
        self.append(LogEntry { text: message, color: None });
    }

    /// Appends a colored line.
    pub fn push_colored(&mut self, message: String, color: (u8, u8, u8))
        requires
            old(self).wf(),
        ensures
            final(self).wf(),
            final(self).lines() == appended(old(self).lines(), (message@, Some(color))),
    {
        self.append(LogEntry { text: message, color: Some(color) });
    }

    /// The lines, oldest first.
    pub fn entries(&self) -> (e: &[LogEntry])
        ensures
            entries_view(e@) == self.lines(),
    {
        self.entries.as_slice()
    }

    /// Whether some line contains `needle`.
    pub fn contains(&self, needle: &str) -> (b: bool)
        ensures
            b == exists|i: int| 0 <= i < self.lines().len() && has_infix(#[trigger] self.lines()[i].0, needle@),
    {
        let mut i: usize = 0;
        while i < self.entries.len()
            invariant
                i <= self.entries@.len(),
                forall|j: int| 0 <= j < i ==> !has_infix(#[trigger] self.lines()[j].0, needle@),
            decreases self.entries.len() - i,
        {
            let cs = chars_of(self.entries[i].text.as_str());
            if contains_text(&cs, needle) {
                assert(self.lines()[i as int].0 == cs@);
                return true;
            }
            assert(self.lines()[i as int].0 == cs@);
            i = i + 1;
        }
        false
    }
}

/// The log never holds more than its limit, and the newest line is the
/// one pushed last.
pub proof fn lemma_appended_keeps_newest(
    lines: Seq<(Seq<char>, Option<(u8, u8, u8)>)>,
    e: (Seq<char>, Option<(u8, u8, u8)>),
)
    requires
        lines.len() <= MAX_LOG_LINES,
    ensures
        appended(lines, e).len() <= MAX_LOG_LINES,
        appended(lines, e).last() == e,
        lines.len() < MAX_LOG_LINES ==> appended(lines, e) == lines.push(e),
{
}

} // verus!
