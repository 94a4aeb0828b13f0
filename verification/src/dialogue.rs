//! Authored speech written to the event log as a readable transcript:
//! a header naming the speaker, then one colored line per line of
//! dialogue.

use vstd::prelude::*;

use crate::event_log::{appended, EventLog};
use crate::text::{chars_of, is_whitespace, string_from_chars, unicode_whitespace};

verus! {

/// Who is speaking.
#[derive(Clone, Copy, Debug, PartialEq, Eq, Structural)]
pub enum DialogueSpeaker {
    Wizard,
    Sign,
    Memory,
    Narration,
}

pub open spec fn speaker_label(s: DialogueSpeaker) -> Seq<char> {
    match s {
        DialogueSpeaker::Wizard => "wizard"@,
        DialogueSpeaker::Sign => "sign"@,
        DialogueSpeaker::Memory => "memory"@,
        DialogueSpeaker::Narration => "system"@,
    }
}

/// The speaker's color: cyan for the wizard and signs, green for memories,
/// yellow for narration.
pub open spec fn speaker_accent(s: DialogueSpeaker) -> (u8, u8, u8) {
    match s {
        DialogueSpeaker::Wizard | DialogueSpeaker::Sign => (0, 255, 255),
        DialogueSpeaker::Memory => (0, 255, 0),
        DialogueSpeaker::Narration => (255, 255, 0),
    }
}

impl DialogueSpeaker {
    pub fn label(self) -> (s: &'static str)
        ensures
            s@ == speaker_label(self),
    {
        match self {
            DialogueSpeaker::Wizard => "wizard",
            DialogueSpeaker::Sign => "sign",
            DialogueSpeaker::Memory => "memory",
            DialogueSpeaker::Narration => "system",
        }
    }

    pub fn accent(self) -> (c: (u8, u8, u8))
        ensures
            c == speaker_accent(self),
    {
        match self {
            DialogueSpeaker::Wizard | DialogueSpeaker::Sign => crate::colors::cyan(),
            DialogueSpeaker::Memory => crate::colors::green(),
            DialogueSpeaker::Narration => crate::colors::yellow(),
        }
    }
}

/// How a line is presented.
#[derive(Clone, Copy, Debug, PartialEq, Eq, Structural)]
pub enum DialogueLineKind {
    Speech,
    Action,
    Hint,
    Code,
    Danger,
    Plain,
}

/// One line of dialogue.
#[derive(Clone, Debug, PartialEq, Eq)]
pub struct DialogueLine {
    pub kind: DialogueLineKind,
    pub text: String,
}

impl DialogueLine {
    pub fn speech(text: String) -> (l: DialogueLine)
        ensures
            l.kind == DialogueLineKind::Speech,
            l.text == text,
    {
        DialogueLine { kind: DialogueLineKind::Speech, text }
    }

    pub fn action(text: String) -> (l: DialogueLine)
        ensures
            l.kind == DialogueLineKind::Action,
            l.text == text,
    {
        DialogueLine { kind: DialogueLineKind::Action, text }
    }

    pub fn hint(text: String) -> (l: DialogueLine)
        ensures
            l.kind == DialogueLineKind::Hint,
            l.text == text,
    {
        DialogueLine { kind: DialogueLineKind::Hint, text }
    }

    pub fn code(text: String) -> (l: DialogueLine)
        ensures
            l.kind == DialogueLineKind::Code,
            l.text == text,
    {
        DialogueLine { kind: DialogueLineKind::Code, text }
    }

    pub fn danger(text: String) -> (l: DialogueLine)
        ensures
            l.kind == DialogueLineKind::Danger,
            l.text == text,
    {
        DialogueLine { kind: DialogueLineKind::Danger, text }
    }

    pub fn plain(text: String) -> (l: DialogueLine)
        ensures
            l.kind == DialogueLineKind::Plain,
            l.text == text,
    {
        DialogueLine { kind: DialogueLineKind::Plain, text }
    }
}

/// A speaker and what they say.
#[derive(Clone, Debug, PartialEq, Eq)]
pub struct Dialogue {
    pub speaker: DialogueSpeaker,
    pub lines: Vec<DialogueLine>,
}

/// How a line reads in the log: speech as `speaker: text`, actions as
/// `* text`, hints, code and warnings indented by two spaces, plain text as
/// is.
pub open spec fn formatted_line(speaker: DialogueSpeaker, l: DialogueLine) -> Seq<char> {
    match l.kind {
        DialogueLineKind::Speech => speaker_label(speaker) + ": "@ + l.text@,
        DialogueLineKind::Action => "* "@ + l.text@,
        DialogueLineKind::Hint | DialogueLineKind::Code | DialogueLineKind::Danger => "  "@ + l.text@,
        DialogueLineKind::Plain => l.text@,
    }
}

/// The color of a line: the speaker's for speech, actions and plain text,
/// green for hints and code, red for warnings.
pub open spec fn line_color(speaker: DialogueSpeaker, l: DialogueLine) -> (u8, u8, u8) {
    match l.kind {
        DialogueLineKind::Speech | DialogueLineKind::Action | DialogueLineKind::Plain => speaker_accent(speaker),
        DialogueLineKind::Hint | DialogueLineKind::Code => (0, 255, 0),
        DialogueLineKind::Danger => (255, 0, 0),
    }
}

pub open spec fn blank(t: Seq<char>) -> bool {
    forall|k: int| 0 <= k < t.len() ==> unicode_whitespace(#[trigger] t[k])
}

/// The log lines a dialogue adds: a gray `-- speaker --` header, then each
/// line formatted and colored, a blank line as an empty uncolored entry.
pub open spec fn transcript(d: Dialogue, n: int) -> Seq<(Seq<char>, Option<(u8, u8, u8)>)>
    decreases n,
{
    if n <= 0 {
        seq![("-- "@ + speaker_label(d.speaker) + " --"@, Some((169u8, 169u8, 169u8)))]
    } else {
        let l = d.lines@[n - 1];
        transcript(d, n - 1).push(if blank(l.text@) {
            (Seq::<char>::empty(), None)
        } else {
            (formatted_line(d.speaker, l), Some(line_color(d.speaker, l)))
        })
    }
}

/// The log after appending the entries `t[0..n]` one by one.
pub open spec fn log_after(log: Seq<(Seq<char>, Option<(u8, u8, u8)>)>, t: Seq<(Seq<char>, Option<(u8, u8, u8)>)>, n: int) -> Seq<(Seq<char>, Option<(u8, u8, u8)>)>
    decreases n,
{
    if n <= 0 {
        log
    } else {
        appended(log_after(log, t, n - 1), t[n - 1])
    }
}

fn concat_chars(parts: &Vec<&str>) -> (s: String)
    ensures
        s@ == parts_view(parts@, parts@.len() as int),
{
    let mut out: Vec<char> = Vec::new();
    let mut i: usize = 0;
    while i < parts.len()
        invariant
            i <= parts@.len(),
            out@ == parts_view(parts@, i as int),
        decreases parts.len() - i,
    {
        let cs = chars_of(parts[i]);
        let ghost before = out@;
        let mut k: usize = 0;
        while k < cs.len()
            invariant
                k <= cs@.len(),
                out@ == before + cs@.subrange(0, k as int),
            decreases cs.len() - k,
        {
            out.push(cs[k]);
            k = k + 1;
            assert(out@ =~= before + cs@.subrange(0, k as int));
        }
        assert(cs@.subrange(0, cs@.len() as int) =~= cs@);
        i = i + 1;
    }
    string_from_chars(out.as_slice())
}

/// The parts `p[0..n]` one after the other.
pub open spec fn parts_view(p: Seq<&str>, n: int) -> Seq<char>
    decreases n,
{
    if n <= 0 {
        seq![]
    } else {
        parts_view(p, n - 1) + p[n - 1]@
    }
}

pub(crate) fn is_blank(t: &str) -> (b: bool)
    ensures
        b == blank(t@),
{
    let cs = chars_of(t);
    let mut k: usize = 0;
    while k < cs.len()
        invariant
            k <= cs@.len(),
            cs@ == t@,
            forall|j: int| 0 <= j < k ==> unicode_whitespace(#[trigger] cs@[j]),
        decreases cs.len() - k,
    {
        if !is_whitespace(cs[k]) {
            return false;
        }
        k = k + 1;
    }
    true
}

impl Dialogue {
    pub fn new(speaker: DialogueSpeaker) -> (d: Dialogue)
        ensures
            d.speaker == speaker,
            d.lines@.len() == 0,
    {
        Dialogue { speaker, lines: Vec::new() }
    }

    /// The wizard saying each of the lines.
    pub fn wizard(lines: &[&str]) -> (d: Dialogue)
        ensures
            d.speaker == DialogueSpeaker::Wizard,
            d.lines@.len() == lines@.len(),
            forall|i: int| 0 <= i < lines@.len() ==> (#[trigger] d.lines@[i]).kind == DialogueLineKind::Speech
                && d.lines@[i].text@ == lines@[i]@,
    {
        Self::spoken(DialogueSpeaker::Wizard, lines)
    }

    /// The speaker saying each of the lines.
    pub fn spoken(speaker: DialogueSpeaker, lines: &[&str]) -> (d: Dialogue)
        ensures
            d.speaker == speaker,
            d.lines@.len() == lines@.len(),
            forall|i: int| 0 <= i < lines@.len() ==> (#[trigger] d.lines@[i]).kind == DialogueLineKind::Speech
                && d.lines@[i].text@ == lines@[i]@,
    {
        let mut v: Vec<DialogueLine> = Vec::new();
        let mut i: usize = 0;
        while i < lines.len()
            invariant
                i <= lines@.len(),
                v@.len() == i,
                forall|j: int| 0 <= j < i ==> (#[trigger] v@[j]).kind == DialogueLineKind::Speech && v@[j].text@
                    == lines@[j]@,
            decreases lines.len() - i,
        {
            v.push(DialogueLine::speech(lines[i].to_owned()));
            i = i + 1;
        }
        Dialogue { speaker, lines: v }
    }

    /// The speaker with the given lines.
    pub fn mixed(speaker: DialogueSpeaker, lines: Vec<DialogueLine>) -> (d: Dialogue)
        ensures
            d.speaker == speaker,
            d.lines == lines,
    {
        Dialogue { speaker, lines }
    }

    /// The dialogue with one more line at the end.
    pub fn line(self, line: DialogueLine) -> (d: Dialogue)
        ensures
            d.speaker == self.speaker,
            d.lines@ == self.lines@.push(line),
    {
        let mut d = self;
        d.lines.push(line);
        d
    }

    /// How a line reads in the log.
    pub fn format_line(&self, line: &DialogueLine) -> (s: String)
        ensures
            s@ == formatted_line(self.speaker, *line),
    {
        let parts: Vec<&str> = match line.kind {
            DialogueLineKind::Speech => vec![self.speaker.label(), ": ", line.text.as_str()],
            DialogueLineKind::Action => vec!["* ", line.text.as_str()],
            DialogueLineKind::Hint | DialogueLineKind::Code | DialogueLineKind::Danger => vec!["  ", line.text.as_str()],
            DialogueLineKind::Plain => vec![line.text.as_str()],
        };
        let s = concat_chars(&parts);
        proof {
            assert(parts_view(parts@, 0) == Seq::<char>::empty());
            assert(parts_view(parts@, 1) =~= parts@[0]@);
            if parts@.len() >= 2 {
                assert(parts_view(parts@, 2) =~= parts@[0]@ + parts@[1]@);
            }
            if parts@.len() == 3 {
                assert(parts_view(parts@, 3) =~= parts@[0]@ + parts@[1]@ + parts@[2]@);
            }
        }
        s
    }

    /// The color of a line.
    pub fn line_color(&self, line: &DialogueLine) -> (c: (u8, u8, u8))
        ensures
            c == line_color(self.speaker, *line),
    {
        match line.kind {
            DialogueLineKind::Speech | DialogueLineKind::Action | DialogueLineKind::Plain => self.speaker.accent(),
            DialogueLineKind::Hint | DialogueLineKind::Code => crate::colors::green(),
            DialogueLineKind::Danger => crate::colors::red(),
        }
    }

    /// Writes the transcript to the log.
    pub fn log(&self, event_log: &mut EventLog)
        requires
            old(event_log).wf(),
        ensures
            final(event_log).wf(),
            final(event_log).lines() == log_after(
                old(event_log).lines(),
                transcript(*self, self.lines@.len() as int),
                self.lines@.len() + 1int,
            ),
    {
        let ghost t = transcript(*self, self.lines@.len() as int);
        let header_parts: Vec<&str> = vec!["-- ", self.speaker.label(), " --"];
        let header = concat_chars(&header_parts);
        proof {
            assert(parts_view(header_parts@, 0) == Seq::<char>::empty());
            assert(parts_view(header_parts@, 1) =~= header_parts@[0]@);
            assert(parts_view(header_parts@, 2) =~= header_parts@[0]@ + header_parts@[1]@);
            assert(parts_view(header_parts@, 3) =~= "-- "@ + speaker_label(self.speaker) + " --"@);
        }
        event_log.push_colored(header, crate::colors::dark_gray());
        proof {
            lemma_transcript_prefix(*self, 0, self.lines@.len() as int);
            assert(log_after(old(event_log).lines(), t, 0) == old(event_log).lines());
        }
        let mut i: usize = 0;
        while i < self.lines.len()
            invariant
                i <= self.lines@.len(),
                event_log.wf(),
                t == transcript(*self, self.lines@.len() as int),
                event_log.lines() == log_after(old(event_log).lines(), t, i + 1),
            decreases self.lines.len() - i,
        {
            let line = &self.lines[i];
            proof {
                lemma_transcript_prefix(*self, i + 1, self.lines@.len() as int);
            }
            if is_blank(line.text.as_str()) {
                event_log.push(string_from_chars(Vec::new().as_slice()));
            } else {
                let text = self.format_line(line);
                let color = self.line_color(line);
                event_log.push_colored(text, color);
            }
            i = i + 1;
        }
    }
}

proof fn lemma_transcript_prefix(d: Dialogue, k: int, n: int)
    requires
        0 <= k <= n,
    ensures
        transcript(d, n).len() == n + 1,
        transcript(d, n)[k] == transcript(d, k).last(),
        transcript(d, k).len() == k + 1,
    decreases n,
{
    lemma_transcript_len(d, n);
    lemma_transcript_len(d, k);
    if k < n {
        lemma_transcript_prefix(d, k, n - 1);
        lemma_transcript_len(d, n - 1);
    }
}

proof fn lemma_transcript_len(d: Dialogue, n: int)
    requires
        0 <= n,
    ensures
        transcript(d, n).len() == n + 1,
    decreases n,
{
    if n > 0 {
        lemma_transcript_len(d, n - 1);
    }
}

/// What the wizard says, and whether the visit heals.
#[derive(Clone, Debug, PartialEq, Eq)]
pub struct WizardDialogue {
    pub dialogue: Dialogue,
    pub heals_player: bool,
}

impl WizardDialogue {
    pub fn healing_lines(lines: &[&str]) -> (w: WizardDialogue)
        ensures
            w.heals_player,
            w.dialogue.speaker == DialogueSpeaker::Wizard,
            w.dialogue.lines@.len() == lines@.len(),
            forall|i: int| 0 <= i < lines@.len() ==> (#[trigger] w.dialogue.lines@[i]).kind
                == DialogueLineKind::Speech && w.dialogue.lines@[i].text@ == lines@[i]@,
    {
        Self::healing(Dialogue::wizard(lines))
    }

    pub fn no_heal_lines(lines: &[&str]) -> (w: WizardDialogue)
        ensures
            !w.heals_player,
            w.dialogue.speaker == DialogueSpeaker::Wizard,
            w.dialogue.lines@.len() == lines@.len(),
            forall|i: int| 0 <= i < lines@.len() ==> (#[trigger] w.dialogue.lines@[i]).kind
                == DialogueLineKind::Speech && w.dialogue.lines@[i].text@ == lines@[i]@,
    {
        Self::no_heal(Dialogue::wizard(lines))
    }

    pub fn healing(dialogue: Dialogue) -> (w: WizardDialogue)
        ensures
            w.heals_player,
            w.dialogue == dialogue,
    {
        WizardDialogue { dialogue, heals_player: true }
    }

    pub fn no_heal(dialogue: Dialogue) -> (w: WizardDialogue)
        ensures
            !w.heals_player,
            w.dialogue == dialogue,
    {
        WizardDialogue { dialogue, heals_player: false }
    }
}

} // verus!
