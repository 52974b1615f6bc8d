//! A single task line: `- ` followed by the task's text.

use vstd::prelude::*;

use crate::text::{is_ws, trim, lemma_trim_id, lemma_trim_props};
use crate::util::TodoError;

verus! {

/// One task; it has no identity beyond its text.
#[derive(Clone, Debug, PartialEq, Eq)]
pub struct Task {
    pub text: String,
}

impl View for Task {
    type V = Seq<char>;

    open spec fn view(&self) -> Seq<char> {
        self.text@
    }
}

impl DeepView for Task {
    type V = Seq<char>;

    open spec fn deep_view(&self) -> Seq<char> {
        self.text@
    }
}

/// A marker character: what the parser strips from the front of a task line.
pub open spec fn is_marker(c: char) -> bool {
    c == '-' || c == ' ' || c == '\t'
}

/// The line without its leading run of marker characters.
pub open spec fn strip_marker(s: Seq<char>) -> Seq<char>
    decreases s.len(),
{
    if s.len() > 0 && is_marker(s[0]) {
        strip_marker(s.drop_first())
    } else {
        s
    }
}

/// The text of a task line: the trimmed line must start with the task marker;
/// the marker run is stripped and the rest kept verbatim.
pub open spec fn spec_parse_task(line: Seq<char>) -> Option<Seq<char>> {
    let t = trim(line);
    if t.len() > 0 && t[0] == '-' {
        Some(strip_marker(t))
    } else {
        None
    }
}

/// The serialized task line: the marker, one space, then the text; an empty
/// text gives the bare marker, so that no line ends in whitespace.
pub open spec fn spec_ser_task(text: Seq<char>) -> Seq<char> {
    if text.len() == 0 {
        seq!['-']
    } else {
        seq!['-', ' '] + text
    }
}

/// Task text that survives a serialize/parse round trip: one line, no marker
/// characters at the front and no whitespace at the back.
pub open spec fn task_wf(text: Seq<char>) -> bool {
    &&& !text.contains('\n')
    &&& text.len() > 0 ==> !is_marker(text[0])
    &&& text.len() > 0 ==> !is_ws(text.last())
}

impl Task {
    /// Parses one task line; fails unless the first non-whitespace character
    /// is the task marker.
    pub fn from_str(s: &str) -> (r: Result<Task, TodoError>)
        ensures
            match r {
                Ok(task) => spec_parse_task(s@) == Some(task@),
                Err(e) => spec_parse_task(s@) is None && e == TodoError::MalformedTask,
            },
    {
        let t = crate::text::trim_str(s);
        let n = t.unicode_len();
        if n == 0 || t.get_char(0) != '-' {
            return Err(TodoError::MalformedTask);
        }
        let mut i: usize = 0;
        proof {
            assert(t@.subrange(0, n as int) =~= t@);
        }
        while i < n && (t.get_char(i) == '-' || t.get_char(i) == ' ' || t.get_char(i) == '\t')
            invariant
                0 <= i <= n,
                n == t@.len(),
                strip_marker(t@) == strip_marker(t@.subrange(i as int, n as int)),
            decreases n - i,
        {
            proof {
                let cur = t@.subrange(i as int, n as int);
                assert(cur.drop_first() =~= t@.subrange(i + 1, n as int));
            }
            i = i + 1;
        }
        let rest = t.substring_char(i, n);
        proof {
            let cur = t@.subrange(i as int, n as int);
            assert(strip_marker(cur) == cur);
        }
        Ok(Task { text: String::from_str(rest) })
    }

    /// The serialized line: the marker, one space, then the text; the bare
    /// marker when the text is empty.
    pub fn serialize(&self) -> (r: String)
        ensures
            r@ == spec_ser_task(self@),
    {
        let mut r = String::new();
        r.append("-");
        if !self.text.as_str().is_empty() {
            r.append(" ");
            r.append(self.text.as_str());
        }
        proof {
            reveal_strlit("-");
            reveal_strlit(" ");
            assert(r@ =~= spec_ser_task(self@));
        }
        r
    }

    /// A fresh task with the same text.
    pub fn duplicate(&self) -> (r: Task)
        ensures
            r@ == self@,
    {
        Task { text: self.text.clone() }
    }
}

/// What the parser hands back is round-trip-safe text.
pub proof fn lemma_parse_task_wf(line: Seq<char>)
    requires
        !line.contains('\n'),
        spec_parse_task(line) is Some,
    ensures
        task_wf(spec_parse_task(line)->Some_0),
{
    let t = trim(line);
    lemma_trim_props(line);
    let r = strip_marker(t);
    lemma_strip_marker_props(t);
    if r.contains('\n') {
        assert(t.contains('\n'));
        crate::text::lemma_trim_contains(line, '\n');
    }
    if r.len() > 0 {
        assert(r.last() == t.last());
    }
}

/// The stripped line: a suffix of the line whose first character, if any, is
/// not a marker character.
pub proof fn lemma_strip_marker_props(s: Seq<char>)
    ensures
        strip_marker(s).len() <= s.len(),
        strip_marker(s).len() > 0 ==> !is_marker(strip_marker(s)[0]),
        strip_marker(s).len() > 0 ==> strip_marker(s).last() == s.last(),
        forall|c: char| s.contains(c) || !strip_marker(s).contains(c),
    decreases s.len(),
{
    if s.len() > 0 && is_marker(s[0]) {
        lemma_strip_marker_props(s.drop_first());
        assert(s.drop_first().len() > 0 ==> s.drop_first().last() == s.last());
        assert forall|c: char| s.contains(c) || !strip_marker(s).contains(c) by {
            if strip_marker(s).contains(c) {
                assert(s.drop_first().contains(c) || !strip_marker(s.drop_first()).contains(c));
                if s.drop_first().contains(c) {
                    let i = choose|i: int|
                        0 <= i < s.drop_first().len() && s.drop_first()[i] == c;
                    assert(s[i + 1] == c);
                }
            }
        }
    }
}

/// Round trip: parsing the serialized line of well-formed task text gives the
/// text back.
pub proof fn lemma_task_round_trip(text: Seq<char>)
    requires
        task_wf(text),
    ensures
        spec_parse_task(spec_ser_task(text)) == Some(text),
{
    let l = spec_ser_task(text);
    if text.len() == 0 {
        lemma_trim_id(l);
        assert(trim(l) == l);
        let e = Seq::<char>::empty();
        assert(l.drop_first() =~= e);
        assert(strip_marker(e) == e);
        assert(strip_marker(l) == e);
        assert(text =~= e);
    } else {
        assert(l[0] == '-');
        assert(l.last() == text.last());
        lemma_trim_id(l);
        assert(trim(l) == l);
        let l1 = l.drop_first();
        assert(l1 =~= seq![' '] + text);
        let l2 = l1.drop_first();
        assert(l2 =~= text);
        assert(strip_marker(l) == strip_marker(l1));
        assert(strip_marker(l1) == strip_marker(text));
        assert(strip_marker(text) == text);
    }
}

/// Serializing a parsed task line gives a line that parses back to the same
/// task: the marker is normalized to `- ` and outer whitespace elided.
pub proof fn lemma_task_normalization(line: Seq<char>)
    requires
        !line.contains('\n'),
        spec_parse_task(line) is Some,
    ensures
        spec_parse_task(spec_ser_task(spec_parse_task(line)->Some_0)) == spec_parse_task(line),
{
    lemma_parse_task_wf(line);
    lemma_task_round_trip(spec_parse_task(line)->Some_0);
}

} // verus!
