//! A named (or anonymous) block of tasks, and the scanner that segments a
//! day's lines into section blocks.

use vstd::prelude::*;

use crate::scan::{
    find_from, normalize_block, scan_from, lemma_normalize_id, lemma_normalize_with_sep,
    normalize_vec,
};
use crate::task::{
    spec_parse_task, spec_ser_task, task_wf, lemma_parse_task_wf, lemma_task_round_trip, Task,
};
use crate::text::{is_blank, is_ws, lines_of, trim, lemma_trim_props};
use crate::util::TodoError;

verus! {

/// The mathematical shape of a section: its name and its tasks' texts.
#[verifier::ext_equal]
pub ghost struct SectionV {
    pub name: Seq<char>,
    pub tasks: Seq<Seq<char>>,
}

/// A named grouping of tasks within a day; the empty name denotes the
/// anonymous section, whose first line is itself a task.
#[derive(Clone, Debug, PartialEq, Eq)]
pub struct Section {
    pub name: String,
    pub tasks: Vec<Task>,
}

impl View for Section {
    type V = SectionV;

    open spec fn view(&self) -> SectionV {
        SectionV { name: self.name@, tasks: self.tasks.deep_view() }
    }
}

impl DeepView for Section {
    type V = SectionV;

    open spec fn deep_view(&self) -> SectionV {
        self.view()
    }
}

/// A line opens a section block: after trimming it is non-empty and its first
/// character is not the date bracket (a task line opens an anonymous section
/// block).
pub open spec fn spec_is_section_start(l: Seq<char>) -> bool {
    trim(l).len() > 0 && trim(l)[0] != '['
}

/// A line closes the running section block: after trimming it is non-empty and
/// its first character is neither the task marker nor the date bracket (a name
/// line; task, blank and date lines do not end a section).
pub open spec fn spec_is_section_end(l: Seq<char>) -> bool {
    trim(l).len() > 0 && trim(l)[0] != '[' && trim(l)[0] != '-'
}

pub open spec fn sec_start_p() -> spec_fn(Seq<char>) -> bool {
    |l: Seq<char>| spec_is_section_start(l)
}

pub open spec fn sec_end_p() -> spec_fn(Seq<char>) -> bool {
    |l: Seq<char>| spec_is_section_end(l)
}

/// Whether this line opens a section block.
pub fn is_section_start(line: &str) -> (r: bool)
    ensures
        r == spec_is_section_start(line@),
{
    let t = crate::text::trim_str(line);
    if t.unicode_len() == 0 {
        false
    } else {
        t.get_char(0) != '['
    }
}

/// Whether this line closes the running section block.
pub fn is_section_end(line: &str) -> (r: bool)
    ensures
        r == spec_is_section_end(line@),
{
    let t = crate::text::trim_str(line);
    if t.unicode_len() == 0 {
        false
    } else {
        let c = t.get_char(0);
        c != '[' && c != '-'
    }
}

/// Every line parsed as a task, in order; the first failure fails the lot.
pub open spec fn parse_tasks(ls: Seq<Seq<char>>) -> Result<Seq<Seq<char>>, TodoError>
    decreases ls.len(),
{
    if ls.len() == 0 {
        Ok(Seq::empty())
    } else {
        match spec_parse_task(ls[0]) {
            None => Err(TodoError::MalformedTask),
            Some(t) => match parse_tasks(ls.drop_first()) {
                Ok(rest) => Ok(seq![t] + rest),
                Err(e) => Err(e),
            },
        }
    }
}

/// One normalized block as a section: a first task line makes an anonymous
/// section of task lines only; otherwise the trimmed first line is the name
/// and every further line must be a task.
pub open spec fn spec_parse_section_lines(b: Seq<Seq<char>>) -> Result<SectionV, TodoError> {
    if b.len() == 0 {
        Err(TodoError::MalformedTask)
    } else {
        let first = trim(b[0]);
        if first.len() > 0 && first[0] == '-' {
            match parse_tasks(b) {
                Ok(ts) => Ok(SectionV { name: Seq::empty(), tasks: ts }),
                Err(e) => Err(e),
            }
        } else {
            match parse_tasks(b.drop_first()) {
                Ok(ts) => Ok(SectionV { name: first, tasks: ts }),
                Err(e) => Err(e),
            }
        }
    }
}

/// What parsing a whole section text means: trim, split into lines, normalize
/// the block, parse it.
pub open spec fn spec_parse_section_str(s: Seq<char>) -> Result<SectionV, TodoError> {
    spec_parse_section_lines(normalize_block(lines_of(trim(s))))
}

/// The serialized lines: the name line, if the section has a name, then one
/// line per task.
pub open spec fn ser_section_lines(s: SectionV) -> Seq<Seq<char>> {
    let task_lines = s.tasks.map_values(|t: Seq<char>| spec_ser_task(t));
    if s.name.len() == 0 {
        task_lines
    } else {
        seq![s.name] + task_lines
    }
}

/// The serialized section text: its lines joined by newlines.
pub open spec fn spec_ser_section_str(s: SectionV) -> Seq<char> {
    crate::text::join_with(ser_section_lines(s), seq!['\n'])
}

/// A section that survives a serialize/parse round trip: the name is one
/// trimmed line that no scanner mistakes for a task or a date, and an
/// anonymous section has at least one task.
pub open spec fn section_wf(s: SectionV) -> bool {
    &&& s.name == trim(s.name)
    &&& !s.name.contains('\n')
    &&& (s.name.len() > 0 ==> s.name[0] != '-' && s.name[0] != '[')
    &&& (s.name.len() == 0 ==> s.tasks.len() > 0)
    &&& forall|i: int| 0 <= i < s.tasks.len() ==> task_wf(#[trigger] s.tasks[i])
}

impl Section {
    /// A fresh section of that name with no tasks.
    pub fn new(name: &str) -> (r: Section)
        ensures
            r@.name == name@,
            r@.tasks == Seq::<Seq<char>>::empty(),
    {
        let r = Section { name: String::from_str(name), tasks: Vec::new() };
        proof {
            assert(r@.tasks =~= Seq::<Seq<char>>::empty());
        }
        r
    }

    /// A fresh section with the same name and tasks.
    pub fn duplicate(&self) -> (r: Section)
        ensures
            r@ == self@,
    {
        let mut tasks: Vec<Task> = Vec::new();
        let mut i: usize = 0;
        while i < self.tasks.len()
            invariant
                0 <= i <= self.tasks.len(),
                tasks.deep_view() == self.tasks.deep_view().subrange(0, i as int),
            decreases self.tasks.len() - i,
        {
            let ghost pre = tasks.deep_view();
            tasks.push(self.tasks[i].duplicate());
            proof {
                assert(tasks.deep_view() =~= pre.push(self.tasks.deep_view()[i as int]));
                assert(tasks.deep_view() =~= self.tasks.deep_view().subrange(0, i + 1));
            }
            i = i + 1;
        }
        let r = Section { name: self.name.clone(), tasks };
        proof {
            assert(r.tasks.deep_view() =~= self.tasks.deep_view());
            assert(r@ =~= self@);
        }
        r
    }

    /// Parses one normalized block of lines as a section.
    pub fn from_lines(b: &Vec<String>) -> (r: Result<Section, TodoError>)
        ensures
            match r {
                Ok(sec) => spec_parse_section_lines(b.deep_view()) == Ok::<SectionV, TodoError>(
                    sec@,
                ),
                Err(e) => spec_parse_section_lines(b.deep_view()) == Err::<SectionV, TodoError>(
                    e,
                ),
            },
    {
        let ghost bv = b.deep_view();
        if b.len() == 0 {
            return Err(TodoError::MalformedTask);
        }
        let first = crate::text::trim_str(b[0].as_str());
        let anonymous = first.unicode_len() > 0 && first.get_char(0) == '-';
        let ghost tl: Seq<Seq<char>> = if anonymous {
            bv
        } else {
            bv.drop_first()
        };
        let ghost off: int = if anonymous {
            0
        } else {
            1
        };
        let mut tasks: Vec<Task> = Vec::new();
        let mut i: usize = if anonymous {
            0
        } else {
            1
        };
        proof {
            assert(tl.subrange(i - off, tl.len() as int) =~= tl);
            assert(tasks.deep_view() =~= Seq::<Seq<char>>::empty());
        }
        while i < b.len()
            invariant
                off <= i <= b.len(),
                bv == b.deep_view(),
                tl == if anonymous {
                    bv
                } else {
                    bv.drop_first()
                },
                off == if anonymous {
                    0int
                } else {
                    1int
                },
                tl.len() == bv.len() - off,
                match parse_tasks(tl.subrange(i - off, tl.len() as int)) {
                    Ok(r) => parse_tasks(tl) == Ok::<_, TodoError>(tasks.deep_view() + r),
                    Err(e) => parse_tasks(tl) == Err::<Seq<Seq<char>>, _>(e),
                },
            decreases b.len() - i,
        {
            let ghost rest = tl.subrange(i - off, tl.len() as int);
            proof {
                assert(rest[0] == tl[i - off]);
                assert(tl[i - off] == bv[i as int]);
                assert(rest.drop_first() =~= tl.subrange(i + 1 - off, tl.len() as int));
            }
            match Task::from_str(b[i].as_str()) {
                Ok(t) => {
                    let ghost pre = tasks.deep_view();
                    tasks.push(t);
                    proof {
                        assert(tasks.deep_view() =~= pre.push(t@));
                        let sub = tl.subrange(i + 1 - off, tl.len() as int);
                        if let Ok(r) = parse_tasks(sub) {
                            assert(pre + (seq![t@] + r) =~= tasks.deep_view() + r);
                        }
                    }
                },
                Err(e) => {
                    return Err(e);
                },
            }
            i = i + 1;
        }
        proof {
            assert(tl.subrange(tl.len() as int, tl.len() as int) =~= Seq::<Seq<char>>::empty());
            assert(parse_tasks(tl) == Ok::<_, TodoError>(
                tasks.deep_view() + Seq::<Seq<char>>::empty(),
            ));
            assert(tasks.deep_view() + Seq::<Seq<char>>::empty() =~= tasks.deep_view());
        }
        let name = if anonymous {
            String::new()
        } else {
            String::from_str(first)
        };
        let r = Section { name, tasks };
        proof {
            if anonymous {
                assert(r@ =~= SectionV { name: Seq::empty(), tasks: r.tasks.deep_view() });
            }
        }
        Ok(r)
    }

    /// Parses one section text: the first line is the name unless it is a task
    /// line; every further line must be a task.
    pub fn from_str(s: &str) -> (r: Result<Section, TodoError>)
        ensures
            match r {
                Ok(sec) => spec_parse_section_str(s@) == Ok::<SectionV, TodoError>(sec@),
                Err(e) => spec_parse_section_str(s@) == Err::<SectionV, TodoError>(e),
            },
    {
        let t = crate::text::trim_str(s);
        let lines = crate::text::split_lines(t);
        let b = normalize_vec(lines);
        Section::from_lines(&b)
    }

    /// The serialized lines: the name line, if any, then one line per task.
    pub fn lines(&self) -> (r: Vec<String>)
        ensures
            r.deep_view() == ser_section_lines(self@),
    {
        let mut r: Vec<String> = Vec::new();
        if !self.name.as_str().is_empty() {
            r.push(self.name.clone());
        }
        let ghost head: Seq<Seq<char>> = if self.name@.len() == 0 {
            Seq::empty()
        } else {
            seq![self.name@]
        };
        proof {
            assert(r.deep_view() =~= head);
        }
        let ghost tlines = self@.tasks.map_values(|t: Seq<char>| spec_ser_task(t));
        let mut i: usize = 0;
        while i < self.tasks.len()
            invariant
                0 <= i <= self.tasks.len(),
                tlines == self@.tasks.map_values(|t: Seq<char>| spec_ser_task(t)),
                head == if self.name@.len() == 0 {
                    Seq::<Seq<char>>::empty()
                } else {
                    seq![self.name@]
                },
                r.deep_view() == head + tlines.subrange(0, i as int),
            decreases self.tasks.len() - i,
        {
            let ghost pre = r.deep_view();
            r.push(self.tasks[i].serialize());
            proof {
                assert(r.deep_view() =~= pre.push(tlines[i as int]));
                assert(r.deep_view() =~= head + tlines.subrange(0, i + 1));
            }
            i = i + 1;
        }
        proof {
            assert(tlines.subrange(0, tlines.len() as int) =~= tlines);
            assert(head + tlines =~= ser_section_lines(self@));
        }
        r
    }

    /// The serialized section text: its lines joined by newlines.
    pub fn serialize(&self) -> (r: String)
        ensures
            r@ == spec_ser_section_str(self@),
    {
        let lines = self.lines();
        let r = crate::text::join_strings(&lines, "\n");
        proof {
            reveal_strlit("\n");
            assert("\n"@ =~= seq!['\n']);
        }
        r
    }
}

/// Parsing the serialized lines of well-formed tasks gives the tasks back.
pub proof fn lemma_parse_tasks_of_ser(tasks: Seq<Seq<char>>)
    requires
        forall|i: int| 0 <= i < tasks.len() ==> task_wf(#[trigger] tasks[i]),
    ensures
        parse_tasks(tasks.map_values(|t: Seq<char>| spec_ser_task(t))) == Ok::<
            Seq<Seq<char>>,
            TodoError,
        >(tasks),
    decreases tasks.len(),
{
    let ml = tasks.map_values(|t: Seq<char>| spec_ser_task(t));
    if tasks.len() == 0 {
        assert(ml.len() == 0);
        assert(tasks =~= Seq::<Seq<char>>::empty());
    } else {
        assert(ml[0] == spec_ser_task(tasks[0]));
        lemma_task_round_trip(tasks[0]);
        let dt = tasks.drop_first();
        lemma_parse_tasks_of_ser(dt);
        assert(ml.drop_first() =~= dt.map_values(|t: Seq<char>| spec_ser_task(t)));
        assert(seq![tasks[0]] + dt =~= tasks);
    }
}

/// A parsed task list has one task per line, each round-trip-safe.
pub proof fn lemma_parse_tasks_wf(ls: Seq<Seq<char>>)
    requires
        forall|i: int| 0 <= i < ls.len() ==> !(#[trigger] ls[i]).contains('\n'),
        parse_tasks(ls) is Ok,
    ensures
        parse_tasks(ls)->Ok_0.len() == ls.len(),
        forall|i: int|
            0 <= i < ls.len() ==> task_wf(#[trigger] parse_tasks(ls)->Ok_0[i]),
    decreases ls.len(),
{
    if ls.len() == 0 {
    } else {
        lemma_parse_task_wf(ls[0]);
        assert(forall|i: int|
            0 <= i < ls.drop_first().len() ==> !(#[trigger] ls.drop_first()[i]).contains('\n'));
        lemma_parse_tasks_wf(ls.drop_first());
        let t = spec_parse_task(ls[0])->Some_0;
        let rest = parse_tasks(ls.drop_first())->Ok_0;
        assert(parse_tasks(ls)->Ok_0 == seq![t] + rest);
    }
}

/// The serialized lines of a well-formed section are clean: non-blank, free of
/// newlines, trimmed at the block's edges, the first line opens a block, no
/// later line closes one, and no line looks like a date line.
pub proof fn lemma_ser_section_clean(s: SectionV)
    requires
        section_wf(s),
    ensures
        ({
            let b = ser_section_lines(s);
            &&& b.len() > 0
            &&& b[0].len() > 0 && !is_ws(b[0][0])
            &&& b.last().len() > 0 && !is_ws(b.last().last())
            &&& spec_is_section_start(b[0])
            &&& (s.name.len() > 0 ==> spec_is_section_end(b[0]))
            &&& forall|j: int| 1 <= j < b.len() ==> !spec_is_section_end(#[trigger] b[j])
            &&& forall|j: int| 0 <= j < b.len() ==> !(#[trigger] b[j]).contains('\n')
            &&& forall|j: int| 0 <= j < b.len() ==> !is_blank(#[trigger] b[j])
            &&& forall|j: int|
                0 <= j < b.len() ==> trim(#[trigger] b[j]).len() > 0 && trim(b[j])[0] != '['
        }),
{
    let b = ser_section_lines(s);
    let ml = s.tasks.map_values(|t: Seq<char>| spec_ser_task(t));
    assert forall|i: int| 0 <= i < ml.len() implies (#[trigger] ml[i]).len() > 0 && ml[i][0]
        == '-' && !is_ws(ml[i].last()) && !ml[i].contains('\n') && trim(ml[i]) == ml[i] by {
        let t = s.tasks[i];
        assert(ml[i] == spec_ser_task(t));
        if t.len() == 0 {
            assert(ml[i] =~= seq!['-']);
        } else {
            assert(ml[i].last() == t.last());
            if ml[i].contains('\n') {
                let j = choose|j: int| 0 <= j < ml[i].len() && ml[i][j] == '\n';
                assert(j >= 2);
                assert(t[j - 2] == '\n');
                assert(t.contains('\n'));
            }
        }
        crate::text::lemma_trim_id(ml[i]);
    }
    if s.name.len() > 0 {
        lemma_trim_props(s.name);
        assert(!is_ws(s.name[0]));
        assert(!is_ws(s.name.last()));
        assert(b[0] == s.name);
        assert(!is_blank(s.name)) by {
            assert(is_ws(s.name[0]) == false);
        }
        assert(forall|j: int| 1 <= j < b.len() ==> #[trigger] b[j] == ml[j - 1]);
    } else {
        assert(b == ml);
        assert(b.len() > 0);
    }
    assert forall|j: int| 0 <= j < b.len() implies !is_blank(#[trigger] b[j]) by {
        if j > 0 || s.name.len() == 0 {
            assert(b[j] == ml[if s.name.len() == 0 { j } else { j - 1 }]);
            assert(is_ws(b[j][0]) == false);
        }
    }
    assert forall|j: int|
        0 <= j < b.len() implies trim(#[trigger] b[j]).len() > 0 && trim(b[j])[0] != '[' by {
        if j == 0 && s.name.len() > 0 {
            crate::text::lemma_trim_id(s.name);
        } else {
            let l = ml[if s.name.len() == 0 { j } else { j - 1 }];
            assert(trim(l) == l);
        }
    }
    assert(b.last().len() > 0 && !is_ws(b.last().last())) by {
        if s.tasks.len() == 0 {
            assert(b.last() == s.name);
            lemma_trim_props(s.name);
        } else {
            assert(b.last() == ml.last());
        }
    }
}

/// Round trip at the lines level: parsing the serialized lines of a
/// well-formed section gives the section back.
pub proof fn lemma_section_lines_round_trip(s: SectionV)
    requires
        section_wf(s),
    ensures
        spec_parse_section_lines(ser_section_lines(s)) == Ok::<SectionV, TodoError>(s),
{
    let b = ser_section_lines(s);
    let ml = s.tasks.map_values(|t: Seq<char>| spec_ser_task(t));
    lemma_ser_section_clean(s);
    lemma_parse_tasks_of_ser(s.tasks);
    if s.name.len() == 0 {
        assert(b == ml);
        let first = trim(b[0]);
        assert(b[0] == spec_ser_task(s.tasks[0]));
        if s.tasks[0].len() == 0 {
            assert(b[0] =~= seq!['-']);
        }
        crate::text::lemma_trim_id(b[0]);
        assert(first == b[0]);
        assert(first.len() > 0 && first[0] == '-');
        assert(spec_parse_section_lines(b) == Ok::<SectionV, TodoError>(
            SectionV { name: Seq::empty(), tasks: s.tasks },
        ));
        assert(SectionV { name: Seq::empty(), tasks: s.tasks } =~= s);
    } else {
        assert(b[0] == s.name);
        let first = trim(b[0]);
        assert(first == s.name);
        assert(first[0] != '-');
        assert(b.drop_first() =~= ml);
        assert(spec_parse_section_lines(b) == Ok::<SectionV, TodoError>(
            SectionV { name: first, tasks: s.tasks },
        ));
        assert(SectionV { name: first, tasks: s.tasks } =~= s);
    }
}

/// Round trip at the text level: parsing the serialized text of a well-formed
/// section gives the section back.
pub proof fn lemma_section_round_trip(s: SectionV)
    requires
        section_wf(s),
    ensures
        spec_parse_section_str(spec_ser_section_str(s)) == Ok::<SectionV, TodoError>(s),
{
    let b = ser_section_lines(s);
    let j = spec_ser_section_str(s);
    lemma_ser_section_clean(s);
    crate::text::lemma_join_ends(b, seq!['\n']);
    crate::text::lemma_trim_id(j);
    crate::text::lemma_lines_of_join(b);
    lemma_normalize_id(b);
    lemma_section_lines_round_trip(s);
}

/// What the section parser accepts is well-formed, as long as no line holds a
/// newline and the first line does not look like a date line.
pub proof fn lemma_parse_section_wf(b: Seq<Seq<char>>)
    requires
        spec_parse_section_lines(b) is Ok,
        !is_blank(b[0]),
        forall|j: int| 0 <= j < b.len() ==> !(#[trigger] b[j]).contains('\n'),
        trim(b[0]).len() > 0 ==> trim(b[0])[0] != '[',
    ensures
        section_wf(spec_parse_section_lines(b)->Ok_0),
        trim(b[0])[0] != '-' ==> spec_parse_section_lines(b)->Ok_0.name == trim(b[0]),
{
    let first = trim(b[0]);
    lemma_trim_props(b[0]);
    crate::text::lemma_trim_id(first);
    if first.contains('\n') {
        crate::text::lemma_trim_contains(b[0], '\n');
    }
    assert(first.len() > 0);
    if first[0] == '-' {
        lemma_parse_tasks_wf(b);
        crate::text::lemma_trim_id(Seq::<char>::empty());
        assert(!Seq::<char>::empty().contains('\n'));
    } else {
        assert(forall|i: int|
            0 <= i < b.drop_first().len() ==> !(#[trigger] b.drop_first()[i]).contains('\n'));
        lemma_parse_tasks_wf(b.drop_first());
    }
}

/// Serializing what the section parser accepted gives a text that parses back
/// to the same section, as long as no line held a newline and the first line
/// was no blank line and no date line.
pub proof fn lemma_section_normalization(b: Seq<Seq<char>>)
    requires
        spec_parse_section_lines(b) is Ok,
        !is_blank(b[0]),
        forall|j: int| 0 <= j < b.len() ==> !(#[trigger] b[j]).contains('\n'),
        trim(b[0]).len() > 0 ==> trim(b[0])[0] != '[',
    ensures
        spec_parse_section_str(spec_ser_section_str(spec_parse_section_lines(b)->Ok_0))
            == spec_parse_section_lines(b),
{
    lemma_parse_section_wf(b);
    lemma_section_round_trip(spec_parse_section_lines(b)->Ok_0);
}

/// Segments a day's lines into raw section blocks and parses each in turn.
pub struct SectionIterator {
    lines: Vec<String>,
    index: usize,
}

impl View for SectionIterator {
    type V = (Seq<Seq<char>>, int);

    closed spec fn view(&self) -> (Seq<Seq<char>>, int) {
        (self.lines.deep_view(), self.index as int)
    }
}

impl SectionIterator {
    /// The cursor never stands past the end of the lines.
    pub closed spec fn wf(&self) -> bool {
        self.index <= self.lines.len()
    }

    /// A scanner over the lines of the given text, at the first line.
    pub fn new(s: &str) -> (r: Self)
        ensures
            r@.0 == lines_of(s@),
            r@.1 == 0,
            r.wf(),
    {
        SectionIterator { lines: crate::text::split_lines(s), index: 0 }
    }

    /// A scanner over the given lines, at the first line.
    pub fn from_lines(lines: Vec<String>) -> (r: Self)
        ensures
            r@.0 == lines.deep_view(),
            r@.1 == 0,
            r.wf(),
    {
        SectionIterator { lines, index: 0 }
    }

    /// The next section block, normalized and parsed; `None` once no block is
    /// left. The blocks it steps through are those of the section scan.
    pub fn next(&mut self) -> (r: Option<Result<Section, TodoError>>)
        requires
            old(self).wf(),
        ensures
            final(self).wf(),
            final(self)@.0 == old(self)@.0,
            ({
                let ls = old(self)@.0;
                let blocks = scan_from(ls, old(self)@.1, sec_start_p(), sec_end_p());
                match r {
                    None => blocks.len() == 0 && scan_from(
                        ls,
                        final(self)@.1,
                        sec_start_p(),
                        sec_end_p(),
                    ).len() == 0,
                    Some(res) => {
                        &&& blocks.len() > 0
                        &&& match res {
                            Ok(sec) => spec_parse_section_lines(normalize_block(blocks[0]))
                                == Ok::<SectionV, TodoError>(sec@),
                            Err(e) => spec_parse_section_lines(normalize_block(blocks[0]))
                                == Err::<SectionV, TodoError>(e),
                        }
                        &&& scan_from(ls, final(self)@.1, sec_start_p(), sec_end_p())
                            == blocks.drop_first()
                    },
                }
            }),
    {
        let ghost ls = self@.0;
        let ghost i0 = self@.1;
        let n = self.lines.len();
        proof {
            assert(forall|l: Seq<char>| #[trigger] sec_start_p()(l) == spec_is_section_start(l));
            assert(forall|l: Seq<char>| #[trigger] sec_end_p()(l) == spec_is_section_end(l));
        }
        while self.index < n && !is_section_start(self.lines[self.index].as_str())
            invariant
                n == self.lines.len(),
                self@.0 == ls,
                i0 <= self@.1 <= n,
                find_from(ls, i0, sec_start_p()) == find_from(ls, self@.1, sec_start_p()),
            decreases n - self.index,
        {
            self.index = self.index + 1;
        }
        proof {
            crate::scan::lemma_scan_step(ls, i0, sec_start_p(), sec_end_p());
        }
        if self.index >= n {
            proof {
                crate::scan::lemma_scan_step(ls, self@.1, sec_start_p(), sec_end_p());
            }
            return None;
        }
        let s = self.index;
        self.index = self.index + 1;
        while self.index < n && !is_section_end(self.lines[self.index].as_str())
            invariant
                n == self.lines.len(),
                self@.0 == ls,
                s + 1 <= self@.1 <= n,
                find_from(ls, s + 1, sec_end_p()) == find_from(ls, self@.1, sec_end_p()),
            decreases n - self.index,
        {
            self.index = self.index + 1;
        }
        let e = self.index;
        proof {
            assert(find_from(ls, s + 1, sec_end_p()) == e);
        }
        let mut blk: Vec<String> = Vec::new();
        let mut k = s;
        proof {
            assert(blk.deep_view() =~= ls.subrange(s as int, s as int));
        }
        while k < e
            invariant
                s <= k <= e <= n,
                n == self.lines.len(),
                self@.0 == ls,
                blk.deep_view() == ls.subrange(s as int, k as int),
            decreases e - k,
        {
            let ghost pre = blk.deep_view();
            blk.push(self.lines[k].clone());
            proof {
                assert(blk.deep_view() =~= pre.push(ls[k as int]));
                assert(blk.deep_view() =~= ls.subrange(s as int, k + 1));
            }
            k = k + 1;
        }
        let nb = normalize_vec(blk);
        let res = Section::from_lines(&nb);
        proof {
            let blocks = scan_from(ls, i0, sec_start_p(), sec_end_p());
            assert(blocks == seq![ls.subrange(s as int, e as int)] + scan_from(
                ls,
                e as int,
                sec_start_p(),
                sec_end_p(),
            ));
            assert(blocks[0] == ls.subrange(s as int, e as int));
            assert(blocks.drop_first() =~= scan_from(ls, e as int, sec_start_p(), sec_end_p()));
        }
        Some(res)
    }
}

} // verus!
