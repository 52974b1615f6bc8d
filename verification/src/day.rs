//! One calendar date's worth of sections, and the scanner that segments a
//! whole text into day blocks.

use vstd::prelude::*;

use crate::date::{parse_date, ser_date, Date};
use crate::scan::{
    attach_seps, blocks_join, find_from, normalize_block, scan_from, normalize_vec,
};
use crate::section::{
    ser_section_lines, spec_parse_section_lines, section_wf, Section, SectionIterator, SectionV,
};
use crate::text::{is_blank, lines_of, trim};
use crate::util::TodoError;

verus! {

/// The mathematical shape of a day: its date and its sections.
#[verifier::ext_equal]
pub ghost struct DayV {
    pub date: Date,
    pub sections: Seq<SectionV>,
}

/// One calendar date's sections, in serialization order.
#[derive(Clone, Debug, PartialEq, Eq)]
pub struct Day {
    pub date: Date,
    pub sections: Vec<Section>,
}

impl View for Day {
    type V = DayV;

    open spec fn view(&self) -> DayV {
        DayV { date: self.date, sections: self.sections.deep_view() }
    }
}

impl DeepView for Day {
    type V = DayV;

    open spec fn deep_view(&self) -> DayV {
        self.view()
    }
}

/// A line opens a day block: after trimming it is non-empty and starts with
/// the date bracket.
pub open spec fn spec_is_day_start(l: Seq<char>) -> bool {
    trim(l).len() > 0 && trim(l)[0] == '['
}

pub open spec fn day_p() -> spec_fn(Seq<char>) -> bool {
    |l: Seq<char>| spec_is_day_start(l)
}

/// Whether this line opens a day block.
pub fn is_day_start(line: &str) -> (r: bool)
    ensures
        r == spec_is_day_start(line@),
{
    let t = crate::text::trim_str(line);
    if t.unicode_len() == 0 {
        false
    } else {
        t.get_char(0) == '['
    }
}

/// Every scanned block normalized and parsed as a section, in order; the
/// first failure fails the lot.
pub open spec fn parse_sections(blocks: Seq<Seq<Seq<char>>>) -> Result<Seq<SectionV>, TodoError>
    decreases blocks.len(),
{
    if blocks.len() == 0 {
        Ok(Seq::empty())
    } else {
        match spec_parse_section_lines(normalize_block(blocks[0])) {
            Err(e) => Err(e),
            Ok(sv) => match parse_sections(blocks.drop_first()) {
                Ok(rest) => Ok(seq![sv] + rest),
                Err(e) => Err(e),
            },
        }
    }
}

/// One normalized day block: the first line must be a bracketed date line; the
/// rest is segmented into section blocks, each parsed as a section.
pub open spec fn spec_parse_day_lines(b: Seq<Seq<char>>) -> Result<DayV, TodoError> {
    if b.len() == 0 {
        Err(TodoError::MalformedDate)
    } else {
        match parse_date(trim(b[0])) {
            None => Err(TodoError::MalformedDate),
            Some(date) => {
                let blocks = scan_from(
                    b,
                    0,
                    crate::section::sec_start_p(),
                    crate::section::sec_end_p(),
                );
                match parse_sections(blocks) {
                    Ok(ss) => Ok(DayV { date, sections: ss }),
                    Err(e) => Err(e),
                }
            },
        }
    }
}

/// What parsing a whole day text means: trim, split into lines, normalize the
/// block, parse it.
pub open spec fn spec_parse_day_str(s: Seq<char>) -> Result<DayV, TodoError> {
    spec_parse_day_lines(normalize_block(lines_of(trim(s))))
}

/// The serialized lines: the date line, then each section's lines, one blank
/// line between consecutive sections.
pub open spec fn ser_day_lines(d: DayV) -> Seq<Seq<char>> {
    seq![ser_date(d.date)] + blocks_join(
        d.sections.map_values(|s: SectionV| ser_section_lines(s)),
    )
}

/// The serialized day text: its lines joined by newlines.
pub open spec fn spec_ser_day_str(d: DayV) -> Seq<char> {
    crate::text::join_with(ser_day_lines(d), seq!['\n'])
}

/// A day that survives a serialize/parse round trip: a valid date, well-formed
/// sections, and only the first section may be anonymous.
pub open spec fn day_wf(d: DayV) -> bool {
    &&& d.date.valid()
    &&& forall|i: int| 0 <= i < d.sections.len() ==> section_wf(#[trigger] d.sections[i])
    &&& forall|i: int| 1 <= i < d.sections.len() ==> (#[trigger] d.sections[i]).name.len() > 0
}

impl Day {
    /// A fresh day of that date with no sections.
    pub fn new(date: Date) -> (r: Day)
        ensures
            r@.date == date,
            r@.sections == Seq::<SectionV>::empty(),
    {
        let r = Day { date, sections: Vec::new() };
        proof {
            assert(r@.sections =~= Seq::<SectionV>::empty());
        }
        r
    }

    /// A fresh day with the same date and sections.
    pub fn duplicate(&self) -> (r: Day)
        ensures
            r@ == self@,
    {
        let mut sections: Vec<Section> = Vec::new();
        let mut i: usize = 0;
        while i < self.sections.len()
            invariant
                0 <= i <= self.sections.len(),
                sections.deep_view() == self.sections.deep_view().subrange(0, i as int),
            decreases self.sections.len() - i,
        {
            let ghost pre = sections.deep_view();
            sections.push(self.sections[i].duplicate());
            proof {
                assert(sections.deep_view() =~= pre.push(self.sections.deep_view()[i as int]));
                assert(sections.deep_view() =~= self.sections.deep_view().subrange(0, i + 1));
            }
            i = i + 1;
        }
        let r = Day { date: self.date, sections };
        proof {
            assert(r.sections.deep_view() =~= self.sections.deep_view());
            assert(r@ =~= self@);
        }
        r
    }

    /// Parses one normalized day block.
    pub fn from_lines(b: Vec<String>) -> (r: Result<Day, TodoError>)
        ensures
            match r {
                Ok(day) => spec_parse_day_lines(b.deep_view()) == Ok::<DayV, TodoError>(day@),
                Err(e) => spec_parse_day_lines(b.deep_view()) == Err::<DayV, TodoError>(e),
            },
    {
        let ghost bv = b.deep_view();
        if b.len() == 0 {
            return Err(TodoError::MalformedDate);
        }
        let date = match crate::date::parse_date_line(crate::text::trim_str(b[0].as_str())) {
            Some(date) => date,
            None => {
                return Err(TodoError::MalformedDate);
            },
        };
        let ghost all_blocks = scan_from(
            bv,
            0,
            crate::section::sec_start_p(),
            crate::section::sec_end_p(),
        );
        let mut it = SectionIterator::from_lines(b);
        let mut sections: Vec<Section> = Vec::new();
        let mut done = false;
        proof {
            assert(sections.deep_view() =~= Seq::<SectionV>::empty());
        }
        while !done
            invariant
                it.wf(),
                it@.0 == bv,
                done ==> scan_from(
                    bv,
                    it@.1,
                    crate::section::sec_start_p(),
                    crate::section::sec_end_p(),
                ).len() == 0,
                match parse_sections(
                    scan_from(
                        bv,
                        it@.1,
                        crate::section::sec_start_p(),
                        crate::section::sec_end_p(),
                    ),
                ) {
                    Ok(r) => parse_sections(all_blocks) == Ok::<Seq<SectionV>, TodoError>(
                        sections.deep_view() + r,
                    ),
                    Err(e) => parse_sections(all_blocks) == Err::<Seq<SectionV>, TodoError>(e),
                },
            decreases 2 * scan_from(
                bv,
                it@.1,
                crate::section::sec_start_p(),
                crate::section::sec_end_p(),
            ).len() + (if done {
                0int
            } else {
                1int
            }),
        {
            let ghost blocks = scan_from(
                bv,
                it@.1,
                crate::section::sec_start_p(),
                crate::section::sec_end_p(),
            );
            match it.next() {
                None => {
                    done = true;
                },
                Some(Ok(sec)) => {
                    let ghost pre = sections.deep_view();
                    sections.push(sec);
                    proof {
                        assert(sections.deep_view() =~= pre.push(sec@));
                        if let Ok(r2) = parse_sections(blocks.drop_first()) {
                            assert(pre + (seq![sec@] + r2) =~= sections.deep_view() + r2);
                        }
                    }
                },
                Some(Err(e)) => {
                    return Err(e);
                },
            }
        }
        proof {
            assert(sections.deep_view() + Seq::<SectionV>::empty() =~= sections.deep_view());
        }
        Ok(Day { date, sections })
    }
}

impl Day {
    /// Parses one day text: the first line must be the bracketed date; the
    /// remaining lines are sections of tasks.
    pub fn from_str(s: &str) -> (r: Result<Day, TodoError>)
        ensures
            match r {
                Ok(day) => spec_parse_day_str(s@) == Ok::<DayV, TodoError>(day@),
                Err(e) => spec_parse_day_str(s@) == Err::<DayV, TodoError>(e),
            },
    {
        let t = crate::text::trim_str(s);
        let lines = crate::text::split_lines(t);
        let b = normalize_vec(lines);
        Day::from_lines(b)
    }

    /// The serialized lines: the date line, then each section's lines, one
    /// blank line between consecutive sections.
    pub fn lines(&self) -> (r: Vec<String>)
        requires
            self.date.valid(),
        ensures
            r.deep_view() == ser_day_lines(self@),
    {
        let mut r: Vec<String> = Vec::new();
        r.push(crate::date::date_line(&self.date));
        let ghost smap = self@.sections.map_values(|s: SectionV| ser_section_lines(s));
        let ghost head = seq![ser_date(self.date)];
        proof {
            assert(r.deep_view() =~= head + blocks_join(smap.subrange(0, 0)));
        }
        let mut i: usize = 0;
        while i < self.sections.len()
            invariant
                0 <= i <= self.sections.len(),
                self.date.valid(),
                smap == self@.sections.map_values(|s: SectionV| ser_section_lines(s)),
                head == seq![ser_date(self.date)],
                r.deep_view() == head + blocks_join(smap.subrange(0, i as int)),
            decreases self.sections.len() - i,
        {
            let ghost pre = r.deep_view();
            if i > 0 {
                r.push(String::new());
            }
            let mut sl = self.sections[i].lines();
            let ghost slv = sl.deep_view();
            r.append(&mut sl);
            proof {
                assert(slv == smap[i as int]);
                let sub = smap.subrange(0, i as int);
                crate::scan::lemma_blocks_join_push(sub, smap[i as int]);
                assert(sub.push(smap[i as int]) =~= smap.subrange(0, i + 1));
                if i == 0 {
                    assert(r.deep_view() =~= pre + slv);
                    assert(r.deep_view() =~= head + blocks_join(smap.subrange(0, i + 1)));
                } else {
                    assert(r.deep_view() =~= pre + seq![Seq::<char>::empty()] + slv);
                    assert(r.deep_view() =~= head + (blocks_join(sub) + seq![
                        Seq::<char>::empty(),
                    ] + slv));
                    assert(r.deep_view() =~= head + blocks_join(smap.subrange(0, i + 1)));
                }
            }
            i = i + 1;
        }
        proof {
            assert(smap.subrange(0, smap.len() as int) =~= smap);
        }
        r
    }

    /// The serialized day text: its lines joined by newlines.
    pub fn serialize(&self) -> (r: String)
        requires
            self.date.valid(),
        ensures
            r@ == spec_ser_day_str(self@),
    {
        let lines = self.lines();
        let r = crate::text::join_strings(&lines, "\n");
        proof {
            reveal_strlit("\n");
            assert("\n"@ =~= seq!['\n']);
        }
        r
    }
}

/// Segments a whole text into raw day blocks and parses each in turn.
pub struct DayIterator {
    lines: Vec<String>,
    index: usize,
}

impl View for DayIterator {
    type V = (Seq<Seq<char>>, int);

    closed spec fn view(&self) -> (Seq<Seq<char>>, int) {
        (self.lines.deep_view(), self.index as int)
    }
}

impl DayIterator {
    /// The cursor never stands past the end of the lines.
    pub closed spec fn wf(&self) -> bool {
        self.index <= self.lines.len()
    }

    /// A scanner over the lines of the given text, at the first line.
    pub fn new(s: &str) -> (r: Self)
        ensures
            r@.0 == lines_of(s@),
            r@.1 == 0,
            r.wf(),
    {
        DayIterator { lines: crate::text::split_lines(s), index: 0 }
    }

    /// A scanner over the given lines, at the first line.
    pub fn from_lines(lines: Vec<String>) -> (r: Self)
        ensures
            r@.0 == lines.deep_view(),
            r@.1 == 0,
            r.wf(),
    {
        DayIterator { lines, index: 0 }
    }

    /// The next day block, normalized and parsed; `None` once no block is
    /// left. The blocks it steps through are those of the day scan.
    pub fn next(&mut self) -> (r: Option<Result<Day, TodoError>>)
        requires
            old(self).wf(),
        ensures
            final(self).wf(),
            final(self)@.0 == old(self)@.0,
            ({
                let ls = old(self)@.0;
                let blocks = scan_from(ls, old(self)@.1, day_p(), day_p());
                match r {
                    None => blocks.len() == 0 && scan_from(
                        ls,
                        final(self)@.1,
                        day_p(),
                        day_p(),
                    ).len() == 0,
                    Some(res) => {
                        &&& blocks.len() > 0
                        &&& match res {
                            Ok(day) => spec_parse_day_lines(normalize_block(blocks[0])) == Ok::<
                                DayV,
                                TodoError,
                            >(day@),
                            Err(e) => spec_parse_day_lines(normalize_block(blocks[0])) == Err::<
                                DayV,
                                TodoError,
                            >(e),
                        }
                        &&& scan_from(ls, final(self)@.1, day_p(), day_p())
                            == blocks.drop_first()
                    },
                }
            }),
    {
        let ghost ls = self@.0;
        let ghost i0 = self@.1;
        let n = self.lines.len();
        proof {
            assert(forall|l: Seq<char>| #[trigger] day_p()(l) == spec_is_day_start(l));
        }
        while self.index < n && !is_day_start(self.lines[self.index].as_str())
            invariant
                n == self.lines.len(),
                self@.0 == ls,
                i0 <= self@.1 <= n,
                find_from(ls, i0, day_p()) == find_from(ls, self@.1, day_p()),
            decreases n - self.index,
        {
            self.index = self.index + 1;
        }
        proof {
            crate::scan::lemma_scan_step(ls, i0, day_p(), day_p());
        }
        if self.index >= n {
            proof {
                crate::scan::lemma_scan_step(ls, self@.1, day_p(), day_p());
            }
            return None;
        }
        let s = self.index;
        self.index = self.index + 1;
        while self.index < n && !is_day_start(self.lines[self.index].as_str())
            invariant
                n == self.lines.len(),
                self@.0 == ls,
                s + 1 <= self@.1 <= n,
                find_from(ls, s + 1, day_p()) == find_from(ls, self@.1, day_p()),
            decreases n - self.index,
        {
            self.index = self.index + 1;
        }
        let e = self.index;
        proof {
            assert(find_from(ls, s + 1, day_p()) == e);
        }
        let mut blk: Vec<String> = Vec::new();
        let mut k = s;
        proof {
            assert(blk.deep_view() =~= ls.subrange(s as int, s as int));
        }
        while k < e
            invariant
                s <= k <= e <= n,
                n == self.lines.len(),
                self@.0 == ls,
                blk.deep_view() == ls.subrange(s as int, k as int),
            decreases e - k,
        {
            let ghost pre = blk.deep_view();
            blk.push(self.lines[k].clone());
            proof {
                assert(blk.deep_view() =~= pre.push(ls[k as int]));
                assert(blk.deep_view() =~= ls.subrange(s as int, k + 1));
            }
            k = k + 1;
        }
        let nb = normalize_vec(blk);
        let res = Day::from_lines(nb);
        proof {
            let blocks = scan_from(ls, i0, day_p(), day_p());
            assert(blocks == seq![ls.subrange(s as int, e as int)] + scan_from(
                ls,
                e as int,
                day_p(),
                day_p(),
            ));
            assert(blocks[0] == ls.subrange(s as int, e as int));
            assert(blocks.drop_first() =~= scan_from(ls, e as int, day_p(), day_p()));
        }
        Some(res)
    }
}

/// Parsing the serialized layout of well-formed, non-anonymous-after-first
/// sections gives the sections back.
pub proof fn lemma_parse_sections_ser(ss: Seq<SectionV>)
    requires
        forall|i: int| 0 <= i < ss.len() ==> section_wf(#[trigger] ss[i]),
        forall|i: int| 1 <= i < ss.len() ==> (#[trigger] ss[i]).name.len() > 0,
    ensures
        parse_sections(attach_seps(ss.map_values(|s: SectionV| ser_section_lines(s)))) == Ok::<
            Seq<SectionV>,
            TodoError,
        >(ss),
    decreases ss.len(),
{
    let smap = ss.map_values(|s: SectionV| ser_section_lines(s));
    let at = attach_seps(smap);
    if ss.len() == 0 {
        assert(at.len() == 0);
        assert(parse_sections(at) == Ok::<Seq<SectionV>, TodoError>(Seq::empty()));
        assert(ss =~= Seq::<SectionV>::empty());
    } else if ss.len() == 1 {
        assert(at == smap);
        assert(smap[0] == ser_section_lines(ss[0]));
        crate::section::lemma_ser_section_clean(ss[0]);
        crate::scan::lemma_normalize_id(smap[0]);
        crate::section::lemma_section_lines_round_trip(ss[0]);
        assert(spec_parse_section_lines(normalize_block(at[0])) == Ok::<SectionV, TodoError>(
            ss[0],
        ));
        assert(at.drop_first().len() == 0);
        assert(parse_sections(at.drop_first()) == Ok::<Seq<SectionV>, TodoError>(Seq::empty()));
        assert(parse_sections(at) == Ok::<Seq<SectionV>, TodoError>(
            seq![ss[0]] + Seq::<SectionV>::empty(),
        ));
        assert(seq![ss[0]] + Seq::<SectionV>::empty() =~= ss);
    } else {
        assert(smap[0] == ser_section_lines(ss[0]));
        crate::section::lemma_ser_section_clean(ss[0]);
        crate::scan::lemma_normalize_with_sep(smap[0]);
        crate::section::lemma_section_lines_round_trip(ss[0]);
        assert(at[0] == smap[0].push(Seq::<char>::empty()));
        assert(spec_parse_section_lines(normalize_block(at[0])) == Ok::<SectionV, TodoError>(
            ss[0],
        ));
        let sr = ss.drop_first();
        lemma_parse_sections_ser(sr);
        assert(smap.drop_first() =~= sr.map_values(|s: SectionV| ser_section_lines(s)));
        assert(at.drop_first() =~= attach_seps(smap.drop_first()));
        assert(parse_sections(at.drop_first()) == Ok::<Seq<SectionV>, TodoError>(sr));
        assert(parse_sections(at) == Ok::<Seq<SectionV>, TodoError>(seq![ss[0]] + sr));
        assert(seq![ss[0]] + sr =~= ss);
    }
}

/// Round trip at the lines level: parsing the serialized lines of a
/// well-formed day gives the day back.
pub proof fn lemma_day_lines_round_trip(d: DayV)
    requires
        day_wf(d),
    ensures
        spec_parse_day_lines(ser_day_lines(d)) == Ok::<DayV, TodoError>(d),
{
    let b = ser_day_lines(d);
    let smap = d.sections.map_values(|s: SectionV| ser_section_lines(s));
    crate::date::lemma_ser_date_clean(d.date);
    crate::date::lemma_date_round_trip(d.date);
    assert(b[0] == ser_date(d.date));
    assert(trim(b[0]) == b[0]);
    assert(parse_date(trim(b[0])) == Some(d.date));
    assert(!crate::section::spec_is_section_start(b[0]));
    assert forall|k: int| 0 <= k < smap.len() implies (#[trigger] smap[k]).len() > 0
        && crate::section::sec_start_p()(smap[k][0]) && (k >= 1
        ==> crate::section::sec_end_p()(smap[k][0])) && (forall|j: int|
        1 <= j < smap[k].len() ==> !crate::section::sec_end_p()(#[trigger] smap[k][j])) by {
        crate::section::lemma_ser_section_clean(d.sections[k]);
    }
    assert(!crate::section::sec_end_p()(Seq::<char>::empty()));
    assert(b.subrange(1, b.len() as int) =~= blocks_join(smap));
    crate::scan::lemma_scan_blocks(
        b,
        1,
        smap,
        crate::section::sec_start_p(),
        crate::section::sec_end_p(),
    );
    crate::scan::lemma_scan_skip(b, 0, crate::section::sec_start_p(), crate::section::sec_end_p());
    lemma_parse_sections_ser(d.sections);
    assert(spec_parse_day_lines(b) == Ok::<DayV, TodoError>(
        DayV { date: d.date, sections: d.sections },
    ));
    assert(DayV { date: d.date, sections: d.sections } =~= d);
}

/// The serialized lines of a well-formed day are clean: the first line is a
/// day start, no later line is, no line holds a newline, the first line starts
/// and the last line ends with a non-whitespace character.
pub proof fn lemma_ser_day_clean(d: DayV)
    requires
        day_wf(d),
    ensures
        ({
            let b = ser_day_lines(d);
            &&& b.len() > 0
            &&& b[0].len() > 0 && !crate::text::is_ws(b[0][0])
            &&& b.last().len() > 0 && !crate::text::is_ws(b.last().last())
            &&& spec_is_day_start(b[0])
            &&& forall|j: int| 1 <= j < b.len() ==> !spec_is_day_start(#[trigger] b[j])
            &&& forall|j: int| 0 <= j < b.len() ==> !(#[trigger] b[j]).contains('\n')
        }),
{
    let b = ser_day_lines(d);
    let smap = d.sections.map_values(|s: SectionV| ser_section_lines(s));
    let bj = blocks_join(smap);
    crate::date::lemma_ser_date_clean(d.date);
    assert(b[0] == ser_date(d.date));
    assert(spec_is_day_start(b[0]));
    let clean = |l: Seq<char>| !l.contains('\n') && !spec_is_day_start(l);
    assert forall|k: int, j: int|
        0 <= k < smap.len() && 0 <= j < smap[k].len() implies clean(#[trigger] smap[k][j]) by {
        crate::section::lemma_ser_section_clean(d.sections[k]);
        let l = smap[k][j];
        assert(!l.contains('\n'));
        assert(trim(l).len() > 0 && trim(l)[0] != '[');
    }
    assert(clean(Seq::<char>::empty())) by {
        crate::text::lemma_trim_props(Seq::<char>::empty());
        if Seq::<char>::empty().contains('\n') {
            let i = choose|i: int| 0 <= i < 0 && Seq::<char>::empty()[i] == '\n';
        }
        assert(is_blank(Seq::<char>::empty()));
    }
    crate::scan::lemma_blocks_join_all(smap, clean);
    assert forall|j: int| 1 <= j < b.len() implies !spec_is_day_start(#[trigger] b[j]) && !(
    b[j]).contains('\n') by {
        assert(b[j] == bj[j - 1]);
        assert(clean(bj[j - 1]));
    }
    assert(b.last().len() > 0 && !crate::text::is_ws(b.last().last())) by {
        if d.sections.len() == 0 {
            assert(smap.len() == 0);
            assert(b =~= seq![ser_date(d.date)]);
            assert(b.last() == ser_date(d.date));
        } else {
            crate::section::lemma_ser_section_clean(d.sections[smap.len() - 1]);
            assert(smap.last() == ser_section_lines(d.sections.last()));
            assert(smap.last().last().len() > 0 && !crate::text::is_ws(
                smap.last().last().last(),
            ));
            crate::scan::lemma_blocks_join_last(smap);
            assert(b.last() == bj.last());
        }
    }
}

/// The anonymous-section rule: a day block whose first content line (the
/// first line that opens a section block) is a task line parses to a day whose
/// first section carries the empty name.
pub proof fn lemma_anonymous_first_section(b: Seq<Seq<char>>)
    requires
        spec_parse_day_lines(b) is Ok,
        ({
            let s = find_from(b, 0, crate::section::sec_start_p());
            s < b.len() && trim(b[s]).len() > 0 && trim(b[s])[0] == '-'
        }),
    ensures
        spec_parse_day_lines(b)->Ok_0.sections.len() > 0,
        spec_parse_day_lines(b)->Ok_0.sections[0].name == Seq::<char>::empty(),
{
    let sp = crate::section::sec_start_p();
    let ep = crate::section::sec_end_p();
    let blocks = scan_from(b, 0, sp, ep);
    let s = find_from(b, 0, sp);
    crate::scan::lemma_find_from(b, 0, sp);
    crate::scan::lemma_find_from(b, s + 1, ep);
    crate::scan::lemma_scan_step(b, 0, sp, ep);
    let e = find_from(b, s + 1, ep);
    assert(blocks[0] == b.subrange(s, e));
    assert(blocks[0].len() > 0);
    assert(blocks[0][0] == b[s]);
    assert(crate::section::spec_is_section_start(b[s]));
    crate::text::lemma_trim_props(b[s]);
    assert(!is_blank(b[s]));
    crate::scan::lemma_normalize_head(blocks[0]);
    let nb = normalize_block(blocks[0]);
    assert(trim(nb[0]) == trim(b[s]));
    let sv = spec_parse_section_lines(nb)->Ok_0;
    assert(spec_parse_section_lines(nb) is Ok);
    assert(sv.name == Seq::<char>::empty());
    assert(spec_parse_day_lines(b)->Ok_0.sections == seq![sv] + parse_sections(
        blocks.drop_first(),
    )->Ok_0);
}

/// Every section parsed out of a scan of newline-free lines is well-formed,
/// and only the very first scanned block, when it opens with a task line, can
/// be anonymous.
proof fn lemma_parse_scanned_wf(b: Seq<Seq<char>>, i: int)
    requires
        0 <= i <= b.len(),
        forall|j: int| 0 <= j < b.len() ==> !(#[trigger] b[j]).contains('\n'),
        parse_sections(
            scan_from(b, i, crate::section::sec_start_p(), crate::section::sec_end_p()),
        ) is Ok,
    ensures
        ({
            let sp = crate::section::sec_start_p();
            let ep = crate::section::sec_end_p();
            let ss = parse_sections(scan_from(b, i, sp, ep))->Ok_0;
            &&& forall|k: int| 0 <= k < ss.len() ==> section_wf(#[trigger] ss[k])
            &&& forall|k: int| 1 <= k < ss.len() ==> (#[trigger] ss[k]).name.len() > 0
            &&& (ss.len() > 0 && find_from(b, i, sp) < b.len() && trim(
                b[find_from(b, i, sp)],
            )[0] != '-' ==> ss[0].name.len() > 0)
        }),
    decreases b.len() - i,
{
    let sp = crate::section::sec_start_p();
    let ep = crate::section::sec_end_p();
    assert(forall|l: Seq<char>| #[trigger] sp(l) == crate::section::spec_is_section_start(l));
    assert(forall|l: Seq<char>| #[trigger] ep(l) == crate::section::spec_is_section_end(l));
    crate::scan::lemma_find_from(b, i, sp);
    crate::scan::lemma_scan_step(b, i, sp, ep);
    let s = find_from(b, i, sp);
    let ss = parse_sections(scan_from(b, i, sp, ep))->Ok_0;
    if s >= b.len() {
        assert(ss.len() == 0);
    } else {
        crate::scan::lemma_find_from(b, s + 1, ep);
        let e = find_from(b, s + 1, ep);
        let block = b.subrange(s, e);
        assert(crate::section::spec_is_section_start(b[s]));
        crate::text::lemma_trim_props(b[s]);
        assert(!is_blank(b[s]));
        assert(block[0] == b[s]);
        assert(forall|j: int| 0 <= j < block.len() ==> #[trigger] block[j] == b[s + j]);
        assert(forall|j: int| 0 <= j < block.len() ==> !(#[trigger] block[j]).contains('\n'));
        crate::scan::lemma_normalize_no_nl(block);
        crate::scan::lemma_normalize_head(block);
        let nb = normalize_block(block);
        assert(trim(nb[0]) == trim(b[s]));
        assert(scan_from(b, i, sp, ep) == seq![block] + scan_from(b, e, sp, ep));
        assert(scan_from(b, i, sp, ep)[0] == block);
        assert(scan_from(b, i, sp, ep).drop_first() =~= scan_from(b, e, sp, ep));
        assert(spec_parse_section_lines(nb) is Ok);
        crate::section::lemma_parse_section_wf(nb);
        let sv = spec_parse_section_lines(nb)->Ok_0;
        lemma_parse_scanned_wf(b, e);
        let rest = parse_sections(scan_from(b, e, sp, ep))->Ok_0;
        assert(ss == seq![sv] + rest);
        assert(rest.len() > 0 ==> rest[0].name.len() > 0) by {
            if rest.len() > 0 {
                assert(e < b.len()) by {
                    if e >= b.len() {
                        crate::scan::lemma_scan_step(b, e, sp, ep);
                        assert(find_from(b, e, sp) >= b.len());
                    }
                }
                assert(crate::section::spec_is_section_end(b[e as int]));
                assert(crate::section::spec_is_section_start(b[e as int]));
                assert(find_from(b, e, sp) == e);
                assert(trim(b[e as int])[0] != '-');
            }
        }
        assert forall|k: int| 0 <= k < ss.len() implies section_wf(#[trigger] ss[k]) by {
            if k > 0 {
                assert(ss[k] == rest[k - 1]);
            }
        }
        assert forall|k: int| 1 <= k < ss.len() implies (#[trigger] ss[k]).name.len() > 0 by {
            assert(ss[k] == rest[k - 1]);
        }
        if trim(b[s])[0] != '-' {
            assert(sv.name == trim(nb[0]));
            assert(trim(b[s]).len() > 0);
        }
    }
}

/// What the day parser accepts from newline-free lines is well-formed: the
/// date fits the date line, every section is round-trip-safe, and only the
/// first section can be anonymous.
pub proof fn lemma_parse_day_wf(b: Seq<Seq<char>>)
    requires
        spec_parse_day_lines(b) is Ok,
        forall|j: int| 0 <= j < b.len() ==> !(#[trigger] b[j]).contains('\n'),
    ensures
        day_wf(spec_parse_day_lines(b)->Ok_0),
{
    lemma_parse_scanned_wf(b, 0);
}

/// Round trip at the text level: parsing the serialized text of a well-formed
/// day gives the day back.
pub proof fn lemma_day_round_trip(d: DayV)
    requires
        day_wf(d),
    ensures
        spec_parse_day_str(spec_ser_day_str(d)) == Ok::<DayV, TodoError>(d),
{
    let b = ser_day_lines(d);
    let j = spec_ser_day_str(d);
    lemma_ser_day_clean(d);
    crate::text::lemma_join_ends(b, seq!['\n']);
    crate::text::lemma_trim_id(j);
    crate::text::lemma_lines_of_join(b);
    crate::scan::lemma_normalize_id(b);
    lemma_day_lines_round_trip(d);
}

} // verus!
