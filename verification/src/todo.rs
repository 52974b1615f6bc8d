//! The full log: days keyed by date, with loading, day advancement, task
//! insertion and the merge-on-save protocol.

use vstd::prelude::*;

use crate::date::{date_lt, Date};
use crate::day::{
    day_p, day_wf, ser_day_lines, spec_is_day_start, spec_parse_day_lines, Day, DayIterator, DayV,
};
use crate::scan::{attach_seps, blocks_join, find_from, normalize_block, scan_from};
use crate::section::{section_wf, Section, SectionV};
use crate::task::spec_parse_task;
use crate::text::{join_with, lines_of, trim};
use crate::util::TodoError;

verus! {

/// The full in-memory log: at most one day per date.
#[derive(Clone, Debug, PartialEq, Eq)]
pub struct Todo {
    pub days: Vec<Day>,
}

impl View for Todo {
    type V = Seq<DayV>;

    open spec fn view(&self) -> Seq<DayV> {
        self.days.deep_view()
    }
}

/// Whether some day carries this date.
pub open spec fn has_date(days: Seq<DayV>, date: Date) -> bool {
    exists|i: int| 0 <= i < days.len() && (#[trigger] days[i]).date == date
}

/// No two days carry the same date.
pub open spec fn unique_dates(days: Seq<DayV>) -> bool {
    forall|i: int, j: int|
        0 <= i < j < days.len() ==> (#[trigger] days[i]).date != (#[trigger] days[j]).date
}

/// Every date fits the four-digit date line.
pub open spec fn dates_valid(days: Seq<DayV>) -> bool {
    forall|i: int| 0 <= i < days.len() ==> (#[trigger] days[i]).date.valid()
}

/// Some day lies strictly after `today`.
pub open spec fn exceeds(days: Seq<DayV>, today: Date) -> bool {
    exists|i: int| 0 <= i < days.len() && date_lt(today, (#[trigger] days[i]).date)
}

/// The first index carrying this date, or the length.
pub open spec fn date_idx(days: Seq<DayV>, date: Date) -> int
    decreases days.len(),
{
    if days.len() == 0 {
        0
    } else if days[0].date == date {
        0
    } else {
        1 + date_idx(days.drop_first(), date)
    }
}

pub proof fn lemma_date_idx(days: Seq<DayV>, date: Date)
    ensures
        0 <= date_idx(days, date) <= days.len(),
        forall|j: int| 0 <= j < date_idx(days, date) ==> (#[trigger] days[j]).date != date,
        date_idx(days, date) < days.len() ==> days[date_idx(days, date)].date == date,
        (date_idx(days, date) < days.len()) == has_date(days, date),
    decreases days.len(),
{
    if days.len() == 0 || days[0].date == date {
    } else {
        lemma_date_idx(days.drop_first(), date);
        let r = date_idx(days, date);
        assert forall|j: int| 0 <= j < r implies (#[trigger] days[j]).date != date by {
            if j > 0 {
                assert(days.drop_first()[j - 1] == days[j]);
            }
        }
        if r < days.len() {
            assert(days.drop_first()[r - 1] == days[r]);
        }
        if has_date(days, date) {
            let w = choose|i: int| 0 <= i < days.len() && days[i].date == date;
            assert(days.drop_first()[w - 1] == days[w]);
            assert(has_date(days.drop_first(), date));
        }
        if has_date(days.drop_first(), date) {
            let w = choose|i: int|
                0 <= i < days.drop_first().len() && days.drop_first()[i].date == date;
            assert(days[w + 1] == days.drop_first()[w]);
        }
    }
}

/// A parsed day replaces the day of its date, or comes at the end: last wins.
pub open spec fn insert_day(days: Seq<DayV>, d: DayV) -> Seq<DayV> {
    let k = date_idx(days, d.date);
    if k < days.len() {
        days.update(k, d)
    } else {
        days.push(d)
    }
}

/// All parsed days folded in, in text order.
pub open spec fn dedup_days(ds: Seq<DayV>) -> Seq<DayV>
    decreases ds.len(),
{
    if ds.len() == 0 {
        Seq::empty()
    } else {
        insert_day(dedup_days(ds.drop_last()), ds.last())
    }
}

/// Every scanned block normalized and parsed as a day, in order; the first
/// failure fails the lot.
pub open spec fn parse_days(blocks: Seq<Seq<Seq<char>>>) -> Result<Seq<DayV>, TodoError>
    decreases blocks.len(),
{
    if blocks.len() == 0 {
        Ok(Seq::empty())
    } else {
        match spec_parse_day_lines(normalize_block(blocks[0])) {
            Err(e) => Err(e),
            Ok(d) => match parse_days(blocks.drop_first()) {
                Ok(rest) => Ok(seq![d] + rest),
                Err(e) => Err(e),
            },
        }
    }
}

/// What parsing a whole log text means: trim, split into lines, segment into
/// day blocks, parse each, and let a later day of a repeated date win.
pub open spec fn spec_todo_parse(s: Seq<char>) -> Result<Seq<DayV>, TodoError> {
    let ls = lines_of(trim(s));
    match parse_days(scan_from(ls, 0, day_p(), day_p())) {
        Ok(ds) => Ok(dedup_days(ds)),
        Err(e) => Err(e),
    }
}

/// Loading guards against clock skew: a parsed day after `today` refuses the
/// whole load.
pub open spec fn spec_todo_load(s: Seq<char>, today: Date) -> Result<Seq<DayV>, TodoError> {
    match spec_todo_parse(s) {
        Err(e) => Err(e),
        Ok(days) => if exceeds(days, today) {
            Err(TodoError::ClockSkew)
        } else {
            Ok(days)
        },
    }
}

/// The serialized lines of the whole log: each day's lines, one blank line
/// between consecutive days.
pub open spec fn ser_todo_lines(days: Seq<DayV>) -> Seq<Seq<char>> {
    blocks_join(days.map_values(|d: DayV| ser_day_lines(d)))
}

/// The serialized log text: its lines joined by newlines.
pub open spec fn spec_ser_todo_str(days: Seq<DayV>) -> Seq<char> {
    join_with(ser_todo_lines(days), seq!['\n'])
}

impl Todo {
    /// A log with no days.
    pub fn empty() -> (r: Todo)
        ensures
            r@ == Seq::<DayV>::empty(),
    {
        let r = Todo { days: Vec::new() };
        proof {
            assert(r@ =~= Seq::<DayV>::empty());
        }
        r
    }

    /// Parses a whole log text into days; a later day of a repeated date
    /// overwrites the earlier one.
    pub fn from_str(s: &str) -> (r: Result<Todo, TodoError>)
        ensures
            match r {
                Ok(t) => spec_todo_parse(s@) == Ok::<Seq<DayV>, TodoError>(t@),
                Err(e) => spec_todo_parse(s@) == Err::<Seq<DayV>, TodoError>(e),
            },
    {
        let t = crate::text::trim_str(s);
        let lines = crate::text::split_lines(t);
        let ghost ls = lines_of(trim(s@));
        let ghost all_blocks = scan_from(ls, 0, day_p(), day_p());
        let mut it = DayIterator::from_lines(lines);
        let mut days: Vec<Day> = Vec::new();
        let mut parsed_v: Ghost<Seq<DayV>> = Ghost(Seq::empty());
        let mut done = false;
        proof {
            assert(days.deep_view() =~= Seq::<DayV>::empty());
            assert(dedup_days(Seq::<DayV>::empty()) == Seq::<DayV>::empty());
        }
        while !done
            invariant
                it.wf(),
                it@.0 == ls,
                done ==> scan_from(ls, it@.1, day_p(), day_p()).len() == 0,
                days.deep_view() == dedup_days(parsed_v@),
                match parse_days(scan_from(ls, it@.1, day_p(), day_p())) {
                    Ok(r) => parse_days(all_blocks) == Ok::<Seq<DayV>, TodoError>(parsed_v@ + r),
                    Err(e) => parse_days(all_blocks) == Err::<Seq<DayV>, TodoError>(e),
                },
            decreases 2 * scan_from(ls, it@.1, day_p(), day_p()).len() + (if done {
                0int
            } else {
                1int
            }),
        {
            let ghost blocks = scan_from(ls, it@.1, day_p(), day_p());
            match it.next() {
                None => {
                    done = true;
                },
                Some(Ok(day)) => {
                    proof {
                        if let Ok(r2) = parse_days(blocks.drop_first()) {
                            assert(parsed_v@ + (seq![day@] + r2) =~= parsed_v@.push(day@) + r2);
                        }
                    }
                    Self::insert_day_vec(&mut days, day);
                    proof {
                        assert(parsed_v@.push(day@).drop_last() =~= parsed_v@);
                        assert(parsed_v@.push(day@).last() == day@);
                        assert(dedup_days(parsed_v@.push(day@)) == insert_day(
                            dedup_days(parsed_v@),
                            day@,
                        ));
                        parsed_v@ = parsed_v@.push(day@);
                    }
                },
                Some(Err(e)) => {
                    return Err(e);
                },
            }
        }
        proof {
            assert(parsed_v@ + Seq::<DayV>::empty() =~= parsed_v@);
        }
        Ok(Todo { days })
    }

    /// Replaces the day of the same date, or appends: last wins.
    fn insert_day_vec(days: &mut Vec<Day>, d: Day)
        ensures
            final(days).deep_view() == insert_day(old(days).deep_view(), d@),
    {
        let ghost dv = days.deep_view();
        let mut k: usize = 0;
        while k < days.len() && !(days[k].date == d.date)
            invariant
                0 <= k <= days.len(),
                days.deep_view() == dv,
                forall|j: int| 0 <= j < k ==> (#[trigger] dv[j]).date != d@.date,
            decreases days.len() - k,
        {
            k = k + 1;
        }
        proof {
            lemma_date_idx(dv, d@.date);
            if k < days.len() {
                assert(dv[k as int].date == d@.date);
            }
            let di = date_idx(dv, d@.date);
            if di < k {
                assert(dv[di].date == d@.date);
            }
            if di > k && k < dv.len() {
                assert(dv[k as int].date != d@.date);
            }
            assert(di == k);
        }
        if k < days.len() {
            let _ = days.remove(k);
            days.insert(k, d);
            proof {
                assert(days.deep_view() =~= dv.update(k as int, d@));
            }
        } else {
            days.push(d);
            proof {
                assert(days.deep_view() =~= dv.push(d@));
            }
        }
    }

    /// Parses a log and refuses one whose latest day lies after `today`.
    pub fn load(content: &str, today: Date) -> (r: Result<Todo, TodoError>)
        ensures
            match r {
                Ok(t) => spec_todo_load(content@, today) == Ok::<Seq<DayV>, TodoError>(t@),
                Err(e) => spec_todo_load(content@, today) == Err::<Seq<DayV>, TodoError>(e),
            },
    {
        let t = match Todo::from_str(content) {
            Ok(t) => t,
            Err(e) => {
                return Err(e);
            },
        };
        let mut i: usize = 0;
        while i < t.days.len()
            invariant
                0 <= i <= t.days.len(),
                forall|j: int| 0 <= j < i ==> !date_lt(today, (#[trigger] t@[j]).date),
            decreases t.days.len() - i,
        {
            if today.lt(&t.days[i].date) {
                proof {
                    assert(date_lt(today, t@[i as int].date));
                    assert(exceeds(t@, today));
                }
                return Err(TodoError::ClockSkew);
            }
            i = i + 1;
        }
        proof {
            assert(t@.len() == t.days.deep_view().len());
            assert(forall|j: int| 0 <= j < t@.len() ==> !date_lt(today, (#[trigger] t@[j]).date));
            assert(!exceeds(t@, today));
        }
        Ok(t)
    }

    /// The serialized lines of the whole log.
    pub fn lines(&self) -> (r: Vec<String>)
        requires
            dates_valid(self@),
        ensures
            r.deep_view() == ser_todo_lines(self@),
    {
        let mut r: Vec<String> = Vec::new();
        let ghost dmap = self@.map_values(|d: DayV| ser_day_lines(d));
        proof {
            assert(r.deep_view() =~= blocks_join(dmap.subrange(0, 0)));
        }
        let mut i: usize = 0;
        while i < self.days.len()
            invariant
                0 <= i <= self.days.len(),
                dates_valid(self@),
                dmap == self@.map_values(|d: DayV| ser_day_lines(d)),
                r.deep_view() == blocks_join(dmap.subrange(0, i as int)),
            decreases self.days.len() - i,
        {
            let ghost pre = r.deep_view();
            if i > 0 {
                r.push(String::new());
            }
            proof {
                assert(self@[i as int].date.valid());
                assert(self@[i as int] == self.days[i as int]@);
            }
            let mut dl = self.days[i].lines();
            let ghost dlv = dl.deep_view();
            r.append(&mut dl);
            proof {
                assert(dlv == dmap[i as int]);
                let sub = dmap.subrange(0, i as int);
                crate::scan::lemma_blocks_join_push(sub, dmap[i as int]);
                assert(sub.push(dmap[i as int]) =~= dmap.subrange(0, i + 1));
                if i == 0 {
                    assert(r.deep_view() =~= pre + dlv);
                    assert(r.deep_view() =~= blocks_join(dmap.subrange(0, i + 1)));
                } else {
                    assert(r.deep_view() =~= pre + seq![Seq::<char>::empty()] + dlv);
                    assert(r.deep_view() =~= blocks_join(sub) + seq![Seq::<char>::empty()] + dlv);
                    assert(r.deep_view() =~= blocks_join(dmap.subrange(0, i + 1)));
                }
            }
            i = i + 1;
        }
        proof {
            assert(dmap.subrange(0, dmap.len() as int) =~= dmap);
        }
        r
    }

    /// The serialized log text: days in their stored order, one blank line
    /// between consecutive days.
    pub fn serialize(&self) -> (r: String)
        requires
            dates_valid(self@),
        ensures
            r@ == spec_ser_todo_str(self@),
    {
        let lines = self.lines();
        let r = crate::text::join_strings(&lines, "\n");
        proof {
            reveal_strlit("\n");
            assert("\n"@ =~= seq!['\n']);
        }
        r
    }
}

/// The first index of the day with the greatest date; 0 for an empty log.
pub open spec fn last_idx(days: Seq<DayV>) -> int
    decreases days.len(),
{
    if days.len() <= 1 {
        0
    } else {
        let r = last_idx(days.drop_last());
        if date_lt(days[r].date, days.last().date) {
            days.len() - 1
        } else {
            r
        }
    }
}

pub proof fn lemma_last_idx(days: Seq<DayV>)
    requires
        days.len() > 0,
    ensures
        0 <= last_idx(days) < days.len(),
        forall|j: int|
            0 <= j < days.len() ==> !date_lt(days[last_idx(days)].date, (#[trigger] days[j]).date),
    decreases days.len(),
{
    if days.len() == 1 {
    } else {
        lemma_last_idx(days.drop_last());
        let d = days.drop_last();
        assert(forall|j: int| 0 <= j < d.len() ==> #[trigger] days[j] == d[j]);
        let r = last_idx(d);
        assert(days[r] == d[r]);
    }
}

/// The name of the section that day advancement empties.
pub open spec fn done_name() -> Seq<char> {
    "Done"@
}

/// The first index of the section of that name, or the length.
pub open spec fn name_idx(ss: Seq<SectionV>, name: Seq<char>) -> int
    decreases ss.len(),
{
    if ss.len() == 0 {
        0
    } else if ss[0].name == name {
        0
    } else {
        1 + name_idx(ss.drop_first(), name)
    }
}

pub proof fn lemma_name_idx(ss: Seq<SectionV>, name: Seq<char>)
    ensures
        0 <= name_idx(ss, name) <= ss.len(),
        forall|j: int| 0 <= j < name_idx(ss, name) ==> (#[trigger] ss[j]).name != name,
        name_idx(ss, name) < ss.len() ==> ss[name_idx(ss, name)].name == name,
    decreases ss.len(),
{
    if ss.len() == 0 || ss[0].name == name {
    } else {
        lemma_name_idx(ss.drop_first(), name);
        let r = name_idx(ss, name);
        assert forall|j: int| 0 <= j < r implies (#[trigger] ss[j]).name != name by {
            if j > 0 {
                assert(ss.drop_first()[j - 1] == ss[j]);
            }
        }
        if r < ss.len() {
            assert(ss.drop_first()[r - 1] == ss[r]);
        }
    }
}

/// The sections with the first "Done" section's tasks emptied, or with an
/// empty "Done" section appended when none exists.
pub open spec fn clear_done(ss: Seq<SectionV>) -> Seq<SectionV> {
    let k = name_idx(ss, done_name());
    if k < ss.len() {
        ss.update(k, SectionV { name: ss[k].name, tasks: Seq::empty() })
    } else {
        ss.push(SectionV { name: done_name(), tasks: Seq::empty() })
    }
}

/// The day a fresh date gets: the sections of the source day, "Done" emptied.
pub open spec fn advance_day(d: DayV, today: Date) -> DayV {
    DayV { date: today, sections: clear_done(d.sections) }
}

/// Day advancement: a no-op when today's day exists; otherwise the day of the
/// greatest date (or an empty day) advanced to today and appended.
pub open spec fn spec_next_day(days: Seq<DayV>, today: Date) -> Seq<DayV> {
    if has_date(days, today) {
        days
    } else {
        let base = if days.len() == 0 {
            DayV { date: today, sections: Seq::empty() }
        } else {
            days[last_idx(days)]
        };
        days.push(advance_day(base, today))
    }
}

/// After advancement a day of today's date exists.
pub proof fn lemma_next_day_has_today(days: Seq<DayV>, today: Date)
    ensures
        has_date(spec_next_day(days, today), today),
{
    if !has_date(days, today) {
        let nd = spec_next_day(days, today);
        assert(nd[nd.len() - 1].date == today);
    }
}

/// Task insertion: advance to today, find or append the named section at the
/// end, and append the task.
pub open spec fn spec_add(days: Seq<DayV>, today: Date, text: Seq<char>, sec: Seq<char>) -> Seq<
    DayV,
> {
    let ds = spec_next_day(days, today);
    let di = date_idx(ds, today);
    if di >= ds.len() {
        ds
    } else {
        let d = ds[di];
        let si = name_idx(d.sections, sec);
        let ss2 = if si < d.sections.len() {
            d.sections.update(
                si,
                SectionV { name: d.sections[si].name, tasks: d.sections[si].tasks.push(text) },
            )
        } else {
            d.sections.push(SectionV { name: sec, tasks: seq![text] })
        };
        ds.update(di, DayV { date: d.date, sections: ss2 })
    }
}

impl Todo {
    /// The day with the greatest date; of equal candidates the first.
    pub fn last_day_pos(&self) -> (r: Option<usize>)
        ensures
            match r {
                None => self@.len() == 0,
                Some(p) => self@.len() > 0 && p < self@.len() && p == last_idx(self@),
            },
    {
        let ghost dv = self@;
        if self.days.len() == 0 {
            return None;
        }
        let mut best: usize = 0;
        let mut k: usize = 1;
        proof {
            assert(dv.subrange(0, 1) =~= seq![dv[0]]);
        }
        while k < self.days.len()
            invariant
                1 <= k <= self.days.len(),
                best < k,
                self@ == dv,
                best == last_idx(dv.subrange(0, k as int)),
            decreases self.days.len() - k,
        {
            proof {
                let pre = dv.subrange(0, k as int);
                let ext = dv.subrange(0, k + 1);
                assert(ext.drop_last() =~= pre);
                assert(forall|j: int| 0 <= j < pre.len() ==> #[trigger] ext[j] == pre[j]);
                assert(ext.last() == dv[k as int]);
            }
            if self.days[best].date.lt(&self.days[k].date) {
                best = k;
            }
            k = k + 1;
        }
        proof {
            assert(dv.subrange(0, dv.len() as int) =~= dv);
        }
        Some(best)
    }

    /// The day with the greatest date.
    pub fn last_day(&self) -> (r: Option<&Day>)
        ensures
            match r {
                None => self@.len() == 0,
                Some(d) => self@.len() > 0 && d@ == self@[last_idx(self@)],
            },
    {
        match self.last_day_pos() {
            None => None,
            Some(p) => {
                proof {
                    assert(self@[p as int] == self.days[p as int]@);
                }
                Some(&self.days[p])
            },
        }
    }

    /// Creates today's day if it does not exist: a copy of the latest day with
    /// its "Done" section emptied (or created at the end), appended.
    pub fn next_day(&mut self, today: Date)
        ensures
            final(self)@ == spec_next_day(old(self)@, today),
    {
        let ghost dv = self@;
        let mut i: usize = 0;
        while i < self.days.len()
            invariant
                0 <= i <= self.days.len(),
                self@ == dv,
                forall|j: int| 0 <= j < i ==> (#[trigger] dv[j]).date != today,
            decreases self.days.len() - i,
        {
            if self.days[i].date == today {
                proof {
                    assert(dv[i as int].date == today);
                    assert(has_date(dv, today));
                }
                return;
            }
            i = i + 1;
        }
        proof {
            assert(!has_date(dv, today));
        }
        let mut base: Day = match self.last_day_pos() {
            None => Day::new(today),
            Some(p) => {
                proof {
                    assert(dv[p as int] == self.days[p as int]@);
                }
                self.days[p].duplicate()
            },
        };
        let ghost basev = if dv.len() == 0 {
            DayV { date: today, sections: Seq::<SectionV>::empty() }
        } else {
            dv[last_idx(dv)]
        };
        proof {
            assert(base@.sections == basev.sections);
        }
        base.date = today;
        let done = String::from_str("Done");
        let ghost ss = base@.sections;
        let mut k: usize = 0;
        let n = base.sections.len();
        while k < n && !(base.sections[k].name == done)
            invariant
                0 <= k <= n,
                n == base.sections.len(),
                base@.sections == ss,
                done@ == done_name(),
                forall|j: int| 0 <= j < k ==> (#[trigger] ss[j]).name != done_name(),
            decreases n - k,
        {
            k = k + 1;
        }
        proof {
            lemma_name_idx(ss, done_name());
            if k < n {
                assert(ss[k as int].name == done_name());
            }
            let ni = name_idx(ss, done_name());
            if ni < k {
                assert(ss[ni].name == done_name());
            }
            if ni > k && k < ss.len() {
                assert(ss[k as int].name != done_name());
            }
            assert(ni == k);
        }
        if k < n {
            let mut sec = base.sections.remove(k);
            sec.tasks = Vec::new();
            base.sections.insert(k, sec);
            proof {
                assert(sec@.tasks =~= Seq::<Seq<char>>::empty());
                assert(base@.sections =~= clear_done(ss));
            }
        } else {
            base.sections.push(Section::new("Done"));
            proof {
                assert(base@.sections.last() =~= (SectionV {
                    name: done_name(),
                    tasks: Seq::empty(),
                }));
                assert(base@.sections =~= clear_done(ss));
            }
        }
        proof {
            assert(base@ =~= advance_day(basev, today));
        }
        self.days.push(base);
        proof {
            assert(self@ =~= dv.push(advance_day(basev, today)));
        }
    }

    /// Advances to today, then appends the task to the named section of
    /// today's day, appending a fresh section at the end when none of that
    /// name exists. A malformed task line changes nothing.
    pub fn add(&mut self, task_txt: &str, section: &str, today: Date) -> (r: Result<
        (),
        TodoError,
    >)
        ensures
            match spec_parse_task(task_txt@) {
                None => r == Err::<(), TodoError>(TodoError::MalformedTask) && final(self)@
                    == old(self)@,
                Some(t) => r == Ok::<(), TodoError>(()) && final(self)@ == spec_add(
                    old(self)@,
                    today,
                    t,
                    section@,
                ),
            },
    {
        let ghost dv = self@;
        let task = match crate::task::Task::from_str(task_txt) {
            Ok(t) => t,
            Err(e) => {
                return Err(e);
            },
        };
        self.next_day(today);
        let ghost ds = self@;
        proof {
            lemma_next_day_has_today(dv, today);
            lemma_date_idx(ds, today);
        }
        let mut di: usize = 0;
        while di < self.days.len() && !(self.days[di].date == today)
            invariant
                0 <= di <= self.days.len(),
                self@ == ds,
                forall|j: int| 0 <= j < di ==> (#[trigger] ds[j]).date != today,
            decreases self.days.len() - di,
        {
            di = di + 1;
        }
        proof {
            if di < ds.len() {
                assert(ds[di as int].date == today);
            }
            let k = date_idx(ds, today);
            if k < di {
                assert(ds[k].date == today);
            }
            if k > di && di < ds.len() {
                assert(ds[di as int].date != today);
            }
            assert(k == di);
            assert(di < ds.len());
        }
        let mut day = self.days.remove(di);
        let ghost ss = day@.sections;
        let sec_name = String::from_str(section);
        let mut si: usize = 0;
        let n = day.sections.len();
        while si < n && !(day.sections[si].name == sec_name)
            invariant
                0 <= si <= n,
                n == day.sections.len(),
                day@.sections == ss,
                sec_name@ == section@,
                forall|j: int| 0 <= j < si ==> (#[trigger] ss[j]).name != section@,
            decreases n - si,
        {
            si = si + 1;
        }
        proof {
            lemma_name_idx(ss, section@);
            if si < n {
                assert(ss[si as int].name == section@);
            }
            let ni = name_idx(ss, section@);
            if ni < si {
                assert(ss[ni].name == section@);
            }
            if ni > si && si < ss.len() {
                assert(ss[si as int].name != section@);
            }
            assert(ni == si);
        }
        if si < n {
            let mut sec = day.sections.remove(si);
            let ghost secv = sec@;
            sec.tasks.push(task);
            day.sections.insert(si, sec);
            proof {
                assert(sec@.tasks =~= secv.tasks.push(task@));
                assert(day@.sections =~= ss.update(
                    si as int,
                    SectionV { name: ss[si as int].name, tasks: ss[si as int].tasks.push(task@) },
                ));
            }
        } else {
            let mut sec = Section::new(section);
            sec.tasks.push(task);
            day.sections.push(sec);
            proof {
                assert(sec@.tasks =~= seq![task@]);
                assert(day@.sections =~= ss.push(
                    SectionV { name: section@, tasks: seq![task@] },
                ));
            }
        }
        let ghost dayv = day@;
        self.days.insert(di, day);
        proof {
            assert(ds[di as int].date == today);
            assert(dayv.date == today);
            assert(self@ =~= ds.update(di as int, dayv));
            assert(self@ =~= spec_add(dv, today, task@, section@));
        }
        Ok(())
    }
}

/// Each of the first `n` days of `a` appears somewhere in `b`.
pub open spec fn covered(a: Seq<DayV>, b: Seq<DayV>, n: int) -> bool {
    forall|k: int|
        #![trigger a[k]]
        0 <= k < n ==> exists|j: int| #![trigger b[j]] 0 <= j < b.len() && b[j] == a[k]
}

/// Structural equality of two logs' days, regardless of order: every day of
/// one appears, date and content alike, in the other.
pub open spec fn days_equiv(a: Seq<DayV>, b: Seq<DayV>) -> bool {
    &&& a.len() == b.len()
    &&& covered(a, b, a.len() as int)
    &&& covered(b, a, b.len() as int)
}

/// The log extended by every day of the file whose date it does not hold yet.
pub open spec fn merge_days(mine: Seq<DayV>, file: Seq<DayV>) -> Seq<DayV>
    decreases file.len(),
{
    if file.len() == 0 {
        mine
    } else {
        let m2 = if has_date(mine, file[0].date) {
            mine
        } else {
            mine.push(file[0])
        };
        merge_days(m2, file.drop_first())
    }
}

/// The days by descending date: the first day of the greatest date, then the
/// rest sorted the same way.
pub open spec fn sort_desc(days: Seq<DayV>) -> Seq<DayV>
    decreases days.len(),
{
    if days.len() == 0 {
        days
    } else {
        let i = last_idx(days);
        if 0 <= i < days.len() {
            seq![days[i]] + sort_desc(days.remove(i))
        } else {
            days
        }
    }
}

/// What saving against the given on-disk text does: load it (parse errors and
/// clock skew propagate); report the log as up to date when the file holds the
/// same days; otherwise merge the file's days in, order by descending date,
/// and serialize.
pub open spec fn spec_save(days: Seq<DayV>, disk: Seq<char>, today: Date) -> Result<
    (Seq<DayV>, Seq<char>),
    TodoError,
> {
    match spec_todo_load(disk, today) {
        Err(e) => Err(e),
        Ok(fdays) => if days_equiv(days, fdays) {
            Err(TodoError::UpToDate)
        } else {
            let m = sort_desc(merge_days(days, fdays));
            Ok((m, spec_ser_todo_str(m)))
        },
    }
}

fn task_eq(a: &crate::task::Task, b: &crate::task::Task) -> (r: bool)
    ensures
        r == (a@ == b@),
{
    a.text == b.text
}

fn section_eq(a: &Section, b: &Section) -> (r: bool)
    ensures
        r == (a@ == b@),
{
    if !(a.name == b.name) {
        return false;
    }
    if a.tasks.len() != b.tasks.len() {
        proof {
            assert(a@.tasks.len() != b@.tasks.len());
        }
        return false;
    }
    let mut i: usize = 0;
    while i < a.tasks.len()
        invariant
            0 <= i <= a.tasks.len(),
            a@.tasks.len() == b@.tasks.len() == a.tasks.len(),
            forall|j: int| 0 <= j < i ==> #[trigger] a@.tasks[j] == b@.tasks[j],
        decreases a.tasks.len() - i,
    {
        if !task_eq(&a.tasks[i], &b.tasks[i]) {
            proof {
                assert(a@.tasks[i as int] != b@.tasks[i as int]);
            }
            return false;
        }
        i = i + 1;
    }
    proof {
        assert(a@.tasks =~= b@.tasks);
        assert(a@ =~= b@);
    }
    true
}

fn day_eq(a: &Day, b: &Day) -> (r: bool)
    ensures
        r == (a@ == b@),
{
    if !(a.date == b.date) {
        return false;
    }
    if a.sections.len() != b.sections.len() {
        proof {
            assert(a@.sections.len() != b@.sections.len());
        }
        return false;
    }
    let mut i: usize = 0;
    while i < a.sections.len()
        invariant
            0 <= i <= a.sections.len(),
            a@.sections.len() == b@.sections.len() == a.sections.len(),
            a.date == b.date,
            forall|j: int| 0 <= j < i ==> #[trigger] a@.sections[j] == b@.sections[j],
        decreases a.sections.len() - i,
    {
        if !section_eq(&a.sections[i], &b.sections[i]) {
            proof {
                assert(a@.sections[i as int] != b@.sections[i as int]);
            }
            return false;
        }
        i = i + 1;
    }
    proof {
        assert(a@.sections =~= b@.sections);
        assert(a@ =~= b@);
    }
    true
}

impl Todo {
    /// Whether `other` holds a day equal to `d`, content and all.
    fn holds_day(&self, d: &Day) -> (r: bool)
        ensures
            r == exists|j: int| #![trigger self@[j]] 0 <= j < self@.len() && self@[j] == d@,
    {
        let mut j: usize = 0;
        while j < self.days.len()
            invariant
                0 <= j <= self.days.len(),
                forall|k: int| 0 <= k < j ==> (#[trigger] self@[k]) != d@,
            decreases self.days.len() - j,
        {
            if day_eq(&self.days[j], d) {
                proof {
                    assert(self@[j as int] == d@);
                }
                return true;
            }
            j = j + 1;
        }
        false
    }

    /// Whether the two logs hold the same days, date and content alike, in
    /// whatever order.
    pub fn equivalent(&self, other: &Todo) -> (r: bool)
        ensures
            r == days_equiv(self@, other@),
    {
        let ghost a = self@;
        let ghost b = other@;
        if self.days.len() != other.days.len() {
            proof {
                assert(a.len() != b.len());
            }
            return false;
        }
        let mut i: usize = 0;
        proof {
            assert(covered(a, b, 0));
        }
        while i < self.days.len()
            invariant
                0 <= i <= self.days.len(),
                a == self@,
                b == other@,
                a.len() == b.len() == self.days.len(),
                covered(a, b, i as int),
            decreases self.days.len() - i,
        {
            if !other.holds_day(&self.days[i]) {
                proof {
                    assert(a[i as int] == self.days[i as int]@);
                    if covered(a, b, a.len() as int) {
                        let ghost ai = a[i as int];
                        let w = choose|j: int| #![trigger b[j]] 0 <= j < b.len() && b[j] == ai;
                        assert(b[w] == self.days[i as int]@);
                    }
                    assert(!days_equiv(a, b));
                }
                return false;
            }
            proof {
                assert(a[i as int] == self.days[i as int]@);
                assert(covered(a, b, i + 1)) by {
                    assert forall|k: int| #![trigger a[k]] 0 <= k < i + 1 implies exists|j: int|
                        #![trigger b[j]]
                        0 <= j < b.len() && b[j] == a[k] by {
                        if k < i {
                            assert(covered(a, b, i as int));
                            assert(0 <= k < i);
                        }
                    }
                }
            }
            i = i + 1;
        }
        let mut j: usize = 0;
        proof {
            assert(covered(b, a, 0));
        }
        while j < other.days.len()
            invariant
                0 <= j <= other.days.len(),
                a == self@,
                b == other@,
                a.len() == b.len() == other.days.len(),
                covered(a, b, a.len() as int),
                covered(b, a, j as int),
            decreases other.days.len() - j,
        {
            if !self.holds_day(&other.days[j]) {
                proof {
                    assert(b[j as int] == other.days[j as int]@);
                    if covered(b, a, b.len() as int) {
                        let ghost bj = b[j as int];
                        let w = choose|m: int| #![trigger a[m]] 0 <= m < a.len() && a[m] == bj;
                        assert(a[w] == other.days[j as int]@);
                    }
                    assert(!days_equiv(a, b));
                }
                return false;
            }
            proof {
                assert(b[j as int] == other.days[j as int]@);
                assert(covered(b, a, j + 1)) by {
                    assert forall|k: int| #![trigger b[k]] 0 <= k < j + 1 implies exists|m: int|
                        #![trigger a[m]]
                        0 <= m < a.len() && a[m] == b[k] by {
                        if k < j {
                            assert(covered(b, a, j as int));
                            assert(0 <= k < j);
                        }
                    }
                }
            }
            j = j + 1;
        }
        proof {
            assert(days_equiv(a, b));
        }
        true
    }

    /// Appends every day of `file` whose date this log does not hold yet.
    fn merge(&mut self, file: Todo)
        ensures
            final(self)@ == merge_days(old(self)@, file@),
    {
        let mut file = file;
        let ghost orig_mine = self@;
        let ghost orig_file = file@;
        proof {
            assert(merge_days(self@, file@) == merge_days(orig_mine, orig_file));
        }
        while file.days.len() > 0
            invariant
                merge_days(self@, file@) == merge_days(orig_mine, orig_file),
            decreases file.days.len(),
        {
            let ghost pre_mine = self@;
            let ghost pre_file = file@;
            let d = file.days.remove(0);
            proof {
                assert(file@ =~= pre_file.drop_first());
                assert(d@ == pre_file[0]);
            }
            let mut k: usize = 0;
            let mut found = false;
            while k < self.days.len() && !found
                invariant
                    0 <= k <= self.days.len(),
                    self@ == pre_mine,
                    found ==> has_date(pre_mine, d@.date),
                    !found ==> forall|j: int| 0 <= j < k ==> (#[trigger] pre_mine[j]).date
                        != d@.date,
                decreases self.days.len() - k + (if found {
                    0int
                } else {
                    1int
                }),
            {
                if self.days[k].date == d.date {
                    proof {
                        assert(pre_mine[k as int].date == d@.date);
                    }
                    found = true;
                } else {
                    k = k + 1;
                }
            }
            if !found {
                proof {
                    assert(!has_date(pre_mine, d@.date));
                }
                self.days.push(d);
                proof {
                    assert(self@ =~= pre_mine.push(pre_file[0]));
                }
            }
        }
        proof {
            assert(file@.len() == 0);
        }
    }

    /// Reorders the days by descending date.
    fn sort_by_date_desc(&mut self)
        ensures
            final(self)@ == sort_desc(old(self)@),
    {
        let ghost orig = self@;
        let mut out: Vec<Day> = Vec::new();
        let mut work = Todo { days: Vec::new() };
        core::mem::swap(&mut work.days, &mut self.days);
        proof {
            assert(out.deep_view() =~= Seq::<DayV>::empty());
            assert(work@ == orig);
            assert(out.deep_view() + sort_desc(work@) =~= sort_desc(orig));
        }
        while work.days.len() > 0
            invariant
                out.deep_view() + sort_desc(work@) == sort_desc(orig),
            decreases work.days.len(),
        {
            let ghost pre_work = work@;
            let ghost pre_out = out.deep_view();
            let p = match work.last_day_pos() {
                Some(p) => p,
                None => {
                    proof {
                        assert(false);
                    }
                    0
                },
            };
            let d = work.days.remove(p);
            proof {
                lemma_last_idx(pre_work);
                assert(d@ == pre_work[p as int]);
                assert(work@ =~= pre_work.remove(p as int));
                assert(sort_desc(pre_work) == seq![pre_work[p as int]] + sort_desc(
                    pre_work.remove(p as int),
                ));
            }
            out.push(d);
            proof {
                assert(out.deep_view() =~= pre_out.push(pre_work[p as int]));
                assert(out.deep_view() + sort_desc(work@) =~= pre_out + sort_desc(pre_work));
            }
        }
        self.days = out;
        proof {
            assert(sort_desc(work@) =~= Seq::<DayV>::empty());
            assert(self@ =~= self@ + Seq::<DayV>::empty());
        }
    }

    /// Whether every day's date fits the four-digit date line.
    pub fn dates_are_valid(&self) -> (r: bool)
        ensures
            r == dates_valid(self@),
    {
        let mut i: usize = 0;
        while i < self.days.len()
            invariant
                0 <= i <= self.days.len(),
                forall|j: int| 0 <= j < i ==> (#[trigger] self@[j]).date.valid(),
            decreases self.days.len() - i,
        {
            if !self.days[i].date.is_valid() {
                proof {
                    assert(!self@[i as int].date.valid());
                }
                return false;
            }
            i = i + 1;
        }
        true
    }

    /// Saves against the given on-disk text: parse errors and clock skew
    /// propagate; an on-disk log with the same days reports the log as up to
    /// date and changes nothing; otherwise the file's days of dates this log
    /// lacks are merged in, the days are ordered by descending date, and the
    /// new file text is returned for writing.
    pub fn save(&mut self, disk: &str, today: Date) -> (r: Result<String, TodoError>)
        requires
            dates_valid(old(self)@),
        ensures
            match r {
                Err(e) => spec_save(old(self)@, disk@, today) == Err::<
                    (Seq<DayV>, Seq<char>),
                    TodoError,
                >(e) && final(self)@ == old(self)@,
                Ok(text) => spec_save(old(self)@, disk@, today) == Ok::<
                    (Seq<DayV>, Seq<char>),
                    TodoError,
                >((final(self)@, text@)),
            },
    {
        let ghost dv = self@;
        let file_todo = match Todo::load(disk, today) {
            Ok(t) => t,
            Err(e) => {
                return Err(e);
            },
        };
        if self.equivalent(&file_todo) {
            return Err(TodoError::UpToDate);
        }
        let ghost fdays = file_todo@;
        proof {
            lemma_parse_dates_valid(disk@);
            lemma_merge_dates_valid(dv, fdays);
        }
        self.merge(file_todo);
        self.sort_by_date_desc();
        proof {
            lemma_sort_dates_valid(merge_days(dv, fdays));
        }
        let text = self.serialize();
        Ok(text)
    }
}

/// Every parsed day's date fits the date line.
pub proof fn lemma_parse_days_dates_valid(blocks: Seq<Seq<Seq<char>>>)
    requires
        parse_days(blocks) is Ok,
    ensures
        dates_valid(parse_days(blocks)->Ok_0),
    decreases blocks.len(),
{
    if blocks.len() == 0 {
    } else {
        lemma_parse_days_dates_valid(blocks.drop_first());
        let d = spec_parse_day_lines(normalize_block(blocks[0]))->Ok_0;
        let rest = parse_days(blocks.drop_first())->Ok_0;
        assert(parse_days(blocks)->Ok_0 == seq![d] + rest);
        assert forall|i: int|
            0 <= i < parse_days(blocks)->Ok_0.len() implies (#[trigger] parse_days(
            blocks,
        )->Ok_0[i]).date.valid() by {
            if i > 0 {
                assert(parse_days(blocks)->Ok_0[i] == rest[i - 1]);
            }
        }
    }
}

/// Folding a day in keeps every date valid.
pub proof fn lemma_dedup_dates_valid(ds: Seq<DayV>)
    requires
        dates_valid(ds),
    ensures
        dates_valid(dedup_days(ds)),
    decreases ds.len(),
{
    if ds.len() == 0 {
    } else {
        assert(forall|i: int|
            0 <= i < ds.drop_last().len() ==> (#[trigger] ds.drop_last()[i]) == ds[i]);
        lemma_dedup_dates_valid(ds.drop_last());
        let p = dedup_days(ds.drop_last());
        lemma_date_idx(p, ds.last().date);
        let k = date_idx(p, ds.last().date);
        let r = dedup_days(ds);
        assert forall|i: int| 0 <= i < r.len() implies (#[trigger] r[i]).date.valid() by {
            if k < p.len() {
                assert(r == p.update(k, ds.last()));
                if i != k {
                    assert(r[i] == p[i]);
                }
            } else {
                assert(r == p.push(ds.last()));
                if i < p.len() {
                    assert(r[i] == p[i]);
                }
            }
        }
    }
}

/// What a load hands back has only dates the date line can hold.
pub proof fn lemma_parse_dates_valid(s: Seq<char>)
    requires
        spec_todo_parse(s) is Ok,
    ensures
        dates_valid(spec_todo_parse(s)->Ok_0),
{
    let ls = lines_of(trim(s));
    let blocks = scan_from(ls, 0, day_p(), day_p());
    lemma_parse_days_dates_valid(blocks);
    lemma_dedup_dates_valid(parse_days(blocks)->Ok_0);
}

/// Merging keeps every date valid, as long as both sides' dates are.
pub proof fn lemma_merge_dates_valid(mine: Seq<DayV>, file: Seq<DayV>)
    requires
        dates_valid(mine),
        dates_valid(file),
    ensures
        dates_valid(merge_days(mine, file)),
    decreases file.len(),
{
    if file.len() == 0 {
    } else {
        let m2 = if has_date(mine, file[0].date) {
            mine
        } else {
            mine.push(file[0])
        };
        assert(dates_valid(m2)) by {
            assert(forall|i: int|
                0 <= i < mine.len() ==> (#[trigger] m2[i]).date == mine[i].date);
        }
        assert(forall|i: int|
            0 <= i < file.drop_first().len() ==> (#[trigger] file.drop_first()[i]) == file[i
                + 1]);
        lemma_merge_dates_valid(m2, file.drop_first());
    }
}

/// Sorting keeps every date valid.
pub proof fn lemma_sort_dates_valid(days: Seq<DayV>)
    requires
        dates_valid(days),
    ensures
        dates_valid(sort_desc(days)),
    decreases days.len(),
{
    if days.len() == 0 {
    } else {
        lemma_last_idx(days);
        let i = last_idx(days);
        assert(forall|j: int|
            0 <= j < days.remove(i).len() ==> (#[trigger] days.remove(i)[j]) == if j < i {
                days[j]
            } else {
                days[j + 1]
            });
        lemma_sort_dates_valid(days.remove(i));
        let r = sort_desc(days);
        assert(forall|j: int|
            1 <= j < r.len() ==> (#[trigger] r[j]) == sort_desc(days.remove(i))[j - 1]);
    }
}

/// Merge-on-save reconciliation: the log's own days stay untouched as a
/// prefix, what comes after them is taken from the file, every date of either
/// side ends up present, and no date is duplicated.
pub proof fn lemma_merge_reconciles(mine: Seq<DayV>, file: Seq<DayV>)
    ensures
        ({
            let m = merge_days(mine, file);
            &&& m.len() >= mine.len()
            &&& forall|i: int| 0 <= i < mine.len() ==> #[trigger] m[i] == mine[i]
            &&& forall|j: int|
                #![trigger m[j]]
                mine.len() <= j < m.len() ==> exists|k: int|
                    #![trigger file[k]]
                    0 <= k < file.len() && m[j] == file[k]
            &&& forall|k: int| 0 <= k < file.len() ==> has_date(m, (#[trigger] file[k]).date)
            &&& (unique_dates(mine) ==> unique_dates(m))
        }),
    decreases file.len(),
{
    if file.len() == 0 {
    } else {
        let m2 = if has_date(mine, file[0].date) {
            mine
        } else {
            mine.push(file[0])
        };
        let fr = file.drop_first();
        lemma_merge_reconciles(m2, fr);
        let m = merge_days(mine, file);
        assert(m == merge_days(m2, fr));
        assert(forall|k: int| 0 <= k < fr.len() ==> #[trigger] fr[k] == file[k + 1]);
        assert forall|j: int| #![trigger m[j]] mine.len() <= j < m.len() implies exists|k: int|
            #![trigger file[k]]
            0 <= k < file.len() && m[j] == file[k] by {
            if j < m2.len() {
                assert(m[j] == m2[j]);
                assert(m2[j] == file[0]);
            } else {
                let k = choose|k: int| #![trigger fr[k]] 0 <= k < fr.len() && m[j] == fr[k];
                assert(m[j] == file[k + 1]);
            }
        }
        assert forall|k: int|
            0 <= k < file.len() implies has_date(m, (#[trigger] file[k]).date) by {
            if k == 0 {
                assert(has_date(m2, file[0].date)) by {
                    if has_date(mine, file[0].date) {
                    } else {
                        assert(m2[m2.len() - 1].date == file[0].date);
                    }
                }
                let w = choose|i: int|
                    0 <= i < m2.len() && (#[trigger] m2[i]).date == file[0].date;
                assert(m[w] == m2[w]);
                assert(has_date(m, file[0].date));
            } else {
                assert(has_date(m, fr[k - 1].date));
            }
        }
        if unique_dates(mine) {
            assert(unique_dates(m2)) by {
                if !has_date(mine, file[0].date) {
                    assert forall|i: int, j: int|
                        0 <= i < j < m2.len() implies (#[trigger] m2[i]).date != (
                    #[trigger] m2[j]).date by {
                        if j == m2.len() - 1 {
                            assert(m2[i] == mine[i]);
                            if mine[i].date == file[0].date {
                                assert(has_date(mine, file[0].date));
                            }
                        }
                    }
                }
            }
        }
    }
}

/// Sorting by descending date reorders the days and does nothing else: the
/// result holds the same days, and no earlier day's date is below a later
/// day's date.
#[verifier::rlimit(100)]
pub proof fn lemma_sort_desc_props(days: Seq<DayV>)
    ensures
        sort_desc(days).len() == days.len(),
        forall|i: int, j: int|
            0 <= i < j < days.len() ==> !date_lt(
                (#[trigger] sort_desc(days)[i]).date,
                (#[trigger] sort_desc(days)[j]).date,
            ),
        days_equiv(sort_desc(days), days),
        unique_dates(days) ==> unique_dates(sort_desc(days)),
    decreases days.len(),
{
    let s = sort_desc(days);
    if days.len() == 0 {
        assert(covered(s, days, 0));
        assert(covered(days, s, 0));
    } else {
        lemma_last_idx(days);
        let m = last_idx(days);
        let rest = days.remove(m);
        lemma_sort_desc_props(rest);
        let sr = sort_desc(rest);
        assert(s == seq![days[m]] + sr);
        assert(forall|i: int|
            0 <= i < rest.len() ==> #[trigger] rest[i] == if i < m {
                days[i]
            } else {
                days[i + 1]
            });
        assert(covered(s, days, s.len() as int)) by {
            assert forall|k: int| #![trigger s[k]] 0 <= k < s.len() implies exists|j: int|
                #![trigger days[j]]
                0 <= j < days.len() && days[j] == s[k] by {
                if k == 0 {
                    assert(days[m] == s[0]);
                } else {
                    assert(s[k] == sr[k - 1]);
                    assert(covered(sr, rest, sr.len() as int));
                    let w = choose|j: int|
                        #![trigger rest[j]]
                        0 <= j < rest.len() && rest[j] == sr[k - 1];
                    if w < m {
                        assert(days[w] == s[k]);
                    } else {
                        assert(days[w + 1] == s[k]);
                    }
                }
            }
        }
        assert(covered(days, s, days.len() as int)) by {
            assert forall|k: int| #![trigger days[k]] 0 <= k < days.len() implies exists|j: int|
                #![trigger s[j]]
                0 <= j < s.len() && s[j] == days[k] by {
                if k == m {
                    assert(s[0] == days[k]);
                } else {
                    let ri: int = if k < m {
                        k
                    } else {
                        k - 1
                    };
                    assert(rest[ri] == days[k]);
                    assert(covered(rest, sr, rest.len() as int));
                    let w = choose|j: int| #![trigger sr[j]] 0 <= j < sr.len() && sr[j] == rest[ri];
                    assert(s[w + 1] == days[k]);
                }
            }
        }
        assert forall|i: int, j: int|
            0 <= i < j < days.len() implies !date_lt(
            (#[trigger] s[i]).date,
            (#[trigger] s[j]).date,
        ) by {
            if i == 0 {
                assert(s[j] == sr[j - 1]);
                assert(covered(sr, rest, sr.len() as int));
                let w = choose|q: int| #![trigger rest[q]] 0 <= q < rest.len() && rest[q] == sr[j
                    - 1];
                let orig: int = if w < m {
                    w
                } else {
                    w + 1
                };
                assert(days[orig] == s[j]);
                assert(!date_lt(days[m].date, days[orig].date));
            } else {
                assert(s[i] == sr[i - 1]);
                assert(s[j] == sr[j - 1]);
            }
        }
        if unique_dates(days) {
            assert(unique_dates(rest)) by {
                assert(forall|i: int|
                    0 <= i < rest.len() ==> (#[trigger] rest[i]) == days[if i < m {
                        i
                    } else {
                        i + 1
                    }]);
            }
            assert forall|i: int, j: int|
                0 <= i < j < s.len() implies (#[trigger] s[i]).date != (#[trigger] s[j]).date by {
                if i == 0 {
                    assert(s[j] == sr[j - 1]);
                    assert(covered(sr, rest, sr.len() as int));
                    let w = choose|q: int| #![trigger rest[q]] 0 <= q < rest.len() && rest[q]
                        == sr[j - 1];
                    let orig: int = if w < m {
                        w
                    } else {
                        w + 1
                    };
                    assert(days[orig] == s[j]);
                    assert(days[m].date != days[orig].date);
                } else {
                    assert(s[i] == sr[i - 1]);
                    assert(s[j] == sr[j - 1]);
                }
            }
        }
    }
}

/// Advancing to today twice gives exactly what advancing once gives.
pub proof fn lemma_next_day_idempotent(days: Seq<DayV>, today: Date)
    ensures
        spec_next_day(spec_next_day(days, today), today) == spec_next_day(days, today),
{
    let d1 = spec_next_day(days, today);
    if !has_date(days, today) {
        assert(d1[d1.len() - 1].date == today);
        assert(has_date(d1, today));
    }
}

/// Advancing from a prior day keeps every section's tasks intact except
/// "Done", which comes out empty; a "Done" section is created at the end when
/// the prior day has none. The prior days themselves stay untouched.
pub proof fn lemma_next_day_done_reset(days: Seq<DayV>, today: Date)
    requires
        !has_date(days, today),
        days.len() > 0,
    ensures
        ({
            let base = days[last_idx(days)];
            let nd = spec_next_day(days, today);
            let k = name_idx(base.sections, done_name());
            &&& nd.len() == days.len() + 1
            &&& forall|j: int| 0 <= j < days.len() ==> #[trigger] nd[j] == days[j]
            &&& nd.last().date == today
            &&& k < base.sections.len() ==> {
                &&& nd.last().sections.len() == base.sections.len()
                &&& nd.last().sections[k].name == done_name()
                &&& nd.last().sections[k].tasks.len() == 0
                &&& forall|j: int|
                    0 <= j < base.sections.len() && j != k ==> #[trigger] nd.last().sections[j]
                        == base.sections[j]
            }
            &&& k >= base.sections.len() ==> nd.last().sections == base.sections.push(
                SectionV { name: done_name(), tasks: Seq::empty() },
            )
        }),
{
    lemma_last_idx(days);
    lemma_name_idx(days[last_idx(days)].sections, done_name());
}

/// A task added under a section name that today's day does not yet hold goes
/// into a fresh section appended after every existing one, never before.
pub proof fn lemma_add_appends_new_section(
    days: Seq<DayV>,
    today: Date,
    text: Seq<char>,
    sec: Seq<char>,
)
    requires
        ({
            let ds = spec_next_day(days, today);
            let di = date_idx(ds, today);
            forall|j: int|
                0 <= j < ds[di].sections.len() ==> (#[trigger] ds[di].sections[j]).name != sec
        }),
    ensures
        ({
            let ds = spec_next_day(days, today);
            let di = date_idx(ds, today);
            let r = spec_add(days, today, text, sec);
            &&& 0 <= di < ds.len()
            &&& r.len() == ds.len()
            &&& r[di].date == ds[di].date
            &&& r[di].sections == ds[di].sections.push(SectionV { name: sec, tasks: seq![text] })
            &&& forall|j: int| 0 <= j < ds.len() && j != di ==> #[trigger] r[j] == ds[j]
        }),
{
    lemma_next_day_has_today(days, today);
    let ds = spec_next_day(days, today);
    lemma_date_idx(ds, today);
    let di = date_idx(ds, today);
    lemma_name_idx(ds[di].sections, sec);
    let si = name_idx(ds[di].sections, sec);
    if si < ds[di].sections.len() {
        assert(ds[di].sections[si].name == sec);
    }
}

/// The section day advancement creates or empties is well-formed.
proof fn lemma_done_section_wf()
    ensures
        section_wf(SectionV { name: done_name(), tasks: Seq::empty() }),
        done_name().len() > 0,
{
    reveal_strlit("Done");
    crate::text::lemma_trim_id(done_name());
    if done_name().contains('\n') {
        let i = choose|i: int| 0 <= i < done_name().len() && done_name()[i] == '\n';
    }
}

/// Day advancement keeps every day well-formed and the dates distinct.
pub proof fn lemma_next_day_wf(days: Seq<DayV>, today: Date)
    requires
        forall|i: int| 0 <= i < days.len() ==> day_wf(#[trigger] days[i]),
        unique_dates(days),
        today.valid(),
    ensures
        forall|i: int|
            0 <= i < spec_next_day(days, today).len() ==> day_wf(
                #[trigger] spec_next_day(days, today)[i],
            ),
        unique_dates(spec_next_day(days, today)),
{
    if has_date(days, today) {
    } else {
        let base = if days.len() == 0 {
            DayV { date: today, sections: Seq::<SectionV>::empty() }
        } else {
            days[last_idx(days)]
        };
        if days.len() > 0 {
            lemma_last_idx(days);
        }
        lemma_done_section_wf();
        let ss = base.sections;
        lemma_name_idx(ss, done_name());
        let k = name_idx(ss, done_name());
        let cs = clear_done(ss);
        assert forall|j: int| 0 <= j < cs.len() implies section_wf(#[trigger] cs[j]) && (j >= 1
            ==> cs[j].name.len() > 0) by {
            if k < ss.len() {
                if j != k {
                    assert(cs[j] == ss[j]);
                } else {
                    assert(cs[j].name == ss[k].name);
                    assert(ss[k].name == done_name());
                    assert(cs[j].tasks =~= Seq::<Seq<char>>::empty());
                    assert(section_wf(ss[k]));
                }
            } else {
                if j < ss.len() {
                    assert(cs[j] == ss[j]);
                } else {
                    assert(cs[j] == (SectionV { name: done_name(), tasks: Seq::empty() }));
                }
            }
        }
        let nd = spec_next_day(days, today);
        assert forall|i: int| 0 <= i < nd.len() implies day_wf(#[trigger] nd[i]) by {
            if i < days.len() {
                assert(nd[i] == days[i]);
            } else {
                assert(nd[i] == advance_day(base, today));
            }
        }
        assert forall|i: int, j: int|
            0 <= i < j < nd.len() implies (#[trigger] nd[i]).date != (#[trigger] nd[j]).date by {
            if j == nd.len() - 1 {
                assert(nd[i] == days[i]);
                if days[i].date == today {
                    assert(has_date(days, today));
                }
            } else {
                assert(nd[i] == days[i] && nd[j] == days[j]);
            }
        }
    }
}

/// Task insertion keeps every day well-formed and the dates distinct, for a
/// well-formed task text and a named section whose name is one trimmed line
/// that no scanner mistakes for a task or a date.
pub proof fn lemma_add_wf(days: Seq<DayV>, today: Date, text: Seq<char>, sec: Seq<char>)
    requires
        forall|i: int| 0 <= i < days.len() ==> day_wf(#[trigger] days[i]),
        unique_dates(days),
        today.valid(),
        crate::task::task_wf(text),
        sec == trim(sec),
        !sec.contains('\n'),
        sec.len() > 0,
        sec[0] != '-' && sec[0] != '[',
    ensures
        forall|i: int|
            0 <= i < spec_add(days, today, text, sec).len() ==> day_wf(
                #[trigger] spec_add(days, today, text, sec)[i],
            ),
        unique_dates(spec_add(days, today, text, sec)),
{
    lemma_next_day_wf(days, today);
    lemma_next_day_has_today(days, today);
    let ds = spec_next_day(days, today);
    lemma_date_idx(ds, today);
    let di = date_idx(ds, today);
    let d = ds[di];
    lemma_name_idx(d.sections, sec);
    let si = name_idx(d.sections, sec);
    let ss2 = if si < d.sections.len() {
        d.sections.update(
            si,
            SectionV { name: d.sections[si].name, tasks: d.sections[si].tasks.push(text) },
        )
    } else {
        d.sections.push(SectionV { name: sec, tasks: seq![text] })
    };
    assert forall|j: int| 0 <= j < ss2.len() implies section_wf(#[trigger] ss2[j]) && (j >= 1
        ==> ss2[j].name.len() > 0) by {
        if si < d.sections.len() {
            if j != si {
                assert(ss2[j] == d.sections[j]);
            } else {
                let old_s = d.sections[si];
                assert(section_wf(old_s));
                assert(ss2[j].name == old_s.name);
                assert(forall|q: int|
                    0 <= q < ss2[j].tasks.len() ==> #[trigger] ss2[j].tasks[q] == if q
                        < old_s.tasks.len() {
                        old_s.tasks[q]
                    } else {
                        text
                    });
            }
        } else {
            if j < d.sections.len() {
                assert(ss2[j] == d.sections[j]);
            } else {
                assert(ss2[j] == (SectionV { name: sec, tasks: seq![text] }));
                assert(forall|q: int|
                    0 <= q < ss2[j].tasks.len() ==> #[trigger] ss2[j].tasks[q] == text);
            }
        }
    }
    let r = spec_add(days, today, text, sec);
    assert(r == ds.update(di, DayV { date: d.date, sections: ss2 }));
    assert forall|i: int| 0 <= i < r.len() implies day_wf(#[trigger] r[i]) by {
        if i != di {
            assert(r[i] == ds[i]);
        }
    }
    assert forall|i: int, j: int|
        0 <= i < j < r.len() implies (#[trigger] r[i]).date != (#[trigger] r[j]).date by {
        assert(r[i].date == ds[i].date);
        assert(r[j].date == ds[j].date);
    }
}

/// Days with pairwise distinct dates fold to themselves: nothing is replaced.
pub proof fn lemma_dedup_unique(days: Seq<DayV>)
    requires
        unique_dates(days),
    ensures
        dedup_days(days) == days,
    decreases days.len(),
{
    if days.len() == 0 {
        assert(dedup_days(days) =~= days);
    } else {
        let p = days.drop_last();
        assert(unique_dates(p)) by {
            assert(forall|i: int| 0 <= i < p.len() ==> #[trigger] p[i] == days[i]);
        }
        lemma_dedup_unique(p);
        lemma_date_idx(p, days.last().date);
        assert(!has_date(p, days.last().date)) by {
            if has_date(p, days.last().date) {
                let w = choose|i: int|
                    0 <= i < p.len() && (#[trigger] p[i]).date == days.last().date;
                assert(days[w].date == days[days.len() - 1].date);
            }
        }
        assert(dedup_days(days) == p.push(days.last()));
        assert(p.push(days.last()) =~= days);
    }
}

/// Parsing the serialized layout of well-formed days gives the days back.
#[verifier::rlimit(60)]
pub proof fn lemma_parse_days_ser(days: Seq<DayV>)
    requires
        forall|i: int| 0 <= i < days.len() ==> day_wf(#[trigger] days[i]),
    ensures
        parse_days(attach_seps(days.map_values(|d: DayV| ser_day_lines(d)))) == Ok::<
            Seq<DayV>,
            TodoError,
        >(days),
    decreases days.len(),
{
    let dmap = days.map_values(|d: DayV| ser_day_lines(d));
    let at = attach_seps(dmap);
    if days.len() == 0 {
        assert(at.len() == 0);
        assert(parse_days(at) == Ok::<Seq<DayV>, TodoError>(Seq::empty()));
        assert(days =~= Seq::<DayV>::empty());
    } else if days.len() == 1 {
        assert(at == dmap);
        assert(dmap[0] == ser_day_lines(days[0]));
        crate::day::lemma_ser_day_clean(days[0]);
        crate::scan::lemma_normalize_id(dmap[0]);
        crate::day::lemma_day_lines_round_trip(days[0]);
        assert(spec_parse_day_lines(normalize_block(at[0])) == Ok::<DayV, TodoError>(days[0]));
        assert(at.drop_first().len() == 0);
        assert(parse_days(at.drop_first()) == Ok::<Seq<DayV>, TodoError>(Seq::empty()));
        assert(parse_days(at) == Ok::<Seq<DayV>, TodoError>(
            seq![days[0]] + Seq::<DayV>::empty(),
        ));
        assert(seq![days[0]] + Seq::<DayV>::empty() =~= days);
    } else {
        assert(dmap[0] == ser_day_lines(days[0]));
        crate::day::lemma_ser_day_clean(days[0]);
        crate::scan::lemma_normalize_with_sep(dmap[0]);
        crate::day::lemma_day_lines_round_trip(days[0]);
        assert(at[0] == dmap[0].push(Seq::<char>::empty()));
        assert(spec_parse_day_lines(normalize_block(at[0])) == Ok::<DayV, TodoError>(days[0]));
        let dr = days.drop_first();
        lemma_parse_days_ser(dr);
        assert(dmap.drop_first() =~= dr.map_values(|d: DayV| ser_day_lines(d)));
        assert(at.drop_first() =~= attach_seps(dmap.drop_first()));
        assert(parse_days(at.drop_first()) == Ok::<Seq<DayV>, TodoError>(dr));
        assert(parse_days(at) == Ok::<Seq<DayV>, TodoError>(seq![days[0]] + dr));
        assert(seq![days[0]] + dr =~= days);
    }
}

/// Round trip for the whole log: parsing the serialized text of well-formed,
/// uniquely dated days gives the days back, in the same order.
pub proof fn lemma_todo_round_trip(days: Seq<DayV>)
    requires
        forall|i: int| 0 <= i < days.len() ==> day_wf(#[trigger] days[i]),
        unique_dates(days),
    ensures
        spec_todo_parse(spec_ser_todo_str(days)) == Ok::<Seq<DayV>, TodoError>(days),
{
    let dmap = days.map_values(|d: DayV| ser_day_lines(d));
    let lines = ser_todo_lines(days);
    let text = spec_ser_todo_str(days);
    if days.len() == 0 {
        assert(dmap.len() == 0);
        assert(lines =~= Seq::<Seq<char>>::empty());
        assert(text =~= Seq::<char>::empty());
        crate::text::lemma_trim_id(text);
        assert(lines_of(trim(text)) =~= Seq::<Seq<char>>::empty());
        crate::scan::lemma_scan_step(lines_of(trim(text)), 0, day_p(), day_p());
        assert(dedup_days(Seq::<DayV>::empty()) =~= Seq::<DayV>::empty());
        assert(days =~= Seq::<DayV>::empty());
    } else {
        assert forall|k: int|
            0 <= k < dmap.len() implies (#[trigger] dmap[k]).len() > 0 && day_p()(dmap[k][0]) && (
        forall|j: int| 1 <= j < dmap[k].len() ==> !day_p()(#[trigger] dmap[k][j])) && dmap[k][0].len()
            > 0 && !crate::text::is_ws(dmap[k][0][0]) && dmap[k].last().len() > 0
            && !crate::text::is_ws(dmap[k].last().last()) && (forall|j: int|
            0 <= j < dmap[k].len() ==> !(#[trigger] dmap[k][j]).contains('\n')) by {
            assert(dmap[k] == ser_day_lines(days[k]));
            crate::day::lemma_ser_day_clean(days[k]);
        }
        assert(!day_p()(Seq::<char>::empty())) by {
            crate::text::lemma_trim_id(Seq::<char>::empty());
        }
        assert(lines.subrange(0, lines.len() as int) =~= blocks_join(dmap));
        crate::scan::lemma_scan_blocks(lines, 0, dmap, day_p(), day_p());
        lemma_parse_days_ser(days);
        lemma_dedup_unique(days);
        assert(lines[0].len() > 0 && lines[0][0] == dmap[0][0][0] && !crate::text::is_ws(
            lines[0][0],
        )) by {
            if dmap.len() == 1 {
                assert(lines == dmap[0]);
            } else {
                assert(lines[0] == dmap[0][0]);
            }
            assert(spec_is_day_start(lines[0]));
            crate::text::lemma_trim_props(lines[0]);
            crate::text::lemma_trim_first(lines[0]);
            if lines[0].len() > 0 && crate::text::is_ws(lines[0][0]) {
                assert(crate::text::ws_prefix(lines[0]) != 0) by {
                    crate::text::lemma_ws_prefix(lines[0]);
                }
            }
        }
        crate::scan::lemma_blocks_join_last(dmap);
        assert(lines.last() == dmap.last().last());
        let no_nl = |l: Seq<char>| !l.contains('\n');
        assert forall|k: int, j: int|
            0 <= k < dmap.len() && 0 <= j < dmap[k].len() implies no_nl(#[trigger] dmap[k][j]) by {
            assert(!dmap[k][j].contains('\n'));
        }
        assert(no_nl(Seq::<char>::empty())) by {
            if Seq::<char>::empty().contains('\n') {
                let w = choose|i: int| 0 <= i < 0 && Seq::<char>::empty()[i] == '\n';
            }
        }
        crate::scan::lemma_blocks_join_all(dmap, no_nl);
        assert(forall|j: int| 0 <= j < lines.len() ==> !(#[trigger] lines[j]).contains('\n')) by {
            assert(forall|j: int| 0 <= j < lines.len() ==> no_nl(#[trigger] lines[j]));
        }
        crate::text::lemma_join_ends(lines, seq!['\n']);
        crate::text::lemma_trim_id(text);
        crate::text::lemma_lines_of_join(lines);
    }
}

/// Every day parsed out of a scan of newline-free lines is well-formed.
proof fn lemma_parse_days_wf(ls: Seq<Seq<char>>, i: int)
    requires
        0 <= i <= ls.len(),
        forall|j: int| 0 <= j < ls.len() ==> !(#[trigger] ls[j]).contains('\n'),
        parse_days(scan_from(ls, i, day_p(), day_p())) is Ok,
    ensures
        forall|k: int|
            0 <= k < parse_days(scan_from(ls, i, day_p(), day_p()))->Ok_0.len() ==> day_wf(
                #[trigger] parse_days(scan_from(ls, i, day_p(), day_p()))->Ok_0[k],
            ),
    decreases ls.len() - i,
{
    let p = day_p();
    crate::scan::lemma_find_from(ls, i, p);
    crate::scan::lemma_scan_step(ls, i, p, p);
    let s = find_from(ls, i, p);
    if s >= ls.len() {
    } else {
        crate::scan::lemma_find_from(ls, s + 1, p);
        let e = find_from(ls, s + 1, p);
        let block = ls.subrange(s, e);
        assert(forall|j: int| 0 <= j < block.len() ==> #[trigger] block[j] == ls[s + j]);
        assert(forall|j: int| 0 <= j < block.len() ==> !(#[trigger] block[j]).contains('\n'));
        crate::scan::lemma_normalize_no_nl(block);
        assert(scan_from(ls, i, p, p) == seq![block] + scan_from(ls, e, p, p));
        assert(scan_from(ls, i, p, p)[0] == block);
        assert(scan_from(ls, i, p, p).drop_first() =~= scan_from(ls, e, p, p));
        assert(spec_parse_day_lines(normalize_block(block)) is Ok);
        crate::day::lemma_parse_day_wf(normalize_block(block));
        let d = spec_parse_day_lines(normalize_block(block))->Ok_0;
        lemma_parse_days_wf(ls, e);
        let rest = parse_days(scan_from(ls, e, p, p))->Ok_0;
        let ds = parse_days(scan_from(ls, i, p, p))->Ok_0;
        assert(ds == seq![d] + rest);
        assert forall|k: int| 0 <= k < ds.len() implies day_wf(#[trigger] ds[k]) by {
            if k > 0 {
                assert(ds[k] == rest[k - 1]);
            }
        }
    }
}

/// Folding the parsed days in keeps each well-formed and leaves the dates
/// pairwise distinct.
pub proof fn lemma_dedup_wf(ds: Seq<DayV>)
    requires
        forall|i: int| 0 <= i < ds.len() ==> day_wf(#[trigger] ds[i]),
    ensures
        forall|i: int| 0 <= i < dedup_days(ds).len() ==> day_wf(#[trigger] dedup_days(ds)[i]),
        unique_dates(dedup_days(ds)),
    decreases ds.len(),
{
    if ds.len() == 0 {
    } else {
        assert(forall|i: int|
            0 <= i < ds.drop_last().len() ==> (#[trigger] ds.drop_last()[i]) == ds[i]);
        lemma_dedup_wf(ds.drop_last());
        let p = dedup_days(ds.drop_last());
        lemma_date_idx(p, ds.last().date);
        let k = date_idx(p, ds.last().date);
        let r = dedup_days(ds);
        assert forall|i: int| 0 <= i < r.len() implies day_wf(#[trigger] r[i]) by {
            if k < p.len() {
                assert(r == p.update(k, ds.last()));
                if i != k {
                    assert(r[i] == p[i]);
                }
            } else {
                assert(r == p.push(ds.last()));
                if i < p.len() {
                    assert(r[i] == p[i]);
                }
            }
        }
        assert forall|i: int, j: int|
            0 <= i < j < r.len() implies (#[trigger] r[i]).date != (#[trigger] r[j]).date by {
            if k < p.len() {
                assert(r == p.update(k, ds.last()));
                assert(p[k].date == ds.last().date);
                if i != k {
                    assert(r[i] == p[i]);
                }
                if j != k {
                    assert(r[j] == p[j]);
                }
                if i == k {
                    assert(r[i].date == p[k].date);
                }
                if j == k {
                    assert(r[j].date == p[k].date);
                }
            } else {
                assert(!has_date(p, ds.last().date));
                assert(r == p.push(ds.last()));
                if j < p.len() {
                    assert(r[i] == p[i] && r[j] == p[j]);
                } else {
                    assert(r[i] == p[i]);
                    if p[i].date == ds.last().date {
                        assert(has_date(p, ds.last().date));
                    }
                }
            }
        }
    }
}

/// What a load hands back is round-trip-safe: every day well-formed, the dates
/// pairwise distinct, none past today.
pub proof fn lemma_load_wf(s: Seq<char>, today: Date)
    requires
        spec_todo_load(s, today) is Ok,
    ensures
        ({
            let days = spec_todo_load(s, today)->Ok_0;
            &&& forall|k: int| 0 <= k < days.len() ==> day_wf(#[trigger] days[k])
            &&& unique_dates(days)
            &&& !exceeds(days, today)
        }),
{
    let ls = lines_of(trim(s));
    crate::text::lemma_lines_of_no_nl(trim(s));
    lemma_parse_days_wf(ls, 0);
    lemma_dedup_wf(parse_days(scan_from(ls, 0, day_p(), day_p()))->Ok_0);
}

/// The up-to-date short circuit holds of any loaded log as it stands: saving
/// what a load handed back, against that log's own serialization, reports it
/// as up to date.
pub proof fn lemma_load_then_save_up_to_date(s: Seq<char>, today: Date)
    requires
        spec_todo_load(s, today) is Ok,
    ensures
        ({
            let days = spec_todo_load(s, today)->Ok_0;
            spec_save(days, spec_ser_todo_str(days), today) == Err::<
                (Seq<DayV>, Seq<char>),
                TodoError,
            >(TodoError::UpToDate)
        }),
{
    lemma_load_wf(s, today);
    lemma_save_up_to_date(spec_todo_load(s, today)->Ok_0, today);
}

/// The up-to-date short circuit: saving a log against a file that holds that
/// log's own serialization reports it as up to date, so nothing is written
/// and the file's bytes stay as they are.
pub proof fn lemma_save_up_to_date(days: Seq<DayV>, today: Date)
    requires
        forall|i: int| 0 <= i < days.len() ==> day_wf(#[trigger] days[i]),
        unique_dates(days),
        !exceeds(days, today),
    ensures
        spec_save(days, spec_ser_todo_str(days), today) == Err::<
            (Seq<DayV>, Seq<char>),
            TodoError,
        >(TodoError::UpToDate),
{
    lemma_todo_round_trip(days);
    assert(spec_todo_load(spec_ser_todo_str(days), today) == Ok::<Seq<DayV>, TodoError>(days));
    assert(covered(days, days, days.len() as int)) by {
        assert forall|k: int| #![trigger days[k]] 0 <= k < days.len() implies exists|j: int|
            #![trigger days[j]]
            0 <= j < days.len() && days[j] == days[k] by {
            assert(0 <= k < days.len() && days[k] == days[k]);
        }
    }
    assert(days_equiv(days, days));
}

/// Saving twice in a row with no change between the calls: whenever the first
/// save writes, a second save against the text just written reports the log as
/// up to date, so nothing is written and the file's bytes stay as they are.
pub proof fn lemma_save_then_save_up_to_date(days: Seq<DayV>, disk: Seq<char>, today: Date)
    requires
        forall|i: int| 0 <= i < days.len() ==> day_wf(#[trigger] days[i]),
        unique_dates(days),
        !exceeds(days, today),
        spec_save(days, disk, today) is Ok,
    ensures
        ({
            let saved = spec_save(days, disk, today)->Ok_0;
            spec_save(saved.0, saved.1, today) == Err::<(Seq<DayV>, Seq<char>), TodoError>(
                TodoError::UpToDate,
            )
        }),
{
    let fdays = spec_todo_load(disk, today)->Ok_0;
    lemma_load_wf(disk, today);
    let m = merge_days(days, fdays);
    lemma_merge_reconciles(days, fdays);
    assert forall|j: int|
        0 <= j < m.len() implies day_wf(#[trigger] m[j]) && !date_lt(today, m[j].date) by {
        if j < days.len() {
            assert(m[j] == days[j]);
            if date_lt(today, days[j].date) {
                assert(exceeds(days, today));
            }
        } else {
            let k = choose|k: int| #![trigger fdays[k]] 0 <= k < fdays.len() && m[j] == fdays[k];
            if date_lt(today, fdays[k].date) {
                assert(exceeds(fdays, today));
            }
        }
    }
    let d2 = sort_desc(m);
    lemma_sort_desc_props(m);
    assert forall|j: int|
        0 <= j < d2.len() implies day_wf(#[trigger] d2[j]) && !date_lt(today, d2[j].date) by {
        assert(covered(d2, m, d2.len() as int));
        let w = choose|q: int| #![trigger m[q]] 0 <= q < m.len() && m[q] == d2[j];
        assert(day_wf(m[w]) && !date_lt(today, m[w].date));
    }
    assert(!exceeds(d2, today));
    lemma_save_up_to_date(d2, today);
}

/// A log whose parsed days reach past today refuses to load, with clock skew.
pub proof fn lemma_load_clock_skew(s: Seq<char>, today: Date)
    requires
        spec_todo_parse(s) is Ok,
        exceeds(spec_todo_parse(s)->Ok_0, today),
    ensures
        spec_todo_load(s, today) == Err::<Seq<DayV>, TodoError>(TodoError::ClockSkew),
{
}

} // verus!
