//! Character-level text model: whitespace, trimming, splitting a text into
//! lines and joining lines back, together with the executable counterparts.

use vstd::prelude::*;

use itertools::Itertools;

verus! {

/// A white-space character: the Unicode `White_Space` set, what trimming and
/// blank-line detection go by.
pub open spec fn is_ws(c: char) -> bool {
    c == ' ' || c == '\t' || c == '\n' || c == '\u{0B}' || c == '\u{0C}' || c == '\r' || c
        == '\u{85}' || c == '\u{A0}' || c == '\u{1680}' || c == '\u{2000}' || c == '\u{2001}'
        || c == '\u{2002}' || c == '\u{2003}' || c == '\u{2004}' || c == '\u{2005}' || c
        == '\u{2006}' || c == '\u{2007}' || c == '\u{2008}' || c == '\u{2009}' || c
        == '\u{200A}' || c == '\u{2028}' || c == '\u{2029}' || c == '\u{202F}' || c
        == '\u{205F}' || c == '\u{3000}'
}

/// A line is blank when every character is whitespace (so also when empty).
pub open spec fn is_blank(l: Seq<char>) -> bool {
    forall|i: int| 0 <= i < l.len() ==> is_ws(#[trigger] l[i])
}

/// Length of the run of whitespace at the front of `s`.
pub open spec fn ws_prefix(s: Seq<char>) -> int
    decreases s.len(),
{
    if s.len() == 0 || !is_ws(s[0]) {
        0
    } else {
        1 + ws_prefix(s.drop_first())
    }
}

/// Length of the run of whitespace at the back of `s`.
pub open spec fn ws_suffix(s: Seq<char>) -> int
    decreases s.len(),
{
    if s.len() == 0 || !is_ws(s.last()) {
        0
    } else {
        1 + ws_suffix(s.drop_last())
    }
}

/// `s` without its leading whitespace.
pub open spec fn ltrim(s: Seq<char>) -> Seq<char> {
    s.subrange(ws_prefix(s), s.len() as int)
}

/// `s` without its trailing whitespace.
pub open spec fn rtrim(s: Seq<char>) -> Seq<char> {
    s.subrange(0, s.len() - ws_suffix(s))
}

/// `s` without leading and trailing whitespace.
pub open spec fn trim(s: Seq<char>) -> Seq<char> {
    ltrim(rtrim(s))
}

pub proof fn lemma_ws_prefix(s: Seq<char>)
    ensures
        0 <= ws_prefix(s) <= s.len(),
        forall|i: int| 0 <= i < ws_prefix(s) ==> is_ws(#[trigger] s[i]),
        ws_prefix(s) < s.len() ==> !is_ws(s[ws_prefix(s)]),
    decreases s.len(),
{
    if s.len() == 0 || !is_ws(s[0]) {
    } else {
        lemma_ws_prefix(s.drop_first());
        assert forall|i: int| 0 <= i < ws_prefix(s) implies is_ws(#[trigger] s[i]) by {
            if i > 0 {
                assert(s.drop_first()[i - 1] == s[i]);
            }
        }
        if ws_prefix(s) < s.len() {
            assert(s.drop_first()[ws_prefix(s) - 1] == s[ws_prefix(s)]);
        }
    }
}

pub proof fn lemma_ws_suffix(s: Seq<char>)
    ensures
        0 <= ws_suffix(s) <= s.len(),
        forall|i: int| s.len() - ws_suffix(s) <= i < s.len() ==> is_ws(#[trigger] s[i]),
        ws_suffix(s) < s.len() ==> !is_ws(s[s.len() - ws_suffix(s) - 1]),
    decreases s.len(),
{
    if s.len() == 0 || !is_ws(s.last()) {
    } else {
        lemma_ws_suffix(s.drop_last());
        assert forall|i: int| s.len() - ws_suffix(s) <= i < s.len() implies is_ws(
            #[trigger] s[i],
        ) by {
            if i < s.len() - 1 {
                assert(s.drop_last()[i] == s[i]);
            }
        }
        if ws_suffix(s) < s.len() {
            assert(s.drop_last()[s.len() - ws_suffix(s) - 1] == s[s.len() - ws_suffix(s) - 1]);
        }
    }
}

/// Trimming a string that neither starts nor ends with whitespace changes nothing.
pub proof fn lemma_trim_id(s: Seq<char>)
    requires
        s.len() > 0 ==> !is_ws(s[0]) && !is_ws(s.last()),
    ensures
        trim(s) == s,
        ltrim(s) == s,
        rtrim(s) == s,
{
    lemma_ws_prefix(s);
    lemma_ws_suffix(s);
    if s.len() == 0 {
        assert(ltrim(s) =~= s);
        assert(rtrim(s) =~= s);
        assert(trim(s) =~= s);
    } else {
        assert(ws_prefix(s) == 0);
        assert(ws_suffix(s) == 0);
        assert(ltrim(s) =~= s);
        assert(rtrim(s) =~= s);
        assert(trim(s) =~= s);
    }
}

pub proof fn lemma_trim_props(s: Seq<char>)
    ensures
        trim(s).len() <= s.len(),
        trim(s).len() > 0 ==> !is_ws(trim(s)[0]) && !is_ws(trim(s).last()),
        trim(s).len() == 0 <==> is_blank(s),
{
    lemma_ws_suffix(s);
    let r = rtrim(s);
    lemma_ws_prefix(r);
    let t = trim(s);
    if t.len() > 0 {
        assert(!is_ws(t[0]));
        assert(t.last() == r.last());
        assert(!is_ws(r.last())) by {
            if ws_suffix(s) < s.len() {
                assert(r.last() == s[s.len() - ws_suffix(s) - 1]);
            } else {
                assert(r.len() == 0);
            }
        }
        assert(!is_blank(s)) by {
            assert(s[ws_prefix(r)] == r[ws_prefix(r)]);
            assert(!is_ws(s[ws_prefix(r)]));
        }
    } else {
        assert forall|i: int| 0 <= i < s.len() implies is_ws(#[trigger] s[i]) by {
            if i < s.len() - ws_suffix(s) {
                assert(r[i] == s[i]);
                assert(i < ws_prefix(r));
            }
        }
    }
}

/// Index of the first newline in `s`, or `s.len()` if there is none.
pub open spec fn nl_pos(s: Seq<char>) -> int
    decreases s.len(),
{
    if s.len() == 0 {
        0
    } else if s[0] == '\n' {
        0
    } else {
        1 + nl_pos(s.drop_first())
    }
}

pub proof fn lemma_nl_pos(s: Seq<char>)
    ensures
        0 <= nl_pos(s) <= s.len(),
        forall|i: int| 0 <= i < nl_pos(s) ==> #[trigger] s[i] != '\n',
        nl_pos(s) < s.len() ==> s[nl_pos(s)] == '\n',
    decreases s.len(),
{
    if s.len() == 0 || s[0] == '\n' {
    } else {
        lemma_nl_pos(s.drop_first());
        assert forall|i: int| 0 <= i < nl_pos(s) implies #[trigger] s[i] != '\n' by {
            if i > 0 {
                assert(s.drop_first()[i - 1] == s[i]);
            }
        }
        if nl_pos(s) < s.len() {
            assert(s.drop_first()[nl_pos(s) - 1] == s[nl_pos(s)]);
        }
    }
}

/// The first newline is wherever a newline first stands.
pub proof fn lemma_nl_pos_unique(s: Seq<char>, m: int)
    requires
        0 <= m <= s.len(),
        forall|i: int| 0 <= i < m ==> #[trigger] s[i] != '\n',
        m < s.len() ==> s[m] == '\n',
    ensures
        nl_pos(s) == m,
{
    lemma_nl_pos(s);
}

/// The lines of a text: maximal newline-free pieces; a trailing newline does
/// not open a final empty line, and the empty text has no lines.
pub open spec fn lines_of(s: Seq<char>) -> Seq<Seq<char>>
    decreases s.len(),
    via lines_of_decreases
{
    if s.len() == 0 {
        Seq::empty()
    } else {
        let k = nl_pos(s);
        if k >= s.len() {
            seq![s]
        } else {
            seq![s.subrange(0, k)] + lines_of(s.subrange(k + 1, s.len() as int))
        }
    }
}

#[via_fn]
proof fn lines_of_decreases(s: Seq<char>) {
    lemma_nl_pos(s);
}

/// The pieces with the separator between them.
pub open spec fn join_with(ls: Seq<Seq<char>>, sep: Seq<char>) -> Seq<char>
    decreases ls.len(),
{
    if ls.len() == 0 {
        Seq::empty()
    } else if ls.len() == 1 {
        ls[0]
    } else {
        ls[0] + sep + join_with(ls.drop_first(), sep)
    }
}

/// Splitting a newline-joined list of newline-free lines gives the lines back,
/// as long as the last line is not empty.
pub proof fn lemma_lines_of_join(ls: Seq<Seq<char>>)
    requires
        ls.len() > 0,
        forall|i: int| 0 <= i < ls.len() ==> !(#[trigger] ls[i]).contains('\n'),
        ls.last().len() > 0,
    ensures
        lines_of(join_with(ls, seq!['\n'])) == ls,
    decreases ls.len(),
{
    let nl = seq!['\n'];
    let j = join_with(ls, nl);
    if ls.len() == 1 {
        assert(j == ls[0]);
        assert(forall|i: int| 0 <= i < j.len() ==> #[trigger] j[i] != '\n') by {
            assert(forall|i: int| 0 <= i < j.len() ==> ls[0][i] == #[trigger] j[i]);
        }
        lemma_nl_pos_unique(j, j.len() as int);
        assert(lines_of(j) =~= ls);
    } else {
        let rest = join_with(ls.drop_first(), nl);
        assert(j == ls[0] + nl + rest);
        let m = ls[0].len() as int;
        assert forall|i: int| 0 <= i < m implies #[trigger] j[i] != '\n' by {
            assert(j[i] == ls[0][i]);
            assert(!ls[0].contains('\n'));
        }
        assert(j[m] == '\n');
        lemma_nl_pos_unique(j, m);
        assert(ls.drop_first().last().len() > 0);
        lemma_lines_of_join(ls.drop_first());
        assert(j.subrange(0, m) =~= ls[0]);
        assert(j.subrange(m + 1, j.len() as int) =~= rest);
        assert(rest.len() > 0) by {
            if ls.drop_first().len() == 1 {
                assert(rest == ls.drop_first()[0]);
                assert(ls.drop_first()[0] == ls.last());
            } else {
                assert(rest[0] == ls.drop_first()[0][0] || rest.len() > ls.drop_first()[0].len());
            }
        }
        assert(m < j.len());
        assert(lines_of(j) =~= seq![ls[0]] + lines_of(rest));
        assert(seq![ls[0]] + ls.drop_first() =~= ls);
    }
}

/// Trimming introduces no character that the string did not hold.
pub proof fn lemma_trim_contains(s: Seq<char>, c: char)
    requires
        trim(s).contains(c),
    ensures
        s.contains(c),
{
    let r = rtrim(s);
    lemma_ws_suffix(s);
    lemma_ws_prefix(r);
    let p = ws_prefix(r);
    let t = trim(s);
    let i = choose|i: int| 0 <= i < t.len() && t[i] == c;
    assert(t[i] == r[p + i]);
    assert(r[p + i] == s[p + i]);
    assert(s[p + i] == c);
}

/// Dropping leading whitespace introduces no character.
pub proof fn lemma_ltrim_contains(s: Seq<char>, c: char)
    requires
        ltrim(s).contains(c),
    ensures
        s.contains(c),
{
    lemma_ws_prefix(s);
    let p = ws_prefix(s);
    let t = ltrim(s);
    let i = choose|i: int| 0 <= i < t.len() && t[i] == c;
    assert(s[p + i] == c);
}

/// Dropping trailing whitespace introduces no character.
pub proof fn lemma_rtrim_contains(s: Seq<char>, c: char)
    requires
        rtrim(s).contains(c),
    ensures
        s.contains(c),
{
    lemma_ws_suffix(s);
    let t = rtrim(s);
    let i = choose|i: int| 0 <= i < t.len() && t[i] == c;
    assert(s[i] == c);
}

/// Every line produced by the line split is newline-free.
pub proof fn lemma_lines_of_no_nl(s: Seq<char>)
    ensures
        forall|i: int|
            0 <= i < lines_of(s).len() ==> !(#[trigger] lines_of(s)[i]).contains('\n'),
    decreases s.len(),
{
    if s.len() == 0 {
    } else {
        let k = nl_pos(s);
        lemma_nl_pos(s);
        if k >= s.len() {
            assert forall|i: int| 0 <= i < lines_of(s).len() implies !(
            #[trigger] lines_of(s)[i]).contains('\n') by {
                assert(lines_of(s)[i] == s);
                if s.contains('\n') {
                    let j = choose|j: int| 0 <= j < s.len() && s[j] == '\n';
                    assert(s[j] != '\n');
                }
            }
        } else {
            let head = s.subrange(0, k);
            let tail = s.subrange(k + 1, s.len() as int);
            lemma_lines_of_no_nl(tail);
            assert forall|i: int| 0 <= i < lines_of(s).len() implies !(
            #[trigger] lines_of(s)[i]).contains('\n') by {
                if i == 0 {
                    assert(lines_of(s)[0] == head);
                    if head.contains('\n') {
                        let j = choose|j: int| 0 <= j < head.len() && head[j] == '\n';
                        assert(s[j] == '\n');
                    }
                } else {
                    assert(lines_of(s)[i] == lines_of(tail)[i - 1]);
                }
            }
        }
    }
}

/// The run of leading whitespace ends exactly where whitespace stops.
pub proof fn lemma_ws_prefix_unique(s: Seq<char>, m: int)
    requires
        0 <= m <= s.len(),
        forall|i: int| 0 <= i < m ==> is_ws(#[trigger] s[i]),
        m < s.len() ==> !is_ws(s[m]),
    ensures
        ws_prefix(s) == m,
{
    lemma_ws_prefix(s);
}

/// The run of trailing whitespace starts exactly where whitespace starts.
pub proof fn lemma_ws_suffix_unique(s: Seq<char>, m: int)
    requires
        0 <= m <= s.len(),
        forall|i: int| s.len() - m <= i < s.len() ==> is_ws(#[trigger] s[i]),
        m < s.len() ==> !is_ws(s[s.len() - m - 1]),
    ensures
        ws_suffix(s) == m,
{
    lemma_ws_suffix(s);
}

/// A non-blank string's trim is non-empty and starts at the first
/// non-whitespace character.
pub proof fn lemma_trim_first(s: Seq<char>)
    requires
        !is_blank(s),
    ensures
        trim(s).len() > 0,
        trim(s)[0] == s[ws_prefix(s)],
        0 <= ws_prefix(s) < s.len(),
{
    lemma_trim_props(s);
    lemma_ws_suffix(s);
    let r = rtrim(s);
    lemma_ws_prefix(r);
    lemma_ws_prefix(s);
    let p = ws_prefix(s);
    assert(p < s.len());
    assert(!is_ws(s[p]));
    assert(p < s.len() - ws_suffix(s)) by {
        if p >= s.len() - ws_suffix(s) {
            assert(is_ws(s[p]));
        }
    }
    assert(forall|i: int| 0 <= i < p ==> is_ws(#[trigger] r[i]));
    assert(r[p] == s[p]);
    lemma_ws_prefix_unique(r, p);
    assert(trim(s)[0] == r[p]);
}

fn is_ws_char(c: char) -> (b: bool)
    ensures
        b == is_ws(c),
{
    c == ' ' || c == '\t' || c == '\n' || c == '\u{0B}' || c == '\u{0C}' || c == '\r' || c
        == '\u{85}' || c == '\u{A0}' || c == '\u{1680}' || c == '\u{2000}' || c == '\u{2001}'
        || c == '\u{2002}' || c == '\u{2003}' || c == '\u{2004}' || c == '\u{2005}' || c
        == '\u{2006}' || c == '\u{2007}' || c == '\u{2008}' || c == '\u{2009}' || c
        == '\u{200A}' || c == '\u{2028}' || c == '\u{2029}' || c == '\u{202F}' || c
        == '\u{205F}' || c == '\u{3000}'
}

/// Index of the first non-whitespace character, or the length if all are.
pub fn first_non_ws(s: &str) -> (p: usize)
    ensures
        p == ws_prefix(s@),
{
    let n = s.unicode_len();
    let mut p: usize = 0;
    while p < n && is_ws_char(s.get_char(p))
        invariant
            0 <= p <= n,
            forall|i: int| 0 <= i < p ==> is_ws(#[trigger] s@[i]),
        decreases n - p,
    {
        p = p + 1;
    }
    proof {
        lemma_ws_prefix_unique(s@, p as int);
    }
    p
}

/// Whether every character of the line is whitespace.
pub fn is_blank_str(s: &str) -> (b: bool)
    ensures
        b == is_blank(s@),
{
    let p = first_non_ws(s);
    proof {
        lemma_ws_prefix(s@);
        if p == s@.len() {
            assert(is_blank(s@));
        }
    }
    p == s.unicode_len()
}

/// The string without leading and trailing whitespace.
pub fn trim_str(s: &str) -> (r: &str)
    ensures
        r@ == trim(s@),
{
    let n = s.unicode_len();
    let mut e: usize = n;
    while e > 0 && is_ws_char(s.get_char(e - 1))
        invariant
            0 <= e <= n,
            forall|i: int| e <= i < n ==> is_ws(#[trigger] s@[i]),
        decreases e,
    {
        e = e - 1;
    }
    proof {
        lemma_ws_suffix_unique(s@, n - e);
    }
    let ghost rv = rtrim(s@);
    proof {
        assert(rv =~= s@.subrange(0, e as int));
    }
    let mut p: usize = 0;
    while p < e && is_ws_char(s.get_char(p))
        invariant
            0 <= p <= e <= n,
            forall|i: int| 0 <= i < p ==> is_ws(#[trigger] s@[i]),
        decreases e - p,
    {
        p = p + 1;
    }
    proof {
        assert(forall|i: int| 0 <= i < p ==> is_ws(#[trigger] rv[i]));
        if p < e {
            assert(!is_ws(rv[p as int]));
        }
        lemma_ws_prefix_unique(rv, p as int);
        assert(trim(s@) =~= s@.subrange(p as int, e as int));
    }
    s.substring_char(p, e)
}

/// The string without its leading whitespace.
pub fn ltrim_str(s: &str) -> (r: &str)
    ensures
        r@ == ltrim(s@),
{
    let p = first_non_ws(s);
    proof {
        lemma_ws_prefix(s@);
    }
    s.substring_char(p, s.unicode_len())
}

/// The string without its trailing whitespace.
pub fn rtrim_str(s: &str) -> (r: &str)
    ensures
        r@ == rtrim(s@),
{
    let n = s.unicode_len();
    let mut e: usize = n;
    while e > 0 && is_ws_char(s.get_char(e - 1))
        invariant
            0 <= e <= n,
            forall|i: int| e <= i < n ==> is_ws(#[trigger] s@[i]),
        decreases e,
    {
        e = e - 1;
    }
    proof {
        lemma_ws_suffix_unique(s@, n - e);
    }
    s.substring_char(0, e)
}

/// The lines of the text, split at newlines.
pub fn split_lines(s: &str) -> (r: Vec<String>)
    ensures
        r.deep_view() == lines_of(s@),
{
    let n = s.unicode_len();
    let mut r: Vec<String> = Vec::new();
    let mut start: usize = 0;
    let mut i: usize = 0;
    proof {
        assert(r.deep_view() =~= Seq::<Seq<char>>::empty());
        assert(s@.subrange(0, n as int) =~= s@);
    }
    while i < n
        invariant
            0 <= start <= i <= n,
            n == s@.len(),
            forall|j: int| start <= j < i ==> s@[j] != '\n',
            lines_of(s@) == r.deep_view() + lines_of(s@.subrange(start as int, n as int)),
        decreases n - i,
    {
        if s.get_char(i) == '\n' {
            let line = s.substring_char(start, i);
            let ghost old_deep = r.deep_view();
            r.push(String::from_str(line));
            proof {
                let t = s@.subrange(start as int, n as int);
                lemma_nl_pos_unique(t, i - start);
                assert(t.subrange(0, i - start) =~= s@.subrange(start as int, i as int));
                assert(t.subrange(i - start + 1, t.len() as int) =~= s@.subrange(
                    i + 1,
                    n as int,
                ));
                assert(lines_of(t) == seq![line@] + lines_of(s@.subrange(i + 1, n as int)));
                assert(r.deep_view() =~= old_deep.push(line@));
                assert(r.deep_view() + lines_of(s@.subrange(i + 1, n as int)) =~= old_deep
                    + lines_of(t));
            }
            start = i + 1;
        }
        i = i + 1;
    }
    let ghost old_deep = r.deep_view();
    let ghost t = s@.subrange(start as int, n as int);
    if start < n {
        let line = s.substring_char(start, n);
        r.push(String::from_str(line));
        proof {
            lemma_nl_pos_unique(t, t.len() as int);
            assert(lines_of(t) =~= seq![t]);
            assert(r.deep_view() =~= old_deep.push(t));
            assert(r.deep_view() =~= old_deep + lines_of(t));
        }
    } else {
        proof {
            assert(t.len() == 0);
            assert(lines_of(t) =~= Seq::<Seq<char>>::empty());
            assert(r.deep_view() =~= old_deep + lines_of(t));
        }
    }
    r
}

/// Trimming after dropping the leading whitespace is plain trimming.
pub proof fn lemma_trim_of_ltrim(s: Seq<char>)
    ensures
        trim(ltrim(s)) == trim(s),
{
    lemma_trim_props(s);
    lemma_ws_prefix(s);
    lemma_ws_suffix(s);
    let p = ws_prefix(s);
    let l = ltrim(s);
    if is_blank(s) {
        assert(p == s.len()) by {
            if p < s.len() {
                assert(is_ws(s[p]));
            }
        }
        assert(l =~= Seq::<char>::empty());
        lemma_trim_id(l);
        assert(trim(s).len() == 0);
        assert(trim(s) =~= Seq::<char>::empty());
    } else {
        let q = ws_suffix(s);
        assert(p < s.len());
        assert(!is_ws(s[p]));
        assert(p < s.len() - q) by {
            if p >= s.len() - q {
                assert(is_ws(s[p]));
            }
        }
        assert(q < s.len());
        lemma_ws_suffix_unique(l, q);
        let rl = rtrim(l);
        assert(rl =~= s.subrange(p, s.len() - q));
        lemma_ws_prefix_unique(rl, 0);
        assert(trim(l) =~= s.subrange(p, s.len() - q));
        let rs = rtrim(s);
        assert(rs =~= s.subrange(0, s.len() - q));
        lemma_ws_prefix_unique(rs, p);
        assert(trim(s) =~= s.subrange(p, s.len() - q));
    }
}

/// A join of lines with non-empty first and last lines starts with the first
/// line's first character and ends with the last line's last character.
pub proof fn lemma_join_ends(ls: Seq<Seq<char>>, sep: Seq<char>)
    requires
        ls.len() > 0,
        ls[0].len() > 0,
        ls.last().len() > 0,
    ensures
        join_with(ls, sep).len() > 0,
        join_with(ls, sep)[0] == ls[0][0],
        join_with(ls, sep).last() == ls.last().last(),
    decreases ls.len(),
{
    let j = join_with(ls, sep);
    lemma_join_last(ls, sep);
    if ls.len() == 1 {
        assert(j == ls[0]);
    } else {
        assert(j[0] == ls[0][0]);
    }
}

/// The last character of a join whose last line is non-empty.
pub proof fn lemma_join_last(ls: Seq<Seq<char>>, sep: Seq<char>)
    requires
        ls.len() > 0,
        ls.last().len() > 0,
    ensures
        join_with(ls, sep).len() > 0,
        join_with(ls, sep).last() == ls.last().last(),
    decreases ls.len(),
{
    let j = join_with(ls, sep);
    if ls.len() == 1 {
        assert(j == ls[0]);
    } else {
        lemma_join_last(ls.drop_first(), sep);
        assert(ls.drop_first().last() == ls.last());
        let rest = join_with(ls.drop_first(), sep);
        assert(j.last() == rest.last());
    }
}

/// Relies on `itertools::Itertools::join` on `String` items: the result is the
/// items' text with the separator between consecutive items.
#[verifier::external_body]
pub(crate) fn join_strings(parts: &Vec<String>, sep: &str) -> (r: String)
    ensures
        r@ == join_with(parts.deep_view(), sep@),
{
    parts.iter().join(sep)
}

} // verus!
