//! Block segmentation: the scanners classify each line by a start predicate
//! and an end predicate, skip to the first start line, and capture runs of
//! lines from one start up to the next end line.

use vstd::prelude::*;

use crate::text::{is_blank, is_ws, lines_of, ltrim, rtrim, trim};

verus! {

/// Index of the first line at or after `i` satisfying `p`, or the length.
pub open spec fn find_from(ls: Seq<Seq<char>>, i: int, p: spec_fn(Seq<char>) -> bool) -> int
    decreases ls.len() - i,
{
    if i >= ls.len() {
        ls.len() as int
    } else if p(ls[i]) {
        i
    } else {
        find_from(ls, i + 1, p)
    }
}

pub proof fn lemma_find_from(ls: Seq<Seq<char>>, i: int, p: spec_fn(Seq<char>) -> bool)
    requires
        0 <= i <= ls.len(),
    ensures
        i <= find_from(ls, i, p) <= ls.len(),
        forall|j: int| i <= j < find_from(ls, i, p) ==> !#[trigger] p(ls[j]),
        find_from(ls, i, p) < ls.len() ==> p(ls[find_from(ls, i, p)]),
    decreases ls.len() - i,
{
    if i >= ls.len() || p(ls[i]) {
    } else {
        lemma_find_from(ls, i + 1, p);
    }
}

/// The first match is wherever a match first stands.
pub proof fn lemma_find_from_unique(
    ls: Seq<Seq<char>>,
    i: int,
    p: spec_fn(Seq<char>) -> bool,
    m: int,
)
    requires
        0 <= i <= m <= ls.len(),
        forall|j: int| i <= j < m ==> !#[trigger] p(ls[j]),
        m < ls.len() ==> p(ls[m]),
    ensures
        find_from(ls, i, p) == m,
{
    lemma_find_from(ls, i, p);
}

/// The blocks of `ls` from line `i` on: skip to the first `sp` line, capture
/// it and every following line up to the next `ep` line, and repeat there.
pub open spec fn scan_from(
    ls: Seq<Seq<char>>,
    i: int,
    sp: spec_fn(Seq<char>) -> bool,
    ep: spec_fn(Seq<char>) -> bool,
) -> Seq<Seq<Seq<char>>>
    decreases ls.len() - i,
{
    let s0 = find_from(ls, i, sp);
    let s = if s0 < i {
        i
    } else {
        s0
    };
    if s >= ls.len() {
        Seq::empty()
    } else {
        let e0 = find_from(ls, s + 1, ep);
        let e = if e0 < s + 1 {
            s + 1
        } else if e0 > ls.len() {
            ls.len() as int
        } else {
            e0
        };
        seq![ls.subrange(s, e)] + scan_from(ls, e, sp, ep)
    }
}

/// One unfolding of `scan_from`, with the indices in their real ranges.
pub proof fn lemma_scan_step(
    ls: Seq<Seq<char>>,
    i: int,
    sp: spec_fn(Seq<char>) -> bool,
    ep: spec_fn(Seq<char>) -> bool,
)
    requires
        0 <= i <= ls.len(),
    ensures
        find_from(ls, i, sp) >= ls.len() ==> scan_from(ls, i, sp, ep) == Seq::<
            Seq<Seq<char>>,
        >::empty(),
        find_from(ls, i, sp) < ls.len() ==> scan_from(ls, i, sp, ep) == seq![
            ls.subrange(find_from(ls, i, sp), find_from(ls, find_from(ls, i, sp) + 1, ep)),
        ] + scan_from(ls, find_from(ls, find_from(ls, i, sp) + 1, ep), sp, ep),
{
    lemma_find_from(ls, i, sp);
    let s = find_from(ls, i, sp);
    if s < ls.len() {
        lemma_find_from(ls, s + 1, ep);
    }
}

/// A line that is no start line does not change what is scanned.
pub proof fn lemma_scan_skip(
    ls: Seq<Seq<char>>,
    i: int,
    sp: spec_fn(Seq<char>) -> bool,
    ep: spec_fn(Seq<char>) -> bool,
)
    requires
        0 <= i < ls.len(),
        !sp(ls[i]),
    ensures
        scan_from(ls, i, sp, ep) == scan_from(ls, i + 1, sp, ep),
{
    lemma_find_from(ls, i, sp);
    lemma_find_from(ls, i + 1, sp);
    assert(find_from(ls, i, sp) == find_from(ls, i + 1, sp));
    let s = find_from(ls, i, sp);
    if s < ls.len() {
        lemma_find_from(ls, s + 1, ep);
    }
}

/// The blocks laid out one after another, with one blank line between
/// consecutive blocks.
pub open spec fn blocks_join(bs: Seq<Seq<Seq<char>>>) -> Seq<Seq<char>>
    decreases bs.len(),
{
    if bs.len() == 0 {
        Seq::empty()
    } else if bs.len() == 1 {
        bs[0]
    } else {
        bs[0] + seq![Seq::<char>::empty()] + blocks_join(bs.drop_first())
    }
}

/// Each block except the last with the separating blank line attached: what
/// the scanner captures when it scans the joined layout.
pub open spec fn attach_seps(bs: Seq<Seq<Seq<char>>>) -> Seq<Seq<Seq<char>>>
    decreases bs.len(),
{
    if bs.len() <= 1 {
        bs
    } else {
        seq![bs[0].push(Seq::<char>::empty())] + attach_seps(bs.drop_first())
    }
}

/// Scanning a blank-line-joined layout of blocks recovers the blocks, each
/// with its separating blank line still attached: every block starts with a
/// start line, continues without end lines, and every later block's head is an
/// end line.
pub proof fn lemma_scan_blocks(
    ls: Seq<Seq<char>>,
    i: int,
    bs: Seq<Seq<Seq<char>>>,
    sp: spec_fn(Seq<char>) -> bool,
    ep: spec_fn(Seq<char>) -> bool,
)
    requires
        0 <= i <= ls.len(),
        ls.subrange(i, ls.len() as int) == blocks_join(bs),
        forall|k: int| 0 <= k < bs.len() ==> (#[trigger] bs[k]).len() > 0,
        forall|k: int| 0 <= k < bs.len() ==> sp(#[trigger] bs[k][0]),
        forall|k: int| 1 <= k < bs.len() ==> ep(#[trigger] bs[k][0]),
        forall|k: int, j: int|
            0 <= k < bs.len() && 1 <= j < bs[k].len() ==> !ep(#[trigger] bs[k][j]),
        !ep(Seq::<char>::empty()),
    ensures
        scan_from(ls, i, sp, ep) == attach_seps(bs),
    decreases bs.len(),
{
    let n = ls.len() as int;
    let suffix = ls.subrange(i, n);
    if bs.len() == 0 {
        assert(suffix.len() == 0);
        assert(i >= n);
        assert(scan_from(ls, i, sp, ep) == Seq::<Seq<Seq<char>>>::empty());
        assert(attach_seps(bs) =~= Seq::<Seq<Seq<char>>>::empty());
    } else if bs.len() == 1 {
        let b = bs[0];
        assert(suffix == b);
        assert(suffix.len() == b.len());
        assert(i < n);
        assert(ls[i] == suffix[0]);
        assert(sp(ls[i]));
        lemma_find_from_unique(ls, i, sp, i);
        assert forall|j: int| i + 1 <= j < n implies !#[trigger] ep(ls[j]) by {
            assert(ls[j] == suffix[j - i]);
            assert(ls[j] == b[j - i]);
        }
        lemma_find_from_unique(ls, i + 1, ep, n);
        lemma_scan_step(ls, i, sp, ep);
        assert(ls.subrange(i, n) == b);
        lemma_scan_step(ls, n, sp, ep);
        assert(scan_from(ls, i, sp, ep) =~= seq![b]);
        assert(attach_seps(bs) =~= seq![b]);
    } else {
        let b = bs[0];
        let rest = bs.drop_first();
        let restj = blocks_join(rest);
        assert(suffix == b + seq![Seq::<char>::empty()] + restj);
        let m = i + b.len() + 1;
        assert(restj.len() > 0) by {
            assert(rest[0].len() > 0);
            if rest.len() == 1 {
                assert(restj == rest[0]);
            } else {
                assert(restj == rest[0] + seq![Seq::<char>::empty()] + blocks_join(
                    rest.drop_first(),
                ));
            }
        }
        assert(suffix.len() == b.len() + 1 + restj.len());
        assert(m < n);
        assert(ls[i] == suffix[0]);
        assert(suffix[0] == b[0]);
        assert(sp(ls[i]));
        lemma_find_from_unique(ls, i, sp, i);
        assert forall|j: int| i + 1 <= j < m implies !#[trigger] ep(ls[j]) by {
            assert(ls[j] == suffix[j - i]);
            if j - i < b.len() {
                assert(suffix[j - i] == b[j - i]);
            } else {
                assert(suffix[j - i] =~= Seq::<char>::empty());
            }
        }
        assert(ls[m] == suffix[m - i]);
        assert(suffix[m - i] == restj[0]);
        assert(restj[0] == rest[0][0]) by {
            if rest.len() == 1 {
            } else {
                assert(restj == rest[0] + seq![Seq::<char>::empty()] + blocks_join(
                    rest.drop_first(),
                ));
            }
        }
        assert(ep(ls[m]));
        lemma_find_from_unique(ls, i + 1, ep, m);
        lemma_scan_step(ls, i, sp, ep);
        assert forall|j: int| 0 <= j < m - i implies ls.subrange(i, m)[j] == b.push(
            Seq::<char>::empty(),
        )[j] by {
            assert(ls.subrange(i, m)[j] == ls[i + j]);
            assert(ls[i + j] == suffix[j]);
        }
        assert(ls.subrange(i, m) =~= b.push(Seq::<char>::empty()));
        assert forall|j: int| 0 <= j < n - m implies ls.subrange(m, n)[j] == restj[j] by {
            assert(ls.subrange(m, n)[j] == ls[m + j]);
            assert(ls[m + j] == suffix[m + j - i]);
            assert(suffix[m + j - i] == restj[j]);
        }
        assert(ls.subrange(m, n) =~= restj);
        lemma_scan_blocks(ls, m, rest, sp, ep);
        assert(scan_from(ls, i, sp, ep) == seq![b.push(Seq::<char>::empty())] + attach_seps(rest));
        assert(attach_seps(bs) == seq![b.push(Seq::<char>::empty())] + attach_seps(rest));
    }
}

/// The block without its trailing blank lines.
pub open spec fn drop_trailing_blanks(b: Seq<Seq<char>>) -> Seq<Seq<char>>
    decreases b.len(),
{
    if b.len() == 0 || !is_blank(b.last()) {
        b
    } else {
        drop_trailing_blanks(b.drop_last())
    }
}

/// What joining a block's lines, trimming the text and splitting it again
/// leaves of the block: trailing blank lines go, the first line loses its
/// leading whitespace and the last its trailing whitespace.
pub open spec fn normalize_block(b: Seq<Seq<char>>) -> Seq<Seq<char>> {
    let c = drop_trailing_blanks(b);
    if c.len() == 0 {
        c
    } else if c.len() == 1 {
        seq![trim(c[0])]
    } else {
        seq![ltrim(c[0])] + c.subrange(1, c.len() - 1) + seq![rtrim(c.last())]
    }
}

/// Dropping trailing blanks keeps a prefix of the block, and keeps a non-blank
/// head line.
pub proof fn lemma_drop_trailing_prefix(b: Seq<Seq<char>>)
    ensures
        drop_trailing_blanks(b).len() <= b.len(),
        forall|j: int|
            0 <= j < drop_trailing_blanks(b).len() ==> #[trigger] drop_trailing_blanks(b)[j]
                == b[j],
        b.len() > 0 && !is_blank(b[0]) ==> drop_trailing_blanks(b).len() > 0,
    decreases b.len(),
{
    if b.len() == 0 || !is_blank(b.last()) {
    } else {
        lemma_drop_trailing_prefix(b.drop_last());
        assert(forall|j: int|
            0 <= j < b.drop_last().len() ==> #[trigger] b.drop_last()[j] == b[j]);
        if b.len() > 0 && !is_blank(b[0]) {
            assert(b.drop_last().len() > 0) by {
                if b.len() == 1 {
                    assert(b.last() == b[0]);
                }
            }
        }
    }
}

/// A normalized block keeps a non-blank head whose trim is the original head's
/// trim.
pub proof fn lemma_normalize_head(b: Seq<Seq<char>>)
    requires
        b.len() > 0,
        !is_blank(b[0]),
    ensures
        normalize_block(b).len() > 0,
        trim(normalize_block(b)[0]) == trim(b[0]),
        !is_blank(normalize_block(b)[0]),
{
    lemma_drop_trailing_prefix(b);
    let c = drop_trailing_blanks(b);
    assert(c[0] == b[0]);
    let nb = normalize_block(b);
    crate::text::lemma_trim_props(b[0]);
    if c.len() == 1 {
        assert(nb[0] == trim(b[0]));
        crate::text::lemma_trim_props(trim(b[0]));
        crate::text::lemma_trim_id(trim(b[0]));
        assert(!is_blank(nb[0])) by {
            assert(trim(b[0]).len() > 0);
            assert(crate::text::is_ws(trim(b[0])[0]) == false);
        }
    } else {
        assert(nb[0] == ltrim(b[0]));
        crate::text::lemma_trim_of_ltrim(b[0]);
        assert(!is_blank(nb[0])) by {
            crate::text::lemma_trim_props(ltrim(b[0]));
            assert(trim(ltrim(b[0])).len() > 0);
        }
    }
}

/// Normalizing a block of newline-free lines leaves every line newline-free.
pub proof fn lemma_normalize_no_nl(b: Seq<Seq<char>>)
    requires
        forall|j: int| 0 <= j < b.len() ==> !(#[trigger] b[j]).contains('\n'),
    ensures
        forall|j: int|
            0 <= j < normalize_block(b).len() ==> !(#[trigger] normalize_block(b)[j]).contains(
                '\n',
            ),
{
    lemma_drop_trailing_prefix(b);
    let c = drop_trailing_blanks(b);
    let nb = normalize_block(b);
    assert forall|j: int| 0 <= j < nb.len() implies !(#[trigger] nb[j]).contains('\n') by {
        if c.len() == 1 {
            assert(nb[j] == trim(c[0]));
            if trim(c[0]).contains('\n') {
                crate::text::lemma_trim_contains(c[0], '\n');
            }
        } else {
            if j == 0 {
                assert(nb[0] == ltrim(c[0]));
                if ltrim(c[0]).contains('\n') {
                    crate::text::lemma_ltrim_contains(c[0], '\n');
                }
            } else if j == nb.len() - 1 {
                assert(nb[j] == rtrim(c.last()));
                if rtrim(c.last()).contains('\n') {
                    crate::text::lemma_rtrim_contains(c.last(), '\n');
                }
            } else {
                assert(nb[j] == c[j]);
            }
        }
    }
}

/// Normalizing changes nothing in a block that is already clean at its edges.
pub proof fn lemma_normalize_id(b: Seq<Seq<char>>)
    requires
        b.len() > 0,
        b[0].len() > 0,
        !is_ws(b[0][0]),
        b.last().len() > 0,
        !is_ws(b.last().last()),
    ensures
        normalize_block(b) == b,
{
    assert(!is_blank(b.last())) by {
        assert(is_ws(b.last()[b.last().len() - 1]) == false);
    }
    assert(drop_trailing_blanks(b) == b);
    crate::text::lemma_ws_prefix(b[0]);
    crate::text::lemma_ws_suffix(b.last());
    assert(ltrim(b[0]) =~= b[0]);
    assert(rtrim(b.last()) =~= b.last());
    if b.len() == 1 {
        crate::text::lemma_trim_id(b[0]);
        assert(normalize_block(b) =~= b);
    } else {
        assert(normalize_block(b) =~= b);
    }
}

/// Normalizing also drops an attached trailing blank separator line.
pub proof fn lemma_normalize_with_sep(b: Seq<Seq<char>>)
    requires
        b.len() > 0,
        b[0].len() > 0,
        !is_ws(b[0][0]),
        b.last().len() > 0,
        !is_ws(b.last().last()),
    ensures
        normalize_block(b.push(Seq::<char>::empty())) == b,
{
    let bb = b.push(Seq::<char>::empty());
    assert(!is_blank(b.last())) by {
        assert(is_ws(b.last()[b.last().len() - 1]) == false);
    }
    assert(drop_trailing_blanks(b) == b);
    assert(is_blank(bb.last()));
    assert(bb.drop_last() =~= b);
    assert(drop_trailing_blanks(bb) == drop_trailing_blanks(b));
    lemma_normalize_id(b);
}

/// Extending a layout by one block appends a blank line and the block.
pub proof fn lemma_blocks_join_push(bs: Seq<Seq<Seq<char>>>, x: Seq<Seq<char>>)
    ensures
        blocks_join(bs.push(x)) == if bs.len() == 0 {
            x
        } else {
            blocks_join(bs) + seq![Seq::<char>::empty()] + x
        },
    decreases bs.len(),
{
    let e = seq![Seq::<char>::empty()];
    if bs.len() == 0 {
        assert(bs.push(x) =~= seq![x]);
        assert(blocks_join(seq![x]) == x);
    } else if bs.len() == 1 {
        assert(bs.push(x).drop_first() =~= seq![x]);
        assert(blocks_join(seq![x]) == x);
        assert(bs.push(x)[0] == bs[0]);
        assert(blocks_join(bs.push(x)) == bs[0] + e + x);
    } else {
        lemma_blocks_join_push(bs.drop_first(), x);
        assert(bs.push(x).drop_first() =~= bs.drop_first().push(x));
        assert(bs[0] + e + (blocks_join(bs.drop_first()) + e + x) =~= (bs[0] + e + blocks_join(
            bs.drop_first(),
        )) + e + x);
    }
}

/// A property of every line of every block and of the blank line holds of
/// every line of the joined layout.
pub proof fn lemma_blocks_join_all(bs: Seq<Seq<Seq<char>>>, p: spec_fn(Seq<char>) -> bool)
    requires
        forall|k: int, j: int|
            0 <= k < bs.len() && 0 <= j < bs[k].len() ==> p(#[trigger] bs[k][j]),
        p(Seq::<char>::empty()),
    ensures
        forall|j: int| 0 <= j < blocks_join(bs).len() ==> p(#[trigger] blocks_join(bs)[j]),
    decreases bs.len(),
{
    if bs.len() <= 1 {
        assert forall|j: int|
            0 <= j < blocks_join(bs).len() implies p(#[trigger] blocks_join(bs)[j]) by {
            assert(blocks_join(bs)[j] == bs[0][j]);
        }
    } else {
        let rest = bs.drop_first();
        lemma_blocks_join_all(rest, p);
        assert forall|j: int|
            0 <= j < blocks_join(bs).len() implies p(#[trigger] blocks_join(bs)[j]) by {
            let b0 = bs[0];
            if j < b0.len() {
                assert(blocks_join(bs)[j] == b0[j]);
            } else if j == b0.len() {
                assert(blocks_join(bs)[j] == Seq::<char>::empty());
            } else {
                assert(blocks_join(bs)[j] == blocks_join(rest)[j - b0.len() - 1]);
            }
        }
    }
}

/// The joined layout ends with the last block's last line.
pub proof fn lemma_blocks_join_last(bs: Seq<Seq<Seq<char>>>)
    requires
        bs.len() > 0,
        bs.last().len() > 0,
    ensures
        blocks_join(bs).len() > 0,
        blocks_join(bs).last() == bs.last().last(),
    decreases bs.len(),
{
    if bs.len() == 1 {
        assert(blocks_join(bs) == bs[0]);
    } else {
        lemma_blocks_join_last(bs.drop_first());
        assert(bs.drop_first().last() == bs.last());
        assert(blocks_join(bs).last() == blocks_join(bs.drop_first()).last());
    }
}

/// Puts a captured block into the form the codecs parse: trailing blank lines
/// dropped, the first line's front and the last line's back trimmed, as if the
/// block had been joined into one text, trimmed and split again.
pub fn normalize_vec(b: Vec<String>) -> (r: Vec<String>)
    ensures
        r.deep_view() == normalize_block(b.deep_view()),
{
    let ghost b0 = b.deep_view();
    let mut b = b;
    while b.len() > 0 && crate::text::is_blank_str(b[b.len() - 1].as_str())
        invariant
            drop_trailing_blanks(b0) == drop_trailing_blanks(b.deep_view()),
        decreases b.len(),
    {
        let ghost pre = b.deep_view();
        let _ = b.pop();
        proof {
            assert(b.deep_view() =~= pre.drop_last());
        }
    }
    let ghost c = drop_trailing_blanks(b0);
    proof {
        assert(c == b.deep_view());
    }
    let n = b.len();
    let mut r: Vec<String> = Vec::new();
    if n == 0 {
        proof {
            assert(r.deep_view() =~= normalize_block(b0));
        }
        return r;
    }
    if n == 1 {
        r.push(String::from_str(crate::text::trim_str(b[0].as_str())));
        proof {
            assert(r.deep_view() =~= normalize_block(b0));
        }
        return r;
    }
    r.push(String::from_str(crate::text::ltrim_str(b[0].as_str())));
    let mut i: usize = 1;
    while i < n - 1
        invariant
            1 <= i <= n - 1,
            n == b.len(),
            b.deep_view() == c,
            2 <= c.len() == n,
            r.deep_view() == seq![ltrim(c[0])] + c.subrange(1, i as int),
        decreases n - i,
    {
        let ghost pre = r.deep_view();
        r.push(b[i].clone());
        proof {
            assert(r.deep_view() =~= pre.push(c[i as int]));
            assert(r.deep_view() =~= seq![ltrim(c[0])] + c.subrange(1, i + 1));
        }
        i = i + 1;
    }
    let ghost pre = r.deep_view();
    r.push(String::from_str(crate::text::rtrim_str(b[n - 1].as_str())));
    proof {
        assert(r.deep_view() =~= pre.push(rtrim(c.last())));
        assert(r.deep_view() =~= normalize_block(b0));
    }
    r
}

} // verus!
