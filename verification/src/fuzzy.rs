use vstd::prelude::*;
use vstd::string::StrSliceExecFns;
use vstd::string::StringExecFns;
use crate::chars::char_is_whitespace;
use crate::strutil::lines_from;
use crate::strutil::lines_of;
use crate::strutil::split_lines;
use crate::strutil::to_char_vec;
use crate::strutil::views_of;
use crate::strutil::ws_removed;
use crate::fingerprint::normalize_whitespace;

verus! {

/// The edit distance between two character sequences: the least number of
/// single-character insertions, deletions and substitutions turning one into
/// the other.
pub open spec fn lev(a: Seq<char>, b: Seq<char>) -> int
    decreases a.len(), b.len(),
{
    if a.len() == 0 {
        b.len() as int
    } else if b.len() == 0 {
        a.len() as int
    } else {
        let d1 = lev(a.drop_last(), b) + 1;
        let d2 = lev(a, b.drop_last()) + 1;
        let d3 = lev(a.drop_last(), b.drop_last()) + if a.last() == b.last() {
            0int
        } else {
            1int
        };
        if d1 <= d2 && d1 <= d3 {
            d1
        } else if d2 <= d3 {
            d2
        } else {
            d3
        }
    }
}

/// The edit distance never exceeds the longer length, and is never negative.
pub proof fn lemma_lev_bounds(a: Seq<char>, b: Seq<char>)
    ensures
        0 <= lev(a, b),
        lev(a, b) <= if a.len() >= b.len() {
            a.len() as int
        } else {
            b.len() as int
        },
    decreases a.len(), b.len(),
{
    if a.len() > 0 && b.len() > 0 {
        lemma_lev_bounds(a.drop_last(), b);
        lemma_lev_bounds(a, b.drop_last());
        lemma_lev_bounds(a.drop_last(), b.drop_last());
    }
}

/// The classic dynamic-programming edit distance over the characters of the
/// two strings.
pub fn levenshtein(a: &str, b: &str) -> (r: usize)
    requires
        a@.len() < usize::MAX,
        b@.len() < usize::MAX,
    ensures
        r as int == lev(a@, b@),
{
    let av = to_char_vec(a);
    let bv = to_char_vec(b);
    let al = av.len();
    let bl = bv.len();
    if al == 0 || bl == 0 {
        proof {
            if al == 0 {
                assert(a@ =~= Seq::<char>::empty());
            } else {
                assert(b@ =~= Seq::<char>::empty());
            }
        }
        return if al >= bl {
            al
        } else {
            bl
        };
    }
    let mut matrix: Vec<Vec<usize>> = Vec::new();
    let mut i: usize = 0;
    while i <= al
        invariant
            al == a@.len() < usize::MAX,
            bl == b@.len() < usize::MAX,
            i <= al + 1,
            matrix@.len() == i,
            forall|x: int| 0 <= x < i ==> (#[trigger] matrix@[x])@.len() == bl + 1,
            forall|x: int, y: int|
                0 <= x < i && 0 <= y <= bl ==> (#[trigger] matrix@[x]@[y]) as int == (if y == 0 {
                    x
                } else if x == 0 {
                    y
                } else {
                    0int
                }),
        decreases al + 1 - i,
    {
        let mut row: Vec<usize> = Vec::new();
        let mut j: usize = 0;
        while j <= bl
            invariant
                bl < usize::MAX,
                i <= al,
                j <= bl + 1,
                row@.len() == j,
                forall|y: int|
                    0 <= y < j ==> (#[trigger] row@[y]) as int == (if y == 0 {
                        i as int
                    } else if i == 0 {
                        y
                    } else {
                        0int
                    }),
            decreases bl + 1 - j,
        {
            if j == 0 {
                row.push(i);
            } else if i == 0 {
                row.push(j);
            } else {
                row.push(0);
            }
            j = j + 1;
        }
        matrix.push(row);
        i = i + 1;
    }
    let mut x: usize = 1;
    while x <= al
        invariant
            al == a@.len() < usize::MAX,
            bl == b@.len() < usize::MAX,
            av@ == a@,
            bv@ == b@,
            av@.len() == al,
            bv@.len() == bl,
            1 <= x <= al + 1,
            matrix@.len() == al + 1,
            forall|p: int| 0 <= p <= al ==> (#[trigger] matrix@[p])@.len() == bl + 1,
            forall|p: int| 0 <= p <= al ==> (#[trigger] matrix@[p]@[0]) as int == p,
            forall|q: int| 0 <= q <= bl ==> (#[trigger] matrix@[0]@[q]) as int == q,
            forall|p: int, q: int|
                1 <= p < x && 1 <= q <= bl ==> (#[trigger] matrix@[p]@[q]) as int == lev(
                    a@.take(p),
                    b@.take(q),
                ),
        decreases al + 1 - x,
    {
        let mut y: usize = 1;
        while y <= bl
            invariant
                al == a@.len() < usize::MAX,
                bl == b@.len() < usize::MAX,
                av@ == a@,
                bv@ == b@,
                av@.len() == al,
                bv@.len() == bl,
                1 <= x <= al,
                1 <= y <= bl + 1,
                matrix@.len() == al + 1,
                forall|p: int| 0 <= p <= al ==> (#[trigger] matrix@[p])@.len() == bl + 1,
                forall|p: int| 0 <= p <= al ==> (#[trigger] matrix@[p]@[0]) as int == p,
                forall|q: int| 0 <= q <= bl ==> (#[trigger] matrix@[0]@[q]) as int == q,
                forall|p: int, q: int|
                    1 <= p < x && 1 <= q <= bl ==> (#[trigger] matrix@[p]@[q]) as int == lev(
                        a@.take(p),
                        b@.take(q),
                    ),
                forall|q: int|
                    1 <= q < y ==> (#[trigger] matrix@[x as int]@[q]) as int == lev(
                        a@.take(x as int),
                        b@.take(q),
                    ),
            decreases bl + 1 - y,
        {
            proof {
                lemma_lev_bounds(a@.take(x - 1 as int), b@.take(y as int));
                lemma_lev_bounds(a@.take(x as int), b@.take(y - 1 as int));
                lemma_lev_bounds(a@.take(x - 1 as int), b@.take(y - 1 as int));
            }
            let cost: usize = if av[x - 1] == bv[y - 1] {
                0
            } else {
                1
            };
            let up: usize = matrix[x - 1][y];
            let left: usize = matrix[x][y - 1];
            let diag: usize = matrix[x - 1][y - 1];
            let d1 = up + 1;
            let d2 = left + 1;
            let d3 = diag + cost;
            let val: usize = if d1 <= d2 && d1 <= d3 {
                d1
            } else if d2 <= d3 {
                d2
            } else {
                d3
            };
            proof {
                let ta = a@.take(x as int);
                let tb = b@.take(y as int);
                assert(ta.drop_last() =~= a@.take(x - 1 as int));
                assert(tb.drop_last() =~= b@.take(y - 1 as int));
                assert(ta.last() == a@[x - 1]);
                assert(tb.last() == b@[y - 1]);
                assert(val as int == lev(ta, tb));
            }
            let row: &mut Vec<usize> = &mut matrix[x];
            row.set(y, val);
            y = y + 1;
        }
        x = x + 1;
    }
    proof {
        assert(a@.take(al as int) =~= a@);
        assert(b@.take(bl as int) =~= b@);
    }
    matrix[al][bl]
}

/// Whether `pat` occurs in `s` at position `i`.
pub open spec fn match_at(s: Seq<char>, pat: Seq<char>, i: int) -> bool {
    0 <= i && i + pat.len() <= s.len() && s.subrange(i, i + pat.len()) == pat
}

/// The first position at or after `i` where `pat` occurs in `s`.
pub open spec fn find_from(s: Seq<char>, pat: Seq<char>, i: int) -> Option<int>
    decreases s.len() - i,
    via find_from_dec
{
    if i < 0 || i + pat.len() > s.len() {
        Option::None
    } else if match_at(s, pat, i) {
        Option::Some(i)
    } else {
        find_from(s, pat, i + 1)
    }
}

#[via_fn]
proof fn find_from_dec(s: Seq<char>, pat: Seq<char>, i: int) {
    if !(i < 0 || i + pat.len() > s.len()) && !match_at(s, pat, i) {
        if pat.len() == 0 {
            assert(s.subrange(i, i + pat.len()) =~= pat);
            assert(false);
        }
    }
}

/// The first position where `pat` occurs in `s`.
pub open spec fn first_match(s: Seq<char>, pat: Seq<char>) -> Option<int> {
    find_from(s, pat, 0)
}

/// The first occurrence of `pat` in `s`, by character positions.
fn find_sub(s: &Vec<char>, pat: &Vec<char>) -> (r: Option<usize>)
    ensures
        match r {
            Option::Some(p) => first_match(s@, pat@) == Option::Some(p as int),
            Option::None => first_match(s@, pat@) is None,
        },
{
    let n = s.len();
    let m = pat.len();
    if m > n {
        return None;
    }
    let mut i: usize = 0;
    while i <= n - m
        invariant
            n == s@.len(),
            m == pat@.len(),
            m <= n,
            i <= n - m + 1,
            first_match(s@, pat@) == find_from(s@, pat@, i as int),
        decreases n - m + 1 - i,
    {
        let mut j: usize = 0;
        let mut same = true;
        while j < m
            invariant
                n == s@.len(),
                m == pat@.len(),
                i + m <= n,
                j <= m,
                same ==> forall|k: int| 0 <= k < j ==> s@[i + k] == pat@[k],
                !same ==> exists|k: int| 0 <= k < j && s@[i + k] != pat@[k],
            decreases m - j,
        {
            if s[i + j] != pat[j] {
                same = false;
            }
            j = j + 1;
        }
        if same {
            proof {
                assert(s@.subrange(i as int, i + pat@.len()) =~= pat@);
            }
            return Some(i);
        }
        proof {
            let k = choose|k: int| 0 <= k < m && s@[i + k] != pat@[k];
            assert(s@.subrange(i as int, i + pat@.len())[k] == s@[i + k]);
            assert(!match_at(s@, pat@, i as int));
        }
        i = i + 1;
    }
    None
}

/// The position in the original text that position `pos` of the
/// whitespace-stripped text falls back onto: characters are walked and the
/// non-whitespace ones counted until the count reaches `pos`.
pub open spec fn map_norm_from(s: Seq<char>, i: int, cnt: int, pos: int) -> int
    decreases s.len() - i,
{
    if i < 0 || i >= s.len() {
        0
    } else if cnt == pos {
        i
    } else {
        map_norm_from(
            s,
            i + 1,
            cnt + if char_is_whitespace(s[i]) {
                0int
            } else {
                1int
            },
            pos,
        )
    }
}

fn map_norm_pos(s: &Vec<char>, pos: usize) -> (r: usize)
    ensures
        r as int == map_norm_from(s@, 0, 0, pos as int),
{
    let n = s.len();
    let mut i: usize = 0;
    let mut cnt: usize = 0;
    while i < n
        invariant
            n == s@.len(),
            i <= n,
            map_norm_from(s@, 0, 0, pos as int) == map_norm_from(s@, i as int, cnt as int, pos as int),
            cnt <= i,
        decreases n - i,
    {
        if cnt == pos {
            return i;
        }
        if !s[i].is_whitespace() {
            cnt = cnt + 1;
        }
        i = i + 1;
    }
    0
}

/// The similarity of a line against the target, as an exact fraction: one
/// for two empty strings, zero when only one is empty, and otherwise
/// `1 - distance / max(len, len)` over the character counts.
pub open spec fn sim_pair(line: Seq<char>, pat: Seq<char>) -> (int, int) {
    if line.len() == 0 && pat.len() == 0 {
        (1int, 1int)
    } else if line.len() == 0 || pat.len() == 0 {
        (0int, 1int)
    } else {
        let m = if line.len() >= pat.len() {
            line.len() as int
        } else {
            pat.len() as int
        };
        (m - lev(line, pat), m)
    }
}

/// Whether similarity `a` is strictly greater than `b`.
pub open spec fn sim_gt(a: (int, int), b: (int, int)) -> bool {
    a.0 * b.1 > b.0 * a.1
}

/// Whether a similarity clears the ambiguity threshold of three tenths.
pub open spec fn sim_meets_threshold(p: (int, int)) -> bool {
    10 * p.0 >= 3 * p.1
}

/// How many lines clear the ambiguity threshold against the target.
pub open spec fn count_above(ls: Seq<Seq<char>>, pat: Seq<char>) -> int
    decreases ls.len(),
{
    if ls.len() == 0 {
        0
    } else {
        count_above(ls.drop_last(), pat) + if sim_meets_threshold(sim_pair(ls.last(), pat)) {
            1int
        } else {
            0int
        }
    }
}

/// The first line of highest similarity against the target.
pub open spec fn best_of(ls: Seq<Seq<char>>, pat: Seq<char>) -> int
    decreases ls.len(),
{
    if ls.len() <= 1 {
        0
    } else {
        let b = best_of(ls.drop_last(), pat);
        if sim_gt(sim_pair(ls.last(), pat), sim_pair(ls[b], pat)) {
            ls.len() - 1
        } else {
            b
        }
    }
}

proof fn lemma_lines_from_le(s: Seq<char>, i: int, cur: Seq<char>, acc: Seq<Seq<char>>, n: int)
    requires
        0 <= i <= s.len(),
        cur.len() + (s.len() - i) <= n,
        forall|k: int| 0 <= k < acc.len() ==> (#[trigger] acc[k]).len() <= n,
    ensures
        forall|k: int|
            0 <= k < lines_from(s, i, cur, acc).len() ==> (#[trigger] lines_from(
                s,
                i,
                cur,
                acc,
            )[k]).len() <= n,
    decreases s.len() - i,
{
    if i >= s.len() {
        if cur.len() > 0 {
            assert(lines_from(s, i, cur, acc) == acc.push(cur));
            assert forall|k: int|
                0 <= k < acc.push(cur).len() implies (#[trigger] acc.push(cur)[k]).len()
                <= n by {
                if k < acc.len() {
                    assert(acc.push(cur)[k] == acc[k]);
                } else {
                    assert(acc.push(cur)[k] == cur);
                }
            }
        }
    } else if s[i] == '\n' {
        let sc = crate::strutil::seg_strip_cr(cur);
        let acc2 = acc.push(sc);
        assert(sc.len() <= cur.len());
        assert forall|k: int| 0 <= k < acc2.len() implies (#[trigger] acc2[k]).len() <= n by {
            if k < acc.len() {
                assert(acc2[k] == acc[k]);
            } else {
                assert(acc2[k] == sc);
            }
        }
        lemma_lines_from_le(s, i + 1, Seq::empty(), acc2, n);
        assert(lines_from(s, i, cur, acc) == lines_from(s, i + 1, Seq::empty(), acc2));
    } else {
        lemma_lines_from_le(s, i + 1, cur.push(s[i]), acc, n);
        assert(lines_from(s, i, cur, acc) == lines_from(s, i + 1, cur.push(s[i]), acc));
    }
}

/// Every line of a text is no longer than the text.
pub proof fn lemma_lines_le(s: Seq<char>)
    ensures
        forall|k: int|
            0 <= k < lines_of(s).len() ==> (#[trigger] lines_of(s)[k]).len() <= s.len(),
{
    lemma_lines_from_le(s, 0, Seq::empty(), Seq::empty(), s.len() as int);
}

fn sim_gt_exec(an: usize, ad: usize, bn: usize, bd: usize) -> (r: bool)
    ensures
        r == sim_gt((an as int, ad as int), (bn as int, bd as int)),
{
    proof {
        vstd::arithmetic::mul::lemma_mul_upper_bound(
            an as int,
            0xFFFF_FFFF_FFFF_FFFF,
            bd as int,
            0xFFFF_FFFF_FFFF_FFFF,
        );
        vstd::arithmetic::mul::lemma_mul_upper_bound(
            bn as int,
            0xFFFF_FFFF_FFFF_FFFF,
            ad as int,
            0xFFFF_FFFF_FFFF_FFFF,
        );
    }
    let left: u128 = (an as u128) * (bd as u128);
    let right: u128 = (bn as u128) * (ad as u128);
    left > right
}

fn sim_meets_exec(n: usize, d: usize) -> (r: bool)
    ensures
        r == sim_meets_threshold((n as int, d as int)),
{
    let left: u128 = 10 * (n as u128);
    let right: u128 = 3 * (d as u128);
    left >= right
}

/// The first characters of a text shown in a diagnostic, at most fifty.
pub open spec fn trunc50(s: Seq<char>) -> Seq<char> {
    if s.len() <= 50 {
        s
    } else {
        s.take(50)
    }
}

/// The rounded percentage of an exact fraction, ties to even.
pub open spec fn pct_of(n: int, d: int) -> int {
    let q = 100 * n / d;
    let rem = 100 * n % d;
    if 2 * rem > d {
        q + 1
    } else if 2 * rem < d {
        q
    } else if q % 2 == 0 {
        q
    } else {
        q + 1
    }
}

/// The rounded percentage of an exact similarity fraction.
fn percent_of(n: usize, d: usize) -> (r: u128)
    requires
        d >= 1,
    ensures
        r as int == pct_of(n as int, d as int),
{
    let num: u128 = 100 * (n as u128);
    let q = num / (d as u128);
    let rem = num % (d as u128);
    if 2 * rem > (d as u128) {
        q + 1
    } else if 2 * rem < (d as u128) {
        q
    } else if q % 2 == 0 {
        q
    } else {
        q + 1
    }
}

/// Writes the first characters of `s` onto `out`, at most fifty.
fn push_truncated(out: &mut String, s: &str)
    ensures
        final(out)@ == old(out)@ + trunc50(s@),
{
    let n = s.unicode_len();
    let lim: usize = if n < 50 {
        n
    } else {
        50
    };
    let ghost start = out@;
    let mut i: usize = 0;
    while i < lim
        invariant
            lim <= s@.len(),
            i <= lim,
            out@ == start + s@.take(i as int),
        decreases lim - i,
    {
        out.push(s.get_char(i));
        proof {
            assert(start + s@.take(i + 1 as int) =~= (start + s@.take(i as int)).push(
                s@[i as int],
            ));
        }
        i = i + 1;
    }
    proof {
        if s@.len() <= 50 {
            assert(s@.take(lim as int) =~= s@);
        }
    }
}

/// What the fuzzy matcher finds for a target in a text: the position and
/// matched span of the first exact occurrence; failing that, of the
/// whitespace-ignoring occurrence mapped back onto the text; failing that,
/// the single whole line clearing the ambiguity threshold; and nothing when
/// no line, or more than one, clears it (or a length exceeds the machine's
/// range).
pub open spec fn fuzzy_result(c: Seq<char>, o: Seq<char>) -> Option<(int, Seq<char>)> {
    let nm = first_match(ws_removed(c), ws_removed(o));
    if first_match(c, o) is Some {
        Option::Some((first_match(c, o)->Some_0, o))
    } else if nm is Some {
        let q0 = map_norm_from(c, 0, 0, nm->Some_0);
        Option::Some(
            (
                q0,
                c.subrange(
                    q0,
                    if q0 + 2 * o.len() <= c.len() {
                        q0 + 2 * o.len()
                    } else {
                        c.len() as int
                    },
                ),
            ),
        )
    } else if c.len() == usize::MAX || o.len() == usize::MAX {
        Option::None
    } else {
        let ls = lines_of(c);
        if ls.len() == 0 {
            Option::None
        } else if count_above(ls, o) != 1 {
            Option::None
        } else {
            let b = best_of(ls, o);
            Option::Some(
                (
                    match first_match(c, ls[b]) {
                        Option::Some(p) => p,
                        Option::None => 0int,
                    },
                    ls[b],
                ),
            )
        }
    }
}

/// A found match lies inside the text.
pub proof fn lemma_find_from_valid(s: Seq<char>, pat: Seq<char>, i: int)
    ensures
        find_from(s, pat, i) matches Option::Some(p) ==> i <= p && match_at(s, pat, p),
    decreases s.len() - i,
{
    if !(i < 0 || i + pat.len() > s.len()) && !match_at(s, pat, i) {
        if pat.len() == 0 {
            assert(s.subrange(i, i + pat.len()) =~= pat);
            assert(false);
        }
        lemma_find_from_valid(s, pat, i + 1);
    }
}

/// The best-ranked line is one of the lines.
pub proof fn lemma_best_in_range(ls: Seq<Seq<char>>, pat: Seq<char>)
    requires
        ls.len() >= 1,
    ensures
        0 <= best_of(ls, pat) < ls.len(),
    decreases ls.len(),
{
    if ls.len() > 1 {
        lemma_best_in_range(ls.drop_last(), pat);
    }
}

/// Whatever the matcher finds starts inside the text and fits within it.
pub proof fn lemma_fuzzy_bounds(c: Seq<char>, o: Seq<char>)
    ensures
        fuzzy_result(c, o) matches Option::Some(m) ==> 0 <= m.0 && m.0 + m.1.len() <= c.len(),
{
    let nm = first_match(ws_removed(c), ws_removed(o));
    if first_match(c, o) is Some {
        lemma_find_from_valid(c, o, 0);
    } else if nm is Some {
        lemma_map_norm_in_range(c, 0, 0, nm->Some_0);
    } else if c.len() == usize::MAX || o.len() == usize::MAX {
    } else {
        let ls = lines_of(c);
        if ls.len() >= 1 && count_above(ls, o) == 1 {
            lemma_best_in_range(ls, o);
            let b = best_of(ls, o);
            lemma_lines_le(c);
            assert(ls[b].len() <= c.len());
            if first_match(c, ls[b]) is Some {
                lemma_find_from_valid(c, ls[b], 0);
            }
        }
    }
}

/// The message for a target found nowhere: the truncated target and a note
/// that the text may have changed.
pub open spec fn no_match_msg(o: Seq<char>) -> Seq<char> {
    "Could not find \""@ + trunc50(o) + "\" in content. The text may have been modified."@
}

/// The indices of the lines clearing the ambiguity threshold, in order.
pub open spec fn meet_from(ls: Seq<Seq<char>>, pat: Seq<char>, i: int) -> Seq<int>
    decreases ls.len() - i,
{
    if i < 0 || i >= ls.len() {
        Seq::empty()
    } else {
        (if sim_meets_threshold(sim_pair(ls[i], pat)) {
            seq![i]
        } else {
            Seq::empty()
        }) + meet_from(ls, pat, i + 1)
    }
}

/// `x` placed into the ranked candidates: before the first strictly less
/// similar one, so equals keep their line order.
pub open spec fn insert_cand(x: int, s: Seq<int>, ls: Seq<Seq<char>>, pat: Seq<char>) -> Seq<int>
    decreases s.len(),
{
    if s.len() == 0 {
        seq![x]
    } else if sim_gt(sim_pair(ls[x], pat), sim_pair(ls[s.first()], pat)) {
        seq![x] + s
    } else {
        seq![s.first()] + insert_cand(x, s.skip(1), ls, pat)
    }
}

/// The candidates ranked by similarity, ties in line order.
pub open spec fn sort_cands(s: Seq<int>, ls: Seq<Seq<char>>, pat: Seq<char>) -> Seq<int>
    decreases s.len(),
{
    if s.len() == 0 {
        s
    } else {
        insert_cand(s.last(), sort_cands(s.drop_last(), ls, pat), ls, pat)
    }
}

/// One listed candidate: its line number, its rounded similarity and its
/// truncated text.
pub open spec fn cand_line(ls: Seq<Seq<char>>, pat: Seq<char>, k: int) -> Seq<char> {
    "  Line "@ + crate::strutil::dec_digits(k + 1) + " (similarity "@
        + crate::strutil::dec_digits(
        pct_of(sim_pair(ls[k], pat).0, sim_pair(ls[k], pat).1),
    ) + "%): "@ + trunc50(ls[k])
}

/// The listed candidates joined, one per line.
pub open spec fn cand_listing(ls: Seq<Seq<char>>, pat: Seq<char>, picks: Seq<int>) -> Seq<char>
    decreases picks.len(),
{
    if picks.len() == 0 {
        Seq::empty()
    } else if picks.len() == 1 {
        cand_line(ls, pat, picks.first())
    } else {
        cand_listing(ls, pat, picks.drop_last()) + "\n"@ + cand_line(ls, pat, picks.last())
    }
}

/// The message for an ambiguous target: up to three of the best candidates,
/// so the caller can add context.
pub open spec fn ambig_msg(ls: Seq<Seq<char>>, pat: Seq<char>) -> Seq<char> {
    let sorted = sort_cands(meet_from(ls, pat, 0), ls, pat);
    let picks = if sorted.len() <= 3 {
        sorted
    } else {
        sorted.take(3)
    };
    "Multiple matches found for \""@ + trunc50(pat)
        + "\". Provide more context to identify the correct location:\n"@ + cand_listing(
        ls,
        pat,
        picks,
    )
}

/// The message for a target whose best line stays under the threshold: the
/// best candidate and its similarity, for diagnosis.
pub open spec fn low_sim_msg(ls: Seq<Seq<char>>, pat: Seq<char>) -> Seq<char> {
    let b = best_of(ls, pat);
    "Could not find \""@ + trunc50(pat) + "\". Best match (similarity "@
        + crate::strutil::dec_digits(
        pct_of(sim_pair(ls[b], pat).0, sim_pair(ls[b], pat).1),
    ) + "%): \""@ + trunc50(ls[b]) + "\""@
}

/// The message the matcher reports when it finds nothing: which diagnosis it
/// gives depends on how the per-line ranking came out.
pub open spec fn fuzzy_err_msg(c: Seq<char>, o: Seq<char>) -> Seq<char> {
    let ls = lines_of(c);
    if c.len() == usize::MAX || o.len() == usize::MAX || ls.len() == 0 {
        no_match_msg(o)
    } else if count_above(ls, o) > 1 {
        ambig_msg(ls, o)
    } else {
        low_sim_msg(ls, o)
    }
}

/// Locates `old_text` in `content`: first as an exact substring, then with
/// all whitespace ignored, and finally by ranking whole lines by edit
/// distance, where a single clear winner is accepted and zero or several
/// near-equal candidates are reported as errors. All positions and spans are
/// counted in characters, never bytes, as is distance: the engine's splicing
/// is character-based throughout, so a multi-byte character can never be cut
/// in half.
#[verifier::rlimit(100)]
pub fn find_fuzzy_match(content: &str, old_text: &str) -> (r: Result<(usize, String), String>)
    ensures
        match r {
            Ok(q) => fuzzy_result(content@, old_text@) == Option::Some((q.0 as int, q.1@)),
            Err(e) => fuzzy_result(content@, old_text@) is None && e@ == fuzzy_err_msg(
                content@,
                old_text@,
            ),
        },
{
    let cv = to_char_vec(content);
    let ov = to_char_vec(old_text);
    if let Option::Some(p) = find_sub(&cv, &ov) {
        return Ok((p, old_text.to_owned()));
    }
    let norm_c = normalize_whitespace(content);
    let norm_o = normalize_whitespace(old_text);
    let ncv = to_char_vec(norm_c.as_str());
    let nov = to_char_vec(norm_o.as_str());
    if let Option::Some(np) = find_sub(&ncv, &nov) {
        let original_pos = map_norm_pos(&cv, np);
        let clen = cv.len();
        let dbl: Option<usize> = match old_text.unicode_len().checked_mul(2) {
            Option::Some(t) => original_pos.checked_add(t),
            Option::None => None,
        };
        let end_pos: usize = match dbl {
            Option::Some(e) => if e < clen {
                e
            } else {
                clen
            },
            Option::None => clen,
        };
        proof {
            assert(original_pos <= end_pos <= content@.len()) by {
                assert(map_norm_from(content@, 0, 0, np as int) == original_pos as int);
                lemma_map_norm_in_range(content@, 0, 0, np as int);
            }
        }
        let matched = content.substring_char(original_pos, end_pos);
        return Ok((original_pos, String::from_str(matched)));
    }
    if content.unicode_len() == usize::MAX || old_text.unicode_len() == usize::MAX {
        let mut msg = String::new();
        msg.append("Could not find \"");
        push_truncated(&mut msg, old_text);
        msg.append("\" in content. The text may have been modified.");
        proof {
            assert(msg@ =~= no_match_msg(old_text@));
        }
        return Err(msg);
    }
    let lines = split_lines(content);
    let ghost ls = lines_of(content@);
    if lines.len() == 0 {
        let mut msg = String::new();
        msg.append("Could not find \"");
        push_truncated(&mut msg, old_text);
        msg.append("\" in content. The text may have been modified.");
        proof {
            assert(msg@ =~= no_match_msg(old_text@));
        }
        return Err(msg);
    }
    proof {
        lemma_lines_le(content@);
    }
    let ol = old_text.unicode_len();
    let mut nums: Vec<usize> = Vec::new();
    let mut dens: Vec<usize> = Vec::new();
    let mut best: usize = 0;
    let mut cnt: usize = 0;
    let mut i: usize = 0;
    while i < lines.len()
        invariant
            ls == lines_of(content@),
            views_of(lines@) == ls,
            lines@.len() == ls.len(),
            ol == old_text@.len() < usize::MAX,
            content@.len() < usize::MAX,
            forall|k: int| 0 <= k < ls.len() ==> (#[trigger] ls[k]).len() <= content@.len(),
            i <= ls.len(),
            nums@.len() == i,
            dens@.len() == i,
            forall|k: int|
                0 <= k < i ==> ((#[trigger] nums@[k]) as int, dens@[k] as int) == sim_pair(
                    ls[k],
                    old_text@,
                ),
            forall|k: int| 0 <= k < i ==> (#[trigger] dens@[k]) >= 1,
            cnt as int == count_above(ls.take(i as int), old_text@),
            i == 0 ==> best == 0,
            i > 0 ==> best < i && best as int == best_of(ls.take(i as int), old_text@),
            cnt <= i,
        decreases ls.len() - i,
    {
        let line = &lines[i];
        proof {
            assert(ls[i as int] == lines@[i as int]@);
        }
        let ll = line.as_str().unicode_len();
        let d = levenshtein(line.as_str(), old_text);
        let (num, den): (usize, usize) = if ll == 0 && ol == 0 {
            (1, 1)
        } else if ll == 0 || ol == 0 {
            (0, 1)
        } else {
            let m: usize = if ll >= ol {
                ll
            } else {
                ol
            };
            proof {
                lemma_lev_bounds(line@, old_text@);
            }
            (m - d, m)
        };
        proof {
            assert((num as int, den as int) == sim_pair(ls[i as int], old_text@));
        }
        if sim_meets_exec(num, den) {
            cnt = cnt + 1;
        }
        let ghost prev_best = best as int;
        proof {
            let t = ls.take(i + 1 as int);
            assert(t.drop_last() =~= ls.take(i as int));
            assert(t.last() == ls[i as int]);
            assert(forall|k: int| 0 <= k < i ==> t[k] == ls[k]);
        }
        if i > 0 {
            if sim_gt_exec(num, den, nums[best], dens[best]) {
                best = i;
            }
            proof {
                let t = ls.take(i + 1 as int);
                assert(best_of(t.drop_last(), old_text@) == prev_best);
                assert(t[prev_best] == ls[prev_best]);
                assert(best_of(t, old_text@) == (if sim_gt(
                    sim_pair(ls[i as int], old_text@),
                    sim_pair(ls[prev_best], old_text@),
                ) {
                    i as int
                } else {
                    prev_best
                }));
                assert(best as int == best_of(t, old_text@));
            }
        } else {
            proof {
                let t = ls.take(1);
                assert(best_of(t, old_text@) == 0);
            }
        }
        nums.push(num);
        dens.push(den);
        i = i + 1;
    }
    proof {
        assert(ls.take(ls.len() as int) =~= ls);
    }
    if cnt > 1 {
        let ghost pat = old_text@;
        let mut cands: Vec<usize> = Vec::new();
        let mut v: usize = 0;
        proof {
            assert(meet_from(ls, pat, 0) =~= crate::report::ints_of(cands@) + meet_from(
                ls,
                pat,
                0,
            ));
        }
        while v < lines.len()
            invariant
                pat == old_text@,
                ls == lines_of(content@),
                lines@.len() == ls.len(),
                nums@.len() == ls.len(),
                dens@.len() == ls.len(),
                forall|k: int|
                    0 <= k < ls.len() ==> ((#[trigger] nums@[k]) as int, dens@[k] as int)
                        == sim_pair(ls[k], pat),
                forall|k: int| 0 <= k < ls.len() ==> (#[trigger] dens@[k]) >= 1,
                v <= ls.len(),
                forall|k: int| 0 <= k < cands@.len() ==> (#[trigger] cands@[k]) < ls.len(),
                meet_from(ls, pat, 0) == crate::report::ints_of(cands@) + meet_from(
                    ls,
                    pat,
                    v as int,
                ),
            decreases ls.len() - v,
        {
            proof {
                assert(meet_from(ls, pat, v as int) == (if sim_meets_threshold(
                    sim_pair(ls[v as int], pat),
                ) {
                    seq![v as int]
                } else {
                    Seq::<int>::empty()
                }) + meet_from(ls, pat, v + 1 as int));
            }
            if sim_meets_exec(nums[v], dens[v]) {
                let ghost prevc = crate::report::ints_of(cands@);
                cands.push(v);
                proof {
                    assert(crate::report::ints_of(cands@) =~= prevc.push(v as int));
                    assert(prevc + (seq![v as int] + meet_from(ls, pat, v + 1 as int))
                        =~= crate::report::ints_of(cands@) + meet_from(ls, pat, v + 1 as int));
                }
            }
            v = v + 1;
        }
        proof {
            assert(meet_from(ls, pat, ls.len() as int) =~= Seq::<int>::empty());
            assert(crate::report::ints_of(cands@) + Seq::<int>::empty() =~= crate::report::ints_of(
                cands@,
            ));
        }
        let ghost cm = crate::report::ints_of(cands@);
        let mut ranked: Vec<usize> = Vec::new();
        let mut t: usize = 0;
        proof {
            assert(cm.take(0) =~= Seq::<int>::empty());
            assert(crate::report::ints_of(ranked@) =~= sort_cands(cm.take(0), ls, pat));
        }
        while t < cands.len()
            invariant
                pat == old_text@,
                ls == lines_of(content@),
                lines@.len() == ls.len(),
                nums@.len() == ls.len(),
                dens@.len() == ls.len(),
                forall|k: int|
                    0 <= k < ls.len() ==> ((#[trigger] nums@[k]) as int, dens@[k] as int)
                        == sim_pair(ls[k], pat),
                forall|k: int| 0 <= k < ls.len() ==> (#[trigger] dens@[k]) >= 1,
                cm == crate::report::ints_of(cands@),
                forall|k: int| 0 <= k < cands@.len() ==> (#[trigger] cands@[k]) < ls.len(),
                t <= cands@.len(),
                forall|k: int| 0 <= k < ranked@.len() ==> (#[trigger] ranked@[k]) < ls.len(),
                crate::report::ints_of(ranked@) == sort_cands(cm.take(t as int), ls, pat),
            decreases cands@.len() - t,
        {
            proof {
                assert(cm[t as int] == cands@[t as int] as int);
                let tk = cm.take(t + 1 as int);
                assert(tk.drop_last() =~= cm.take(t as int));
                assert(tk.last() == cm[t as int]);
            }
            insert_cand_exec(&mut ranked, cands[t], &nums, &dens, Ghost(ls), Ghost(pat));
            t = t + 1;
        }
        proof {
            assert(cm.take(cands@.len() as int) =~= cm);
        }
        let ghost sortedm = sort_cands(cm, ls, pat);
        let lim: usize = if ranked.len() < 3 {
            ranked.len()
        } else {
            3
        };
        let ghost picks = if sortedm.len() <= 3 {
            sortedm
        } else {
            sortedm.take(3)
        };
        proof {
            if sortedm.len() <= 3 {
                assert(picks =~= crate::report::ints_of(ranked@).take(lim as int));
            }
        }
        let mut msg = String::new();
        msg.append("Multiple matches found for \"");
        push_truncated(&mut msg, old_text);
        msg.append("\". Provide more context to identify the correct location:\n");
        let ghost head = msg@;
        let mut w: usize = 0;
        while w < lim
            invariant
                pat == old_text@,
                ls == lines_of(content@),
                views_of(lines@) == ls,
                lines@.len() == ls.len(),
                nums@.len() == ls.len(),
                dens@.len() == ls.len(),
                forall|k: int|
                    0 <= k < ls.len() ==> ((#[trigger] nums@[k]) as int, dens@[k] as int)
                        == sim_pair(ls[k], pat),
                forall|k: int| 0 <= k < ls.len() ==> (#[trigger] dens@[k]) >= 1,
                forall|k: int| 0 <= k < ranked@.len() ==> (#[trigger] ranked@[k]) < ls.len(),
                lim <= ranked@.len(),
                ls.len() <= usize::MAX,
                picks == crate::report::ints_of(ranked@).take(lim as int),
                w <= lim,
                w == 0 ==> msg@ == head,
                w > 0 ==> msg@ == head + cand_listing(ls, pat, picks.take(w as int)),
            decreases lim - w,
        {
            if w > 0 {
                msg.append("\n");
            }
            let k = ranked[w];
            proof {
                assert(picks[w as int] == ranked@[w as int] as int);
                assert(ls[k as int] == lines@[k as int]@);
            }
            msg.append("  Line ");
            crate::strutil::push_usize(&mut msg, k + 1);
            msg.append(" (similarity ");
            crate::report::push_u128_dec(&mut msg, percent_of(nums[k], dens[k]));
            msg.append("%): ");
            push_truncated(&mut msg, lines[k].as_str());
            proof {
                let tk = picks.take(w + 1 as int);
                assert(tk.drop_last() =~= picks.take(w as int));
                assert(tk.last() == picks[w as int]);
                if w == 0 {
                    assert(msg@ =~= head + cand_listing(ls, pat, tk));
                } else {
                    assert(msg@ =~= head + (cand_listing(ls, pat, picks.take(w as int)) + "\n"@
                        + cand_line(ls, pat, picks[w as int])));
                }
            }
            w = w + 1;
        }
        proof {
            if lim > 0 {
                assert(picks.take(lim as int) =~= picks);
            } else {
                assert(picks.take(0) =~= picks);
                assert(msg@ =~= head + cand_listing(ls, pat, picks));
            }
            assert(msg@ =~= ambig_msg(ls, pat));
        }
        return Err(msg);
    }
    if cnt == 1 {
        let matched = &lines[best];
        let mv = to_char_vec(matched.as_str());
        let pos: usize = match find_sub(&cv, &mv) {
            Option::Some(p) => p,
            Option::None => 0,
        };
        return Ok((pos, matched.clone()));
    }
    let mut msg = String::new();
    msg.append("Could not find \"");
    push_truncated(&mut msg, old_text);
    msg.append("\". Best match (similarity ");
    crate::report::push_u128_dec(&mut msg, percent_of(nums[best], dens[best]));
    msg.append("%): \"");
    push_truncated(&mut msg, lines[best].as_str());
    msg.append("\"");
    proof {
        assert(ls[best as int] == lines@[best as int]@);
        assert(msg@ =~= low_sim_msg(ls, old_text@));
    }
    Err(msg)
}

/// Places `x` into the ranked candidates held so far.
fn insert_cand_exec(
    v: &mut Vec<usize>,
    x: usize,
    nums: &Vec<usize>,
    dens: &Vec<usize>,
    Ghost(ls): Ghost<Seq<Seq<char>>>,
    Ghost(pat): Ghost<Seq<char>>,
)
    requires
        x < ls.len(),
        nums@.len() == ls.len(),
        dens@.len() == ls.len(),
        forall|k: int|
            0 <= k < ls.len() ==> ((#[trigger] nums@[k]) as int, dens@[k] as int) == sim_pair(
                ls[k],
                pat,
            ),
        forall|k: int| 0 <= k < old(v)@.len() ==> (#[trigger] old(v)@[k]) < ls.len(),
    ensures
        crate::report::ints_of(final(v)@) == insert_cand(
            x as int,
            crate::report::ints_of(old(v)@),
            ls,
            pat,
        ),
        forall|k: int| 0 <= k < final(v)@.len() ==> (#[trigger] final(v)@[k]) < ls.len(),
{
    let ghost vs = crate::report::ints_of(v@);
    let mut p: usize = 0;
    proof {
        assert(vs.take(0) =~= Seq::<int>::empty());
        assert(vs.skip(0) =~= vs);
        assert(insert_cand(x as int, vs, ls, pat) =~= vs.take(0) + insert_cand(
            x as int,
            vs.skip(0),
            ls,
            pat,
        ));
    }
    loop
        invariant_except_break
            vs == crate::report::ints_of(v@),
            x < ls.len(),
            nums@.len() == ls.len(),
            dens@.len() == ls.len(),
            forall|k: int|
                0 <= k < ls.len() ==> ((#[trigger] nums@[k]) as int, dens@[k] as int) == sim_pair(
                    ls[k],
                    pat,
                ),
            forall|k: int| 0 <= k < v@.len() ==> (#[trigger] v@[k]) < ls.len(),
            p <= v@.len(),
            insert_cand(x as int, vs, ls, pat) == vs.take(p as int) + insert_cand(
                x as int,
                vs.skip(p as int),
                ls,
                pat,
            ),
        ensures
            p <= v@.len(),
            vs == crate::report::ints_of(v@),
            forall|k: int| 0 <= k < v@.len() ==> (#[trigger] v@[k]) < ls.len(),
            insert_cand(x as int, vs, ls, pat) == vs.take(p as int) + seq![x as int] + vs.skip(
                p as int,
            ),
        decreases v@.len() - p,
    {
        if p >= v.len() {
            proof {
                assert(vs.skip(p as int) =~= Seq::<int>::empty());
                assert(insert_cand(x as int, vs, ls, pat) =~= vs.take(p as int) + seq![x as int]
                    + vs.skip(p as int));
            }
            break;
        }
        proof {
            assert(vs[p as int] == v@[p as int] as int);
            assert(vs.skip(p as int).first() == vs[p as int]);
        }
        let cur = v[p];
        if sim_gt_exec(nums[x], dens[x], nums[cur], dens[cur]) {
            proof {
                assert(insert_cand(x as int, vs.skip(p as int), ls, pat) == seq![x as int]
                    + vs.skip(p as int));
                assert(insert_cand(x as int, vs, ls, pat) =~= vs.take(p as int) + seq![x as int]
                    + vs.skip(p as int));
            }
            break;
        }
        proof {
            assert(insert_cand(x as int, vs.skip(p as int), ls, pat) == seq![vs[p as int]]
                + insert_cand(x as int, vs.skip(p as int).skip(1), ls, pat));
            assert(vs.skip(p as int).skip(1) =~= vs.skip(p + 1 as int));
            assert(vs.take(p as int) + seq![vs[p as int]] =~= vs.take(p + 1 as int));
            assert(insert_cand(x as int, vs, ls, pat) =~= vs.take(p + 1 as int) + insert_cand(
                x as int,
                vs.skip(p + 1 as int),
                ls,
                pat,
            ));
        }
        p = p + 1;
    }
    v.insert(p, x);
    proof {
        assert(crate::report::ints_of(v@) =~= vs.take(p as int) + seq![x as int] + vs.skip(
            p as int,
        ));
    }
}

proof fn lemma_map_norm_in_range(s: Seq<char>, i: int, cnt: int, pos: int)
    requires
        0 <= i <= s.len(),
    ensures
        i <= map_norm_from(s, i, cnt, pos) <= s.len() || map_norm_from(s, i, cnt, pos) == 0,
    decreases s.len() - i,
{
    if i < s.len() && cnt != pos {
        lemma_map_norm_in_range(
            s,
            i + 1,
            cnt + if char_is_whitespace(s[i]) {
                0int
            } else {
                1int
            },
            pos,
        );
    }
}

} // verus!
