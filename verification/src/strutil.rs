use vstd::prelude::*;
use vstd::string::StrSliceExecFns;
use vstd::string::StringExecFns;
use crate::chars::char_is_whitespace;

verus! {

/// The character sequences of a sequence of strings.
pub open spec fn views_of(v: Seq<String>) -> Seq<Seq<char>> {
    v.map_values(|s: String| s@)
}

/// The characters of `s` with every whitespace character removed.
pub open spec fn ws_removed(s: Seq<char>) -> Seq<char> {
    s.filter(|c: char| !char_is_whitespace(c))
}

pub proof fn lemma_filter_push<A>(s: Seq<A>, x: A, p: spec_fn(A) -> bool)
    ensures
        s.push(x).filter(p) == if p(x) {
            s.filter(p).push(x)
        } else {
            s.filter(p)
        },
{
    reveal(Seq::filter);
    assert(s.push(x).drop_last() =~= s);
    assert(s.push(x).last() == x);
}

/// The characters of `s`, one by one.
pub fn to_char_vec(s: &str) -> (r: Vec<char>)
    ensures
        r@ == s@,
{
    let n = s.unicode_len();
    let mut r: Vec<char> = Vec::new();
    let mut i: usize = 0;
    while i < n
        invariant
            n == s@.len(),
            i <= n,
            r@ == s@.take(i as int),
        decreases n - i,
    {
        r.push(s.get_char(i));
        assert(s@.take(i + 1 as int) =~= s@.take(i as int).push(s@[i as int]));
        i = i + 1;
    }
    assert(s@.take(n as int) =~= s@);
    r
}

/// Whether two string slices hold the same characters.
pub fn str_eq(a: &str, b: &str) -> (r: bool)
    ensures
        r == (a@ == b@),
{
    let an = a.unicode_len();
    let bn = b.unicode_len();
    if an != bn {
        assert(a@ != b@);
        return false;
    }
    let mut i: usize = 0;
    while i < an
        invariant
            an == a@.len(),
            an == b@.len(),
            i <= an,
            forall|j: int| 0 <= j < i ==> a@[j] == b@[j],
        decreases an - i,
    {
        if a.get_char(i) != b.get_char(i) {
            return false;
        }
        i = i + 1;
    }
    assert(a@ =~= b@);
    true
}

/// The decimal digits of `n`, most significant first.
pub open spec fn dec_digits(n: int) -> Seq<char>
    decreases n,
{
    if n < 10 {
        seq![dec_digit_char(n)]
    } else {
        dec_digits(n / 10).push(dec_digit_char(n % 10))
    }
}

/// The character for one decimal digit.
pub open spec fn dec_digit_char(d: int) -> char {
    ((0x30 + d) as u8) as char
}

/// Writes `n` in decimal onto the end of `out`.
pub fn push_usize(out: &mut String, n: usize)
    ensures
        final(out)@ == old(out)@ + dec_digits(n as int),
{
    let mut digits: Vec<char> = Vec::new();
    let mut m: usize = n;
    assert(dec_digits(n as int) =~= dec_digits(n as int) + digits@);
    loop
        invariant_except_break
            dec_digits(n as int) == dec_digits(m as int) + digits@,
        ensures
            dec_digits(n as int) == digits@,
        decreases m,
    {
        let d: u8 = (m % 10) as u8;
        let c: char = (0x30u8 + d) as char;
        assert(c == dec_digit_char(m as int % 10));
        let ghost prev = digits@;
        digits.insert(0, c);
        assert(digits@ =~= seq![c] + prev);
        if m < 10 {
            assert(dec_digits(m as int) == seq![dec_digit_char(m as int)]);
            assert(dec_digits(n as int) =~= digits@);
            break;
        }
        assert(dec_digits(m as int) == dec_digits(m as int / 10).push(dec_digit_char(m as int % 10)));
        assert(dec_digits(m as int) =~= dec_digits(m as int / 10) + seq![c]);
        assert(dec_digits(m as int / 10) + seq![c] + prev =~= dec_digits(m as int / 10) + digits@);
        m = m / 10;
    }
    let ghost start = out@;
    let mut i: usize = 0;
    while i < digits.len()
        invariant
            out@ == start + digits@.take(i as int),
            i <= digits@.len(),
        decreases digits@.len() - i,
    {
        out.push(digits[i]);
        assert(start + digits@.take(i + 1 as int) =~= (start + digits@.take(i as int)).push(digits@[i as int]));
        i = i + 1;
    }
    assert(digits@.take(digits@.len() as int) =~= digits@);
}

/// `s` with one trailing carriage return removed, as the standard line
/// splitter does before a line feed.
pub open spec fn seg_strip_cr(s: Seq<char>) -> Seq<char> {
    if s.len() > 0 && s.last() == '\r' {
        s.drop_last()
    } else {
        s
    }
}

/// The lines still to be produced from `s` at position `i`, with `cur` the
/// partial line read so far and `acc` the lines already complete.
pub open spec fn lines_from(s: Seq<char>, i: int, cur: Seq<char>, acc: Seq<Seq<char>>) -> Seq<
    Seq<char>,
>
    decreases s.len() - i,
{
    if i < 0 || i >= s.len() {
        if cur.len() == 0 {
            acc
        } else {
            acc.push(cur)
        }
    } else if s[i] == '\n' {
        lines_from(s, i + 1, Seq::empty(), acc.push(seg_strip_cr(cur)))
    } else {
        lines_from(s, i + 1, cur.push(s[i]), acc)
    }
}

/// The lines of `s`: split at each line feed, one carriage return stripped
/// before each line feed, and no empty line for a trailing line feed.
pub open spec fn lines_of(s: Seq<char>) -> Seq<Seq<char>> {
    lines_from(s, 0, Seq::empty(), Seq::empty())
}

/// The lines joined back with a line feed between each two.
pub open spec fn join_nl(ls: Seq<Seq<char>>) -> Seq<char>
    decreases ls.len(),
{
    if ls.len() == 0 {
        Seq::empty()
    } else if ls.len() == 1 {
        ls.first()
    } else {
        join_nl(ls.drop_last()) + seq!['\n'] + ls.last()
    }
}

/// Whether `s` ends with a line feed.
pub open spec fn ends_nl(s: Seq<char>) -> bool {
    s.len() > 0 && s.last() == '\n'
}

/// Splits `s` into its lines, as the line-based engine sees a file.
pub fn split_lines(s: &str) -> (r: Vec<String>)
    ensures
        views_of(r@) == lines_of(s@),
{
    let n = s.unicode_len();
    let mut acc: Vec<String> = Vec::new();
    let mut cur = String::new();
    let mut i: usize = 0;
    proof {
        assert(views_of(acc@) =~= Seq::<Seq<char>>::empty());
        assert(cur@ =~= Seq::<char>::empty());
    }
    while i < n
        invariant
            n == s@.len(),
            i <= n,
            lines_of(s@) == lines_from(s@, i as int, cur@, views_of(acc@)),
        decreases n - i,
    {
        let c = s.get_char(i);
        if c == '\n' {
            let cl = cur.unicode_len();
            let seg: String = if cl > 0 && cur.as_str().get_char(cl - 1) == '\r' {
                let t = String::from_str(cur.as_str().substring_char(0, cl - 1));
                proof {
                    assert(t@ =~= seg_strip_cr(cur@));
                }
                t
            } else {
                cur
            };
            let ghost prev_acc = views_of(acc@);
            acc.push(seg);
            proof {
                assert(views_of(acc@) =~= prev_acc.push(seg@));
            }
            cur = String::new();
        } else {
            cur.push(c);
        }
        i = i + 1;
    }
    if cur.unicode_len() > 0 {
        let ghost prev_acc = views_of(acc@);
        acc.push(cur);
        proof {
            assert(views_of(acc@) =~= prev_acc.push(acc@.last()@));
        }
    }
    acc
}

/// Joins lines with a line feed between each two.
pub fn join_lines(lines: &Vec<String>) -> (r: String)
    ensures
        r@ == join_nl(views_of(lines@)),
{
    let mut out = String::new();
    let mut i: usize = 0;
    let ghost lv = views_of(lines@);
    while i < lines.len()
        invariant
            lv == views_of(lines@),
            i <= lines@.len(),
            i == 0 ==> out@ == Seq::<char>::empty(),
            i > 0 ==> out@ == join_nl(lv.take(i as int)),
        decreases lines@.len() - i,
    {
        if i > 0 {
            out.push('\n');
        }
        out.append(lines[i].as_str());
        proof {
            let t = lv.take(i + 1 as int);
            assert(t.drop_last() =~= lv.take(i as int));
            assert(t.last() == lv[i as int]);
            if i == 0 {
                assert(out@ =~= join_nl(t));
            } else {
                assert(out@ =~= join_nl(lv.take(i as int)) + seq!['\n'] + lv[i as int]);
            }
        }
        i = i + 1;
    }
    proof {
        if lines@.len() > 0 {
            assert(lv.take(lines@.len() as int) =~= lv);
        }
    }
    out
}

/// Whether the string ends with a line feed.
pub fn ends_with_nl(s: &str) -> (r: bool)
    ensures
        r == ends_nl(s@),
{
    let n = s.unicode_len();
    n > 0 && s.get_char(n - 1) == '\n'
}

} // verus!
