use vstd::prelude::*;
use vstd::string::StrSliceExecFns;
use vstd::string::StringExecFns;

verus! {

/// A parsed line reference: a 1-based line number and the fingerprint the
/// caller last saw for that line.
#[derive(Debug, Clone)]
pub struct AnchorRef {
    pub line: usize,
    pub hash: String,
}

/// The mathematical content of an `AnchorRef`.
pub struct AnchorModel {
    pub line: int,
    pub hash: Seq<char>,
}

impl View for AnchorRef {
    type V = AnchorModel;

    open spec fn view(&self) -> AnchorModel {
        AnchorModel { line: self.line as int, hash: self.hash@ }
    }
}

impl AnchorRef {
    /// A copy holding the same line number and fingerprint.
    pub fn duplicate(&self) -> (r: AnchorRef)
        ensures
            r@ == self@,
    {
        AnchorRef { line: self.line, hash: self.hash.clone() }
    }
}

/// The value of a decimal numeral, most significant digit first.
pub open spec fn dec_value(s: Seq<char>) -> int
    decreases s.len(),
{
    if s.len() == 0 {
        0
    } else {
        dec_value(s.drop_last()) * 10 + (s.last() as int - 0x30)
    }
}

/// Whether every character of `s` is a decimal digit.
pub open spec fn all_digits(s: Seq<char>) -> bool {
    forall|i: int| 0 <= i < s.len() ==> '0' <= #[trigger] s[i] <= '9'
}

/// The digit portion of a numeral: one leading plus sign is accepted.
pub open spec fn numeral_digits(s: Seq<char>) -> Seq<char> {
    if s.len() > 0 && s[0] == '+' {
        s.skip(1)
    } else {
        s
    }
}

/// What parsing `s` as a `usize` yields: the digits' value when `s` is a
/// non-empty string of digits, after an optional plus sign, whose value fits.
pub open spec fn parses_to_usize(s: Seq<char>) -> Option<int> {
    let d = numeral_digits(s);
    if d.len() > 0 && all_digits(d) && dec_value(d) <= usize::MAX {
        Option::Some(dec_value(d))
    } else {
        Option::None
    }
}

proof fn lemma_dec_value_grows(s: Seq<char>, i: int)
    requires
        all_digits(s),
        0 <= i <= s.len(),
    ensures
        dec_value(s.take(i)) <= dec_value(s),
    decreases s.len() - i,
{
    if i < s.len() {
        let t = s.take(i + 1);
        assert(t.drop_last() =~= s.take(i));
        assert(dec_value(s.take(i)) >= 0) by {
            lemma_dec_value_nonneg(s.take(i));
        }
        assert(dec_value(t) == dec_value(s.take(i)) * 10 + (s[i] as int - 0x30));
        assert(dec_value(s.take(i)) <= dec_value(t));
        lemma_dec_value_grows(s, i + 1);
        assert(s.take(s.len() as int) =~= s);
    } else {
        assert(s.take(s.len() as int) =~= s);
    }
}

proof fn lemma_dec_value_nonneg(s: Seq<char>)
    requires
        all_digits(s),
    ensures
        dec_value(s) >= 0,
    decreases s.len(),
{
    if s.len() > 0 {
        assert(all_digits(s.drop_last())) by {
            assert(forall|i: int| 0 <= i < s.len() - 1 ==> s.drop_last()[i] == s[i]);
        }
        lemma_dec_value_nonneg(s.drop_last());
    }
}

/// Parses a decimal `usize`, as the standard numeric parser reads one: an
/// optional plus sign, then digits, rejected on any other character or on
/// overflow.
pub fn parse_usize_str(s: &str) -> (r: Option<usize>)
    ensures
        r matches Option::Some(v) ==> parses_to_usize(s@) == Option::Some(v as int),
        r is None ==> parses_to_usize(s@) is None,
{
    let n = s.unicode_len();
    let start: usize = if n > 0 && s.get_char(0) == '+' {
        1
    } else {
        0
    };
    let ghost d = numeral_digits(s@);
    proof {
        assert(d =~= s@.skip(start as int));
    }
    if n == start {
        return None;
    }
    let mut cur: usize = 0;
    let mut i: usize = start;
    while i < n
        invariant
            n == s@.len(),
            start <= i <= n,
            d == numeral_digits(s@),
            d == s@.skip(start as int),
            d.len() == n - start,
            all_digits(d.take(i - start as int)),
            cur as int == dec_value(d.take(i - start as int)),
        decreases n - i,
    {
        let c = s.get_char(i);
        if !(c >= '0' && c <= '9') {
            proof {
                assert(d[i - start as int] == s@[i as int]);
                assert(!all_digits(d));
            }
            return None;
        }
        let dv: usize = (c as usize) - 0x30;
        let ghost pre = d.take(i - start as int);
        proof {
            assert(d.take(i + 1 - start as int).drop_last() =~= pre);
            assert(d.take(i + 1 - start as int).last() == s@[i as int]);
        }
        let step: Option<usize> = match cur.checked_mul(10) {
            Option::Some(m) => m.checked_add(dv),
            Option::None => None,
        };
        match step {
            Option::Some(v) => {
                cur = v;
            },
            Option::None => {
                proof {
                    assert(all_digits(d.take(i + 1 - start as int)));
                    assert(dec_value(d.take(i + 1 - start as int)) > usize::MAX);
                    if all_digits(d) {
                        lemma_dec_value_grows(d, i + 1 - start as int);
                    }
                }
                return None;
            },
        }
        i = i + 1;
    }
    proof {
        assert(d.take(n - start as int) =~= d);
    }
    Some(cur)
}

/// The index of the first occurrence of `c` in `s`.
pub open spec fn find_char(s: Seq<char>, c: char) -> Option<int>
    decreases s.len(),
{
    if s.len() == 0 {
        Option::None
    } else if s.first() == c {
        Option::Some(0)
    } else {
        match find_char(s.skip(1), c) {
            Option::Some(i) => Option::Some(i + 1),
            Option::None => Option::None,
        }
    }
}

pub proof fn lemma_find_char(s: Seq<char>, c: char)
    ensures
        match find_char(s, c) {
            Option::Some(i) => 0 <= i < s.len() && s[i] == c && forall|k: int|
                0 <= k < i ==> s[k] != c,
            Option::None => forall|k: int| 0 <= k < s.len() ==> s[k] != c,
        },
    decreases s.len(),
{
    if s.len() > 0 && s.first() != c {
        lemma_find_char(s.skip(1), c);
        assert(forall|k: int| 1 <= k < s.len() ==> s[k] == s.skip(1)[k - 1]);
    }
}

pub(crate) fn find_first(s: &str, c: char) -> (r: Option<usize>)
    ensures
        match r {
            Option::Some(i) => find_char(s@, c) == Option::Some(i as int),
            Option::None => find_char(s@, c) is None,
        },
{
    let n = s.unicode_len();
    let mut i: usize = 0;
    while i < n
        invariant
            n == s@.len(),
            i <= n,
            forall|k: int| 0 <= k < i ==> s@[k] != c,
        decreases n - i,
    {
        if s.get_char(i) == c {
            proof {
                lemma_find_char(s@, c);
                if find_char(s@, c) is None {
                    assert(false);
                } else {
                    let j = find_char(s@, c)->Some_0;
                    assert(s@[j] == c);
                    assert(j == i);
                }
            }
            return Some(i);
        }
        i = i + 1;
    }
    proof {
        lemma_find_char(s@, c);
        if find_char(s@, c) is Some {
            let j = find_char(s@, c)->Some_0;
            assert(s@[j] == c);
            assert(false);
        }
    }
    None
}

/// What parsing an anchor string yields: the text is split at the first `#`,
/// or at the first `:` when it has no `#`; the part before the separator must
/// read as a positive line number, the part after it is the fingerprint.
pub open spec fn spec_parse_anchor(s: Seq<char>) -> Option<(int, Seq<char>)> {
    match find_char(s, '#') {
        Option::Some(i) => match parses_to_usize(s.take(i)) {
            Option::Some(v) => if v == 0 {
                Option::None
            } else {
                Option::Some((v, s.skip(i + 1)))
            },
            Option::None => Option::None,
        },
        Option::None => match find_char(s, ':') {
            Option::Some(i) => match parses_to_usize(s.take(i)) {
                Option::Some(v) => if v == 0 {
                    Option::None
                } else {
                    Option::Some((v, s.skip(i + 1)))
                },
                Option::None => Option::None,
            },
            Option::None => Option::None,
        },
    }
}

/// Parses a line reference such as `5#ab`, also accepting the older `5:ab`
/// form, into the line number and the fingerprint text; a line number of
/// zero is rejected, a reference always points at a line that can exist.
pub fn parse_anchor(anchor: &str) -> (r: Option<(usize, String)>)
    ensures
        match r {
            Option::Some(p) => spec_parse_anchor(anchor@) == Option::Some(
                (p.0 as int, p.1@),
            ),
            Option::None => spec_parse_anchor(anchor@) is None,
        },
{
    let n = anchor.unicode_len();
    let sep: Option<usize> = match find_first(anchor, '#') {
        Option::Some(i) => Some(i),
        Option::None => find_first(anchor, ':'),
    };
    match sep {
        Option::Some(i) => {
            proof {
                lemma_find_char(anchor@, '#');
                lemma_find_char(anchor@, ':');
            }
            let head = anchor.substring_char(0, i);
            match parse_usize_str(head) {
                Option::Some(v) => {
                    if v == 0 {
                        return None;
                    }
                    let tail = String::from_str(anchor.substring_char(i + 1, n));
                    Some((v, tail))
                },
                Option::None => None,
            }
        },
        Option::None => None,
    }
}

} // verus!
