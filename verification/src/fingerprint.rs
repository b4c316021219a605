use vstd::prelude::*;
use crate::chars::char_is_alphanumeric;
use crate::chars::char_is_whitespace;
use crate::strutil::lemma_filter_push;
use crate::strutil::views_of;
use crate::strutil::ws_removed;

verus! {

/// What `xxhash_rust::xxh32::xxh32` returns for the UTF-8 bytes of a
/// character sequence and a seed: a digest that depends on those two alone.
pub uninterp spec fn xxh32_of(s: Seq<char>, seed: u32) -> u32;

/// Relies on xxhash_rust::xxh32::xxh32: the digest is a function of the
/// hashed bytes and the seed alone.
#[verifier::external_body]
fn xxh32_str(s: &str, seed: u32) -> (r: u32)
    ensures
        r == xxh32_of(s@, seed),
{
    xxhash_rust::xxh32::xxh32(s.as_bytes(), seed)
}

/// `s` with one trailing carriage return removed.
pub open spec fn strip_cr(s: Seq<char>) -> Seq<char> {
    if s.len() > 0 && s.last() == '\r' {
        s.drop_last()
    } else {
        s
    }
}

/// Whether any character of `s` is alphanumeric.
pub open spec fn has_alnum(s: Seq<char>) -> bool {
    exists|i: int| 0 <= i < s.len() && char_is_alphanumeric(s[i])
}

/// The seed that folding the characters of a previous fingerprint produces:
/// each character is taken into the low byte, with wraparound at 32 bits.
pub open spec fn seed_fold(s: Seq<char>) -> u32
    decreases s.len(),
{
    if s.len() == 0 {
        0u32
    } else {
        vstd::wrapping::u32_specs::wrapping_add(
            vstd::wrapping::u32_specs::wrapping_mul(seed_fold(s.drop_last()), 256),
            s.last() as u32,
        )
    }
}

/// The seed for a line: folded from the previous fingerprint when one is
/// given; otherwise a fixed constant for lines with alphanumeric content and
/// the line number for all-blank or all-punctuation lines.
pub open spec fn line_seed(line_num: int, norm: Seq<char>, prev: Option<Seq<char>>) -> u32 {
    match prev {
        Option::Some(p) => seed_fold(p),
        Option::None => if has_alnum(norm) {
            0u32
        } else {
            (line_num % 0x1_0000_0000) as u32
        },
    }
}

/// The character standing for one 4-bit value of a fingerprint.
pub open spec fn nibble_char(i: int) -> char {
    if i == 0 { 'Z' }
    else if i == 1 { 'P' }
    else if i == 2 { 'M' }
    else if i == 3 { 'Q' }
    else if i == 4 { 'V' }
    else if i == 5 { 'R' }
    else if i == 6 { 'W' }
    else if i == 7 { 'S' }
    else if i == 8 { 'N' }
    else if i == 9 { 'K' }
    else if i == 10 { 'T' }
    else if i == 11 { 'X' }
    else if i == 12 { 'J' }
    else if i == 13 { 'B' }
    else if i == 14 { 'Y' }
    else { 'H' }
}

/// The chained-mode fingerprint of one line: the low byte of the digest of
/// the whitespace-stripped content, written as two alphabet characters.
pub open spec fn spec_line_hash(line_num: int, line: Seq<char>, prev: Option<Seq<char>>) -> Seq<char> {
    let norm = ws_removed(strip_cr(line));
    let h = xxh32_of(norm, line_seed(line_num, norm, prev)) & 0xff;
    seq![nibble_char((h >> 4) as int), nibble_char((h & 0xf) as int)]
}

fn nibble_exec(i: u32) -> (r: char)
    requires
        i < 16,
    ensures
        r == nibble_char(i as int),
{
    if i == 0 { 'Z' }
    else if i == 1 { 'P' }
    else if i == 2 { 'M' }
    else if i == 3 { 'Q' }
    else if i == 4 { 'V' }
    else if i == 5 { 'R' }
    else if i == 6 { 'W' }
    else if i == 7 { 'S' }
    else if i == 8 { 'N' }
    else if i == 9 { 'K' }
    else if i == 10 { 'T' }
    else if i == 11 { 'X' }
    else if i == 12 { 'J' }
    else if i == 13 { 'B' }
    else if i == 14 { 'Y' }
    else { 'H' }
}

/// Removes every whitespace character of `s`.
pub fn normalize_whitespace(s: &str) -> (r: String)
    ensures
        r@ == ws_removed(s@),
{
    let n = s.unicode_len();
    let mut out = String::new();
    let mut i: usize = 0;
    while i < n
        invariant
            n == s@.len(),
            i <= n,
            out@ == ws_removed(s@.take(i as int)),
        decreases n - i,
    {
        let c = s.get_char(i);
        proof {
            assert(s@.take(i + 1 as int) =~= s@.take(i as int).push(s@[i as int]));
            lemma_filter_push(s@.take(i as int), s@[i as int], |x: char| !char_is_whitespace(x));
        }
        if !c.is_whitespace() {
            out.push(c);
        }
        i = i + 1;
    }
    proof {
        assert(s@.take(n as int) =~= s@);
    }
    out
}

fn str_has_alnum(s: &str) -> (r: bool)
    ensures
        r == has_alnum(s@),
{
    let n = s.unicode_len();
    let mut i: usize = 0;
    while i < n
        invariant
            n == s@.len(),
            i <= n,
            forall|j: int| 0 <= j < i ==> !char_is_alphanumeric(s@[j]),
        decreases n - i,
    {
        if s.get_char(i).is_alphanumeric() {
            return true;
        }
        i = i + 1;
    }
    false
}

fn fold_prev_seed(prev: &str) -> (r: u32)
    ensures
        r == seed_fold(prev@),
{
    let n = prev.unicode_len();
    let mut seed: u32 = 0;
    let mut i: usize = 0;
    while i < n
        invariant
            n == prev@.len(),
            i <= n,
            seed == seed_fold(prev@.take(i as int)),
        decreases n - i,
    {
        let c = prev.get_char(i);
        proof {
            let t = prev@.take(i + 1 as int);
            assert(t.drop_last() =~= prev@.take(i as int));
            assert(t.last() == prev@[i as int]);
        }
        seed = seed.wrapping_mul(256).wrapping_add(c as u32);
        i = i + 1;
    }
    proof {
        assert(prev@.take(n as int) =~= prev@);
    }
    seed
}

/// The chained-mode fingerprint of a line: a short digest of the line's
/// whitespace-stripped content, folded with the previous line's fingerprint
/// so that any upstream change invalidates every later fingerprint.
pub fn compute_line_hash(line_num: usize, line: &str, prev_hash: Option<&str>) -> (r: String)
    ensures
        r@ == spec_line_hash(line_num as int, line@, match prev_hash {
            Option::Some(p) => Option::Some(p@),
            Option::None => Option::None,
        }),
{
    let ghost prevopt: Option<Seq<char>> = match prev_hash {
        Option::Some(p) => Option::Some(p@),
        Option::None => Option::None,
    };
    let n = line.unicode_len();
    let stripped: &str = if n > 0 && line.get_char(n - 1) == '\r' {
        let t = line.substring_char(0, n - 1);
        proof {
            assert(t@ =~= strip_cr(line@));
        }
        t
    } else {
        line
    };
    let normalized = normalize_whitespace(stripped);
    let seed: u32 = match prev_hash {
        Option::Some(prev) => fold_prev_seed(prev),
        Option::None => {
            if str_has_alnum(normalized.as_str()) {
                0u32
            } else {
                ((line_num as u64) % 0x1_0000_0000u64) as u32
            }
        },
    };
    let h = xxh32_str(normalized.as_str(), seed) & 0xff;
    proof {
        let y: u32 = xxh32_of(normalized@, seed);
        assert(((y & 0xff) >> 4) < 16 && ((y & 0xff) & 0xf) < 16) by (bit_vector);
    }
    let mut out = String::new();
    out.push(nibble_exec(h >> 4));
    out.push(nibble_exec(h & 0xf));
    proof {
        assert(normalized@ == ws_removed(strip_cr(line@)));
        assert(seed == line_seed(line_num as int, normalized@, prevopt));
        assert(h == xxh32_of(normalized@, seed) & 0xff);
        assert(out@ =~= spec_line_hash(line_num as int, line@, prevopt));
    }
    out
}

/// The chained fingerprints of a whole file: the first line's fingerprint is
/// seeded afresh, every later line's is seeded from its predecessor's.
pub open spec fn chain_hashes(lines_v: Seq<Seq<char>>) -> Seq<Seq<char>>
    decreases lines_v.len(),
{
    if lines_v.len() == 0 {
        Seq::empty()
    } else {
        let front = chain_hashes(lines_v.drop_last());
        let n = lines_v.len();
        front.push(spec_line_hash(n as int, lines_v.last(), if n == 1 {
            Option::None
        } else {
            Option::Some(front.last())
        }))
    }
}

pub proof fn lemma_chain_hashes_len(lines_v: Seq<Seq<char>>)
    ensures
        chain_hashes(lines_v).len() == lines_v.len(),
    decreases lines_v.len(),
{
    if lines_v.len() > 0 {
        lemma_chain_hashes_len(lines_v.drop_last());
    }
}

/// The chained fingerprints of every line of the file, in order.
pub fn compute_chain_hashes(lines: &Vec<String>) -> (r: Vec<String>)
    ensures
        views_of(r@) == chain_hashes(views_of(lines@)),
{
    let mut r: Vec<String> = Vec::new();
    let mut i: usize = 0;
    while i < lines.len()
        invariant
            i <= lines@.len(),
            r@.len() == i,
            views_of(r@) == chain_hashes(views_of(lines@).take(i as int)),
        decreases lines@.len() - i,
    {
        proof {
            lemma_chain_hashes_len(views_of(lines@).take(i as int));
        }
        let h = if i == 0 {
            compute_line_hash(1, lines[0].as_str(), None)
        } else {
            let prev: &String = &r[i - 1];
            compute_line_hash(i + 1, lines[i].as_str(), Some(prev.as_str()))
        };
        r.push(h);
        proof {
            let lv = views_of(lines@);
            let t = lv.take(i + 1 as int);
            assert(t.drop_last() =~= lv.take(i as int));
            assert(t.last() == lv[i as int]);
            assert(lv[i as int] == lines@[i as int]@);
            assert(views_of(r@) =~= chain_hashes(lv.take(i as int)).push(r@.last()@));
            assert(views_of(r@) =~= chain_hashes(t));
        }
        i = i + 1;
    }
    proof {
        assert(views_of(lines@).take(lines@.len() as int) =~= views_of(lines@));
    }
    r
}

/// The fingerprint of a line is a function of its whitespace-stripped
/// content, its line number and the previous fingerprint alone: two lines
/// that differ only in whitespace carry the same fingerprint.
pub proof fn lemma_hash_whitespace_insensitive(
    line_num: int,
    a: Seq<char>,
    b: Seq<char>,
    prev: Option<Seq<char>>,
)
    requires
        ws_removed(strip_cr(a)) == ws_removed(strip_cr(b)),
    ensures
        spec_line_hash(line_num, a, prev) == spec_line_hash(line_num, b, prev),
{
}

} // verus!
