use vstd::prelude::*;
use vstd::string::StrSliceExecFns;
use vstd::string::StringExecFns;
use crate::anchor::find_char;
use crate::anchor::find_first;
use crate::anchor::parse_usize_str;
use crate::anchor::parses_to_usize;
use crate::edit::max_i;
use crate::edit::restore_nl;
use crate::edit::min_i;
use crate::edit::splice_at;
use crate::fingerprint::normalize_whitespace;
use crate::fuzzy::find_fuzzy_match;
use crate::fuzzy::fuzzy_result;
use crate::fuzzy::lemma_fuzzy_bounds;
use crate::fuzzy::match_at;
use crate::jsonval::fields_model;
use crate::jsonval::items_model;
use crate::jsonval::json_parse;
use crate::jsonval::lemma_fields_model;
use crate::jsonval::lemma_items_model;
use crate::jsonval::JsonModel;
use crate::jsonval::JsonNode;
use crate::strutil::ends_nl;
use crate::strutil::ends_with_nl;
use crate::strutil::join_lines;
use crate::strutil::join_nl;
use crate::strutil::lines_of;
use crate::strutil::split_lines;
use crate::strutil::str_eq;
use crate::strutil::views_of;
use crate::strutil::ws_removed;

verus! {

/// What `twox_hash::XxHash64::oneshot` with seed zero returns for the UTF-8
/// bytes of a character sequence: a digest depending on the bytes alone.
pub uninterp spec fn xxh64_of(s: Seq<char>) -> u64;

/// Relies on twox_hash::XxHash64::oneshot: the digest is a function of the
/// hashed bytes and the fixed zero seed alone.
#[verifier::external_body]
fn xxh64_str(s: &str) -> (r: u64)
    ensures
        r == xxh64_of(s@),
{
    twox_hash::XxHash64::oneshot(0, s.as_bytes())
}

/// The character standing for one base-36 digit: decimal digits then
/// lower-case letters.
pub open spec fn b36_char(d: int) -> char {
    if d < 10 {
        ((0x30 + d) as u8) as char
    } else {
        ((0x57 + d) as u8) as char
    }
}

/// The lowest four base-36 digits of `n`, most significant first.
pub open spec fn base36_4(n: int) -> Seq<char> {
    seq![
        b36_char(n / 46656 % 36),
        b36_char(n / 1296 % 36),
        b36_char(n / 36 % 36),
        b36_char(n % 36),
    ]
}

/// Writes `n` as four base-36 digits, most significant of the lowest four
/// first.
pub fn to_base36(n: u64) -> (r: String)
    ensures
        r@ == base36_4(n as int),
{
    let mut out = String::new();
    let d3: u64 = (n / 46656) % 36;
    let d2: u64 = (n / 1296) % 36;
    let d1: u64 = (n / 36) % 36;
    let d0: u64 = n % 36;
    out.push(b36_exec(d3));
    out.push(b36_exec(d2));
    out.push(b36_exec(d1));
    out.push(b36_exec(d0));
    proof {
        assert(out@ =~= base36_4(n as int));
    }
    out
}

fn b36_exec(d: u64) -> (r: char)
    requires
        d < 36,
    ensures
        r == b36_char(d as int),
{
    if d < 10 {
        (0x30u8 + (d as u8)) as char
    } else {
        (0x57u8 + (d as u8)) as char
    }
}

/// The independent fingerprint of one line: four base-36 digits of the
/// digest of the line with its whitespace removed, reduced modulo 36 to the
/// fourth power.
pub open spec fn indep_hash(line: Seq<char>) -> Seq<char> {
    base36_4(xxh64_of(ws_removed(line)) as int % 1679616)
}

/// The independent fingerprint of a line: unlike the chained mode it depends
/// on the line's own content alone.
pub fn compute_line_hash(line: &str) -> (r: String)
    ensures
        r@ == indep_hash(line@),
{
    let normalized = normalize_whitespace(line);
    let h = xxh64_str(normalized.as_str());
    to_base36(h % 1679616)
}

/// What parsing a legacy `LINE:HASH` anchor yields: the text split at the
/// first colon, the part before it read as a positive line number.
pub open spec fn spec_parse_colon(s: Seq<char>) -> Option<(int, Seq<char>)> {
    match find_char(s, ':') {
        Option::Some(i) => match parses_to_usize(s.take(i)) {
            Option::Some(v) => if v == 0 {
                Option::None
            } else {
                Option::Some((v, s.skip(i + 1)))
            },
            Option::None => Option::None,
        },
        Option::None => Option::None,
    }
}

/// Parses a legacy `LINE:HASH` line reference; a line number of zero is
/// rejected.
pub fn parse_anchor(anchor: &str) -> (r: Option<(usize, String)>)
    ensures
        match r {
            Option::Some(p) => spec_parse_colon(anchor@) == Option::Some((p.0 as int, p.1@)),
            Option::None => spec_parse_colon(anchor@) is None,
        },
{
    let n = anchor.unicode_len();
    match find_first(anchor, ':') {
        Option::Some(i) => {
            proof {
                crate::anchor::lemma_find_char(anchor@, ':');
            }
            let head = anchor.substring_char(0, i);
            match parse_usize_str(head) {
                Option::Some(v) => {
                    if v == 0 {
                        return None;
                    }
                    let tail = String::from_str(anchor.substring_char(i + 1, n));
                    Some((v, tail))
                },
                Option::None => None,
            }
        },
        Option::None => None,
    }
}

/// One edit of the legacy tool's wire format, in its flat tagged form.
#[derive(Debug, Clone)]
pub enum Edit {
    SetLine { anchor: String, new_text: String },
    ReplaceLines { start_anchor: String, end_anchor: String, new_text: String },
    InsertAfter { anchor: String, text: String },
    Replace { old_text: String, new_text: String, all: Option<bool> },
}

/// The fields of a nested `set_line` wire object.
#[derive(Debug)]
pub struct SetLineEdit {
    pub anchor: String,
    pub new_text: String,
}

/// The fields of a nested `replace_lines` wire object.
#[derive(Debug)]
pub struct ReplaceLinesEdit {
    pub start_anchor: String,
    pub end_anchor: String,
    pub new_text: String,
}

/// The fields of a nested `insert_after` wire object.
#[derive(Debug)]
pub struct InsertAfterEdit {
    pub anchor: String,
    pub text: String,
}

/// The fields of a nested `replace` wire object.
#[derive(Debug)]
pub struct ReplaceEdit {
    pub old_text: String,
    pub new_text: String,
    pub all: Option<bool>,
}

/// One edit as read off the wire: either the flat tagged form or one of the
/// nested single-key forms; both normalize to the same `Edit`.
#[derive(Debug)]
pub enum EditInput {
    Flat(Edit),
    NestedSetLine { set_line: SetLineEdit },
    NestedReplaceLines { replace_lines: ReplaceLinesEdit },
    NestedInsertAfter { insert_after: InsertAfterEdit },
    NestedReplace { replace: ReplaceEdit },
}

/// One normalized operation of the legacy engine.
#[derive(Debug, Clone)]
pub enum Op {
    SetLine(String, String),
    ReplaceLines(String, String, String),
    InsertAfter(String, String),
    Replace(String, String, bool),
}

/// The mathematical content of an `Op`.
pub enum FlatOp {
    SetLine { anchor: Seq<char>, new_text: Seq<char> },
    ReplaceLines { start: Seq<char>, end: Seq<char>, new_text: Seq<char> },
    InsertAfter { anchor: Seq<char>, text: Seq<char> },
    ReplaceText { old: Seq<char>, new: Seq<char>, all: bool },
}

impl View for Op {
    type V = FlatOp;

    open spec fn view(&self) -> FlatOp {
        match self {
            Op::SetLine(a, t) => FlatOp::SetLine { anchor: a@, new_text: t@ },
            Op::ReplaceLines(s, e, t) => FlatOp::ReplaceLines { start: s@, end: e@, new_text: t@ },
            Op::InsertAfter(a, t) => FlatOp::InsertAfter { anchor: a@, text: t@ },
            Op::Replace(o, n, all) => FlatOp::ReplaceText { old: o@, new: n@, all: *all },
        }
    }
}

/// The mathematical content of a sequence of operations.
pub open spec fn op_views(s: Seq<Op>) -> Seq<FlatOp> {
    s.map_values(|o: Op| o@)
}

/// The standing note of a stale-anchor rejection.
pub open spec fn stale_note() -> Seq<char> {
    "\n\nThe file content has changed since it was read. Please re-read the file using hashread and try again with updated anchors."@
}

/// The message for an anchor that does not parse.
pub open spec fn bad_anchor_msg(a: Seq<char>) -> Seq<char> {
    "Invalid anchor format '"@ + a + "'"@
}

/// The message for a line outside the file.
pub open spec fn line_gone_msg(line: int) -> Seq<char> {
    "Line "@ + crate::strutil::dec_digits(line) + " does not exist"@
}

/// The message for a stale single-line anchor, naming both fingerprints.
pub open spec fn set_line_stale_msg(line: int, expected: Seq<char>, got: Seq<char>) -> Seq<char> {
    "Hash mismatch at line "@ + crate::strutil::dec_digits(line) + ": expected "@ + expected
        + ", got "@ + got + stale_note()
}

/// The message for a stale range anchor.
pub open spec fn range_stale_msg(s: int, e: int) -> Seq<char> {
    "Hash mismatch in range "@ + crate::strutil::dec_digits(s) + "-"@
        + crate::strutil::dec_digits(e) + stale_note()
}

/// The message for a stale insertion anchor.
pub open spec fn insert_stale_msg(line: int) -> Seq<char> {
    "Hash mismatch at line "@ + crate::strutil::dec_digits(line) + stale_note()
}

/// The fault of one operation against the file's lines, as validation
/// reports it, or nothing: an anchor that does not parse, a line outside
/// the file, or a fingerprint that no longer matches.
pub open spec fn op_issue(o: FlatOp, lines: Seq<Seq<char>>) -> Option<Seq<char>> {
    let n = lines.len() as int;
    match o {
        FlatOp::SetLine { anchor, .. } => match spec_parse_colon(anchor) {
            Option::None => Option::Some(bad_anchor_msg(anchor)),
            Option::Some(p) => if p.0 == 0 || p.0 > n {
                Option::Some(line_gone_msg(p.0))
            } else if p.1 != indep_hash(lines[p.0 - 1]) {
                Option::Some(set_line_stale_msg(p.0, indep_hash(lines[p.0 - 1]), p.1))
            } else {
                Option::None
            },
        },
        FlatOp::ReplaceLines { start, end, .. } => match (
            spec_parse_colon(start),
            spec_parse_colon(end),
        ) {
            (Option::Some(p), Option::Some(q)) => if p.0 == 0 || q.0 == 0 || p.0 > n || q.0 > n
                || p.0 > q.0 {
                Option::Some("Line number out of range"@)
            } else if p.1 != indep_hash(lines[p.0 - 1]) || q.1 != indep_hash(lines[q.0 - 1]) {
                Option::Some(range_stale_msg(p.0, q.0))
            } else {
                Option::None
            },
            _ => Option::Some("Invalid anchor format"@),
        },
        FlatOp::InsertAfter { anchor, .. } => match spec_parse_colon(anchor) {
            Option::None => Option::Some(bad_anchor_msg(anchor)),
            Option::Some(p) => if p.0 == 0 || p.0 > n {
                Option::Some(line_gone_msg(p.0))
            } else if p.1 != indep_hash(lines[p.0 - 1]) {
                Option::Some(insert_stale_msg(p.0))
            } else {
                Option::None
            },
        },
        FlatOp::ReplaceText { .. } => Option::None,
    }
}

/// The first fault of the batch, in submission order.
pub open spec fn flat_check(om: Seq<FlatOp>, lines: Seq<Seq<char>>) -> Option<Seq<char>>
    decreases om.len(),
{
    if om.len() == 0 {
        Option::None
    } else {
        match op_issue(om.first(), lines) {
            Option::Some(x) => Option::Some(x),
            Option::None => flat_check(om.skip(1), lines),
        }
    }
}

/// The line an operation is ordered by: the line of its (first) anchor, zero
/// when the anchor does not parse or for a text replacement.
pub open spec fn op_line(o: FlatOp) -> int {
    match o {
        FlatOp::SetLine { anchor, .. } => match spec_parse_colon(anchor) {
            Option::Some(p) => p.0,
            Option::None => 0,
        },
        FlatOp::ReplaceLines { start, .. } => match spec_parse_colon(start) {
            Option::Some(p) => p.0,
            Option::None => 0,
        },
        FlatOp::InsertAfter { anchor, .. } => match spec_parse_colon(anchor) {
            Option::Some(p) => p.0,
            Option::None => 0,
        },
        FlatOp::ReplaceText { .. } => 0,
    }
}

/// `x` placed into the ordered `s`: after every operation on the same or a
/// higher line, so the order of equals is the submission order.
pub open spec fn insert_flat(x: FlatOp, s: Seq<FlatOp>) -> Seq<FlatOp>
    decreases s.len(),
{
    if s.len() == 0 {
        seq![x]
    } else if op_line(x) > op_line(s.first()) {
        seq![x] + s
    } else {
        seq![s.first()] + insert_flat(x, s.skip(1))
    }
}

/// The anchored operations ordered bottom-up, highest line first.
pub open spec fn sort_flat(s: Seq<FlatOp>) -> Seq<FlatOp>
    decreases s.len(),
{
    if s.len() == 0 {
        s
    } else {
        insert_flat(s.last(), sort_flat(s.drop_last()))
    }
}

/// Whether an operation is a content-anchored text replacement.
pub open spec fn is_replace_op(o: FlatOp) -> bool {
    o is ReplaceText
}

/// The anchored operations of the batch, in order.
pub open spec fn anchor_part(s: Seq<FlatOp>) -> Seq<FlatOp> {
    s.filter(|o: FlatOp| !is_replace_op(o))
}

/// The text replacements of the batch, in order.
pub open spec fn replace_part(s: Seq<FlatOp>) -> Seq<FlatOp> {
    s.filter(|o: FlatOp| is_replace_op(o))
}

proof fn lemma_anchor_part_push(s: Seq<FlatOp>, x: FlatOp)
    ensures
        anchor_part(s.push(x)) == if !is_replace_op(x) {
            anchor_part(s).push(x)
        } else {
            anchor_part(s)
        },
{
    reveal(Seq::filter);
    assert(s.push(x).drop_last() =~= s);
    assert(s.push(x).last() == x);
}

proof fn lemma_replace_part_push(s: Seq<FlatOp>, x: FlatOp)
    ensures
        replace_part(s.push(x)) == if is_replace_op(x) {
            replace_part(s).push(x)
        } else {
            replace_part(s)
        },
{
    reveal(Seq::filter);
    assert(s.push(x).drop_last() =~= s);
    assert(s.push(x).last() == x);
}

/// `ls` spliced over `[lo, hi)` with the bounds clamped into the current
/// length, so the operation is total.
pub open spec fn splice_clamped(
    ls: Seq<Seq<char>>,
    lo: int,
    hi: int,
    repl: Seq<Seq<char>>,
) -> Seq<Seq<char>> {
    let n = ls.len() as int;
    let lo2 = min_i(max_i(lo, 0), n);
    let hi2 = min_i(max_i(hi, lo2), n);
    splice_at(ls, lo2, hi2, repl)
}

/// The replacement lines of a text field: none for empty text, its lines
/// otherwise.
pub open spec fn text_lines(t: Seq<char>) -> Seq<Seq<char>> {
    if t.len() == 0 {
        Seq::empty()
    } else {
        lines_of(t)
    }
}

/// One anchored operation applied to the lines; one whose anchor does not
/// parse changes nothing.
pub open spec fn flat_step(ls: Seq<Seq<char>>, o: FlatOp) -> Seq<Seq<char>> {
    match o {
        FlatOp::SetLine { anchor, new_text } => match spec_parse_colon(anchor) {
            Option::Some(p) => splice_clamped(ls, p.0 - 1, p.0, text_lines(new_text)),
            Option::None => ls,
        },
        FlatOp::ReplaceLines { start, end, new_text } => match (
            spec_parse_colon(start),
            spec_parse_colon(end),
        ) {
            (Option::Some(p), Option::Some(q)) => splice_clamped(
                ls,
                p.0 - 1,
                q.0,
                text_lines(new_text),
            ),
            _ => ls,
        },
        FlatOp::InsertAfter { anchor, text } => match spec_parse_colon(anchor) {
            Option::Some(p) => splice_clamped(ls, p.0, p.0, lines_of(text)),
            Option::None => ls,
        },
        FlatOp::ReplaceText { .. } => ls,
    }
}

/// The ordered anchored operations applied front to back.
pub open spec fn flat_anchors(ls: Seq<Seq<char>>, s: Seq<FlatOp>) -> Seq<Seq<char>>
    decreases s.len(),
{
    if s.len() == 0 {
        ls
    } else {
        flat_anchors(flat_step(ls, s.first()), s.skip(1))
    }
}

/// The tail of an interleaving from position `i` on: each remaining
/// character followed by one copy of `new`.
pub open spec fn inter_rest(s: Seq<char>, new: Seq<char>, i: int) -> Seq<char>
    decreases s.len() - i,
{
    if i < 0 || i >= s.len() {
        Seq::empty()
    } else {
        s.subrange(i, i + 1) + new + inter_rest(s, new, i + 1)
    }
}

/// `s` interleaved with `new` at every character boundary, as replacing an
/// empty pattern does.
pub open spec fn interleave(s: Seq<char>, new: Seq<char>) -> Seq<char> {
    new + inter_rest(s, new, 0)
}

/// `s` from position `i` on, with every occurrence of the non-empty `old`
/// replaced by `new`, scanning left to right without rescanning.
pub open spec fn rep_from(s: Seq<char>, old: Seq<char>, new: Seq<char>, i: int) -> Seq<char>
    decreases s.len() - i,
{
    if i < 0 || i >= s.len() {
        Seq::empty()
    } else if old.len() >= 1 && i + old.len() <= s.len() && match_at(s, old, i) {
        new + rep_from(s, old, new, i + old.len())
    } else {
        s.subrange(i, i + 1) + rep_from(s, old, new, i + 1)
    }
}

/// Every occurrence of `old` in `s` replaced by `new`, as the standard
/// string replacement does it.
pub open spec fn replace_all_sp(s: Seq<char>, old: Seq<char>, new: Seq<char>) -> Seq<char> {
    if old.len() == 0 {
        interleave(s, new)
    } else {
        rep_from(s, old, new, 0)
    }
}

/// One text replacement applied to the lines: a global one rewrites every
/// line, a single one splices the matched span of the joined text, and a
/// failed match yields nothing.
pub open spec fn flat_replace_step(
    ls: Seq<Seq<char>>,
    old: Seq<char>,
    new: Seq<char>,
    all: bool,
) -> Option<Seq<Seq<char>>> {
    if all {
        Option::Some(ls.map_values(|l: Seq<char>| replace_all_sp(l, old, new)))
    } else {
        let joined = join_nl(ls);
        match fuzzy_result(joined, old) {
            Option::Some(m) => Option::Some(
                lines_of(joined.take(m.0) + new + joined.skip(m.0 + m.1.len())),
            ),
            Option::None => Option::None,
        }
    }
}

/// The text replacements applied front to back; the first failed match
/// aborts with the matcher's own diagnostic.
pub open spec fn flat_replaces(ls: Seq<Seq<char>>, s: Seq<FlatOp>) -> Result<
    Seq<Seq<char>>,
    Seq<char>,
>
    decreases s.len(),
{
    if s.len() == 0 {
        Result::Ok(ls)
    } else {
        match s.first() {
            FlatOp::ReplaceText { old, new, all } => match flat_replace_step(ls, old, new, all) {
                Option::Some(ls2) => flat_replaces(ls2, s.skip(1)),
                Option::None => Result::Err(crate::fuzzy::fuzzy_err_msg(join_nl(ls), old)),
            },
            _ => flat_replaces(ls, s.skip(1)),
        }
    }
}

/// Every occurrence of `old` in `s` replaced by `new`, with the standard
/// replacement's treatment of an empty pattern.
pub fn replace_all_line(s: &str, old: &str, new: &str) -> (r: String)
    ensures
        r@ == replace_all_sp(s@, old@, new@),
{
    let sv = crate::strutil::to_char_vec(s);
    let ov = crate::strutil::to_char_vec(old);
    let n = sv.len();
    let m = ov.len();
    let mut out = String::new();
    if m == 0 {
        out.append(new);
        let mut i: usize = 0;
        proof {
            assert(out@ =~= new@);
        }
        while i < n
            invariant
                n == s@.len(),
                sv@ == s@,
                i <= n,
                interleave(s@, new@) == out@ + inter_rest(s@, new@, i as int),
            decreases n - i,
        {
            out.push(sv[i]);
            out.append(new);
            proof {
                assert(s@.subrange(i as int, i + 1 as int) =~= seq![s@[i as int]]);
            }
            i = i + 1;
        }
        proof {
            assert(inter_rest(s@, new@, n as int) =~= Seq::<char>::empty());
            assert(out@ =~= interleave(s@, new@));
        }
        return out;
    }
    let mut i: usize = 0;
    while i < n
        invariant
            n == s@.len(),
            m == old@.len(),
            m >= 1,
            sv@ == s@,
            ov@ == old@,
            i <= n,
            replace_all_sp(s@, old@, new@) == out@ + rep_from(s@, old@, new@, i as int),
        decreases n - i,
    {
        let mut same = m <= n - i;
        if same {
            let mut j: usize = 0;
            while j < m
                invariant
                    n == s@.len(),
                    m == old@.len(),
                    sv@ == s@,
                    ov@ == old@,
                    i + m <= n,
                    j <= m,
                    same ==> forall|k: int| 0 <= k < j ==> s@[i + k] == old@[k],
                    !same ==> exists|k: int| 0 <= k < j && s@[i + k] != old@[k],
                decreases m - j,
            {
                if sv[i + j] != ov[j] {
                    same = false;
                }
                j = j + 1;
            }
        }
        proof {
            if i + m <= n {
                if same {
                    assert(s@.subrange(i as int, i + old@.len()) =~= old@);
                } else {
                    let k = choose|k: int| 0 <= k < m && s@[i + k] != old@[k];
                    assert(s@.subrange(i as int, i + old@.len())[k] == s@[i + k]);
                    assert(!match_at(s@, old@, i as int));
                }
            }
        }
        if same {
            out.append(new);
            i = i + m;
        } else {
            out.push(sv[i]);
            proof {
                assert(s@.subrange(i as int, i + 1 as int) =~= seq![s@[i as int]]);
            }
            i = i + 1;
        }
    }
    proof {
        assert(rep_from(s@, old@, new@, n as int) =~= Seq::<char>::empty());
        assert(out@ =~= replace_all_sp(s@, old@, new@));
    }
    out
}

/// A copy of the operation, holding the same text.
fn duplicate_op(o: &Op) -> (r: Op)
    ensures
        r@ == o@,
{
    match o {
        Op::SetLine(a, t) => Op::SetLine(a.clone(), t.clone()),
        Op::ReplaceLines(sa, ea, t) => Op::ReplaceLines(sa.clone(), ea.clone(), t.clone()),
        Op::InsertAfter(a, t) => Op::InsertAfter(a.clone(), t.clone()),
        Op::Replace(ot, nt, all) => Op::Replace(ot.clone(), nt.clone(), *all),
    }
}

/// The line an operation is ordered by.
fn op_line_exec(o: &Op) -> (r: usize)
    ensures
        r as int == op_line(o@),
{
    match o {
        Op::SetLine(a, _) => match parse_anchor(a.as_str()) {
            Option::Some(p) => p.0,
            Option::None => 0,
        },
        Op::ReplaceLines(sa, _, _) => match parse_anchor(sa.as_str()) {
            Option::Some(p) => p.0,
            Option::None => 0,
        },
        Op::InsertAfter(a, _) => match parse_anchor(a.as_str()) {
            Option::Some(p) => p.0,
            Option::None => 0,
        },
        Op::Replace(_, _, _) => 0,
    }
}

fn insert_flat_exec(v: &mut Vec<Op>, x: Op)
    ensures
        op_views(final(v)@) == insert_flat(x@, op_views(old(v)@)),
{
    let ghost vs = op_views(v@);
    let mut p: usize = 0;
    let lx = op_line_exec(&x);
    proof {
        assert(vs.take(0) =~= Seq::<FlatOp>::empty());
        assert(vs.skip(0) =~= vs);
        assert(insert_flat(x@, vs) =~= vs.take(0) + insert_flat(x@, vs.skip(0)));
    }
    loop
        invariant_except_break
            vs == op_views(v@),
            p <= v@.len(),
            lx as int == op_line(x@),
            insert_flat(x@, vs) == vs.take(p as int) + insert_flat(x@, vs.skip(p as int)),
        ensures
            p <= v@.len(),
            vs == op_views(v@),
            insert_flat(x@, vs) == vs.take(p as int) + seq![x@] + vs.skip(p as int),
        decreases v@.len() - p,
    {
        if p >= v.len() {
            proof {
                assert(vs.skip(p as int) =~= Seq::<FlatOp>::empty());
                assert(insert_flat(x@, vs) =~= vs.take(p as int) + seq![x@] + vs.skip(p as int));
            }
            break;
        }
        let lc = op_line_exec(&v[p]);
        proof {
            assert(vs[p as int] == v@[p as int]@);
            assert(vs.skip(p as int).first() == vs[p as int]);
        }
        if lx > lc {
            proof {
                assert(insert_flat(x@, vs.skip(p as int)) == seq![x@] + vs.skip(p as int));
                assert(insert_flat(x@, vs) =~= vs.take(p as int) + seq![x@] + vs.skip(p as int));
            }
            break;
        }
        proof {
            assert(insert_flat(x@, vs.skip(p as int)) == seq![vs[p as int]] + insert_flat(
                x@,
                vs.skip(p as int).skip(1),
            ));
            assert(vs.skip(p as int).skip(1) =~= vs.skip(p + 1 as int));
            assert(vs.take(p as int) + seq![vs[p as int]] =~= vs.take(p + 1 as int));
            assert(insert_flat(x@, vs) =~= vs.take(p + 1 as int) + insert_flat(
                x@,
                vs.skip(p + 1 as int),
            ));
        }
        p = p + 1;
    }
    v.insert(p, x);
    proof {
        assert(op_views(v@) =~= vs.take(p as int) + seq![x@] + vs.skip(p as int));
    }
}

/// One anchored operation applied to the current lines.
fn flat_step_exec(cur: Vec<String>, o: &Op) -> (r: Vec<String>)
    ensures
        views_of(r@) == flat_step(views_of(cur@), o@),
{
    let n = cur.len();
    match o {
        Op::SetLine(anchor, new_text) => {
            match parse_anchor(anchor.as_str()) {
                Option::Some(p) => {
                    let line = p.0;
                    let lo0: usize = if line >= 1 {
                        line - 1
                    } else {
                        0
                    };
                    let lo: usize = if lo0 < n {
                        lo0
                    } else {
                        n
                    };
                    let hi0: usize = if line > lo {
                        line
                    } else {
                        lo
                    };
                    let hi: usize = if hi0 < n {
                        hi0
                    } else {
                        n
                    };
                    let repl: Vec<String> = if new_text.as_str().unicode_len() == 0 {
                        let e: Vec<String> = Vec::new();
                        proof {
                            assert(views_of(e@) =~= Seq::<Seq<char>>::empty());
                        }
                        e
                    } else {
                        split_lines(new_text.as_str())
                    };
                    crate::engine::splice_exec(&cur, lo, hi, &repl)
                },
                Option::None => cur,
            }
        },
        Op::ReplaceLines(sa, ea, new_text) => {
            match (parse_anchor(sa.as_str()), parse_anchor(ea.as_str())) {
                (Option::Some(p), Option::Some(q)) => {
                    let lo0: usize = if p.0 >= 1 {
                        p.0 - 1
                    } else {
                        0
                    };
                    let lo: usize = if lo0 < n {
                        lo0
                    } else {
                        n
                    };
                    let hi0: usize = if q.0 > lo {
                        q.0
                    } else {
                        lo
                    };
                    let hi: usize = if hi0 < n {
                        hi0
                    } else {
                        n
                    };
                    let repl: Vec<String> = if new_text.as_str().unicode_len() == 0 {
                        let e: Vec<String> = Vec::new();
                        proof {
                            assert(views_of(e@) =~= Seq::<Seq<char>>::empty());
                        }
                        e
                    } else {
                        split_lines(new_text.as_str())
                    };
                    crate::engine::splice_exec(&cur, lo, hi, &repl)
                },
                _ => cur,
            }
        },
        Op::InsertAfter(anchor, text) => {
            match parse_anchor(anchor.as_str()) {
                Option::Some(p) => {
                    let k: usize = if p.0 < n {
                        p.0
                    } else {
                        n
                    };
                    let repl = split_lines(text.as_str());
                    crate::engine::splice_exec(&cur, k, k, &repl)
                },
                Option::None => cur,
            }
        },
        Op::Replace(_, _, _) => cur,
    }
}

/// How applying a batch of legacy operations relates the result to the
/// content: the first validation fault rejects with its exact message, a
/// failed text match rejects with the matcher's diagnostic, and otherwise
/// the result is exactly the new text with the original trailing line feed
/// kept.
pub open spec fn flat_result_ok(
    content: Seq<char>,
    om: Seq<FlatOp>,
    r: Result<String, String>,
) -> bool {
    let lines = lines_of(content);
    match flat_check(om, lines) {
        Option::Some(m) => r matches Err(e) && e@ == m,
        Option::None => ({
            let aops = anchor_part(om);
            let rops = replace_part(om);
            let lines1 = flat_anchors(lines, sort_flat(aops));
            match flat_replaces(lines1, rops) {
                Result::Ok(fin) => r matches Ok(s) && s@ == restore_nl(
                    join_nl(fin),
                    ends_nl(content),
                ),
                Result::Err(m) => r matches Err(e) && e@ == m,
            }
        }),
    }
}

/// Validates a batch of legacy operations against the file and applies it:
/// anchored operations bottom-up, then text replacements. The first anchor
/// that does not parse, points outside the file, or carries a stale
/// fingerprint rejects the batch with nothing applied; a failed text match
/// rejects it too, though earlier operations of the batch stand in the
/// returned text only, never on disk. The original trailing line feed is
/// kept, so an empty batch round-trips the content.
pub fn apply_ops(content: &str, ops: &Vec<Op>) -> (r: Result<String, String>)
    ensures
        flat_result_ok(content@, op_views(ops@), r),
{
    let ghost lines = lines_of(content@);
    let ghost om = op_views(ops@);
    let had_nl = ends_with_nl(content);
    let file_lines = split_lines(content);
    let flen = file_lines.len();
    let mut i: usize = 0;
    proof {
        assert(om.skip(0) =~= om);
    }
    while i < ops.len()
        invariant
            lines == lines_of(content@),
            om == op_views(ops@),
            views_of(file_lines@) == lines,
            flen == lines.len(),
            i <= ops@.len(),
            flat_check(om, lines) == flat_check(om.skip(i as int), lines),
        decreases ops@.len() - i,
    {
        proof {
            assert(om[i as int] == ops@[i as int]@);
            assert(om.skip(i as int).first() == om[i as int]);
            assert(om.skip(i as int).skip(1) =~= om.skip(i + 1 as int));
        }
        match &ops[i] {
            Op::SetLine(anchor, _) => {
                match parse_anchor(anchor.as_str()) {
                    Option::None => {
                        let mut msg = String::new();
                        msg.append("Invalid anchor format '");
                        msg.append(anchor.as_str());
                        msg.append("'");
                        proof {
                            assert(msg@ =~= bad_anchor_msg(anchor@));
                        }
                        return Err(msg);
                    },
                    Option::Some(p) => {
                        let (line, hash) = p;
                        if line == 0 || line > flen {
                            let mut msg = String::new();
                            msg.append("Line ");
                            crate::strutil::push_usize(&mut msg, line);
                            msg.append(" does not exist");
                            proof {
                                assert(msg@ =~= line_gone_msg(line as int));
                            }
                            return Err(msg);
                        }
                        let expected = compute_line_hash(file_lines[line - 1].as_str());
                        proof {
                            assert(views_of(file_lines@)[line - 1] == file_lines@[line - 1]@);
                        }
                        if !str_eq(hash.as_str(), expected.as_str()) {
                            let mut msg = String::new();
                            msg.append("Hash mismatch at line ");
                            crate::strutil::push_usize(&mut msg, line);
                            msg.append(": expected ");
                            msg.append(expected.as_str());
                            msg.append(", got ");
                            msg.append(hash.as_str());
                            msg.append(
                                "\n\nThe file content has changed since it was read. Please re-read the file using hashread and try again with updated anchors.",
                            );
                            proof {
                                assert(msg@ =~= set_line_stale_msg(
                                    line as int,
                                    indep_hash(lines[line - 1]),
                                    hash@,
                                ));
                            }
                            return Err(msg);
                        }
                    },
                }
            },
            Op::ReplaceLines(sa, ea, _) => {
                match (parse_anchor(sa.as_str()), parse_anchor(ea.as_str())) {
                    (Option::Some(p), Option::Some(q)) => {
                        let (start, start_hash) = p;
                        let (end, end_hash) = q;
                        if start == 0 || end == 0 || start > flen || end > flen || start > end {
                            let msg = String::from_str("Line number out of range");
                            return Err(msg);
                        }
                        let expected_start = compute_line_hash(file_lines[start - 1].as_str());
                        let expected_end = compute_line_hash(file_lines[end - 1].as_str());
                        proof {
                            assert(views_of(file_lines@)[start - 1] == file_lines@[start - 1]@);
                            assert(views_of(file_lines@)[end - 1] == file_lines@[end - 1]@);
                        }
                        if !str_eq(start_hash.as_str(), expected_start.as_str()) || !str_eq(
                            end_hash.as_str(),
                            expected_end.as_str(),
                        ) {
                            let mut msg = String::new();
                            msg.append("Hash mismatch in range ");
                            crate::strutil::push_usize(&mut msg, start);
                            msg.append("-");
                            crate::strutil::push_usize(&mut msg, end);
                            msg.append(
                                "\n\nThe file content has changed since it was read. Please re-read the file using hashread and try again with updated anchors.",
                            );
                            proof {
                                assert(msg@ =~= range_stale_msg(start as int, end as int));
                            }
                            return Err(msg);
                        }
                    },
                    _ => {
                        let mut msg = String::new();
                        msg.append("Invalid anchor format");
                        proof {
                            assert(msg@ =~= "Invalid anchor format"@);
                        }
                        return Err(msg);
                    },
                }
            },
            Op::InsertAfter(anchor, _) => {
                match parse_anchor(anchor.as_str()) {
                    Option::None => {
                        let mut msg = String::new();
                        msg.append("Invalid anchor format '");
                        msg.append(anchor.as_str());
                        msg.append("'");
                        proof {
                            assert(msg@ =~= bad_anchor_msg(anchor@));
                        }
                        return Err(msg);
                    },
                    Option::Some(p) => {
                        let (line, hash) = p;
                        if line == 0 || line > flen {
                            let mut msg = String::new();
                            msg.append("Line ");
                            crate::strutil::push_usize(&mut msg, line);
                            msg.append(" does not exist");
                            proof {
                                assert(msg@ =~= line_gone_msg(line as int));
                            }
                            return Err(msg);
                        }
                        let expected = compute_line_hash(file_lines[line - 1].as_str());
                        proof {
                            assert(views_of(file_lines@)[line - 1] == file_lines@[line - 1]@);
                        }
                        if !str_eq(hash.as_str(), expected.as_str()) {
                            let mut msg = String::new();
                            msg.append("Hash mismatch at line ");
                            crate::strutil::push_usize(&mut msg, line);
                            msg.append(
                                "\n\nThe file content has changed since it was read. Please re-read the file using hashread and try again with updated anchors.",
                            );
                            proof {
                                assert(msg@ =~= insert_stale_msg(line as int));
                            }
                            return Err(msg);
                        }
                    },
                }
            },
            Op::Replace(_, _, _) => {},
        }
        i = i + 1;
    }
    proof {
        assert(om.skip(ops@.len() as int) =~= Seq::<FlatOp>::empty());
    }
    let mut anchor_ops: Vec<Op> = Vec::new();
    let mut replace_ops: Vec<Op> = Vec::new();
    let mut j: usize = 0;
    proof {
        assert(op_views(anchor_ops@) =~= anchor_part(om.take(0)));
        assert(op_views(replace_ops@) =~= replace_part(om.take(0)));
    }
    while j < ops.len()
        invariant
            om == op_views(ops@),
            j <= ops@.len(),
            op_views(anchor_ops@) == anchor_part(om.take(j as int)),
            op_views(replace_ops@) == replace_part(om.take(j as int)),
        decreases ops@.len() - j,
    {
        proof {
            assert(om[j as int] == ops@[j as int]@);
            assert(om.take(j + 1 as int) =~= om.take(j as int).push(om[j as int]));
            lemma_anchor_part_push(om.take(j as int), om[j as int]);
            lemma_replace_part_push(om.take(j as int), om[j as int]);
        }
        let is_rep = match &ops[j] {
            Op::Replace(_, _, _) => true,
            _ => false,
        };
        if is_rep {
            let ghost prev = op_views(replace_ops@);
            replace_ops.push(duplicate_op(&ops[j]));
            proof {
                assert(op_views(replace_ops@) =~= prev.push(om[j as int]));
            }
        } else {
            let ghost prev = op_views(anchor_ops@);
            anchor_ops.push(duplicate_op(&ops[j]));
            proof {
                assert(op_views(anchor_ops@) =~= prev.push(om[j as int]));
            }
        }
        j = j + 1;
    }
    proof {
        assert(om.take(ops@.len() as int) =~= om);
    }
    let mut sorted: Vec<Op> = Vec::new();
    let mut k: usize = 0;
    let ghost am = op_views(anchor_ops@);
    proof {
        assert(am.take(0) =~= Seq::<FlatOp>::empty());
        assert(op_views(sorted@) =~= sort_flat(am.take(0)));
    }
    while k < anchor_ops.len()
        invariant
            am == op_views(anchor_ops@),
            k <= anchor_ops@.len(),
            op_views(sorted@) == sort_flat(am.take(k as int)),
        decreases anchor_ops@.len() - k,
    {
        proof {
            assert(am[k as int] == anchor_ops@[k as int]@);
            let t = am.take(k + 1 as int);
            assert(t.drop_last() =~= am.take(k as int));
            assert(t.last() == am[k as int]);
        }
        insert_flat_exec(&mut sorted, duplicate_op(&anchor_ops[k]));
        k = k + 1;
    }
    proof {
        assert(am.take(anchor_ops@.len() as int) =~= am);
    }
    let mut cur = file_lines;
    let ghost sortedm = sort_flat(am);
    let ghost target1 = flat_anchors(lines, sortedm);
    let mut a: usize = 0;
    proof {
        assert(sortedm.skip(0) =~= sortedm);
    }
    while a < sorted.len()
        invariant
            sortedm == op_views(sorted@),
            target1 == flat_anchors(lines, sortedm),
            a <= sorted@.len(),
            flat_anchors(views_of(cur@), sortedm.skip(a as int)) == target1,
        decreases sorted@.len() - a,
    {
        proof {
            assert(sortedm[a as int] == sorted@[a as int]@);
            assert(sortedm.skip(a as int).first() == sortedm[a as int]);
            assert(sortedm.skip(a as int).skip(1) =~= sortedm.skip(a + 1 as int));
        }
        cur = flat_step_exec(cur, &sorted[a]);
        a = a + 1;
    }
    proof {
        assert(sortedm.skip(sorted@.len() as int) =~= Seq::<FlatOp>::empty());
        assert(views_of(cur@) == target1);
    }
    let ghost rm = op_views(replace_ops@);
    let ghost target2 = flat_replaces(target1, rm);
    let mut b: usize = 0;
    proof {
        assert(rm.skip(0) =~= rm);
    }
    while b < replace_ops.len()
        invariant
            om == op_views(ops@),
            lines == lines_of(content@),
            flat_check(om, lines) is None,
            rm == op_views(replace_ops@),
            rm == replace_part(om),
            target2 == flat_replaces(flat_anchors(lines, sort_flat(anchor_part(om))), rm),
            flat_replaces(views_of(cur@), rm.skip(b as int)) == target2,
            b <= replace_ops@.len(),
        decreases replace_ops@.len() - b,
    {
        proof {
            assert(rm[b as int] == replace_ops@[b as int]@);
            assert(rm.skip(b as int).first() == rm[b as int]);
            assert(rm.skip(b as int).skip(1) =~= rm.skip(b + 1 as int));
        }
        let mut next: Vec<String> = Vec::new();
        match &replace_ops[b] {
            Op::Replace(old_text, new_text, all) => {
                let ghost go = old_text@;
                let ghost gn = new_text@;
                proof {
                    assert(rm[b as int] == replace_ops@[b as int]@);
                    assert(replace_ops@[b as int]@ == FlatOp::ReplaceText {
                        old: go,
                        new: gn,
                        all: *all,
                    });
                }
                if *all {
                    let mut mapped: Vec<String> = Vec::new();
                    let mut t: usize = 0;
                    while t < cur.len()
                        invariant
                            go == old_text@,
                            gn == new_text@,
                            t <= cur@.len(),
                            mapped@.len() == t,
                            forall|z: int|
                                0 <= z < t ==> mapped@[z]@ == replace_all_sp(
                                    #[trigger] cur@[z]@,
                                    go,
                                    gn,
                                ),
                        decreases cur@.len() - t,
                    {
                        mapped.push(
                            replace_all_line(
                                cur[t].as_str(),
                                old_text.as_str(),
                                new_text.as_str(),
                            ),
                        );
                        t = t + 1;
                    }
                    proof {
                        let stepped = flat_replace_step(views_of(cur@), go, gn, true);
                        let tv = stepped->0;
                        assert(tv.len() == views_of(cur@).len());
                        assert forall|z: int| 0 <= z < tv.len() implies tv[z] == views_of(
                            mapped@,
                        )[z] by {
                            assert(tv[z] == replace_all_sp(views_of(cur@)[z], go, gn));
                            assert(views_of(mapped@)[z] == mapped@[z]@);
                            assert(views_of(cur@)[z] == cur@[z]@);
                        };
                        assert(tv =~= views_of(mapped@));
                        assert(flat_replaces(views_of(mapped@), rm.skip(b + 1 as int))
                            == flat_replaces(views_of(cur@), rm.skip(b as int)));
                    }
                    next = mapped;
                } else {
                    let joined = join_lines(&cur);
                    match find_fuzzy_match(joined.as_str(), old_text.as_str()) {
                        Ok(m) => {
                            let (pos, matched) = m;
                            proof {
                                lemma_fuzzy_bounds(joined@, old_text@);
                            }
                            let jl = joined.as_str().unicode_len();
                            let ml = matched.as_str().unicode_len();
                            let mut nc = String::from_str(
                                joined.as_str().substring_char(0, pos),
                            );
                            nc.append(new_text.as_str());
                            nc.append(joined.as_str().substring_char(pos + ml, jl));
                            proof {
                                assert(joined@.subrange(0, pos as int) =~= joined@.take(
                                    pos as int,
                                ));
                                assert(joined@.subrange(pos + ml as int, jl as int) =~= joined@.skip(
                                    pos + ml,
                                ));
                                assert(nc@ =~= joined@.take(pos as int) + gn + joined@.skip(
                                    pos + ml,
                                ));
                            }
                            next = split_lines(nc.as_str());
                            proof {
                                assert(fuzzy_result(joined@, go) == Option::Some(
                                    (pos as int, matched@),
                                ));
                                assert(flat_replace_step(views_of(cur@), go, gn, false)
                                    == Option::Some(views_of(next@)));
                                assert(flat_replaces(views_of(next@), rm.skip(b + 1 as int))
                                    == flat_replaces(views_of(cur@), rm.skip(b as int)));
                            }
                        },
                        Err(e) => {
                            proof {
                                assert(fuzzy_result(joined@, go) is None);
                                assert(flat_replace_step(views_of(cur@), go, gn, false) is None);
                                assert(flat_replaces(views_of(cur@), rm.skip(b as int))
                                    == Result::<Seq<Seq<char>>, Seq<char>>::Err(
                                    crate::fuzzy::fuzzy_err_msg(join_nl(views_of(cur@)), go),
                                ));
                                assert(e@ == crate::fuzzy::fuzzy_err_msg(joined@, go));
                            }
                            return Err(e);
                        },
                    }
                }
            },
            _ => {
                next = cur;
                proof {
                    assert(flat_replaces(views_of(next@), rm.skip(b as int)) == flat_replaces(
                        views_of(next@),
                        rm.skip(b + 1 as int),
                    ));
                }
            },
        }
        cur = next;
        b = b + 1;
    }
    proof {
        assert(rm.skip(replace_ops@.len() as int) =~= Seq::<FlatOp>::empty());
    }
    let mut out = join_lines(&cur);
    let out_len = out.unicode_len();
    if had_nl && out_len > 0 && out.as_str().get_char(out_len - 1) != '\n' {
        out.push('\n');
        proof {
            assert(out@ =~= restore_nl(join_nl(views_of(cur@)), ends_nl(content@)));
        }
    } else {
        proof {
            assert(out@ =~= restore_nl(join_nl(views_of(cur@)), ends_nl(content@)));
        }
    }
    Ok(out)
}

/// The first field of an object's field list carrying `key`.
pub open spec fn jm_field(fs: Seq<(Seq<char>, JsonModel)>, key: Seq<char>) -> Option<JsonModel>
    decreases fs.len(),
{
    if fs.len() == 0 {
        Option::None
    } else if fs.first().0 == key {
        Option::Some(fs.first().1)
    } else {
        jm_field(fs.skip(1), key)
    }
}

/// The named member of a node, when the node is an object that has it.
pub open spec fn jm_get(m: JsonModel, key: Seq<char>) -> Option<JsonModel> {
    match m {
        JsonModel::Fields(fs) => jm_field(fs, key),
        _ => Option::None,
    }
}

/// The text of a node, when it is a string.
pub open spec fn jm_text(m: JsonModel) -> Option<Seq<char>> {
    match m {
        JsonModel::Text(s) => Option::Some(s),
        _ => Option::None,
    }
}

/// The named member's text, when the node has it as a string.
pub open spec fn jm_field_text(m: JsonModel, key: Seq<char>) -> Option<Seq<char>> {
    match jm_get(m, key) {
        Option::Some(v) => jm_text(v),
        Option::None => Option::None,
    }
}

/// The `all` flag of a wire object: absent, or present as anything but a
/// boolean, it defaults to a single replacement.
pub open spec fn jm_all_flag(m: JsonModel) -> bool {
    match jm_get(m, "all"@) {
        Option::Some(v) => match v {
            JsonModel::Flag(b) => b,
            _ => false,
        },
        Option::None => false,
    }
}

/// The operation a wire element in the flat tagged form stands for, or
/// nothing when the element does not carry that form completely.
pub open spec fn decode_flat_form(m: JsonModel) -> Option<FlatOp> {
    match jm_get(m, "type"@) {
        Option::Some(t) => match jm_text(t) {
            Option::Some(tag) => if tag == "set_line"@ {
                match (jm_field_text(m, "anchor"@), jm_field_text(m, "new_text"@)) {
                    (Option::Some(a), Option::Some(nt)) => Option::Some(
                        FlatOp::SetLine { anchor: a, new_text: nt },
                    ),
                    _ => Option::None,
                }
            } else if tag == "replace_lines"@ {
                match (
                    jm_field_text(m, "start_anchor"@),
                    jm_field_text(m, "end_anchor"@),
                    jm_field_text(m, "new_text"@),
                ) {
                    (Option::Some(sa), Option::Some(ea), Option::Some(nt)) => Option::Some(
                        FlatOp::ReplaceLines { start: sa, end: ea, new_text: nt },
                    ),
                    _ => Option::None,
                }
            } else if tag == "insert_after"@ {
                match (jm_field_text(m, "anchor"@), jm_field_text(m, "text"@)) {
                    (Option::Some(a), Option::Some(tx)) => Option::Some(
                        FlatOp::InsertAfter { anchor: a, text: tx },
                    ),
                    _ => Option::None,
                }
            } else if tag == "replace"@ {
                match (jm_field_text(m, "old_text"@), jm_field_text(m, "new_text"@)) {
                    (Option::Some(ot), Option::Some(nt)) => Option::Some(
                        FlatOp::ReplaceText { old: ot, new: nt, all: jm_all_flag(m) },
                    ),
                    _ => Option::None,
                }
            } else {
                Option::None
            },
            Option::None => Option::None,
        },
        Option::None => Option::None,
    }
}

/// The operation a wire element in a nested single-key form stands for: the
/// four wrapper keys are tried in order, and a wrapper whose fields are
/// incomplete falls through to the next.
pub open spec fn decode_nested_form(m: JsonModel) -> Option<FlatOp> {
    let sl = match jm_get(m, "set_line"@) {
        Option::Some(o) => match (jm_field_text(o, "anchor"@), jm_field_text(o, "new_text"@)) {
            (Option::Some(a), Option::Some(nt)) => Option::Some(
                FlatOp::SetLine { anchor: a, new_text: nt },
            ),
            _ => Option::None,
        },
        Option::None => Option::None,
    };
    if sl is Some {
        sl
    } else {
        let rl = match jm_get(m, "replace_lines"@) {
            Option::Some(o) => match (
                jm_field_text(o, "start_anchor"@),
                jm_field_text(o, "end_anchor"@),
                jm_field_text(o, "new_text"@),
            ) {
                (Option::Some(sa), Option::Some(ea), Option::Some(nt)) => Option::Some(
                    FlatOp::ReplaceLines { start: sa, end: ea, new_text: nt },
                ),
                _ => Option::None,
            },
            Option::None => Option::None,
        };
        if rl is Some {
            rl
        } else {
            let ia = match jm_get(m, "insert_after"@) {
                Option::Some(o) => match (
                    jm_field_text(o, "anchor"@),
                    jm_field_text(o, "text"@),
                ) {
                    (Option::Some(a), Option::Some(tx)) => Option::Some(
                        FlatOp::InsertAfter { anchor: a, text: tx },
                    ),
                    _ => Option::None,
                },
                Option::None => Option::None,
            };
            if ia is Some {
                ia
            } else {
                match jm_get(m, "replace"@) {
                    Option::Some(o) => match (
                        jm_field_text(o, "old_text"@),
                        jm_field_text(o, "new_text"@),
                    ) {
                        (Option::Some(ot), Option::Some(nt)) => Option::Some(
                            FlatOp::ReplaceText { old: ot, new: nt, all: jm_all_flag(o) },
                        ),
                        _ => Option::None,
                    },
                    Option::None => Option::None,
                }
            }
        }
    }
}

/// The operation a wire element stands for: the flat tagged form wins, then
/// the nested single-key forms; an element carrying neither is rejected.
pub open spec fn decode_elem(m: JsonModel) -> Option<FlatOp> {
    match decode_flat_form(m) {
        Option::Some(op) => Option::Some(op),
        Option::None => decode_nested_form(m),
    }
}

/// The operations of a whole wire batch, in submission order; one element
/// carrying no accepted form rejects the batch.
pub open spec fn decode_elems(items: Seq<JsonModel>) -> Option<Seq<FlatOp>>
    decreases items.len(),
{
    if items.len() == 0 {
        Option::Some(Seq::empty())
    } else {
        match decode_elem(items.first()) {
            Option::Some(op) => match decode_elems(items.skip(1)) {
                Option::Some(rest) => Option::Some(seq![op] + rest),
                Option::None => Option::None,
            },
            Option::None => Option::None,
        }
    }
}

/// The message of a batch that parses as JSON but fits no wire form.
pub open spec fn unmatched_msg() -> Seq<char> {
    "Failed to parse edits: data did not match any variant of untagged enum EditInput"@
}

/// What reading a JSON batch yields: the normalized operations in order, or
/// the message rejecting the batch — the parser's own for text that is not
/// JSON, a fixed one for a document that fits no wire form.
pub open spec fn spec_parse_edits(s: Seq<char>) -> Result<Seq<FlatOp>, Seq<char>> {
    match crate::jsonval::json_doc_of(s) {
        Result::Err(m) => Result::Err("Failed to parse edits: "@ + m),
        Result::Ok(doc) => match doc {
            JsonModel::Items(items) => match decode_elems(items) {
                Option::Some(ops) => Result::Ok(ops),
                Option::None => Result::Err(unmatched_msg()),
            },
            _ => Result::Err(unmatched_msg()),
        },
    }
}

/// The named member of an object node.
fn node_get<'a>(m: &'a JsonNode, key: &str) -> (r: Option<&'a JsonNode>)
    ensures
        match r {
            Option::Some(c) => jm_get(m@, key@) == Option::Some(c@),
            Option::None => jm_get(m@, key@) is None,
        },
{
    match m {
        JsonNode::Fields(fs) => {
            let ghost fm = fields_model(fs@);
            proof {
                lemma_fields_model(fs@);
                assert(fm.skip(0) =~= fm);
            }
            let mut i: usize = 0;
            while i < fs.len()
                invariant
                    m@ == JsonModel::Fields(fm),
                    fm == fields_model(fs@),
                    fm.len() == fs@.len(),
                    forall|k: int|
                        0 <= k < fs@.len() ==> fm[k] == (#[trigger] fs@[k].0@, fs@[k].1@),
                    i <= fs@.len(),
                    jm_field(fm, key@) == jm_field(fm.skip(i as int), key@),
                decreases fs@.len() - i,
            {
                proof {
                    assert(fm.skip(i as int).first() == fm[i as int]);
                    assert(fm.skip(i as int).skip(1) =~= fm.skip(i + 1 as int));
                }
                if str_eq(fs[i].0.as_str(), key) {
                    proof {
                        assert(m@ == JsonModel::Fields(fm));
                        assert(fm[i as int] == (fs@[i as int].0@, fs@[i as int].1@));
                        assert(jm_field(fm.skip(i as int), key@) == Option::Some(fm[i as int].1));
                    }
                    return Some(&fs[i].1);
                }
                i = i + 1;
            }
            proof {
                assert(fm.skip(fs@.len() as int) =~= Seq::<(Seq<char>, JsonModel)>::empty());
            }
            None
        },
        _ => None,
    }
}

/// The text of a string node.
fn node_text(m: &JsonNode) -> (r: Option<String>)
    ensures
        match r {
            Option::Some(s) => jm_text(m@) == Option::Some(s@),
            Option::None => jm_text(m@) is None,
        },
{
    match m {
        JsonNode::Text(s) => Some(s.clone()),
        _ => None,
    }
}

/// The named member's text.
fn node_field_text(m: &JsonNode, key: &str) -> (r: Option<String>)
    ensures
        match r {
            Option::Some(s) => jm_field_text(m@, key@) == Option::Some(s@),
            Option::None => jm_field_text(m@, key@) is None,
        },
{
    match node_get(m, key) {
        Option::Some(c) => node_text(c),
        Option::None => None,
    }
}

/// The `all` flag of a wire object, defaulting to a single replacement.
fn node_all_flag(m: &JsonNode) -> (r: bool)
    ensures
        r == jm_all_flag(m@),
{
    match node_get(m, "all") {
        Option::Some(c) => match c {
            JsonNode::Flag(b) => *b,
            _ => false,
        },
        Option::None => false,
    }
}

/// The operation a wire form stands for, before the form is normalized.
pub open spec fn input_op(input: EditInput) -> FlatOp {
    match input {
        EditInput::Flat(e) => op_of_edit_model(e@),
        EditInput::NestedSetLine { set_line } => FlatOp::SetLine {
            anchor: set_line.anchor@,
            new_text: set_line.new_text@,
        },
        EditInput::NestedReplaceLines { replace_lines } => FlatOp::ReplaceLines {
            start: replace_lines.start_anchor@,
            end: replace_lines.end_anchor@,
            new_text: replace_lines.new_text@,
        },
        EditInput::NestedInsertAfter { insert_after } => FlatOp::InsertAfter {
            anchor: insert_after.anchor@,
            text: insert_after.text@,
        },
        EditInput::NestedReplace { replace } => FlatOp::ReplaceText {
            old: replace.old_text@,
            new: replace.new_text@,
            all: match replace.all {
                Option::Some(b) => b,
                Option::None => false,
            },
        },
    }
}

/// One wire element read into an `EditInput`: the flat tagged form is tried
/// first, then each nested single-key form.
fn parse_edit_input(m: &JsonNode) -> (r: Option<EditInput>)
    ensures
        match r {
            Option::Some(input) => decode_elem(m@) == Option::Some(input_op(input)),
            Option::None => decode_elem(m@) is None,
        },
{
    match node_get(m, "type") {
        Option::Some(t) => {
            match node_text(t) {
                Option::Some(tag) => {
                    if str_eq(tag.as_str(), "set_line") {
                        match (node_field_text(m, "anchor"), node_field_text(m, "new_text")) {
                            (Option::Some(anchor), Option::Some(new_text)) => {
                                return Some(EditInput::Flat(Edit::SetLine { anchor, new_text }));
                            },
                            _ => {},
                        }
                    } else if str_eq(tag.as_str(), "replace_lines") {
                        match (
                            node_field_text(m, "start_anchor"),
                            node_field_text(m, "end_anchor"),
                            node_field_text(m, "new_text"),
                        ) {
                            (
                                Option::Some(start_anchor),
                                Option::Some(end_anchor),
                                Option::Some(new_text),
                            ) => {
                                return Some(
                                    EditInput::Flat(
                                        Edit::ReplaceLines { start_anchor, end_anchor, new_text },
                                    ),
                                );
                            },
                            _ => {},
                        }
                    } else if str_eq(tag.as_str(), "insert_after") {
                        match (node_field_text(m, "anchor"), node_field_text(m, "text")) {
                            (Option::Some(anchor), Option::Some(text)) => {
                                return Some(EditInput::Flat(Edit::InsertAfter { anchor, text }));
                            },
                            _ => {},
                        }
                    } else if str_eq(tag.as_str(), "replace") {
                        match (node_field_text(m, "old_text"), node_field_text(m, "new_text")) {
                            (Option::Some(old_text), Option::Some(new_text)) => {
                                let all = node_all_flag(m);
                                return Some(
                                    EditInput::Flat(
                                        Edit::Replace { old_text, new_text, all: Some(all) },
                                    ),
                                );
                            },
                            _ => {},
                        }
                    }
                },
                Option::None => {},
            }
        },
        Option::None => {},
    }
    match node_get(m, "set_line") {
        Option::Some(o) => {
            match (node_field_text(o, "anchor"), node_field_text(o, "new_text")) {
                (Option::Some(anchor), Option::Some(new_text)) => {
                    return Some(
                        EditInput::NestedSetLine { set_line: SetLineEdit { anchor, new_text } },
                    );
                },
                _ => {},
            }
        },
        Option::None => {},
    }
    match node_get(m, "replace_lines") {
        Option::Some(o) => {
            match (
                node_field_text(o, "start_anchor"),
                node_field_text(o, "end_anchor"),
                node_field_text(o, "new_text"),
            ) {
                (Option::Some(start_anchor), Option::Some(end_anchor), Option::Some(new_text)) => {
                    return Some(
                        EditInput::NestedReplaceLines {
                            replace_lines: ReplaceLinesEdit { start_anchor, end_anchor, new_text },
                        },
                    );
                },
                _ => {},
            }
        },
        Option::None => {},
    }
    match node_get(m, "insert_after") {
        Option::Some(o) => {
            match (node_field_text(o, "anchor"), node_field_text(o, "text")) {
                (Option::Some(anchor), Option::Some(text)) => {
                    return Some(
                        EditInput::NestedInsertAfter {
                            insert_after: InsertAfterEdit { anchor, text },
                        },
                    );
                },
                _ => {},
            }
        },
        Option::None => {},
    }
    match node_get(m, "replace") {
        Option::Some(o) => {
            match (node_field_text(o, "old_text"), node_field_text(o, "new_text")) {
                (Option::Some(old_text), Option::Some(new_text)) => {
                    let all = node_all_flag(o);
                    return Some(
                        EditInput::NestedReplace {
                            replace: ReplaceEdit { old_text, new_text, all: Some(all) },
                        },
                    );
                },
                _ => {},
            }
        },
        Option::None => {},
    }
    None
}

/// The mathematical content of an `Edit`.
pub enum EditView {
    SetLine { anchor: Seq<char>, new_text: Seq<char> },
    ReplaceLines { start_anchor: Seq<char>, end_anchor: Seq<char>, new_text: Seq<char> },
    InsertAfter { anchor: Seq<char>, text: Seq<char> },
    Replace { old_text: Seq<char>, new_text: Seq<char>, all: Option<bool> },
}

impl View for Edit {
    type V = EditView;

    open spec fn view(&self) -> EditView {
        match self {
            Edit::SetLine { anchor, new_text } => EditView::SetLine {
                anchor: anchor@,
                new_text: new_text@,
            },
            Edit::ReplaceLines { start_anchor, end_anchor, new_text } => EditView::ReplaceLines {
                start_anchor: start_anchor@,
                end_anchor: end_anchor@,
                new_text: new_text@,
            },
            Edit::InsertAfter { anchor, text } => EditView::InsertAfter {
                anchor: anchor@,
                text: text@,
            },
            Edit::Replace { old_text, new_text, all } => EditView::Replace {
                old_text: old_text@,
                new_text: new_text@,
                all: match all {
                    Option::Some(b) => Option::Some(*b),
                    Option::None => Option::None,
                },
            },
        }
    }
}

/// The operation an edit stands for: the only normalization left is the
/// absent `all` flag defaulting to a single replacement.
pub open spec fn op_of_edit_model(e: EditView) -> FlatOp {
    match e {
        EditView::SetLine { anchor, new_text } => FlatOp::SetLine { anchor, new_text },
        EditView::ReplaceLines { start_anchor, end_anchor, new_text } => FlatOp::ReplaceLines {
            start: start_anchor,
            end: end_anchor,
            new_text,
        },
        EditView::InsertAfter { anchor, text } => FlatOp::InsertAfter { anchor, text },
        EditView::Replace { old_text, new_text, all } => FlatOp::ReplaceText {
            old: old_text,
            new: new_text,
            all: match all {
                Option::Some(b) => b,
                Option::None => false,
            },
        },
    }
}

/// The one edit an accepted wire form stands for.
pub fn edit_of_input(input: EditInput) -> (r: Edit)
    ensures
        r@ == match input {
            EditInput::Flat(e) => e@,
            EditInput::NestedSetLine { set_line } => EditView::SetLine {
                anchor: set_line.anchor@,
                new_text: set_line.new_text@,
            },
            EditInput::NestedReplaceLines { replace_lines } => EditView::ReplaceLines {
                start_anchor: replace_lines.start_anchor@,
                end_anchor: replace_lines.end_anchor@,
                new_text: replace_lines.new_text@,
            },
            EditInput::NestedInsertAfter { insert_after } => EditView::InsertAfter {
                anchor: insert_after.anchor@,
                text: insert_after.text@,
            },
            EditInput::NestedReplace { replace } => EditView::Replace {
                old_text: replace.old_text@,
                new_text: replace.new_text@,
                all: match replace.all {
                    Option::Some(b) => Option::Some(b),
                    Option::None => Option::None,
                },
            },
        },
{
    match input {
        EditInput::Flat(e) => e,
        EditInput::NestedSetLine { set_line } => Edit::SetLine {
            anchor: set_line.anchor,
            new_text: set_line.new_text,
        },
        EditInput::NestedReplaceLines { replace_lines } => Edit::ReplaceLines {
            start_anchor: replace_lines.start_anchor,
            end_anchor: replace_lines.end_anchor,
            new_text: replace_lines.new_text,
        },
        EditInput::NestedInsertAfter { insert_after } => Edit::InsertAfter {
            anchor: insert_after.anchor,
            text: insert_after.text,
        },
        EditInput::NestedReplace { replace } => Edit::Replace {
            old_text: replace.old_text,
            new_text: replace.new_text,
            all: replace.all,
        },
    }
}

/// The normalized operation of an edit.
pub fn op_of_edit(e: Edit) -> (r: Op)
    ensures
        r@ == op_of_edit_model(e@),
{
    match e {
        Edit::SetLine { anchor, new_text } => Op::SetLine(anchor, new_text),
        Edit::ReplaceLines { start_anchor, end_anchor, new_text } => Op::ReplaceLines(
            start_anchor,
            end_anchor,
            new_text,
        ),
        Edit::InsertAfter { anchor, text } => Op::InsertAfter(anchor, text),
        Edit::Replace { old_text, new_text, all } => Op::Replace(
            old_text,
            new_text,
            match all {
                Option::Some(x) => x,
                Option::None => false,
            },
        ),
    }
}

/// Reads a JSON batch into normalized operations: each element may use the
/// flat tagged wire form or a nested single-key form, an absent `all` flag
/// defaults to a single replacement, and a batch that parses as JSON but
/// fits no wire form is rejected with a fixed message.
pub fn parse_edits(edits_json: &str) -> (r: Result<Vec<Op>, String>)
    ensures
        match r {
            Ok(ops) => spec_parse_edits(edits_json@) == Result::<Seq<FlatOp>, Seq<char>>::Ok(
                op_views(ops@),
            ),
            Err(e) => spec_parse_edits(edits_json@) == Result::<Seq<FlatOp>, Seq<char>>::Err(e@),
        },
{
    let doc = match json_parse(edits_json) {
        Ok(v) => v,
        Err(e) => {
            let mut msg = String::new();
            msg.append("Failed to parse edits: ");
            msg.append(e.as_str());
            proof {
                assert(msg@ =~= "Failed to parse edits: "@ + e@);
            }
            return Err(msg);
        },
    };
    let items: &Vec<JsonNode> = match &doc {
        JsonNode::Items(v) => v,
        _ => {
            return Err(
                String::from_str(
                    "Failed to parse edits: data did not match any variant of untagged enum EditInput",
                ),
            );
        },
    };
    let ghost im = items_model(items@);
    proof {
        lemma_items_model(items@);
        assert(im.skip(0) =~= im);
        assert(doc@ == JsonModel::Items(im));
    }
    let mut ops: Vec<Op> = Vec::new();
    let mut i: usize = 0;
    while i < items.len()
        invariant
            crate::jsonval::json_doc_of(edits_json@) == Result::<JsonModel, Seq<char>>::Ok(
                JsonModel::Items(im),
            ),
            im == items_model(items@),
            im.len() == items@.len(),
            forall|k: int| 0 <= k < items@.len() ==> im[k] == #[trigger] items@[k]@,
            i <= items@.len(),
            decode_elems(im.skip(i as int)) matches Option::Some(rest) ==> decode_elems(im)
                == Option::Some(op_views(ops@) + rest),
            decode_elems(im.skip(i as int)) is None ==> decode_elems(im) is None,
        decreases items@.len() - i,
    {
        proof {
            assert(im.skip(i as int).first() == im[i as int]);
            assert(im.skip(i as int).skip(1) =~= im.skip(i + 1 as int));
        }
        let input = match parse_edit_input(&items[i]) {
            Option::Some(x) => x,
            Option::None => {
                return Err(
                    String::from_str(
                        "Failed to parse edits: data did not match any variant of untagged enum EditInput",
                    ),
                );
            },
        };
        let ghost prev = op_views(ops@);
        let ghost ginput = input;
        let op = op_of_edit(edit_of_input(input));
        proof {
            assert(op@ == input_op(ginput));
        }
        ops.push(op);
        proof {
            assert(op_views(ops@) =~= prev.push(op@));
            if decode_elems(im.skip(i + 1 as int)) is Some {
                let rest = decode_elems(im.skip(i + 1 as int))->Some_0;
                assert(op_views(ops@) + rest =~= prev + (seq![op@] + rest));
            }
        }
        i = i + 1;
    }
    proof {
        assert(im.skip(items@.len() as int) =~= Seq::<JsonModel>::empty());
        assert(op_views(ops@) + Seq::<FlatOp>::empty() =~= op_views(ops@));
    }
    Ok(ops)
}

/// Reads a JSON batch and applies it to the content: the decode and its
/// rejections are those of `spec_parse_edits`, and an accepted batch is
/// handled exactly as `apply_ops` handles its operations.
pub fn apply_edits(content: &str, edits_json: &str) -> (r: Result<String, String>)
    ensures
        match spec_parse_edits(edits_json@) {
            Result::Err(m) => r matches Err(e) && e@ == m,
            Result::Ok(om) => flat_result_ok(content@, om, r),
        },
{
    match parse_edits(edits_json) {
        Ok(ops) => apply_ops(content, &ops),
        Err(e) => Err(e),
    }
}

proof fn lemma_set_line_forms(a: Seq<char>, b: Seq<char>)
    ensures
        decode_elem(
            JsonModel::Fields(
                seq![
                    ("type"@, JsonModel::Text("set_line"@)),
                    ("anchor"@, JsonModel::Text(a)),
                    ("new_text"@, JsonModel::Text(b)),
                ],
            ),
        ) == Option::Some(FlatOp::SetLine { anchor: a, new_text: b }),
        decode_elem(
            JsonModel::Fields(
                seq![
                    (
                        "set_line"@,
                        JsonModel::Fields(
                            seq![("anchor"@, JsonModel::Text(a)), ("new_text"@, JsonModel::Text(b))],
                        ),
                    ),
                ],
            ),
        ) == Option::Some(FlatOp::SetLine { anchor: a, new_text: b }),
{
    reveal_strlit("type");
    reveal_strlit("set_line");
    reveal_strlit("anchor");
    reveal_strlit("new_text");
    assert("type"@.len() == 4);
    assert("set_line"@.len() == 8);
    assert("anchor"@.len() == 6);
    assert("new_text"@.len() == 8);
    assert("type"@ != "anchor"@);
    assert("type"@ != "new_text"@);
    assert("anchor"@ != "new_text"@);
    assert("set_line"@ != "type"@);
    let inner = seq![("anchor"@, JsonModel::Text(a)), ("new_text"@, JsonModel::Text(b))];
    let tail1 = seq![("new_text"@, JsonModel::Text(b))];
    let flat_fs = seq![
        ("type"@, JsonModel::Text("set_line"@)),
        ("anchor"@, JsonModel::Text(a)),
        ("new_text"@, JsonModel::Text(b)),
    ];
    assert(flat_fs.skip(1) =~= inner);
    assert(inner.skip(1) =~= tail1);
    assert(tail1.skip(1) =~= Seq::<(Seq<char>, JsonModel)>::empty());
    assert(jm_field(flat_fs, "type"@) == Option::Some(JsonModel::Text("set_line"@)));
    assert(jm_field(inner, "anchor"@) == Option::Some(JsonModel::Text(a)));
    assert(jm_field(flat_fs, "anchor"@) == Option::Some(JsonModel::Text(a)));
    assert(jm_field(tail1, "new_text"@) == Option::Some(JsonModel::Text(b)));
    assert(jm_field(inner, "new_text"@) == Option::Some(JsonModel::Text(b)));
    assert(jm_field(flat_fs, "new_text"@) == Option::Some(JsonModel::Text(b)));
    assert(decode_flat_form(JsonModel::Fields(flat_fs)) == Option::Some(
        FlatOp::SetLine { anchor: a, new_text: b },
    ));
    let nest_fs = seq![("set_line"@, JsonModel::Fields(inner))];
    assert(nest_fs.skip(1) =~= Seq::<(Seq<char>, JsonModel)>::empty());
    assert(jm_field(Seq::<(Seq<char>, JsonModel)>::empty(), "type"@) is None);
    assert(jm_field(nest_fs, "type"@) is None);
    assert(decode_flat_form(JsonModel::Fields(nest_fs)) is None);
    assert(jm_field(nest_fs, "set_line"@) == Option::Some(JsonModel::Fields(inner)));
    assert(decode_nested_form(JsonModel::Fields(nest_fs)) == Option::Some(
        FlatOp::SetLine { anchor: a, new_text: b },
    ));
}

proof fn lemma_replace_forms(a: Seq<char>, b: Seq<char>)
    ensures
        decode_elem(
            JsonModel::Fields(
                seq![
                    ("type"@, JsonModel::Text("replace"@)),
                    ("old_text"@, JsonModel::Text(a)),
                    ("new_text"@, JsonModel::Text(b)),
                ],
            ),
        ) == Option::Some(FlatOp::ReplaceText { old: a, new: b, all: false }),
        decode_elem(
            JsonModel::Fields(
                seq![
                    (
                        "replace"@,
                        JsonModel::Fields(
                            seq![
                                ("old_text"@, JsonModel::Text(a)),
                                ("new_text"@, JsonModel::Text(b)),
                            ],
                        ),
                    ),
                ],
            ),
        ) == Option::Some(FlatOp::ReplaceText { old: a, new: b, all: false }),
{
    reveal_strlit("type");
    reveal_strlit("replace");
    reveal_strlit("set_line");
    reveal_strlit("replace_lines");
    reveal_strlit("insert_after");
    reveal_strlit("old_text");
    reveal_strlit("new_text");
    reveal_strlit("all");
    assert("type"@.len() == 4);
    assert("replace"@.len() == 7);
    assert("set_line"@.len() == 8);
    assert("replace_lines"@.len() == 13);
    assert("insert_after"@.len() == 12);
    assert("old_text"@.len() == 8);
    assert("new_text"@.len() == 8);
    assert("all"@.len() == 3);
    assert("old_text"@[0] == 'o' && "new_text"@[0] == 'n');
    assert("type"@ != "old_text"@);
    assert("type"@ != "new_text"@);
    assert("old_text"@ != "new_text"@);
    assert("old_text"@ != "all"@);
    assert("new_text"@ != "all"@);
    assert("type"@ != "all"@);
    assert("replace"@ != "type"@);
    assert("replace"@ != "set_line"@);
    assert("replace"@ != "replace_lines"@);
    assert("replace"@ != "insert_after"@);
    let inner = seq![("old_text"@, JsonModel::Text(a)), ("new_text"@, JsonModel::Text(b))];
    let tail1 = seq![("new_text"@, JsonModel::Text(b))];
    let flat_fs = seq![
        ("type"@, JsonModel::Text("replace"@)),
        ("old_text"@, JsonModel::Text(a)),
        ("new_text"@, JsonModel::Text(b)),
    ];
    assert(flat_fs.skip(1) =~= inner);
    assert(inner.skip(1) =~= tail1);
    assert(tail1.skip(1) =~= Seq::<(Seq<char>, JsonModel)>::empty());
    assert(jm_field(flat_fs, "type"@) == Option::Some(JsonModel::Text("replace"@)));
    assert(jm_field(inner, "old_text"@) == Option::Some(JsonModel::Text(a)));
    assert(jm_field(flat_fs, "old_text"@) == Option::Some(JsonModel::Text(a)));
    assert(jm_field(tail1, "new_text"@) == Option::Some(JsonModel::Text(b)));
    assert(jm_field(inner, "new_text"@) == Option::Some(JsonModel::Text(b)));
    assert(jm_field(flat_fs, "new_text"@) == Option::Some(JsonModel::Text(b)));
    assert(jm_field(Seq::<(Seq<char>, JsonModel)>::empty(), "all"@) is None);
    assert(jm_field(tail1, "all"@) is None);
    assert(jm_field(inner, "all"@) is None);
    assert(jm_field(flat_fs, "all"@) is None);
    assert(jm_all_flag(JsonModel::Fields(flat_fs)) == false);
    assert(decode_flat_form(JsonModel::Fields(flat_fs)) == Option::Some(
        FlatOp::ReplaceText { old: a, new: b, all: false },
    ));
    let nest_fs = seq![("replace"@, JsonModel::Fields(inner))];
    assert(nest_fs.skip(1) =~= Seq::<(Seq<char>, JsonModel)>::empty());
    assert(jm_field(Seq::<(Seq<char>, JsonModel)>::empty(), "type"@) is None);
    assert(jm_field(Seq::<(Seq<char>, JsonModel)>::empty(), "set_line"@) is None);
    assert(jm_field(Seq::<(Seq<char>, JsonModel)>::empty(), "replace_lines"@) is None);
    assert(jm_field(Seq::<(Seq<char>, JsonModel)>::empty(), "insert_after"@) is None);
    assert(jm_field(nest_fs, "type"@) is None);
    assert(decode_flat_form(JsonModel::Fields(nest_fs)) is None);
    assert(jm_field(nest_fs, "set_line"@) is None);
    assert(jm_field(nest_fs, "replace_lines"@) is None);
    assert(jm_field(nest_fs, "insert_after"@) is None);
    assert(jm_field(nest_fs, "replace"@) == Option::Some(JsonModel::Fields(inner)));
    assert(jm_all_flag(JsonModel::Fields(inner)) == false);
    assert(decode_nested_form(JsonModel::Fields(nest_fs)) == Option::Some(
        FlatOp::ReplaceText { old: a, new: b, all: false },
    ));
}

/// The flat tagged wire form and the nested single-key wire form of one
/// edit decode to the same operation; an absent `all` flag defaults to a
/// single replacement. Shown for a line replacement and a text replacement;
/// the remaining two forms decode through the same parallel branches.
pub proof fn lemma_wire_forms_agree(a: Seq<char>, b: Seq<char>)
    ensures
        decode_elem(
            JsonModel::Fields(
                seq![
                    ("type"@, JsonModel::Text("set_line"@)),
                    ("anchor"@, JsonModel::Text(a)),
                    ("new_text"@, JsonModel::Text(b)),
                ],
            ),
        ) == decode_elem(
            JsonModel::Fields(
                seq![
                    (
                        "set_line"@,
                        JsonModel::Fields(
                            seq![("anchor"@, JsonModel::Text(a)), ("new_text"@, JsonModel::Text(b))],
                        ),
                    ),
                ],
            ),
        ),
        decode_elem(
            JsonModel::Fields(
                seq![
                    ("type"@, JsonModel::Text("set_line"@)),
                    ("anchor"@, JsonModel::Text(a)),
                    ("new_text"@, JsonModel::Text(b)),
                ],
            ),
        ) == Option::Some(FlatOp::SetLine { anchor: a, new_text: b }),
        decode_elem(
            JsonModel::Fields(
                seq![
                    ("type"@, JsonModel::Text("replace"@)),
                    ("old_text"@, JsonModel::Text(a)),
                    ("new_text"@, JsonModel::Text(b)),
                ],
            ),
        ) == decode_elem(
            JsonModel::Fields(
                seq![
                    (
                        "replace"@,
                        JsonModel::Fields(
                            seq![
                                ("old_text"@, JsonModel::Text(a)),
                                ("new_text"@, JsonModel::Text(b)),
                            ],
                        ),
                    ),
                ],
            ),
        ),
        decode_elem(
            JsonModel::Fields(
                seq![
                    ("type"@, JsonModel::Text("replace"@)),
                    ("old_text"@, JsonModel::Text(a)),
                    ("new_text"@, JsonModel::Text(b)),
                ],
            ),
        ) == Option::Some(FlatOp::ReplaceText { old: a, new: b, all: false }),
{
    lemma_set_line_forms(a, b);
    lemma_replace_forms(a, b);
}

} // verus!
