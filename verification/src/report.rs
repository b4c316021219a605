use vstd::prelude::*;
use vstd::string::StrSliceExecFns;
use vstd::string::StringExecFns;
use crate::edit::mm_views;
use crate::edit::ApplyError;
use crate::edit::HashlineMismatchError;
use crate::edit::MismatchModel;
use crate::edit::OpKind;
use crate::edit::OverlapPair;
use crate::edit::ValidationIssue;
use crate::fingerprint::chain_hashes;
use crate::fingerprint::compute_chain_hashes;
use crate::fingerprint::lemma_chain_hashes_len;
use crate::strutil::dec_digits;
use crate::strutil::lines_of;
use crate::strutil::push_usize;
use crate::strutil::split_lines;
use crate::strutil::views_of;

verus! {

pub(crate) fn push_u128_dec(out: &mut String, n: u128)
    ensures
        final(out)@ == old(out)@ + dec_digits(n as int),
{
    let mut digits: Vec<char> = Vec::new();
    let mut m: u128 = n;
    loop
        invariant_except_break
            dec_digits(n as int) == dec_digits(m as int) + digits@,
        ensures
            dec_digits(n as int) == digits@,
        decreases m,
    {
        let d: u8 = (m % 10) as u8;
        let c: char = (0x30u8 + d) as char;
        assert(c == crate::strutil::dec_digit_char(m as int % 10));
        let ghost prev = digits@;
        digits.insert(0, c);
        proof {
            assert(digits@ =~= seq![c] + prev);
        }
        if m < 10 {
            proof {
                assert(dec_digits(m as int) == seq![crate::strutil::dec_digit_char(m as int)]);
                assert(dec_digits(n as int) =~= digits@);
            }
            break;
        }
        proof {
            assert(dec_digits(m as int) == dec_digits(m as int / 10).push(
                crate::strutil::dec_digit_char(m as int % 10),
            ));
            assert(dec_digits(m as int) =~= dec_digits(m as int / 10) + seq![c]);
            assert(dec_digits(m as int / 10) + seq![c] + prev =~= dec_digits(
                m as int / 10,
            ) + digits@);
        }
        m = m / 10;
    }
    let ghost start = out@;
    let mut i: usize = 0;
    while i < digits.len()
        invariant
            out@ == start + digits@.take(i as int),
            i <= digits@.len(),
        decreases digits@.len() - i,
    {
        out.push(digits[i]);
        proof {
            assert(start + digits@.take(i + 1 as int) =~= (start + digits@.take(i as int)).push(
                digits@[i as int],
            ));
        }
        i = i + 1;
    }
    proof {
        assert(digits@.take(digits@.len() as int) =~= digits@);
    }
}

/// The message of one structural fault, as validation words it.
pub open spec fn issue_message(v: ValidationIssue) -> Seq<char> {
    match v {
        ValidationIssue::RangeInverted { start, end } => "Range start line "@ + dec_digits(
            start as int,
        ) + " must be <= end line "@ + dec_digits(end as int),
        ValidationIssue::LineZero { line } => "Line "@ + dec_digits(line as int)
            + " must be >= 1"@,
        ValidationIssue::LineBeyond { line, file_len } => "Line "@ + dec_digits(line as int)
            + " does not exist (file has "@ + dec_digits(file_len as int) + " lines)"@,
    }
}

/// The structural faults joined, one per line.
pub open spec fn issues_text(vs: Seq<ValidationIssue>) -> Seq<char>
    decreases vs.len(),
{
    if vs.len() == 0 {
        Seq::empty()
    } else if vs.len() == 1 {
        issue_message(vs.first())
    } else {
        issues_text(vs.drop_last()) + "\n"@ + issue_message(vs.last())
    }
}

fn push_issue(out: &mut String, v: &ValidationIssue)
    ensures
        final(out)@ == old(out)@ + issue_message(*v),
{
    match v {
        ValidationIssue::RangeInverted { start, end } => {
            out.append("Range start line ");
            push_usize(out, *start);
            out.append(" must be <= end line ");
            push_usize(out, *end);
        },
        ValidationIssue::LineZero { line } => {
            out.append("Line ");
            push_usize(out, *line);
            out.append(" must be >= 1");
        },
        ValidationIssue::LineBeyond { line, file_len } => {
            out.append("Line ");
            push_usize(out, *line);
            out.append(" does not exist (file has ");
            push_usize(out, *file_len);
            out.append(" lines)");
        },
    }
}

/// The name of an operation, as reports word it.
pub open spec fn op_name(k: OpKind) -> Seq<char> {
    match k {
        OpKind::Replace => "replace"@,
        OpKind::Append => "append"@,
        OpKind::Prepend => "prepend"@,
    }
}

/// The report line of one pair of colliding edits.
pub open spec fn pair_message(p: OverlapPair) -> Seq<char> {
    "  - "@ + op_name(p.first_op) + " at lines "@ + dec_digits(p.first_lo as int) + "-"@
        + dec_digits(p.first_hi as int) + " overlaps with "@ + op_name(p.second_op)
        + " at lines "@ + dec_digits(p.second_lo as int) + "-"@ + dec_digits(
        p.second_hi as int,
    )
}

/// The collision report lines joined, one per line.
pub open spec fn pairs_text(ps: Seq<OverlapPair>) -> Seq<char>
    decreases ps.len(),
{
    if ps.len() == 0 {
        Seq::empty()
    } else if ps.len() == 1 {
        pair_message(ps.first())
    } else {
        pairs_text(ps.drop_last()) + "\n"@ + pair_message(ps.last())
    }
}

#[verifier::rlimit(100)]
fn push_pair(out: &mut String, p: &OverlapPair)
    ensures
        final(out)@ == old(out)@ + pair_message(*p),
{
    out.append("  - ");
    match p.first_op {
        OpKind::Replace => out.append("replace"),
        OpKind::Append => out.append("append"),
        OpKind::Prepend => out.append("prepend"),
    }
    out.append(" at lines ");
    push_u128_dec(out, p.first_lo);
    out.append("-");
    push_u128_dec(out, p.first_hi);
    out.append(" overlaps with ");
    match p.second_op {
        OpKind::Replace => out.append("replace"),
        OpKind::Append => out.append("append"),
        OpKind::Prepend => out.append("prepend"),
    }
    out.append(" at lines ");
    push_u128_dec(out, p.second_lo);
    out.append("-");
    push_u128_dec(out, p.second_hi);
}

fn push_display_line(
    out: &mut String,
    gap: bool,
    hit: bool,
    line_num: usize,
    hash: &String,
    text: &String,
)
    ensures
        final(out)@ == old(out)@ + (if gap {
            "    ...\n"@
        } else {
            Seq::<char>::empty()
        }) + ((if hit {
            ">>> "@
        } else {
            "    "@
        }) + dec_digits(line_num as int) + "#"@ + hash@ + ":"@ + text@ + "\n"@),
{
    if gap {
        out.append("    ...\n");
    }
    if hit {
        out.append(">>> ");
    } else {
        out.append("    ");
    }
    push_usize(out, line_num);
    out.append("#");
    out.append(hash.as_str());
    out.append(":");
    out.append(text.as_str());
    out.append("\n");
}

/// Whether some stale anchor points at line `i`.
pub open spec fn mm_hits(ms: Seq<MismatchModel>, i: int) -> bool {
    exists|k: int| 0 <= k < ms.len() && (#[trigger] ms[k]).line == i
}

/// Whether line `i` falls inside the two-line context window of some stale
/// anchor.
pub open spec fn in_window(ms: Seq<MismatchModel>, n: int, i: int) -> bool {
    exists|k: int|
        0 <= k < ms.len() && crate::edit::max_i((#[trigger] ms[k]).line - 2, 1) <= i
            <= crate::edit::min_i(ms[k].line + 2, n)
}

/// The lines shown in a stale-anchor report: every line of the file inside
/// some context window, in order.
pub open spec fn disp_from(ms: Seq<MismatchModel>, n: int, i: int) -> Seq<int>
    decreases n + 1 - i,
{
    if i < 1 || i > n {
        Seq::empty()
    } else if in_window(ms, n, i) {
        seq![i] + disp_from(ms, n, i + 1)
    } else {
        disp_from(ms, n, i + 1)
    }
}

/// One displayed line of a stale-anchor report: its marker, its number, its
/// current fingerprint and its text.
pub open spec fn mm_entry(
    ms: Seq<MismatchModel>,
    lines: Seq<Seq<char>>,
    hs: Seq<Seq<char>>,
    i: int,
) -> Seq<char> {
    (if mm_hits(ms, i) {
        ">>> "@
    } else {
        "    "@
    }) + dec_digits(i) + "#"@ + hs[i - 1] + ":"@ + lines[i - 1] + "\n"@
}

/// The body of a stale-anchor report: the displayed lines with an ellipsis
/// between non-adjacent stretches.
pub open spec fn mm_body(
    ms: Seq<MismatchModel>,
    lines: Seq<Seq<char>>,
    hs: Seq<Seq<char>>,
    ds: Seq<int>,
    prev: int,
) -> Seq<char>
    decreases ds.len(),
{
    if ds.len() == 0 {
        Seq::empty()
    } else {
        (if prev != 0 && ds.first() > prev + 1 {
            "    ...\n"@
        } else {
            Seq::empty()
        }) + mm_entry(ms, lines, hs, ds.first()) + mm_body(ms, lines, hs, ds.skip(1), ds.first())
    }
}

/// The whole stale-anchor report: a heading with the count, then the
/// affected lines in context, each with its current reference.
pub open spec fn mismatch_report(ms: Seq<MismatchModel>, lines: Seq<Seq<char>>) -> Seq<char> {
    let hs = chain_hashes(lines);
    let n = lines.len() as int;
    dec_digits(ms.len() as int) + " line"@ + (if ms.len() > 1 {
        "s"@
    } else {
        Seq::empty()
    })
        + " have changed since last read. Use the updated LINE#ID references shown below (>>> marks changed lines).\n\n"@
        + mm_body(ms, lines, hs, disp_from(ms, n, 1), 0)
}

impl HashlineMismatchError {
    /// The report shown for stale anchors: each changed line and two lines
    /// around it, annotated with their current references.
    #[verifier::rlimit(100)]
    pub fn render(&self) -> (r: String)
        ensures
            r@ == mismatch_report(mm_views(self.mismatches@), views_of(self.file_lines@)),
    {
        let ghost ms = mm_views(self.mismatches@);
        let ghost lines = views_of(self.file_lines@);
        let n = self.file_lines.len();
        let hashes = compute_chain_hashes(&self.file_lines);
        proof {
            lemma_chain_hashes_len(lines);
        }
        let mut out = String::new();
        push_usize(&mut out, self.mismatches.len());
        out.append(" line");
        if self.mismatches.len() > 1 {
            out.append("s");
        }
        out.append(
            " have changed since last read. Use the updated LINE#ID references shown below (>>> marks changed lines).\n\n",
        );
        let mut disp: Vec<usize> = Vec::new();
        let mut idx: usize = 0;
        proof {
            assert(ints_of(disp@) + disp_from(ms, n as int, 1) =~= disp_from(ms, n as int, 1));
        }
        while idx < n
            invariant
                ms == mm_views(self.mismatches@),
                n == lines.len(),
                idx <= n,
                disp_from(ms, n as int, 1) == ints_of(disp@) + disp_from(
                    ms,
                    n as int,
                    idx + 1 as int,
                ),
                forall|z: int| 0 <= z < disp@.len() ==> 1 <= #[trigger] disp@[z] <= n,
            decreases n - idx,
        {
            let i = idx + 1;
            let mut hit = false;
            let mut k: usize = 0;
            while k < self.mismatches.len()
                invariant
                    ms == mm_views(self.mismatches@),
                    n == lines.len(),
                    1 <= i <= n,
                    k <= ms.len(),
                    hit == exists|z: int|
                        0 <= z < k && crate::edit::max_i((#[trigger] ms[z]).line - 2, 1)
                            <= i as int <= crate::edit::min_i(ms[z].line + 2, n as int),
                decreases ms.len() - k,
            {
                let m = &self.mismatches[k];
                proof {
                    assert(ms[k as int] == self.mismatches@[k as int]@);
                }
                let lo: usize = if m.line >= 3 {
                    m.line - 2
                } else {
                    1
                };
                let hi_raw: Option<usize> = m.line.checked_add(2);
                let hi: usize = match hi_raw {
                    Option::Some(h) => if h < n {
                        h
                    } else {
                        n
                    },
                    Option::None => n,
                };
                if lo <= i && i <= hi {
                    hit = true;
                }
                k = k + 1;
            }
            proof {
                assert(hit == in_window(ms, n as int, i as int));
                assert(disp_from(ms, n as int, i as int) == (if in_window(ms, n as int, i as int) {
                    seq![i as int] + disp_from(ms, n as int, i + 1 as int)
                } else {
                    disp_from(ms, n as int, i + 1 as int)
                }));
            }
            if hit {
                let ghost prevd = disp@;
                disp.push(i);
                proof {
                    assert(ints_of(disp@) =~= ints_of(prevd).push(i as int));
                    assert(ints_of(prevd) + (seq![i as int] + disp_from(ms, n as int, i + 1 as int))
                        =~= ints_of(disp@) + disp_from(ms, n as int, i + 1 as int));
                }
            }
            idx = idx + 1;
        }
        proof {
            assert(disp_from(ms, n as int, n + 1 as int) =~= Seq::<int>::empty());
            assert(disp_from(ms, n as int, 1) =~= ints_of(disp@));
        }
        let ghost ds = ints_of(disp@);
        let ghost hsv = chain_hashes(lines);
        proof {
            assert(ds.skip(0) =~= ds);
            assert(lines.len() == n);
            assert(ds == disp_from(ms, n as int, 1));
            assert(out@ =~= dec_digits(ms.len() as int) + " line"@ + (if ms.len() > 1 {
                "s"@
            } else {
                Seq::empty()
            })
                + " have changed since last read. Use the updated LINE#ID references shown below (>>> marks changed lines).\n\n"@);
            assert(mismatch_report(ms, lines) =~= out@ + mm_body(ms, lines, hsv, ds, 0));
        }
        let mut prev: usize = 0;
        let mut t: usize = 0;
        while t < disp.len()
            invariant
                ms == mm_views(self.mismatches@),
                lines == views_of(self.file_lines@),
                hsv == chain_hashes(lines),
                views_of(hashes@) == hsv,
                hashes@.len() == lines.len(),
                self.file_lines@.len() == lines.len(),
                n == lines.len(),
                ds == ints_of(disp@),
                t <= disp@.len(),
                forall|z: int| 0 <= z < disp@.len() ==> 1 <= #[trigger] disp@[z] <= n,
                t > 0 ==> prev == disp@[t - 1],
                t == 0 ==> prev == 0,
                mismatch_report(ms, lines) == out@ + mm_body(
                    ms,
                    lines,
                    hsv,
                    ds.skip(t as int),
                    prev as int,
                ),
            decreases disp@.len() - t,
        {
            let line_num = disp[t];
            proof {
                assert(ds[t as int] == disp@[t as int]);
                assert(ds.skip(t as int).first() == ds[t as int]);
                assert(ds.skip(t as int).skip(1) =~= ds.skip(t + 1 as int));
            }
            let gap = prev != 0 && line_num - 1 > prev;
            let mut hit = false;
            let mut k: usize = 0;
            while k < self.mismatches.len()
                invariant
                    ms == mm_views(self.mismatches@),
                    k <= ms.len(),
                    hit == exists|z: int| 0 <= z < k && (#[trigger] ms[z]).line == line_num as int,
                decreases ms.len() - k,
            {
                proof {
                    assert(ms[k as int] == self.mismatches@[k as int]@);
                }
                if self.mismatches[k].line == line_num {
                    hit = true;
                }
                k = k + 1;
            }
            proof {
                assert(hit == mm_hits(ms, line_num as int));
                assert(hashes@[line_num - 1]@ == hsv[line_num - 1]);
                assert(self.file_lines@[line_num - 1]@ == lines[line_num - 1]);
            }
            push_display_line(
                &mut out,
                gap,
                hit,
                line_num,
                &hashes[line_num - 1],
                &self.file_lines[line_num - 1],
            );
            proof {
                assert(mm_entry(ms, lines, hsv, line_num as int) =~= (if hit {
                    ">>> "@
                } else {
                    "    "@
                }) + dec_digits(line_num as int) + "#"@ + hsv[line_num - 1] + ":"@ + lines[line_num
                    - 1] + "\n"@);
            }
            prev = line_num;
            t = t + 1;
        }
        proof {
            assert(ds.skip(disp@.len() as int) =~= Seq::<int>::empty());
        }
        out
    }
}

/// The line numbers of a vector, as integers.
pub open spec fn ints_of(s: Seq<usize>) -> Seq<int> {
    s.map_values(|x: usize| x as int)
}

/// One listed line of a read: its number, its fingerprint and its text.
pub open spec fn read_entry(n: int, h: Seq<char>, text: Seq<char>) -> Seq<char> {
    dec_digits(n) + "#"@ + h + ":"@ + text
}

/// The listed lines `start+1 ..= end`, one per line.
pub open spec fn read_body(
    lines: Seq<Seq<char>>,
    hs: Seq<Seq<char>>,
    start: int,
    end: int,
) -> Seq<char>
    decreases end - start,
{
    if end <= start {
        Seq::empty()
    } else if end == start + 1 {
        read_entry(end, hs[end - 1], lines[end - 1])
    } else {
        read_body(lines, hs, start, end - 1) + "\n"@ + read_entry(end, hs[end - 1], lines[end - 1])
    }
}

/// The closing note of a read: how to read on, or that the file ends here.
pub open spec fn read_trailer(end: int, total: int) -> Seq<char> {
    if end < total {
        "\n\n(File has more lines. Use 'offset' parameter to read beyond line "@ + dec_digits(end)
            + ")"@
    } else {
        "\n\n(End of file - "@ + dec_digits(total) + " total lines)"@
    }
}

/// The annotated listing of a window of the file: each line prefixed with
/// its number and current chained fingerprint, inside a fenced block.
pub open spec fn render_read_spec(
    lines: Seq<Seq<char>>,
    hs: Seq<Seq<char>>,
    start: int,
    count: int,
) -> Seq<char> {
    let total = lines.len() as int;
    let end = crate::edit::min_i(start + count, total);
    if start >= total {
        "<file>\n(End of file - 0 lines)\n</file>"@
    } else {
        "<file>\n"@ + read_body(lines, hs, start, end) + read_trailer(end, total) + "\n</file>"@
    }
}

fn push_read_entry(out: &mut String, n: usize, h: &String, text: &String)
    ensures
        final(out)@ == old(out)@ + read_entry(n as int, h@, text@),
{
    push_usize(out, n);
    out.append("#");
    out.append(h.as_str());
    out.append(":");
    out.append(text.as_str());
}

/// Lists a window of the file with each line's number and current chained
/// fingerprint, for the caller to anchor later edits on.
#[verifier::rlimit(100)]
pub fn render_read(content: &str, offset: Option<usize>, limit: Option<usize>) -> (r: String)
    ensures
        r@ == render_read_spec(
            lines_of(content@),
            chain_hashes(lines_of(content@)),
            match offset {
                Option::Some(o) => o as int,
                Option::None => 0,
            },
            match limit {
                Option::Some(l) => l as int,
                Option::None => 2000,
            },
        ),
{
    let start: usize = match offset {
        Option::Some(o) => o,
        Option::None => 0,
    };
    let count: usize = match limit {
        Option::Some(l) => l,
        Option::None => 2000,
    };
    let lines = split_lines(content);
    let ghost lv = lines_of(content@);
    let ghost hsv = chain_hashes(lv);
    let total = lines.len();
    if start >= total {
        let r = String::from_str("<file>\n(End of file - 0 lines)\n</file>");
        return r;
    }
    let hashes = compute_chain_hashes(&lines);
    proof {
        lemma_chain_hashes_len(lv);
    }
    let end: usize = match start.checked_add(count) {
        Option::Some(s) => if s < total {
            s
        } else {
            total
        },
        Option::None => total,
    };
    let mut out = String::new();
    out.append("<file>\n");
    let mut k: usize = start;
    while k < end
        invariant
            lv == lines_of(content@),
            hsv == chain_hashes(lv),
            views_of(lines@) == lv,
            views_of(hashes@) == hsv,
            lines@.len() == lv.len(),
            hashes@.len() == lv.len(),
            start <= k <= end <= lv.len(),
            start < lv.len(),
            out@ == "<file>\n"@ + read_body(lv, hsv, start as int, k as int),
        decreases end - k,
    {
        if k > start {
            out.append("\n");
        }
        proof {
            assert(hashes@[k as int]@ == hsv[k as int]);
            assert(lines@[k as int]@ == lv[k as int]);
        }
        push_read_entry(&mut out, k + 1, &hashes[k], &lines[k]);
        proof {
            if k == start {
                assert(out@ =~= "<file>\n"@ + read_body(lv, hsv, start as int, k + 1 as int));
            } else {
                assert(out@ =~= "<file>\n"@ + (read_body(lv, hsv, start as int, k as int) + "\n"@
                    + read_entry(k + 1 as int, hsv[k as int], lv[k as int])));
            }
        }
        k = k + 1;
    }
    if end < total {
        out.append("\n\n(File has more lines. Use 'offset' parameter to read beyond line ");
        push_usize(&mut out, end);
        out.append(")");
    } else {
        out.append("\n\n(End of file - ");
        push_usize(&mut out, total);
        out.append(" total lines)");
    }
    out.append("\n</file>");
    proof {
        assert(out@ =~= render_read_spec(lv, hsv, start as int, count as int));
    }
    out
}

/// One listed line of a legacy read: number, independent fingerprint, text.
pub open spec fn flat_read_entry(n: int, text: Seq<char>) -> Seq<char> {
    dec_digits(n) + ":"@ + crate::flat::indep_hash(text) + "|"@ + text
}

/// The legacy listing's lines `start+1 ..= end`.
pub open spec fn flat_read_body(lines: Seq<Seq<char>>, start: int, end: int) -> Seq<char>
    decreases end - start,
{
    if end <= start {
        Seq::empty()
    } else if end == start + 1 {
        flat_read_entry(end, lines[end - 1])
    } else {
        flat_read_body(lines, start, end - 1) + "\n"@ + flat_read_entry(end, lines[end - 1])
    }
}

/// The legacy annotated listing of a window of the file.
pub open spec fn render_read_flat_spec(lines: Seq<Seq<char>>, start: int, count: int) -> Seq<
    char,
> {
    let total = lines.len() as int;
    let end = crate::edit::min_i(start + count, total);
    if start >= total {
        "<file>\n(End of file - 0 lines)\n</file>"@
    } else {
        "<file>\n"@ + flat_read_body(lines, start, end) + read_trailer(end, total) + "\n</file>"@
    }
}

/// Lists a window of the file with each line's number and independent
/// fingerprint, in the legacy tool's format.
#[verifier::rlimit(100)]
pub fn render_read_flat(content: &str, offset: Option<usize>, limit: Option<usize>) -> (r: String)
    ensures
        r@ == render_read_flat_spec(
            lines_of(content@),
            match offset {
                Option::Some(o) => o as int,
                Option::None => 0,
            },
            match limit {
                Option::Some(l) => l as int,
                Option::None => 2000,
            },
        ),
{
    let start: usize = match offset {
        Option::Some(o) => o,
        Option::None => 0,
    };
    let count: usize = match limit {
        Option::Some(l) => l,
        Option::None => 2000,
    };
    let lines = split_lines(content);
    let ghost lv = lines_of(content@);
    let total = lines.len();
    if start >= total {
        let r = String::from_str("<file>\n(End of file - 0 lines)\n</file>");
        return r;
    }
    let end: usize = match start.checked_add(count) {
        Option::Some(s) => if s < total {
            s
        } else {
            total
        },
        Option::None => total,
    };
    let mut out = String::new();
    out.append("<file>\n");
    let mut k: usize = start;
    while k < end
        invariant
            lv == lines_of(content@),
            views_of(lines@) == lv,
            lines@.len() == lv.len(),
            start <= k <= end <= lv.len(),
            start < lv.len(),
            out@ == "<file>\n"@ + flat_read_body(lv, start as int, k as int),
        decreases end - k,
    {
        if k > start {
            out.append("\n");
        }
        proof {
            assert(lines@[k as int]@ == lv[k as int]);
        }
        push_usize(&mut out, k + 1);
        out.append(":");
        let h = crate::flat::compute_line_hash(lines[k].as_str());
        out.append(h.as_str());
        out.append("|");
        out.append(lines[k].as_str());
        proof {
            if k == start {
                assert(out@ =~= "<file>\n"@ + flat_read_body(lv, start as int, k + 1 as int));
            } else {
                assert(out@ =~= "<file>\n"@ + (flat_read_body(lv, start as int, k as int) + "\n"@
                    + flat_read_entry(k + 1 as int, lv[k as int])));
            }
        }
        k = k + 1;
    }
    if end < total {
        out.append("\n\n(File has more lines. Use 'offset' parameter to read beyond line ");
        push_usize(&mut out, end);
        out.append(")");
    } else {
        out.append("\n\n(End of file - ");
        push_usize(&mut out, total);
        out.append(" total lines)");
    }
    out.append("\n</file>");
    proof {
        assert(out@ =~= render_read_flat_spec(lv, start as int, count as int));
    }
    out
}

/// The message of a successfully applied batch, wrapping the rendered diff.
pub open spec fn edit_result_message(path: Seq<char>, first_changed: int, diff: Seq<char>) -> Seq<
    char,
> {
    "Edit applied successfully (first change at line "@ + dec_digits(first_changed)
        + ").\n\n<diff>\n--- "@ + path + "\n+++ "@ + path + "\n"@ + diff + "\n</diff>"@
}

/// Builds the message reported after a batch is applied and written.
pub fn render_edit_result(path: &str, first_changed: usize, diff: &str) -> (r: String)
    ensures
        r@ == edit_result_message(path@, first_changed as int, diff@),
{
    let mut out = String::new();
    out.append("Edit applied successfully (first change at line ");
    push_usize(&mut out, first_changed);
    out.append(").\n\n<diff>\n--- ");
    out.append(path);
    out.append("\n+++ ");
    out.append(path);
    out.append("\n");
    out.append(diff);
    out.append("\n</diff>");
    proof {
        assert(out@ =~= edit_result_message(path@, first_changed as int, diff@));
    }
    out
}

impl ApplyError {
    /// The text shown for a rejected batch, as the underlying fault words
    /// itself: the structural faults one per line, the stale-anchor report,
    /// or the collision listing.
    pub fn render(&self) -> (r: String)
        ensures
            r@ == match self {
                ApplyError::Validation { issues } => issues_text(issues@),
                ApplyError::Mismatch { err } => mismatch_report(
                    mm_views(err.mismatches@),
                    views_of(err.file_lines@),
                ),
                ApplyError::Overlap { pairs } => (
                "Overlapping edits detected. Combine overlapping edits into a single operation:\n"@
                    + pairs_text(pairs@)),
            },
    {
        match self {
            ApplyError::Validation { issues } => {
                let mut out = String::new();
                let mut i: usize = 0;
                while i < issues.len()
                    invariant
                        i <= issues@.len(),
                        i == 0 ==> out@ == Seq::<char>::empty(),
                        i > 0 ==> out@ == issues_text(issues@.take(i as int)),
                    decreases issues@.len() - i,
                {
                    if i > 0 {
                        out.append("\n");
                    }
                    push_issue(&mut out, &issues[i]);
                    proof {
                        let t = issues@.take(i + 1 as int);
                        assert(t.drop_last() =~= issues@.take(i as int));
                        assert(t.last() == issues@[i as int]);
                        if i == 0 {
                            assert(out@ =~= issues_text(t));
                        }
                    }
                    i = i + 1;
                }
                proof {
                    if issues@.len() > 0 {
                        assert(issues@.take(issues@.len() as int) =~= issues@);
                    } else {
                        assert(out@ =~= issues_text(issues@));
                    }
                }
                out
            },
            ApplyError::Mismatch { err } => err.render(),
            ApplyError::Overlap { pairs } => {
                let mut out = String::new();
                out.append(
                    "Overlapping edits detected. Combine overlapping edits into a single operation:\n",
                );
                let ghost head = out@;
                let mut i: usize = 0;
                while i < pairs.len()
                    invariant
                        head
                            == "Overlapping edits detected. Combine overlapping edits into a single operation:\n"@,
                        i <= pairs@.len(),
                        i == 0 ==> out@ == head,
                        i > 0 ==> out@ == head + pairs_text(pairs@.take(i as int)),
                    decreases pairs@.len() - i,
                {
                    if i > 0 {
                        out.append("\n");
                    }
                    push_pair(&mut out, &pairs[i]);
                    proof {
                        let t = pairs@.take(i + 1 as int);
                        assert(t.drop_last() =~= pairs@.take(i as int));
                        assert(t.last() == pairs@[i as int]);
                        if i == 0 {
                            assert(out@ =~= head + pairs_text(t));
                        }
                    }
                    i = i + 1;
                }
                proof {
                    if pairs@.len() > 0 {
                        assert(pairs@.take(pairs@.len() as int) =~= pairs@);
                    } else {
                        assert(out@ =~= head + pairs_text(pairs@));
                    }
                }
                out
            },
        }
    }
}

/// Whether `x` occurs among the integers of `s`.
pub open spec fn seq_has(s: Seq<int>, x: int) -> bool {
    exists|k: int| 0 <= k < s.len() && s[k] == x
}

/// What the line diff of two texts yields: the 1-based line numbers
/// inserted in the new text and those deleted from the old text, a
/// deterministic function of the two texts alone.
pub uninterp spec fn line_diff_of(old: Seq<char>, new: Seq<char>) -> (Seq<int>, Seq<int>);

/// Relies on similar::TextDiff::from_lines and its change iterator: yields
/// the 1-based line numbers inserted in the new text and deleted from the
/// old text; the diff is a deterministic function of the two texts.
#[verifier::external_body]
fn line_diff(old: &str, new: &str) -> (r: (Vec<usize>, Vec<usize>))
    ensures
        (ints_of(r.0@), ints_of(r.1@)) == line_diff_of(old@, new@),
        forall|k: int| 0 <= k < r.0@.len() ==> 1 <= #[trigger] r.0@[k],
        forall|k: int| 0 <= k < r.1@.len() ==> 1 <= #[trigger] r.1@[k],
{
    let diff = similar::TextDiff::from_lines(old, new);
    let mut ins: Vec<usize> = Vec::new();
    let mut del: Vec<usize> = Vec::new();
    for change in diff.iter_all_changes() {
        match change.tag() {
            similar::ChangeTag::Insert => if let Some(i) = change.new_index() {
                ins.push(i + 1)
            },
            similar::ChangeTag::Delete => if let Some(i) = change.old_index() {
                del.push(i + 1)
            },
            similar::ChangeTag::Equal => {},
        }
    }
    (ins, del)
}

/// `x` placed into the ascending `s`, after any equal elements.
pub open spec fn insert_asc(x: int, s: Seq<int>) -> Seq<int>
    decreases s.len(),
{
    if s.len() == 0 {
        seq![x]
    } else if x < s.first() {
        seq![x] + s
    } else {
        seq![s.first()] + insert_asc(x, s.skip(1))
    }
}

/// The integers in ascending order.
pub open spec fn sort_asc(s: Seq<int>) -> Seq<int>
    decreases s.len(),
{
    if s.len() == 0 {
        s
    } else {
        insert_asc(s.last(), sort_asc(s.drop_last()))
    }
}

/// The display window around one changed line: five lines either side,
/// clamped to the file.
pub open spec fn window_of(l: int, total: int) -> (int, int) {
    (crate::edit::max_i(l - 5, 1), crate::edit::min_i(l + 5, total))
}

/// The windows of the changed lines, in ascending order of the lines.
pub open spec fn windows_of(sorted: Seq<int>, total: int) -> Seq<(int, int)> {
    sorted.map_values(|l: int| window_of(l, total))
}

/// `r` taken into the ordered windows collected so far: merged into the last
/// when it overlaps or touches it, appended otherwise.
pub open spec fn merge_step(acc: Seq<(int, int)>, r: (int, int)) -> Seq<(int, int)> {
    if acc.len() > 0 && r.0 <= acc.last().1 + 1 {
        acc.update(acc.len() - 1, (acc.last().0, crate::edit::max_i(acc.last().1, r.1)))
    } else {
        acc.push(r)
    }
}

/// Overlapping and adjacent windows merged, front to back.
pub open spec fn merge_ranges(rs: Seq<(int, int)>) -> Seq<(int, int)>
    decreases rs.len(),
{
    if rs.len() == 0 {
        Seq::empty()
    } else {
        merge_step(merge_ranges(rs.drop_last()), rs.last())
    }
}

/// The display windows of a change report: the merged windows of the changed
/// lines, or one window around the first changed line when the diff reports
/// no insertions.
pub open spec fn diff_ranges(ins: Seq<int>, total: int, first_changed: int) -> Seq<(int, int)> {
    let m = merge_ranges(windows_of(sort_asc(ins), total));
    if m.len() == 0 {
        seq![window_of(first_changed, total)]
    } else {
        m
    }
}

/// The report entries for one displayed line: the old text with a deletion
/// marker where the line was deleted, and the new text with its fresh
/// fingerprint and an insertion or context marker.
pub open spec fn line_entries(
    old_lines: Seq<Seq<char>>,
    new_lines: Seq<Seq<char>>,
    hs: Seq<Seq<char>>,
    ins: Seq<int>,
    del: Seq<int>,
    ln: int,
) -> Seq<Seq<char>> {
    (if seq_has(del, ln) {
        seq![
            "-"@ + dec_digits(ln) + "#  :"@ + (if ln <= old_lines.len() {
                old_lines[ln - 1]
            } else {
                Seq::empty()
            }),
        ]
    } else {
        Seq::<Seq<char>>::empty()
    }) + (if seq_has(ins, ln) || !seq_has(del, ln) {
        seq![
            (if seq_has(ins, ln) {
                "+"@
            } else {
                " "@
            }) + dec_digits(ln) + "#"@ + hs[ln - 1] + ":"@ + new_lines[ln - 1],
        ]
    } else {
        Seq::<Seq<char>>::empty()
    })
}

/// The report entries of the lines `ln ..= hi` of one window.
pub open spec fn range_entries(
    old_lines: Seq<Seq<char>>,
    new_lines: Seq<Seq<char>>,
    hs: Seq<Seq<char>>,
    ins: Seq<int>,
    del: Seq<int>,
    ln: int,
    hi: int,
) -> Seq<Seq<char>>
    decreases hi + 1 - ln,
{
    if ln > hi {
        Seq::empty()
    } else {
        line_entries(old_lines, new_lines, hs, ins, del, ln) + range_entries(
            old_lines,
            new_lines,
            hs,
            ins,
            del,
            ln + 1,
            hi,
        )
    }
}

/// The report entries of all windows, with an ellipsis entry between
/// non-adjacent windows.
pub open spec fn windows_entries(
    old_lines: Seq<Seq<char>>,
    new_lines: Seq<Seq<char>>,
    hs: Seq<Seq<char>>,
    ins: Seq<int>,
    del: Seq<int>,
    rs: Seq<(int, int)>,
    prev_end: int,
) -> Seq<Seq<char>>
    decreases rs.len(),
{
    if rs.len() == 0 {
        Seq::empty()
    } else {
        (if prev_end > 0 && rs.first().0 > prev_end + 1 {
            seq!["..."@]
        } else {
            Seq::<Seq<char>>::empty()
        }) + range_entries(old_lines, new_lines, hs, ins, del, rs.first().0, rs.first().1)
            + windows_entries(old_lines, new_lines, hs, ins, del, rs.skip(1), rs.first().1)
    }
}

/// The whole change report: the windowed annotated lines, then a standing
/// note that later fingerprints are stale, joined one entry per line.
pub open spec fn diff_report(
    old_c: Seq<char>,
    new_c: Seq<char>,
    ins: Seq<int>,
    del: Seq<int>,
    first_changed: int,
) -> Seq<char> {
    let old_lines = lines_of(old_c);
    let new_lines = lines_of(new_c);
    let hs = chain_hashes(new_lines);
    let entries = windows_entries(
        old_lines,
        new_lines,
        hs,
        ins,
        del,
        diff_ranges(ins, new_lines.len() as int, first_changed),
        0,
    ) + seq![
        Seq::<char>::empty(),
        "Note: Lines after edited regions have stale hashes. Use hashread to refresh."@,
    ];
    crate::strutil::join_nl(entries)
}

fn seq_has_exec(v: &Vec<usize>, x: usize) -> (r: bool)
    ensures
        r == seq_has(ints_of(v@), x as int),
{
    let mut k: usize = 0;
    while k < v.len()
        invariant
            k <= v@.len(),
            forall|z: int| 0 <= z < k ==> #[trigger] v@[z] != x,
        decreases v@.len() - k,
    {
        if v[k] == x {
            proof {
                assert(ints_of(v@)[k as int] == v@[k as int] as int);
            }
            return true;
        }
        k = k + 1;
    }
    proof {
        assert forall|z: int| 0 <= z < ints_of(v@).len() implies ints_of(v@)[z] != x as int by {
            assert(ints_of(v@)[z] == v@[z] as int);
        }
    }
    false
}

fn insert_asc_exec(v: &mut Vec<usize>, x: usize)
    ensures
        ints_of(final(v)@) == insert_asc(x as int, ints_of(old(v)@)),
{
    let ghost vs = ints_of(v@);
    let mut p: usize = 0;
    proof {
        assert(vs.take(0) =~= Seq::<int>::empty());
        assert(vs.skip(0) =~= vs);
        assert(insert_asc(x as int, vs) =~= vs.take(0) + insert_asc(x as int, vs.skip(0)));
    }
    loop
        invariant_except_break
            vs == ints_of(v@),
            p <= v@.len(),
            insert_asc(x as int, vs) == vs.take(p as int) + insert_asc(x as int, vs.skip(p as int)),
        ensures
            p <= v@.len(),
            vs == ints_of(v@),
            insert_asc(x as int, vs) == vs.take(p as int) + seq![x as int] + vs.skip(p as int),
        decreases v@.len() - p,
    {
        if p >= v.len() {
            proof {
                assert(vs.skip(p as int) =~= Seq::<int>::empty());
                assert(insert_asc(x as int, vs) =~= vs.take(p as int) + seq![x as int] + vs.skip(
                    p as int,
                ));
            }
            break;
        }
        proof {
            assert(vs[p as int] == v@[p as int] as int);
            assert(vs.skip(p as int).first() == vs[p as int]);
        }
        if x < v[p] {
            proof {
                assert(insert_asc(x as int, vs.skip(p as int)) == seq![x as int] + vs.skip(
                    p as int,
                ));
                assert(insert_asc(x as int, vs) =~= vs.take(p as int) + seq![x as int] + vs.skip(
                    p as int,
                ));
            }
            break;
        }
        proof {
            assert(insert_asc(x as int, vs.skip(p as int)) == seq![vs[p as int]] + insert_asc(
                x as int,
                vs.skip(p as int).skip(1),
            ));
            assert(vs.skip(p as int).skip(1) =~= vs.skip(p + 1 as int));
            assert(vs.take(p as int) + seq![vs[p as int]] =~= vs.take(p + 1 as int));
            assert(insert_asc(x as int, vs) =~= vs.take(p + 1 as int) + insert_asc(
                x as int,
                vs.skip(p + 1 as int),
            ));
        }
        p = p + 1;
    }
    v.insert(p, x);
    proof {
        assert(ints_of(v@) =~= vs.take(p as int) + seq![x as int] + vs.skip(p as int));
    }
}

/// The verified assembly of a change report from the diff's outcome: windows
/// around the changed lines, each shown line annotated with its fresh
/// fingerprint, deletions marked against the old text.
#[verifier::rlimit(100)]
pub fn render_diff_lines(
    old_lines: &Vec<String>,
    new_lines: &Vec<String>,
    hashes: &Vec<String>,
    ins: &Vec<usize>,
    del: &Vec<usize>,
    first_changed: usize,
) -> (r: String)
    requires
        views_of(hashes@) == chain_hashes(views_of(new_lines@)),
        forall|k: int| 0 <= k < ins@.len() ==> 1 <= #[trigger] ins@[k],
        forall|k: int| 0 <= k < del@.len() ==> 1 <= #[trigger] del@[k],
    ensures
        r@ == crate::strutil::join_nl(
            windows_entries(
                views_of(old_lines@),
                views_of(new_lines@),
                chain_hashes(views_of(new_lines@)),
                ints_of(ins@),
                ints_of(del@),
                diff_ranges(
                    ints_of(ins@),
                    views_of(new_lines@).len() as int,
                    first_changed as int,
                ),
                0,
            ) + seq![
                Seq::<char>::empty(),
                "Note: Lines after edited regions have stale hashes. Use hashread to refresh."@,
            ],
        ),
{
    let ghost olv = views_of(old_lines@);
    let ghost nlv = views_of(new_lines@);
    let ghost hsv = chain_hashes(nlv);
    let ghost insv = ints_of(ins@);
    let ghost delv = ints_of(del@);
    let total = new_lines.len();
    proof {
        lemma_chain_hashes_len(nlv);
    }
    let mut sorted: Vec<usize> = Vec::new();
    let mut si: usize = 0;
    proof {
        assert(insv.take(0) =~= Seq::<int>::empty());
        assert(ints_of(sorted@) =~= sort_asc(insv.take(0)));
    }
    while si < ins.len()
        invariant
            insv == ints_of(ins@),
            si <= ins@.len(),
            ints_of(sorted@) == sort_asc(insv.take(si as int)),
            forall|k: int| 0 <= k < ins@.len() ==> 1 <= #[trigger] ins@[k],
        decreases ins@.len() - si,
    {
        proof {
            assert(insv[si as int] == ins@[si as int] as int);
            let t = insv.take(si + 1 as int);
            assert(t.drop_last() =~= insv.take(si as int));
            assert(t.last() == insv[si as int]);
        }
        insert_asc_exec(&mut sorted, ins[si]);
        si = si + 1;
    }
    proof {
        assert(insv.take(ins@.len() as int) =~= insv);
    }
    let mut ranges: Vec<(usize, usize)> = Vec::new();
    let ghost sortedv = sort_asc(insv);
    let mut ri: usize = 0;
    proof {
        assert(windows_of(sortedv, total as int).take(0) =~= Seq::<(int, int)>::empty());
        assert(ranges_ints(ranges@) =~= merge_ranges(windows_of(sortedv, total as int).take(0)));
    }
    while ri < sorted.len()
        invariant
            sortedv == ints_of(sorted@),
            total == nlv.len(),
            ri <= sorted@.len(),
            ranges_ints(ranges@) == merge_ranges(windows_of(sortedv, total as int).take(ri as int)),
            forall|k: int|
                0 <= k < ranges@.len() ==> 1 <= (#[trigger] ranges@[k]).0 && ranges@[k].1 <= total,
        decreases sorted@.len() - ri,
    {
        let l = sorted[ri];
        proof {
            assert(sortedv[ri as int] == sorted@[ri as int] as int);
            let wt = windows_of(sortedv, total as int);
            assert(wt.take(ri + 1 as int).drop_last() =~= wt.take(ri as int));
            assert(wt.take(ri + 1 as int).last() == wt[ri as int]);
            assert(wt[ri as int] == window_of(sortedv[ri as int], total as int));
        }
        let lo: usize = if l >= 6 {
            l - 5
        } else {
            1
        };
        let hi: usize = match l.checked_add(5) {
            Option::Some(h) => if h < total {
                h
            } else {
                total
            },
            Option::None => total,
        };
        let last_hi: Option<usize> = if ranges.len() > 0 {
            Some(ranges[ranges.len() - 1].1)
        } else {
            None
        };
        let merged: bool = match last_hi {
            Option::Some(le) => lo <= le || (le < usize::MAX && lo <= le + 1),
            Option::None => false,
        };
        if merged {
            let idx = ranges.len() - 1;
            let cur = ranges[idx];
            let nhi: usize = if cur.1 > hi {
                cur.1
            } else {
                hi
            };
            ranges.set(idx, (cur.0, nhi));
            proof {
                assert(ranges_ints(ranges@) =~= merge_step(
                    ranges_ints(ranges@).take(ranges@.len() - 1).push(
                        (cur.0 as int, cur.1 as int),
                    ),
                    (lo as int, hi as int),
                ));
                assert(ranges_ints(ranges@) =~= merge_ranges(
                    windows_of(sortedv, total as int).take(ri + 1 as int),
                ));
            }
        } else {
            let ghost prevr = ranges_ints(ranges@);
            ranges.push((lo, hi));
            proof {
                assert(ranges_ints(ranges@) =~= prevr.push((lo as int, hi as int)));
                assert(ranges_ints(ranges@) =~= merge_ranges(
                    windows_of(sortedv, total as int).take(ri + 1 as int),
                ));
            }
        }
        ri = ri + 1;
    }
    proof {
        assert(windows_of(sortedv, total as int).take(sorted@.len() as int) =~= windows_of(
            sortedv,
            total as int,
        ));
    }
    if ranges.len() == 0 {
        let lo: usize = if first_changed >= 6 {
            first_changed - 5
        } else {
            1
        };
        let hi: usize = match first_changed.checked_add(5) {
            Option::Some(h) => if h < total {
                h
            } else {
                total
            },
            Option::None => total,
        };
        ranges.push((lo, hi));
        proof {
            assert(ranges_ints(ranges@) =~= seq![
                window_of(first_changed as int, total as int),
            ]);
        }
    }
    let ghost rsv = diff_ranges(insv, total as int, first_changed as int);
    proof {
        assert(ranges_ints(ranges@) == rsv);
    }
    let mut entries: Vec<String> = Vec::new();
    let mut prev_end: usize = 0;
    let mut w: usize = 0;
    let ghost tail_entries = seq![
        Seq::<char>::empty(),
        "Note: Lines after edited regions have stale hashes. Use hashread to refresh."@,
    ];
    let ghost full = windows_entries(olv, nlv, hsv, insv, delv, rsv, 0);
    proof {
        assert(rsv.skip(0) =~= rsv);
    }
    while w < ranges.len()
        invariant
            olv == views_of(old_lines@),
            nlv == views_of(new_lines@),
            hsv == chain_hashes(nlv),
            views_of(hashes@) == hsv,
            hashes@.len() == nlv.len(),
            old_lines@.len() == olv.len(),
            new_lines@.len() == nlv.len(),
            insv == ints_of(ins@),
            delv == ints_of(del@),
            total == nlv.len(),
            rsv == ranges_ints(ranges@),
            w <= ranges@.len(),
            forall|k: int|
                0 <= k < ranges@.len() ==> 1 <= (#[trigger] ranges@[k]).0 && ranges@[k].1 <= total,
            full == views_of(entries@) + windows_entries(
                olv,
                nlv,
                hsv,
                insv,
                delv,
                rsv.skip(w as int),
                prev_end as int,
            ),
            w == 0 ==> prev_end == 0,
            w > 0 ==> prev_end as int == rsv[w - 1].1,
        decreases ranges@.len() - w,
    {
        let (lo, hi) = ranges[w];
        proof {
            assert(rsv[w as int] == (ranges@[w as int].0 as int, ranges@[w as int].1 as int));
            assert(rsv.skip(w as int).first() == rsv[w as int]);
            assert(rsv.skip(w as int).skip(1) =~= rsv.skip(w + 1 as int));
        }
        if prev_end > 0 && lo > 0 && lo - 1 > prev_end {
            let ghost preve = views_of(entries@);
            entries.push(String::from_str("..."));
            proof {
                assert(views_of(entries@) =~= preve.push("..."@));
            }
        }
        let mut z: usize = lo - 1;
        while z < hi
            invariant
                olv == views_of(old_lines@),
                nlv == views_of(new_lines@),
                hsv == chain_hashes(nlv),
                views_of(hashes@) == hsv,
                hashes@.len() == nlv.len(),
                old_lines@.len() == olv.len(),
                new_lines@.len() == nlv.len(),
                insv == ints_of(ins@),
                delv == ints_of(del@),
                total == nlv.len(),
                1 <= lo,
                hi <= total,
                lo - 1 <= z,
                z <= hi || z == lo - 1,
                full == views_of(entries@) + range_entries(
                    olv,
                    nlv,
                    hsv,
                    insv,
                    delv,
                    z + 1 as int,
                    hi as int,
                ) + windows_entries(
                    olv,
                    nlv,
                    hsv,
                    insv,
                    delv,
                    rsv.skip(w + 1 as int),
                    hi as int,
                ),
            decreases hi - z,
        {
            let ln = z + 1;
            let was_deleted = seq_has_exec(del, ln);
            let was_inserted = seq_has_exec(ins, ln);
            if was_deleted {
                let mut e = String::new();
                e.append("-");
                push_usize(&mut e, ln);
                e.append("#  :");
                if ln <= old_lines.len() {
                    e.append(old_lines[ln - 1].as_str());
                    proof {
                        assert(old_lines@[ln - 1]@ == olv[ln - 1]);
                    }
                }
                let ghost preve = views_of(entries@);
                entries.push(e);
                proof {
                    assert(views_of(entries@) =~= preve.push(entries@.last()@));
                }
            }
            if was_inserted || !was_deleted {
                let mut e = String::new();
                if was_inserted {
                    e.append("+");
                } else {
                    e.append(" ");
                }
                push_usize(&mut e, ln);
                e.append("#");
                e.append(hashes[ln - 1].as_str());
                e.append(":");
                e.append(new_lines[ln - 1].as_str());
                proof {
                    assert(hashes@[ln - 1]@ == hsv[ln - 1]);
                    assert(new_lines@[ln - 1]@ == nlv[ln - 1]);
                }
                let ghost preve = views_of(entries@);
                entries.push(e);
                proof {
                    assert(views_of(entries@) =~= preve.push(entries@.last()@));
                }
            }
            proof {
                assert(range_entries(olv, nlv, hsv, insv, delv, ln as int, hi as int)
                    =~= line_entries(olv, nlv, hsv, insv, delv, ln as int) + range_entries(
                    olv,
                    nlv,
                    hsv,
                    insv,
                    delv,
                    ln + 1 as int,
                    hi as int,
                ));
            }
            z = z + 1;
        }
        prev_end = hi;
        w = w + 1;
    }
    proof {
        assert(rsv.skip(ranges@.len() as int) =~= Seq::<(int, int)>::empty());
        assert(full =~= views_of(entries@));
    }
    entries.push(String::new());
    entries.push(
        String::from_str(
            "Note: Lines after edited regions have stale hashes. Use hashread to refresh.",
        ),
    );
    let r = crate::strutil::join_lines(&entries);
    proof {
        assert(views_of(entries@) =~= full + tail_entries);
    }
    r
}

/// The pairs of a vector, as integer pairs.
pub open spec fn ranges_ints(s: Seq<(usize, usize)>) -> Seq<(int, int)> {
    s.map_values(|p: (usize, usize)| (p.0 as int, p.1 as int))
}

/// Renders the fingerprint-aware summary of an applied batch: a line diff of
/// the old and new text locates the changes, and the verified assembly
/// windows and annotates them.
pub fn generate_hash_aware_diff(old_content: &str, new_content: &str, first_changed_line: usize) -> (r:
    String)
    ensures
        r@ == diff_report(
            old_content@,
            new_content@,
            line_diff_of(old_content@, new_content@).0,
            line_diff_of(old_content@, new_content@).1,
            first_changed_line as int,
        ),
{
    let (ins, del) = line_diff(old_content, new_content);
    let old_lines = split_lines(old_content);
    let new_lines = split_lines(new_content);
    let hashes = compute_chain_hashes(&new_lines);
    let r = render_diff_lines(&old_lines, &new_lines, &hashes, &ins, &del, first_changed_line);
    proof {
        assert(r@ == diff_report(
            old_content@,
            new_content@,
            ints_of(ins@),
            ints_of(del@),
            first_changed_line as int,
        ));
    }
    r
}

} // verus!
