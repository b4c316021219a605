use vstd::prelude::*;
use crate::anchor::AnchorModel;
use crate::anchor::AnchorRef;
use crate::strutil::ends_nl;
use crate::strutil::join_nl;
use crate::strutil::lines_of;
use crate::strutil::views_of;

verus! {

/// One line-anchored edit: replace one line or an inclusive range, insert
/// after a line (or at end of file), or insert before a line (or at start of
/// file).
#[derive(Debug, Clone)]
pub enum HashlineEdit {
    Replace { pos: AnchorRef, end: Option<AnchorRef>, lines: Vec<String> },
    Append { pos: Option<AnchorRef>, lines: Vec<String> },
    Prepend { pos: Option<AnchorRef>, lines: Vec<String> },
}

/// The mathematical content of a `HashlineEdit`.
pub enum EditModel {
    Replace { pos: AnchorModel, end: Option<AnchorModel>, lines: Seq<Seq<char>> },
    Append { pos: Option<AnchorModel>, lines: Seq<Seq<char>> },
    Prepend { pos: Option<AnchorModel>, lines: Seq<Seq<char>> },
}

impl View for HashlineEdit {
    type V = EditModel;

    open spec fn view(&self) -> EditModel {
        match self {
            HashlineEdit::Replace { pos, end, lines } => EditModel::Replace {
                pos: pos@,
                end: match end {
                    Option::Some(e) => Option::Some(e@),
                    Option::None => Option::None,
                },
                lines: views_of(lines@),
            },
            HashlineEdit::Append { pos, lines } => EditModel::Append {
                pos: match pos {
                    Option::Some(p) => Option::Some(p@),
                    Option::None => Option::None,
                },
                lines: views_of(lines@),
            },
            HashlineEdit::Prepend { pos, lines } => EditModel::Prepend {
                pos: match pos {
                    Option::Some(p) => Option::Some(p@),
                    Option::None => Option::None,
                },
                lines: views_of(lines@),
            },
        }
    }
}

/// A structural fault found while validating a batch, before any fingerprint
/// is compared.
#[derive(Debug, Clone, Copy, PartialEq, Eq, Structural)]
pub enum ValidationIssue {
    RangeInverted { start: usize, end: usize },
    LineZero { line: usize },
    LineBeyond { line: usize, file_len: usize },
}

/// A fingerprint that no longer matches the line it points at.
#[derive(Debug, Clone)]
pub struct HashMismatch {
    pub line: usize,
    pub expected: String,
    pub actual: String,
}

/// The mathematical content of a `HashMismatch`.
pub struct MismatchModel {
    pub line: int,
    pub expected: Seq<char>,
    pub actual: Seq<char>,
}

impl View for HashMismatch {
    type V = MismatchModel;

    open spec fn view(&self) -> MismatchModel {
        MismatchModel { line: self.line as int, expected: self.expected@, actual: self.actual@ }
    }
}

/// The stale anchors of a rejected batch, together with the file's lines so a
/// report can show the corrected references in context.
#[derive(Debug)]
pub struct HashlineMismatchError {
    pub mismatches: Vec<HashMismatch>,
    pub file_lines: Vec<String>,
}

/// The operation an edit performs, for reports.
#[derive(Debug, Clone, Copy, PartialEq, Eq, Structural)]
pub enum OpKind {
    Replace,
    Append,
    Prepend,
}

/// One pair of colliding edits: their positions in the deduplicated batch,
/// their operations, and the line ranges they touch. The ranges are held
/// wide enough that an insertion's reach never wraps.
#[derive(Debug, Clone, Copy, PartialEq, Eq, Structural)]
pub struct OverlapPair {
    pub first_at: usize,
    pub first_op: OpKind,
    pub first_lo: u128,
    pub first_hi: u128,
    pub second_at: usize,
    pub second_op: OpKind,
    pub second_lo: u128,
    pub second_hi: u128,
}

/// Why a batch was rejected: a structural fault, a stale fingerprint, or two
/// edits whose line ranges collide. Nothing is applied in any of these cases.
#[derive(Debug)]
pub enum ApplyError {
    Validation { issues: Vec<ValidationIssue> },
    Mismatch { err: HashlineMismatchError },
    Overlap { pairs: Vec<OverlapPair> },
}

/// The structural faults of one anchor against a file of `nlines` lines.
pub open spec fn anchor_issues(a: AnchorModel, nlines: int) -> Seq<ValidationIssue> {
    if a.line < 1 {
        seq![ValidationIssue::LineZero { line: a.line as usize }]
    } else if a.line > nlines {
        seq![ValidationIssue::LineBeyond { line: a.line as usize, file_len: nlines as usize }]
    } else {
        Seq::empty()
    }
}

/// The structural faults of one edit, in the order validation reports them.
pub open spec fn edit_structural(e: EditModel, nlines: int) -> Seq<ValidationIssue> {
    match e {
        EditModel::Replace { pos, end, .. } => (match end {
            Option::Some(en) => if pos.line > en.line {
                seq![
                    ValidationIssue::RangeInverted {
                        start: pos.line as usize,
                        end: en.line as usize,
                    },
                ]
            } else {
                Seq::empty()
            },
            Option::None => Seq::empty(),
        }) + anchor_issues(pos, nlines) + (match end {
            Option::Some(en) => anchor_issues(en, nlines),
            Option::None => Seq::empty(),
        }),
        EditModel::Append { pos, .. } => match pos {
            Option::Some(p) => anchor_issues(p, nlines),
            Option::None => Seq::empty(),
        },
        EditModel::Prepend { pos, .. } => match pos {
            Option::Some(p) => anchor_issues(p, nlines),
            Option::None => Seq::empty(),
        },
    }
}

/// The structural faults of a whole batch, in submission order.
pub open spec fn batch_structural(es: Seq<EditModel>, nlines: int) -> Seq<ValidationIssue>
    decreases es.len(),
{
    if es.len() == 0 {
        Seq::empty()
    } else {
        batch_structural(es.drop_last(), nlines) + edit_structural(es.last(), nlines)
    }
}

/// The stale-fingerprint record of one anchor, empty when the anchor is out
/// of range or its fingerprint agrees with the current one in `hs`.
pub open spec fn anchor_mismatch(a: AnchorModel, hs: Seq<Seq<char>>) -> Seq<MismatchModel> {
    if 1 <= a.line <= hs.len() && hs[a.line - 1] != a.hash {
        seq![MismatchModel { line: a.line, expected: a.hash, actual: hs[a.line - 1] }]
    } else {
        Seq::empty()
    }
}

/// The stale-fingerprint records of one edit, in validation order.
pub open spec fn edit_mismatches(e: EditModel, hs: Seq<Seq<char>>) -> Seq<MismatchModel> {
    match e {
        EditModel::Replace { pos, end, .. } => anchor_mismatch(pos, hs) + (match end {
            Option::Some(en) => anchor_mismatch(en, hs),
            Option::None => Seq::empty(),
        }),
        EditModel::Append { pos, .. } => match pos {
            Option::Some(p) => anchor_mismatch(p, hs),
            Option::None => Seq::empty(),
        },
        EditModel::Prepend { pos, .. } => match pos {
            Option::Some(p) => anchor_mismatch(p, hs),
            Option::None => Seq::empty(),
        },
    }
}

/// The stale-fingerprint records of a whole batch against the file's chained
/// fingerprints, in submission order.
pub open spec fn batch_mismatches(es: Seq<EditModel>, hs: Seq<Seq<char>>) -> Seq<MismatchModel>
    decreases es.len(),
{
    if es.len() == 0 {
        Seq::empty()
    } else {
        batch_mismatches(es.drop_last(), hs) + edit_mismatches(es.last(), hs)
    }
}

/// Whether two edits target the identical location with identical replacement
/// content, so that the second is dropped as a duplicate.
pub open spec fn edit_key_eq(a: EditModel, b: EditModel) -> bool {
    match (a, b) {
        (
            EditModel::Replace { pos: p1, end: e1, lines: l1 },
            EditModel::Replace { pos: p2, end: e2, lines: l2 },
        ) => p1.line == p2.line && ((e1 is Some) <==> (e2 is Some)) && ((e1 is Some && e2
            is Some) ==> e1->0.line == e2->0.line) && join_nl(l1) == join_nl(l2),
        (
            EditModel::Append { pos: p1, lines: l1 },
            EditModel::Append { pos: p2, lines: l2 },
        ) => ((p1 is Some) <==> (p2 is Some)) && ((p1 is Some && p2 is Some) ==> p1->0.line
            == p2->0.line) && join_nl(l1) == join_nl(l2),
        (
            EditModel::Prepend { pos: p1, lines: l1 },
            EditModel::Prepend { pos: p2, lines: l2 },
        ) => ((p1 is Some) <==> (p2 is Some)) && ((p1 is Some && p2 is Some) ==> p1->0.line
            == p2->0.line) && join_nl(l1) == join_nl(l2),
        _ => false,
    }
}

/// The batch with duplicates dropped: an edit stays only when no earlier edit
/// has the same key.
pub open spec fn dedup_edits(es: Seq<EditModel>) -> Seq<EditModel>
    decreases es.len(),
{
    if es.len() == 0 {
        es
    } else {
        let front = dedup_edits(es.drop_last());
        if exists|j: int| 0 <= j < es.len() - 1 && edit_key_eq(es[j], es.last()) {
            front
        } else {
            front.push(es.last())
        }
    }
}

/// The reference line of an optional anchor, with a default.
pub open spec fn opt_line(p: Option<AnchorModel>, dflt: int) -> int {
    match p {
        Option::Some(a) => a.line,
        Option::None => dflt,
    }
}

/// The 1-based inclusive interval of lines an edit affects, or nothing for an
/// insertion that carries no lines.
pub open spec fn edit_interval(e: EditModel, file_len: int) -> Option<(int, int)> {
    match e {
        EditModel::Replace { pos, end, .. } => Option::Some(
            (pos.line, match end {
                Option::Some(en) => en.line,
                Option::None => pos.line,
            }),
        ),
        EditModel::Append { pos, lines } => if lines.len() == 0 {
            Option::None
        } else {
            let r = opt_line(pos, file_len);
            Option::Some((r + 1, r + lines.len()))
        },
        EditModel::Prepend { pos, lines } => if lines.len() == 0 {
            Option::None
        } else {
            let r = opt_line(pos, 1);
            Option::Some((r, r + lines.len() - 1))
        },
    }
}

/// Whether `a` is an insertion after a line and `b` an insertion before the
/// same line: the same insertion point approached from the two sides.
pub open spec fn append_prepend_same(a: EditModel, b: EditModel) -> bool {
    &&& a matches EditModel::Append { pos: Option::Some(p), .. }
    &&& b matches EditModel::Prepend { pos: Option::Some(q), .. }
    &&& a->Append_pos->0.line == b->Prepend_pos->0.line
}

/// Whether two edits collide: their intervals intersect, or they insert at
/// the same point from the two sides.
pub open spec fn edits_conflict(a: EditModel, b: EditModel, file_len: int) -> bool {
    match (edit_interval(a, file_len), edit_interval(b, file_len)) {
        (Option::Some(ra), Option::Some(rb)) => !(ra.1 < rb.0 || rb.1 < ra.0)
            || append_prepend_same(a, b) || append_prepend_same(b, a),
        _ => false,
    }
}

/// Whether some two edits of the batch collide.
pub open spec fn has_conflict(es: Seq<EditModel>, file_len: int) -> bool {
    exists|i: int, j: int|
        0 <= i < j < es.len() && edits_conflict(es[i], es[j], file_len)
}

/// The line an edit is ordered by when the batch is applied bottom-up.
pub open spec fn edit_sort_line(e: EditModel, file_len: int) -> int {
    match e {
        EditModel::Replace { pos, end, .. } => match end {
            Option::Some(en) => en.line,
            Option::None => pos.line,
        },
        EditModel::Append { pos, .. } => opt_line(pos, file_len),
        EditModel::Prepend { pos, .. } => opt_line(pos, 0),
    }
}

/// An edit together with its position in the deduplicated batch.
pub struct IndexedModel {
    pub idx: int,
    pub edit: EditModel,
}

/// The application order: higher sort lines first, and of two edits on the
/// same sort line the later-submitted first.
pub open spec fn applied_before(a: IndexedModel, b: IndexedModel, file_len: int) -> bool {
    let la = edit_sort_line(a.edit, file_len);
    let lb = edit_sort_line(b.edit, file_len);
    la > lb || (la == lb && a.idx > b.idx)
}

/// `x` placed into the already ordered `s`.
pub open spec fn insert_sorted(x: IndexedModel, s: Seq<IndexedModel>, file_len: int) -> Seq<
    IndexedModel,
>
    decreases s.len(),
{
    if s.len() == 0 {
        seq![x]
    } else if applied_before(x, s.first(), file_len) {
        seq![x] + s
    } else {
        seq![s.first()] + insert_sorted(x, s.skip(1), file_len)
    }
}

/// The batch in application order.
pub open spec fn sort_edits(s: Seq<IndexedModel>, file_len: int) -> Seq<IndexedModel>
    decreases s.len(),
{
    if s.len() == 0 {
        s
    } else {
        insert_sorted(s.last(), sort_edits(s.drop_last(), file_len), file_len)
    }
}

/// The edits of `es` paired with their positions.
pub open spec fn with_indices(es: Seq<EditModel>) -> Seq<IndexedModel> {
    Seq::new(es.len(), |i: int| IndexedModel { idx: i, edit: es[i] })
}

/// The smaller of two integers.
pub open spec fn min_i(a: int, b: int) -> int {
    if a < b {
        a
    } else {
        b
    }
}

/// The larger of two integers.
pub open spec fn max_i(a: int, b: int) -> int {
    if a < b {
        b
    } else {
        a
    }
}

/// The running lowest changed line, updated with one more changed line.
pub open spec fn upd_first(f: Option<int>, line: int) -> Option<int> {
    match f {
        Option::None => Option::Some(line),
        Option::Some(x) => if line < x {
            Option::Some(line)
        } else {
            f
        },
    }
}

/// `ls` with the lines in `[start, del_to)` replaced by `repl`; the bounds
/// are clamped to the current length so the operation is total.
pub open spec fn splice_at(
    ls: Seq<Seq<char>>,
    start: int,
    del_to: int,
    repl: Seq<Seq<char>>,
) -> Seq<Seq<char>> {
    ls.take(start) + repl + ls.skip(del_to)
}

/// A file of one empty line collapses to nothing before an insertion at the
/// file's edge, so inserting into a blank file does not keep a stray line.
pub open spec fn collapse_blank(ls: Seq<Seq<char>>) -> Seq<Seq<char>> {
    if ls.len() == 1 && ls[0].len() == 0 {
        Seq::empty()
    } else {
        ls
    }
}

/// One edit applied to the current lines, with the running lowest changed
/// line carried along.
pub open spec fn apply_step(ls: Seq<Seq<char>>, e: EditModel, f: Option<int>) -> (
    Seq<Seq<char>>,
    Option<int>,
) {
    let n = ls.len() as int;
    match e {
        EditModel::Replace { pos, end, lines } => {
            let endl = match end {
                Option::Some(en) => en.line,
                Option::None => pos.line,
            };
            let start = min_i(max_i(pos.line - 1, 0), n);
            let del_to = min_i(max_i(pos.line - 1 + (endl - pos.line + 1), start), n);
            (splice_at(ls, start, max_i(del_to, start), lines), upd_first(f, pos.line))
        },
        EditModel::Append { pos, lines } => if lines.len() == 0 {
            (ls, f)
        } else {
            match pos {
                Option::Some(p) => {
                    let k = min_i(max_i(p.line, 0), n);
                    (splice_at(ls, k, k, lines), upd_first(f, min_i(p.line + 1, usize::MAX as int)))
                },
                Option::None => {
                    let base = collapse_blank(ls);
                    (
                        base + lines,
                        upd_first(f, min_i(base.len() as int + 1, usize::MAX as int)),
                    )
                },
            }
        },
        EditModel::Prepend { pos, lines } => if lines.len() == 0 {
            (ls, f)
        } else {
            match pos {
                Option::Some(p) => {
                    let k = min_i(max_i(p.line - 1, 0), n);
                    (splice_at(ls, k, k, lines), upd_first(f, p.line))
                },
                Option::None => {
                    let base = collapse_blank(ls);
                    (lines + base, upd_first(f, 1))
                },
            }
        },
    }
}

/// The whole ordered batch applied to the lines, front to back.
pub open spec fn apply_fold(
    ls: Seq<Seq<char>>,
    s: Seq<IndexedModel>,
    f: Option<int>,
) -> (Seq<Seq<char>>, Option<int>)
    decreases s.len(),
{
    if s.len() == 0 {
        (ls, f)
    } else {
        let step = apply_step(ls, s.first().edit, f);
        apply_fold(step.0, s.skip(1), step.1)
    }
}

/// The final text: the lines joined with line feeds, with the original
/// trailing line feed restored when the result would otherwise lose it.
pub open spec fn restore_nl(joined: Seq<char>, had_nl: bool) -> Seq<char> {
    if had_nl && joined.len() > 0 && joined.last() != '\n' {
        joined.push('\n')
    } else {
        joined
    }
}

/// The mathematical content of a sequence of edits.
pub open spec fn edit_views(s: Seq<HashlineEdit>) -> Seq<EditModel> {
    s.map_values(|e: HashlineEdit| e@)
}

/// The mathematical content of a sequence of mismatch records.
pub open spec fn mm_views(s: Seq<HashMismatch>) -> Seq<MismatchModel> {
    s.map_values(|m: HashMismatch| m@)
}

/// An optional line number as an optional integer.
pub open spec fn opt_int(o: Option<usize>) -> Option<int> {
    match o {
        Option::Some(x) => Option::Some(x as int),
        Option::None => Option::None,
    }
}

/// The operation of an edit.
pub open spec fn op_kind_of(e: EditModel) -> OpKind {
    match e {
        EditModel::Replace { .. } => OpKind::Replace,
        EditModel::Append { .. } => OpKind::Append,
        EditModel::Prepend { .. } => OpKind::Prepend,
    }
}

/// The record of the collision between edits `i` and `j` of the batch.
pub open spec fn conflict_pair(es: Seq<EditModel>, file_len: int, i: int, j: int) -> OverlapPair {
    let ra = edit_interval(es[i], file_len)->0;
    let rb = edit_interval(es[j], file_len)->0;
    OverlapPair {
        first_at: i as usize,
        first_op: op_kind_of(es[i]),
        first_lo: ra.0 as u128,
        first_hi: ra.1 as u128,
        second_at: j as usize,
        second_op: op_kind_of(es[j]),
        second_lo: rb.0 as u128,
        second_hi: rb.1 as u128,
    }
}

/// The collisions of edit `i` with the edits after it and before `j`.
pub open spec fn row_upto(es: Seq<EditModel>, file_len: int, i: int, j: int) -> Seq<OverlapPair>
    decreases j - i,
{
    if j <= i + 1 {
        Seq::empty()
    } else {
        row_upto(es, file_len, i, j - 1) + (if edits_conflict(es[i], es[j - 1], file_len) {
            seq![conflict_pair(es, file_len, i, j - 1)]
        } else {
            Seq::empty()
        })
    }
}

/// The collisions among the first `i` edits, each paired with every later
/// edit of the batch, in report order.
pub open spec fn rows_upto(es: Seq<EditModel>, file_len: int, i: int) -> Seq<OverlapPair>
    decreases i,
{
    if i <= 0 {
        Seq::empty()
    } else {
        rows_upto(es, file_len, i - 1) + row_upto(es, file_len, i - 1, es.len() as int)
    }
}

/// Every collision of the batch, in report order.
pub open spec fn full_pairs(es: Seq<EditModel>, file_len: int) -> Seq<OverlapPair> {
    rows_upto(es, file_len, es.len() as int)
}

proof fn lemma_row_upto_iff(es: Seq<EditModel>, file_len: int, i: int, j: int)
    requires
        0 <= i,
        j <= es.len(),
    ensures
        row_upto(es, file_len, i, j).len() > 0 <==> exists|j2: int|
            i < j2 < j && edits_conflict(es[i], es[j2], file_len),
    decreases j,
{
    if j > i + 1 {
        lemma_row_upto_iff(es, file_len, i, j - 1);
    }
}

pub proof fn lemma_full_pairs_iff(es: Seq<EditModel>, file_len: int, i: int)
    requires
        0 <= i <= es.len(),
    ensures
        rows_upto(es, file_len, i).len() > 0 <==> exists|i2: int, j2: int|
            0 <= i2 < i && i2 < j2 < es.len() && edits_conflict(es[i2], es[j2], file_len),
    decreases i,
{
    if i > 0 {
        lemma_full_pairs_iff(es, file_len, i - 1);
        lemma_row_upto_iff(es, file_len, i - 1, es.len() as int);
    }
}

/// There is a collision exactly when the report of collisions is non-empty.
pub proof fn lemma_conflict_iff_pairs(es: Seq<EditModel>, file_len: int)
    ensures
        has_conflict(es, file_len) <==> full_pairs(es, file_len).len() > 0,
{
    lemma_full_pairs_iff(es, file_len, es.len() as int);
}

/// The lines of the file after a valid batch is deduplicated, ordered
/// bottom-up and applied, with the lowest changed line.
pub open spec fn batch_outcome(content: Seq<char>, es: Seq<EditModel>) -> (
    Seq<Seq<char>>,
    Option<int>,
) {
    let lines = lines_of(content);
    let ded = dedup_edits(es);
    let sorted = sort_edits(with_indices(ded), lines.len() as int);
    apply_fold(lines, sorted, Option::None)
}

/// The text a valid batch produces: the resulting lines joined, with the
/// original trailing line feed kept.
pub open spec fn batch_result_text(content: Seq<char>, es: Seq<EditModel>) -> Seq<char> {
    restore_nl(join_nl(batch_outcome(content, es).0), ends_nl(content))
}

} // verus!
