use vstd::prelude::*;
use vstd::string::StrSliceExecFns;
use crate::anchor::AnchorRef;
use crate::edit::anchor_issues;
use crate::edit::anchor_mismatch;
use crate::edit::append_prepend_same;
use crate::edit::apply_fold;
use crate::edit::apply_step;
use crate::edit::applied_before;
use crate::edit::batch_mismatches;
use crate::edit::batch_outcome;
use crate::edit::batch_result_text;
use crate::edit::batch_structural;
use crate::edit::conflict_pair;
use crate::edit::dedup_edits;
use crate::edit::edit_interval;
use crate::edit::edit_key_eq;
use crate::edit::edit_sort_line;
use crate::edit::edit_structural;
use crate::edit::edit_views;
use crate::edit::edits_conflict;
use crate::edit::full_pairs;
use crate::edit::has_conflict;
use crate::edit::insert_sorted;
use crate::edit::lemma_conflict_iff_pairs;
use crate::edit::mm_views;
use crate::edit::op_kind_of;
use crate::edit::opt_int;
use crate::edit::restore_nl;
use crate::edit::row_upto;
use crate::edit::rows_upto;
use crate::edit::sort_edits;
use crate::edit::splice_at;
use crate::edit::upd_first;
use crate::edit::with_indices;
use crate::edit::ApplyError;
use crate::edit::HashMismatch;
use crate::edit::HashlineEdit;
use crate::edit::HashlineMismatchError;
use crate::edit::IndexedModel;
use crate::edit::OpKind;
use crate::edit::OverlapPair;
use crate::edit::ValidationIssue;
use crate::fingerprint::chain_hashes;
use crate::fingerprint::compute_chain_hashes;
use crate::fingerprint::lemma_chain_hashes_len;
use crate::strutil::ends_nl;
use crate::strutil::join_lines;
use crate::strutil::join_nl;
use crate::strutil::lines_of;
use crate::strutil::split_lines;
use crate::strutil::str_eq;
use crate::strutil::views_of;
use crate::strutil::ends_with_nl;

verus! {

/// A copy of the strings, holding the same characters.
pub fn clone_strings(v: &Vec<String>) -> (r: Vec<String>)
    ensures
        views_of(r@) == views_of(v@),
{
    let mut r: Vec<String> = Vec::new();
    let mut i: usize = 0;
    while i < v.len()
        invariant
            i <= v@.len(),
            r@.len() == i,
            forall|j: int| 0 <= j < i ==> r@[j]@ == v@[j]@,
        decreases v@.len() - i,
    {
        r.push(v[i].clone());
        i = i + 1;
    }
    proof {
        assert(views_of(r@) =~= views_of(v@));
    }
    r
}

/// A copy of the edit, holding the same anchors and lines.
pub fn duplicate_edit(e: &HashlineEdit) -> (r: HashlineEdit)
    ensures
        r@ == e@,
{
    match e {
        HashlineEdit::Replace { pos, end, lines } => {
            let end2: Option<AnchorRef> = match end {
                Option::Some(a) => Some(a.duplicate()),
                Option::None => None,
            };
            HashlineEdit::Replace { pos: pos.duplicate(), end: end2, lines: clone_strings(lines) }
        },
        HashlineEdit::Append { pos, lines } => {
            let pos2: Option<AnchorRef> = match pos {
                Option::Some(a) => Some(a.duplicate()),
                Option::None => None,
            };
            HashlineEdit::Append { pos: pos2, lines: clone_strings(lines) }
        },
        HashlineEdit::Prepend { pos, lines } => {
            let pos2: Option<AnchorRef> = match pos {
                Option::Some(a) => Some(a.duplicate()),
                Option::None => None,
            };
            HashlineEdit::Prepend { pos: pos2, lines: clone_strings(lines) }
        },
    }
}

/// Lowers the running first-changed line to `line` when that is lower.
pub fn track_first_changed(first: &mut Option<usize>, line: usize)
    ensures
        opt_int(*final(first)) == upd_first(opt_int(*old(first)), line as int),
{
    let lower = match first {
        Option::None => true,
        Option::Some(x) => line < *x,
    };
    if lower {
        *first = Some(line);
    }
}

/// Whether two edits target the identical location with identical content.
fn edits_key_matches(a: &HashlineEdit, b: &HashlineEdit) -> (r: bool)
    ensures
        r == edit_key_eq(a@, b@),
{
    match (a, b) {
        (
            HashlineEdit::Replace { pos: p1, end: e1, lines: l1 },
            HashlineEdit::Replace { pos: p2, end: e2, lines: l2 },
        ) => {
            let ends_agree = match (e1, e2) {
                (Option::Some(a1), Option::Some(a2)) => a1.line == a2.line,
                (Option::None, Option::None) => true,
                _ => false,
            };
            ends_agree && p1.line == p2.line && str_eq(
                join_lines(l1).as_str(),
                join_lines(l2).as_str(),
            )
        },
        (
            HashlineEdit::Append { pos: p1, lines: l1 },
            HashlineEdit::Append { pos: p2, lines: l2 },
        ) => {
            let pos_agree = match (p1, p2) {
                (Option::Some(a1), Option::Some(a2)) => a1.line == a2.line,
                (Option::None, Option::None) => true,
                _ => false,
            };
            pos_agree && str_eq(join_lines(l1).as_str(), join_lines(l2).as_str())
        },
        (
            HashlineEdit::Prepend { pos: p1, lines: l1 },
            HashlineEdit::Prepend { pos: p2, lines: l2 },
        ) => {
            let pos_agree = match (p1, p2) {
                (Option::Some(a1), Option::Some(a2)) => a1.line == a2.line,
                (Option::None, Option::None) => true,
                _ => false,
            };
            pos_agree && str_eq(join_lines(l1).as_str(), join_lines(l2).as_str())
        },
        _ => false,
    }
}

/// Drops every edit that repeats an earlier edit's location and content, so
/// a batch submitted twice is applied once.
pub fn deduplicate_edits(edits: &[HashlineEdit], _file_lines: &Vec<String>) -> (r: Vec<
    HashlineEdit,
>)
    ensures
        edit_views(r@) == dedup_edits(edit_views(edits@)),
{
    let ghost em = edit_views(edits@);
    let mut r: Vec<HashlineEdit> = Vec::new();
    let mut i: usize = 0;
    proof {
        assert(edit_views(r@) =~= dedup_edits(em.take(0)));
    }
    while i < edits.len()
        invariant
            em == edit_views(edits@),
            i <= edits@.len(),
            edit_views(r@) == dedup_edits(em.take(i as int)),
        decreases edits@.len() - i,
    {
        let mut dup = false;
        let mut j: usize = 0;
        while j < i
            invariant
                em == edit_views(edits@),
                j <= i < edits@.len(),
                dup == exists|k: int| 0 <= k < j && edit_key_eq(em[k], em[i as int]),
            decreases i - j,
        {
            let m = edits_key_matches(&edits[j], &edits[i]);
            proof {
                assert(em[j as int] == edits@[j as int]@);
                assert(em[i as int] == edits@[i as int]@);
            }
            if m {
                dup = true;
            }
            j = j + 1;
        }
        proof {
            let t = em.take(i + 1 as int);
            assert(t.drop_last() =~= em.take(i as int));
            assert(t.last() == em[i as int]);
            assert(forall|k: int| 0 <= k < i ==> t[k] == em[k]);
        }
        if !dup {
            let ghost prev = edit_views(r@);
            r.push(duplicate_edit(&edits[i]));
            proof {
                assert(edit_views(r@) =~= prev.push(em[i as int]));
            }
        }
        i = i + 1;
    }
    proof {
        assert(em.take(edits@.len() as int) =~= em);
    }
    r
}

/// Checks one anchor against the file: an out-of-range line is recorded as a
/// structural fault, a disagreeing fingerprint as a stale-anchor record.
pub fn validate_anchor_ref(
    anchor: &AnchorRef,
    file_lines: &Vec<String>,
    mismatches: &mut Vec<HashMismatch>,
    validation_errors: &mut Vec<ValidationIssue>,
)
    ensures
        final(validation_errors)@ == old(validation_errors)@ + anchor_issues(
            anchor@,
            views_of(file_lines@).len() as int,
        ),
        mm_views(final(mismatches)@) == mm_views(old(mismatches)@) + anchor_mismatch(
            anchor@,
            chain_hashes(views_of(file_lines@)),
        ),
{
    let ghost lv = views_of(file_lines@);
    let n = file_lines.len();
    if anchor.line < 1 {
        validation_errors.push(ValidationIssue::LineZero { line: anchor.line });
        proof {
            assert(final(validation_errors)@ =~= old(validation_errors)@ + anchor_issues(
                anchor@,
                lv.len() as int,
            ));
            assert(mm_views(final(mismatches)@) =~= mm_views(old(mismatches)@) + anchor_mismatch(
                anchor@,
                chain_hashes(lv),
            ));
        }
        return ;
    }
    if anchor.line > n {
        validation_errors.push(
            ValidationIssue::LineBeyond { line: anchor.line, file_len: n },
        );
        proof {
            lemma_chain_hashes_len(lv);
            assert(final(validation_errors)@ =~= old(validation_errors)@ + anchor_issues(
                anchor@,
                lv.len() as int,
            ));
            assert(mm_views(final(mismatches)@) =~= mm_views(old(mismatches)@) + anchor_mismatch(
                anchor@,
                chain_hashes(lv),
            ));
        }
        return ;
    }
    let hashes = compute_chain_hashes(file_lines);
    proof {
        lemma_chain_hashes_len(lv);
    }
    let actual: &String = &hashes[anchor.line - 1];
    proof {
        assert(actual@ == chain_hashes(lv)[anchor@.line - 1]);
    }
    if !str_eq(actual.as_str(), anchor.hash.as_str()) {
        mismatches.push(
            HashMismatch {
                line: anchor.line,
                expected: anchor.hash.clone(),
                actual: actual.clone(),
            },
        );
        proof {
            assert(mm_views(final(mismatches)@) =~= mm_views(old(mismatches)@) + anchor_mismatch(
                anchor@,
                chain_hashes(lv),
            ));
        }
    } else {
        proof {
            assert(mm_views(final(mismatches)@) =~= mm_views(old(mismatches)@) + anchor_mismatch(
                anchor@,
                chain_hashes(lv),
            ));
        }
    }
    proof {
        assert(final(validation_errors)@ =~= old(validation_errors)@ + anchor_issues(
            anchor@,
            lv.len() as int,
        ));
    }
}

/// The inclusive 1-based line interval an edit affects, or nothing for an
/// insertion carrying no lines.
fn edit_interval_exec(e: &HashlineEdit, file_len: usize) -> (r: Option<(u128, u128)>)
    ensures
        match r {
            Option::Some(p) => edit_interval(e@, file_len as int) == Option::Some(
                (p.0 as int, p.1 as int),
            ),
            Option::None => edit_interval(e@, file_len as int) is None,
        },
{
    match e {
        HashlineEdit::Replace { pos, end, .. } => {
            let endl: usize = match end {
                Option::Some(en) => en.line,
                Option::None => pos.line,
            };
            Some((pos.line as u128, endl as u128))
        },
        HashlineEdit::Append { pos, lines } => {
            if lines.len() == 0 {
                return None;
            }
            let rl: usize = match pos {
                Option::Some(p) => p.line,
                Option::None => file_len,
            };
            Some(((rl as u128) + 1, (rl as u128) + (lines.len() as u128)))
        },
        HashlineEdit::Prepend { pos, lines } => {
            if lines.len() == 0 {
                return None;
            }
            let rl: usize = match pos {
                Option::Some(p) => p.line,
                Option::None => 1,
            };
            Some((rl as u128, (rl as u128) + (lines.len() as u128) - 1))
        },
    }
}

/// Whether one edit inserts after the very line the other inserts before.
fn append_prepend_exec(a: &HashlineEdit, b: &HashlineEdit) -> (r: bool)
    ensures
        r == append_prepend_same(a@, b@),
{
    match (a, b) {
        (
            HashlineEdit::Append { pos: Option::Some(p), .. },
            HashlineEdit::Prepend { pos: Option::Some(q), .. },
        ) => p.line == q.line,
        _ => false,
    }
}

/// Whether two edits collide.
fn edits_conflict_exec(a: &HashlineEdit, b: &HashlineEdit, file_len: usize) -> (r: bool)
    ensures
        r == edits_conflict(a@, b@, file_len as int),
{
    let ia = edit_interval_exec(a, file_len);
    let ib = edit_interval_exec(b, file_len);
    match (ia, ib) {
        (Option::Some(ra), Option::Some(rb)) => {
            let overlap = !(ra.1 < rb.0 || rb.1 < ra.0);
            overlap || append_prepend_exec(a, b) || append_prepend_exec(b, a)
        },
        _ => false,
    }
}

/// The operation of an edit.
fn op_kind_exec(e: &HashlineEdit) -> (r: OpKind)
    ensures
        r == op_kind_of(e@),
{
    match e {
        HashlineEdit::Replace { .. } => OpKind::Replace,
        HashlineEdit::Append { .. } => OpKind::Append,
        HashlineEdit::Prepend { .. } => OpKind::Prepend,
    }
}

/// Every pair of colliding edits of the batch, in report order.
fn detect_overlaps(ded: &Vec<HashlineEdit>, file_len: usize) -> (r: Vec<OverlapPair>)
    ensures
        r@ == full_pairs(edit_views(ded@), file_len as int),
{
    let ghost dm = edit_views(ded@);
    let ghost n = file_len as int;
    let mut acc: Vec<OverlapPair> = Vec::new();
    let mut i: usize = 0;
    proof {
        assert(acc@ =~= rows_upto(dm, n, 0));
    }
    while i < ded.len()
        invariant
            dm == edit_views(ded@),
            n == file_len as int,
            i <= ded@.len(),
            acc@ == rows_upto(dm, n, i as int),
        decreases ded@.len() - i,
    {
        let mut j: usize = i + 1;
        proof {
            assert(acc@ =~= rows_upto(dm, n, i as int) + row_upto(dm, n, i as int, i + 1 as int));
        }
        while j < ded.len()
            invariant
                dm == edit_views(ded@),
                n == file_len as int,
                i < j <= ded@.len(),
                i < ded@.len(),
                acc@ == rows_upto(dm, n, i as int) + row_upto(dm, n, i as int, j as int),
            decreases ded@.len() - j,
        {
            let conflicting = edits_conflict_exec(&ded[i], &ded[j], file_len);
            proof {
                assert(dm[i as int] == ded@[i as int]@);
                assert(dm[j as int] == ded@[j as int]@);
            }
            if conflicting {
                let ia = edit_interval_exec(&ded[i], file_len);
                let ib = edit_interval_exec(&ded[j], file_len);
                let ra = match ia {
                    Option::Some(p) => p,
                    Option::None => (0u128, 0u128),
                };
                let rb = match ib {
                    Option::Some(p) => p,
                    Option::None => (0u128, 0u128),
                };
                let pair = OverlapPair {
                    first_at: i,
                    first_op: op_kind_exec(&ded[i]),
                    first_lo: ra.0,
                    first_hi: ra.1,
                    second_at: j,
                    second_op: op_kind_exec(&ded[j]),
                    second_lo: rb.0,
                    second_hi: rb.1,
                };
                let ghost prev = acc@;
                acc.push(pair);
                proof {
                    assert(pair == conflict_pair(dm, n, i as int, j as int));
                    assert(acc@ =~= prev + seq![conflict_pair(dm, n, i as int, j as int)]);
                }
            }
            proof {
                assert(row_upto(dm, n, i as int, j + 1 as int) == row_upto(dm, n, i as int, j as int)
                    + (if edits_conflict(dm[i as int], dm[j as int], n) {
                    seq![conflict_pair(dm, n, i as int, j as int)]
                } else {
                    Seq::empty()
                }));
                if !edits_conflict(dm[i as int], dm[j as int], n) {
                    assert(acc@ =~= rows_upto(dm, n, i as int) + row_upto(
                        dm,
                        n,
                        i as int,
                        j + 1 as int,
                    ));
                }
            }
            j = j + 1;
        }
        proof {
            assert(rows_upto(dm, n, i + 1 as int) == rows_upto(dm, n, i as int) + row_upto(
                dm,
                n,
                i as int,
                dm.len() as int,
            ));
        }
        i = i + 1;
    }
    acc
}

/// An edit paired with its position in the deduplicated batch.
pub struct IndexedEdit {
    pub idx: usize,
    pub edit: HashlineEdit,
}

impl View for IndexedEdit {
    type V = IndexedModel;

    open spec fn view(&self) -> IndexedModel {
        IndexedModel { idx: self.idx as int, edit: self.edit@ }
    }
}

/// The mathematical content of a sequence of indexed edits.
pub open spec fn ie_views(s: Seq<IndexedEdit>) -> Seq<IndexedModel> {
    s.map_values(|e: IndexedEdit| e@)
}

/// The line an edit is ordered by when applied bottom-up.
fn edit_sort_line_exec(e: &HashlineEdit, file_len: usize) -> (r: usize)
    ensures
        r as int == edit_sort_line(e@, file_len as int),
{
    match e {
        HashlineEdit::Replace { pos, end, .. } => match end {
            Option::Some(en) => en.line,
            Option::None => pos.line,
        },
        HashlineEdit::Append { pos, .. } => match pos {
            Option::Some(p) => p.line,
            Option::None => file_len,
        },
        HashlineEdit::Prepend { pos, .. } => match pos {
            Option::Some(p) => p.line,
            Option::None => 0,
        },
    }
}

/// Whether `a` is applied ahead of `b`.
fn applied_before_exec(a: &IndexedEdit, b: &IndexedEdit, file_len: usize) -> (r: bool)
    ensures
        r == applied_before(a@, b@, file_len as int),
{
    let la = edit_sort_line_exec(&a.edit, file_len);
    let lb = edit_sort_line_exec(&b.edit, file_len);
    la > lb || (la == lb && a.idx > b.idx)
}

/// Places `x` into the already ordered `v`.
fn insert_in_order(v: &mut Vec<IndexedEdit>, x: IndexedEdit, file_len: usize)
    ensures
        ie_views(final(v)@) == insert_sorted(x@, ie_views(old(v)@), file_len as int),
{
    let ghost vs = ie_views(v@);
    let ghost n = file_len as int;
    let mut p: usize = 0;
    proof {
        assert(vs.take(0) =~= Seq::<IndexedModel>::empty());
        assert(vs.skip(0) =~= vs);
        assert(insert_sorted(x@, vs, n) =~= vs.take(0) + insert_sorted(x@, vs.skip(0), n));
    }
    loop
        invariant_except_break
            vs == ie_views(v@),
            n == file_len as int,
            p <= v@.len(),
            insert_sorted(x@, vs, n) == vs.take(p as int) + insert_sorted(x@, vs.skip(p as int), n),
        ensures
            p <= v@.len(),
            vs == ie_views(v@),
            insert_sorted(x@, vs, n) == vs.take(p as int) + seq![x@] + vs.skip(p as int),
        decreases v@.len() - p,
    {
        if p >= v.len() {
            proof {
                assert(vs.skip(p as int) =~= Seq::<IndexedModel>::empty());
                assert(insert_sorted(x@, vs, n) =~= vs.take(p as int) + seq![x@] + vs.skip(
                    p as int,
                ));
            }
            break;
        }
        let goes_first = applied_before_exec(&x, &v[p], file_len);
        proof {
            assert(vs[p as int] == v@[p as int]@);
            assert(vs.skip(p as int).first() == vs[p as int]);
        }
        if goes_first {
            proof {
                assert(insert_sorted(x@, vs.skip(p as int), n) == seq![x@] + vs.skip(p as int));
                assert(insert_sorted(x@, vs, n) =~= vs.take(p as int) + seq![x@] + vs.skip(
                    p as int,
                ));
            }
            break;
        }
        proof {
            assert(insert_sorted(x@, vs.skip(p as int), n) == seq![vs[p as int]] + insert_sorted(
                x@,
                vs.skip(p as int).skip(1),
                n,
            ));
            assert(vs.skip(p as int).skip(1) =~= vs.skip(p + 1 as int));
            assert(vs.take(p as int) + seq![vs[p as int]] =~= vs.take(p + 1 as int));
            assert(insert_sorted(x@, vs, n) =~= vs.take(p + 1 as int) + insert_sorted(
                x@,
                vs.skip(p + 1 as int),
                n,
            ));
        }
        p = p + 1;
    }
    v.insert(p, x);
    proof {
        assert(ie_views(v@) =~= vs.take(p as int) + seq![x@] + vs.skip(p as int));
    }
}

/// The deduplicated batch in application order: highest affected line first,
/// of two edits on one line the later-submitted first.
fn sort_for_apply(ded: &Vec<HashlineEdit>, file_len: usize) -> (r: Vec<IndexedEdit>)
    ensures
        ie_views(r@) == sort_edits(with_indices(edit_views(ded@)), file_len as int),
{
    let ghost em = edit_views(ded@);
    let ghost n = file_len as int;
    let mut r: Vec<IndexedEdit> = Vec::new();
    let mut i: usize = 0;
    proof {
        assert(with_indices(em).take(0) =~= Seq::<IndexedModel>::empty());
        assert(ie_views(r@) =~= sort_edits(with_indices(em).take(0), n));
    }
    while i < ded.len()
        invariant
            em == edit_views(ded@),
            n == file_len as int,
            i <= ded@.len(),
            ie_views(r@) == sort_edits(with_indices(em).take(i as int), n),
        decreases ded@.len() - i,
    {
        let x = IndexedEdit { idx: i, edit: duplicate_edit(&ded[i]) };
        proof {
            assert(em[i as int] == ded@[i as int]@);
            assert(x@ == with_indices(em)[i as int]);
        }
        insert_in_order(&mut r, x, file_len);
        proof {
            let t = with_indices(em).take(i + 1 as int);
            assert(t.drop_last() =~= with_indices(em).take(i as int));
            assert(t.last() == with_indices(em)[i as int]);
        }
        i = i + 1;
    }
    proof {
        assert(with_indices(em).take(ded@.len() as int) =~= with_indices(em));
    }
    r
}

/// `v` with the lines in `[start, del_to)` replaced by copies of `repl`.
pub(crate) fn splice_exec(v: &Vec<String>, start: usize, del_to: usize, repl: &Vec<String>) -> (r: Vec<
    String,
>)
    requires
        start <= del_to <= v@.len(),
    ensures
        views_of(r@) == splice_at(views_of(v@), start as int, del_to as int, views_of(repl@)),
{
    let mut r: Vec<String> = Vec::new();
    let mut i: usize = 0;
    while i < start
        invariant
            start <= del_to <= v@.len(),
            i <= start,
            r@.len() == i,
            forall|k: int| 0 <= k < i ==> r@[k]@ == v@[k]@,
        decreases start - i,
    {
        r.push(v[i].clone());
        i = i + 1;
    }
    let mut j: usize = 0;
    while j < repl.len()
        invariant
            start <= del_to <= v@.len(),
            j <= repl@.len(),
            r@.len() == start + j,
            forall|k: int| 0 <= k < start ==> r@[k]@ == v@[k]@,
            forall|k: int| 0 <= k < j ==> r@[start + k]@ == repl@[k]@,
        decreases repl@.len() - j,
    {
        r.push(repl[j].clone());
        j = j + 1;
    }
    let mut m: usize = del_to;
    while m < v.len()
        invariant
            start <= del_to <= v@.len(),
            del_to <= m <= v@.len(),
            r@.len() == start + repl@.len() + (m - del_to),
            forall|k: int| 0 <= k < start ==> r@[k]@ == v@[k]@,
            forall|k: int| 0 <= k < repl@.len() ==> r@[start + k]@ == repl@[k]@,
            forall|k: int|
                0 <= k < m - del_to ==> r@[start + repl@.len() + k]@ == #[trigger] v@[del_to + k]@,
        decreases v@.len() - m,
    {
        r.push(v[m].clone());
        m = m + 1;
    }
    proof {
        let rv = views_of(r@);
        let tv = splice_at(views_of(v@), start as int, del_to as int, views_of(repl@));
        assert(rv.len() == tv.len());
        assert forall|k: int| 0 <= k < rv.len() implies rv[k] == tv[k] by {
            assert(rv[k] == r@[k]@);
            if k < start {
                assert(tv[k] == v@[k]@);
            } else if k < start + repl@.len() {
                assert(tv[k] == repl@[k - start]@);
                assert(r@[k]@ == repl@[k - start]@);
            } else {
                assert(tv[k] == v@[del_to + (k - start - repl@.len())]@);
                assert(r@[k]@ == v@[del_to + (k - start - repl@.len())]@);
            }
        };
        assert(rv =~= tv);
    }
    r
}

/// One edit applied to the current lines; the running lowest changed line is
/// updated alongside.
fn apply_step_exec(cur: Vec<String>, e: &HashlineEdit, first: &mut Option<usize>) -> (r: Vec<
    String,
>)
    ensures
        ({
            let step = apply_step(views_of(cur@), e@, opt_int(*old(first)));
            views_of(r@) == step.0 && opt_int(*final(first)) == step.1
        }),
{
    let n = cur.len();
    match e {
        HashlineEdit::Replace { pos, end, lines } => {
            let endl: usize = match end {
                Option::Some(en) => en.line,
                Option::None => pos.line,
            };
            let start0: usize = if pos.line >= 1 {
                pos.line - 1
            } else {
                0
            };
            let start: usize = if start0 < n {
                start0
            } else {
                n
            };
            let m: usize = if endl > start {
                endl
            } else {
                start
            };
            let del_to: usize = if m < n {
                m
            } else {
                n
            };
            let r = splice_exec(&cur, start, del_to, lines);
            track_first_changed(first, pos.line);
            r
        },
        HashlineEdit::Append { pos, lines } => {
            if lines.len() == 0 {
                return cur;
            }
            match pos {
                Option::Some(p) => {
                    let k: usize = if p.line < n {
                        p.line
                    } else {
                        n
                    };
                    let r = splice_exec(&cur, k, k, lines);
                    let nxt: usize = if p.line < usize::MAX {
                        p.line + 1
                    } else {
                        usize::MAX
                    };
                    track_first_changed(first, nxt);
                    r
                },
                Option::None => {
                    let blank = cur.len() == 1 && cur[0].unicode_len() == 0;
                    let mut base = cur;
                    if blank {
                        base.clear();
                    }
                    let bl = base.len();
                    let r = splice_exec(&base, bl, bl, lines);
                    proof {
                        assert(views_of(base@).skip(bl as int) =~= Seq::<Seq<char>>::empty());
                        assert(views_of(base@).take(bl as int) =~= views_of(base@));
                        assert(views_of(r@) =~= views_of(base@) + views_of(lines@));
                    }
                    let nxt: usize = if bl < usize::MAX {
                        bl + 1
                    } else {
                        usize::MAX
                    };
                    track_first_changed(first, nxt);
                    r
                },
            }
        },
        HashlineEdit::Prepend { pos, lines } => {
            if lines.len() == 0 {
                return cur;
            }
            match pos {
                Option::Some(p) => {
                    let k0: usize = if p.line >= 1 {
                        p.line - 1
                    } else {
                        0
                    };
                    let k: usize = if k0 < n {
                        k0
                    } else {
                        n
                    };
                    let r = splice_exec(&cur, k, k, lines);
                    track_first_changed(first, p.line);
                    r
                },
                Option::None => {
                    let blank = cur.len() == 1 && cur[0].unicode_len() == 0;
                    let mut base = cur;
                    if blank {
                        base.clear();
                    }
                    let r = splice_exec(&base, 0, 0, lines);
                    proof {
                        assert(views_of(base@).take(0) =~= Seq::<Seq<char>>::empty());
                        assert(views_of(base@).skip(0) =~= views_of(base@));
                        assert(views_of(r@) =~= views_of(lines@) + views_of(base@));
                    }
                    track_first_changed(first, 1);
                    r
                },
            }
        },
    }
}

/// Validates a batch of anchored edits against the file content and, when
/// every check passes, applies it bottom-up. Nothing is applied unless the
/// whole batch is structurally sound, every fingerprint matches, and no two
/// edits collide; the result then carries the new text and the lowest changed
/// line. An empty batch returns the content unchanged.
pub fn apply_hashline_edits(content: &str, edits: &[HashlineEdit]) -> (r: Result<
    (String, Option<usize>),
    ApplyError,
>)
    ensures
        ({
            let em = edit_views(edits@);
            let lines = lines_of(content@);
            let n = lines.len() as int;
            let serrs = batch_structural(em, n);
            let mms = batch_mismatches(em, chain_hashes(lines));
            let ded = dedup_edits(em);
            &&& edits@.len() == 0 ==> (r matches Ok(p) && p.0@ == content@ && p.1 is None)
            &&& (edits@.len() > 0 && serrs.len() > 0) ==> (r matches Err(e) && e matches
                ApplyError::Validation { issues } && issues@ == serrs)
            &&& (edits@.len() > 0 && serrs.len() == 0 && mms.len() > 0) ==> (r matches Err(e)
                && e matches ApplyError::Mismatch { err } && mm_views(err.mismatches@) == mms
                && views_of(err.file_lines@) == lines)
            &&& (edits@.len() > 0 && serrs.len() == 0 && mms.len() == 0 && has_conflict(ded, n))
                ==> (r matches Err(e) && e matches ApplyError::Overlap { pairs } && pairs@
                == full_pairs(ded, n))
            &&& (edits@.len() > 0 && serrs.len() == 0 && mms.len() == 0 && !has_conflict(
                ded,
                n,
            )) ==> (r matches Ok(p) && p.0@ == batch_result_text(content@, em) && opt_int(p.1)
                == batch_outcome(content@, em).1)
        }),
{
    let ghost em = edit_views(edits@);
    if edits.len() == 0 {
        return Ok((content.to_owned(), None));
    }
    let had_nl = ends_with_nl(content);
    let file_lines = split_lines(content);
    let ghost lines = lines_of(content@);
    let ghost n = lines.len() as int;
    let ghost hs = chain_hashes(lines);
    let mut issues: Vec<ValidationIssue> = Vec::new();
    let mut mismatches: Vec<HashMismatch> = Vec::new();
    let mut i: usize = 0;
    proof {
        assert(issues@ =~= batch_structural(em.take(0), n));
        assert(mm_views(mismatches@) =~= batch_mismatches(em.take(0), hs));
    }
    while i < edits.len()
        invariant
            em == edit_views(edits@),
            lines == lines_of(content@),
            views_of(file_lines@) == lines,
            n == lines.len() as int,
            hs == chain_hashes(lines),
            i <= edits@.len(),
            issues@ == batch_structural(em.take(i as int), n),
            mm_views(mismatches@) == batch_mismatches(em.take(i as int), hs),
        decreases edits@.len() - i,
    {
        let ghost issues0 = issues@;
        let ghost mm0 = mm_views(mismatches@);
        match &edits[i] {
            HashlineEdit::Replace { pos, end, .. } => {
                match end {
                    Option::Some(en) => {
                        if pos.line > en.line {
                            issues.push(
                                ValidationIssue::RangeInverted { start: pos.line, end: en.line },
                            );
                        }
                        validate_anchor_ref(pos, &file_lines, &mut mismatches, &mut issues);
                        validate_anchor_ref(en, &file_lines, &mut mismatches, &mut issues);
                    },
                    Option::None => {
                        validate_anchor_ref(pos, &file_lines, &mut mismatches, &mut issues);
                    },
                }
            },
            HashlineEdit::Append { pos, .. } => {
                match pos {
                    Option::Some(p) => {
                        validate_anchor_ref(p, &file_lines, &mut mismatches, &mut issues);
                    },
                    Option::None => {},
                }
            },
            HashlineEdit::Prepend { pos, .. } => {
                match pos {
                    Option::Some(p) => {
                        validate_anchor_ref(p, &file_lines, &mut mismatches, &mut issues);
                    },
                    Option::None => {},
                }
            },
        }
        proof {
            assert(em[i as int] == edits@[i as int]@);
            let t = em.take(i + 1 as int);
            assert(t.drop_last() =~= em.take(i as int));
            assert(t.last() == em[i as int]);
            assert(issues@ =~= issues0 + edit_structural(em[i as int], n));
            assert(mm_views(mismatches@) =~= mm0 + crate::edit::edit_mismatches(
                em[i as int],
                hs,
            ));
        }
        i = i + 1;
    }
    proof {
        assert(em.take(edits@.len() as int) =~= em);
    }
    if issues.len() > 0 {
        return Err(ApplyError::Validation { issues });
    }
    if mismatches.len() > 0 {
        return Err(ApplyError::Mismatch {
            err: HashlineMismatchError { mismatches, file_lines },
        });
    }
    let file_len = file_lines.len();
    let ded = deduplicate_edits(edits, &file_lines);
    let ghost dm = dedup_edits(em);
    let pairs = detect_overlaps(&ded, file_len);
    proof {
        lemma_conflict_iff_pairs(dm, n);
    }
    if pairs.len() > 0 {
        return Err(ApplyError::Overlap { pairs });
    }
    let sorted = sort_for_apply(&ded, file_len);
    let ghost sortedm = sort_edits(with_indices(dm), n);
    let mut cur = file_lines;
    let mut first: Option<usize> = None;
    let ghost target = apply_fold(lines, sortedm, Option::None);
    let mut k: usize = 0;
    proof {
        assert(sortedm.skip(0) =~= sortedm);
    }
    while k < sorted.len()
        invariant
            sortedm == ie_views(sorted@),
            target == apply_fold(lines, sortedm, Option::None),
            k <= sorted@.len(),
            apply_fold(views_of(cur@), sortedm.skip(k as int), opt_int(first)) == target,
        decreases sorted@.len() - k,
    {
        let ghost pre = views_of(cur@);
        let ie = &sorted[k];
        proof {
            assert(sortedm[k as int] == sorted@[k as int]@);
            assert(sortedm.skip(k as int).first() == sortedm[k as int]);
            assert(sortedm.skip(k as int).skip(1) =~= sortedm.skip(k + 1 as int));
        }
        cur = apply_step_exec(cur, &ie.edit, &mut first);
        k = k + 1;
    }
    proof {
        assert(sortedm.skip(sorted@.len() as int) =~= Seq::<IndexedModel>::empty());
        assert(views_of(cur@) == target.0 && opt_int(first) == target.1);
    }
    let mut out = join_lines(&cur);
    let out_len = out.unicode_len();
    if had_nl && out_len > 0 && out.as_str().get_char(out_len - 1) != '\n' {
        out.push('\n');
        proof {
            assert(out@ =~= restore_nl(join_nl(target.0), ends_nl(content@)));
        }
    } else {
        proof {
            assert(out@ =~= restore_nl(join_nl(target.0), ends_nl(content@)));
        }
    }
    Ok((out, first))
}

} // verus!
