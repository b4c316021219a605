use vstd::prelude::*;
use crate::anchor::AnchorModel;
use crate::edit::apply_fold;
use crate::edit::apply_step;
use crate::edit::batch_outcome;
use crate::edit::dedup_edits;
use crate::edit::edit_interval;
use crate::edit::edit_key_eq;
use crate::edit::edits_conflict;
use crate::edit::has_conflict;
use crate::edit::insert_sorted;
use crate::edit::sort_edits;
use crate::edit::splice_at;
use crate::edit::with_indices;
use crate::edit::EditModel;
use crate::edit::IndexedModel;
use crate::strutil::lines_of;

verus! {

/// Replacing an inclusive line range with replacement lines changes the line
/// count by exactly the replacement's length less the range's length.
pub proof fn lemma_replace_range_count(
    content: Seq<char>,
    pos: AnchorModel,
    end: AnchorModel,
    repl: Seq<Seq<char>>,
)
    requires
        1 <= pos.line <= end.line <= lines_of(content).len(),
    ensures
        ({
            let e = EditModel::Replace { pos, end: Option::Some(end), lines: repl };
            batch_outcome(content, seq![e]).0.len() == lines_of(content).len() - (end.line
                - pos.line + 1) + repl.len()
        }),
{
    let lines = lines_of(content);
    let n = lines.len() as int;
    let e = EditModel::Replace { pos, end: Option::Some(end), lines: repl };
    let es = seq![e];
    assert(es.drop_last() =~= Seq::<EditModel>::empty());
    assert(dedup_edits(Seq::<EditModel>::empty()) == Seq::<EditModel>::empty());
    assert(dedup_edits(es) =~= es);
    let ixs = with_indices(es);
    assert(ixs.len() == 1);
    assert(ixs.drop_last() =~= Seq::<IndexedModel>::empty());
    assert(sort_edits(Seq::<IndexedModel>::empty(), n) == Seq::<IndexedModel>::empty());
    let sorted = sort_edits(ixs, n);
    assert(sorted == insert_sorted(ixs.last(), Seq::<IndexedModel>::empty(), n));
    assert(insert_sorted(ixs.last(), Seq::<IndexedModel>::empty(), n) == seq![ixs.last()]);
    assert(sorted =~= ixs);
    assert(ixs.first().edit == e);
    let step = apply_step(lines, e, Option::None);
    assert(apply_fold(lines, ixs, Option::None) == apply_fold(step.0, ixs.skip(1), step.1));
    assert(ixs.skip(1) =~= Seq::<IndexedModel>::empty());
    let start = pos.line - 1;
    let del_to = end.line;
    assert(step.0 == splice_at(lines, start, del_to, repl));
    assert(lines.take(start).len() == start);
    assert(lines.skip(del_to).len() == n - del_to);
    assert(step.0.len() == start + repl.len() + (n - del_to));
}

/// Two range replacements over disjoint stretches both land: the lower
/// stretch gets the first replacement, the higher the second, and every line
/// outside the two stretches is kept verbatim.
pub proof fn lemma_disjoint_replaces(
    content: Seq<char>,
    p1: AnchorModel,
    e1: AnchorModel,
    l1: Seq<Seq<char>>,
    p2: AnchorModel,
    e2: AnchorModel,
    l2: Seq<Seq<char>>,
)
    requires
        1 <= p1.line <= e1.line,
        e1.line < p2.line,
        p2.line <= e2.line <= lines_of(content).len(),
    ensures
        ({
            let a = EditModel::Replace { pos: p1, end: Option::Some(e1), lines: l1 };
            let b = EditModel::Replace { pos: p2, end: Option::Some(e2), lines: l2 };
            let lines = lines_of(content);
            &&& !has_conflict(dedup_edits(seq![a, b]), lines.len() as int)
            &&& batch_outcome(content, seq![a, b]).0 == lines.take(p1.line - 1) + l1
                + lines.subrange(e1.line, p2.line - 1) + l2 + lines.skip(e2.line)
        }),
{
    let lines = lines_of(content);
    let n = lines.len() as int;
    let a = EditModel::Replace { pos: p1, end: Option::Some(e1), lines: l1 };
    let b = EditModel::Replace { pos: p2, end: Option::Some(e2), lines: l2 };
    let es = seq![a, b];
    assert(es.drop_last() =~= seq![a]);
    assert(seq![a].drop_last() =~= Seq::<EditModel>::empty());
    assert(dedup_edits(Seq::<EditModel>::empty()) == Seq::<EditModel>::empty());
    assert(dedup_edits(seq![a]) =~= seq![a]);
    assert(!edit_key_eq(es[0], es[1]));
    assert(dedup_edits(es) =~= es);
    assert(edit_interval(a, n) == Option::Some((p1.line, e1.line)));
    assert(edit_interval(b, n) == Option::Some((p2.line, e2.line)));
    assert(!edits_conflict(a, b, n));
    assert forall|i: int, j: int| 0 <= i < j < es.len() implies !edits_conflict(
        es[i],
        es[j],
        n,
    ) by {
        assert(i == 0 && j == 1);
    }
    assert(!has_conflict(es, n));
    let ixs = with_indices(es);
    assert(ixs.len() == 2);
    let xa = IndexedModel { idx: 0, edit: a };
    let xb = IndexedModel { idx: 1, edit: b };
    assert(ixs[0] == xa && ixs[1] == xb);
    assert(ixs.drop_last() =~= seq![xa]);
    assert(seq![xa].drop_last() =~= Seq::<IndexedModel>::empty());
    assert(sort_edits(Seq::<IndexedModel>::empty(), n) == Seq::<IndexedModel>::empty());
    assert(insert_sorted(xa, Seq::<IndexedModel>::empty(), n) == seq![xa]);
    assert(sort_edits(seq![xa], n) =~= seq![xa]);
    let sorted = sort_edits(ixs, n);
    assert(sorted == insert_sorted(xb, seq![xa], n));
    assert(crate::edit::applied_before(xb, xa, n));
    assert(sorted =~= seq![xb] + seq![xa]);
    assert(sorted.first() == xb);
    let step1 = apply_step(lines, b, Option::None);
    let mid = step1.0;
    assert(mid == splice_at(lines, p2.line - 1, e2.line, l2));
    assert(sorted.skip(1) =~= seq![xa]);
    let step2 = apply_step(mid, a, step1.1);
    assert(apply_fold(lines, sorted, Option::None) == apply_fold(mid, sorted.skip(1), step1.1));
    assert(sorted.skip(1).first() == xa);
    assert(apply_fold(mid, sorted.skip(1), step1.1) == apply_fold(
        step2.0,
        sorted.skip(1).skip(1),
        step2.1,
    ));
    assert(sorted.skip(1).skip(1) =~= Seq::<IndexedModel>::empty());
    assert(mid.len() == (p2.line - 1) + l2.len() + (n - e2.line));
    assert(step2.0 == splice_at(mid, p1.line - 1, e1.line, l1));
    let out = step2.0;
    assert(mid.take(p1.line - 1) =~= lines.take(p1.line - 1)) by {
        assert forall|k: int| 0 <= k < p1.line - 1 implies mid[k] == lines[k] by {
            assert(mid[k] == lines.take(p2.line - 1)[k]);
        }
    }
    assert(mid.skip(e1.line) =~= lines.subrange(e1.line, p2.line - 1) + l2 + lines.skip(
        e2.line,
    )) by {
        assert forall|k: int| 0 <= k < mid.len() - e1.line implies mid.skip(e1.line)[k] == (
        lines.subrange(e1.line, p2.line - 1) + l2 + lines.skip(e2.line))[k] by {
            if k < p2.line - 1 - e1.line {
                assert(mid[e1.line + k] == lines.take(p2.line - 1)[e1.line + k]);
            } else if k < p2.line - 1 - e1.line + l2.len() {
                assert(mid[e1.line + k] == l2[e1.line + k - (p2.line - 1)]);
            } else {
                assert(mid[e1.line + k] == lines.skip(e2.line)[e1.line + k - (p2.line - 1)
                    - l2.len()]);
            }
        }
    }
    assert(out =~= lines.take(p1.line - 1) + l1 + lines.subrange(e1.line, p2.line - 1) + l2
        + lines.skip(e2.line));
}

/// An insertion after a line and an insertion before the same line collide,
/// although their numeric line intervals need not intersect: they are the
/// same insertion point approached from the two sides.
pub proof fn lemma_append_prepend_conflict(es: Seq<EditModel>, i: int, j: int, file_len: int)
    requires
        0 <= i < es.len(),
        0 <= j < es.len(),
        i != j,
        es[i] matches EditModel::Append { pos: Option::Some(p), lines: la } && la.len() > 0,
        es[j] matches EditModel::Prepend { pos: Option::Some(q), lines: lp } && lp.len() > 0,
        es[i]->Append_pos->0.line == es[j]->Prepend_pos->0.line,
    ensures
        has_conflict(es, file_len),
{
    assert(edit_interval(es[i], file_len) is Some);
    assert(edit_interval(es[j], file_len) is Some);
    assert(crate::edit::append_prepend_same(es[i], es[j]));
    if i < j {
        assert(edits_conflict(es[i], es[j], file_len));
    } else {
        assert(edits_conflict(es[j], es[i], file_len));
    }
}

} // verus!
