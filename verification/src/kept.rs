//! The elements that a list keeps unchanged are not touched.

use vstd::prelude::*;
use crate::align::Step;
use crate::edit::EditTree;
use crate::idempotence::{alignable, lemma_recycled_alike};
use crate::model::{aligned, deleted, insertion_point, sound_aligned, splice_at, then};
use crate::node::{alike, Node};
use crate::overlap::{
    apart, child_at, edits_outside, lemma_outside_join, outside, well_nested,
};
use crate::prec::ExprPrec;
use crate::span::{rewritable, Span};
use crate::table::Env;

verus! {

/// Every pair that the script matches from step `p` on is a new node and
/// an old node that are alike but for placeholders: the new list keeps
/// the old node unchanged.
pub open spec fn keeps_unchanged(
    new: Node,
    old: Node,
    k: int,
    steps: Seq<Step>,
    p: int,
    i: int,
    j: int,
) -> bool
    decreases steps.len() - p,
{
    if p < 0 || p >= steps.len() {
        true
    } else {
        match steps[p] {
            Step::Left => keeps_unchanged(new, old, k, steps, p + 1, i + 1, j),
            Step::Right => keeps_unchanged(new, old, k, steps, p + 1, i, j + 1),
            Step::Both => {
                &&& 0 <= i < old.fields[k].nodes.len() && 0 <= j < new.fields[k].nodes.len() ==> {
                    &&& alike(new.fields[k].nodes[j], old.fields[k].nodes[i])
                    &&& alignable(old.fields[k].nodes[i])
                }
                &&& keeps_unchanged(new, old, k, steps, p + 1, i + 1, j + 1)
            },
        }
    }
}

/// The edits of the steps from `p` on that match nothing: an old node
/// without counterpart is deleted, or abandoned where its text cannot be
/// rewritten, and a new one is printed and inserted. A matched pair gives
/// no edit.
pub open spec fn moves(
    new: Node,
    old: Node,
    env: Env,
    prec: ExprPrec,
    k: int,
    steps: Seq<Step>,
    p: int,
    i: int,
    j: int,
) -> Option<Seq<EditTree>>
    decreases steps.len() - p,
{
    if !(0 <= k < new.fields.len()) || p < 0 || p >= steps.len() {
        Some(Seq::empty())
    } else {
        let news = new.fields[k].nodes@;
        let olds = old.fields[k].nodes@;
        match steps[p] {
            Step::Left => {
                if 0 <= i < olds.len() {
                    then(deleted(olds[i].span), moves(new, old, env, prec, k, steps, p + 1, i + 1, j))
                } else {
                    None
                }
            },
            Step::Right => {
                if 0 <= j < news.len() && insertion_point(olds, i) is Some {
                    then(
                        seq![
                            splice_at(
                                new.fields[k].nodes[j],
                                insertion_point(olds, i)->0,
                                env,
                                prec,
                            ),
                        ],
                        moves(new, old, env, prec, k, steps, p + 1, i, j + 1),
                    )
                } else {
                    None
                }
            },
            Step::Both => {
                if 0 <= i < olds.len() && 0 <= j < news.len() {
                    moves(new, old, env, prec, k, steps, p + 1, i + 1, j + 1)
                } else {
                    None
                }
            },
        }
    }
}

/// Where every pair that a script matches is a new node and the old node
/// that it keeps unchanged, reconciling the two lists along the script
/// records the deletions and insertions of the unmatched nodes and nothing
/// else: no edit is recorded for a kept node or for anything within it.
/// So where one node is replaced by another, or one is inserted or
/// deleted, the others stay as their old text.
pub proof fn law_kept_elements_are_untouched(
    new: Node,
    old: Node,
    env: Env,
    prec: ExprPrec,
    fs: Span,
    k: int,
    steps: Seq<Step>,
    p: int,
    i: int,
    j: int,
)
    requires
        0 <= k < new.fields.len(),
        0 <= p,
        keeps_unchanged(new, old, k, steps, p, i, j),
        sound_aligned(new, old, env, prec, fs, k, steps, p, i, j),
    ensures
        aligned(new, old, env, prec, fs, k, steps, p, i, j) == moves(
            new,
            old,
            env,
            prec,
            k,
            steps,
            p,
            i,
            j,
        ),
    decreases steps.len() - p,
{
    let news = new.fields[k].nodes@;
    let olds = old.fields[k].nodes@;
    if p < steps.len() {
        match steps[p] {
            Step::Left => {
                if 0 <= i < olds.len() {
                    law_kept_elements_are_untouched(
                        new,
                        old,
                        env,
                        prec,
                        fs,
                        k,
                        steps,
                        p + 1,
                        i + 1,
                        j,
                    );
                }
            },
            Step::Right => {
                if 0 <= j < news.len() && insertion_point(olds, i) is Some {
                    law_kept_elements_are_untouched(
                        new,
                        old,
                        env,
                        prec,
                        fs,
                        k,
                        steps,
                        p + 1,
                        i,
                        j + 1,
                    );
                }
            },
            Step::Both => {
                if 0 <= i < olds.len() && 0 <= j < news.len() {
                    lemma_recycled_alike(
                        new.fields[k].nodes[j],
                        old.fields[k].nodes[i],
                        env,
                        prec,
                        fs,
                    );
                    law_kept_elements_are_untouched(
                        new,
                        old,
                        env,
                        prec,
                        fs,
                        k,
                        steps,
                        p + 1,
                        i + 1,
                        j + 1,
                    );
                    let rest = aligned(new, old, env, prec, fs, k, steps, p + 1, i + 1, j + 1);
                    if rest is Some {
                        assert(Seq::<EditTree>::empty() + rest->0 =~= rest->0);
                    }
                }
            },
        }
    }
}

/// From step `p` on the script deletes no old node at place `m`: it
/// matches that node, or ends before it.
pub open spec fn spares(steps: Seq<Step>, p: int, i: int, m: int) -> bool
    decreases steps.len() - p,
{
    if p < 0 || p >= steps.len() {
        true
    } else {
        match steps[p] {
            Step::Left => i != m && spares(steps, p + 1, i + 1, m),
            Step::Right => spares(steps, p + 1, i, m),
            Step::Both => spares(steps, p + 1, i + 1, m),
        }
    }
}

proof fn lemma_moves_clear(
    new: Node,
    old: Node,
    env: Env,
    prec: ExprPrec,
    k: int,
    steps: Seq<Step>,
    p: int,
    i: int,
    j: int,
    m: int,
)
    requires
        well_nested(old),
        0 <= k < new.fields.len(),
        0 <= p,
        0 <= i,
        child_at(old, k, m),
        spares(steps, p, i, m),
    ensures
        moves(new, old, env, prec, k, steps, p, i, j) is Some ==> edits_outside(
            moves(new, old, env, prec, k, steps, p, i, j)->0,
            old.fields[k].nodes[m].span.lo as int,
            old.fields[k].nodes[m].span.hi as int,
        ),
    decreases steps.len() - p,
{
    let olds = old.fields[k].nodes@;
    let kept = old.fields[k].nodes[m].span;
    let lo = kept.lo as int;
    let hi = kept.hi as int;
    assert(well_nested(old.fields[k].nodes[m]));
    if p < steps.len() && moves(new, old, env, prec, k, steps, p, i, j) is Some {
        match steps[p] {
            Step::Left => {
                assert(child_at(old, k, i));
                assert(apart(old.fields[k].nodes[i].span, old.fields[k].nodes[m].span));
                let first = deleted(olds[i].span);
                assert(edits_outside(first, lo, hi));
                lemma_moves_clear(new, old, env, prec, k, steps, p + 1, i + 1, j, m);
                lemma_outside_join(
                    first,
                    moves(new, old, env, prec, k, steps, p + 1, i + 1, j)->0,
                    lo,
                    hi,
                );
            },
            Step::Right => {
                let at = insertion_point(olds, i)->0;
                let first = seq![splice_at(new.fields[k].nodes[j], at, env, prec)];
                assert(outside(at, lo, hi)) by {
                    if 0 < i <= olds.len() && rewritable(olds[i - 1].span) {
                        assert(child_at(old, k, i - 1));
                        assert(well_nested(old.fields[k].nodes[i - 1]));
                        if i - 1 != m {
                            assert(apart(
                                old.fields[k].nodes[i - 1].span,
                                old.fields[k].nodes[m].span,
                            ));
                        }
                    } else {
                        assert(child_at(old, k, i));
                        assert(well_nested(old.fields[k].nodes[i]));
                        if i != m {
                            assert(apart(old.fields[k].nodes[i].span, old.fields[k].nodes[m].span));
                        }
                    }
                }
                assert(first[0].target == at);
                assert(edits_outside(first, lo, hi));
                lemma_moves_clear(new, old, env, prec, k, steps, p + 1, i, j + 1, m);
                lemma_outside_join(
                    first,
                    moves(new, old, env, prec, k, steps, p + 1, i, j + 1)->0,
                    lo,
                    hi,
                );
            },
            Step::Both => {
                lemma_moves_clear(new, old, env, prec, k, steps, p + 1, i + 1, j + 1, m);
            },
        }
    }
}

/// Where a list keeps its matched nodes unchanged, no edit has a target
/// that shares a byte with an old node that the script does not delete:
/// the text of a kept node stays as it is. A zero-width target may touch
/// its start or its end. This is stated of old trees whose spans are
/// nested as their nodes are.
pub proof fn law_kept_element_is_clear(
    new: Node,
    old: Node,
    env: Env,
    prec: ExprPrec,
    fs: Span,
    k: int,
    steps: Seq<Step>,
    m: int,
)
    requires
        well_nested(old),
        0 <= k < new.fields.len(),
        child_at(old, k, m),
        keeps_unchanged(new, old, k, steps, 0, 0, 0),
        sound_aligned(new, old, env, prec, fs, k, steps, 0, 0, 0),
        spares(steps, 0, 0, m),
    ensures
        aligned(new, old, env, prec, fs, k, steps, 0, 0, 0) is Some ==> edits_outside(
            aligned(new, old, env, prec, fs, k, steps, 0, 0, 0)->0,
            old.fields[k].nodes[m].span.lo as int,
            old.fields[k].nodes[m].span.hi as int,
        ),
{
    law_kept_elements_are_untouched(new, old, env, prec, fs, k, steps, 0, 0, 0);
    lemma_moves_clear(new, old, env, prec, k, steps, 0, 0, 0, m);
}

} // verus!
