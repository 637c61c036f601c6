//! Inserting one element into an aligned list records one edit.

use vstd::prelude::*;
use crate::align::{
    aligns, diff_script, diffable, lefts, lemma_all_matched, lemma_counts, lemma_take_step,
    matched, maximal, rights, Step,
};
use crate::edit::EditTree;
use crate::idempotence::{alignable, lemma_recycled_alike};
use crate::model::{
    aligned, aligned_field, ids, insertion_point, sound_aligned, sound_aligned_field, splice_at,
};
use crate::node::{alike, Node};
use crate::prec::ExprPrec;
use crate::span::{end_of, rewritable, start_of, Span};
use crate::table::Env;

verus! {

/// `news` is `olds` with one node inserted at `at`: the nodes around it are
/// the old ones but for placeholders.
pub open spec fn kept_around(news: Seq<Node>, olds: Seq<Node>, at: int) -> bool {
    &&& news.len() == olds.len() + 1
    &&& forall|j: int| 0 <= j < at ==> alike(#[trigger] news[j], olds[j])
    &&& forall|j: int| at < j < news.len() ==> alike(#[trigger] news[j], olds[j - 1])
}

/// The script that matches `n` pairs and takes one right element without
/// counterpart as its step `at`.
pub open spec fn one_right(n: nat, at: int) -> Seq<Step> {
    Seq::new(
        n + 1,
        |p: int|
            if p == at {
                Step::Right
            } else {
                Step::Both
            },
    )
}

proof fn lemma_one_right_counts(n: nat, at: int, p: int)
    requires
        0 <= at <= n,
        0 <= p <= n + 1,
    ensures
        rights(one_right(n, at).take(p)) == p,
        lefts(one_right(n, at).take(p)) == if p <= at {
            p
        } else {
            p - 1
        },
        matched(one_right(n, at).take(p)) == lefts(one_right(n, at).take(p)),
    decreases p,
{
    let t = one_right(n, at);
    if p > 0 {
        lemma_one_right_counts(n, at, p - 1);
        lemma_take_step(t, p - 1);
    } else {
        assert(t.take(0) =~= Seq::<Step>::empty());
    }
}

proof fn lemma_one_right_aligns(a: Seq<u32>, at: int, x: u32)
    requires
        0 <= at <= a.len(),
    ensures
        aligns(one_right(a.len(), at), a, a.insert(at, x)),
        matched(one_right(a.len(), at)) == a.len(),
{
    let t = one_right(a.len(), at);
    let b = a.insert(at, x);
    lemma_one_right_counts(a.len(), at, (a.len() + 1) as int);
    assert(t.take((a.len() + 1) as int) =~= t);
    assert forall|p: int| 0 <= p < t.len() && #[trigger] t[p] == Step::Both implies a[lefts(
        t.take(p),
    ) as int] == b[rights(t.take(p)) as int] by {
        lemma_one_right_counts(a.len(), at, p);
    }
}

/// A script that matches a pair at every step but one, and leaves no left
/// element without counterpart, takes one right element at that step.
proof fn lemma_one_unmatched(s: Seq<Step>) -> (q: int)
    requires
        matched(s) + 1 == s.len(),
        lefts(s) == matched(s),
    ensures
        0 <= q < s.len(),
        s == one_right((s.len() - 1) as nat, q),
    decreases s.len(),
{
    let front = s.drop_last();
    lemma_counts(front);
    if s.last() == Step::Both {
        let q = lemma_one_unmatched(front);
        let t = one_right((s.len() - 1) as nat, q);
        assert forall|i: int| 0 <= i < s.len() implies s[i] == t[i] by {
            if i < s.len() - 1 {
                assert(s[i] == front[i]);
            }
        }
        assert(s =~= t);
        q
    } else {
        assert(s.last() == Step::Right);
        lemma_all_matched(front);
        let q = s.len() - 1;
        let t = one_right((s.len() - 1) as nat, q);
        assert forall|i: int| 0 <= i < s.len() implies s[i] == t[i] by {
            if i < s.len() - 1 {
                assert(s[i] == front[i]);
            }
        }
        assert(s =~= t);
        q
    }
}

/// The script of a list and the same list with one element inserted that
/// it did not hold matches every old element and takes the new one at its
/// place.
proof fn lemma_script_of_insertion(s: Seq<Step>, a: Seq<u32>, at: int, x: u32)
    requires
        0 <= at <= a.len(),
        !a.contains(x),
        aligns(s, a, a.insert(at, x)),
        maximal(s, a, a.insert(at, x)),
    ensures
        s == one_right(a.len(), at),
{
    let b = a.insert(at, x);
    let t = one_right(a.len(), at);
    assert(matched(s) >= a.len()) by {
        lemma_one_right_aligns(a, at, x);
        assert(aligns(t, a, b));
    }
    lemma_counts(s);
    assert(lefts(s) == a.len() && rights(s) == a.len() + 1);
    let q = lemma_one_unmatched(s);
    assert(s.len() == a.len() + 1);
    if q != at {
        lemma_one_right_counts(a.len(), q, at);
        assert(s[at] == Step::Both);
        let i = lefts(s.take(at)) as int;
        let j = rights(s.take(at)) as int;
        assert(a[i] == b[j]);
        assert(j == at);
        assert(b[at] == x);
        assert(0 <= i < a.len());
        assert(a.contains(x));
    }
}

proof fn lemma_aligned_along_insertion(
    new: Node,
    old: Node,
    env: Env,
    prec: ExprPrec,
    fs: Span,
    k: int,
    at: int,
    p: int,
)
    requires
        0 <= k < new.fields.len(),
        0 <= at <= old.fields[k].nodes.len(),
        0 <= p <= old.fields[k].nodes.len() + 1,
        kept_around(new.fields[k].nodes@, old.fields[k].nodes@, at),
        forall|i: int| 0 <= i < old.fields[k].nodes.len() ==> alignable(old.fields[k].nodes[i]),
        insertion_point(old.fields[k].nodes@, at) is Some,
        sound_aligned(
            new,
            old,
            env,
            prec,
            fs,
            k,
            one_right(old.fields[k].nodes.len() as nat, at),
            p,
            if p <= at {
                p
            } else {
                p - 1
            },
            p,
        ),
    ensures
        aligned(
            new,
            old,
            env,
            prec,
            fs,
            k,
            one_right(old.fields[k].nodes.len() as nat, at),
            p,
            if p <= at {
                p
            } else {
                p - 1
            },
            p,
        ) == if p <= at {
            Some(
                seq![
                    splice_at(
                        new.fields[k].nodes[at],
                        insertion_point(old.fields[k].nodes@, at)->0,
                        env,
                        prec,
                    ),
                ],
            )
        } else {
            Some(Seq::<EditTree>::empty())
        },
    decreases old.fields[k].nodes.len() + 1 - p,
{
    let olds = old.fields[k].nodes@;
    let news = new.fields[k].nodes@;
    let n = olds.len();
    let steps = one_right(n, at);
    let edit = splice_at(news[at], insertion_point(olds, at)->0, env, prec);
    if p < n + 1 {
        assert(news.len() == n + 1);
        if p == at {
            lemma_aligned_along_insertion(new, old, env, prec, fs, k, at, p + 1);
            assert(seq![edit] + Seq::<EditTree>::empty() =~= seq![edit]);
        } else if p < at {
            assert(alike(news[p], olds[p]));
            assert(steps[p] == Step::Both);
            lemma_recycled_alike(news[p], olds[p], env, prec, fs);
            lemma_aligned_along_insertion(new, old, env, prec, fs, k, at, p + 1);
            assert(Seq::<EditTree>::empty() + seq![edit] =~= seq![edit]);
        } else {
            assert(alike(news[p], olds[p - 1]));
            assert(steps[p] == Step::Both);
            lemma_recycled_alike(news[p], olds[p - 1], env, prec, fs);
            lemma_aligned_along_insertion(new, old, env, prec, fs, k, at, p + 1);
            assert(Seq::<EditTree>::empty() + Seq::<EditTree>::empty() =~= Seq::<
                EditTree,
            >::empty());
        }
    }
}

/// Where the new list is the old list with one node inserted whose
/// identifier no old node has, reconciling the two records exactly one
/// edit: the new node, printed afresh, at its place of insertion, which is
/// zero-width. None of the other nodes is touched: nothing is deleted or
/// printed afresh. The kept nodes may carry placeholders that the old
/// ones lack. The old list must hold a node next to that place whose text
/// can be rewritten. This is stated of the scripts that reconciliation is
/// given for the two lists and those within them.
pub proof fn law_single_insertion(
    new: Node,
    old: Node,
    env: Env,
    prec: ExprPrec,
    fs: Span,
    k: int,
    at: int,
)
    requires
        0 <= k < new.fields.len(),
        new.fields[k].aligned,
        sound_aligned_field(new, old, env, prec, fs, k),
        0 <= at <= old.fields[k].nodes.len(),
        kept_around(new.fields[k].nodes@, old.fields[k].nodes@, at),
        !ids(old.fields[k].nodes@).contains(new.fields[k].nodes[at].id),
        forall|i: int| 0 <= i < old.fields[k].nodes.len() ==> alignable(old.fields[k].nodes[i]),
        diffable(old.fields[k].nodes.len() as nat, new.fields[k].nodes.len() as nat),
        insertion_point(old.fields[k].nodes@, at) is Some,
    ensures
        aligned_field(new, old, env, prec, fs, k) == Some(
            seq![
                splice_at(
                    new.fields[k].nodes[at],
                    insertion_point(old.fields[k].nodes@, at)->0,
                    env,
                    prec,
                ),
            ],
        ),
        splice_at(
            new.fields[k].nodes[at],
            insertion_point(old.fields[k].nodes@, at)->0,
            env,
            prec,
        ).target == insertion_point(old.fields[k].nodes@, at)->0,
        insertion_point(old.fields[k].nodes@, at)->0.empty(),
        at > 0 && rewritable(old.fields[k].nodes[at - 1].span) ==> insertion_point(
            old.fields[k].nodes@,
            at,
        )->0 == end_of(old.fields[k].nodes[at - 1].span),
        at == 0 ==> insertion_point(old.fields[k].nodes@, at)->0 == start_of(
            old.fields[k].nodes[0].span,
        ),
{
    let olds = old.fields[k].nodes@;
    let news = new.fields[k].nodes@;
    let a = ids(olds);
    let b = ids(news);
    assert(b =~= a.insert(at, news[at].id)) by {
        assert forall|j: int| 0 <= j < b.len() implies b[j] == a.insert(at, news[at].id)[j] by {
            if j < at {
                assert(alike(news[j], olds[j]));
            } else if j > at {
                assert(alike(news[j], olds[j - 1]));
            }
        }
    }
    assert(a.len() == olds.len() && b.len() == news.len());
    assert(olds.len() > 0) by {
        // A place of insertion has a neighbour.
        if olds.len() == 0 {
            assert(insertion_point(olds, at) is None);
        }
    }
    lemma_script_of_insertion(diff_script(a, b), a, at, news[at].id);
    lemma_aligned_along_insertion(new, old, env, prec, fs, k, at, 0);
}

} // verus!
