//! Reconciling a tree with itself records nothing.
//!
//! A new tree carries placeholders and the old tree, as it was parsed,
//! does not. So "itself" is taken but for placeholders: the two trees are
//! `alike`.

use vstd::prelude::*;
use crate::align::{all_both, diff_script, diffable, lemma_script_of_equal_lists};
use crate::edit::EditTree;
use crate::model::{
    aligned, aligned_field, ids, positional, qualifier_edits, recover, recoverable, recycled,
    recycled_default, recycled_field, recycled_fields, same_head, sound_aligned,
    sound_aligned_field, sound_field, sound_fields, sound_positional, sound_recycled,
};
use crate::node::{alike, children_alike, printed_header, Node};
use crate::prec::ExprPrec;
use crate::span::Span;
use crate::table::Env;

verus! {

/// Every aligned list of the tree is short enough to be aligned with a
/// list of its own length.
pub open spec fn alignable(n: Node) -> bool
    decreases n,
{
    &&& forall|k: int|
        0 <= k < n.fields.len() && (#[trigger] n.fields[k]).aligned ==> diffable(
            n.fields[k].nodes.len() as nat,
            n.fields[k].nodes.len() as nat,
        )
    &&& forall|k: int, i: int|
        0 <= k < n.fields.len() && 0 <= i < n.fields[k].nodes.len() ==> alignable(
            #[trigger] n.fields[k].nodes[i],
        )
}

proof fn lemma_positional_alike(
    new: Node,
    old: Node,
    env: Env,
    prec: ExprPrec,
    fs: Span,
    k: int,
    i: int,
)
    requires
        children_alike(new, old),
        alignable(old),
        0 <= k < new.fields.len(),
        0 <= i,
        sound_positional(new, old, env, prec, fs, k, i),
    ensures
        positional(new, old, env, prec, fs, k, i) == Some(Seq::<EditTree>::empty()),
    decreases new, 3nat, new.fields[k].nodes.len() - i,
{
    if i < new.fields[k].nodes.len() {
        assert(alike(new.fields[k].nodes[i], old.fields[k].nodes[i]));
        assert(alignable(old.fields[k].nodes[i]));
        lemma_recycled_alike(new.fields[k].nodes[i], old.fields[k].nodes[i], env, prec, fs);
        lemma_positional_alike(new, old, env, prec, fs, k, i + 1);
        assert(Seq::<EditTree>::empty() + Seq::<EditTree>::empty() =~= Seq::<EditTree>::empty());
    }
}

proof fn lemma_aligned_alike(
    new: Node,
    old: Node,
    env: Env,
    prec: ExprPrec,
    fs: Span,
    k: int,
    p: int,
)
    requires
        children_alike(new, old),
        alignable(old),
        0 <= k < new.fields.len(),
        0 <= p,
        sound_aligned(
            new,
            old,
            env,
            prec,
            fs,
            k,
            all_both(new.fields[k].nodes.len() as nat),
            p,
            p,
            p,
        ),
    ensures
        aligned(new, old, env, prec, fs, k, all_both(new.fields[k].nodes.len() as nat), p, p, p)
            == Some(Seq::<EditTree>::empty()),
    decreases new, 3nat, new.fields[k].nodes.len() - p,
{
    if p < new.fields[k].nodes.len() {
        assert(alike(new.fields[k].nodes[p], old.fields[k].nodes[p]));
        assert(alignable(old.fields[k].nodes[p]));
        lemma_recycled_alike(new.fields[k].nodes[p], old.fields[k].nodes[p], env, prec, fs);
        lemma_aligned_alike(new, old, env, prec, fs, k, p + 1);
        assert(Seq::<EditTree>::empty() + Seq::<EditTree>::empty() =~= Seq::<EditTree>::empty());
    }
}

/// The children of two nodes that are alike but for placeholders are
/// reconciled without an edit.
pub proof fn lemma_fields_alike(new: Node, old: Node, env: Env, prec: ExprPrec, fs: Span, k: int)
    requires
        children_alike(new, old),
        alignable(old),
        0 <= k,
        sound_fields(new, old, env, prec, fs, k),
    ensures
        recycled_fields(new, old, env, prec, fs, k) == Some(Seq::<EditTree>::empty()),
    decreases new, 6nat, new.fields.len() - k,
{
    if k < new.fields.len() {
        let demand = new.fields[k].demand(prec);
        assert(sound_field(new, old, env, prec, fs, k));
        assert(new.fields[k].aligned == old.fields[k].aligned);
        assert(new.fields[k].nodes.len() == old.fields[k].nodes.len());
        if new.fields[k].aligned {
            let a = ids(old.fields[k].nodes@);
            let b = ids(new.fields[k].nodes@);
            assert(a =~= b) by {
                assert forall|i: int| 0 <= i < a.len() implies a[i] == b[i] by {
                    assert(alike(new.fields[k].nodes[i], old.fields[k].nodes[i]));
                }
            }
            assert(a.len() == old.fields[k].nodes.len());
            assert(sound_aligned_field(new, old, env, demand, fs, k));
            lemma_script_of_equal_lists(diff_script(a, a), a);
            lemma_aligned_alike(new, old, env, demand, fs, k, 0);
            assert(aligned_field(new, old, env, demand, fs, k) == Some(Seq::<EditTree>::empty()));
        } else {
            lemma_positional_alike(new, old, env, demand, fs, k, 0);
        }
        assert(recycled_field(new, old, env, prec, fs, k) == Some(Seq::<EditTree>::empty()));
        lemma_fields_alike(new, old, env, prec, fs, k + 1);
        assert(Seq::<EditTree>::empty() + Seq::<EditTree>::empty() =~= Seq::<EditTree>::empty());
    }
}

/// In recycled mode a node reconciled with a node that is alike but for
/// placeholders records nothing and does not fail.
pub proof fn lemma_recycled_alike(new: Node, old: Node, env: Env, prec: ExprPrec, fs: Span)
    requires
        alike(new, old),
        alignable(old),
        sound_recycled(new, old, env, prec, fs),
    ensures
        recycled(new, old, env, prec, fs) == Some(Seq::<EditTree>::empty()),
    decreases new, 8nat, 0nat,
{
    assert(same_head(new, old));
    lemma_fields_alike(new, old, env, prec, fs, 0);
    assert(recycled_default(new, old, env, prec, fs) == Some(Seq::<EditTree>::empty()));
}

/// Reconciling a tree with itself gives the empty list of edits, whatever
/// the tables hold and wherever the tree stands: no element of a list is
/// inserted, deleted or replaced, and no declaration has its header
/// edited or is printed afresh. The new tree may carry placeholders that
/// the old one lacks. This is stated of the scripts that reconciliation is
/// given for the lists of the tree.
pub proof fn law_tree_against_itself(new: Node, old: Node, env: Env, prec: ExprPrec, fs: Span)
    requires
        alike(new, old),
        alignable(old),
        sound_recycled(new, old, env, prec, fs),
    ensures
        recycled(new, old, env, prec, fs) == Some(Seq::<EditTree>::empty()),
{
    lemma_recycled_alike(new, old, env, prec, fs);
}

/// Where two declarations differ in their qualifiers alone, and the old
/// one has a header to edit, reconciling them records the edits of the
/// qualifiers that differ and nothing else: no child is touched, and the
/// declaration is not printed afresh.
pub proof fn law_only_qualifiers_are_edited(
    new: Node,
    old: Node,
    env: Env,
    prec: ExprPrec,
    fs: Span,
)
    requires
        recoverable(new, old),
        !same_head(new, old),
        children_alike(new, old),
        alignable(old),
        sound_recycled(new, old, env, prec, fs),
    ensures
        recycled(new, old, env, prec, fs) == Some(
            qualifier_edits(
                new.kind->Item_0.is_fn,
                new.kind->Item_0.quals,
                old.kind->Item_0.quals,
                printed_header(new)->0,
                old.kind->Item_0.header->0,
            ),
        ),
{
    lemma_fields_alike(new, old, env, prec, fs, 0);
    let quals = qualifier_edits(
        new.kind->Item_0.is_fn,
        new.kind->Item_0.quals,
        old.kind->Item_0.quals,
        printed_header(new)->0,
        old.kind->Item_0.header->0,
    );
    assert(Seq::<EditTree>::empty() + quals =~= quals);
    assert(recover(new, old, env, prec, fs) == Some(quals));
}

} // verus!
