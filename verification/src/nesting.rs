//! Nested edits stay within the text that their parent puts in place.

use vstd::prelude::*;
use crate::align::{diff_script, Step};
use crate::edit::EditTree;
use crate::model::{
    aligned, fresh, fresh_children, ids, insertion_point, positional, qualifier_edits, recover,
    recycled, recycled_default, recycled_field, recycled_fields, revert, splice_at,
};
use crate::node::{
    descendants_from, mirrors, printed_header, renderable, subtree, Class, Node,
};
use crate::overlap::{
    apart, child_at, disjoint, edits_outside, lemma_join_across, lemma_outside_join,
    lemma_recycled_orderly, lemma_widen, orderly, outside, well_nested, within,
};
use crate::prec::ExprPrec;
use crate::rewrite::rewritten;
use crate::span::{rewritable, Span};
use crate::table::{entered, env_of, lemma_entered_is_member, Env, SourceMap};

verus! {

/// The edits nested in `e` have valid targets within the text that `e`
/// puts in place, no two of which overlap, and so on at every depth.
pub open spec fn tidy(e: EditTree) -> bool
    decreases e,
{
    &&& orderly(e.nested, e.source)
    &&& forall|i: int| 0 <= i < e.nested.len() ==> tidy(#[trigger] e.nested[i])
}

/// `tidy` holds of each edit of the list.
pub open spec fn all_tidy(edits: Seq<EditTree>) -> bool {
    forall|i: int| 0 <= i < edits.len() ==> tidy(#[trigger] edits[i])
}

/// The spans of every placeholder in the tree at `n` are nested as its
/// nodes are.
pub open spec fn placeholders_nested(n: Node) -> bool
    decreases n,
{
    &&& n.printed is Some ==> well_nested(*n.printed->0)
    &&& forall|k: int, i: int| child_at(n, k, i) ==> placeholders_nested(#[trigger] n.fields[k].nodes[i])
}

/// The spans of every old node of the tables are nested as its nodes are.
pub open spec fn env_nested(env: Env) -> bool {
    forall|class: Class, id: u32|
        (#[trigger] env.lookup(class, id)) is Some ==> well_nested(env.lookup(class, id)->0)
}

/// What the lemmas below assume of the new tree and of the tables.
pub open spec fn nested_setting(new: Node, env: Env) -> bool {
    &&& env_nested(env)
    &&& renderable(new)
    &&& placeholders_nested(new)
}

/// The children of `n` from position `i` of field `k` on share no byte
/// with `lo..hi`.
pub open spec fn rest_outside(n: Node, k: int, i: int, lo: int, hi: int) -> bool {
    forall|k2: int, i2: int|
        child_at(n, k2, i2) && (k2 > k || (k2 == k && i2 >= i)) ==> outside(
            (#[trigger] n.fields[k2].nodes[i2]).span,
            lo,
            hi,
        )
}

proof fn lemma_tidy_join(a: Seq<EditTree>, b: Seq<EditTree>)
    requires
        all_tidy(a),
        all_tidy(b),
    ensures
        all_tidy(a + b),
{
    assert forall|i: int| 0 <= i < (a + b).len() implies tidy(#[trigger] (a + b)[i]) by {
        if i < a.len() {
            assert((a + b)[i] == a[i]);
        } else {
            assert((a + b)[i] == b[i - a.len()]);
        }
    }
}

proof fn lemma_fresh_children_outside(
    new: Node,
    ph: Node,
    env: Env,
    prec: ExprPrec,
    fs: Span,
    k: int,
    i: int,
    lo: int,
    hi: int,
)
    requires
        nested_setting(new, env),
        mirrors(new, ph),
        well_nested(ph),
        0 <= k,
        0 <= i,
        rest_outside(ph, k, i, lo, hi),
    ensures
        edits_outside(fresh_children(new, ph, env, prec, fs, k, i), lo, hi),
    decreases new, 0nat, new.fields.len() - k, new.fields[k].nodes.len() - i, 0nat,
{
    if k < new.fields.len() {
        if i >= new.fields[k].nodes.len() {
            lemma_fresh_children_outside(new, ph, env, prec, fs, k + 1, 0, lo, hi);
        } else {
            assert(new.fields[k].nodes.len() == ph.fields[k].nodes.len());
            let c = new.fields[k].nodes[i];
            let pc = ph.fields[k].nodes[i];
            assert(child_at(ph, k, i) && child_at(new, k, i));
            assert(mirrors(c, pc) && renderable(c) && placeholders_nested(c) && well_nested(pc));
            let demand = new.fields[k].demand(prec);
            lemma_fresh_orderly(c, pc, env, demand, fs);
            assert(outside(pc.span, lo, hi));
            assert(edits_outside(fresh(c, pc, env, demand, fs), lo, hi));
            lemma_fresh_children_outside(new, ph, env, prec, fs, k, i + 1, lo, hi);
            lemma_outside_join(
                fresh(c, pc, env, demand, fs),
                fresh_children(new, ph, env, prec, fs, k, i + 1),
                lo,
                hi,
            );
        }
    }
}

proof fn lemma_fresh_children_orderly(
    new: Node,
    ph: Node,
    env: Env,
    prec: ExprPrec,
    fs: Span,
    k: int,
    i: int,
)
    requires
        nested_setting(new, env),
        mirrors(new, ph),
        well_nested(ph),
        0 <= k,
        0 <= i,
    ensures
        orderly(fresh_children(new, ph, env, prec, fs, k, i), ph.span),
        all_tidy(fresh_children(new, ph, env, prec, fs, k, i)),
    decreases new, 0nat, new.fields.len() - k, new.fields[k].nodes.len() - i, 1nat,
{
    if k < new.fields.len() {
        if i >= new.fields[k].nodes.len() {
            lemma_fresh_children_orderly(new, ph, env, prec, fs, k + 1, 0);
        } else {
            assert(new.fields[k].nodes.len() == ph.fields[k].nodes.len());
            let c = new.fields[k].nodes[i];
            let pc = ph.fields[k].nodes[i];
            assert(child_at(ph, k, i) && child_at(new, k, i));
            assert(mirrors(c, pc) && renderable(c) && placeholders_nested(c) && well_nested(pc));
            let demand = new.fields[k].demand(prec);
            let first = fresh(c, pc, env, demand, fs);
            let rest = fresh_children(new, ph, env, prec, fs, k, i + 1);
            lemma_fresh_orderly(c, pc, env, demand, fs);
            lemma_fresh_children_orderly(new, ph, env, prec, fs, k, i + 1);
            assert(rest_outside(ph, k, i + 1, pc.span.lo as int, pc.span.hi as int)) by {
                assert forall|k2: int, i2: int|
                    child_at(ph, k2, i2) && (k2 > k || (k2 == k && i2 >= i + 1)) implies outside(
                    (#[trigger] ph.fields[k2].nodes[i2]).span,
                    pc.span.lo as int,
                    pc.span.hi as int,
                ) by {
                    assert(apart(ph.fields[k2].nodes[i2].span, ph.fields[k].nodes[i].span));
                }
            }
            lemma_fresh_children_outside(
                new,
                ph,
                env,
                prec,
                fs,
                k,
                i + 1,
                pc.span.lo as int,
                pc.span.hi as int,
            );
            lemma_widen(first, pc.span, ph.span);
            lemma_join_across(first, rest, pc.span, ph.span);
            lemma_tidy_join(first, rest);
        }
    }
}

proof fn lemma_splice_at_tidy(new: Node, target: Span, env: Env, prec: ExprPrec)
    requires
        nested_setting(new, env),
        new.kind.insertable(),
    ensures
        tidy(splice_at(new, target, env, prec)),
    decreases new, 1nat, 0nat, 0nat, 0nat,
{
    lemma_fresh_children_orderly(new, *new.printed->0, env, prec, new.span, 0, 0);
}

proof fn lemma_positional_tidy(
    new: Node,
    old: Node,
    env: Env,
    prec: ExprPrec,
    fs: Span,
    k: int,
    i: int,
)
    requires
        nested_setting(new, env),
        well_nested(old),
        0 <= k < new.fields.len(),
        k < old.fields.len(),
        new.fields[k].nodes.len() == old.fields[k].nodes.len(),
        0 <= i,
    ensures
        positional(new, old, env, prec, fs, k, i) is Some ==> all_tidy(
            positional(new, old, env, prec, fs, k, i)->0,
        ),
    decreases new, 3nat, new.fields[k].nodes.len() - i, 0nat, 0nat,
{
    if i < new.fields[k].nodes.len() && positional(new, old, env, prec, fs, k, i) is Some {
        let c = new.fields[k].nodes[i];
        let o = old.fields[k].nodes[i];
        assert(child_at(old, k, i) && child_at(new, k, i));
        assert(renderable(c) && placeholders_nested(c) && well_nested(o));
        lemma_recycled_tidy(c, o, env, prec, fs);
        lemma_positional_tidy(new, old, env, prec, fs, k, i + 1);
        lemma_tidy_join(
            recycled(c, o, env, prec, fs)->0,
            positional(new, old, env, prec, fs, k, i + 1)->0,
        );
    }
}

proof fn lemma_aligned_tidy(
    new: Node,
    old: Node,
    env: Env,
    prec: ExprPrec,
    fs: Span,
    k: int,
    steps: Seq<Step>,
    p: int,
    i: int,
    j: int,
)
    requires
        nested_setting(new, env),
        well_nested(old),
        0 <= k < new.fields.len(),
        k < old.fields.len(),
        new.fields[k].aligned,
        0 <= p,
    ensures
        aligned(new, old, env, prec, fs, k, steps, p, i, j) is Some ==> all_tidy(
            aligned(new, old, env, prec, fs, k, steps, p, i, j)->0,
        ),
    decreases new, 3nat, steps.len() - p, 0nat, 0nat,
{
    let olds = old.fields[k].nodes@;
    if p < steps.len() && aligned(new, old, env, prec, fs, k, steps, p, i, j) is Some {
        match steps[p] {
            Step::Left => {
                lemma_aligned_tidy(new, old, env, prec, fs, k, steps, p + 1, i + 1, j);
                let first = crate::model::deleted(olds[i].span);
                assert(all_tidy(first));
                lemma_tidy_join(
                    first,
                    aligned(new, old, env, prec, fs, k, steps, p + 1, i + 1, j)->0,
                );
            },
            Step::Right => {
                lemma_aligned_tidy(new, old, env, prec, fs, k, steps, p + 1, i, j + 1);
                let at = insertion_point(olds, i)->0;
                let c = new.fields[k].nodes[j];
                assert(child_at(new, k, j));
                assert(renderable(c) && placeholders_nested(c) && c.kind.insertable());
                lemma_splice_at_tidy(c, at, env, prec);
                let first = seq![splice_at(c, at, env, prec)];
                assert(tidy(first[0]));
                lemma_tidy_join(
                    first,
                    aligned(new, old, env, prec, fs, k, steps, p + 1, i, j + 1)->0,
                );
            },
            Step::Both => {
                lemma_aligned_tidy(new, old, env, prec, fs, k, steps, p + 1, i + 1, j + 1);
                let c = new.fields[k].nodes[j];
                let o = old.fields[k].nodes[i];
                assert(child_at(old, k, i) && child_at(new, k, j));
                assert(renderable(c) && placeholders_nested(c) && well_nested(o));
                lemma_recycled_tidy(c, o, env, prec, fs);
                lemma_tidy_join(
                    recycled(c, o, env, prec, fs)->0,
                    aligned(new, old, env, prec, fs, k, steps, p + 1, i + 1, j + 1)->0,
                );
            },
        }
    }
}

proof fn lemma_fields_tidy(new: Node, old: Node, env: Env, prec: ExprPrec, fs: Span, k: int)
    requires
        nested_setting(new, env),
        well_nested(old),
        new.fields.len() == old.fields.len(),
        0 <= k,
    ensures
        recycled_fields(new, old, env, prec, fs, k) is Some ==> all_tidy(
            recycled_fields(new, old, env, prec, fs, k)->0,
        ),
    decreases new, 6nat, new.fields.len() - k, 0nat, 0nat,
{
    if k < new.fields.len() && recycled_fields(new, old, env, prec, fs, k) is Some {
        let demand = new.fields[k].demand(prec);
        if new.fields[k].aligned {
            let steps = diff_script(ids(old.fields[k].nodes@), ids(new.fields[k].nodes@));
            lemma_aligned_tidy(new, old, env, demand, fs, k, steps, 0, 0, 0);
        } else {
            lemma_positional_tidy(new, old, env, demand, fs, k, 0);
        }
        lemma_fields_tidy(new, old, env, prec, fs, k + 1);
        lemma_tidy_join(
            recycled_field(new, old, env, prec, fs, k)->0,
            recycled_fields(new, old, env, prec, fs, k + 1)->0,
        );
    }
}

proof fn lemma_recycled_tidy(new: Node, old: Node, env: Env, prec: ExprPrec, fs: Span)
    requires
        nested_setting(new, env),
        well_nested(old),
    ensures
        recycled(new, old, env, prec, fs) is Some ==> all_tidy(recycled(new, old, env, prec, fs)->0),
    decreases new, 8nat, 0nat, 0nat, 0nat,
{
    if recycled_default(new, old, env, prec, fs) is Some {
        lemma_fields_tidy(new, old, env, prec, fs, 0);
    } else if new.kind.class() is Some {
        if recover(new, old, env, prec, fs) is Some {
            lemma_fields_tidy(new, old, env, prec, fs, 0);
            let quals = qualifier_edits(
                new.kind->Item_0.is_fn,
                new.kind->Item_0.quals,
                old.kind->Item_0.quals,
                printed_header(new)->0,
                old.kind->Item_0.header->0,
            );
            assert(all_tidy(quals));
            lemma_tidy_join(recycled_fields(new, old, env, prec, fs, 0)->0, quals);
        } else if rewritable(old.span) {
            lemma_splice_at_tidy(new, old.span, env, prec);
        }
    }
}

proof fn lemma_fresh_orderly(new: Node, ph: Node, env: Env, prec: ExprPrec, fs: Span)
    requires
        nested_setting(new, env),
        mirrors(new, ph),
        well_nested(ph),
    ensures
        orderly(fresh(new, ph, env, prec, fs), ph.span),
        all_tidy(fresh(new, ph, env, prec, fs)),
    decreases new, 10nat, 0nat, 0nat, 0nat,
{
    if revert(new, ph, env, prec, fs) is Some {
        let old = env.lookup(new.kind.class()->0, new.id)->0;
        lemma_recycled_tidy(new, old, env, prec, fs);
        lemma_recycled_orderly(new, old, env, prec, fs);
        let e = revert(new, ph, env, prec, fs)->0;
        assert(e.nested == recycled(new, old, env, prec, fs)->0);
        assert(e.source == old.span);
        assert(e.target == ph.span);
        assert(tidy(e));
    } else {
        lemma_fresh_children_orderly(new, ph, env, prec, fs, 0, 0);
    }
}

proof fn lemma_descendants_nested(n: Node, k: int, i: int)
    requires
        well_nested(n),
        0 <= k,
        0 <= i,
    ensures
        forall|j: int|
            0 <= j < descendants_from(n, k, i).len() ==> well_nested(
                #[trigger] descendants_from(n, k, i)[j],
            ),
    decreases n, 0nat, n.fields.len() - k, n.fields[k].nodes.len() - i,
{
    if k < n.fields.len() {
        if i >= n.fields[k].nodes.len() {
            lemma_descendants_nested(n, k + 1, 0);
            assert(descendants_from(n, k, i) == descendants_from(n, k + 1, 0));
        } else {
            let c = n.fields[k].nodes[i];
            assert(child_at(n, k, i));
            assert(descendants_from(n, k, i) == subtree(c) + descendants_from(n, k, i + 1));
            lemma_subtree_nested(c);
            lemma_descendants_nested(n, k, i + 1);
            let a = subtree(c);
            let b = descendants_from(n, k, i + 1);
            assert forall|j: int| 0 <= j < (a + b).len() implies well_nested(#[trigger] (a + b)[j]) by {
                if j < a.len() {
                    assert((a + b)[j] == a[j]);
                } else {
                    assert((a + b)[j] == b[j - a.len()]);
                }
            }
        }
    }
}

/// Where the spans of a tree are nested as its nodes are, so are those of
/// every subtree.
proof fn lemma_subtree_nested(n: Node)
    requires
        well_nested(n),
    ensures
        forall|j: int| 0 <= j < subtree(n).len() ==> well_nested(#[trigger] subtree(n)[j]),
    decreases n, 1nat, 0nat, 0nat,
{
    lemma_descendants_nested(n, 0, 0);
    let a = seq![n];
    let b = descendants_from(n, 0, 0);
    assert forall|j: int| 0 <= j < (a + b).len() implies well_nested(#[trigger] (a + b)[j]) by {
        if j < a.len() {
            assert((a + b)[j] == a[j]);
        } else {
            assert((a + b)[j] == b[j - a.len()]);
        }
    }
}

/// No two edits overlap, and every target is a valid span within the text
/// of the old tree, and so within the bounds of its file: of two targets
/// one ends where or before the other begins, so that a zero-width target
/// may touch the end of another and never lies strictly inside it. This is
/// stated of old trees whose spans are nested as their nodes are.
pub proof fn law_edits_do_not_overlap(old: Node, new: Node, files: SourceMap)
    requires
        well_nested(old),
        files.in_bounds(old.span),
    ensures
        rewritten(old, new, files) is Some ==> {
            let edits = rewritten(old, new, files)->0;
            &&& disjoint(edits)
            &&& within(edits, old.span)
            &&& forall|a: int| 0 <= a < edits.len() ==> files.in_bounds((#[trigger] edits[a]).target)
            &&& forall|a: int, b: int|
                0 <= a < b < edits.len() ==> apart(
                    (#[trigger] edits[a]).target,
                    (#[trigger] edits[b]).target,
                )
        },
{
    lemma_recycled_orderly(
        new,
        old,
        env_of(old, files),
        ExprPrec::Normal(crate::prec::PREC_RESET),
        Span::dummy_spec(),
    );
}

/// At every depth, the edits nested in an edit have valid targets within
/// the text that the edit puts in place, and no two of them overlap. This
/// is stated of old trees and placeholders whose spans are nested as their
/// nodes are.
pub proof fn law_nested_edits_do_not_overlap(old: Node, new: Node, files: SourceMap)
    requires
        well_nested(old),
        renderable(new),
        placeholders_nested(new),
    ensures
        rewritten(old, new, files) is Some ==> all_tidy(rewritten(old, new, files)->0),
{
    let env = env_of(old, files);
    assert(env_nested(env)) by {
        lemma_subtree_nested(old);
        assert forall|class: Class, id: u32| (#[trigger] env.lookup(class, id)) is Some implies well_nested(
            env.lookup(class, id)->0,
        ) by {
            lemma_entered_is_member(subtree(old), class, id);
            let o = entered(None, subtree(old), class, id)->0;
            assert(env.lookup(class, id) == Some(o));
        }
    }
    lemma_recycled_tidy(
        new,
        old,
        env,
        ExprPrec::Normal(crate::prec::PREC_RESET),
        Span::dummy_spec(),
    );
}

} // verus!
