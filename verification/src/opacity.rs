//! Text that a macro wrote is never the target of an edit.

use vstd::prelude::*;
use crate::align::{diff_script, Step};
use crate::edit::EditTree;
use crate::model::{
    aligned, fresh, fresh_children, ids, insertion_point, positional,
    qualifier_edits, recover, recycled, recycled_default, recycled_field, recycled_fields, revert,
    splice, splice_at,
};
use crate::node::{mirrors, printed_header, renderable, Node};
use crate::prec::ExprPrec;
use crate::rewrite::rewritten;
use crate::span::{rewritable, Span};
use crate::table::{env_of, Env, SourceMap};

verus! {

/// Neither the target of the edit nor that of any edit nested in it is
/// text that a macro wrote.
pub open spec fn in_source(e: EditTree) -> bool
    decreases e,
{
    &&& e.target.ctxt == 0
    &&& forall|i: int| 0 <= i < e.nested.len() ==> in_source(#[trigger] e.nested[i])
}

/// `in_source` holds of each edit of the list.
pub open spec fn all_in_source(edits: Seq<EditTree>) -> bool {
    forall|i: int| 0 <= i < edits.len() ==> in_source(#[trigger] edits[i])
}

/// No span of the placeholder is text that a macro wrote.
pub open spec fn printed_in_source(ph: Node) -> bool
    decreases ph,
{
    &&& ph.span.ctxt == 0
    &&& forall|k: int, i: int|
        0 <= k < ph.fields.len() && 0 <= i < ph.fields[k].nodes.len() ==> printed_in_source(
            #[trigger] ph.fields[k].nodes[i],
        )
}

/// `printed_in_source` holds of every placeholder in the tree at `n`.
pub open spec fn placeholders_in_source(n: Node) -> bool
    decreases n,
{
    &&& n.printed is Some ==> printed_in_source(*n.printed->0)
    &&& forall|k: int, i: int|
        0 <= k < n.fields.len() && 0 <= i < n.fields[k].nodes.len() ==> placeholders_in_source(
            #[trigger] n.fields[k].nodes[i],
        )
}

/// What the lemmas below assume of the new tree.
pub open spec fn setting(new: Node) -> bool {
    &&& renderable(new)
    &&& placeholders_in_source(new)
}

proof fn lemma_concat(a: Seq<EditTree>, b: Seq<EditTree>)
    requires
        all_in_source(a),
        all_in_source(b),
    ensures
        all_in_source(a + b),
{
    assert forall|i: int| 0 <= i < (a + b).len() implies in_source(#[trigger] (a + b)[i]) by {
        if i < a.len() {
            assert((a + b)[i] == a[i]);
        } else {
            assert((a + b)[i] == b[i - a.len()]);
        }
    }
}

proof fn lemma_fresh_children(
    new: Node,
    ph: Node,
    env: Env,
    prec: ExprPrec,
    fs: Span,
    k: int,
    i: int,
)
    requires
        setting(new),
        mirrors(new, ph),
        printed_in_source(ph),
        0 <= k,
        0 <= i,
    ensures
        all_in_source(fresh_children(new, ph, env, prec, fs, k, i)),
    decreases new, 0nat, new.fields.len() - k, new.fields[k].nodes.len() - i,
{
    if k < new.fields.len() {
        if i >= new.fields[k].nodes.len() {
            lemma_fresh_children(new, ph, env, prec, fs, k + 1, 0);
        } else {
            assert(new.fields[k].nodes.len() == ph.fields[k].nodes.len());
            let c = new.fields[k].nodes[i];
            let pc = ph.fields[k].nodes[i];
            assert(mirrors(c, pc));
            assert(renderable(c));
            assert(placeholders_in_source(c));
            assert(printed_in_source(pc));
            lemma_fresh(c, pc, env, new.fields[k].demand(prec), fs);
            lemma_fresh_children(new, ph, env, prec, fs, k, i + 1);
            lemma_concat(
                fresh(c, pc, env, new.fields[k].demand(prec), fs),
                fresh_children(new, ph, env, prec, fs, k, i + 1),
            );
        }
    }
}

proof fn lemma_splice_at(new: Node, target: Span, env: Env, prec: ExprPrec)
    requires
        setting(new),
        new.kind.insertable(),
        target.ctxt == 0,
    ensures
        in_source(splice_at(new, target, env, prec)),
    decreases new, 1nat, 0nat, 0nat,
{
    lemma_fresh_children(new, *new.printed->0, env, prec, new.span, 0, 0);
}

proof fn lemma_positional(
    new: Node,
    old: Node,
    env: Env,
    prec: ExprPrec,
    fs: Span,
    k: int,
    i: int,
)
    requires
        setting(new),
        0 <= k < new.fields.len(),
        k < old.fields.len(),
        new.fields[k].nodes.len() == old.fields[k].nodes.len(),
        0 <= i,
    ensures
        positional(new, old, env, prec, fs, k, i) is Some ==> all_in_source(
            positional(new, old, env, prec, fs, k, i)->0,
        ),
    decreases new, 3nat, new.fields[k].nodes.len() - i, 0nat,
{
    if i < new.fields[k].nodes.len() {
        let c = new.fields[k].nodes[i];
        let o = old.fields[k].nodes[i];
        assert(renderable(c) && placeholders_in_source(c));
        lemma_recycled(c, o, env, prec, fs);
        lemma_positional(new, old, env, prec, fs, k, i + 1);
        if positional(new, old, env, prec, fs, k, i) is Some {
            lemma_concat(
                recycled(c, o, env, prec, fs)->0,
                positional(new, old, env, prec, fs, k, i + 1)->0,
            );
        }
    }
}

proof fn lemma_aligned(
    new: Node,
    old: Node,
    env: Env,
    prec: ExprPrec,
    fs: Span,
    k: int,
    steps: Seq<Step>,
    p: int,
    i: int,
    j: int,
)
    requires
        setting(new),
        0 <= k < new.fields.len(),
        k < old.fields.len(),
        new.fields[k].aligned,
        old.fields[k].aligned,
        0 <= p,
    ensures
        aligned(new, old, env, prec, fs, k, steps, p, i, j) is Some ==> all_in_source(
            aligned(new, old, env, prec, fs, k, steps, p, i, j)->0,
        ),
    decreases new, 3nat, steps.len() - p, 0nat,
{
    let news = new.fields[k].nodes@;
    let olds = old.fields[k].nodes@;
    let whole = aligned(new, old, env, prec, fs, k, steps, p, i, j);
    if p < steps.len() && whole is Some {
        match steps[p] {
            Step::Left => {
                lemma_aligned(new, old, env, prec, fs, k, steps, p + 1, i + 1, j);
                let first = crate::model::deleted(olds[i].span);
                assert(all_in_source(first));
                lemma_concat(
                    first,
                    aligned(new, old, env, prec, fs, k, steps, p + 1, i + 1, j)->0,
                );
            },
            Step::Right => {
                lemma_aligned(new, old, env, prec, fs, k, steps, p + 1, i, j + 1);
                let at = insertion_point(olds, i)->0;
                let c = new.fields[k].nodes[j];
                assert(renderable(c) && placeholders_in_source(c) && c.kind.insertable());
                lemma_splice_at(c, at, env, prec);
                let first = seq![splice_at(c, at, env, prec)];
                assert(in_source(first[0]));
                lemma_concat(
                    first,
                    aligned(new, old, env, prec, fs, k, steps, p + 1, i, j + 1)->0,
                );
            },
            Step::Both => {
                lemma_aligned(new, old, env, prec, fs, k, steps, p + 1, i + 1, j + 1);
                let c = new.fields[k].nodes[j];
                let o = old.fields[k].nodes[i];
                assert(renderable(c) && placeholders_in_source(c));
                        lemma_recycled(c, o, env, prec, fs);
                lemma_concat(
                    recycled(c, o, env, prec, fs)->0,
                    aligned(new, old, env, prec, fs, k, steps, p + 1, i + 1, j + 1)->0,
                );
            },
        }
    }
}

proof fn lemma_fields(new: Node, old: Node, env: Env, prec: ExprPrec, fs: Span, k: int)
    requires
        setting(new),
        new.fields.len() == old.fields.len(),
        0 <= k,
    ensures
        recycled_fields(new, old, env, prec, fs, k) is Some ==> all_in_source(
            recycled_fields(new, old, env, prec, fs, k)->0,
        ),
    decreases new, 6nat, new.fields.len() - k, 0nat,
{
    if k < new.fields.len() && recycled_fields(new, old, env, prec, fs, k) is Some {
        let demand = new.fields[k].demand(prec);
        if new.fields[k].aligned {
            let steps = diff_script(ids(old.fields[k].nodes@), ids(new.fields[k].nodes@));
            lemma_aligned(new, old, env, demand, fs, k, steps, 0, 0, 0);
        } else {
            lemma_positional(new, old, env, demand, fs, k, 0);
        }
        lemma_fields(new, old, env, prec, fs, k + 1);
        lemma_concat(
            recycled_field(new, old, env, prec, fs, k)->0,
            recycled_fields(new, old, env, prec, fs, k + 1)->0,
        );
    }
}

proof fn lemma_recycled(new: Node, old: Node, env: Env, prec: ExprPrec, fs: Span)
    requires
        setting(new),
    ensures
        recycled(new, old, env, prec, fs) is Some ==> all_in_source(
            recycled(new, old, env, prec, fs)->0,
        ),
    decreases new, 8nat, 0nat, 0nat,
{
    if recycled_default(new, old, env, prec, fs) is Some {
        lemma_fields(new, old, env, prec, fs, 0);
    } else if new.kind.class() is Some {
        if recover(new, old, env, prec, fs) is Some {
            lemma_fields(new, old, env, prec, fs, 0);
            let quals = qualifier_edits(
                new.kind->Item_0.is_fn,
                new.kind->Item_0.quals,
                old.kind->Item_0.quals,
                printed_header(new)->0,
                old.kind->Item_0.header->0,
            );
            assert(old.kind->Item_0.header->0.in_source());
            assert(all_in_source(quals));
            lemma_concat(recycled_fields(new, old, env, prec, fs, 0)->0, quals);
        } else if rewritable(old.span) {
            lemma_splice_at(new, old.span, env, prec);
        }
    }
}

proof fn lemma_fresh(new: Node, ph: Node, env: Env, prec: ExprPrec, fs: Span)
    requires
        setting(new),
        mirrors(new, ph),
        printed_in_source(ph),
    ensures
        all_in_source(fresh(new, ph, env, prec, fs)),
    decreases new, 10nat, 0nat, 0nat,
{
    if revert(new, ph, env, prec, fs) is Some {
        let old = env.lookup(new.kind.class()->0, new.id)->0;
        lemma_recycled(new, old, env, prec, fs);
        let nested = recycled(new, old, env, prec, fs)->0;
        let e = revert(new, ph, env, prec, fs)->0;
        assert(e.nested == nested);
        assert(in_source(e));
    } else {
        lemma_fresh_children(new, ph, env, prec, fs, 0, 0);
    }
}

/// A splice point whose old text cannot be rewritten is abandoned: the
/// switch to fresh text records nothing for it.
pub proof fn law_unrewritable_node_is_abandoned(new: Node, old: Node, env: Env, prec: ExprPrec)
    requires
        !rewritable(old.span),
    ensures
        splice(new, old, env, prec) == Seq::<EditTree>::empty(),
{
}

/// An old element whose text cannot be rewritten, and that the new list
/// lacks, is abandoned: nothing is recorded for it.
pub proof fn law_unrewritable_element_is_not_deleted(target: Span)
    requires
        !rewritable(target),
    ensures
        crate::model::deleted(target) == Seq::<EditTree>::empty(),
{
}

/// A declaration whose header a macro wrote is not reconciled qualifier by
/// qualifier.
pub proof fn law_macro_header_is_not_recovered(
    new: Node,
    old: Node,
    env: Env,
    prec: ExprPrec,
    fs: Span,
)
    requires
        old.kind is Item,
        old.kind->Item_0.header is Some,
        !old.kind->Item_0.header->0.in_source(),
    ensures
        recover(new, old, env, prec, fs) is None,
{
}

/// No edit, at any depth, has for its target text that a macro wrote:
/// every target has the hygiene context of plain source text, whatever the
/// old tree holds. This is stated of placeholders that are printed text.
pub proof fn law_macro_text_is_never_a_target(old: Node, new: Node, files: SourceMap)
    requires
        renderable(new),
        placeholders_in_source(new),
    ensures
        rewritten(old, new, files) is Some ==> all_in_source(rewritten(old, new, files)->0),
{
    lemma_recycled(
        new,
        old,
        env_of(old, files),
        ExprPrec::Normal(crate::prec::PREC_RESET),
        Span::dummy_spec(),
    );
}

} // verus!
