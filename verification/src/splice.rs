//! Reconciliation of a new tree with the old one, node by node.

use vstd::prelude::*;
use crate::align::{
    align_ids, aligns, diff_script, faithful, lefts, lemma_prefix_counts, lemma_take_step, rights,
    Step,
};
use crate::edit::{forest, Edit, EditTree, RewriteCtxt};
use crate::model::{
    adjustment, aligned, aligned_field, deleted, fresh, fresh_children, ids, insertion_point,
    positional, qualifier_edit, qualifier_edits, recover, recoverable, recycled,
    recycled_default, recycled_field, recycled_fields, revert, same_head, sound_aligned,
    sound_aligned_field, sound_field, sound_fields, sound_fresh, sound_fresh_children,
    sound_positional, sound_recycled, sound_revert, sound_splice_at, splice, splice_at, then,
};
use crate::node::{
    is_header_in_source, mirrors, printed_header, renderable, HeaderSpans, Node, NodeKind,
    Qualifiers, SeqItem,
};
use crate::prec::{get_adjustment, ExprPrec, TextAdjust};
use crate::span::{end_point, is_rewritable, rewritable, span_empty, start_point, Span};
use crate::table::Session;

verus! {

/// What a reconciliation step did to the context: it failed exactly where
/// `outcome` is `None`, and then recorded nothing; otherwise it recorded
/// the edits of `outcome`. It leaves fresh start and position as they were.
pub open spec fn recorded(
    pre: RewriteCtxt,
    post: RewriteCtxt,
    failed: bool,
    outcome: Option<Seq<EditTree>>,
) -> bool {
    &&& failed == (outcome is None)
    &&& post.edits() == match outcome {
        Some(edits) => pre.edits() + edits,
        None => pre.edits(),
    }
    &&& post.fresh_start == pre.fresh_start
    &&& post.expr_prec == pre.expr_prec
}

/// Edits recorded one after the other are recorded as one list.
pub proof fn lemma_then_assoc(a: Seq<EditTree>, b: Seq<EditTree>, rest: Option<Seq<EditTree>>)
    ensures
        then(a, then(b, rest)) == then(a + b, rest),
{
    if let Some(r) = rest {
        assert(a + (b + r) =~= (a + b) + r);
    }
}

/// The adjustment of a node of the given kind at the given position.
pub fn adjustment_of(kind: NodeKind, prec: ExprPrec) -> (adj: TextAdjust)
    ensures
        adj == adjustment(kind, prec),
{
    match kind {
        NodeKind::Expr(info) => get_adjustment(&info, prec),
        _ => TextAdjust::AsIs,
    }
}

/// The identifiers of a list of nodes.
pub fn node_ids(nodes: &Vec<Node>) -> (out: Vec<u32>)
    ensures
        out@ == ids(nodes@),
{
    let mut out: Vec<u32> = Vec::new();
    let mut i: usize = 0;
    while i < nodes.len()
        invariant
            i <= nodes.len(),
            out@ == ids(nodes@.take(i as int)),
        decreases nodes.len() - i,
    {
        out.push(nodes[i].get_id());
        i += 1;
        assert(out@ =~= ids(nodes@.take(i as int)));
    }
    assert(nodes@.take(i as int) =~= nodes@);
    out
}

/// Records the edit that puts one qualifier of a printed header in place
/// of the old one. Where the old header lacks the qualifier, the byte after
/// the printed qualifier is copied with it, so that the inserted text is
/// followed by a space.
pub fn record_qualifier_rewrite(old_span: Span, new_span: Span, rcx: &mut RewriteCtxt)
    requires
        old_span.empty() && !new_span.empty() ==> new_span.hi < u32::MAX,
    ensures
        final(rcx).edits() == old(rcx).edits().push(qualifier_edit(old_span, new_span)),
        final(rcx).fresh_start == old(rcx).fresh_start,
        final(rcx).expr_prec == old(rcx).expr_prec,
{
    let src_span = if span_empty(old_span) && !span_empty(new_span) {
        new_span.with_hi(new_span.hi + 1)
    } else {
        new_span
    };
    let nested: Vec<Edit> = Vec::new();
    assert(forest(nested@) =~= Seq::<EditTree>::empty());
    rcx.record(old_span, src_span, nested, TextAdjust::AsIs);
}

/// Records one edit for each qualifier in which two headers differ, in the
/// order in which qualifiers stand in a header.
pub fn record_header_rewrites(
    is_fn: bool,
    new_quals: Qualifiers,
    old_quals: Qualifiers,
    new_header: HeaderSpans,
    old_header: HeaderSpans,
    rcx: &mut RewriteCtxt,
)
    requires
        new_header.extendable(),
    ensures
        final(rcx).edits() == old(rcx).edits() + qualifier_edits(
            is_fn,
            new_quals,
            old_quals,
            new_header,
            old_header,
        ),
        final(rcx).fresh_start == old(rcx).fresh_start,
        final(rcx).expr_prec == old(rcx).expr_prec,
{
    if new_quals.vis != old_quals.vis {
        record_qualifier_rewrite(old_header.vis, new_header.vis, rcx);
    }
    if is_fn && new_quals.constness != old_quals.constness {
        record_qualifier_rewrite(old_header.constness, new_header.constness, rcx);
    }
    if is_fn && new_quals.unsafety != old_quals.unsafety {
        record_qualifier_rewrite(old_header.unsafety, new_header.unsafety, rcx);
    }
    if is_fn && new_quals.abi != old_quals.abi {
        record_qualifier_rewrite(old_header.abi, new_header.abi, rcx);
    }
    if new_quals.ident != old_quals.ident {
        record_qualifier_rewrite(old_header.ident, new_header.ident, rcx);
    }
    assert(rcx.edits() =~= old(rcx).edits() + qualifier_edits(
        is_fn,
        new_quals,
        old_quals,
        new_header,
        old_header,
    ));
}

/// Fresh mode below a node: tries to put old text back into the printed
/// text of each child of `new`, of which `ph` says where it stands.
pub fn rewrite_fresh_children(new: &Node, ph: &Node, s: &Session, rcx: &mut RewriteCtxt)
    requires
        renderable(*new),
        mirrors(*new, *ph),
    ensures
        final(rcx).edits() == old(rcx).edits() + fresh_children(
            *new,
            *ph,
            s@,
            old(rcx).expr_prec,
            old(rcx).fresh_start,
            0,
            0,
        ),
        sound_fresh_children(*new, *ph, s@, old(rcx).expr_prec, old(rcx).fresh_start, 0, 0),
        final(rcx).fresh_start == old(rcx).fresh_start,
        final(rcx).expr_prec == old(rcx).expr_prec,
    decreases new, 0nat,
{
    let ghost prec = rcx.expr_prec;
    let ghost fs = rcx.fresh_start;
    let ghost goal = rcx.edits() + fresh_children(*new, *ph, s@, prec, fs, 0, 0);
    let ghost sound = sound_fresh_children(*new, *ph, s@, prec, fs, 0, 0);
    let mut k: usize = 0;
    while k < new.fields.len()
        invariant
            k <= new.fields.len(),
            renderable(*new),
            mirrors(*new, *ph),
            rcx.fresh_start == fs,
            rcx.expr_prec == prec,
            goal == rcx.edits() + fresh_children(*new, *ph, s@, prec, fs, k as int, 0),
            sound_fresh_children(*new, *ph, s@, prec, fs, k as int, 0) ==> sound,
        decreases new.fields.len() - k,
    {
        let saved = rcx.expr_prec();
        let demand = match new.fields[k].prec {
            Some(p) => p,
            None => saved,
        };
        rcx.replace_expr_prec(demand);
        let mut i: usize = 0;
        while i < new.fields[k].nodes.len()
            invariant
                k < new.fields.len(),
                i <= new.fields[k as int].nodes.len(),
                renderable(*new),
                mirrors(*new, *ph),
                rcx.fresh_start == fs,
                rcx.expr_prec == demand,
                demand == new.fields[k as int].demand(prec),
                goal == rcx.edits() + fresh_children(*new, *ph, s@, prec, fs, k as int, i as int),
                sound_fresh_children(*new, *ph, s@, prec, fs, k as int, i as int) ==> sound,
            decreases new.fields[k as int].nodes.len() - i,
        {
            let ghost before = rcx.edits();
            let ghost rest = fresh_children(*new, *ph, s@, prec, fs, k as int, i + 1);
            let ghost first = fresh(
                new.fields[k as int].nodes[i as int],
                ph.fields[k as int].nodes[i as int],
                s@,
                demand,
                fs,
            );
            assert(new.fields[k as int].nodes.len() == ph.fields[k as int].nodes.len());
            assert(mirrors(new.fields[k as int].nodes[i as int], ph.fields[k as int].nodes[i as int]));
            assert(renderable(new.fields[k as int].nodes[i as int]));
            rewrite_fresh(&new.fields[k].nodes[i], &ph.fields[k].nodes[i], s, rcx);
            assert(before + (first + rest) =~= (before + first) + rest);
            i += 1;
        }
        rcx.replace_expr_prec(saved);
        k += 1;
    }
    assert(rcx.edits() + Seq::<EditTree>::empty() =~= rcx.edits());
}

/// The switch from recycled to fresh mode at a given place: records the
/// edit that replaces the text at `target` by the printed text of `new`,
/// with old text put back inside it where that is possible.
pub fn splice_recycled_span(new: &Node, target: Span, s: &Session, rcx: &mut RewriteCtxt)
    requires
        renderable(*new),
        new.kind.insertable(),
    ensures
        final(rcx).edits() == old(rcx).edits().push(
            splice_at(*new, target, s@, old(rcx).expr_prec),
        ),
        sound_splice_at(*new, s@, old(rcx).expr_prec),
        final(rcx).fresh_start == old(rcx).fresh_start,
        final(rcx).expr_prec == old(rcx).expr_prec,
    decreases new, 1nat,
{
    match &new.printed {
        Some(ph) => {
            let mut sub = RewriteCtxt::nested(new.span, rcx.expr_prec());
            rewrite_fresh_children(new, ph, s, &mut sub);
            assert(sub.edits() =~= fresh_children(
                *new,
                **ph,
                s@,
                rcx.expr_prec,
                new.span,
                0,
                0,
            ));
            let adj = adjustment_of(new.kind, rcx.expr_prec());
            rcx.record(target, ph.span, sub.into_edits(), adj);
        },
        None => {
            let adj = adjustment_of(new.kind, rcx.expr_prec());
            let nested: Vec<Edit> = Vec::new();
            assert(forest(nested@) =~= Seq::<EditTree>::empty());
            rcx.record(target, Span::dummy(), nested, adj);
        },
    }
}

/// The switch from recycled to fresh mode: the text of `old` is replaced
/// by the printed text of `new`. Where `old` has no text that can be
/// rewritten the node is abandoned: nothing is recorded, and the text
/// around it stays as it is.
pub fn splice_recycled(new: &Node, orig: &Node, s: &Session, rcx: &mut RewriteCtxt)
    requires
        renderable(*new),
        new.kind.insertable(),
    ensures
        final(rcx).edits() == old(rcx).edits() + splice(*new, *orig, s@, old(rcx).expr_prec),
        rewritable(orig.span) ==> sound_splice_at(*new, s@, old(rcx).expr_prec),
        final(rcx).fresh_start == old(rcx).fresh_start,
        final(rcx).expr_prec == old(rcx).expr_prec,
    decreases new, 2nat,
{
    if !is_rewritable(orig.span) {
        assert(rcx.edits() + Seq::<EditTree>::empty() =~= rcx.edits());
        return ;
    }
    splice_recycled_span(new, orig.span, s, rcx);
    assert(old(rcx).edits().push(splice_at(*new, orig.span, s@, old(rcx).expr_prec)) =~= old(
        rcx,
    ).edits() + seq![splice_at(*new, orig.span, s@, old(rcx).expr_prec)]);
}

/// Reconciles the nodes of one unaligned field one to one. The field of
/// the old node must hold as many nodes.
pub fn rewrite_positional(
    new: &Node,
    orig: &Node,
    k: usize,
    s: &Session,
    rcx: &mut RewriteCtxt,
) -> (failed: bool)
    requires
        renderable(*new),
        k < new.fields.len(),
        k < orig.fields.len(),
        new.fields[k as int].nodes.len() == orig.fields[k as int].nodes.len(),
    ensures
        recorded(
            *old(rcx),
            *final(rcx),
            failed,
            positional(*new, *orig, s@, old(rcx).expr_prec, old(rcx).fresh_start, k as int, 0),
        ),
        sound_positional(*new, *orig, s@, old(rcx).expr_prec, old(rcx).fresh_start, k as int, 0),
    decreases new, 3nat,
{
    let ghost prec = rcx.expr_prec;
    let ghost fs = rcx.fresh_start;
    let ghost base = rcx.edits();
    let ghost goal = positional(*new, *orig, s@, prec, fs, k as int, 0);
    let ghost mut acc = Seq::<EditTree>::empty();
    let mark = rcx.mark();
    let mut i: usize = 0;
    assert(rcx.edits() =~= base + acc);
    proof {
        lemma_then_empty(goal);
    }
    while i < new.fields[k].nodes.len()
        invariant
            k < new.fields.len(),
            k < orig.fields.len(),
            new.fields[k as int].nodes.len() == orig.fields[k as int].nodes.len(),
            i <= new.fields[k as int].nodes.len(),
            renderable(*new),
            rcx.fresh_start == fs,
            rcx.expr_prec == prec,
            mark == base.len(),
            base == old(rcx).edits(),
            prec == old(rcx).expr_prec,
            fs == old(rcx).fresh_start,
            goal == positional(*new, *orig, s@, prec, fs, k as int, 0),
            rcx.edits() == base + acc,
            goal == then(acc, positional(*new, *orig, s@, prec, fs, k as int, i as int)),
            sound_positional(*new, *orig, s@, prec, fs, k as int, i as int) ==> sound_positional(
                *new,
                *orig,
                s@,
                prec,
                fs,
                k as int,
                0,
            ),
        decreases new.fields[k as int].nodes.len() - i,
    {
        let ghost rest = positional(*new, *orig, s@, prec, fs, k as int, i + 1);
        let ghost first = recycled(
            new.fields[k as int].nodes[i as int],
            orig.fields[k as int].nodes[i as int],
            s@,
            prec,
            fs,
        );
        assert(renderable(new.fields[k as int].nodes[i as int]));
        if rewrite_recycled(&new.fields[k].nodes[i], &orig.fields[k].nodes[i], s, rcx) {
            rcx.rewind(mark);
            assert((base + acc).take(mark as int) =~= base);
            return true;
        }
        proof {
            lemma_then_assoc(acc, first->0, rest);
            assert((base + acc) + first->0 =~= base + (acc + first->0));
            acc = acc + first->0;
        }
        i += 1;
    }
    proof {
        assert(acc + Seq::<EditTree>::empty() =~= acc);
    }
    false
}

/// A list of edits followed by nothing is that list.
pub proof fn lemma_then_empty(rest: Option<Seq<EditTree>>)
    ensures
        then(Seq::empty(), rest) == rest,
{
    if let Some(r) = rest {
        assert(Seq::<EditTree>::empty() + r =~= r);
    }
}

/// Reconciles the nodes of one aligned field along an edit script of their
/// identifiers: an old node without counterpart is deleted, or abandoned
/// where its text cannot be rewritten; a new one is printed and inserted;
/// a matched pair is reconciled. It fails where the
/// old list is empty and the new one is not, where the lists are too long
/// to be aligned, where a new node has no place to be inserted at, and
/// where a matched pair fails.
pub fn rewrite_aligned(
    new: &Node,
    orig: &Node,
    k: usize,
    s: &Session,
    rcx: &mut RewriteCtxt,
) -> (failed: bool)
    requires
        renderable(*new),
        k < new.fields.len(),
        k < orig.fields.len(),
        new.fields[k as int].aligned,
    ensures
        recorded(
            *old(rcx),
            *final(rcx),
            failed,
            aligned_field(*new, *orig, s@, old(rcx).expr_prec, old(rcx).fresh_start, k as int),
        ),
        sound_aligned_field(*new, *orig, s@, old(rcx).expr_prec, old(rcx).fresh_start, k as int),
    decreases new, 4nat,
{
    let news = &new.fields[k].nodes;
    let olds = &orig.fields[k].nodes;
    if olds.len() == 0 && news.len() != 0 {
        return true;
    }
    let old_ids = node_ids(olds);
    let new_ids = node_ids(news);
    let steps = match align_ids(&old_ids, &new_ids) {
        Some(steps) => steps,
        None => {
            return true;
        },
    };
    let ghost prec = rcx.expr_prec;
    let ghost fs = rcx.fresh_start;
    let ghost base = rcx.edits();
    let ghost goal = aligned(*new, *orig, s@, prec, fs, k as int, steps@, 0, 0, 0);
    let ghost sound = sound_aligned(*new, *orig, s@, prec, fs, k as int, steps@, 0, 0, 0);
    let ghost mut acc = Seq::<EditTree>::empty();
    let mark = rcx.mark();
    let mut p: usize = 0;
    let mut i: usize = 0;
    let mut j: usize = 0;
    proof {
        assert(rcx.edits() =~= base + acc);
        lemma_then_empty(goal);
        assert(steps@.take(0) =~= Seq::<Step>::empty());
    }
    while p < steps.len()
        invariant
            k < new.fields.len(),
            k < orig.fields.len(),
            news == &new.fields[k as int].nodes,
            olds == &orig.fields[k as int].nodes,
            renderable(*new),
            new.fields[k as int].aligned,
            aligns(steps@, ids(olds@), ids(news@)),
            p <= steps.len(),
            i == lefts(steps@.take(p as int)),
            j == rights(steps@.take(p as int)),
            rcx.fresh_start == fs,
            rcx.expr_prec == prec,
            mark == base.len(),
            base == old(rcx).edits(),
            prec == old(rcx).expr_prec,
            fs == old(rcx).fresh_start,
            goal == aligned_field(*new, *orig, s@, prec, fs, k as int),
            rcx.edits() == base + acc,
            goal == then(
                acc,
                aligned(*new, *orig, s@, prec, fs, k as int, steps@, p as int, i as int, j as int),
            ),
            steps@ == diff_script(ids(olds@), ids(news@)),
            faithful(ids(olds@), ids(news@)),
            sound == sound_aligned(*new, *orig, s@, prec, fs, k as int, steps@, 0, 0, 0),
            sound ==> sound_aligned_field(*new, *orig, s@, prec, fs, k as int),
            sound_aligned(
                *new,
                *orig,
                s@,
                prec,
                fs,
                k as int,
                steps@,
                p as int,
                i as int,
                j as int,
            ) ==> sound,
        decreases steps.len() - p,
    {
        proof {
            lemma_take_step(steps@, p as int);
            lemma_prefix_counts(steps@, p + 1);
            assert(ids(olds@).len() == olds@.len());
            assert(ids(news@).len() == news@.len());
        }
        let ghost rest_left = aligned(*new, *orig, s@, prec, fs, k as int, steps@, p + 1, i + 1, j as int);
        let ghost rest_right = aligned(*new, *orig, s@, prec, fs, k as int, steps@, p + 1, i as int, j + 1);
        let ghost rest_both = aligned(*new, *orig, s@, prec, fs, k as int, steps@, p + 1, i + 1, j + 1);
        match steps[p] {
            Step::Left => {
                if is_rewritable(olds[i].get_span()) {
                    let nested: Vec<Edit> = Vec::new();
                    assert(forest(nested@) =~= Seq::<EditTree>::empty());
                    rcx.record(olds[i].get_span(), Span::dummy(), nested, TextAdjust::AsIs);
                }
                proof {
                    let first = deleted(olds[i as int].span);
                    lemma_then_assoc(acc, first, rest_left);
                    assert(rcx.edits() =~= base + (acc + first));
                    acc = acc + first;
                }
                assert(i < olds.len());
                i += 1;
            },
            Step::Right => {
                let before = if i > 0 {
                    olds[i - 1].get_span()
                } else {
                    Span::dummy()
                };
                let after = if i < olds.len() {
                    olds[i].get_span()
                } else {
                    Span::dummy()
                };
                let at = if is_rewritable(before) {
                    end_point(before)
                } else if is_rewritable(after) {
                    start_point(after)
                } else {
                    rcx.rewind(mark);
                    assert((base + acc).take(mark as int) =~= base);
                    return true;
                };
                assert(insertion_point(olds@, i as int) == Some(at));
                assert(renderable(new.fields[k as int].nodes[j as int]));
                assert(new.fields[k as int].nodes[j as int].kind.insertable());
                splice_recycled_span(&news[j], at, s, rcx);
                proof {
                    let e = splice_at(new.fields[k as int].nodes[j as int], at, s@, prec);
                    let first = seq![e];
                    lemma_then_assoc(acc, first, rest_right);
                    assert((base + acc).push(e) =~= base + (acc + first));
                    acc = acc + first;
                }
                j += 1;
            },
            Step::Both => {
                let ghost first = recycled(
                    new.fields[k as int].nodes[j as int],
                    orig.fields[k as int].nodes[i as int],
                    s@,
                    prec,
                    fs,
                );
                assert(renderable(new.fields[k as int].nodes[j as int]));
                if rewrite_recycled(&news[j], &olds[i], s, rcx) {
                    rcx.rewind(mark);
                    assert((base + acc).take(mark as int) =~= base);
                    return true;
                }
                proof {
                    lemma_then_assoc(acc, first->0, rest_both);
                    assert((base + acc) + first->0 =~= base + (acc + first->0));
                    acc = acc + first->0;
                }
                assert(i < olds.len());
                i += 1;
                j += 1;
            },
        }
        p += 1;
    }
    proof {
        assert(acc + Seq::<EditTree>::empty() =~= acc);
    }
    false
}

/// Reconciles the nodes of one field, at the position that the field
/// gives its nodes.
pub fn rewrite_field(
    new: &Node,
    orig: &Node,
    k: usize,
    s: &Session,
    rcx: &mut RewriteCtxt,
) -> (failed: bool)
    requires
        renderable(*new),
        k < new.fields.len(),
        k < orig.fields.len(),
    ensures
        recorded(
            *old(rcx),
            *final(rcx),
            failed,
            recycled_field(*new, *orig, s@, old(rcx).expr_prec, old(rcx).fresh_start, k as int),
        ),
        sound_field(*new, *orig, s@, old(rcx).expr_prec, old(rcx).fresh_start, k as int),
    decreases new, 5nat,
{
    let saved = rcx.expr_prec();
    let demand = match new.fields[k].prec {
        Some(p) => p,
        None => saved,
    };
    rcx.replace_expr_prec(demand);
    let failed = if new.fields[k].aligned != orig.fields[k].aligned {
        true
    } else if new.fields[k].aligned {
        rewrite_aligned(new, orig, k, s, rcx)
    } else if new.fields[k].nodes.len() != orig.fields[k].nodes.len() {
        true
    } else {
        rewrite_positional(new, orig, k, s, rcx)
    };
    rcx.replace_expr_prec(saved);
    failed
}

/// Reconciles the fields of two nodes that have as many, one after the
/// other.
pub fn rewrite_fields(new: &Node, orig: &Node, s: &Session, rcx: &mut RewriteCtxt) -> (failed: bool)
    requires
        renderable(*new),
        new.fields.len() == orig.fields.len(),
    ensures
        recorded(
            *old(rcx),
            *final(rcx),
            failed,
            recycled_fields(*new, *orig, s@, old(rcx).expr_prec, old(rcx).fresh_start, 0),
        ),
        sound_fields(*new, *orig, s@, old(rcx).expr_prec, old(rcx).fresh_start, 0),
    decreases new, 6nat,
{
    let ghost prec = rcx.expr_prec;
    let ghost fs = rcx.fresh_start;
    let ghost base = rcx.edits();
    let ghost goal = recycled_fields(*new, *orig, s@, prec, fs, 0);
    let ghost mut acc = Seq::<EditTree>::empty();
    let mark = rcx.mark();
    let mut k: usize = 0;
    proof {
        assert(rcx.edits() =~= base + acc);
        lemma_then_empty(goal);
    }
    while k < new.fields.len()
        invariant
            new.fields.len() == orig.fields.len(),
            k <= new.fields.len(),
            renderable(*new),
            rcx.fresh_start == fs,
            rcx.expr_prec == prec,
            mark == base.len(),
            base == old(rcx).edits(),
            prec == old(rcx).expr_prec,
            fs == old(rcx).fresh_start,
            goal == recycled_fields(*new, *orig, s@, prec, fs, 0),
            rcx.edits() == base + acc,
            goal == then(acc, recycled_fields(*new, *orig, s@, prec, fs, k as int)),
            sound_fields(*new, *orig, s@, prec, fs, k as int) ==> sound_fields(
                *new,
                *orig,
                s@,
                prec,
                fs,
                0,
            ),
        decreases new.fields.len() - k,
    {
        let ghost rest = recycled_fields(*new, *orig, s@, prec, fs, k + 1);
        let ghost first = recycled_field(*new, *orig, s@, prec, fs, k as int);
        if rewrite_field(new, orig, k, s, rcx) {
            rcx.rewind(mark);
            assert((base + acc).take(mark as int) =~= base);
            return true;
        }
        proof {
            lemma_then_assoc(acc, first->0, rest);
            assert((base + acc) + first->0 =~= base + (acc + first->0));
            acc = acc + first->0;
        }
        k += 1;
    }
    proof {
        assert(acc + Seq::<EditTree>::empty() =~= acc);
    }
    false
}

/// Whether two nodes agree in all that is compared of them apart from
/// their children.
pub fn has_same_head(new: &Node, orig: &Node) -> (r: bool)
    ensures
        r == same_head(*new, *orig),
{
    if !new.kind.is_same_construct(orig.kind) || new.shape != orig.shape || new.fields.len()
        != orig.fields.len() {
        return false;
    }
    match (new.kind, orig.kind) {
        (NodeKind::Item(ni), NodeKind::Item(oi)) => ni.is_fn == oi.is_fn && ni.quals == oi.quals,
        _ => true,
    }
}

/// Reconciles two nodes child by child. It fails where the nodes
/// themselves differ or a child fails.
pub fn rewrite_default(
    new: &Node,
    orig: &Node,
    s: &Session,
    rcx: &mut RewriteCtxt,
) -> (failed: bool)
    requires
        renderable(*new),
    ensures
        recorded(
            *old(rcx),
            *final(rcx),
            failed,
            recycled_default(*new, *orig, s@, old(rcx).expr_prec, old(rcx).fresh_start),
        ),
        same_head(*new, *orig) ==> sound_fields(
            *new,
            *orig,
            s@,
            old(rcx).expr_prec,
            old(rcx).fresh_start,
            0,
        ),
    decreases new, 7nat,
{
    if !has_same_head(new, orig) {
        return true;
    }
    rewrite_fields(new, orig, s, rcx)
}

/// The header spans of a node's placeholder, where it has them.
pub fn get_printed_header(n: &Node) -> (h: Option<HeaderSpans>)
    ensures
        h == printed_header(*n),
{
    match &n.printed {
        Some(ph) => match ph.kind {
            NodeKind::Item(info) => info.header,
            _ => None,
        },
        None => None,
    }
}

/// Reconciles two declarations whose headers differ: the children one by
/// one, then one edit for each qualifier that differs, the new qualifier
/// copied from the printed header. It fails where the old declaration has
/// no header spans or has a header that a macro wrote, where the two are
/// not of one kind of declaration, and where a child fails.
pub fn recover_item_rewrite_recycled(
    new: &Node,
    orig: &Node,
    s: &Session,
    rcx: &mut RewriteCtxt,
) -> (failed: bool)
    requires
        renderable(*new),
    ensures
        recorded(
            *old(rcx),
            *final(rcx),
            failed,
            recover(*new, *orig, s@, old(rcx).expr_prec, old(rcx).fresh_start),
        ),
        recoverable(*new, *orig) ==> sound_fields(
            *new,
            *orig,
            s@,
            old(rcx).expr_prec,
            old(rcx).fresh_start,
            0,
        ),
    decreases new, 7nat,
{
    let (ni, oi) = match (new.kind, orig.kind) {
        (NodeKind::Item(ni), NodeKind::Item(oi)) => (ni, oi),
        _ => {
            return true;
        },
    };
    let old_header = match oi.header {
        Some(h) => h,
        None => {
            return true;
        },
    };
    if !is_header_in_source(&old_header) {
        return true;
    }
    let new_header = match get_printed_header(new) {
        Some(h) => h,
        None => {
            return true;
        },
    };
    if new.shape != orig.shape || new.fields.len() != orig.fields.len() || ni.is_fn != oi.is_fn {
        return true;
    }
    if !ni.is_fn && (ni.quals.constness != oi.quals.constness || ni.quals.unsafety
        != oi.quals.unsafety || ni.quals.abi != oi.quals.abi) {
        return true;
    }
    assert(recoverable(*new, *orig));
    if rewrite_fields(new, orig, s, rcx) {
        return true;
    }
    let ghost mid = rcx.edits();
    record_header_rewrites(ni.is_fn, ni.quals, oi.quals, new_header, old_header, rcx);
    proof {
        let first = recycled_fields(*new, *orig, s@, old(rcx).expr_prec, old(rcx).fresh_start, 0)->0;
        let quals = qualifier_edits(ni.is_fn, ni.quals, oi.quals, new_header, old_header);
        assert((old(rcx).edits() + first) + quals =~= old(rcx).edits() + (first + quals));
    }
    false
}

/// Recycled mode: records the edits that turn the text of `old` into text
/// for `new`. The children are reconciled one by one; where that fails at
/// a declaration, its header is reconciled qualifier by qualifier; where
/// that fails too, or at another splice point, the node is printed afresh,
/// or abandoned where `old` has no text that can be rewritten. A node that
/// is no splice point fails instead, and then nothing is recorded.
pub fn rewrite_recycled(
    new: &Node,
    orig: &Node,
    s: &Session,
    rcx: &mut RewriteCtxt,
) -> (failed: bool)
    requires
        renderable(*new),
    ensures
        recorded(
            *old(rcx),
            *final(rcx),
            failed,
            recycled(*new, *orig, s@, old(rcx).expr_prec, old(rcx).fresh_start),
        ),
        sound_recycled(*new, *orig, s@, old(rcx).expr_prec, old(rcx).fresh_start),
    decreases new, 8nat,
{
    if !rewrite_default(new, orig, s, rcx) {
        return false;
    }
    if new.kind.get_class().is_none() {
        return true;
    }
    if !recover_item_rewrite_recycled(new, orig, s, rcx) {
        return false;
    }
    splice_recycled(new, orig, s, rcx);
    false
}

/// The switch from fresh to recycled mode: where `new` came from the old
/// tree, records the edit that puts its old text back in place of its
/// printed text at `ph`, with the edits nested that turn that old text
/// into text for `new`. Nothing is reverted where `new` is the node whose
/// printing began at the fresh start, has no old node of its class and
/// identifier, or has one whose text a macro wrote.
pub fn splice_fresh(new: &Node, ph: &Node, s: &Session, rcx: &mut RewriteCtxt) -> (reverted: bool)
    requires
        renderable(*new),
    ensures
        reverted == (revert(*new, *ph, s@, old(rcx).expr_prec, old(rcx).fresh_start) is Some),
        final(rcx).edits() == match revert(
            *new,
            *ph,
            s@,
            old(rcx).expr_prec,
            old(rcx).fresh_start,
        ) {
            Some(e) => old(rcx).edits().push(e),
            None => old(rcx).edits(),
        },
        sound_revert(*new, s@, old(rcx).expr_prec, old(rcx).fresh_start),
        final(rcx).fresh_start == old(rcx).fresh_start,
        final(rcx).expr_prec == old(rcx).expr_prec,
    decreases new, 9nat,
{
    let class = match new.kind.get_class() {
        Some(c) => c,
        None => {
            return false;
        },
    };
    if new.span == rcx.fresh_start() {
        return false;
    }
    let orig = match s.old_nodes.get(class, new.id) {
        Some(n) => n,
        None => {
            return false;
        },
    };
    if !is_rewritable(orig.span) {
        return false;
    }
    if s.files.is_macro_file(orig.span.file) {
        return false;
    }
    let mut sub = RewriteCtxt::nested(rcx.fresh_start(), rcx.expr_prec());
    if rewrite_recycled(new, orig, s, &mut sub) {
        return false;
    }
    assert(sub.edits() =~= recycled(*new, *orig, s@, rcx.expr_prec, rcx.fresh_start)->0);
    let adj = adjustment_of(new.kind, rcx.expr_prec());
    rcx.record(ph.span, orig.span, sub.into_edits(), adj);
    true
}

/// Fresh mode: tries to put old text back into the printed text of `new`,
/// of which `ph` says where it stands: the old text of the node as a whole
/// where that is possible, otherwise of its children.
pub fn rewrite_fresh(new: &Node, ph: &Node, s: &Session, rcx: &mut RewriteCtxt)
    requires
        renderable(*new),
        mirrors(*new, *ph),
    ensures
        final(rcx).edits() == old(rcx).edits() + fresh(
            *new,
            *ph,
            s@,
            old(rcx).expr_prec,
            old(rcx).fresh_start,
        ),
        sound_fresh(*new, *ph, s@, old(rcx).expr_prec, old(rcx).fresh_start),
        final(rcx).fresh_start == old(rcx).fresh_start,
        final(rcx).expr_prec == old(rcx).expr_prec,
    decreases new, 10nat,
{
    if splice_fresh(new, ph, s, rcx) {
        proof {
            let e = revert(*new, *ph, s@, old(rcx).expr_prec, old(rcx).fresh_start)->0;
            assert(old(rcx).edits().push(e) =~= old(rcx).edits() + seq![e]);
        }
        return ;
    }
    rewrite_fresh_children(new, ph, s, rcx);
}

} // verus!
