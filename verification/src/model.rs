//! The edits that reconciliation records, as mathematical functions of the
//! two trees.
//!
//! A node is reconciled in one of two modes. In recycled mode the text of
//! the node is its old text, and edits record where the new tree departs
//! from it. In fresh mode the text is newly printed, and edits record where
//! old text can be put back. `None` stands for a reconciliation that failed
//! and recorded nothing.

use vstd::prelude::*;
use crate::align::{diff_script, diffable, faithful, Step};
use crate::edit::EditTree;
use crate::node::{printed_header, HeaderSpans, Node, NodeKind, Qualifiers};
use crate::prec::{adjustment_for, ExprPrec, TextAdjust};
use crate::span::{end_of, rewritable, start_of, Span};
use crate::table::Env;

verus! {

/// `first`, followed by `rest` where `rest` did not fail.
pub open spec fn then(first: Seq<EditTree>, rest: Option<Seq<EditTree>>) -> Option<
    Seq<EditTree>,
> {
    match rest {
        Some(r) => Some(first + r),
        None => None,
    }
}

/// The adjustment of a node of the given kind at a position that demands
/// `prec`: only expressions are ever adjusted.
pub open spec fn adjustment(kind: NodeKind, prec: ExprPrec) -> TextAdjust {
    match kind {
        NodeKind::Expr(info) => adjustment_for(info, prec),
        _ => TextAdjust::AsIs,
    }
}

/// The identifiers of a list of nodes.
pub open spec fn ids(nodes: Seq<Node>) -> Seq<u32> {
    Seq::new(nodes.len(), |i: int| nodes[i].id)
}

/// The edit that deletes the text at `target`.
pub open spec fn deletion(target: Span) -> EditTree {
    EditTree {
        target,
        source: Span::dummy_spec(),
        nested: Seq::empty(),
        adjust: TextAdjust::AsIs,
    }
}

/// What is recorded for an old element that the new list lacks: its
/// deletion, where its text can be rewritten. An element whose text cannot
/// be rewritten is abandoned: nothing is recorded for it.
pub open spec fn deleted(target: Span) -> Seq<EditTree> {
    edit_if(rewritable(target), deletion(target))
}

/// The text from which a qualifier is copied: its span in the printed
/// header, with the space that follows it where the old header has no such
/// qualifier.
pub open spec fn qualifier_source(old_span: Span, new_span: Span) -> Span {
    if old_span.empty() && !new_span.empty() {
        Span { hi: (new_span.hi + 1) as u32, ..new_span }
    } else {
        new_span
    }
}

/// The edit that puts one qualifier of the new header in place of the old.
pub open spec fn qualifier_edit(old_span: Span, new_span: Span) -> EditTree {
    EditTree {
        target: old_span,
        source: qualifier_source(old_span, new_span),
        nested: Seq::empty(),
        adjust: TextAdjust::AsIs,
    }
}

/// `e` if `differs`, else nothing.
pub open spec fn edit_if(differs: bool, e: EditTree) -> Seq<EditTree> {
    if differs {
        seq![e]
    } else {
        Seq::empty()
    }
}

/// One edit for each qualifier that differs, in the order in which the
/// qualifiers stand in a header. Of a declaration that is no function only
/// visibility and name are qualifiers.
pub open spec fn qualifier_edits(
    is_fn: bool,
    new_quals: Qualifiers,
    old_quals: Qualifiers,
    new_header: HeaderSpans,
    old_header: HeaderSpans,
) -> Seq<EditTree> {
    edit_if(new_quals.vis != old_quals.vis, qualifier_edit(old_header.vis, new_header.vis))
        + edit_if(
        is_fn && new_quals.constness != old_quals.constness,
        qualifier_edit(old_header.constness, new_header.constness),
    ) + edit_if(
        is_fn && new_quals.unsafety != old_quals.unsafety,
        qualifier_edit(old_header.unsafety, new_header.unsafety),
    ) + edit_if(
        is_fn && new_quals.abi != old_quals.abi,
        qualifier_edit(old_header.abi, new_header.abi),
    ) + edit_if(
        new_quals.ident != old_quals.ident,
        qualifier_edit(old_header.ident, new_header.ident),
    )
}

/// Where a new element is inserted before the old element `i`: at the end
/// of the element before it, or else at the start of `i` itself, whichever
/// first has text that can be rewritten.
pub open spec fn insertion_point(olds: Seq<Node>, i: int) -> Option<Span> {
    let before = if 0 < i <= olds.len() {
        olds[i - 1].span
    } else {
        Span::dummy_spec()
    };
    let after = if 0 <= i < olds.len() {
        olds[i].span
    } else {
        Span::dummy_spec()
    };
    if rewritable(before) {
        Some(end_of(before))
    } else if rewritable(after) {
        Some(start_of(after))
    } else {
        None
    }
}

/// What the two nodes themselves, apart from their children, must agree in
/// for them to be reconciled child by child.
pub open spec fn same_head(new: Node, old: Node) -> bool {
    &&& new.kind.same_construct(old.kind)
    &&& new.shape == old.shape
    &&& new.fields.len() == old.fields.len()
    &&& match (new.kind, old.kind) {
        (NodeKind::Item(ni), NodeKind::Item(oi)) => ni.is_fn == oi.is_fn && ni.quals == oi.quals,
        _ => true,
    }
}

/// What two declarations must agree in for their headers to be reconciled
/// qualifier by qualifier. The old header must be plain source text: a
/// header that a macro wrote is never edited.
pub open spec fn recoverable(new: Node, old: Node) -> bool {
    &&& new.shape == old.shape
    &&& new.fields.len() == old.fields.len()
    &&& match (new.kind, old.kind) {
        (NodeKind::Item(ni), NodeKind::Item(oi)) => {
            &&& oi.header is Some
            &&& oi.header->0.in_source()
            &&& printed_header(new) is Some
            &&& ni.is_fn == oi.is_fn
            &&& !ni.is_fn ==> ni.quals.constness == oi.quals.constness && ni.quals.unsafety
                == oi.quals.unsafety && ni.quals.abi == oi.quals.abi
        },
        _ => false,
    }
}

/// The edits nested in the freshly printed text of `new`, for the nodes
/// from position `i` of field `k` on. `ph` is the placeholder whose spans
/// say where each node stands in that text.
pub open spec fn fresh_children(
    new: Node,
    ph: Node,
    env: Env,
    prec: ExprPrec,
    fs: Span,
    k: int,
    i: int,
) -> Seq<EditTree>
    decreases new, 0nat, new.fields.len() - k, new.fields[k].nodes.len() - i,
{
    if k < 0 || i < 0 || k >= new.fields.len() {
        Seq::empty()
    } else if i >= new.fields[k].nodes.len() {
        fresh_children(new, ph, env, prec, fs, k + 1, 0)
    } else {
        fresh(
            new.fields[k].nodes[i],
            ph.fields[k].nodes[i],
            env,
            new.fields[k].demand(prec),
            fs,
        ) + fresh_children(new, ph, env, prec, fs, k, i + 1)
    }
}

/// The edit that replaces the text at `target` by the freshly printed text
/// of `new`, with old text put back inside it where that is possible.
pub open spec fn splice_at(new: Node, target: Span, env: Env, prec: ExprPrec) -> EditTree
    decreases new, 1nat, 0nat, 0nat,
{
    match new.printed {
        Some(ph) => EditTree {
            target,
            source: ph.span,
            nested: fresh_children(new, *ph, env, prec, new.span, 0, 0),
            adjust: adjustment(new.kind, prec),
        },
        None => EditTree {
            target,
            source: Span::dummy_spec(),
            nested: Seq::empty(),
            adjust: adjustment(new.kind, prec),
        },
    }
}

/// The switch to fresh mode: the text of `old` is replaced by the printed
/// text of `new`, unless `old` has no text that can be rewritten; then the
/// node is abandoned and nothing is recorded.
pub open spec fn splice(new: Node, old: Node, env: Env, prec: ExprPrec) -> Seq<EditTree>
    decreases new, 2nat, 0nat, 0nat,
{
    if rewritable(old.span) {
        seq![splice_at(new, old.span, env, prec)]
    } else {
        Seq::empty()
    }
}

/// Reconciles the nodes from position `i` on of field `k`, one to one.
pub open spec fn positional(
    new: Node,
    old: Node,
    env: Env,
    prec: ExprPrec,
    fs: Span,
    k: int,
    i: int,
) -> Option<Seq<EditTree>>
    decreases new, 3nat, new.fields[k].nodes.len() - i, 0nat,
{
    if !(0 <= k < new.fields.len()) || i < 0 || i >= new.fields[k].nodes.len() {
        Some(Seq::empty())
    } else {
        match recycled(new.fields[k].nodes[i], old.fields[k].nodes[i], env, prec, fs) {
            Some(first) => then(first, positional(new, old, env, prec, fs, k, i + 1)),
            None => None,
        }
    }
}

/// Reconciles the nodes of field `k` along the edit script `steps`, from
/// step `p` on, where `i` old nodes and `j` new nodes have been consumed.
/// An old node without counterpart is deleted, or abandoned where its text
/// cannot be rewritten; a new one is printed and inserted; a matched pair
/// is reconciled.
pub open spec fn aligned(
    new: Node,
    old: Node,
    env: Env,
    prec: ExprPrec,
    fs: Span,
    k: int,
    steps: Seq<Step>,
    p: int,
    i: int,
    j: int,
) -> Option<Seq<EditTree>>
    decreases new, 3nat, steps.len() - p, 0nat,
{
    if !(0 <= k < new.fields.len()) || p < 0 || p >= steps.len() {
        Some(Seq::empty())
    } else {
        let news = new.fields[k].nodes@;
        let olds = old.fields[k].nodes@;
        match steps[p] {
            Step::Left => {
                if 0 <= i < olds.len() {
                    then(
                        deleted(olds[i].span),
                        aligned(new, old, env, prec, fs, k, steps, p + 1, i + 1, j),
                    )
                } else {
                    None
                }
            },
            Step::Right => {
                if 0 <= j < news.len() {
                    match insertion_point(olds, i) {
                        Some(at) => then(
                            seq![splice_at(new.fields[k].nodes[j], at, env, prec)],
                            aligned(new, old, env, prec, fs, k, steps, p + 1, i, j + 1),
                        ),
                        None => None,
                    }
                } else {
                    None
                }
            },
            Step::Both => {
                if 0 <= i < olds.len() && 0 <= j < news.len() {
                    match recycled(new.fields[k].nodes[j], olds[i], env, prec, fs) {
                        Some(first) => then(
                            first,
                            aligned(new, old, env, prec, fs, k, steps, p + 1, i + 1, j + 1),
                        ),
                        None => None,
                    }
                } else {
                    None
                }
            },
        }
    }
}

/// Reconciles the nodes of the aligned field `k` along the edit script of
/// their identifiers. It fails where the old list is empty and the new one
/// is not, for want of a place to insert at, and where the lists are too
/// long to be aligned.
pub open spec fn aligned_field(
    new: Node,
    old: Node,
    env: Env,
    prec: ExprPrec,
    fs: Span,
    k: int,
) -> Option<Seq<EditTree>>
    decreases new, 4nat, 0nat, 0nat,
{
    let news = new.fields[k].nodes@;
    let olds = old.fields[k].nodes@;
    if !(0 <= k < new.fields.len()) {
        Some(Seq::empty())
    } else if olds.len() == 0 && news.len() != 0 {
        None
    } else if !diffable(olds.len(), news.len()) {
        None
    } else {
        aligned(new, old, env, prec, fs, k, diff_script(ids(olds), ids(news)), 0, 0, 0)
    }
}

/// Reconciles the nodes of field `k`: along an edit script of their
/// identifiers where the two lists are aligned, otherwise one to one, which
/// fails where the lists differ in length. A list that is aligned is not
/// reconciled with one that is not.
pub open spec fn recycled_field(
    new: Node,
    old: Node,
    env: Env,
    prec: ExprPrec,
    fs: Span,
    k: int,
) -> Option<Seq<EditTree>>
    decreases new, 5nat, 0nat, 0nat,
{
    if !(0 <= k < new.fields.len()) {
        Some(Seq::empty())
    } else {
        let demand = new.fields[k].demand(prec);
        if new.fields[k].aligned != old.fields[k].aligned {
            None
        } else if new.fields[k].aligned {
            aligned_field(new, old, env, demand, fs, k)
        } else if new.fields[k].nodes.len() != old.fields[k].nodes.len() {
            None
        } else {
            positional(new, old, env, demand, fs, k, 0)
        }
    }
}

/// Reconciles the fields from `k` on.
pub open spec fn recycled_fields(
    new: Node,
    old: Node,
    env: Env,
    prec: ExprPrec,
    fs: Span,
    k: int,
) -> Option<Seq<EditTree>>
    decreases new, 6nat, new.fields.len() - k, 0nat,
{
    if k < 0 || k >= new.fields.len() {
        Some(Seq::empty())
    } else {
        match recycled_field(new, old, env, prec, fs, k) {
            Some(first) => then(first, recycled_fields(new, old, env, prec, fs, k + 1)),
            None => None,
        }
    }
}

/// Reconciles two nodes child by child. It fails where the nodes themselves
/// differ or a child fails.
pub open spec fn recycled_default(
    new: Node,
    old: Node,
    env: Env,
    prec: ExprPrec,
    fs: Span,
) -> Option<Seq<EditTree>>
    decreases new, 7nat, 0nat, 0nat,
{
    if same_head(new, old) {
        recycled_fields(new, old, env, prec, fs, 0)
    } else {
        None
    }
}

/// Reconciles two declarations whose headers differ: the children one by
/// one, then the qualifiers one by one.
pub open spec fn recover(new: Node, old: Node, env: Env, prec: ExprPrec, fs: Span) -> Option<
    Seq<EditTree>,
>
    decreases new, 7nat, 0nat, 0nat,
{
    if recoverable(new, old) {
        match recycled_fields(new, old, env, prec, fs, 0) {
            Some(first) => Some(
                first + qualifier_edits(
                    new.kind->Item_0.is_fn,
                    new.kind->Item_0.quals,
                    old.kind->Item_0.quals,
                    printed_header(new)->0,
                    old.kind->Item_0.header->0,
                ),
            ),
            None => None,
        }
    } else {
        None
    }
}

/// Recycled mode: the edits that turn the text of `old` into text for
/// `new`. A splice point never fails: where its children cannot be
/// reconciled, nor its header where it is a declaration, it is printed
/// afresh, or abandoned. Any other node fails where its children do.
pub open spec fn recycled(new: Node, old: Node, env: Env, prec: ExprPrec, fs: Span) -> Option<
    Seq<EditTree>,
>
    decreases new, 8nat, 0nat, 0nat,
{
    match recycled_default(new, old, env, prec, fs) {
        Some(edits) => Some(edits),
        None => {
            if new.kind.class() is None {
                None
            } else {
                match recover(new, old, env, prec, fs) {
                    Some(edits) => Some(edits),
                    None => Some(splice(new, old, env, prec)),
                }
            }
        },
    }
}

/// The edit that puts the old text of `new` back in place of its printed
/// text at `ph`, where `new` is a splice point other than the node whose
/// printing began at `fs`, the old tree has a node with its identifier and
/// of its class, and that node has text of its own that no macro wrote.
pub open spec fn revert(new: Node, ph: Node, env: Env, prec: ExprPrec, fs: Span) -> Option<
    EditTree,
>
    decreases new, 9nat, 0nat, 0nat,
{
    if new.kind.class() is None || new.span == fs {
        None
    } else {
        match env.lookup(new.kind.class()->0, new.id) {
            Some(old) => {
                if !rewritable(old.span) || env.macro_files.contains(old.span.file) {
                    None
                } else {
                    match recycled(new, old, env, prec, fs) {
                        Some(nested) => Some(
                            EditTree {
                                target: ph.span,
                                source: old.span,
                                nested,
                                adjust: adjustment(new.kind, prec),
                            },
                        ),
                        None => None,
                    }
                }
            },
            None => None,
        }
    }
}

/// Fresh mode: the edits that put old text back into the printed text of
/// `new`, of which `ph` says where it stands. The node as a whole is
/// reverted where that is possible; otherwise its children are tried.
pub open spec fn fresh(new: Node, ph: Node, env: Env, prec: ExprPrec, fs: Span) -> Seq<
    EditTree,
>
    decreases new, 10nat, 0nat, 0nat,
{
    match revert(new, ph, env, prec, fs) {
        Some(edit) => seq![edit],
        None => fresh_children(new, ph, env, prec, fs, 0, 0),
    }
}

/// The scripts consulted for `fresh_children` are faithful.
pub open spec fn sound_fresh_children(
    new: Node,
    ph: Node,
    env: Env,
    prec: ExprPrec,
    fs: Span,
    k: int,
    i: int,
) -> bool
    decreases new, 0nat, new.fields.len() - k, new.fields[k].nodes.len() - i,
{
    if k < 0 || i < 0 || k >= new.fields.len() {
        true
    } else if i >= new.fields[k].nodes.len() {
        sound_fresh_children(new, ph, env, prec, fs, k + 1, 0)
    } else {
        sound_fresh(
            new.fields[k].nodes[i],
            ph.fields[k].nodes[i],
            env,
            new.fields[k].demand(prec),
            fs,
        ) && sound_fresh_children(new, ph, env, prec, fs, k, i + 1)
    }
}

/// The scripts consulted for `splice_at` are faithful.
pub open spec fn sound_splice_at(new: Node, env: Env, prec: ExprPrec) -> bool
    decreases new, 1nat, 0nat, 0nat,
{
    match new.printed {
        Some(ph) => sound_fresh_children(new, *ph, env, prec, new.span, 0, 0),
        None => true,
    }
}

/// The scripts consulted for `positional` are faithful.
pub open spec fn sound_positional(
    new: Node,
    old: Node,
    env: Env,
    prec: ExprPrec,
    fs: Span,
    k: int,
    i: int,
) -> bool
    decreases new, 3nat, new.fields[k].nodes.len() - i, 0nat,
{
    if !(0 <= k < new.fields.len()) || i < 0 || i >= new.fields[k].nodes.len() {
        true
    } else {
        let c = new.fields[k].nodes[i];
        let o = old.fields[k].nodes[i];
        sound_recycled(c, o, env, prec, fs) && (recycled(c, o, env, prec, fs) is Some
            ==> sound_positional(new, old, env, prec, fs, k, i + 1))
    }
}

/// The scripts consulted for `aligned` are faithful.
pub open spec fn sound_aligned(
    new: Node,
    old: Node,
    env: Env,
    prec: ExprPrec,
    fs: Span,
    k: int,
    steps: Seq<Step>,
    p: int,
    i: int,
    j: int,
) -> bool
    decreases new, 3nat, steps.len() - p, 0nat,
{
    if !(0 <= k < new.fields.len()) || p < 0 || p >= steps.len() {
        true
    } else {
        let news = new.fields[k].nodes@;
        let olds = old.fields[k].nodes@;
        match steps[p] {
            Step::Left => 0 <= i < olds.len() ==> sound_aligned(
                new,
                old,
                env,
                prec,
                fs,
                k,
                steps,
                p + 1,
                i + 1,
                j,
            ),
            Step::Right => 0 <= j < news.len() && insertion_point(olds, i) is Some ==> {
                &&& sound_splice_at(new.fields[k].nodes[j], env, prec)
                &&& sound_aligned(new, old, env, prec, fs, k, steps, p + 1, i, j + 1)
            },
            Step::Both => 0 <= i < olds.len() && 0 <= j < news.len() ==> {
                &&& sound_recycled(new.fields[k].nodes[j], olds[i], env, prec, fs)
                &&& recycled(new.fields[k].nodes[j], olds[i], env, prec, fs) is Some
                    ==> sound_aligned(new, old, env, prec, fs, k, steps, p + 1, i + 1, j + 1)
            },
        }
    }
}

/// The scripts consulted for `aligned_field` are faithful: that of the
/// two lists, and those consulted along it.
pub open spec fn sound_aligned_field(
    new: Node,
    old: Node,
    env: Env,
    prec: ExprPrec,
    fs: Span,
    k: int,
) -> bool
    decreases new, 4nat, 0nat, 0nat,
{
    let news = new.fields[k].nodes@;
    let olds = old.fields[k].nodes@;
    if !(0 <= k < new.fields.len()) || (olds.len() == 0 && news.len() != 0) || !diffable(
        olds.len(),
        news.len(),
    ) {
        true
    } else {
        faithful(ids(olds), ids(news)) && sound_aligned(
            new,
            old,
            env,
            prec,
            fs,
            k,
            diff_script(ids(olds), ids(news)),
            0,
            0,
            0,
        )
    }
}

/// The scripts consulted for `recycled_field` are faithful.
pub open spec fn sound_field(
    new: Node,
    old: Node,
    env: Env,
    prec: ExprPrec,
    fs: Span,
    k: int,
) -> bool
    decreases new, 5nat, 0nat, 0nat,
{
    if !(0 <= k < new.fields.len()) || new.fields[k].aligned != old.fields[k].aligned {
        true
    } else {
        let demand = new.fields[k].demand(prec);
        if new.fields[k].aligned {
            sound_aligned_field(new, old, env, demand, fs, k)
        } else if new.fields[k].nodes.len() != old.fields[k].nodes.len() {
            true
        } else {
            sound_positional(new, old, env, demand, fs, k, 0)
        }
    }
}

/// The scripts consulted for `recycled_fields` are faithful.
pub open spec fn sound_fields(
    new: Node,
    old: Node,
    env: Env,
    prec: ExprPrec,
    fs: Span,
    k: int,
) -> bool
    decreases new, 6nat, new.fields.len() - k, 0nat,
{
    if k < 0 || k >= new.fields.len() {
        true
    } else {
        sound_field(new, old, env, prec, fs, k) && (recycled_field(new, old, env, prec, fs, k)
            is Some ==> sound_fields(new, old, env, prec, fs, k + 1))
    }
}

/// The scripts consulted for `recycled` are faithful: each is what the
/// outside diff is trusted to return. Reconciliation establishes this of
/// every script that it asks for; what is proved of reconciled lists is
/// proved of such scripts.
pub open spec fn sound_recycled(new: Node, old: Node, env: Env, prec: ExprPrec, fs: Span) -> bool
    decreases new, 8nat, 0nat, 0nat,
{
    &&& same_head(new, old) || recoverable(new, old) ==> sound_fields(new, old, env, prec, fs, 0)
    &&& recycled_default(new, old, env, prec, fs) is None && new.kind.class() is Some && recover(
        new,
        old,
        env,
        prec,
        fs,
    ) is None && rewritable(old.span) ==> sound_splice_at(new, env, prec)
}

/// The scripts consulted for `revert` are faithful.
pub open spec fn sound_revert(new: Node, env: Env, prec: ExprPrec, fs: Span) -> bool
    decreases new, 9nat, 0nat, 0nat,
{
    if new.kind.class() is None || new.span == fs {
        true
    } else {
        match env.lookup(new.kind.class()->0, new.id) {
            Some(old) => !rewritable(old.span) || env.macro_files.contains(old.span.file)
                || sound_recycled(new, old, env, prec, fs),
            None => true,
        }
    }
}

/// The scripts consulted for `fresh` are faithful.
pub open spec fn sound_fresh(new: Node, ph: Node, env: Env, prec: ExprPrec, fs: Span) -> bool
    decreases new, 10nat, 0nat, 0nat,
{
    &&& sound_revert(new, env, prec, fs)
    &&& revert(new, ph, env, prec, fs) is None ==> sound_fresh_children(
        new,
        ph,
        env,
        prec,
        fs,
        0,
        0,
    )
}

} // verus!
