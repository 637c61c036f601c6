//! Edits stay within the text they are recorded for and never overlap.

use vstd::prelude::*;
use crate::align::{diff_script, Step};
use crate::edit::EditTree;
use crate::model::{
    aligned, deleted, edit_if, ids, insertion_point, positional, qualifier_edit,
    qualifier_edits, recover, recycled, recycled_default, recycled_field, recycled_fields, splice,
    splice_at,
};
use crate::node::{printed_header, HeaderSpans, Node};
use crate::prec::ExprPrec;
use crate::span::{end_of, rewritable, start_of, Span};
use crate::table::Env;

verus! {

/// The two spans share no byte, whatever their files.
pub open spec fn apart(a: Span, b: Span) -> bool {
    a.hi <= b.lo || b.hi <= a.lo
}

/// The span shares no byte with the range `lo..hi`.
pub open spec fn outside(s: Span, lo: int, hi: int) -> bool {
    s.hi <= lo || s.lo >= hi
}

/// Every target is a valid span within `bound`.
pub open spec fn within(edits: Seq<EditTree>, bound: Span) -> bool {
    forall|a: int|
        0 <= a < edits.len() ==> bound.encloses((#[trigger] edits[a]).target)
            && edits[a].target.valid()
}

/// No two targets overlap.
pub open spec fn disjoint(edits: Seq<EditTree>) -> bool {
    forall|a: int, b: int|
        0 <= a < b < edits.len() ==> !(#[trigger] edits[a]).target.overlaps(
            (#[trigger] edits[b]).target,
        )
}

/// No target shares a byte with the range `lo..hi`.
pub open spec fn edits_outside(edits: Seq<EditTree>, lo: int, hi: int) -> bool {
    forall|a: int| 0 <= a < edits.len() ==> outside((#[trigger] edits[a]).target, lo, hi)
}

/// The targets are valid spans within `bound`, and no two of them overlap.
pub open spec fn orderly(edits: Seq<EditTree>, bound: Span) -> bool {
    within(edits, bound) && disjoint(edits)
}

/// `(k, i)` is the place of a child of `n`.
pub open spec fn child_at(n: Node, k: int, i: int) -> bool {
    0 <= k < n.fields.len() && 0 <= i < n.fields[k].nodes.len()
}

/// The spans of a header, in the order in which they stand.
pub open spec fn header_list(h: HeaderSpans) -> Seq<Span> {
    seq![h.vis, h.constness, h.unsafety, h.abi, h.ident]
}

/// The header of a declaration lies within the declaration, its spans
/// share no byte with one another nor with a child.
pub open spec fn header_nested(n: Node) -> bool {
    n.kind is Item && n.kind->Item_0.header is Some ==> {
        let spans = header_list(n.kind->Item_0.header->0);
        &&& forall|q: int|
            0 <= q < 5 ==> (#[trigger] spans[q]).valid() && n.span.encloses(spans[q])
        &&& forall|q: int, r: int| 0 <= q < r < 5 ==> apart(#[trigger] spans[q], #[trigger] spans[r])
        &&& forall|q: int, k: int, i: int|
            0 <= q < 5 && child_at(n, k, i) ==> apart(
                #[trigger] spans[q],
                (#[trigger] n.fields[k].nodes[i]).span,
            )
    }
}

/// The spans of the tree at `n` are nested as its nodes are: each child
/// lies within its parent, and no two children of a node share a byte. A
/// tree as it was parsed is so; a tree in which a macro was expanded is
/// not, since what the macro wrote stands elsewhere.
pub open spec fn well_nested(n: Node) -> bool
    decreases n,
{
    &&& n.span.valid()
    &&& forall|k: int, i: int|
        child_at(n, k, i) ==> n.span.encloses((#[trigger] n.fields[k].nodes[i]).span)
    &&& forall|k: int, i: int, k2: int, i2: int|
        child_at(n, k, i) && child_at(n, k2, i2) && (k != k2 || i != i2) ==> apart(
            (#[trigger] n.fields[k].nodes[i]).span,
            (#[trigger] n.fields[k2].nodes[i2]).span,
        )
    &&& header_nested(n)
    &&& forall|k: int, i: int| child_at(n, k, i) ==> well_nested(#[trigger] n.fields[k].nodes[i])
}

/// The children of field `k` from position `i` on share no byte with
/// `lo..hi`.
pub open spec fn tail_outside(n: Node, k: int, i: int, lo: int, hi: int) -> bool {
    forall|i2: int|
        i <= i2 && child_at(n, k, i2) ==> outside((#[trigger] n.fields[k].nodes[i2]).span, lo, hi)
}

/// The children of the fields from `k` on share no byte with `lo..hi`.
pub open spec fn fields_outside(n: Node, k: int, lo: int, hi: int) -> bool {
    forall|k2: int, i2: int|
        k <= k2 && child_at(n, k2, i2) ==> outside(
            (#[trigger] n.fields[k2].nodes[i2]).span,
            lo,
            hi,
        )
}

/// The children of field `k` from position `i` on share no byte with
/// `lo..hi`, nor does the end of the child before them.
pub open spec fn places_outside(n: Node, k: int, i: int, lo: int, hi: int) -> bool {
    &&& tail_outside(n, k, i, lo, hi)
    &&& child_at(n, k, i - 1) ==> outside(end_of(n.fields[k].nodes[i - 1].span), lo, hi)
}

/// Two orderly lists of edits of which none of one overlaps one of the
/// other are orderly together.
pub proof fn lemma_join(first: Seq<EditTree>, rest: Seq<EditTree>, bound: Span)
    requires
        orderly(first, bound),
        orderly(rest, bound),
        forall|a: int, b: int|
            0 <= a < first.len() && 0 <= b < rest.len() ==> !(#[trigger] first[a]).target.overlaps(
                (#[trigger] rest[b]).target,
            ),
    ensures
        orderly(first + rest, bound),
{
    let all = first + rest;
    assert forall|a: int| 0 <= a < all.len() implies bound.encloses((#[trigger] all[a]).target)
        && all[a].target.valid() by {
        if a < first.len() {
            assert(all[a] == first[a]);
        } else {
            assert(all[a] == rest[a - first.len()]);
        }
    }
    assert forall|a: int, b: int| 0 <= a < b < all.len() implies !(#[trigger] all[a]).target.overlaps(
        (#[trigger] all[b]).target,
    ) by {
        if b < first.len() {
            assert(all[a] == first[a] && all[b] == first[b]);
        } else if a < first.len() {
            assert(all[a] == first[a] && all[b] == rest[b - first.len()]);
        } else {
            assert(all[a] == rest[a - first.len()] && all[b] == rest[b - first.len()]);
        }
    }
}

/// Edits within a span and edits outside of it do not overlap.
pub proof fn lemma_join_across(first: Seq<EditTree>, rest: Seq<EditTree>, gap: Span, bound: Span)
    requires
        orderly(first, bound),
        orderly(rest, bound),
        within(first, gap),
        edits_outside(rest, gap.lo as int, gap.hi as int),
    ensures
        orderly(first + rest, bound),
{
    lemma_join(first, rest, bound);
}

/// Two lists of edits that share no byte with a range share none
/// together.
pub proof fn lemma_outside_join(first: Seq<EditTree>, rest: Seq<EditTree>, lo: int, hi: int)
    requires
        edits_outside(first, lo, hi),
        edits_outside(rest, lo, hi),
    ensures
        edits_outside(first + rest, lo, hi),
{
    let all = first + rest;
    assert forall|a: int| 0 <= a < all.len() implies outside((#[trigger] all[a]).target, lo, hi) by {
        if a < first.len() {
            assert(all[a] == first[a]);
        } else {
            assert(all[a] == rest[a - first.len()]);
        }
    }
}

/// Edits within a span that shares no byte with a range share none either.
pub proof fn lemma_within_outside(edits: Seq<EditTree>, bound: Span, lo: int, hi: int)
    requires
        within(edits, bound),
        outside(bound, lo, hi),
    ensures
        edits_outside(edits, lo, hi),
{
}

/// Edits that are orderly within a span are orderly within a span that
/// encloses it.
pub proof fn lemma_widen(edits: Seq<EditTree>, inner: Span, outer: Span)
    requires
        orderly(edits, inner),
        outer.encloses(inner),
    ensures
        orderly(edits, outer),
{
}

proof fn lemma_positional_outside(
    new: Node,
    old: Node,
    env: Env,
    prec: ExprPrec,
    fs: Span,
    k: int,
    i: int,
    lo: int,
    hi: int,
)
    requires
        well_nested(old),
        0 <= k < new.fields.len(),
        k < old.fields.len(),
        new.fields[k].nodes.len() == old.fields[k].nodes.len(),
        0 <= i,
        tail_outside(old, k, i, lo, hi),
    ensures
        positional(new, old, env, prec, fs, k, i) is Some ==> edits_outside(
            positional(new, old, env, prec, fs, k, i)->0,
            lo,
            hi,
        ),
    decreases new, 3nat, new.fields[k].nodes.len() - i, 0nat,
{
    if i < new.fields[k].nodes.len() && positional(new, old, env, prec, fs, k, i) is Some {
        let c = new.fields[k].nodes[i];
        let o = old.fields[k].nodes[i];
        assert(child_at(old, k, i));
        lemma_recycled_orderly(c, o, env, prec, fs);
        lemma_within_outside(recycled(c, o, env, prec, fs)->0, o.span, lo, hi);
        lemma_positional_outside(new, old, env, prec, fs, k, i + 1, lo, hi);
        lemma_outside_join(
            recycled(c, o, env, prec, fs)->0,
            positional(new, old, env, prec, fs, k, i + 1)->0,
            lo,
            hi,
        );
    }
}

proof fn lemma_positional_orderly(
    new: Node,
    old: Node,
    env: Env,
    prec: ExprPrec,
    fs: Span,
    k: int,
    i: int,
)
    requires
        well_nested(old),
        0 <= k < new.fields.len(),
        k < old.fields.len(),
        new.fields[k].nodes.len() == old.fields[k].nodes.len(),
        0 <= i,
    ensures
        positional(new, old, env, prec, fs, k, i) is Some ==> orderly(
            positional(new, old, env, prec, fs, k, i)->0,
            old.span,
        ),
    decreases new, 3nat, new.fields[k].nodes.len() - i, 1nat,
{
    if i < new.fields[k].nodes.len() && positional(new, old, env, prec, fs, k, i) is Some {
        let c = new.fields[k].nodes[i];
        let o = old.fields[k].nodes[i];
        assert(child_at(old, k, i));
        lemma_recycled_orderly(c, o, env, prec, fs);
        let first = recycled(c, o, env, prec, fs)->0;
        let rest = positional(new, old, env, prec, fs, k, i + 1)->0;
        lemma_widen(first, o.span, old.span);
        lemma_positional_orderly(new, old, env, prec, fs, k, i + 1);
        assert(tail_outside(old, k, i + 1, o.span.lo as int, o.span.hi as int)) by {
            assert forall|i2: int| i + 1 <= i2 && child_at(old, k, i2) implies outside(
                (#[trigger] old.fields[k].nodes[i2]).span,
                o.span.lo as int,
                o.span.hi as int,
            ) by {
                assert(apart(old.fields[k].nodes[i2].span, old.fields[k].nodes[i].span));
            }
        }
        lemma_positional_outside(
            new,
            old,
            env,
            prec,
            fs,
            k,
            i + 1,
            o.span.lo as int,
            o.span.hi as int,
        );
        lemma_join_across(first, rest, o.span, old.span);
    }
}

proof fn lemma_aligned_outside(
    new: Node,
    old: Node,
    env: Env,
    prec: ExprPrec,
    fs: Span,
    k: int,
    steps: Seq<Step>,
    p: int,
    i: int,
    j: int,
    lo: int,
    hi: int,
)
    requires
        well_nested(old),
        0 <= k < new.fields.len(),
        k < old.fields.len(),
        0 <= p,
        0 <= i,
        places_outside(old, k, i, lo, hi),
    ensures
        aligned(new, old, env, prec, fs, k, steps, p, i, j) is Some ==> edits_outside(
            aligned(new, old, env, prec, fs, k, steps, p, i, j)->0,
            lo,
            hi,
        ),
    decreases new, 3nat, steps.len() - p, 0nat,
{
    let olds = old.fields[k].nodes@;
    if p < steps.len() && aligned(new, old, env, prec, fs, k, steps, p, i, j) is Some {
        match steps[p] {
            Step::Left => {
                assert(child_at(old, k, i));
                lemma_places_step(old, k, i, lo, hi);
                let first = deleted(olds[i].span);
                assert(edits_outside(first, lo, hi));
                lemma_aligned_outside(new, old, env, prec, fs, k, steps, p + 1, i + 1, j, lo, hi);
                lemma_outside_join(
                    first,
                    aligned(new, old, env, prec, fs, k, steps, p + 1, i + 1, j)->0,
                    lo,
                    hi,
                );
            },
            Step::Right => {
                let at = insertion_point(olds, i)->0;
                let first = seq![splice_at(new.fields[k].nodes[j], at, env, prec)];
                lemma_insertion_point(old, k, i);
                assert(outside(at, lo, hi)) by {
                    if 0 < i <= olds.len() && rewritable(olds[i - 1].span) {
                        assert(child_at(old, k, i - 1));
                    } else {
                        assert(child_at(old, k, i));
                        assert(well_nested(old.fields[k].nodes[i]));
                        assert(outside(old.fields[k].nodes[i].span, lo, hi));
                    }
                }
                assert(first[0].target == at);
                assert(edits_outside(first, lo, hi));
                lemma_aligned_outside(new, old, env, prec, fs, k, steps, p + 1, i, j + 1, lo, hi);
                lemma_outside_join(
                    first,
                    aligned(new, old, env, prec, fs, k, steps, p + 1, i, j + 1)->0,
                    lo,
                    hi,
                );
            },
            Step::Both => {
                assert(child_at(old, k, i));
                let c = new.fields[k].nodes[j];
                let o = old.fields[k].nodes[i];
                lemma_recycled_orderly(c, o, env, prec, fs);
                lemma_places_step(old, k, i, lo, hi);
                lemma_within_outside(recycled(c, o, env, prec, fs)->0, o.span, lo, hi);
                lemma_aligned_outside(
                    new,
                    old,
                    env,
                    prec,
                    fs,
                    k,
                    steps,
                    p + 1,
                    i + 1,
                    j + 1,
                    lo,
                    hi,
                );
                lemma_outside_join(
                    recycled(c, o, env, prec, fs)->0,
                    aligned(new, old, env, prec, fs, k, steps, p + 1, i + 1, j + 1)->0,
                    lo,
                    hi,
                );
            },
        }
    }
}

/// Where the places from child `i` on share no byte with a range, so do
/// the places from child `i + 1` on.
proof fn lemma_places_step(old: Node, k: int, i: int, lo: int, hi: int)
    requires
        well_nested(old),
        child_at(old, k, i),
        places_outside(old, k, i, lo, hi),
    ensures
        places_outside(old, k, i + 1, lo, hi),
        outside(old.fields[k].nodes[i].span, lo, hi),
{
    assert(well_nested(old.fields[k].nodes[i]));
    assert(outside(old.fields[k].nodes[i].span, lo, hi));
}

/// A place of insertion is the end of the child before it or the start of
/// the child at it, and lies within the parent.
proof fn lemma_insertion_point(old: Node, k: int, i: int)
    requires
        well_nested(old),
        0 <= k < old.fields.len(),
        0 <= i,
        insertion_point(old.fields[k].nodes@, i) is Some,
    ensures
        ({
            let olds = old.fields[k].nodes@;
            let at = insertion_point(olds, i)->0;
            &&& at.valid()
            &&& old.span.encloses(at)
            &&& if 0 < i <= olds.len() && rewritable(olds[i - 1].span) {
                at == end_of(olds[i - 1].span)
            } else {
                i < olds.len() && at == start_of(olds[i].span)
            }
        }),
{
    let olds = old.fields[k].nodes@;
    if 0 < i <= olds.len() && rewritable(olds[i - 1].span) {
        assert(child_at(old, k, i - 1));
        assert(well_nested(old.fields[k].nodes[i - 1]));
    } else {
        assert(child_at(old, k, i));
        assert(well_nested(old.fields[k].nodes[i]));
    }
}

/// The children from `i + 1` on and the end of child `i` share no byte
/// with child `i`.
proof fn lemma_next_places(old: Node, k: int, i: int)
    requires
        well_nested(old),
        child_at(old, k, i),
    ensures
        places_outside(
            old,
            k,
            i + 1,
            old.fields[k].nodes[i].span.lo as int,
            old.fields[k].nodes[i].span.hi as int,
        ),
{
    let o = old.fields[k].nodes[i];
    assert forall|i2: int| i + 1 <= i2 && child_at(old, k, i2) implies outside(
        (#[trigger] old.fields[k].nodes[i2]).span,
        o.span.lo as int,
        o.span.hi as int,
    ) by {
        assert(apart(old.fields[k].nodes[i2].span, old.fields[k].nodes[i].span));
    }
}

/// No child from `i` on, nor the end of the child before, has the place of
/// insertion before child `i` strictly inside it.
proof fn lemma_same_places(old: Node, k: int, i: int)
    requires
        well_nested(old),
        0 <= k < old.fields.len(),
        0 <= i,
        insertion_point(old.fields[k].nodes@, i) is Some,
    ensures
        places_outside(
            old,
            k,
            i,
            insertion_point(old.fields[k].nodes@, i)->0.lo as int,
            insertion_point(old.fields[k].nodes@, i)->0.lo as int,
        ),
{
    let olds = old.fields[k].nodes@;
    let at = insertion_point(olds, i)->0;
    lemma_insertion_point(old, k, i);
    let x = at.lo as int;
    assert forall|i2: int| i <= i2 && child_at(old, k, i2) implies outside(
        (#[trigger] old.fields[k].nodes[i2]).span,
        x,
        x,
    ) by {
        let c = old.fields[k].nodes[i2];
        assert(well_nested(c));
        if 0 < i <= olds.len() && rewritable(olds[i - 1].span) {
            assert(child_at(old, k, i - 1));
            assert(apart(old.fields[k].nodes[i2].span, old.fields[k].nodes[i - 1].span));
            assert(well_nested(old.fields[k].nodes[i - 1]));
        } else {
            assert(child_at(old, k, i));
            assert(well_nested(old.fields[k].nodes[i]));
            if i2 != i {
                assert(apart(old.fields[k].nodes[i2].span, old.fields[k].nodes[i].span));
            }
        }
    }
    if child_at(old, k, i - 1) {
        assert(well_nested(old.fields[k].nodes[i - 1]));
    }
}

proof fn lemma_aligned_orderly(
    new: Node,
    old: Node,
    env: Env,
    prec: ExprPrec,
    fs: Span,
    k: int,
    steps: Seq<Step>,
    p: int,
    i: int,
    j: int,
)
    requires
        well_nested(old),
        0 <= k < new.fields.len(),
        k < old.fields.len(),
        0 <= p,
        0 <= i,
    ensures
        aligned(new, old, env, prec, fs, k, steps, p, i, j) is Some ==> orderly(
            aligned(new, old, env, prec, fs, k, steps, p, i, j)->0,
            old.span,
        ),
    decreases new, 3nat, steps.len() - p, 1nat,
{
    let olds = old.fields[k].nodes@;
    if p < steps.len() && aligned(new, old, env, prec, fs, k, steps, p, i, j) is Some {
        match steps[p] {
            Step::Left => {
                assert(child_at(old, k, i));
                let o = old.fields[k].nodes[i];
                assert(well_nested(o));
                let first = deleted(o.span);
                let rest = aligned(new, old, env, prec, fs, k, steps, p + 1, i + 1, j)->0;
                assert(orderly(first, old.span));
                lemma_aligned_orderly(new, old, env, prec, fs, k, steps, p + 1, i + 1, j);
                lemma_next_places(old, k, i);
                lemma_aligned_outside(
                    new,
                    old,
                    env,
                    prec,
                    fs,
                    k,
                    steps,
                    p + 1,
                    i + 1,
                    j,
                    o.span.lo as int,
                    o.span.hi as int,
                );
                lemma_join_across(first, rest, o.span, old.span);
            },
            Step::Right => {
                let at = insertion_point(olds, i)->0;
                let first = seq![splice_at(new.fields[k].nodes[j], at, env, prec)];
                let rest = aligned(new, old, env, prec, fs, k, steps, p + 1, i, j + 1)->0;
                lemma_insertion_point(old, k, i);
                assert(first[0].target == at);
                assert(orderly(first, old.span));
                lemma_aligned_orderly(new, old, env, prec, fs, k, steps, p + 1, i, j + 1);
                lemma_same_places(old, k, i);
                lemma_aligned_outside(
                    new,
                    old,
                    env,
                    prec,
                    fs,
                    k,
                    steps,
                    p + 1,
                    i,
                    j + 1,
                    at.lo as int,
                    at.lo as int,
                );
                lemma_join(first, rest, old.span);
            },
            Step::Both => {
                assert(child_at(old, k, i));
                let c = new.fields[k].nodes[j];
                let o = old.fields[k].nodes[i];
                lemma_recycled_orderly(c, o, env, prec, fs);
                let first = recycled(c, o, env, prec, fs)->0;
                let rest = aligned(new, old, env, prec, fs, k, steps, p + 1, i + 1, j + 1)->0;
                lemma_widen(first, o.span, old.span);
                lemma_aligned_orderly(new, old, env, prec, fs, k, steps, p + 1, i + 1, j + 1);
                lemma_next_places(old, k, i);
                lemma_aligned_outside(
                    new,
                    old,
                    env,
                    prec,
                    fs,
                    k,
                    steps,
                    p + 1,
                    i + 1,
                    j + 1,
                    o.span.lo as int,
                    o.span.hi as int,
                );
                lemma_join_across(first, rest, o.span, old.span);
            },
        }
    }
}

proof fn lemma_field_outside(
    new: Node,
    old: Node,
    env: Env,
    prec: ExprPrec,
    fs: Span,
    k: int,
    lo: int,
    hi: int,
)
    requires
        well_nested(old),
        0 <= k < new.fields.len(),
        k < old.fields.len(),
        tail_outside(old, k, 0, lo, hi),
    ensures
        recycled_field(new, old, env, prec, fs, k) is Some ==> edits_outside(
            recycled_field(new, old, env, prec, fs, k)->0,
            lo,
            hi,
        ),
    decreases new, 5nat, 0nat, 0nat,
{
    if recycled_field(new, old, env, prec, fs, k) is Some {
        let demand = new.fields[k].demand(prec);
        if new.fields[k].aligned {
            let steps = diff_script(ids(old.fields[k].nodes@), ids(new.fields[k].nodes@));
            lemma_aligned_outside(new, old, env, demand, fs, k, steps, 0, 0, 0, lo, hi);
        } else {
            lemma_positional_outside(new, old, env, demand, fs, k, 0, lo, hi);
        }
    }
}

proof fn lemma_field_orderly(new: Node, old: Node, env: Env, prec: ExprPrec, fs: Span, k: int)
    requires
        well_nested(old),
        0 <= k < new.fields.len(),
        k < old.fields.len(),
    ensures
        recycled_field(new, old, env, prec, fs, k) is Some ==> orderly(
            recycled_field(new, old, env, prec, fs, k)->0,
            old.span,
        ),
    decreases new, 5nat, 0nat, 1nat,
{
    if recycled_field(new, old, env, prec, fs, k) is Some {
        let demand = new.fields[k].demand(prec);
        if new.fields[k].aligned {
            let steps = diff_script(ids(old.fields[k].nodes@), ids(new.fields[k].nodes@));
            lemma_aligned_orderly(new, old, env, demand, fs, k, steps, 0, 0, 0);
        } else {
            lemma_positional_orderly(new, old, env, demand, fs, k, 0);
        }
    }
}

proof fn lemma_fields_outside(
    new: Node,
    old: Node,
    env: Env,
    prec: ExprPrec,
    fs: Span,
    k: int,
    lo: int,
    hi: int,
)
    requires
        well_nested(old),
        new.fields.len() == old.fields.len(),
        0 <= k,
        fields_outside(old, k, lo, hi),
    ensures
        recycled_fields(new, old, env, prec, fs, k) is Some ==> edits_outside(
            recycled_fields(new, old, env, prec, fs, k)->0,
            lo,
            hi,
        ),
    decreases new, 6nat, new.fields.len() - k, 0nat,
{
    if k < new.fields.len() && recycled_fields(new, old, env, prec, fs, k) is Some {
        lemma_field_outside(new, old, env, prec, fs, k, lo, hi);
        lemma_fields_outside(new, old, env, prec, fs, k + 1, lo, hi);
        lemma_outside_join(
            recycled_field(new, old, env, prec, fs, k)->0,
            recycled_fields(new, old, env, prec, fs, k + 1)->0,
            lo,
            hi,
        );
    }
}

proof fn lemma_fields_orderly(new: Node, old: Node, env: Env, prec: ExprPrec, fs: Span, k: int)
    requires
        well_nested(old),
        new.fields.len() == old.fields.len(),
        0 <= k,
    ensures
        recycled_fields(new, old, env, prec, fs, k) is Some ==> orderly(
            recycled_fields(new, old, env, prec, fs, k)->0,
            old.span,
        ),
    decreases new, 6nat, new.fields.len() - k, 1nat,
{
    if k < new.fields.len() && recycled_fields(new, old, env, prec, fs, k) is Some {
        let first = recycled_field(new, old, env, prec, fs, k)->0;
        let rest = recycled_fields(new, old, env, prec, fs, k + 1)->0;
        lemma_field_orderly(new, old, env, prec, fs, k);
        lemma_fields_orderly(new, old, env, prec, fs, k + 1);
        assert forall|a: int, b: int| 0 <= a < first.len() && 0 <= b < rest.len() implies !(
        #[trigger] first[a]).target.overlaps((#[trigger] rest[b]).target) by {
            let t = first[a].target;
            // Every later child is clear of the edits of this field, so
            // this target is clear of every later child.
            assert forall|k2: int, i2: int| k + 1 <= k2 && child_at(old, k2, i2) implies outside(
                (#[trigger] old.fields[k2].nodes[i2]).span,
                t.lo as int,
                t.hi as int,
            ) by {
                let c = old.fields[k2].nodes[i2];
                assert(well_nested(c));
                assert forall|i3: int| 0 <= i3 && child_at(old, k, i3) implies outside(
                    (#[trigger] old.fields[k].nodes[i3]).span,
                    c.span.lo as int,
                    c.span.hi as int,
                ) by {
                    assert(apart(old.fields[k].nodes[i3].span, old.fields[k2].nodes[i2].span));
                }
                lemma_field_outside(
                    new,
                    old,
                    env,
                    prec,
                    fs,
                    k,
                    c.span.lo as int,
                    c.span.hi as int,
                );
                assert(outside(first[a].target, c.span.lo as int, c.span.hi as int));
            }
            lemma_fields_outside(new, old, env, prec, fs, k + 1, t.lo as int, t.hi as int);
            assert(outside(rest[b].target, t.lo as int, t.hi as int));
        }
        lemma_join(first, rest, old.span);
    }
}

/// The edits of the children of a declaration share no byte with a span
/// of its header.
proof fn lemma_fields_apart(new: Node, old: Node, env: Env, prec: ExprPrec, fs: Span, q: int)
    requires
        well_nested(old),
        new.fields.len() == old.fields.len(),
        old.kind is Item,
        old.kind->Item_0.header is Some,
        0 <= q < 5,
        recycled_fields(new, old, env, prec, fs, 0) is Some,
    ensures
        edits_outside(
            recycled_fields(new, old, env, prec, fs, 0)->0,
            header_list(old.kind->Item_0.header->0)[q].lo as int,
            header_list(old.kind->Item_0.header->0)[q].hi as int,
        ),
    decreases new, 6nat, new.fields.len() + 1, 0nat,
{
    let span = header_list(old.kind->Item_0.header->0)[q];
    assert forall|k2: int, i2: int| 0 <= k2 && child_at(old, k2, i2) implies outside(
        (#[trigger] old.fields[k2].nodes[i2]).span,
        span.lo as int,
        span.hi as int,
    ) by {
        assert(apart(span, old.fields[k2].nodes[i2].span));
    }
    lemma_fields_outside(new, old, env, prec, fs, 0, span.lo as int, span.hi as int);
}

/// Appending the edit of one qualifier keeps the edits orderly, where the
/// edits before it share no byte with that qualifier.
proof fn lemma_append(edits: Seq<EditTree>, differs: bool, added: EditTree, bound: Span)
    requires
        orderly(edits, bound),
        added.target.valid(),
        bound.encloses(added.target),
        edits_outside(edits, added.target.lo as int, added.target.hi as int),
    ensures
        orderly(edits + edit_if(differs, added), bound),
{
    let tail = edit_if(differs, added);
    assert(orderly(tail, bound));
    lemma_join(edits, tail, bound);
}

/// Appending an edit that shares no byte with a range to edits that share
/// none keeps them so.
proof fn lemma_append_outside(
    edits: Seq<EditTree>,
    differs: bool,
    added: EditTree,
    lo: int,
    hi: int,
)
    requires
        edits_outside(edits, lo, hi),
        outside(added.target, lo, hi),
    ensures
        edits_outside(edits + edit_if(differs, added), lo, hi),
{
    let tail = edit_if(differs, added);
    assert(edits_outside(tail, lo, hi));
    lemma_outside_join(edits, tail, lo, hi);
}

/// The edits of a declaration whose header is reconciled qualifier by
/// qualifier are orderly.
proof fn lemma_recover_orderly(new: Node, old: Node, env: Env, prec: ExprPrec, fs: Span)
    requires
        well_nested(old),
        recover(new, old, env, prec, fs) is Some,
    ensures
        orderly(recover(new, old, env, prec, fs)->0, old.span),
    decreases new, 7nat, 0nat, 0nat,
{
    lemma_fields_orderly(new, old, env, prec, fs, 0);
    let first = recycled_fields(new, old, env, prec, fs, 0)->0;
    let info = new.kind->Item_0;
    let was = old.kind->Item_0;
    let nh = printed_header(new)->0;
    let oh = was.header->0;
    let spans = header_list(oh);
    assert(spans[0] == oh.vis && spans[1] == oh.constness && spans[2] == oh.unsafety && spans[3]
        == oh.abi && spans[4] == oh.ident);
    lemma_fields_apart(new, old, env, prec, fs, 0);
    lemma_fields_apart(new, old, env, prec, fs, 1);
    lemma_fields_apart(new, old, env, prec, fs, 2);
    lemma_fields_apart(new, old, env, prec, fs, 3);
    lemma_fields_apart(new, old, env, prec, fs, 4);
    assert(apart(spans[0], spans[1]) && apart(spans[0], spans[2]) && apart(spans[0], spans[3])
        && apart(spans[0], spans[4]));
    assert(apart(spans[1], spans[2]) && apart(spans[1], spans[3]) && apart(spans[1], spans[4]));
    assert(apart(spans[2], spans[3]) && apart(spans[2], spans[4]) && apart(spans[3], spans[4]));
    assert(spans[0].valid() && spans[1].valid() && spans[2].valid() && spans[3].valid()
        && spans[4].valid());
    assert(old.span.encloses(spans[0]) && old.span.encloses(spans[1]) && old.span.encloses(
        spans[2],
    ) && old.span.encloses(spans[3]) && old.span.encloses(spans[4]));
    let d0 = info.quals.vis != was.quals.vis;
    let d1 = info.is_fn && info.quals.constness != was.quals.constness;
    let d2 = info.is_fn && info.quals.unsafety != was.quals.unsafety;
    let d3 = info.is_fn && info.quals.abi != was.quals.abi;
    let d4 = info.quals.ident != was.quals.ident;
    let q0 = qualifier_edit(oh.vis, nh.vis);
    let q1 = qualifier_edit(oh.constness, nh.constness);
    let q2 = qualifier_edit(oh.unsafety, nh.unsafety);
    let q3 = qualifier_edit(oh.abi, nh.abi);
    let q4 = qualifier_edit(oh.ident, nh.ident);
    let e1 = first + edit_if(d0, q0);
    let e2 = e1 + edit_if(d1, q1);
    let e3 = e2 + edit_if(d2, q2);
    let e4 = e3 + edit_if(d3, q3);
    let e5 = e4 + edit_if(d4, q4);
    lemma_append(first, d0, q0, old.span);
    lemma_append_outside(first, d0, q0, oh.constness.lo as int, oh.constness.hi as int);
    lemma_append_outside(first, d0, q0, oh.unsafety.lo as int, oh.unsafety.hi as int);
    lemma_append_outside(first, d0, q0, oh.abi.lo as int, oh.abi.hi as int);
    lemma_append_outside(first, d0, q0, oh.ident.lo as int, oh.ident.hi as int);
    lemma_append(e1, d1, q1, old.span);
    lemma_append_outside(e1, d1, q1, oh.unsafety.lo as int, oh.unsafety.hi as int);
    lemma_append_outside(e1, d1, q1, oh.abi.lo as int, oh.abi.hi as int);
    lemma_append_outside(e1, d1, q1, oh.ident.lo as int, oh.ident.hi as int);
    lemma_append(e2, d2, q2, old.span);
    lemma_append_outside(e2, d2, q2, oh.abi.lo as int, oh.abi.hi as int);
    lemma_append_outside(e2, d2, q2, oh.ident.lo as int, oh.ident.hi as int);
    lemma_append(e3, d3, q3, old.span);
    lemma_append_outside(e3, d3, q3, oh.ident.lo as int, oh.ident.hi as int);
    lemma_append(e4, d4, q4, old.span);
    assert(e5 =~= first + qualifier_edits(info.is_fn, info.quals, was.quals, nh, oh));
}

/// In recycled mode every target is a valid span within the text of the
/// old node, and no two targets overlap.
pub proof fn lemma_recycled_orderly(new: Node, old: Node, env: Env, prec: ExprPrec, fs: Span)
    requires
        well_nested(old),
    ensures
        recycled(new, old, env, prec, fs) is Some ==> orderly(
            recycled(new, old, env, prec, fs)->0,
            old.span,
        ),
    decreases new, 8nat, 0nat, 0nat,
{
    if recycled_default(new, old, env, prec, fs) is Some {
        lemma_fields_orderly(new, old, env, prec, fs, 0);
    } else if new.kind.class() is Some {
        if recover(new, old, env, prec, fs) is Some {
            lemma_recover_orderly(new, old, env, prec, fs);
        } else if rewritable(old.span) {
            let only = splice(new, old, env, prec);
            assert(only[0].target == old.span);
        }
    }
}

/// The edits of a list lie between the ends of the list: where every old
/// node of the field begins no earlier than the first and ends no later
/// than the last, so does every target.
pub proof fn law_list_edits_lie_within_the_list(
    new: Node,
    old: Node,
    env: Env,
    prec: ExprPrec,
    fs: Span,
    k: int,
)
    requires
        well_nested(old),
        0 <= k < new.fields.len(),
        k < old.fields.len(),
        old.fields[k].nodes.len() > 0,
        forall|i: int|
            0 <= i < old.fields[k].nodes.len() ==> old.fields[k].nodes[0].span.lo <= (
            #[trigger] old.fields[k].nodes[i]).span.lo && old.fields[k].nodes[i].span.hi
                <= old.fields[k].nodes[old.fields[k].nodes.len() - 1].span.hi,
    ensures
        recycled_field(new, old, env, prec, fs, k) is Some ==> forall|a: int|
            0 <= a < recycled_field(new, old, env, prec, fs, k)->0.len() ==> {
                let t = (#[trigger] recycled_field(new, old, env, prec, fs, k)->0[a]).target;
                &&& old.fields[k].nodes[0].span.lo <= t.lo
                &&& t.lo <= t.hi
                &&& t.hi <= old.fields[k].nodes[old.fields[k].nodes.len() - 1].span.hi
                &&& t.file == old.span.file
            },
{
    if recycled_field(new, old, env, prec, fs, k) is Some {
        let first = old.fields[k].nodes[0].span;
        let last = old.fields[k].nodes[old.fields[k].nodes.len() - 1].span;
        lemma_field_orderly(new, old, env, prec, fs, k);
        assert(tail_outside(old, k, 0, -1, first.lo as int));
        lemma_field_outside(new, old, env, prec, fs, k, -1, first.lo as int);
        assert(tail_outside(old, k, 0, last.hi as int, u32::MAX + 1));
        lemma_field_outside(new, old, env, prec, fs, k, last.hi as int, u32::MAX + 1);
    }
}

} // verus!
