//! Recorded edits and the context that collects them.

use vstd::prelude::*;
use crate::prec::{ExprPrec, TextAdjust, PREC_RESET};
use crate::span::Span;

verus! {

/// The mathematical value of an [`Edit`]: the text at `target` is replaced
/// by the text at `source`, after the `nested` edits have been applied to
/// that text and `adjust` to the result.
pub struct EditTree {
    pub target: Span,
    pub source: Span,
    pub nested: Seq<EditTree>,
    pub adjust: TextAdjust,
}

/// One recorded edit. A `source` that is the synthetic empty span deletes
/// the text at `target`.
#[derive(Debug, PartialEq, Eq)]
pub struct Edit {
    pub target: Span,
    pub source: Span,
    pub nested: Vec<Edit>,
    pub adjust: TextAdjust,
}

/// The value of an edit, with the values of its nested edits.
pub open spec fn edit_tree(e: Edit) -> EditTree
    decreases e,
{
    EditTree {
        target: e.target,
        source: e.source,
        nested: Seq::new(
            e.nested.len() as nat,
            |i: int|
                if 0 <= i < e.nested.len() {
                    edit_tree(e.nested[i])
                } else {
                    arbitrary()
                },
        ),
        adjust: e.adjust,
    }
}

impl View for Edit {
    type V = EditTree;

    open spec fn view(&self) -> EditTree {
        edit_tree(*self)
    }
}

/// The values of a list of edits, in order.
pub open spec fn forest(edits: Seq<Edit>) -> Seq<EditTree> {
    Seq::new(edits.len(), |i: int| edits[i]@)
}

/// The view of an edit nests the values of its nested edits.
pub proof fn lemma_view_nested(e: Edit)
    ensures
        e@.nested == forest(e.nested@),
        e@.target == e.target,
        e@.source == e.source,
        e@.adjust == e.adjust,
{
    assert(e@.nested =~= forest(e.nested@));
}

/// The state of one reconciliation: the edits recorded so far, the span of
/// the closest enclosing node that was printed afresh, and what the position
/// now being filled demands of an expression.
pub struct RewriteCtxt {
    pub rewrites: Vec<Edit>,
    pub fresh_start: Span,
    pub expr_prec: ExprPrec,
}

impl RewriteCtxt {
    /// The edits recorded so far.
    pub open spec fn edits(&self) -> Seq<EditTree> {
        forest(self.rewrites@)
    }

    /// A context with nothing recorded, outside any freshly printed node, at
    /// a position that accepts any expression.
    pub fn new() -> (rcx: RewriteCtxt)
        ensures
            rcx.edits() == Seq::<EditTree>::empty(),
            rcx.fresh_start == Span::dummy_spec(),
            rcx.expr_prec == ExprPrec::Normal(PREC_RESET),
    {
        let rcx = RewriteCtxt {
            rewrites: Vec::new(),
            fresh_start: Span::dummy(),
            expr_prec: ExprPrec::Normal(PREC_RESET),
        };
        assert(rcx.edits() =~= Seq::<EditTree>::empty());
        rcx
    }

    /// A context for the edits nested in a freshly printed node: nothing
    /// recorded, with the given fresh start and position.
    pub fn nested(fresh_start: Span, expr_prec: ExprPrec) -> (rcx: RewriteCtxt)
        ensures
            rcx.edits() == Seq::<EditTree>::empty(),
            rcx.fresh_start == fresh_start,
            rcx.expr_prec == expr_prec,
    {
        let rcx = RewriteCtxt { rewrites: Vec::new(), fresh_start, expr_prec };
        assert(rcx.edits() =~= Seq::<EditTree>::empty());
        rcx
    }

    /// A mark to which the log can later be rewound.
    pub fn mark(&self) -> (m: usize)
        ensures
            m == self.edits().len(),
    {
        self.rewrites.len()
    }

    /// Drops every edit recorded since `mark` was taken.
    pub fn rewind(&mut self, mark: usize)
        ensures
            mark <= old(self).edits().len() ==> final(self).edits() == old(self).edits().take(
                mark as int,
            ),
            mark > old(self).edits().len() ==> final(self).edits() == old(self).edits(),
            final(self).fresh_start == old(self).fresh_start,
            final(self).expr_prec == old(self).expr_prec,
    {
        self.rewrites.truncate(mark);
        assert(mark <= old(self).edits().len() ==> self.edits() =~= old(self).edits().take(
            mark as int,
        ));
        assert(mark > old(self).edits().len() ==> self.edits() =~= old(self).edits());
    }

    /// Records that the text at `target` is replaced by the text at `source`
    /// with the `nested` edits applied to it and then `adjust`.
    pub fn record(&mut self, target: Span, source: Span, nested: Vec<Edit>, adjust: TextAdjust)
        ensures
            final(self).edits() == old(self).edits().push(
                EditTree { target, source, nested: forest(nested@), adjust },
            ),
            final(self).fresh_start == old(self).fresh_start,
            final(self).expr_prec == old(self).expr_prec,
    {
        let e = Edit { target, source, nested, adjust };
        proof {
            lemma_view_nested(e);
        }
        self.rewrites.push(e);
        assert(self.edits() =~= old(self).edits().push(
            EditTree { target, source, nested: forest(nested@), adjust },
        ));
    }

    /// The span of the closest enclosing node that was printed afresh.
    pub fn fresh_start(&self) -> (sp: Span)
        ensures
            sp == self.fresh_start,
    {
        self.fresh_start
    }

    /// Sets the fresh start and hands back the one it replaces.
    pub fn replace_fresh_start(&mut self, sp: Span) -> (prev: Span)
        ensures
            prev == old(self).fresh_start,
            final(self).fresh_start == sp,
            final(self).rewrites == old(self).rewrites,
            final(self).expr_prec == old(self).expr_prec,
    {
        let prev = self.fresh_start;
        self.fresh_start = sp;
        prev
    }

    /// What the position now being filled demands of an expression.
    pub fn expr_prec(&self) -> (p: ExprPrec)
        ensures
            p == self.expr_prec,
    {
        self.expr_prec
    }

    /// Sets the demand of the current position and hands back the one it
    /// replaces.
    pub fn replace_expr_prec(&mut self, p: ExprPrec) -> (prev: ExprPrec)
        ensures
            prev == old(self).expr_prec,
            final(self).expr_prec == p,
            final(self).rewrites == old(self).rewrites,
            final(self).fresh_start == old(self).fresh_start,
    {
        let prev = self.expr_prec;
        self.expr_prec = p;
        prev
    }

    /// Ends the reconciliation and hands out the recorded edits.
    pub fn into_edits(self) -> (edits: Vec<Edit>)
        ensures
            forest(edits@) == self.edits(),
    {
        self.rewrites
    }
}

} // verus!
