//! Reconciliation of two whole trees.

use vstd::prelude::*;
use crate::edit::{forest, Edit, EditTree, RewriteCtxt};
use crate::idempotence::{alignable, law_tree_against_itself};
use crate::model::{recycled, sound_recycled};
use crate::nesting::{all_tidy, law_nested_edits_do_not_overlap, placeholders_nested};
use crate::node::{alike, renderable, Node};
use crate::opacity::{all_in_source, law_macro_text_is_never_a_target, placeholders_in_source};
use crate::overlap::{lemma_recycled_orderly, orderly, well_nested};
use crate::prec::{ExprPrec, PREC_RESET};
use crate::span::Span;
use crate::splice::rewrite_recycled;
use crate::table::{env_of, Session, SourceMap};

verus! {

/// The edits that turn the source of the tree at `old` into source for
/// the tree at `new`, or `None` where the trees cannot be reconciled.
pub open spec fn rewritten(old: Node, new: Node, files: SourceMap) -> Option<Seq<EditTree>> {
    recycled(new, old, env_of(old, files), ExprPrec::Normal(PREC_RESET), Span::dummy_spec())
}

/// The scripts consulted for `rewritten` are faithful: each is what the
/// outside diff is trusted to return.
pub open spec fn soundly_aligned(old: Node, new: Node, files: SourceMap) -> bool {
    sound_recycled(new, old, env_of(old, files), ExprPrec::Normal(PREC_RESET), Span::dummy_spec())
}

/// Computes the edits that turn the source text of the tree at `old` into
/// source text for the tree at `new`. The spans of `old` point into the
/// files of `files`. The result is `None` where the trees cannot be
/// reconciled: they differ in a way that no splice point encloses.
///
/// Where the spans of `old` are nested as its nodes are, the targets of
/// the edits are valid spans within the text of `old`, and no two of them
/// overlap; where the same holds of the placeholders of `new`, this holds
/// of nested edits too, within the text that their parent puts in place.
/// This says nothing of an old tree in which a macro was expanded: there a
/// child need not lie within its parent, and text that the macro was
/// given may stand at several nodes, each of which can become a target.
/// Where the placeholders of `new` are printed text, no edit has for its
/// target text that a macro wrote, whatever `old` holds. A tree reconciled
/// with itself, or with itself but for placeholders, gives no edit, where
/// its lists are short enough to be aligned.
pub fn rewrite(orig: &Node, new: &Node, files: &SourceMap) -> (r: Option<Vec<Edit>>)
    requires
        renderable(*new),
    ensures
        match rewritten(*orig, *new, *files) {
            Some(edits) => r is Some && forest(r->0@) == edits,
            None => r is None,
        },
        well_nested(*orig) && r is Some ==> orderly(forest(r->0@), orig.span),
        well_nested(*orig) && placeholders_nested(*new) && r is Some ==> all_tidy(forest(r->0@)),
        placeholders_in_source(*new) && r is Some ==> all_in_source(forest(r->0@)),
        soundly_aligned(*orig, *new, *files),
        alike(*new, *orig) && alignable(*orig) ==> r is Some && r->0@.len() == 0,
{
    let session = Session::new(orig, files);
    let mut rcx = RewriteCtxt::new();
    if rewrite_recycled(new, orig, &session, &mut rcx) {
        proof {
            if alike(*new, *orig) && alignable(*orig) {
                law_tree_against_itself(
                    *new,
                    *orig,
                    env_of(*orig, *files),
                    ExprPrec::Normal(PREC_RESET),
                    Span::dummy_spec(),
                );
            }
        }
        return None;
    }
    proof {
        assert(rcx.edits() =~= rewritten(*orig, *new, *files)->0);
        if well_nested(*orig) {
            lemma_recycled_orderly(
                *new,
                *orig,
                env_of(*orig, *files),
                ExprPrec::Normal(PREC_RESET),
                Span::dummy_spec(),
            );
            if placeholders_nested(*new) {
                law_nested_edits_do_not_overlap(*orig, *new, *files);
            }
        }
        if placeholders_in_source(*new) {
            law_macro_text_is_never_a_target(*orig, *new, *files);
        }
        if alike(*new, *orig) && alignable(*orig) {
            law_tree_against_itself(
                *new,
                *orig,
                env_of(*orig, *files),
                ExprPrec::Normal(PREC_RESET),
                Span::dummy_spec(),
            );
        }
    }
    Some(rcx.into_edits())
}

} // verus!
