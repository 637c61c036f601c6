use splice_rewrite::align::{align_ids, is_diffable, Step};
use splice_rewrite::edit::{Edit, RewriteCtxt};
use splice_rewrite::node::{Class, Node, NodeKind, SeqItem};
use splice_rewrite::prec::{
    binop_left_prec, binop_right_prec, get_adjustment, BinOp, ExprInfo, ExprPrec, Fixity,
    TextAdjust, PREC_RESET,
};
use splice_rewrite::span::Span;
use splice_rewrite::splice::record_qualifier_rewrite;
use splice_rewrite::table::{FileKind, OldNodes, SourceFile, SourceMap};

fn sp(lo: u32, hi: u32) -> Span {
    Span { file: 0, lo, hi, ctxt: 0 }
}

fn info(precedence: i8) -> ExprInfo {
    ExprInfo { precedence, exterior_struct_lit: false, field_access: false }
}

#[test]
fn equal_lists_are_matched_throughout() {
    let ids = vec![1, 2, 3];
    assert_eq!(align_ids(&ids, &ids), Some(vec![Step::Both, Step::Both, Step::Both]));
}

#[test]
fn script_tells_deleted_from_inserted() {
    assert_eq!(
        align_ids(&vec![1, 2, 3], &vec![1, 4, 3]),
        Some(vec![Step::Both, Step::Left, Step::Right, Step::Both])
    );
    assert_eq!(align_ids(&vec![], &vec![5]), Some(vec![Step::Right]));
    assert_eq!(align_ids(&vec![5], &vec![]), Some(vec![Step::Left]));
    assert_eq!(align_ids(&vec![], &vec![]), Some(vec![]));
}

#[test]
fn lists_too_long_for_a_table_are_not_diffable() {
    let limit = isize::MAX as usize;
    assert!(is_diffable(0, 0));
    assert!(is_diffable(1000, 1000));
    assert!(!is_diffable(usize::MAX, 0));
    assert!(!is_diffable(usize::MAX / 2, 2));
    assert!(is_diffable(limit / 64, 0));
    assert!(!is_diffable(limit / 64 + 1, 0));
    assert!(!is_diffable(0, limit / 64 + 1));
    // A table of more cells than a vector of four-byte counts can hold.
    assert!(is_diffable(limit / 64, 14));
    assert!(!is_diffable(limit / 64, 15));
}

#[test]
fn operand_precedence_follows_fixity() {
    let left = BinOp { precedence: 12, fixity: Fixity::Left };
    assert_eq!((binop_left_prec(&left), binop_right_prec(&left)), (12, 13));
    let right = BinOp { precedence: 2, fixity: Fixity::Right };
    assert_eq!((binop_left_prec(&right), binop_right_prec(&right)), (3, 2));
    let none = BinOp { precedence: 7, fixity: Fixity::NonAssoc };
    assert_eq!((binop_left_prec(&none), binop_right_prec(&none)), (8, 8));
}

#[test]
fn adjustment_at_each_kind_of_position() {
    assert_eq!(get_adjustment(&info(12), ExprPrec::Normal(13)), TextAdjust::Parenthesize);
    assert_eq!(get_adjustment(&info(13), ExprPrec::Normal(13)), TextAdjust::AsIs);
    assert_eq!(get_adjustment(&info(12), ExprPrec::Normal(PREC_RESET)), TextAdjust::AsIs);
    let literal = ExprInfo { precedence: 99, exterior_struct_lit: true, field_access: false };
    assert_eq!(get_adjustment(&literal, ExprPrec::Cond(0)), TextAdjust::Parenthesize);
    assert_eq!(get_adjustment(&literal, ExprPrec::Normal(0)), TextAdjust::AsIs);
    assert_eq!(get_adjustment(&info(-1), ExprPrec::Cond(0)), TextAdjust::Parenthesize);
    let access = ExprInfo { precedence: 18, exterior_struct_lit: false, field_access: true };
    assert_eq!(get_adjustment(&access, ExprPrec::Callee(0)), TextAdjust::Parenthesize);
    assert_eq!(get_adjustment(&access, ExprPrec::Cond(0)), TextAdjust::AsIs);
    assert_eq!(get_adjustment(&info(18), ExprPrec::Callee(0)), TextAdjust::AsIs);
    assert_eq!(get_adjustment(&info(-1), ExprPrec::Callee(0)), TextAdjust::Parenthesize);
}

#[test]
fn log_is_rewound_to_its_mark() {
    let mut rcx = RewriteCtxt::new();
    rcx.record(sp(0, 1), sp(5, 6), vec![], TextAdjust::AsIs);
    let mark = rcx.mark();
    assert_eq!(mark, 1);
    rcx.record(sp(2, 3), sp(7, 8), vec![], TextAdjust::Parenthesize);
    rcx.record(sp(3, 4), sp(8, 9), vec![], TextAdjust::AsIs);
    rcx.rewind(mark);
    assert_eq!(
        rcx.into_edits(),
        vec![Edit { target: sp(0, 1), source: sp(5, 6), nested: vec![], adjust: TextAdjust::AsIs }]
    );
}

#[test]
fn rewinding_past_the_end_changes_nothing() {
    let mut rcx = RewriteCtxt::new();
    rcx.record(sp(0, 1), sp(5, 6), vec![], TextAdjust::AsIs);
    rcx.rewind(4);
    assert_eq!(rcx.mark(), 1);
}

#[test]
fn context_hands_back_what_it_replaces() {
    let mut rcx = RewriteCtxt::new();
    assert_eq!(rcx.fresh_start(), Span::dummy());
    assert_eq!(rcx.expr_prec(), ExprPrec::Normal(PREC_RESET));
    assert_eq!(rcx.replace_fresh_start(sp(1, 2)), Span::dummy());
    assert_eq!(rcx.replace_fresh_start(sp(3, 4)), sp(1, 2));
    assert_eq!(rcx.replace_expr_prec(ExprPrec::Cond(3)), ExprPrec::Normal(PREC_RESET));
    assert_eq!(rcx.expr_prec(), ExprPrec::Cond(3));
    let nested = RewriteCtxt::nested(sp(5, 6), ExprPrec::Callee(2));
    assert_eq!(nested.fresh_start(), sp(5, 6));
    assert_eq!(nested.expr_prec(), ExprPrec::Callee(2));
    assert_eq!(nested.mark(), 0);
}

#[test]
fn inserted_qualifier_takes_the_space_after_it() {
    let mut rcx = RewriteCtxt::new();
    let printed = Span { file: 1, lo: 0, hi: 6, ctxt: 0 };
    record_qualifier_rewrite(sp(4, 4), printed, &mut rcx);
    record_qualifier_rewrite(sp(4, 9), printed, &mut rcx);
    record_qualifier_rewrite(sp(4, 9), Span { file: 1, lo: 3, hi: 3, ctxt: 0 }, &mut rcx);
    let edits = rcx.into_edits();
    assert_eq!(edits[0].source, Span { file: 1, lo: 0, hi: 7, ctxt: 0 });
    assert_eq!(edits[1].source, printed);
    assert_eq!(edits[2].source, Span { file: 1, lo: 3, hi: 3, ctxt: 0 });
    assert_eq!(edits[0].target, sp(4, 4));
}

fn leaf(kind: NodeKind, id: u32, lo: u32) -> Node {
    Node { kind, id, span: sp(lo, lo + 1), shape: 0, fields: vec![], printed: None }
}

#[test]
fn tables_hold_the_splice_points_by_class() {
    let root = Node {
        kind: NodeKind::Other,
        id: 1,
        span: sp(0, 50),
        shape: 0,
        fields: vec![splice_rewrite::node::Field {
            aligned: true,
            prec: None,
            nodes: vec![
                leaf(NodeKind::Stmt, 2, 1),
                leaf(NodeKind::Pat, 2, 3),
                leaf(NodeKind::Attribute, 4, 5),
                leaf(NodeKind::Stmt, 2, 7),
            ],
        }],
        printed: None,
    };
    let table = OldNodes::build(&root);
    assert_eq!(table.get(Class::Stmt, 2).map(|n| n.span), Some(sp(7, 8)));
    assert_eq!(table.get(Class::Pat, 2).map(|n| n.span), Some(sp(3, 4)));
    assert!(table.get(Class::Expr, 2).is_none());
    assert!(table.get(Class::Stmt, 1).is_none());
    assert!(table.get(Class::Stmt, 4).is_none());
}

#[test]
fn macro_files_are_told_from_the_others() {
    let files = SourceMap {
        files: vec![
            SourceFile { kind: FileKind::Real, len: 10 },
            SourceFile { kind: FileKind::Macros, len: 10 },
            SourceFile { kind: FileKind::Printed, len: 10 },
        ],
    };
    assert!(!files.is_macro_file(0));
    assert!(files.is_macro_file(1));
    assert!(!files.is_macro_file(2));
    assert!(!files.is_macro_file(3));
}

#[test]
fn node_answers_as_a_list_element() {
    let n = leaf(NodeKind::Stmt, 9, 4);
    assert!(n.supported());
    assert_eq!(n.get_id(), 9);
    assert_eq!(n.get_span(), sp(4, 5));
    assert!(leaf(NodeKind::Attribute, 1, 0).supported());
    assert!(!leaf(NodeKind::Other, 1, 0).supported());
    assert_eq!(NodeKind::Ty.get_class(), Some(Class::Ty));
    assert_eq!(NodeKind::Other.get_class(), None);
}
