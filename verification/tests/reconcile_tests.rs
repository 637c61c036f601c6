use splice_rewrite::edit::Edit;
use splice_rewrite::node::{is_alike, is_mirror, is_renderable, Field, Node, NodeKind};
use splice_rewrite::prec::{ExprInfo, ExprPrec, TextAdjust, PREC_RESET};
use splice_rewrite::rewrite::rewrite;
use splice_rewrite::span::Span;
use splice_rewrite::table::{FileKind, SourceFile, SourceMap};

fn sp(lo: u32, hi: u32) -> Span {
    Span { file: 0, lo, hi, ctxt: 0 }
}

fn files() -> SourceMap {
    SourceMap {
        files: vec![
            SourceFile { kind: FileKind::Real, len: 100 },
            SourceFile { kind: FileKind::Macros, len: 100 },
        ],
    }
}

fn node(kind: NodeKind, id: u32, span: Span, shape: u64, fields: Vec<Field>) -> Node {
    Node { kind, id, span, shape, fields, printed: None }
}

fn one(n: Node) -> Field {
    Field { aligned: false, prec: None, nodes: vec![n] }
}

fn at(prec: ExprPrec, n: Node) -> Field {
    Field { aligned: false, prec: Some(prec), nodes: vec![n] }
}

fn list(nodes: Vec<Node>) -> Field {
    Field { aligned: true, prec: None, nodes }
}

fn expr(precedence: i8) -> NodeKind {
    NodeKind::Expr(ExprInfo { precedence, exterior_struct_lit: false, field_access: false })
}

/// Lays a node out as a printer would: one byte before and one after the
/// text of its children, which follow one another.
fn layout(n: &Node, file: u32, pos: &mut u32) -> Node {
    let lo = *pos;
    *pos += 1;
    let mut fields = Vec::new();
    for f in &n.fields {
        let mut nodes = Vec::new();
        for c in &f.nodes {
            nodes.push(layout(c, file, pos));
        }
        fields.push(Field { aligned: f.aligned, prec: f.prec, nodes });
    }
    *pos += 1;
    Node {
        kind: n.kind,
        id: n.id,
        span: Span { file, lo, hi: *pos, ctxt: 0 },
        shape: n.shape,
        fields,
        printed: None,
    }
}

/// Gives every node that can be printed on its own its placeholder, each in
/// a file of its own, numbered from `*next` on in the order of the tree.
fn render(mut n: Node, next: &mut u32) -> Node {
    let printable = !matches!(n.kind, NodeKind::Other);
    let file = *next;
    if printable {
        *next += 1;
    }
    let mut fields = Vec::new();
    for f in n.fields {
        let mut nodes = Vec::new();
        for c in f.nodes {
            nodes.push(render(c, next));
        }
        fields.push(Field { aligned: f.aligned, prec: f.prec, nodes });
    }
    n.fields = fields;
    if printable {
        let mut pos = 0;
        n.printed = Some(Box::new(layout(&n, file, &mut pos)));
    }
    n
}

fn stmt(id: u32, span: Span, shape: u64) -> Node {
    node(NodeKind::Stmt, id, span, shape, vec![])
}

fn block(stmts: Vec<Node>) -> Node {
    node(NodeKind::Other, 100, sp(0, 30), 1, vec![list(stmts)])
}

fn printed_span(n: &Node) -> Span {
    n.printed.as_ref().unwrap().span
}

#[test]
fn tree_against_itself_gives_no_edits() {
    let old = block(vec![stmt(1, sp(2, 8), 11), stmt(2, sp(10, 16), 12), stmt(3, sp(18, 24), 13)]);
    let mut next = 10;
    let new = render(
        block(vec![stmt(1, sp(2, 8), 11), stmt(2, sp(10, 16), 12), stmt(3, sp(18, 24), 13)]),
        &mut next,
    );
    assert_eq!(rewrite(&old, &new, &files()), Some(vec![]));
}

#[test]
fn replaced_statement_is_deleted_and_new_text_inserted() {
    let old = block(vec![stmt(1, sp(2, 8), 11), stmt(2, sp(10, 16), 12), stmt(3, sp(18, 24), 13)]);
    let mut next = 10;
    let new = render(
        block(vec![stmt(1, sp(2, 8), 11), stmt(4, Span::dummy(), 14), stmt(3, sp(18, 24), 13)]),
        &mut next,
    );
    let fresh_text = printed_span(&new.fields[0].nodes[1]);
    assert_eq!(fresh_text, Span { file: 11, lo: 0, hi: 2, ctxt: 0 });
    let edits = rewrite(&old, &new, &files()).unwrap();
    assert_eq!(
        edits,
        vec![
            Edit { target: sp(10, 16), source: Span::dummy(), nested: vec![], adjust: TextAdjust::AsIs },
            Edit { target: sp(16, 16), source: fresh_text, nested: vec![], adjust: TextAdjust::AsIs },
        ]
    );
}

#[test]
fn single_insertion_gives_one_edit() {
    let old = block(vec![stmt(1, sp(2, 8), 11), stmt(2, sp(10, 16), 12), stmt(3, sp(18, 24), 13)]);
    let mut next = 10;
    let new = render(
        block(vec![
            stmt(1, sp(2, 8), 11),
            stmt(2, sp(10, 16), 12),
            stmt(9, Span::dummy(), 19),
            stmt(3, sp(18, 24), 13),
        ]),
        &mut next,
    );
    let fresh_text = printed_span(&new.fields[0].nodes[2]);
    let edits = rewrite(&old, &new, &files()).unwrap();
    assert_eq!(
        edits,
        vec![Edit { target: sp(16, 16), source: fresh_text, nested: vec![], adjust: TextAdjust::AsIs }]
    );
}

#[test]
fn insertion_at_the_front_goes_before_the_first_element() {
    let old = block(vec![stmt(1, sp(2, 8), 11), stmt(2, sp(10, 16), 12)]);
    let mut next = 10;
    let new = render(
        block(vec![stmt(9, Span::dummy(), 19), stmt(1, sp(2, 8), 11), stmt(2, sp(10, 16), 12)]),
        &mut next,
    );
    let fresh_text = printed_span(&new.fields[0].nodes[0]);
    let edits = rewrite(&old, &new, &files()).unwrap();
    assert_eq!(
        edits,
        vec![Edit { target: sp(2, 2), source: fresh_text, nested: vec![], adjust: TextAdjust::AsIs }]
    );
}

#[test]
fn single_deletion_gives_one_edit() {
    let old = block(vec![stmt(1, sp(2, 8), 11), stmt(2, sp(10, 16), 12), stmt(3, sp(18, 24), 13)]);
    let mut next = 10;
    let new = render(block(vec![stmt(1, sp(2, 8), 11), stmt(3, sp(18, 24), 13)]), &mut next);
    let edits = rewrite(&old, &new, &files()).unwrap();
    assert_eq!(
        edits,
        vec![Edit { target: sp(10, 16), source: Span::dummy(), nested: vec![], adjust: TextAdjust::AsIs }]
    );
}

#[test]
fn list_that_was_empty_cannot_be_aligned() {
    let old = block(vec![]);
    let mut next = 10;
    let new = render(block(vec![stmt(9, Span::dummy(), 19)]), &mut next);
    assert_eq!(rewrite(&old, &new, &files()), None);
}

#[test]
fn insertion_between_elements_that_macros_wrote_fails() {
    let from_macro = Span { file: 1, lo: 2, hi: 8, ctxt: 3 };
    let old = block(vec![stmt(1, from_macro, 11)]);
    let mut next = 10;
    let new = render(block(vec![stmt(1, from_macro, 11), stmt(9, Span::dummy(), 19)]), &mut next);
    assert_eq!(rewrite(&old, &new, &files()), None);
}

#[test]
fn unaligned_list_of_other_length_fails() {
    let old = node(NodeKind::Other, 100, sp(0, 30), 1, vec![Field {
        aligned: false,
        prec: None,
        nodes: vec![node(NodeKind::Other, 1, sp(2, 8), 11, vec![])],
    }]);
    let new = node(NodeKind::Other, 100, sp(0, 30), 1, vec![Field {
        aligned: false,
        prec: None,
        nodes: vec![],
    }]);
    assert_eq!(rewrite(&old, &new, &files()), None);
}

#[test]
fn changed_node_is_printed_afresh_at_the_closest_splice_point() {
    // An expression whose child, which is no splice point, changed.
    let old = node(expr(18), 1, sp(0, 9), 5, vec![one(node(NodeKind::Other, 2, sp(3, 6), 21, vec![]))]);
    let mut next = 10;
    let new = render(
        node(expr(18), 1, sp(0, 9), 5, vec![one(node(NodeKind::Other, 2, sp(3, 6), 22, vec![]))]),
        &mut next,
    );
    let edits = rewrite(&old, &new, &files()).unwrap();
    assert_eq!(
        edits,
        vec![Edit {
            target: sp(0, 9),
            source: Span { file: 10, lo: 0, hi: 4, ctxt: 0 },
            nested: vec![],
            adjust: TextAdjust::AsIs,
        }]
    );
}

#[test]
fn unchanged_child_of_fresh_node_is_reverted_to_old_text() {
    // `x` becomes `-x`: the operand is copied from the old tree.
    let old = node(NodeKind::Other, 100, sp(0, 30), 1, vec![one(node(expr(99), 2, sp(4, 5), 31, vec![]))]);
    let mut next = 10;
    let new = render(
        node(NodeKind::Other, 100, sp(0, 30), 1, vec![one(node(
            expr(14),
            60,
            Span::dummy(),
            32,
            vec![at(ExprPrec::Normal(14), node(expr(99), 2, sp(4, 5), 31, vec![]))],
        ))]),
        &mut next,
    );
    let negation = &new.fields[0].nodes[0];
    let printed = negation.printed.as_ref().unwrap();
    let edits = rewrite(&old, &new, &files()).unwrap();
    assert_eq!(
        edits,
        vec![Edit {
            target: sp(4, 5),
            source: printed.span,
            nested: vec![Edit {
                target: printed.fields[0].nodes[0].span,
                source: sp(4, 5),
                nested: vec![],
                adjust: TextAdjust::AsIs,
            }],
            adjust: TextAdjust::AsIs,
        }]
    );
}

#[test]
fn child_with_the_span_of_the_fresh_node_is_not_reverted() {
    // A statement and the expression that is all of it share their span.
    let old = node(NodeKind::Stmt, 1, sp(0, 5), 41, vec![one(node(expr(99), 2, sp(0, 5), 31, vec![]))]);
    let mut next = 10;
    let new = render(
        node(NodeKind::Stmt, 1, sp(0, 5), 42, vec![one(node(expr(99), 2, sp(0, 5), 31, vec![]))]),
        &mut next,
    );
    let edits = rewrite(&old, &new, &files()).unwrap();
    assert_eq!(
        edits,
        vec![Edit {
            target: sp(0, 5),
            source: printed_span(&new),
            nested: vec![],
            adjust: TextAdjust::AsIs,
        }]
    );
}

#[test]
fn node_that_a_macro_wrote_is_abandoned() {
    let from_macro = Span { file: 0, lo: 4, hi: 5, ctxt: 7 };
    let old = node(NodeKind::Other, 100, sp(0, 30), 1, vec![one(node(expr(99), 2, from_macro, 31, vec![]))]);
    let mut next = 10;
    let new = render(
        node(NodeKind::Other, 100, sp(0, 30), 1, vec![one(node(expr(99), 2, from_macro, 33, vec![]))]),
        &mut next,
    );
    assert_eq!(rewrite(&old, &new, &files()), Some(vec![]));
}

#[test]
fn node_in_a_file_of_expansions_is_not_reverted() {
    let in_macros = Span { file: 1, lo: 4, hi: 5, ctxt: 0 };
    let old = node(NodeKind::Other, 100, sp(0, 30), 1, vec![
        one(node(expr(99), 2, in_macros, 31, vec![])),
        one(node(expr(99), 3, sp(7, 8), 31, vec![])),
    ]);
    let mut next = 10;
    // Both old expressions become children of one new expression that takes
    // the place of the second.
    let new = render(
        node(NodeKind::Other, 100, sp(0, 30), 1, vec![
            one(node(expr(99), 2, in_macros, 31, vec![])),
            one(node(expr(12), 61, Span::dummy(), 35, vec![
                one(node(expr(99), 2, in_macros, 31, vec![])),
                one(node(expr(99), 3, sp(7, 8), 31, vec![])),
            ])),
        ]),
        &mut next,
    );
    let printed = new.fields[1].nodes[0].printed.as_ref().unwrap();
    let edits = rewrite(&old, &new, &files()).unwrap();
    assert_eq!(
        edits,
        vec![Edit {
            target: sp(7, 8),
            source: printed.span,
            nested: vec![Edit {
                target: printed.fields[1].nodes[0].span,
                source: sp(7, 8),
                nested: vec![],
                adjust: TextAdjust::AsIs,
            }],
            adjust: TextAdjust::AsIs,
        }]
    );
}

#[test]
fn looser_left_operand_is_parenthesized() {
    // `x * y` becomes `(a + b) * y`.
    let product = |left: Node| {
        node(expr(13), 1, sp(0, 5), 51, vec![
            at(ExprPrec::Normal(13), left),
            at(ExprPrec::Normal(14), node(expr(99), 3, sp(4, 5), 31, vec![])),
        ])
    };
    let old = product(node(expr(99), 2, sp(0, 1), 31, vec![]));
    let mut next = 10;
    let new = render(
        product(node(expr(12), 50, Span::dummy(), 52, vec![
            at(ExprPrec::Normal(12), node(expr(99), 51, Span::dummy(), 31, vec![])),
            at(ExprPrec::Normal(13), node(expr(99), 52, Span::dummy(), 31, vec![])),
        ])),
        &mut next,
    );
    let sum = printed_span(&new.fields[0].nodes[0]);
    let edits = rewrite(&old, &new, &files()).unwrap();
    assert_eq!(
        edits,
        vec![Edit { target: sp(0, 1), source: sum, nested: vec![], adjust: TextAdjust::Parenthesize }]
    );
}

#[test]
fn expression_as_a_statement_is_not_parenthesized() {
    // The statement `x;` becomes `a + b;`.
    let statement = |e: Node| {
        node(NodeKind::Other, 100, sp(0, 30), 1, vec![at(ExprPrec::Normal(PREC_RESET), e)])
    };
    let old = statement(node(expr(99), 2, sp(0, 1), 31, vec![]));
    let mut next = 10;
    let new = render(statement(node(expr(12), 50, Span::dummy(), 52, vec![])), &mut next);
    let sum = printed_span(&new.fields[0].nodes[0]);
    let edits = rewrite(&old, &new, &files()).unwrap();
    assert_eq!(
        edits,
        vec![Edit { target: sp(0, 1), source: sum, nested: vec![], adjust: TextAdjust::AsIs }]
    );
}

#[test]
fn struct_literal_in_a_condition_is_parenthesized() {
    let condition = |e: Node| {
        node(NodeKind::Other, 100, sp(0, 30), 1, vec![at(ExprPrec::Cond(PREC_RESET), e)])
    };
    let old = condition(node(expr(99), 2, sp(3, 4), 31, vec![]));
    let mut next = 10;
    let literal = NodeKind::Expr(ExprInfo {
        precedence: 99,
        exterior_struct_lit: true,
        field_access: false,
    });
    let new = render(condition(node(literal, 50, Span::dummy(), 53, vec![])), &mut next);
    let edits = rewrite(&old, &new, &files()).unwrap();
    assert_eq!(edits.len(), 1);
    assert_eq!(edits[0].adjust, TextAdjust::Parenthesize);
}

#[test]
fn field_access_as_a_callee_is_parenthesized() {
    let call = |e: Node| {
        node(NodeKind::Other, 100, sp(0, 30), 1, vec![at(ExprPrec::Callee(17), e)])
    };
    let old = call(node(expr(99), 2, sp(3, 4), 31, vec![]));
    let mut next = 10;
    let access = NodeKind::Expr(ExprInfo {
        precedence: 18,
        exterior_struct_lit: false,
        field_access: true,
    });
    let new = render(call(node(access, 50, Span::dummy(), 54, vec![])), &mut next);
    let edits = rewrite(&old, &new, &files()).unwrap();
    assert_eq!(edits.len(), 1);
    assert_eq!(edits[0].adjust, TextAdjust::Parenthesize);
}

fn overlap(a: Span, b: Span) -> bool {
    a.file == b.file && a.lo < b.hi && b.lo < a.hi
}

#[test]
fn edits_of_a_changed_list_do_not_overlap() {
    // Of five statements the second and fourth go, two come new at the
    // front and one at the end, and the third changes.
    let old = block(vec![
        stmt(1, sp(2, 5), 11),
        stmt(2, sp(6, 9), 12),
        stmt(3, sp(10, 13), 13),
        stmt(4, sp(14, 17), 14),
        stmt(5, sp(18, 21), 15),
    ]);
    let mut next = 10;
    let new = render(
        block(vec![
            stmt(7, Span::dummy(), 17),
            stmt(8, Span::dummy(), 18),
            stmt(1, sp(2, 5), 11),
            stmt(3, sp(10, 13), 33),
            stmt(5, sp(18, 21), 15),
            stmt(9, Span::dummy(), 19),
        ]),
        &mut next,
    );
    let edits = rewrite(&old, &new, &files()).unwrap();
    let targets: Vec<Span> = edits.iter().map(|e| e.target).collect();
    assert_eq!(targets, vec![sp(2, 2), sp(2, 2), sp(6, 9), sp(10, 13), sp(14, 17), sp(21, 21)]);
    for (a, x) in targets.iter().enumerate() {
        assert!(x.file == 0 && x.lo <= x.hi && x.hi <= 30 && x.ctxt == 0);
        for y in &targets[a + 1..] {
            assert!(!overlap(*x, *y));
        }
    }
}

#[test]
fn renderable_trees_are_told_from_the_others() {
    let bare = block(vec![stmt(1, sp(2, 8), 11)]);
    assert!(!is_renderable(&bare));
    let mut next = 10;
    let rendered = render(block(vec![stmt(1, sp(2, 8), 11)]), &mut next);
    assert!(is_renderable(&rendered));
    let statement = &rendered.fields[0].nodes[0];
    assert!(is_mirror(statement, statement.printed.as_ref().unwrap()));
    assert!(!is_mirror(statement, &stmt(1, sp(2, 8), 12)));
    assert!(!is_mirror(&rendered, statement));
    // A node that cannot be printed on its own has no place in an aligned
    // list.
    let mut next = 10;
    let other = render(
        node(NodeKind::Other, 100, sp(0, 30), 1, vec![list(vec![node(
            NodeKind::Other,
            1,
            sp(2, 8),
            11,
            vec![],
        )])]),
        &mut next,
    );
    assert!(!is_renderable(&other));
}

#[test]
fn deleted_element_that_a_macro_wrote_is_abandoned() {
    let from_macro = Span { file: 0, lo: 2, hi: 8, ctxt: 3 };
    let old = block(vec![stmt(1, from_macro, 11)]);
    let mut next = 10;
    let new = render(block(vec![]), &mut next);
    assert_eq!(rewrite(&old, &new, &files()), Some(vec![]));
}

#[test]
fn only_elements_with_text_of_their_own_are_deleted() {
    let from_macro = Span { file: 0, lo: 10, hi: 16, ctxt: 3 };
    let old = block(vec![stmt(1, sp(2, 8), 11), stmt(2, from_macro, 12), stmt(3, sp(18, 24), 13)]);
    let mut next = 10;
    let new = render(block(vec![stmt(1, sp(2, 8), 11)]), &mut next);
    let edits = rewrite(&old, &new, &files()).unwrap();
    assert_eq!(
        edits,
        vec![Edit { target: sp(18, 24), source: Span::dummy(), nested: vec![], adjust: TextAdjust::AsIs }]
    );
    assert!(edits.iter().all(|e| e.target.ctxt == 0));
}

#[test]
fn trees_are_alike_but_for_placeholders() {
    let old = block(vec![stmt(1, sp(2, 8), 11), stmt(2, sp(10, 16), 12)]);
    let mut next = 10;
    let new = render(block(vec![stmt(1, sp(2, 8), 11), stmt(2, sp(10, 16), 12)]), &mut next);
    assert!(new.printed.is_none() && new.fields[0].nodes[0].printed.is_some());
    assert!(is_alike(&new, &old));
    assert_eq!(rewrite(&old, &new, &files()), Some(vec![]));
    assert!(!is_alike(&new, &block(vec![stmt(1, sp(2, 8), 11), stmt(2, sp(10, 16), 13)])));
    assert!(!is_alike(&new, &block(vec![stmt(1, sp(2, 8), 11), stmt(2, sp(10, 17), 12)])));
    assert!(!is_alike(&new, &block(vec![stmt(1, sp(2, 8), 11), stmt(3, sp(10, 16), 12)])));
    assert!(!is_alike(&new, &block(vec![stmt(1, sp(2, 8), 11)])));
}
